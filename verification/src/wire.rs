//! Wire framing and packet layout: packet headers, section framing,
//! compact session headers and limit enforcement.
pub mod bytes;
mod error;
mod header;
mod limits;
mod packet;
mod session;

pub use error::{DecodeError, EncodeError, LimitKind, SectionFramingError, WireError, WireResult};
pub use header::{
    has_delta, has_full, has_reserved, has_session, valid_v0, valid_v2, PacketFlags, PacketHeader,
    FLAG_DELTA_SNAPSHOT, FLAG_FULL_SNAPSHOT, FLAG_SESSION_INIT, HEADER_SIZE, MAGIC, VERSION,
};
pub use limits::Limits;
pub use packet::{
    decode_packet, decode_sections, encode_header, encode_section, header_bytes, prepend_ok,
    sat_add, section_bytes, section_view, sections_view, spec_decode_header, spec_decode_packet,
    spec_decode_sections, tag_of, tag_raw, SectionTag, WirePacket, WireSection, sections_bytes,
    bodies_fit, lemma_sections_roundtrip, lemma_header_roundtrip,
};
pub use session::{
    decode_session_header, encode_session_header, lemma_session_header_fields, lemma_session_header_roundtrip, session_delta,
    session_full, session_header_bytes, session_valid, session_varint, spec_decode_session_header,
    SessionFlags, SessionHeader, SESSION_MAX_HEADER_SIZE,
};
