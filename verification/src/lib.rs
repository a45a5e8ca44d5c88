//! Snapshot and delta encoding codec for realtime state replication.
pub mod bitstream;
pub mod codec;
pub mod demo_schema;
pub mod demo_sim;
pub mod repgraph;
pub mod schema;
pub mod sdec_bevy;
pub mod text;
pub mod wire;
