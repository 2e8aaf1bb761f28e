//! A minimal encoder for the ASCII (`P3`) variant of the PPM image format.
//!
//! The encoder takes a flat buffer of floating-point color samples, carried
//! by their IEEE 754 binary32 bit patterns, together with the declared image
//! width and height, and streams a `P3` header followed by one quantized
//! byte per channel to a caller-supplied byte sink.

pub mod format;
pub mod quantize;
pub mod sink;
pub mod writer;

pub use quantize::Sample;
pub use quantize::quantize;
pub use sink::Sink;
pub use sink::SinkError;
pub use sink::VecSink;
pub use writer::PPMWriter;
pub use writer::encode_to_vec;
