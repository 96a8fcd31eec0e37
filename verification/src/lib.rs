//! Streaming Base64 transcoding.
//!
//! Four adapters convert byte streams through Base64 incrementally, without
//! buffering the whole payload: [`ToBase64Reader`] and [`FromBase64Reader`]
//! pull bytes from an inner source and serve the transcoded stream;
//! [`ToBase64Writer`] and [`FromBase64Writer`] accept bytes pushed by the
//! caller and deliver the transcoded stream to an inner sink.
//!
//! The actual 3-byte/4-symbol transform is delegated to the `base64` crate
//! (standard alphabet, canonical `=` padding); everything around it — the
//! staging buffer, its compaction, the overflow cell held between calls, and
//! the holdover of partial groups — is specified and verified here against
//! the mathematical encoding [`codec::encode_of`].

pub mod codec;
pub mod from_base64_reader;
pub mod from_base64_writer;
pub mod stream;
pub mod to_base64_reader;
pub mod to_base64_writer;

pub use codec::DecodeError;
pub use from_base64_reader::FromBase64Reader;
pub use from_base64_writer::FromBase64Writer;
pub use stream::ByteSink;
pub use stream::ByteSource;
pub use stream::MemSink;
pub use stream::MemSource;
pub use stream::PullOutcome;
pub use stream::PushOutcome;
pub use stream::StutterSource;
pub use stream::TranscodeError;
pub use to_base64_reader::ToBase64Reader;
pub use to_base64_writer::ToBase64Writer;
