//! Transport and dispatch layer of a language server: length-prefixed message
//! framing over byte streams, an incremental codec for the same wire format,
//! adapters from typed handlers to JSON-RPC responses, and sinks that share
//! or coalesce outgoing work.

pub mod codec;
pub mod command;
pub mod length;
pub mod reader;
pub mod sink;
pub mod stream;
pub mod text;
pub mod wire;

pub use codec::{DecodeError, EncodeError, LanguageServerDecoder, LanguageServerEncoder};
pub use command::{
    internal_error, invalid_params, rejection, response, ErrorCode, LanguageServerCommand,
    LanguageServerNotification, ResponseError, ServerCommand, ServerError,
};
pub use reader::{advance, read_message, ReadError, ReadState, ReadStep, Wanted};
pub use sink::{
    sink_fn, Async, AsyncSink, Entry, Poll, SharedSink, Sink, SinkFn, StartSend, UniqueQueue,
};
pub use length::parse_length;
pub use wire::write_message_str;
