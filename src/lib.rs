//! Client-side core of a streaming speech-synthesis protocol: the request
//! markup, the header blocks of incoming frames, and the session engine that
//! reassembles the audio from a stream of text and binary frames.

pub mod headers;
pub mod markup;
pub mod request;
pub mod session;
pub mod voice_list;

pub use headers::parse_headers;
pub use markup::build_ssml;
pub use request::{config_message, random_request_id, ssml_message};
pub use session::{run_session, Frame, Session, SessionError};
pub use voice_list::{Voice, VoiceTag};
