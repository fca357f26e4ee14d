//! Follows a speaker through a known script: a bounded local alignment of each
//! recognised fragment against a window of the script, and the small state
//! machines that drive the capture session and the streaming connection.

pub mod local_alignment;
pub mod script_text;
pub mod alignment;
pub mod link;
pub mod pcm;
pub mod session;
