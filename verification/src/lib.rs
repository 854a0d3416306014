//! A file-change distribution core: watched paths are resolved to a
//! single covering root, raw filesystem events are filtered against
//! the exact watch set and coalesced per path until quiet for a
//! tolerance window, and each flushed change is framed and fanned out
//! to every live subscriber, which decodes frames back into files.
//!
//! Everything here is the decision-making heart of that daemon; the
//! surrounding process — the native watch, sockets, disk and clock —
//! hands in plain values and carries the answers out.


pub mod args;
pub mod client;
pub mod codec;
pub mod debounce;
pub mod paths;
pub mod session;
pub mod watch;

pub use codec::FrameError;
pub use paths::ConfigError;
