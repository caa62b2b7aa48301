//! PTY and child-process management primitives, with the decisions that
//! drive them stated and proved.

pub mod error;
pub mod introspection;
pub mod os;
pub mod paths;
pub mod pty;
pub mod reaper;
pub mod session;
pub mod spawn;
pub mod text;

pub use error::ProcessError;
pub use session::ProcessSessionConfig;
