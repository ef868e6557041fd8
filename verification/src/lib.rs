
pub mod text;
pub mod diff;
pub mod spans;
pub mod state;
pub mod index;
pub mod gitx;
pub mod diff_laws;
pub mod server;
pub mod paths;
pub mod watch;
pub mod usages;
pub mod syntax;
pub mod hunk_laws;
