//! Profiling data of Go programs for a language server.
//!
//! A pprof profile is read from its bytes ([`profile`], [`decode`], [`wire`], [`proto`]),
//! summed up by line and by function ([`analysis`], [`costs`]), and shown in the editor as
//! inlay hints, code lenses and diagnostics ([`hints`], [`lenses`], [`diagnostics`],
//! [`format`], [`binary64`], [`lsp`]). [`discovery`] and [`watch`] find the profile files
//! and notice when they change, [`paths`], [`rules`] and [`relocation`] find the profile's
//! source files in the workspace, and [`server`] holds the state and answers requests.
//! [`extension`] is the editor's side. [`encoding`] states which bytes encode a profile.

pub mod analysis;
pub mod binary64;
pub mod config;
pub mod costs;
pub mod decode;
pub mod diagnostics;
pub mod discovery;
pub mod encoding;
pub mod extension;
pub mod format;
pub mod hints;
pub mod lenses;
pub mod lsp;
pub mod paths;
pub mod profile;
pub mod proto;
pub mod relocation;
pub mod rules;
pub mod server;
pub mod text;
pub mod watch;
pub mod wire;
