//! The bridge between an editor and a Java language server for JSP files.
//!
//! A JSP text is scanned for scriptlets, which are laid out as a virtual Java
//! document; that document goes to the Java language server in frames of the
//! base protocol; the diagnostics that come back are carried over to the JSP
//! source, merged with the findings of the scan, and published. Nothing here
//! reads or writes: the caller moves the bytes, the library decides.
//!
//! - [`wire`]: frames of the base protocol, written and read.
//! - [`translator`]: from JSP text to blocks and structural diagnostics.
//! - [`model`]: positions, diagnostics, blocks and the virtual document.
//! - [`mapping`]: from virtual coordinates back to JSP coordinates.
//! - [`geometry`]: why the way back is right.
//! - [`merge`]: diagnostics in range order, each finding once.
//! - [`message`]: the JSON-RPC messages for the Java language server.
//! - [`session`]: the handshake and the fate of a validation in each state.
//! - [`launch`]: what is settled before the Java language server starts.
//! - [`bytes`], [`decimal`], [`lines`], [`unicode`]: the ground they stand on.

pub mod bytes;
pub mod decimal;
pub mod geometry;
pub mod launch;
pub mod lines;
pub mod mapping;
pub mod merge;
pub mod message;
pub mod method;
pub mod model;
pub mod session;
pub mod translator;
pub mod unicode;
pub mod wire;
