//! The document notifications that are forwarded to the Java language server.

use vstd::prelude::*;

verus! {

/// Which document notification is sent to the Java language server.
#[derive(Clone, Copy, Debug, PartialEq, Eq, Structural)]
pub enum JavaLspMethod {
    DidOpen,
    DidChange,
}

impl JavaLspMethod {
    /// The method name as it appears on the wire.
    pub open spec fn name(self) -> Seq<char> {
        match self {
            JavaLspMethod::DidOpen => "textDocument/didOpen"@,
            JavaLspMethod::DidChange => "textDocument/didChange"@,
        }
    }

    /// The JSON-RPC method name of this notification.
    pub fn value(&self) -> (name: &'static str)
        ensures
            name@ == self.name(),
    {
        match *self {
            JavaLspMethod::DidOpen => "textDocument/didOpen",
            JavaLspMethod::DidChange => "textDocument/didChange",
        }
    }
}

} // verus!
