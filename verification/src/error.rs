//! Compilation errors.
//!
//! Every error is terminal for the compilation unit and names the offending
//! node together with the variable or callee that caused the failure, so the
//! report is actionable without re-deriving the dependency graph.

use vstd::prelude::*;

verus! {

/// The error taxonomy of the compiler core.
#[derive(Debug, PartialEq, Eq)]
pub enum Error {
    /// Malformed input tree: a followed-by whose initial side is not made of
    /// constants or does not pair up with its next side, or an equation that
    /// binds no name, or an identifier that resolves to neither an input nor
    /// an equation.
    StructuralViolation { node: String, name: String },
    /// Two equations in one node define the same name.
    DuplicateDefinition { node: String, name: String },
    /// A variable transitively depends on itself.
    CircularDependency { node: String, name: String },
    /// A call references a name with no matching declaration and no builtin.
    UnknownCallee { node: String, callee: String },
    /// A node calls itself or a later-declared node.
    UnsupportedRecursion { node: String, callee: String },
}

/// Ghost mirror of [`Error`].
pub enum ErrorV {
    StructuralViolation { node: Seq<char>, name: Seq<char> },
    DuplicateDefinition { node: Seq<char>, name: Seq<char> },
    CircularDependency { node: Seq<char>, name: Seq<char> },
    UnknownCallee { node: Seq<char>, callee: Seq<char> },
    UnsupportedRecursion { node: Seq<char>, callee: Seq<char> },
}

impl View for Error {
    type V = ErrorV;

    open spec fn view(&self) -> ErrorV {
        match self {
            Error::StructuralViolation { node, name } => ErrorV::StructuralViolation {
                node: node@,
                name: name@,
            },
            Error::DuplicateDefinition { node, name } => ErrorV::DuplicateDefinition {
                node: node@,
                name: name@,
            },
            Error::CircularDependency { node, name } => ErrorV::CircularDependency {
                node: node@,
                name: name@,
            },
            Error::UnknownCallee { node, callee } => ErrorV::UnknownCallee {
                node: node@,
                callee: callee@,
            },
            Error::UnsupportedRecursion { node, callee } => ErrorV::UnsupportedRecursion {
                node: node@,
                callee: callee@,
            },
        }
    }
}

/// The rendering of an error, over views.
pub open spec fn message_view(e: ErrorV) -> Seq<char> {
    match e {
        ErrorV::StructuralViolation { node, name } =>
            "malformed equation for `"@ + name + "` in node `"@ + node + "`"@,
        ErrorV::DuplicateDefinition { node, name } =>
            "multiple equations define `"@ + name + "` in node `"@ + node + "`"@,
        ErrorV::CircularDependency { node, name } =>
            "circular dependency through `"@ + name + "` in node `"@ + node + "`"@,
        ErrorV::UnknownCallee { node, callee } =>
            "unknown callee `"@ + callee + "` in node `"@ + node + "`"@,
        ErrorV::UnsupportedRecursion { node, callee } =>
            "call to `"@ + callee + "` before its declaration in node `"@ + node + "`"@,
    }
}

impl Error {
    /// A human-readable report naming the node and the variable or callee.
    pub fn message(&self) -> (r: String)
        ensures
            r@ == message_view(self@),
    {
        let mut s = String::new();
        match self {
            Error::StructuralViolation { node, name } => {
                s.push_str("malformed equation for `");
                s.push_str(name.as_str());
                s.push_str("` in node `");
                s.push_str(node.as_str());
                s.push_str("`");
            }
            Error::DuplicateDefinition { node, name } => {
                s.push_str("multiple equations define `");
                s.push_str(name.as_str());
                s.push_str("` in node `");
                s.push_str(node.as_str());
                s.push_str("`");
            }
            Error::CircularDependency { node, name } => {
                s.push_str("circular dependency through `");
                s.push_str(name.as_str());
                s.push_str("` in node `");
                s.push_str(node.as_str());
                s.push_str("`");
            }
            Error::UnknownCallee { node, callee } => {
                s.push_str("unknown callee `");
                s.push_str(callee.as_str());
                s.push_str("` in node `");
                s.push_str(node.as_str());
                s.push_str("`");
            }
            Error::UnsupportedRecursion { node, callee } => {
                s.push_str("call to `");
                s.push_str(callee.as_str());
                s.push_str("` before its declaration in node `");
                s.push_str(node.as_str());
                s.push_str("`");
            }
        }
        proof {
            assert(s@ =~= message_view(self@));
        }
        s
    }
}

} // verus!
