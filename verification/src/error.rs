//! The closed set of build errors.

use vstd::prelude::*;

use crate::bytes::deep;

verus! {

#[derive(Clone, Copy, PartialEq, Eq, Structural, Debug)]
pub enum FileIOAction {
    Open,
    Read,
    Parse,
    Delete,
    Create,
    WriteTo,
    FindParent,
}

#[derive(Clone, Copy, PartialEq, Eq, Structural, Debug)]
pub enum FileKind {
    File,
    Directory,
}

/// A span of byte offsets into a source text.
#[derive(Clone, Copy, PartialEq, Eq, Structural, Debug)]
pub struct SrcSpan {
    pub start: usize,
    pub end: usize,
}

/// A grammar error: the offending statement and its first token.
#[derive(Debug)]
pub struct ParseError {
    pub location: SrcSpan,
    pub token: Vec<u8>,
}

/// The ghost image of a `ParseError`.
pub ghost struct ParseErrorV {
    pub location: SrcSpan,
    pub token: Seq<u8>,
}

impl View for ParseError {
    type V = ParseErrorV;

    open spec fn view(&self) -> ParseErrorV {
        ParseErrorV { location: self.location, token: self.token@ }
    }
}

/// A semantic error from type inference.
#[derive(Debug)]
pub enum TypeError {
    DuplicateDefinition { name: Vec<u8>, location: SrcSpan },
}

pub ghost enum TypeErrorV {
    DuplicateDefinition { name: Seq<u8>, location: SrcSpan },
}

impl View for TypeError {
    type V = TypeErrorV;

    open spec fn view(&self) -> TypeErrorV {
        match self {
            TypeError::DuplicateDefinition { name, location } => TypeErrorV::DuplicateDefinition {
                name: name@,
                location: *location,
            },
        }
    }
}

/// Every failure the engine can report.
#[derive(Debug)]
pub enum Error {
    FileIO { action: FileIOAction, kind: FileKind, path: Vec<u8>, err: Option<Vec<u8>> },
    Parse { path: Vec<u8>, src: Vec<u8>, error: ParseError },
    Type { path: Vec<u8>, src: Vec<u8>, error: TypeError },
    UnknownImport {
        module: Vec<u8>,
        import: Vec<u8>,
        location: SrcSpan,
        path: Vec<u8>,
        src: Vec<u8>,
        modules: Vec<Vec<u8>>,
    },
    Cycle { modules: Vec<Vec<u8>> },
}

pub ghost enum ErrorV {
    FileIO { action: FileIOAction, kind: FileKind, path: Seq<u8>, err: Option<Seq<u8>> },
    Parse { path: Seq<u8>, src: Seq<u8>, error: ParseErrorV },
    Type { path: Seq<u8>, src: Seq<u8>, error: TypeErrorV },
    UnknownImport {
        module: Seq<u8>,
        import: Seq<u8>,
        location: SrcSpan,
        path: Seq<u8>,
        src: Seq<u8>,
        modules: Seq<Seq<u8>>,
    },
    Cycle { modules: Seq<Seq<u8>> },
}

impl View for Error {
    type V = ErrorV;

    open spec fn view(&self) -> ErrorV {
        match self {
            Error::FileIO { action, kind, path, err } => ErrorV::FileIO {
                action: *action,
                kind: *kind,
                path: path@,
                err: match err {
                    Some(e) => Some(e@),
                    None => None,
                },
            },
            Error::Parse { path, src, error } => ErrorV::Parse {
                path: path@,
                src: src@,
                error: error@,
            },
            Error::Type { path, src, error } => ErrorV::Type {
                path: path@,
                src: src@,
                error: error@,
            },
            Error::UnknownImport { module, import, location, path, src, modules } => {
                ErrorV::UnknownImport {
                    module: module@,
                    import: import@,
                    location: *location,
                    path: path@,
                    src: src@,
                    modules: deep(modules@),
                }
            },
            Error::Cycle { modules } => ErrorV::Cycle {
                modules: deep(modules@),
            },
        }
    }
}

impl ErrorV {
    /// True of the error kind that marks an unresolvable module.
    pub open spec fn is_file_io(self) -> bool {
        match self {
            ErrorV::FileIO { .. } => true,
            _ => false,
        }
    }

    /// True of the error kind raised on a cyclic import graph.
    pub open spec fn is_cycle(self) -> bool {
        match self {
            ErrorV::Cycle { .. } => true,
            _ => false,
        }
    }
}

} // verus!
