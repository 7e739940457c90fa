//! Deep equality checks and fresh copies of the engine's value types.
//!
//! The memo cache compares a recomputed value with the cached one to
//! decide whether downstream queries must be revalidated, and it hands
//! out copies of cached values; both operations are specified through
//! the types' views.

use vstd::prelude::*;

use crate::bytes::{bytes_eq, copy_bytes, copy_bytes_list, deep};
use crate::error::{
    Error, ErrorV, ParseError, ParseErrorV, SrcSpan, TypeError, TypeErrorV,
};
use crate::project::{
    deps_v, infos_v, stmts_v, Analysed, AnalysedV, Input, InputV, Module, ModuleV, Statement,
    StatementV, TypeInfo, TypeInfoV, TypedModule, TypedModuleV, UntypedModule, UntypedModuleV,
};

verus! {

/// Equality of two lists of byte strings.
pub fn names_eq(a: &Vec<Vec<u8>>, b: &Vec<Vec<u8>>) -> (r: bool)
    ensures
        r <==> deep(a@) == deep(b@),
{
    if a.len() != b.len() {
        proof {
            if deep(a@) == deep(b@) {
                assert(deep(a@).len() == deep(b@).len());
            }
        }
        return false;
    }
    let mut i: usize = 0;
    while i < a.len()
        invariant
            i <= a.len(),
            a@.len() == b@.len(),
            forall|j: int| 0 <= j < i ==> deep(a@)[j] == deep(b@)[j],
        decreases a.len() - i,
    {
        if !bytes_eq(a[i].as_slice(), b[i].as_slice()) {
            proof {
                if deep(a@) == deep(b@) {
                    assert(deep(a@)[i as int] == deep(b@)[i as int]);
                }
            }
            return false;
        }
        i = i + 1;
    }
    proof {
        assert(deep(a@) =~= deep(b@));
    }
    true
}

/// Equality of two dependency lists.
pub fn deps_eq(a: &Vec<(Vec<u8>, SrcSpan)>, b: &Vec<(Vec<u8>, SrcSpan)>) -> (r: bool)
    ensures
        r <==> deps_v(a@) == deps_v(b@),
{
    if a.len() != b.len() {
        proof {
            if deps_v(a@) == deps_v(b@) {
                assert(deps_v(a@).len() == deps_v(b@).len());
            }
        }
        return false;
    }
    let mut i: usize = 0;
    while i < a.len()
        invariant
            i <= a.len(),
            a@.len() == b@.len(),
            forall|j: int| 0 <= j < i ==> deps_v(a@)[j] == deps_v(b@)[j],
        decreases a.len() - i,
    {
        let ok = bytes_eq(a[i].0.as_slice(), b[i].0.as_slice()) && a[i].1 == b[i].1;
        if !ok {
            proof {
                if deps_v(a@) == deps_v(b@) {
                    assert(deps_v(a@)[i as int] == deps_v(b@)[i as int]);
                }
            }
            return false;
        }
        i = i + 1;
    }
    proof {
        assert(deps_v(a@) =~= deps_v(b@));
    }
    true
}

/// Equality of two statements.
pub fn stmt_eq(a: &Statement, b: &Statement) -> (r: bool)
    ensures
        r <==> a@ == b@,
{
    match (a, b) {
        (
            Statement::Import { module: m1, location: l1, doc: d1 },
            Statement::Import { module: m2, location: l2, doc: d2 },
        ) => names_eq(m1, m2) && *l1 == *l2 && names_eq(d1, d2),
        (
            Statement::FnDef { name: n1, public: p1, location: l1, doc: d1 },
            Statement::FnDef { name: n2, public: p2, location: l2, doc: d2 },
        ) => bytes_eq(n1.as_slice(), n2.as_slice()) && *p1 == *p2 && *l1 == *l2 && names_eq(
            d1,
            d2,
        ),
        (
            Statement::TypeDef { name: n1, public: p1, location: l1, doc: d1 },
            Statement::TypeDef { name: n2, public: p2, location: l2, doc: d2 },
        ) => bytes_eq(n1.as_slice(), n2.as_slice()) && *p1 == *p2 && *l1 == *l2 && names_eq(
            d1,
            d2,
        ),
        _ => false,
    }
}

/// Equality of two statement lists.
pub fn stmts_eq(a: &Vec<Statement>, b: &Vec<Statement>) -> (r: bool)
    ensures
        r <==> stmts_v(a@) == stmts_v(b@),
{
    if a.len() != b.len() {
        proof {
            if stmts_v(a@) == stmts_v(b@) {
                assert(stmts_v(a@).len() == stmts_v(b@).len());
            }
        }
        return false;
    }
    let mut i: usize = 0;
    while i < a.len()
        invariant
            i <= a.len(),
            a@.len() == b@.len(),
            forall|j: int| 0 <= j < i ==> stmts_v(a@)[j] == stmts_v(b@)[j],
        decreases a.len() - i,
    {
        if !stmt_eq(&a[i], &b[i]) {
            proof {
                if stmts_v(a@) == stmts_v(b@) {
                    assert(stmts_v(a@)[i as int] == stmts_v(b@)[i as int]);
                }
            }
            return false;
        }
        i = i + 1;
    }
    proof {
        assert(stmts_v(a@) =~= stmts_v(b@));
    }
    true
}

/// Equality of two inputs.
pub fn input_eq(a: &Input, b: &Input) -> (r: bool)
    ensures
        r <==> a@ == b@,
{
    bytes_eq(a.source_base_path.as_slice(), b.source_base_path.as_slice()) && bytes_eq(
        a.path.as_slice(),
        b.path.as_slice(),
    ) && bytes_eq(a.src.as_slice(), b.src.as_slice()) && a.origin == b.origin
}

/// Equality of two parsed modules.
pub fn module_eq(a: &Module, b: &Module) -> (r: bool)
    ensures
        r <==> a@ == b@,
{
    bytes_eq(a.src.as_slice(), b.src.as_slice()) && bytes_eq(a.path.as_slice(), b.path.as_slice())
        && bytes_eq(a.source_base_path.as_slice(), b.source_base_path.as_slice()) && a.origin
        == b.origin && names_eq(&a.module.name, &b.module.name) && stmts_eq(
        &a.module.statements,
        &b.module.statements,
    )
}

/// Equality of two type infos.
pub fn info_eq(a: &TypeInfo, b: &TypeInfo) -> (r: bool)
    ensures
        r <==> a@ == b@,
{
    names_eq(&a.name, &b.name) && names_eq(&a.exports, &b.exports)
}

/// Equality of two lists of named type infos.
pub fn infos_eq(a: &Vec<(Vec<u8>, TypeInfo)>, b: &Vec<(Vec<u8>, TypeInfo)>) -> (r: bool)
    ensures
        r <==> infos_v(a@) == infos_v(b@),
{
    if a.len() != b.len() {
        proof {
            if infos_v(a@) == infos_v(b@) {
                assert(infos_v(a@).len() == infos_v(b@).len());
            }
        }
        return false;
    }
    let mut i: usize = 0;
    while i < a.len()
        invariant
            i <= a.len(),
            a@.len() == b@.len(),
            forall|j: int| 0 <= j < i ==> infos_v(a@)[j] == infos_v(b@)[j],
        decreases a.len() - i,
    {
        if !(bytes_eq(a[i].0.as_slice(), b[i].0.as_slice()) && info_eq(&a[i].1, &b[i].1)) {
            proof {
                if infos_v(a@) == infos_v(b@) {
                    assert(infos_v(a@)[i as int] == infos_v(b@)[i as int]);
                }
            }
            return false;
        }
        i = i + 1;
    }
    proof {
        assert(infos_v(a@) =~= infos_v(b@));
    }
    true
}

/// Equality of two analysed modules.
pub fn analysed_eq(a: &Analysed, b: &Analysed) -> (r: bool)
    ensures
        r <==> a@ == b@,
{
    names_eq(&a.ast.name, &b.ast.name) && stmts_eq(&a.ast.statements, &b.ast.statements)
        && infos_eq(&a.ast.imported, &b.ast.imported) && info_eq(&a.ast.type_info, &b.ast.type_info)
        && names_eq(&a.name, &b.name) && a.origin == b.origin && info_eq(&a.type_info, &b.type_info)
        && bytes_eq(a.source_base_path.as_slice(), b.source_base_path.as_slice())
}

/// Equality of two errors.
pub fn error_eq(a: &Error, b: &Error) -> (r: bool)
    ensures
        r <==> a@ == b@,
{
    match (a, b) {
        (
            Error::FileIO { action: a1, kind: k1, path: p1, err: e1 },
            Error::FileIO { action: a2, kind: k2, path: p2, err: e2 },
        ) => {
            let errs = match (e1, e2) {
                (Some(x), Some(y)) => bytes_eq(x.as_slice(), y.as_slice()),
                (None, None) => true,
                _ => false,
            };
            *a1 == *a2 && *k1 == *k2 && bytes_eq(p1.as_slice(), p2.as_slice()) && errs
        },
        (
            Error::Parse { path: p1, src: s1, error: e1 },
            Error::Parse { path: p2, src: s2, error: e2 },
        ) => bytes_eq(p1.as_slice(), p2.as_slice()) && bytes_eq(s1.as_slice(), s2.as_slice())
            && e1.location == e2.location && bytes_eq(e1.token.as_slice(), e2.token.as_slice()),
        (
            Error::Type { path: p1, src: s1, error: e1 },
            Error::Type { path: p2, src: s2, error: e2 },
        ) => {
            let ee = match (e1, e2) {
                (
                    TypeError::DuplicateDefinition { name: n1, location: l1 },
                    TypeError::DuplicateDefinition { name: n2, location: l2 },
                ) => bytes_eq(n1.as_slice(), n2.as_slice()) && *l1 == *l2,
            };
            bytes_eq(p1.as_slice(), p2.as_slice()) && bytes_eq(s1.as_slice(), s2.as_slice()) && ee
        },
        (
            Error::UnknownImport { module: m1, import: i1, location: l1, path: p1, src: s1, modules: ms1 },
            Error::UnknownImport { module: m2, import: i2, location: l2, path: p2, src: s2, modules: ms2 },
        ) => bytes_eq(m1.as_slice(), m2.as_slice()) && bytes_eq(i1.as_slice(), i2.as_slice()) && *l1
            == *l2 && bytes_eq(p1.as_slice(), p2.as_slice()) && bytes_eq(
            s1.as_slice(),
            s2.as_slice(),
        ) && names_eq(ms1, ms2),
        (Error::Cycle { modules: m1 }, Error::Cycle { modules: m2 }) => names_eq(m1, m2),
        _ => false,
    }
}

/// A fresh copy of an input.
pub fn input_clone(a: &Input) -> (r: Input)
    ensures
        r@ == a@,
{
    Input {
        source_base_path: copy_bytes(a.source_base_path.as_slice()),
        path: copy_bytes(a.path.as_slice()),
        src: copy_bytes(a.src.as_slice()),
        origin: a.origin,
    }
}

/// A fresh copy of a statement.
pub fn stmt_clone(a: &Statement) -> (r: Statement)
    ensures
        r@ == a@,
{
    match a {
        Statement::Import { module, location, doc } => Statement::Import {
            module: copy_bytes_list(module),
            location: *location,
            doc: copy_bytes_list(doc),
        },
        Statement::FnDef { name, public, location, doc } => Statement::FnDef {
            name: copy_bytes(name.as_slice()),
            public: *public,
            location: *location,
            doc: copy_bytes_list(doc),
        },
        Statement::TypeDef { name, public, location, doc } => Statement::TypeDef {
            name: copy_bytes(name.as_slice()),
            public: *public,
            location: *location,
            doc: copy_bytes_list(doc),
        },
    }
}

/// A fresh copy of a statement list.
pub fn stmts_clone(a: &Vec<Statement>) -> (r: Vec<Statement>)
    ensures
        stmts_v(r@) == stmts_v(a@),
{
    let mut out: Vec<Statement> = Vec::new();
    let mut i: usize = 0;
    while i < a.len()
        invariant
            i <= a.len(),
            out@.len() == i,
            forall|j: int| 0 <= j < i ==> stmts_v(out@)[j] == stmts_v(a@)[j],
        decreases a.len() - i,
    {
        out.push(stmt_clone(&a[i]));
        i = i + 1;
    }
    proof {
        assert(stmts_v(out@) =~= stmts_v(a@));
    }
    out
}

/// A fresh copy of a parsed module.
pub fn module_clone(a: &Module) -> (r: Module)
    ensures
        r@ == a@,
{
    Module {
        src: copy_bytes(a.src.as_slice()),
        path: copy_bytes(a.path.as_slice()),
        source_base_path: copy_bytes(a.source_base_path.as_slice()),
        origin: a.origin,
        module: UntypedModule {
            name: copy_bytes_list(&a.module.name),
            statements: stmts_clone(&a.module.statements),
        },
    }
}

/// A fresh copy of a type info.
pub fn info_clone(a: &TypeInfo) -> (r: TypeInfo)
    ensures
        r@ == a@,
{
    TypeInfo { name: copy_bytes_list(&a.name), exports: copy_bytes_list(&a.exports) }
}

/// A fresh copy of a list of named type infos.
pub fn infos_clone(a: &Vec<(Vec<u8>, TypeInfo)>) -> (r: Vec<(Vec<u8>, TypeInfo)>)
    ensures
        infos_v(r@) == infos_v(a@),
{
    let mut out: Vec<(Vec<u8>, TypeInfo)> = Vec::new();
    let mut i: usize = 0;
    while i < a.len()
        invariant
            i <= a.len(),
            out@.len() == i,
            forall|j: int| 0 <= j < i ==> infos_v(out@)[j] == infos_v(a@)[j],
        decreases a.len() - i,
    {
        out.push((copy_bytes(a[i].0.as_slice()), info_clone(&a[i].1)));
        i = i + 1;
    }
    proof {
        assert(infos_v(out@) =~= infos_v(a@));
    }
    out
}

/// A fresh copy of an analysed module.
pub fn analysed_clone(a: &Analysed) -> (r: Analysed)
    ensures
        r@ == a@,
{
    Analysed {
        ast: TypedModule {
            name: copy_bytes_list(&a.ast.name),
            statements: stmts_clone(&a.ast.statements),
            imported: infos_clone(&a.ast.imported),
            type_info: info_clone(&a.ast.type_info),
        },
        name: copy_bytes_list(&a.name),
        origin: a.origin,
        type_info: info_clone(&a.type_info),
        source_base_path: copy_bytes(a.source_base_path.as_slice()),
    }
}

/// A fresh copy of an error.
pub fn error_clone(a: &Error) -> (r: Error)
    ensures
        r@ == a@,
{
    match a {
        Error::FileIO { action, kind, path, err } => Error::FileIO {
            action: *action,
            kind: *kind,
            path: copy_bytes(path.as_slice()),
            err: match err {
                Some(e) => Some(copy_bytes(e.as_slice())),
                None => None,
            },
        },
        Error::Parse { path, src, error } => Error::Parse {
            path: copy_bytes(path.as_slice()),
            src: copy_bytes(src.as_slice()),
            error: ParseError {
                location: error.location,
                token: copy_bytes(error.token.as_slice()),
            },
        },
        Error::Type { path, src, error } => Error::Type {
            path: copy_bytes(path.as_slice()),
            src: copy_bytes(src.as_slice()),
            error: match error {
                TypeError::DuplicateDefinition { name, location } => {
                    TypeError::DuplicateDefinition {
                        name: copy_bytes(name.as_slice()),
                        location: *location,
                    }
                },
            },
        },
        Error::UnknownImport { module, import, location, path, src, modules } => {
            Error::UnknownImport {
                module: copy_bytes(module.as_slice()),
                import: copy_bytes(import.as_slice()),
                location: *location,
                path: copy_bytes(path.as_slice()),
                src: copy_bytes(src.as_slice()),
                modules: copy_bytes_list(modules),
            }
        },
        Error::Cycle { modules } => Error::Cycle { modules: copy_bytes_list(modules) },
    }
}

/// A fresh copy of a dependency list.
pub fn deps_clone(a: &Vec<(Vec<u8>, SrcSpan)>) -> (r: Vec<(Vec<u8>, SrcSpan)>)
    ensures
        deps_v(r@) == deps_v(a@),
{
    let mut out: Vec<(Vec<u8>, SrcSpan)> = Vec::new();
    let mut i: usize = 0;
    while i < a.len()
        invariant
            i <= a.len(),
            out@.len() == i,
            forall|j: int| 0 <= j < i ==> deps_v(out@)[j] == deps_v(a@)[j],
        decreases a.len() - i,
    {
        out.push((copy_bytes(a[i].0.as_slice()), a[i].1));
        i = i + 1;
    }
    proof {
        assert(deps_v(out@) =~= deps_v(a@));
    }
    out
}

} // verus!
