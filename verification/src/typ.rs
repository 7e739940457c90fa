//! Type inference for the small source language: rejects duplicate
//! top-level definitions and derives the exported names of a module.

use vstd::prelude::*;

use crate::bytes::{bytes_eq, copy_bytes, deep};
use crate::error::{SrcSpan, TypeError, TypeErrorV};
use crate::project::{
    infos_v, stmts_v, Statement, StatementV, TypeInfo, TypeInfoV, TypedModule, TypedModuleV,
    UntypedModule, UntypedModuleV,
};

verus! {

/// The name a statement defines, if any.
pub open spec fn def_name(st: StatementV) -> Option<Seq<u8>> {
    match st {
        StatementV::Import { .. } => None,
        StatementV::FnDef { name, .. } => Some(name),
        StatementV::TypeDef { name, .. } => Some(name),
    }
}

/// True when a statement defines a public name.
pub open spec fn def_public(st: StatementV) -> bool {
    match st {
        StatementV::Import { .. } => false,
        StatementV::FnDef { public, .. } => public,
        StatementV::TypeDef { public, .. } => public,
    }
}

/// The first statement from `i` on that redefines an earlier name.
pub open spec fn spec_find_dup_from(ss: Seq<StatementV>, i: int) -> Option<(Seq<u8>, SrcSpan)>
    decreases ss.len() - i,
{
    if i < 0 || i >= ss.len() {
        None
    } else {
        match def_name(ss[i]) {
            Some(n) => {
                if exists|j: int| 0 <= j < i && def_name(ss[j]) == Some(n) {
                    Some((n, ss[i].location()))
                } else {
                    spec_find_dup_from(ss, i + 1)
                }
            },
            None => spec_find_dup_from(ss, i + 1),
        }
    }
}

/// The public definition names of a module, in order.
pub open spec fn spec_exports(ss: Seq<StatementV>) -> Seq<Seq<u8>>
    decreases ss.len(),
{
    if ss.len() == 0 {
        Seq::empty()
    } else {
        spec_exports(ss.drop_last()) + if def_public(ss.last()) {
            match def_name(ss.last()) {
                Some(n) => seq![n],
                None => Seq::empty(),
            }
        } else {
            Seq::empty()
        }
    }
}

/// What type inference yields: a typed module carrying the dependency
/// infos it was given and its own exported info, or the first duplicate
/// definition as an error.
pub open spec fn spec_infer(m: UntypedModuleV, d: Seq<(Seq<u8>, TypeInfoV)>) -> Result<
    TypedModuleV,
    TypeErrorV,
> {
    match spec_find_dup_from(m.statements, 0) {
        Some(dup) => Err(TypeErrorV::DuplicateDefinition { name: dup.0, location: dup.1 }),
        None => Ok(
            TypedModuleV {
                name: m.name,
                statements: m.statements,
                imported: d,
                type_info: TypeInfoV { name: m.name, exports: spec_exports(m.statements) },
            },
        ),
    }
}

fn stmt_def_name(st: &Statement) -> (r: Option<&Vec<u8>>)
    ensures
        match r {
            Some(n) => def_name(st@) == Some(n@),
            None => def_name(st@) is None,
        },
{
    match st {
        Statement::Import { .. } => None,
        Statement::FnDef { name, .. } => Some(name),
        Statement::TypeDef { name, .. } => Some(name),
    }
}

fn stmt_location(st: &Statement) -> (r: SrcSpan)
    ensures
        r == st@.location(),
{
    match st {
        Statement::Import { location, .. } => *location,
        Statement::FnDef { location, .. } => *location,
        Statement::TypeDef { location, .. } => *location,
    }
}

fn stmt_public(st: &Statement) -> (r: bool)
    ensures
        r == def_public(st@),
{
    match st {
        Statement::Import { .. } => false,
        Statement::FnDef { public, .. } => *public,
        Statement::TypeDef { public, .. } => *public,
    }
}

/// Finds the first duplicated definition name.
fn find_dup(ss: &Vec<Statement>) -> (r: Option<(Vec<u8>, SrcSpan)>)
    ensures
        match r {
            Some(d) => spec_find_dup_from(stmts_v(ss@), 0) == Some((d.0@, d.1)),
            None => spec_find_dup_from(stmts_v(ss@), 0) is None,
        },
{
    let ghost sv = stmts_v(ss@);
    let mut i: usize = 0;
    while i < ss.len()
        invariant
            i <= ss.len(),
            sv == stmts_v(ss@),
            spec_find_dup_from(sv, 0) == spec_find_dup_from(sv, i as int),
        decreases ss.len() - i,
    {
        match stmt_def_name(&ss[i]) {
            Some(n) => {
                let mut j: usize = 0;
                let mut found: bool = false;
                while j < i
                    invariant
                        j <= i,
                        i < ss.len(),
                        sv == stmts_v(ss@),
                        def_name(sv[i as int]) == Some(n@),
                        found <==> exists|k: int| 0 <= k < j && def_name(sv[k]) == Some(n@),
                    decreases i - j,
                {
                    if !found {
                        match stmt_def_name(&ss[j]) {
                            Some(m) => {
                                if bytes_eq(m.as_slice(), n.as_slice()) {
                                    found = true;
                                    proof {
                                        assert(def_name(sv[j as int]) == Some(n@));
                                    }
                                }
                            },
                            None => {},
                        }
                    }
                    j = j + 1;
                }
                if found {
                    let name = copy_bytes(n.as_slice());
                    let loc = stmt_location(&ss[i]);
                    return Some((name, loc));
                }
            },
            None => {},
        }
        proof {
            if def_name(sv[i as int]) is Some {
                assert(!exists|k: int|
                    0 <= k < i && def_name(sv[k]) == def_name(sv[i as int]));
            }
        }
        i = i + 1;
    }
    None
}

/// Collects the public definition names.
fn exports_of(ss: &Vec<Statement>) -> (r: Vec<Vec<u8>>)
    ensures
        deep(r@) == spec_exports(stmts_v(ss@)),
{
    let ghost sv = stmts_v(ss@);
    let mut out: Vec<Vec<u8>> = Vec::new();
    let mut i: usize = 0;
    while i < ss.len()
        invariant
            i <= ss.len(),
            sv == stmts_v(ss@),
            deep(out@) =~= spec_exports(sv.take(i as int)),
        decreases ss.len() - i,
    {
        proof {
            assert(sv.take(i + 1).drop_last() =~= sv.take(i as int));
            assert(sv.take(i + 1).last() == sv[i as int]);
        }
        if stmt_public(&ss[i]) {
            match stmt_def_name(&ss[i]) {
                Some(n) => {
                    out.push(copy_bytes(n.as_slice()));
                },
                None => {},
            }
        }
        i = i + 1;
    }
    proof {
        assert(sv.take(sv.len() as int) =~= sv);
    }
    out
}

/// Runs type inference on a module, given the type infos of its
/// dependencies in import order.
pub fn infer_module(module: UntypedModule, deps_info: Vec<(Vec<u8>, TypeInfo)>) -> (r: Result<
    TypedModule,
    TypeError,
>)
    ensures
        match r {
            Ok(t) => spec_infer(module@, infos_v(deps_info@)) == Ok::<_, TypeErrorV>(t@),
            Err(e) => spec_infer(module@, infos_v(deps_info@)) == Err::<TypedModuleV, _>(e@),
        },
{
    match find_dup(&module.statements) {
        Some(d) => Err(TypeError::DuplicateDefinition { name: d.0, location: d.1 }),
        None => {
            let exports = exports_of(&module.statements);
            let UntypedModule { name, statements } = module;
            let mut name2: Vec<Vec<u8>> = Vec::new();
            let mut i: usize = 0;
            while i < name.len()
                invariant
                    i <= name.len(),
                    name2@.len() == i,
                    deep(name2@) =~= deep(name@).take(i as int),
                decreases name.len() - i,
            {
                name2.push(copy_bytes(name[i].as_slice()));
                i = i + 1;
            }
            proof {
                assert(deep(name2@) =~= deep(name@));
            }
            let info = TypeInfo { name: name2, exports };
            Ok(TypedModule { name, statements, imported: deps_info, type_info: info })
        },
    }
}

} // verus!
