//! The watcher's reactions to filesystem events.
//!
//! Each handler takes what the event carries as plain values — the
//! path, and for writes the file's new text — applies the minimal
//! Sources-layer mutation, and demands the affected queries.  Reading
//! files, watching directories and writing outputs stay with the
//! caller.

use vstd::prelude::*;

use crate::bytes::deep;
use crate::db::{spec_check_dependents, spec_module_outputs, Database, StateV};
use crate::error::{Error, ErrorV};
use crate::project::{
    create_input_from_source, create_module_name, is_gleam_path, spec_create_input,
    spec_create_module_name, spec_is_gleam_path, OutputFile, SourceCollection,
    SourceCollectionV,
};

verus! {

/// The state after a write event for an input named `n`.
pub open spec fn state_after_write(s: StateV, n: Seq<u8>, i: crate::project::InputV) -> StateV {
    StateV { names: s.names, inputs: s.inputs.insert(n, i) }
}

/// Whether an event path concerns the engine at all: it lies under one
/// of the collection's source bases and names a compilable unit there.
pub open spec fn event_hits(c: SourceCollectionV, path: Seq<u8>, src: Seq<u8>) -> bool {
    match spec_create_input(c, path, src) {
        Some(iv) => spec_is_gleam_path(iv.path, iv.source_base_path),
        None => false,
    }
}

/// Whether a rename event concerns the engine: both paths resolve in
/// the collection, and the old path's derived module name has an input
/// to carry over.
pub open spec fn rename_hits(
    c: SourceCollectionV,
    old_path: Seq<u8>,
    new_path: Seq<u8>,
    s: StateV,
) -> bool {
    match (spec_create_input(c, old_path, Seq::empty()), spec_create_input(
        c,
        new_path,
        Seq::empty(),
    )) {
        (Some(ov), Some(_)) => s.inputs.contains_key(spec_create_module_name(ov)),
        _ => false,
    }
}

/// A write event: the file at `path` now holds `src`.  When the path
/// names a compilable unit of the collection, its input is replaced and
/// the module is re-emitted; the result is the module's fresh outputs
/// or the error that analysis reports now.
pub fn handle_write(
    db: &mut Database,
    path: Vec<u8>,
    src: Vec<u8>,
    source_collection: &SourceCollection,
) -> (r: Option<Result<Vec<OutputFile>, Error>>)
    requires
        old(db).wf(),
        old(db).revision < u64::MAX,
    ensures
        final(db).wf(),
        r is Some <==> event_hits(source_collection@, path@, src@),
        match r {
            None => *final(db) == *old(db),
            Some(res) => {
                &&& match spec_create_input(source_collection@, path@, src@) {
                    Some(iv) => {
                        let n = spec_create_module_name(iv);
                        &&& final(db).state() == state_after_write(old(db).state(), n, iv)
                        &&& match res {
                            Ok(fs) => spec_module_outputs(final(db).state(), n) == Ok::<
                                _,
                                ErrorV,
                            >(crate::project::outs_v(fs@)),
                            Err(e) => spec_module_outputs(final(db).state(), n) == Err::<
                                Seq<crate::project::OutputFileV>,
                                _,
                            >(e@),
                        }
                    },
                    None => false,
                }
            },
        },
{
    let inp = match create_input_from_source(path, src, source_collection) {
        Some(inp) => inp,
        None => {
            return None;
        },
    };
    if !is_gleam_path(inp.path.as_slice(), inp.source_base_path.as_slice()) {
        return None;
    }
    let name = create_module_name(&inp);
    db.set_source_file(crate::bytes::copy_bytes(name.as_slice()), inp);
    Some(db.invalidate_module(name.as_slice()))
}

/// A create event: as a write, but the new module name also joins the
/// live set, and only the new module is generated.
pub fn handle_create(
    db: &mut Database,
    path: Vec<u8>,
    src: Vec<u8>,
    source_collection: &SourceCollection,
) -> (r: Option<Result<Vec<OutputFile>, Error>>)
    requires
        old(db).wf(),
        old(db).revision + 2 < u64::MAX,
    ensures
        final(db).wf(),
        r is Some <==> event_hits(source_collection@, path@, src@),
        match r {
            None => *final(db) == *old(db),
            Some(res) => match spec_create_input(source_collection@, path@, src@) {
                Some(iv) => {
                    let n = spec_create_module_name(iv);
                    &&& final(db).state().inputs == old(db).state().inputs.insert(n, iv)
                    &&& forall|x: Seq<u8>|
                        final(db).state().names.contains(x) <==> (old(
                            db,
                        ).state().names.contains(x) || x == n)
                    &&& match res {
                        Ok(fs) => spec_module_outputs(final(db).state(), n) == Ok::<_, ErrorV>(
                            crate::project::outs_v(fs@),
                        ),
                        Err(e) => spec_module_outputs(final(db).state(), n) == Err::<
                            Seq<crate::project::OutputFileV>,
                            _,
                        >(e@),
                    }
                },
                None => false,
            },
        },
{
    let inp = match create_input_from_source(path, src, source_collection) {
        Some(inp) => inp,
        None => {
            return None;
        },
    };
    if !is_gleam_path(inp.path.as_slice(), inp.source_base_path.as_slice()) {
        return None;
    }
    let name = create_module_name(&inp);
    db.set_source_file(crate::bytes::copy_bytes(name.as_slice()), inp);
    let mut names = db.sources();
    let ghost prevn = names@;
    names.push(crate::bytes::copy_bytes(name.as_slice()));
    proof {
        assert(deep(prevn) == db.state().names);
        assert forall|i: int|
            0 <= i < names@.len() implies crate::db::cell_idx(
            db.inputs@,
            #[trigger] deep(names@)[i],
        ) >= 0 by {
            if i < names@.len() - 1 {
                assert(names@[i] == prevn[i]);
                assert(deep(names@)[i] == deep(prevn)[i]);
                assert(deep(names@)[i] == db.state().names[i]);
                assert(db.state().names.contains(db.state().names[i]));
            } else {
                assert(deep(names@)[i] == name@);
                assert(db.state().inputs.contains_key(name@));
            }
        }
    }
    db.set_sources(names);
    proof {
        assert forall|x: Seq<u8>|
            db.state().names.contains(x) <==> (old(db).state().names.contains(x) || x
                == name@) by {
            if old(db).state().names.contains(x) {
                let j = choose|j: int|
                    0 <= j < old(db).state().names.len() && old(db).state().names[j] == x;
                assert(names@[j] == prevn[j]);
                assert(deep(names@)[j] == x);
            }
            if x == name@ {
                assert(deep(names@)[names@.len() - 1] == x);
            }
            if deep(names@).contains(x) {
                let j = choose|j: int| 0 <= j < names@.len() && deep(names@)[j] == x;
                if j < names@.len() - 1 {
                    assert(names@[j] == prevn[j]);
                    assert(old(db).state().names[j] == x);
                }
            }
        }
    }
    Some(db.generate_new_module(name.as_slice()))
}

/// A remove event: the module name derived from the vanished path
/// leaves the live set, and the dependents of the removed module are
/// re-checked so their breakage surfaces.
pub fn handle_remove(
    db: &mut Database,
    path: Vec<u8>,
    source_collection: &SourceCollection,
) -> (r: Option<Result<(), Error>>)
    requires
        old(db).wf(),
        old(db).revision < u64::MAX,
    ensures
        final(db).wf(),
        r is Some <==> event_hits(source_collection@, path@, Seq::empty()),
        match r {
            None => *final(db) == *old(db),
            Some(res) => match spec_create_input(source_collection@, path@, Seq::empty()) {
                Some(iv) => {
                    let n = spec_create_module_name(iv);
                    &&& final(db).state().inputs == old(db).state().inputs
                    &&& forall|x: Seq<u8>|
                        final(db).state().names.contains(x) <==> (old(
                            db,
                        ).state().names.contains(x) && x != n)
                    &&& match res {
                        Ok(()) => spec_check_dependents(final(db).state(), n) == Ok::<
                            (),
                            ErrorV,
                        >(()),
                        Err(e) => spec_check_dependents(final(db).state(), n) == Err::<(), _>(
                            e@,
                        ),
                    }
                },
                None => false,
            },
        },
{
    let inp = match create_input_from_source(path, Vec::new(), source_collection) {
        Some(inp) => inp,
        None => {
            return None;
        },
    };
    if !is_gleam_path(inp.path.as_slice(), inp.source_base_path.as_slice()) {
        return None;
    }
    let name = create_module_name(&inp);
    let old_names = db.sources();
    let mut names: Vec<Vec<u8>> = Vec::new();
    let mut i: usize = 0;
    while i < old_names.len()
        invariant
            i <= old_names@.len(),
            deep(old_names@) == old(db).state().names,
            forall|j: int|
                0 <= j < names@.len() ==> deep(old_names@).contains(#[trigger] deep(names@)[j])
                    && deep(names@)[j] != name@,
            forall|j: int|
                0 <= j < i && deep(old_names@)[j] != name@ ==> deep(names@).contains(
                    #[trigger] deep(old_names@)[j],
                ),
        decreases old_names@.len() - i,
    {
        if !crate::bytes::bytes_eq(old_names[i].as_slice(), name.as_slice()) {
            let ghost pren = names@;
            names.push(crate::bytes::copy_bytes(old_names[i].as_slice()));
            proof {
                assert(forall|j: int| 0 <= j < pren.len() ==> names@[j] == pren[j]);
                assert(forall|j: int|
                    0 <= j < pren.len() ==> deep(names@)[j] == deep(pren)[j]);
                assert(deep(names@)[names@.len() - 1] == deep(old_names@)[i as int]);
                assert(deep(old_names@).contains(deep(names@)[names@.len() - 1]));
                assert forall|j: int|
                    0 <= j < names@.len() implies deep(old_names@).contains(
                    #[trigger] deep(names@)[j],
                ) && deep(names@)[j] != name@ by {
                    if j < pren.len() {
                        assert(deep(names@)[j] == deep(pren)[j]);
                    }
                }
                assert forall|j: int|
                    0 <= j < i + 1 && deep(old_names@)[j] != name@ implies deep(
                    names@,
                ).contains(#[trigger] deep(old_names@)[j]) by {
                    if j < i {
                        let w = choose|w: int|
                            0 <= w < deep(pren).len() && deep(pren)[w] == deep(old_names@)[j];
                        assert(deep(names@)[w] == deep(old_names@)[j]);
                    } else {
                        assert(deep(names@)[names@.len() - 1] == deep(old_names@)[j]);
                    }
                }
            }
        } else {
            proof {
                assert(deep(old_names@)[i as int] == name@);
            }
        }
        i = i + 1;
    }
    proof {
        assert forall|i2: int|
            0 <= i2 < names@.len() implies crate::db::cell_idx(
            db.inputs@,
            #[trigger] deep(names@)[i2],
        ) >= 0 by {
            assert(deep(old_names@).contains(deep(names@)[i2]));
            let w = choose|w: int|
                0 <= w < deep(old_names@).len() && deep(old_names@)[w] == deep(names@)[i2];
        }
    }
    let ghost kept = deep(names@);
    db.set_sources(names);
    proof {
        assert forall|x: Seq<u8>|
            db.state().names.contains(x) <==> (old(db).state().names.contains(x) && x
                != name@) by {
            if db.state().names.contains(x) {
                assert(kept.contains(x));
                let j = choose|j: int| 0 <= j < kept.len() && kept[j] == x;
            }
            if old(db).state().names.contains(x) && x != name@ {
                let w = choose|w: int|
                    0 <= w < deep(old_names@).len() && deep(old_names@)[w] == x;
                assert(kept.contains(x));
            }
        }
    }
    Some(db.check_dependents(name.as_slice()))
}

/// A rename event: the old name's input is carried over under the new
/// name, the live set swaps the names, and the new module's dependents
/// are re-checked.  A following write event delivers the new content.
pub fn handle_rename(
    db: &mut Database,
    old_path: Vec<u8>,
    new_path: Vec<u8>,
    source_collection: &SourceCollection,
) -> (r: Option<Result<(), Error>>)
    requires
        old(db).wf(),
        old(db).revision + 2 < u64::MAX,
    ensures
        final(db).wf(),
        r is Some <==> rename_hits(
            source_collection@,
            old_path@,
            new_path@,
            old(db).state(),
        ),
        match r {
            None => *final(db) == *old(db),
            Some(res) => match (
                spec_create_input(source_collection@, old_path@, Seq::empty()),
                spec_create_input(source_collection@, new_path@, Seq::empty()),
            ) {
                (Some(ov), Some(nv)) => {
                    let old_n = spec_create_module_name(ov);
                    let new_n = spec_create_module_name(nv);
                    &&& final(db).state().inputs == old(db).state().inputs.insert(
                        new_n,
                        old(db).state().inputs[old_n],
                    )
                    &&& forall|x: Seq<u8>|
                        final(db).state().names.contains(x) <==> ((old(
                            db,
                        ).state().names.contains(x) && x != old_n) || x == new_n)
                    &&& match res {
                        Ok(()) => spec_check_dependents(final(db).state(), new_n) == Ok::<
                            (),
                            ErrorV,
                        >(()),
                        Err(e) => spec_check_dependents(final(db).state(), new_n) == Err::<
                            (),
                            _,
                        >(e@),
                    }
                },
                _ => false,
            },
        },
{
    let old_inp = match create_input_from_source(old_path, Vec::new(), source_collection) {
        Some(inp) => inp,
        None => {
            return None;
        },
    };
    let new_inp = match create_input_from_source(new_path, Vec::new(), source_collection) {
        Some(inp) => inp,
        None => {
            return None;
        },
    };
    let old_name = create_module_name(&old_inp);
    let new_name = create_module_name(&new_inp);
    let ghost old_n = old_name@;
    let ghost new_n = new_name@;
    if !db.has_input(old_name.as_slice()) {
        return None;
    }
    let moved = db.source_file(old_name.as_slice());
    proof {
        assert(moved@ == old(db).state().inputs[old_n]);
    }
    db.set_source_file(crate::bytes::copy_bytes(new_name.as_slice()), moved);
    proof {
        assert(db.state().inputs == old(db).state().inputs.insert(
            new_n,
            old(db).state().inputs[old_n],
        ));
        assert(db.state().names == old(db).state().names);
    }
    let old_names = db.sources();
    let mut names: Vec<Vec<u8>> = Vec::new();
    let mut i: usize = 0;
    while i < old_names.len()
        invariant
            i <= old_names@.len(),
            deep(old_names@) == old(db).state().names,
            db.wf(),
            old_n == old_name@,
            forall|j: int|
                0 <= j < names@.len() ==> deep(old_names@).contains(#[trigger] deep(names@)[j])
                    && deep(names@)[j] != old_n,
            forall|j: int|
                0 <= j < i && deep(old_names@)[j] != old_n ==> deep(names@).contains(
                    #[trigger] deep(old_names@)[j],
                ),
        decreases old_names@.len() - i,
    {
        if !crate::bytes::bytes_eq(old_names[i].as_slice(), old_name.as_slice()) {
            let ghost pren = names@;
            names.push(crate::bytes::copy_bytes(old_names[i].as_slice()));
            proof {
                assert(forall|j: int| 0 <= j < pren.len() ==> names@[j] == pren[j]);
                assert(forall|j: int|
                    0 <= j < pren.len() ==> deep(names@)[j] == deep(pren)[j]);
                assert(deep(names@)[names@.len() - 1] == deep(old_names@)[i as int]);
                assert(deep(old_names@).contains(deep(names@)[names@.len() - 1]));
                assert forall|j: int|
                    0 <= j < names@.len() implies deep(old_names@).contains(
                    #[trigger] deep(names@)[j],
                ) && deep(names@)[j] != old_n by {
                    if j < pren.len() {
                        assert(deep(names@)[j] == deep(pren)[j]);
                    }
                }
                assert forall|j: int|
                    0 <= j < i + 1 && deep(old_names@)[j] != old_n implies deep(names@).contains(
                    #[trigger] deep(old_names@)[j],
                ) by {
                    if j < i {
                        let w = choose|w: int|
                            0 <= w < deep(pren).len() && deep(pren)[w] == deep(old_names@)[j];
                        assert(deep(names@)[w] == deep(old_names@)[j]);
                    } else {
                        assert(deep(names@)[names@.len() - 1] == deep(old_names@)[j]);
                    }
                }
            }
        } else {
            proof {
                assert(deep(old_names@)[i as int] == old_n);
            }
        }
        i = i + 1;
    }
    let ghost prelast = names@;
    names.push(crate::bytes::copy_bytes(new_name.as_slice()));
    proof {
        assert(forall|j: int| 0 <= j < prelast.len() ==> names@[j] == prelast[j]);
        assert(forall|j: int|
            0 <= j < prelast.len() ==> deep(names@)[j] == deep(prelast)[j]);
        assert(deep(names@)[names@.len() - 1] == new_n);
        assert forall|i2: int|
            0 <= i2 < names@.len() implies crate::db::cell_idx(
            db.inputs@,
            #[trigger] deep(names@)[i2],
        ) >= 0 by {
            if i2 < names@.len() - 1 {
                assert(deep(old_names@).contains(deep(prelast)[i2]));
                let w = choose|w: int|
                    0 <= w < deep(old_names@).len() && deep(old_names@)[w] == deep(prelast)[i2];
            } else {
                assert(db.state().inputs.contains_key(new_n));
            }
        }
    }
    let ghost kept = deep(names@);
    db.set_sources(names);
    proof {
        assert forall|x: Seq<u8>|
            db.state().names.contains(x) <==> ((old(db).state().names.contains(x) && x != old_n)
                || x == new_n) by {
            if db.state().names.contains(x) {
                assert(kept.contains(x));
                let j = choose|j: int| 0 <= j < kept.len() && kept[j] == x;
                if j < kept.len() - 1 {
                    assert(kept[j] == deep(prelast)[j]);
                    assert(deep(old_names@).contains(deep(prelast)[j]) && deep(prelast)[j]
                        != old_n);
                    assert(old(db).state().names.contains(x));
                } else {
                    assert(x == new_n);
                }
            }
            if old(db).state().names.contains(x) && x != old_n {
                let w = choose|w: int|
                    0 <= w < deep(old_names@).len() && deep(old_names@)[w] == x;
                assert(deep(prelast).contains(x));
                let v = choose|v: int| 0 <= v < deep(prelast).len() && deep(prelast)[v] == x;
                assert(kept[v] == x);
                assert(kept.contains(x));
                assert(db.state().names.contains(x));
            }
            if x == new_n {
                assert(kept[kept.len() - 1] == x);
                assert(kept.contains(x));
                assert(db.state().names.contains(x));
            }
        }
    }
    Some(db.check_dependents(new_name.as_slice()))
}

} // verus!
