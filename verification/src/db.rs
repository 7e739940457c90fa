//! The demand-driven memoization engine and its query layers.
//!
//! The database owns two input queries — the per-name source inputs and
//! the set of live module names — and derives parsed modules,
//! dependency lists, dependents and analysed modules from them.  Each
//! derived value carries two revision stamps: `verified_at`, the last
//! revision at which it was known current, and `changed_at`, the
//! revision at which its value last changed.
//!
//! A demand on an entry verified at the current revision reuses it
//! outright.  For `module_ast` and `dependencies`, an entry from an
//! older revision is first *validated*: when everything it read still
//! carries a `changed_at` at or below the entry's `verified_at` — the
//! name set and the module's input cell for a parse, the parse entry
//! for a dependency list — the cached value is reused and restamped
//! without recomputation.  `analyzed_module` entries are not validated
//! this way: any revision advance makes the next demand recompute the
//! analysis (its reads — the whole import graph and every followed
//! import's analysis — are not recorded per entry), though the parses
//! and dependency lists it demands are served from their validated
//! caches, and a recomputation that yields an equal value keeps the
//! old `changed_at`.

use vstd::prelude::*;

use crate::bytes::{
    bytes_eq, bytes_lt, copy_bytes, copy_bytes_list, deep, lex_lt, spec_split, split_bytes, SLASH,
};
use crate::error::{Error, ErrorV, FileIOAction, FileKind, SrcSpan};
use crate::graph::{
    cycle_nodes_from, graph_v, g_succs, has_cycle_from, chain_ok, reaches, spec_cycle_nodes,
    GraphV,
};
use crate::parse::{
    attach_doc_comments, comments_v, parse, spec_attach, spec_parse, spec_strip_extra, strip_extra,
};
use crate::project::{
    create_module_name, deps_of_stmts, deps_v, infos_v, spec_create_module_name, stmts_v, Input,
    InputV, Module, ModuleV, UntypedModule, UntypedModuleV,
};
use crate::project::{Analysed, AnalysedV, OutputFile, OutputFileV, TypeInfo};
use crate::typ::{infer_module, spec_infer};
use crate::values::{
    analysed_clone, deps_clone, deps_eq, error_clone, error_eq, input_clone, module_clone,
    module_eq, analysed_eq,
};

verus! {

// ---------------------------------------------------------------------
// The sources state and the meaning of each query.
// ---------------------------------------------------------------------

/// The state of the Sources layer: the live module names in order, and
/// the input record of every name that has been set.
pub ghost struct StateV {
    pub names: Seq<Seq<u8>>,
    pub inputs: Map<Seq<u8>, InputV>,
}

/// "Unable to resolve module " as bytes.
pub open spec fn s_unable() -> Seq<u8> {
    seq![
        85u8, 110u8, 97u8, 98u8, 108u8, 101u8, 32u8, 116u8, 111u8, 32u8, 114u8, 101u8, 115u8,
        111u8, 108u8, 118u8, 101u8, 32u8, 109u8, 111u8, 100u8, 117u8, 108u8, 101u8, 32u8,
    ]
}

fn lit_unable() -> (r: Vec<u8>)
    ensures
        r@ == s_unable(),
{
    let mut v: Vec<u8> = Vec::new();
    v.push(85u8);
    v.push(110u8);
    v.push(97u8);
    v.push(98u8);
    v.push(108u8);
    v.push(101u8);
    v.push(32u8);
    v.push(116u8);
    v.push(111u8);
    v.push(32u8);
    v.push(114u8);
    v.push(101u8);
    v.push(115u8);
    v.push(111u8);
    v.push(108u8);
    v.push(118u8);
    v.push(101u8);
    v.push(32u8);
    v.push(109u8);
    v.push(111u8);
    v.push(100u8);
    v.push(117u8);
    v.push(108u8);
    v.push(101u8);
    v.push(32u8);
    proof {
        assert(v@ =~= s_unable());
    }
    v
}

/// What `module_ast` yields: the parsed module of a live name, the
/// resolution error for an unknown name, or the parse error.
pub open spec fn spec_module_ast(s: StateV, n: Seq<u8>) -> Result<ModuleV, ErrorV> {
    if !s.names.contains(n) {
        Err(
            ErrorV::FileIO {
                action: FileIOAction::Read,
                kind: FileKind::File,
                path: Seq::empty(),
                err: Some(s_unable() + n),
            },
        )
    } else {
        let inp = s.inputs[n];
        let stripped = spec_strip_extra(inp.src).0;
        let cmts = spec_strip_extra(inp.src).1;
        match spec_parse(stripped) {
            Err(pe) => Err(ErrorV::Parse { path: inp.path, src: inp.src, error: pe }),
            Ok(um) => {
                let mname = spec_create_module_name(inp);
                let m2 = UntypedModuleV {
                    name: spec_split(mname, SLASH),
                    statements: spec_attach(um.statements, cmts),
                };
                Ok(
                    ModuleV {
                        src: inp.src,
                        path: inp.path,
                        source_base_path: inp.source_base_path,
                        origin: inp.origin,
                        module: m2,
                    },
                )
            },
        }
    }
}

/// What `dependencies` yields: the module's import list, or nothing
/// when the module does not parse.
pub open spec fn spec_dependencies(s: StateV, n: Seq<u8>) -> Seq<(Seq<u8>, SrcSpan)> {
    match spec_module_ast(s, n) {
        Ok(m) => deps_of_stmts(m.module.statements),
        Err(_) => Seq::empty(),
    }
}

/// The import targets alone.
pub open spec fn fsts(d: Seq<(Seq<u8>, SrcSpan)>) -> Seq<Seq<u8>> {
    Seq::new(d.len(), |i: int| d[i].0)
}

/// The import graph of a state: every live name with its import targets.
pub open spec fn state_graph(s: StateV) -> GraphV {
    Seq::new(s.names.len(), |i: int| (s.names[i], fsts(spec_dependencies(s, s.names[i]))))
}

/// What `dependents` yields: the module names of the live inputs whose
/// dependencies include `n`, in name order.
pub open spec fn spec_dependents_pre(s: StateV, n: Seq<u8>, i: int) -> Seq<Seq<u8>>
    decreases i,
{
    if i <= 0 {
        Seq::empty()
    } else {
        let m = spec_create_module_name(s.inputs[s.names[i - 1]]);
        spec_dependents_pre(s, n, i - 1) + if fsts(spec_dependencies(s, m)).contains(n) {
            seq![m]
        } else {
            Seq::empty()
        }
    }
}

pub open spec fn spec_dependents(s: StateV, n: Seq<u8>) -> Seq<Seq<u8>> {
    spec_dependents_pre(s, n, s.names.len() as int)
}

/// The fuel that always suffices for the analysed recursion.
pub open spec fn fuel0(s: StateV) -> int {
    s.names.len() as int + 1
}

/// What `analyzed_module` yields.  The module must parse; following its
/// imports must not run into a cycle; every import must itself analyse,
/// an unresolvable one surfacing as an unknown-import error; and type
/// inference must accept the module.
pub open spec fn spec_analyzed(s: StateV, n: Seq<u8>, fuel: int) -> Result<AnalysedV, ErrorV>
    decreases fuel, 0int, 0int,
{
    let deps = spec_dependencies(s, n);
    match spec_module_ast(s, n) {
        Err(e) => Err(e),
        Ok(m) => {
            if has_cycle_from(state_graph(s), n) {
                Err(
                    ErrorV::Cycle {
                        modules: spec_cycle_nodes(state_graph(s), n, state_graph(s).len() as int),
                    },
                )
            } else if fuel <= 0 {
                Err(ErrorV::Cycle { modules: Seq::empty() })
            } else {
                match spec_scan(s, n, m.path, m.src, deps, 0, fuel - 1) {
                    Err(e) => Err(e),
                    Ok(infos) => match spec_infer(m.module, infos) {
                        Err(te) => Err(ErrorV::Type { path: m.path, src: m.src, error: te }),
                        Ok(t) => Ok(
                            AnalysedV {
                                name: t.name,
                                origin: m.origin,
                                source_base_path: m.source_base_path,
                                ast: t,
                                type_info: t.type_info,
                            },
                        ),
                    },
                }
            }
        },
    }
}

/// Analyses the imports of `n` in order, stopping at the first failure;
/// an unresolvable import becomes an unknown-import error.
pub open spec fn spec_scan(
    s: StateV,
    n: Seq<u8>,
    path: Seq<u8>,
    src: Seq<u8>,
    deps: Seq<(Seq<u8>, SrcSpan)>,
    i: int,
    fuel: int,
) -> Result<Seq<(Seq<u8>, crate::project::TypeInfoV)>, ErrorV>
    decreases fuel, 1int, deps.len() - i,
{
    if i < 0 || i >= deps.len() {
        Ok(Seq::empty())
    } else {
        let d = deps[i].0;
        match spec_analyzed(s, d, fuel) {
            Err(e) => {
                if e.is_file_io() {
                    Err(
                        ErrorV::UnknownImport {
                            module: n,
                            import: d,
                            location: deps[i].1,
                            path: path,
                            src: src,
                            modules: s.names,
                        },
                    )
                } else {
                    Err(e)
                }
            },
            Ok(a) => match spec_scan(s, n, path, src, deps, i + 1, fuel) {
                Err(e) => Err(e),
                Ok(rest) => Ok(seq![(d, a.type_info)] + rest),
            },
        }
    }
}

/// The top-level meaning of `analyzed_module`.
pub open spec fn spec_analyzed_module(s: StateV, n: Seq<u8>) -> Result<AnalysedV, ErrorV> {
    spec_analyzed(s, n, fuel0(s))
}

// ---------------------------------------------------------------------
// Fuel does not matter once it covers every duplicate-free chain.
// ---------------------------------------------------------------------

/// Every duplicate-free chain out of `n` has at most `f` nodes.
pub open spec fn path_bound(g: GraphV, n: Seq<u8>, f: int) -> bool {
    forall|p: Seq<Seq<u8>>|
        #[trigger] chain_ok(g, p, n, p[p.len() - 1]) && p.no_duplicates() ==> p.len() <= f
}

/// Following one edge out of a cycle-free node lowers the chain bound.
#[verifier::rlimit(80)]
pub proof fn lemma_path_bound_step(g: GraphV, n: Seq<u8>, d: Seq<u8>, f: int)
    requires
        path_bound(g, n, f),
        !has_cycle_from(g, n),
        g_succs(g, n).contains(d),
    ensures
        path_bound(g, d, f - 1),
        f >= 2,
{
    assert forall|p: Seq<Seq<u8>>|
        #[trigger] chain_ok(g, p, d, p[p.len() - 1]) && p.no_duplicates() implies p.len() <= f
        - 1 by {
        if p.contains(n) {
            let j = choose|j: int| 0 <= j < p.len() && p[j] == n;
            if j == 0 {
                // n -> d ... : a chain from n back to n's own start d; the
                // chain p starts at d == p[0] != n unless d == n
                assert(p[0] == d);
                crate::graph::lemma_reach_edge(g, n, d);
                crate::graph::lemma_reach_trans(g, n, n, n);
                assert(reaches(g, n, n)) by {
                    assert(chain_ok(g, seq![n, d], n, d));
                    assert(reaches(g, n, d));
                }
                assert(has_cycle_from(g, n));
            } else {
                let q = seq![n] + p.take(j + 1);
                assert(q[0] == n);
                assert(q[q.len() - 1] == p[j]);
                assert forall|k: int| 0 <= k < q.len() - 1 implies g_succs(g, q[k]).contains(
                    q[k + 1],
                ) by {
                    if k == 0 {
                        assert(q[1] == p[0]);
                    } else {
                        assert(q[k] == p[k - 1]);
                        assert(q[k + 1] == p[k]);
                    }
                }
                assert(chain_ok(g, q, n, n));
                assert(reaches(g, n, n));
                assert(has_cycle_from(g, n));
            }
            assert(false);
        } else {
            let q = seq![n] + p;
            assert(q[0] == n);
            assert(q[q.len() - 1] == p[p.len() - 1]);
            assert forall|k: int| 0 <= k < q.len() - 1 implies g_succs(g, q[k]).contains(
                q[k + 1],
            ) by {
                if k == 0 {
                    assert(q[1] == p[0]);
                } else {
                    assert(q[k] == p[k - 1]);
                    assert(q[k + 1] == p[k]);
                }
            }
            assert(chain_ok(g, q, n, q[q.len() - 1]));
            assert(q.no_duplicates()) by {
                assert(forall|i: int, j: int|
                    0 <= i < j < q.len() ==> #[trigger] q[i] != #[trigger] q[j]) by {
                    assert forall|i: int, j: int| 0 <= i < j < q.len() implies q[i] != q[j] by {
                        if i == 0 {
                            assert(q[j] == p[j - 1]);
                            if q[0] == p[j - 1] {
                                assert(p.contains(n)) by {
                                    assert(p[j - 1] == n);
                                }
                            }
                        } else {
                            assert(q[i] == p[i - 1]);
                            assert(q[j] == p[j - 1]);
                        }
                    }
                }
            }
            assert(q.len() <= f);
        }
    }
    assert(f >= 2) by {
        let p0 = seq![n, d];
        assert(chain_ok(g, p0, n, p0[p0.len() - 1]));
        if p0.no_duplicates() {
            assert(p0.len() <= f);
        } else {
            assert(p0[0] == p0[1]);
            assert(d == n);
            crate::graph::lemma_reach_edge(g, n, d);
            assert(has_cycle_from(g, n));
            assert(false);
        }
    }
}

/// Once the fuel covers every duplicate-free chain, its exact value
/// does not matter.
pub proof fn lemma_fuel_analyzed(s: StateV, n: Seq<u8>, f1: int, f2: int)
    requires
        sorted_distinct(s.names),
        path_bound(state_graph(s), n, f1),
        path_bound(state_graph(s), n, f2),
        f1 >= 1,
        f2 >= 1,
    ensures
        spec_analyzed(s, n, f1) == spec_analyzed(s, n, f2),
    decreases f1 + f2, 1int, 0int,
{
    let g = state_graph(s);
    match spec_module_ast(s, n) {
        Err(_) => {},
        Ok(m) => {
            if !has_cycle_from(g, n) {
                let deps = spec_dependencies(s, n);
                lemma_fuel_scan(s, n, m.path, m.src, deps, 0, f1, f2);
            }
        },
    }
}

/// The scan helper of `lemma_fuel_analyzed`.
#[verifier::rlimit(80)]
pub proof fn lemma_fuel_scan(
    s: StateV,
    n: Seq<u8>,
    path: Seq<u8>,
    src: Seq<u8>,
    deps: Seq<(Seq<u8>, SrcSpan)>,
    i: int,
    f1: int,
    f2: int,
)
    requires
        sorted_distinct(s.names),
        path_bound(state_graph(s), n, f1),
        path_bound(state_graph(s), n, f2),
        !has_cycle_from(state_graph(s), n),
        deps == spec_dependencies(s, n),
        f1 >= 1,
        f2 >= 1,
    ensures
        spec_scan(s, n, path, src, deps, i, f1 - 1) == spec_scan(s, n, path, src, deps, i, f2 - 1),
    decreases f1 + f2, 0int, deps.len() - i,
{
    let g = state_graph(s);
    if 0 <= i < deps.len() {
        let d = deps[i].0;
        assert(g_succs(g, n).contains(d)) by {
            lemma_state_graph_succs(s, n);
            assert(fsts(deps)[i] == d);
        }
        lemma_path_bound_step(g, n, d, f1);
        lemma_path_bound_step(g, n, d, f2);
        lemma_fuel_analyzed(s, d, f1 - 1, f2 - 1);
        lemma_fuel_scan(s, n, path, src, deps, i + 1, f1, f2);
    }
}

/// The graph's successor list of a live name is its import targets; of
/// any other name it is empty.
pub proof fn lemma_state_graph_succs(s: StateV, n: Seq<u8>)
    requires
        sorted_distinct(s.names),
    ensures
        g_succs(state_graph(s), n) == if s.names.contains(n) {
            fsts(spec_dependencies(s, n))
        } else {
            Seq::<Seq<u8>>::empty()
        },
{
    lemma_sorted_distinct_neq(s.names);
    lemma_graph_succs_pre(state_graph(s), s, n, 0);
    assert(state_graph(s).skip(0) =~= state_graph(s));
    if s.names.contains(n) {
        let j = choose|j: int| 0 <= j < s.names.len() && s.names[j] == n;
        assert(0 <= j < s.names.len() && s.names[j] == n);
    }
}

/// `g_succs` over the suffix of the state graph starting at `i`.
proof fn lemma_graph_succs_pre(g: GraphV, s: StateV, n: Seq<u8>, i: int)
    requires
        g == state_graph(s),
        0 <= i <= s.names.len(),
        forall|j: int, k: int| 0 <= j < k < s.names.len() ==> s.names[j] != s.names[k],
    ensures
        g_succs(g.skip(i), n) == if exists|j: int| i <= j < s.names.len() && s.names[j] == n {
            fsts(spec_dependencies(s, n))
        } else {
            Seq::<Seq<u8>>::empty()
        },
    decreases s.names.len() - i,
{
    if i == s.names.len() {
        assert(g.skip(i).len() == 0);
    } else {
        assert(g.skip(i)[0] == g[i]);
        if s.names[i] == n {
        } else {
            assert(g.skip(i).skip(1) =~= g.skip(i + 1));
            lemma_graph_succs_pre(g, s, n, i + 1);
            if exists|j: int| i <= j < s.names.len() && s.names[j] == n {
                let j = choose|j: int| i <= j < s.names.len() && s.names[j] == n;
                assert(j > i);
                assert(exists|j2: int| i + 1 <= j2 < s.names.len() && s.names[j2] == n);
            }
        }
    }
}

/// A sorted list of distinct names.
pub open spec fn sorted_distinct(ns: Seq<Seq<u8>>) -> bool {
    forall|i: int, j: int| 0 <= i < j < ns.len() ==> lex_lt(#[trigger] ns[i], #[trigger] ns[j])
}

/// Sorted-distinct name lists also have pairwise-distinct entries.
pub proof fn lemma_sorted_distinct_neq(ns: Seq<Seq<u8>>)
    requires
        sorted_distinct(ns),
    ensures
        forall|i: int, j: int| 0 <= i < j < ns.len() ==> #[trigger] ns[i] != #[trigger] ns[j],
{
    assert forall|i: int, j: int| 0 <= i < j < ns.len() implies #[trigger] ns[i]
        != #[trigger] ns[j] by {
        crate::bytes::lemma_lex_lt_irrefl(ns[i]);
    }
}

/// Every duplicate-free chain of the state graph has at most one node
/// per live name, plus a final node.
pub proof fn lemma_fuel0_bound(s: StateV, n: Seq<u8>)
    requires
        sorted_distinct(s.names),
    ensures
        path_bound(state_graph(s), n, fuel0(s)),
{
    let g = state_graph(s);
    assert forall|p: Seq<Seq<u8>>|
        #[trigger] chain_ok(g, p, n, p[p.len() - 1]) && p.no_duplicates() implies p.len() <= fuel0(
        s,
    ) by {
        let firsts = p.take(p.len() - 1);
        assert forall|k: int| 0 <= k < firsts.len() implies s.names.contains(#[trigger] firsts[k]) by {
            assert(g_succs(g, p[k]).contains(p[k + 1]));
            lemma_state_graph_succs(s, p[k]);
            if !s.names.contains(p[k]) {
                assert(g_succs(g, p[k]).len() == 0);
            }
        }
        assert(firsts.no_duplicates()) by {
            assert(forall|i: int, j: int|
                0 <= i < j < firsts.len() ==> firsts[i] == p[i] && firsts[j] == p[j]);
        }
        lemma_distinct_in_bound(firsts, s.names);
        assert(p.len() == firsts.len() + 1);
    }
}

/// A duplicate-free list whose entries all occur in `uni` is no longer
/// than `uni`.
pub proof fn lemma_distinct_in_bound(xs: Seq<Seq<u8>>, uni: Seq<Seq<u8>>)
    requires
        xs.no_duplicates(),
        forall|k: int| 0 <= k < xs.len() ==> uni.contains(#[trigger] xs[k]),
    ensures
        xs.len() <= uni.len(),
{
    broadcast use vstd::seq_lib::seq_to_set_is_finite;

    xs.unique_seq_to_set();
    uni.lemma_cardinality_of_set();
    assert(xs.to_set().subset_of(uni.to_set())) by {
        assert forall|x: Seq<u8>| xs.to_set().contains(x) implies uni.to_set().contains(x) by {
            assert(xs.contains(x));
        }
    }
    vstd::set_lib::lemma_len_subset(xs.to_set(), uni.to_set());
}

// ---------------------------------------------------------------------
// The database.
// ---------------------------------------------------------------------

pub struct InputCell {
    pub name: Vec<u8>,
    pub value: Input,
    pub changed_at: u64,
}

/// A memoized `module_ast` result.
pub struct MaEntry {
    pub name: Vec<u8>,
    pub value: Result<Module, Error>,
    pub verified_at: u64,
    pub changed_at: u64,
}

/// A memoized `dependencies` result.
pub struct DepsEntry {
    pub name: Vec<u8>,
    pub value: Vec<(Vec<u8>, SrcSpan)>,
    pub verified_at: u64,
    pub changed_at: u64,
}

/// A memoized `analyzed_module` result.
pub struct AnaEntry {
    pub name: Vec<u8>,
    pub value: Result<Analysed, Error>,
    pub verified_at: u64,
    pub changed_at: u64,
}

pub open spec fn mod_res_v(r: Result<Module, Error>) -> Result<ModuleV, ErrorV> {
    match r {
        Ok(m) => Ok(m@),
        Err(e) => Err(e@),
    }
}

pub open spec fn ana_res_v(r: Result<Analysed, Error>) -> Result<AnalysedV, ErrorV> {
    match r {
        Ok(a) => Ok(a@),
        Err(e) => Err(e@),
    }
}

/// The index of the newest cell of `k`, or -1.
pub open spec fn cell_idx(cs: Seq<InputCell>, k: Seq<u8>) -> int
    decreases cs.len(),
{
    if cs.len() == 0 {
        -1
    } else if cs.last().name@ == k {
        cs.len() - 1
    } else {
        cell_idx(cs.drop_last(), k)
    }
}

pub proof fn lemma_cell_idx(cs: Seq<InputCell>, k: Seq<u8>)
    ensures
        -1 <= cell_idx(cs, k) < cs.len(),
        cell_idx(cs, k) >= 0 ==> cs[cell_idx(cs, k)].name@ == k,
        forall|i: int| cell_idx(cs, k) < i < cs.len() ==> cs[i].name@ != k,
    decreases cs.len(),
{
    if cs.len() > 0 && cs.last().name@ != k {
        lemma_cell_idx(cs.drop_last(), k);
        assert(forall|i: int| 0 <= i < cs.len() - 1 ==> cs.drop_last()[i] == cs[i]);
    }
}

/// The index of the newest `module_ast` entry of `k`, or -1.
pub open spec fn ma_idx(es: Seq<MaEntry>, k: Seq<u8>) -> int
    decreases es.len(),
{
    if es.len() == 0 {
        -1
    } else if es.last().name@ == k {
        es.len() - 1
    } else {
        ma_idx(es.drop_last(), k)
    }
}

pub proof fn lemma_ma_idx(es: Seq<MaEntry>, k: Seq<u8>)
    ensures
        -1 <= ma_idx(es, k) < es.len(),
        ma_idx(es, k) >= 0 ==> es[ma_idx(es, k)].name@ == k,
        forall|i: int| ma_idx(es, k) < i < es.len() ==> es[i].name@ != k,
    decreases es.len(),
{
    if es.len() > 0 && es.last().name@ != k {
        lemma_ma_idx(es.drop_last(), k);
        assert(forall|i: int| 0 <= i < es.len() - 1 ==> es.drop_last()[i] == es[i]);
    }
}

/// The index of the newest `dependencies` entry of `k`, or -1.
pub open spec fn deps_idx(es: Seq<DepsEntry>, k: Seq<u8>) -> int
    decreases es.len(),
{
    if es.len() == 0 {
        -1
    } else if es.last().name@ == k {
        es.len() - 1
    } else {
        deps_idx(es.drop_last(), k)
    }
}

pub proof fn lemma_deps_idx(es: Seq<DepsEntry>, k: Seq<u8>)
    ensures
        -1 <= deps_idx(es, k) < es.len(),
        deps_idx(es, k) >= 0 ==> es[deps_idx(es, k)].name@ == k,
        forall|i: int| deps_idx(es, k) < i < es.len() ==> es[i].name@ != k,
    decreases es.len(),
{
    if es.len() > 0 && es.last().name@ != k {
        lemma_deps_idx(es.drop_last(), k);
        assert(forall|i: int| 0 <= i < es.len() - 1 ==> es.drop_last()[i] == es[i]);
    }
}

/// The index of the newest `analyzed_module` entry of `k`, or -1.
pub open spec fn ana_idx(es: Seq<AnaEntry>, k: Seq<u8>) -> int
    decreases es.len(),
{
    if es.len() == 0 {
        -1
    } else if es.last().name@ == k {
        es.len() - 1
    } else {
        ana_idx(es.drop_last(), k)
    }
}

pub proof fn lemma_ana_idx(es: Seq<AnaEntry>, k: Seq<u8>)
    ensures
        -1 <= ana_idx(es, k) < es.len(),
        ana_idx(es, k) >= 0 ==> es[ana_idx(es, k)].name@ == k,
        forall|i: int| ana_idx(es, k) < i < es.len() ==> es[i].name@ != k,
    decreases es.len(),
{
    if es.len() > 0 && es.last().name@ != k {
        lemma_ana_idx(es.drop_last(), k);
        assert(forall|i: int| 0 <= i < es.len() - 1 ==> es.drop_last()[i] == es[i]);
    }
}

/// Removing an entry of one name leaves every other name's newest
/// entry in place.
pub proof fn lemma_ma_idx_remove(es: Seq<MaEntry>, i: int, m: Seq<u8>)
    requires
        0 <= i < es.len(),
        es[i].name@ != m,
    ensures
        ma_idx(es.remove(i), m) >= 0 <==> ma_idx(es, m) >= 0,
        ma_idx(es.remove(i), m) >= 0 ==> es.remove(i)[ma_idx(es.remove(i), m)] == es[ma_idx(
            es,
            m,
        )],
    decreases es.len(),
{
    lemma_ma_idx(es, m);
    lemma_ma_idx(es.remove(i), m);
    if i == es.len() - 1 {
        assert(es.remove(i) =~= es.drop_last());
    } else {
        let r = es.remove(i);
        assert(r.last() == es.last());
        if es.last().name@ == m {
            assert(r[r.len() - 1] == es[es.len() - 1]);
        } else {
            assert(r.drop_last() =~= es.drop_last().remove(i));
            lemma_ma_idx_remove(es.drop_last(), i, m);
            lemma_ma_idx(es.drop_last(), m);
            lemma_ma_idx(r.drop_last(), m);
            if ma_idx(r, m) >= 0 {
                assert(ma_idx(r, m) == ma_idx(r.drop_last(), m));
                assert(r[ma_idx(r, m)] == r.drop_last()[ma_idx(r.drop_last(), m)]);
                assert(es[ma_idx(es, m)] == es.drop_last()[ma_idx(es.drop_last(), m)]);
            }
        }
    }
}

/// Removing an entry of one name leaves every other name's newest
/// entry in place.
pub proof fn lemma_deps_idx_remove(es: Seq<DepsEntry>, i: int, m: Seq<u8>)
    requires
        0 <= i < es.len(),
        es[i].name@ != m,
    ensures
        deps_idx(es.remove(i), m) >= 0 <==> deps_idx(es, m) >= 0,
        deps_idx(es.remove(i), m) >= 0 ==> es.remove(i)[deps_idx(es.remove(i), m)] == es[
            deps_idx(es, m)],
    decreases es.len(),
{
    lemma_deps_idx(es, m);
    lemma_deps_idx(es.remove(i), m);
    if i == es.len() - 1 {
        assert(es.remove(i) =~= es.drop_last());
    } else {
        let r = es.remove(i);
        assert(r.last() == es.last());
        if es.last().name@ == m {
            assert(r[r.len() - 1] == es[es.len() - 1]);
        } else {
            assert(r.drop_last() =~= es.drop_last().remove(i));
            lemma_deps_idx_remove(es.drop_last(), i, m);
            lemma_deps_idx(es.drop_last(), m);
            lemma_deps_idx(r.drop_last(), m);
            if deps_idx(r, m) >= 0 {
                assert(deps_idx(r, m) == deps_idx(r.drop_last(), m));
                assert(r[deps_idx(r, m)] == r.drop_last()[deps_idx(r.drop_last(), m)]);
                assert(es[deps_idx(es, m)] == es.drop_last()[deps_idx(es.drop_last(), m)]);
            }
        }
    }
}

/// Removing an entry of one name leaves every other name's newest
/// entry in place.
pub proof fn lemma_ana_idx_remove(es: Seq<AnaEntry>, i: int, m: Seq<u8>)
    requires
        0 <= i < es.len(),
        es[i].name@ != m,
    ensures
        ana_idx(es.remove(i), m) >= 0 <==> ana_idx(es, m) >= 0,
        ana_idx(es.remove(i), m) >= 0 ==> es.remove(i)[ana_idx(es.remove(i), m)] == es[ana_idx(
            es,
            m,
        )],
    decreases es.len(),
{
    lemma_ana_idx(es, m);
    lemma_ana_idx(es.remove(i), m);
    if i == es.len() - 1 {
        assert(es.remove(i) =~= es.drop_last());
    } else {
        let r = es.remove(i);
        assert(r.last() == es.last());
        if es.last().name@ == m {
            assert(r[r.len() - 1] == es[es.len() - 1]);
        } else {
            assert(r.drop_last() =~= es.drop_last().remove(i));
            lemma_ana_idx_remove(es.drop_last(), i, m);
            lemma_ana_idx(es.drop_last(), m);
            lemma_ana_idx(r.drop_last(), m);
            if ana_idx(r, m) >= 0 {
                assert(ana_idx(r, m) == ana_idx(r.drop_last(), m));
                assert(r[ana_idx(r, m)] == r.drop_last()[ana_idx(r.drop_last(), m)]);
                assert(es[ana_idx(es, m)] == es.drop_last()[ana_idx(es.drop_last(), m)]);
            }
        }
    }
}

/// Removing one name's cell leaves every other name's newest cell in
/// place.
pub proof fn lemma_cell_idx_remove(cs: Seq<InputCell>, i: int, m: Seq<u8>)
    requires
        0 <= i < cs.len(),
        cs[i].name@ != m,
    ensures
        cell_idx(cs.remove(i), m) >= 0 <==> cell_idx(cs, m) >= 0,
        cell_idx(cs.remove(i), m) >= 0 ==> cs.remove(i)[cell_idx(cs.remove(i), m)] == cs[
            cell_idx(cs, m)],
    decreases cs.len(),
{
    lemma_cell_idx(cs, m);
    lemma_cell_idx(cs.remove(i), m);
    if i == cs.len() - 1 {
        assert(cs.remove(i) =~= cs.drop_last());
    } else {
        let r = cs.remove(i);
        assert(r.last() == cs.last());
        if cs.last().name@ == m {
            assert(r[r.len() - 1] == cs[cs.len() - 1]);
        } else {
            assert(r.drop_last() =~= cs.drop_last().remove(i));
            lemma_cell_idx_remove(cs.drop_last(), i, m);
            lemma_cell_idx(cs.drop_last(), m);
            lemma_cell_idx(r.drop_last(), m);
            if cell_idx(r, m) >= 0 {
                assert(cell_idx(r, m) == cell_idx(r.drop_last(), m));
                assert(r[cell_idx(r, m)] == r.drop_last()[cell_idx(r.drop_last(), m)]);
                assert(cs[cell_idx(cs, m)] == cs.drop_last()[cell_idx(cs.drop_last(), m)]);
            }
        }
    }
}

/// `module_ast` reads the name set and the module's own input: two
/// states agreeing on those agree on its result.
pub proof fn lemma_ma_frame(s1: StateV, s2: StateV, n: Seq<u8>)
    requires
        s1.names == s2.names,
        s1.names.contains(n) ==> s1.inputs[n] == s2.inputs[n],
    ensures
        spec_module_ast(s1, n) == spec_module_ast(s2, n),
{
}

/// The inputs of the Sources layer as a map.
pub open spec fn inputs_map(cs: Seq<InputCell>) -> Map<Seq<u8>, InputV> {
    Map::new(|k: Seq<u8>| cell_idx(cs, k) >= 0, |k: Seq<u8>| cs[cell_idx(cs, k)].value@)
}

// ---------------------------------------------------------------------
// The database.
// ---------------------------------------------------------------------

/// The incremental build database: the two input queries and the
/// memoized derived queries.  Every stored entry carries the revision
/// it was verified at and the revision its value last changed at;
/// parse and dependency entries are revalidated against those stamps
/// across revisions, and a recomputation that yields an equal value
/// keeps the old `changed_at`, so a consumer can tell a real change
/// from a revalidated one.
pub struct Database {
    pub revision: u64,
    pub names: Vec<Vec<u8>>,
    pub names_changed_at: u64,
    pub inputs: Vec<InputCell>,
    pub ma: Vec<MaEntry>,
    pub deps: Vec<DepsEntry>,
    pub ana: Vec<AnaEntry>,
    pub analyzed_computes: u64,
}

impl Database {
    /// The current state of the Sources layer.
    pub open spec fn state(self) -> StateV {
        StateV { names: deep(self.names@), inputs: inputs_map(self.inputs@) }
    }

    pub open spec fn rev(self) -> int {
        self.revision as int
    }

    /// Whether the reads of a `module_ast` entry are unchanged since it
    /// was verified: the name set, and — for a live name — its input
    /// cell, still carry `changed_at` stamps at or below the entry's
    /// `verified_at`.
    pub open spec fn ma_reads_ok(self, e: MaEntry) -> bool {
        &&& self.names_changed_at <= e.verified_at
        &&& deep(self.names@).contains(e.name@) ==> cell_idx(self.inputs@, e.name@) >= 0
            && self.inputs@[cell_idx(self.inputs@, e.name@)].changed_at <= e.verified_at
    }

    pub open spec fn ma_inv(self, e: MaEntry) -> bool {
        &&& e.changed_at <= e.verified_at <= self.revision
        &&& e.verified_at == self.revision ==> mod_res_v(e.value) == spec_module_ast(
            self.state(),
            e.name@,
        )
        &&& self.ma_reads_ok(e) ==> mod_res_v(e.value) == spec_module_ast(
            self.state(),
            e.name@,
        )
    }

    /// The import list a parse yields.
    pub open spec fn deps_of_parse(r: Result<ModuleV, ErrorV>) -> Seq<(Seq<u8>, SrcSpan)> {
        match r {
            Ok(mm) => deps_of_stmts(mm.module.statements),
            Err(_) => Seq::empty(),
        }
    }

    pub open spec fn deps_inv(self, e: DepsEntry) -> bool {
        &&& e.changed_at <= e.verified_at <= self.revision
        &&& e.verified_at == self.revision ==> deps_v(e.value@) == spec_dependencies(
            self.state(),
            e.name@,
        )
        &&& match ma_latest(self, e.name@) {
            Some(me) => me.changed_at <= e.verified_at ==> deps_v(e.value@)
                == Self::deps_of_parse(mod_res_v(me.value)),
            None => true,
        }
    }

    pub open spec fn ana_inv(self, e: AnaEntry) -> bool {
        &&& e.changed_at <= e.verified_at <= self.revision
        &&& e.verified_at == self.revision ==> ana_res_v(e.value) == spec_analyzed_module(
            self.state(),
            e.name@,
        )
    }

    /// Everything the engine's proofs rest on: the name set is sorted
    /// and in sync with the input cells, and every entry verified at
    /// the current revision holds the value the current state gives.
    pub open spec fn wf(self) -> bool {
        &&& sorted_distinct(deep(self.names@))
        &&& forall|i: int|
            0 <= i < self.names@.len() ==> cell_idx(self.inputs@, deep(self.names@)[i]) >= 0
        &&& forall|n: Seq<u8>|
            #[trigger] ma_idx(self.ma@, n) >= 0 ==> self.ma_inv(self.ma@[ma_idx(self.ma@, n)])
        &&& forall|n: Seq<u8>|
            #[trigger] deps_idx(self.deps@, n) >= 0 ==> self.deps_inv(
                self.deps@[deps_idx(self.deps@, n)],
            )
        &&& forall|n: Seq<u8>|
            #[trigger] ana_idx(self.ana@, n) >= 0 ==> self.ana_inv(
                self.ana@[ana_idx(self.ana@, n)],
            )
    }

    /// A fresh, empty database at revision zero.
    pub fn new() -> (r: Database)
        ensures
            r.wf(),
            r.state() == (StateV { names: Seq::<Seq<u8>>::empty(), inputs: Map::<
                Seq<u8>,
                InputV,
            >::empty() }),
            r.revision == 0,
            r.analyzed_computes == 0,
    {
        let db = Database {
            revision: 0,
            names: Vec::new(),
            names_changed_at: 0,
            inputs: Vec::new(),
            ma: Vec::new(),
            deps: Vec::new(),
            ana: Vec::new(),
            analyzed_computes: 0,
        };
        proof {
            assert(deep(db.names@) =~= Seq::<Seq<u8>>::empty());
            assert(inputs_map(db.inputs@) =~= Map::<Seq<u8>, InputV>::empty());
            assert forall|n: Seq<u8>| #[trigger] ma_idx(db.ma@, n) >= 0 implies db.ma_inv(
                db.ma@[ma_idx(db.ma@, n)],
            ) by {
                lemma_ma_idx(db.ma@, n);
            }
            assert forall|n: Seq<u8>| #[trigger] deps_idx(db.deps@, n) >= 0 implies db.deps_inv(
                db.deps@[deps_idx(db.deps@, n)],
            ) by {
                lemma_deps_idx(db.deps@, n);
            }
            assert forall|n: Seq<u8>| #[trigger] ana_idx(db.ana@, n) >= 0 implies db.ana_inv(
                db.ana@[ana_idx(db.ana@, n)],
            ) by {
                lemma_ana_idx(db.ana@, n);
            }
        }
        db
    }

    /// Entries verified below the current revision make no claim from
    /// their revision stamp alone, so advancing the revision keeps the
    /// dependency and analysis tables well formed.
    proof fn lemma_stale_entries_ok(pre: Database, post: Database)
        requires
            pre.wf(),
            post.revision > pre.revision,
            post.ma@ == pre.ma@,
            post.deps@ == pre.deps@,
            post.ana@ == pre.ana@,
        ensures
            forall|n: Seq<u8>|
                #[trigger] deps_idx(post.deps@, n) >= 0 ==> post.deps_inv(
                    post.deps@[deps_idx(post.deps@, n)],
                ),
            forall|n: Seq<u8>|
                #[trigger] ana_idx(post.ana@, n) >= 0 ==> post.ana_inv(
                    post.ana@[ana_idx(post.ana@, n)],
                ),
    {
        assert forall|n: Seq<u8>| #[trigger] deps_idx(post.deps@, n) >= 0 implies post.deps_inv(
            post.deps@[deps_idx(post.deps@, n)],
        ) by {
            assert(pre.deps_inv(pre.deps@[deps_idx(pre.deps@, n)]));
        }
        assert forall|n: Seq<u8>| #[trigger] ana_idx(post.ana@, n) >= 0 implies post.ana_inv(
            post.ana@[ana_idx(post.ana@, n)],
        ) by {
            assert(pre.ana_inv(pre.ana@[ana_idx(pre.ana@, n)]));
        }
    }

    /// Sets the input of one module name.  This is one of the two
    /// external mutations; it advances the revision.
    #[verifier::rlimit(50)]
    pub fn set_source_file(&mut self, name: Vec<u8>, value: Input)
        requires
            old(self).wf(),
            old(self).revision < u64::MAX,
        ensures
            final(self).wf(),
            final(self).revision == old(self).revision + 1,
            final(self).names@ == old(self).names@,
            final(self).state() == (StateV {
                names: old(self).state().names,
                inputs: old(self).state().inputs.insert(name@, value@),
            }),
            final(self).analyzed_computes == old(self).analyzed_computes,
    {
        let ghost pre = *self;
        let ghost old_state = self.state();
        let old_ci = self.find_input(name.as_slice());
        let new_rev = self.revision + 1;
        self.revision = new_rev;
        let cell = InputCell { name, value, changed_at: new_rev };
        let ghost cellv = cell;
        match old_ci {
            Some(ci) => {
                proof {
                    lemma_cell_idx(pre.inputs@, cellv.name@);
                }
                let _ = self.inputs.remove(ci);
            },
            None => {},
        }
        let ghost midc = self.inputs@;
        self.inputs.push(cell);
        proof {
            let cs = self.inputs@;
            let csold = pre.inputs@;
            assert(cs.drop_last() =~= midc);
            match old_ci {
                Some(ci) => {
                    assert(midc =~= csold.remove(ci as int));
                    assert(csold[ci as int].name@ == cellv.name@);
                },
                None => {
                    assert(midc == csold);
                },
            }
            assert(inputs_map(cs) =~= old_state.inputs.insert(cellv.name@, cellv.value@)) by {
                assert forall|k: Seq<u8>|
                    inputs_map(cs).contains_key(k) <==> old_state.inputs.insert(
                        cellv.name@,
                        cellv.value@,
                    ).contains_key(k) by {
                    if k == cellv.name@ {
                        assert(cell_idx(cs, k) == cs.len() - 1);
                    } else {
                        assert(cell_idx(cs, k) == cell_idx(midc, k));
                        match old_ci {
                            Some(ci) => {
                                lemma_cell_idx_remove(csold, ci as int, k);
                            },
                            None => {},
                        }
                    }
                }
                assert forall|k: Seq<u8>| inputs_map(cs).contains_key(k) implies inputs_map(cs)[k]
                    == old_state.inputs.insert(cellv.name@, cellv.value@)[k] by {
                    if k == cellv.name@ {
                        assert(cell_idx(cs, k) == cs.len() - 1);
                    } else {
                        assert(cell_idx(cs, k) == cell_idx(midc, k));
                        lemma_cell_idx(midc, k);
                        lemma_cell_idx(csold, k);
                        match old_ci {
                            Some(ci) => {
                                lemma_cell_idx_remove(csold, ci as int, k);
                                assert(cs[cell_idx(cs, k)] == midc[cell_idx(midc, k)]);
                                assert(midc[cell_idx(midc, k)] == csold[cell_idx(csold, k)]);
                            },
                            None => {},
                        }
                    }
                }
            }
            assert forall|i: int|
                0 <= i < self.names@.len() implies cell_idx(self.inputs@, deep(self.names@)[i])
                >= 0 by {
                if deep(self.names@)[i] == cellv.name@ {
                    assert(cell_idx(cs, cellv.name@) == cs.len() - 1);
                } else {
                    assert(cell_idx(cs, deep(self.names@)[i]) == cell_idx(
                        midc,
                        deep(self.names@)[i],
                    ));
                    match old_ci {
                        Some(ci) => {
                            lemma_cell_idx_remove(csold, ci as int, deep(self.names@)[i]);
                        },
                        None => {},
                    }
                }
            }
            assert forall|m: Seq<u8>| #[trigger] ma_idx(self.ma@, m) >= 0 implies self.ma_inv(
                self.ma@[ma_idx(self.ma@, m)],
            ) by {
                let e = pre.ma@[ma_idx(pre.ma@, m)];
                assert(pre.ma_inv(e));
                lemma_ma_idx(pre.ma@, m);
                if self.ma_reads_ok(e) {
                    if e.name@ == cellv.name@ {
                        // the replaced cell carries the new revision
                        assert(!deep(self.names@).contains(e.name@)) by {
                            if deep(self.names@).contains(e.name@) {
                                assert(cell_idx(cs, cellv.name@) == cs.len() - 1);
                                assert(self.inputs@[cell_idx(self.inputs@, e.name@)].changed_at
                                    == new_rev);
                            }
                        }
                        assert(pre.ma_reads_ok(e));
                        lemma_ma_frame(pre.state(), self.state(), e.name@);
                    } else {
                        assert(pre.ma_reads_ok(e)) by {
                            if deep(pre.names@).contains(e.name@) {
                                assert(cell_idx(cs, e.name@) >= 0);
                                assert(cell_idx(cs, e.name@) == cell_idx(midc, e.name@));
                                lemma_cell_idx(cs, e.name@);
                                lemma_cell_idx(midc, e.name@);
                                assert(cs[cell_idx(cs, e.name@)] == midc[cell_idx(
                                    midc,
                                    e.name@,
                                )]);
                                match old_ci {
                                    Some(ci) => {
                                        lemma_cell_idx_remove(csold, ci as int, e.name@);
                                        lemma_cell_idx(csold, e.name@);
                                        assert(midc[cell_idx(midc, e.name@)] == csold[cell_idx(
                                            csold,
                                            e.name@,
                                        )]);
                                    },
                                    None => {
                                        assert(midc == csold);
                                    },
                                }
                                assert(csold[cell_idx(csold, e.name@)].changed_at
                                    <= e.verified_at);
                            }
                        }
                        assert(pre.state().inputs.contains_key(e.name@)
                            ==> pre.state().inputs[e.name@] == self.state().inputs[e.name@]);
                        lemma_ma_frame(pre.state(), self.state(), e.name@);
                    }
                }
            }
            Self::lemma_stale_entries_ok(pre, *self);
        }
    }

    /// Replaces the set of live module names.  This is the second
    /// external mutation; it advances the revision.  The caller keeps
    /// the two inputs in sync: every name handed in must already have a
    /// source input set.
    #[verifier::rlimit(50)]
    pub fn set_sources(&mut self, names_arg: Vec<Vec<u8>>)
        requires
            old(self).wf(),
            old(self).revision < u64::MAX,
            forall|i: int|
                0 <= i < names_arg@.len() ==> cell_idx(
                    old(self).inputs@,
                    #[trigger] deep(names_arg@)[i],
                ) >= 0,
        ensures
            final(self).wf(),
            final(self).revision == old(self).revision + 1,
            final(self).inputs@ == old(self).inputs@,
            final(self).state().inputs == old(self).state().inputs,
            sorted_distinct(final(self).state().names),
            forall|x: Seq<u8>|
                final(self).state().names.contains(x) <==> deep(names_arg@).contains(x),
            final(self).analyzed_computes == old(self).analyzed_computes,
    {
        let ghost pre = *self;
        let mut sorted: Vec<Vec<u8>> = Vec::new();
        let mut i: usize = 0;
        while i < names_arg.len()
            invariant
                i <= names_arg@.len(),
                sorted_distinct(deep(sorted@)),
                forall|x: Seq<u8>|
                    deep(sorted@).contains(x) <==> deep(names_arg@).take(i as int).contains(x),
            decreases names_arg@.len() - i,
        {
            let ghost pre = deep(sorted@);
            let x = &names_arg[i];
            let mut j: usize = 0;
            while j < sorted.len() && bytes_lt(sorted[j].as_slice(), x.as_slice())
                invariant
                    j <= sorted@.len(),
                    forall|k: int| 0 <= k < j ==> lex_lt(#[trigger] deep(sorted@)[k], x@),
                decreases sorted@.len() - j,
            {
                j = j + 1;
            }
            let dup = j < sorted.len() && bytes_eq(sorted[j].as_slice(), x.as_slice());
            proof {
                if dup {
                    assert(deep(sorted@)[j as int] == x@);
                    assert(deep(sorted@).contains(x@));
                }
            }
            if !dup {
                proof {
                    if j < sorted@.len() {
                        crate::bytes::lemma_lex_lt_total(deep(sorted@)[j as int], x@);
                    }
                }
                sorted.insert(j, copy_bytes(x.as_slice()));
                proof {
                    let now = deep(sorted@);
                    assert(forall|m: int| 0 <= m < j ==> now[m] == pre[m]);
                    assert(now[j as int] == x@);
                    assert(forall|m: int| j < m < now.len() ==> now[m] == pre[m - 1]);
                    assert forall|a: int, b: int| 0 <= a < b < now.len() implies lex_lt(
                        #[trigger] now[a],
                        #[trigger] now[b],
                    ) by {
                        if b < j {
                            assert(now[a] == pre[a] && now[b] == pre[b]);
                        } else if b == j {
                            assert(now[a] == pre[a] && lex_lt(pre[a], x@));
                        } else if a == j {
                            assert(now[b] == pre[b - 1]);
                            assert(lex_lt(x@, pre[j as int]));
                            if b - 1 > j {
                                crate::bytes::lemma_lex_lt_trans(x@, pre[j as int], pre[b - 1]);
                            }
                        } else if a < j {
                            assert(now[a] == pre[a] && now[b] == pre[b - 1]);
                            assert(a < b - 1);
                        } else {
                            assert(now[a] == pre[a - 1] && now[b] == pre[b - 1]);
                        }
                    }
                    assert forall|y: Seq<u8>|
                        now.contains(y) <==> (pre.contains(y) || y == x@) by {
                        if now.contains(y) {
                            let m = choose|m: int| 0 <= m < now.len() && now[m] == y;
                            if m < j {
                                assert(pre[m] == y);
                            } else if m == j {
                            } else {
                                assert(pre[m - 1] == y);
                            }
                        }
                        if pre.contains(y) {
                            let m = choose|m: int| 0 <= m < pre.len() && pre[m] == y;
                            if m < j {
                                assert(now[m] == y);
                            } else {
                                assert(now[m + 1] == y);
                            }
                        }
                        if y == x@ {
                            assert(now[j as int] == y);
                        }
                    }
                }
            }
            i = i + 1;
            proof {
                assert(deep(names_arg@).take(i as int).drop_last() =~= deep(names_arg@).take(
                    i as int - 1,
                ));
                assert(deep(names_arg@).take(i as int).last() == x@);
                assert forall|y: Seq<u8>|
                    deep(sorted@).contains(y) <==> deep(names_arg@).take(i as int).contains(
                        y,
                    ) by {
                    let tk = deep(names_arg@).take(i as int);
                    if tk.contains(y) {
                        let m = choose|m: int| 0 <= m < tk.len() && tk[m] == y;
                        if m < i - 1 {
                            assert(deep(names_arg@).take(i as int - 1)[m] == y);
                        }
                    }
                    if deep(names_arg@).take(i as int - 1).contains(y) {
                        let tkp = deep(names_arg@).take(i as int - 1);
                        let m = choose|m: int| 0 <= m < tkp.len() && (#[trigger] tkp[m]) == y;
                        assert(tk[m] == y);
                    }
                    if y == x@ {
                        assert(tk[i - 1] == y);
                    }
                }
            }
        }
        proof {
            assert(deep(names_arg@).take(names_arg@.len() as int) =~= deep(names_arg@));
        }

        let new_rev = self.revision + 1;
        self.revision = new_rev;
        self.names = sorted;
        self.names_changed_at = new_rev;
        proof {
            assert forall|i2: int|
                0 <= i2 < self.names@.len() implies cell_idx(self.inputs@, deep(self.names@)[i2])
                >= 0 by {
                assert(deep(self.names@).contains(deep(self.names@)[i2]));
                assert(deep(names_arg@).contains(deep(self.names@)[i2]));
                let m = choose|m: int|
                    0 <= m < deep(names_arg@).len() && deep(names_arg@)[m] == deep(
                        self.names@,
                    )[i2];
            }
            assert forall|m: Seq<u8>| #[trigger] ma_idx(self.ma@, m) >= 0 implies self.ma_inv(
                self.ma@[ma_idx(self.ma@, m)],
            ) by {
                let e = pre.ma@[ma_idx(pre.ma@, m)];
                assert(pre.ma_inv(e));
                assert(e.verified_at < new_rev);
                assert(!self.ma_reads_ok(e));
            }
            Self::lemma_stale_entries_ok(pre, *self);
        }
    }
}

pub open spec fn ma_latest(db: Database, n: Seq<u8>) -> Option<MaEntry> {
    if ma_idx(db.ma@, n) >= 0 {
        Some(db.ma@[ma_idx(db.ma@, n)])
    } else {
        None
    }
}

pub open spec fn deps_latest(db: Database, n: Seq<u8>) -> Option<DepsEntry> {
    if deps_idx(db.deps@, n) >= 0 {
        Some(db.deps@[deps_idx(db.deps@, n)])
    } else {
        None
    }
}

pub open spec fn ana_latest(db: Database, n: Seq<u8>) -> Option<AnaEntry> {
    if ana_idx(db.ana@, n) >= 0 {
        Some(db.ana@[ana_idx(db.ana@, n)])
    } else {
        None
    }
}

impl Database {
    /// Looks up the newest input cell of `n`.
    fn find_input(&self, n: &[u8]) -> (r: Option<usize>)
        ensures
            match r {
                Some(i) => i < self.inputs@.len() && cell_idx(self.inputs@, n@) == i,
                None => cell_idx(self.inputs@, n@) < 0,
            },
    {
        let mut i: usize = self.inputs.len();
        proof {
            assert(self.inputs@.take(self.inputs@.len() as int) =~= self.inputs@);
        }
        while i > 0
            invariant
                i <= self.inputs@.len(),
                cell_idx(self.inputs@, n@) == cell_idx(self.inputs@.take(i as int), n@),
            decreases i,
        {
            proof {
                assert(self.inputs@.take(i as int).last() == self.inputs@[i - 1]);
                assert(self.inputs@.take(i as int).drop_last() =~= self.inputs@.take(i - 1));
            }
            if bytes_eq(self.inputs[i - 1].name.as_slice(), n) {
                proof {
                    assert(cell_idx(self.inputs@.take(i as int), n@) == i - 1);
                }
                return Some(i - 1);
            }
            i = i - 1;
        }
        proof {
            assert(self.inputs@.take(0).len() == 0);
        }
        None
    }

    /// Looks up the newest `module_ast` entry of `n`.
    fn find_ma(&self, n: &[u8]) -> (r: Option<usize>)
        ensures
            match r {
                Some(i) => i < self.ma@.len() && ma_idx(self.ma@, n@) == i,
                None => ma_idx(self.ma@, n@) < 0,
            },
    {
        let mut i: usize = self.ma.len();
        proof {
            assert(self.ma@.take(self.ma@.len() as int) =~= self.ma@);
        }
        while i > 0
            invariant
                i <= self.ma@.len(),
                ma_idx(self.ma@, n@) == ma_idx(self.ma@.take(i as int), n@),
            decreases i,
        {
            proof {
                assert(self.ma@.take(i as int).last() == self.ma@[i - 1]);
                assert(self.ma@.take(i as int).drop_last() =~= self.ma@.take(i - 1));
            }
            if bytes_eq(self.ma[i - 1].name.as_slice(), n) {
                proof {
                    assert(ma_idx(self.ma@.take(i as int), n@) == i - 1);
                }
                return Some(i - 1);
            }
            i = i - 1;
        }
        proof {
            assert(self.ma@.take(0).len() == 0);
        }
        None
    }

    /// Looks up the newest `dependencies` entry of `n`.
    fn find_deps(&self, n: &[u8]) -> (r: Option<usize>)
        ensures
            match r {
                Some(i) => i < self.deps@.len() && deps_idx(self.deps@, n@) == i,
                None => deps_idx(self.deps@, n@) < 0,
            },
    {
        let mut i: usize = self.deps.len();
        proof {
            assert(self.deps@.take(self.deps@.len() as int) =~= self.deps@);
        }
        while i > 0
            invariant
                i <= self.deps@.len(),
                deps_idx(self.deps@, n@) == deps_idx(self.deps@.take(i as int), n@),
            decreases i,
        {
            proof {
                assert(self.deps@.take(i as int).last() == self.deps@[i - 1]);
                assert(self.deps@.take(i as int).drop_last() =~= self.deps@.take(i - 1));
            }
            if bytes_eq(self.deps[i - 1].name.as_slice(), n) {
                proof {
                    assert(deps_idx(self.deps@.take(i as int), n@) == i - 1);
                }
                return Some(i - 1);
            }
            i = i - 1;
        }
        proof {
            assert(self.deps@.take(0).len() == 0);
        }
        None
    }

    /// Looks up the newest `analyzed_module` entry of `n`.
    fn find_ana(&self, n: &[u8]) -> (r: Option<usize>)
        ensures
            match r {
                Some(i) => i < self.ana@.len() && ana_idx(self.ana@, n@) == i,
                None => ana_idx(self.ana@, n@) < 0,
            },
    {
        let mut i: usize = self.ana.len();
        proof {
            assert(self.ana@.take(self.ana@.len() as int) =~= self.ana@);
        }
        while i > 0
            invariant
                i <= self.ana@.len(),
                ana_idx(self.ana@, n@) == ana_idx(self.ana@.take(i as int), n@),
            decreases i,
        {
            proof {
                assert(self.ana@.take(i as int).last() == self.ana@[i - 1]);
                assert(self.ana@.take(i as int).drop_last() =~= self.ana@.take(i - 1));
            }
            if bytes_eq(self.ana[i - 1].name.as_slice(), n) {
                proof {
                    assert(ana_idx(self.ana@.take(i as int), n@) == i - 1);
                }
                return Some(i - 1);
            }
            i = i - 1;
        }
        proof {
            assert(self.ana@.take(0).len() == 0);
        }
        None
    }
}

/// A fresh copy of a `module_ast` result.
fn mod_res_clone(r: &Result<Module, Error>) -> (c: Result<Module, Error>)
    ensures
        mod_res_v(c) == mod_res_v(*r),
{
    match r {
        Ok(m) => Ok(module_clone(m)),
        Err(e) => Err(error_clone(e)),
    }
}

/// A fresh copy of an `analyzed_module` result.
fn ana_res_clone(r: &Result<Analysed, Error>) -> (c: Result<Analysed, Error>)
    ensures
        ana_res_v(c) == ana_res_v(*r),
{
    match r {
        Ok(a) => Ok(analysed_clone(a)),
        Err(e) => Err(error_clone(e)),
    }
}

/// Equality of two `module_ast` results.
fn mod_res_eq(a: &Result<Module, Error>, b: &Result<Module, Error>) -> (r: bool)
    ensures
        r <==> mod_res_v(*a) == mod_res_v(*b),
{
    match (a, b) {
        (Ok(x), Ok(y)) => module_eq(x, y),
        (Err(x), Err(y)) => error_eq(x, y),
        _ => false,
    }
}

/// Equality of two `analyzed_module` results.
fn ana_res_eq(a: &Result<Analysed, Error>, b: &Result<Analysed, Error>) -> (r: bool)
    ensures
        r <==> ana_res_v(*a) == ana_res_v(*b),
{
    match (a, b) {
        (Ok(x), Ok(y)) => analysed_eq(x, y),
        (Err(x), Err(y)) => error_eq(x, y),
        _ => false,
    }
}
impl Database {
    /// Demands `module_ast(n)`: reuses the value verified at the
    /// current revision, or recomputes; a recomputation that yields an
    /// equal value keeps the old `changed_at`.  Returns the value and
    /// its `changed_at` stamp.
    #[verifier::rlimit(50)]
    fn demand_module_ast(&mut self, n: &[u8]) -> (r: (Result<Module, Error>, u64))
        requires
            old(self).wf(),
        ensures
            final(self).wf(),
            final(self).revision == old(self).revision,
            final(self).names@ == old(self).names@,
            final(self).names_changed_at == old(self).names_changed_at,
            final(self).inputs@ == old(self).inputs@,
            final(self).deps@ == old(self).deps@,
            final(self).ana@ == old(self).ana@,
            final(self).analyzed_computes == old(self).analyzed_computes,
            mod_res_v(r.0) == spec_module_ast(old(self).state(), n@),
            match ma_latest(*final(self), n@) {
                Some(e) => e.verified_at == final(self).revision && e.changed_at == r.1
                    && mod_res_v(e.value) == mod_res_v(r.0),
                None => false,
            },
    {
        let ghost s = self.state();
        let rev = self.revision;
        match self.find_ma(n) {
            Some(i) => {
                proof {
                    lemma_ma_idx(self.ma@, n@);
                    assert(self.ma_inv(self.ma@[i as int]));
                }
                if self.ma[i].verified_at == rev {
                    let v = mod_res_clone(&self.ma[i].value);
                    let ca = self.ma[i].changed_at;
                    return (v, ca);
                }
                // Validate: when everything this entry read still has
                // `changed_at` at or below its `verified_at`, the cached
                // value is still the current one and is reused.
                let va = self.ma[i].verified_at;
                if self.names_changed_at <= va {
                    let in_names = crate::graph::contains_name(&self.names, n);
                    let cell_ok = if in_names {
                        match self.find_input(n) {
                            Some(ci) => self.inputs[ci].changed_at <= va,
                            None => {
                                proof {
                                    let j = choose|j: int|
                                        0 <= j < deep(self.names@).len() && deep(self.names@)[j]
                                            == n@;
                                    assert(cell_idx(self.inputs@, deep(self.names@)[j]) >= 0);
                                    assert(false);
                                }
                                false
                            },
                        }
                    } else {
                        true
                    };
                    if cell_ok {
                        proof {
                            assert(self.ma_reads_ok(self.ma@[i as int]));
                            assert(mod_res_v(self.ma@[i as int].value) == spec_module_ast(
                                s,
                                n@,
                            ));
                        }
                        let value = mod_res_clone(&self.ma[i].value);
                        let ret = mod_res_clone(&self.ma[i].value);
                        let ca = self.ma[i].changed_at;
                        let e = MaEntry {
                            name: copy_bytes(n),
                            value,
                            verified_at: rev,
                            changed_at: ca,
                        };
                        let ghost pre = *self;
                        proof {
                            lemma_ma_idx(pre.ma@, n@);
                        }
                        let _ = self.ma.remove(i);
                        let ghost mid = self.ma@;
                        self.ma.push(e);
                        proof {
                            assert(self.ma@.drop_last() =~= mid);
                            assert(pre.state() == s);
                            assert(self.state() == s);
                            assert(e.name@ == n@);
                            assert forall|m: Seq<u8>| #[trigger] ma_idx(self.ma@, m) >= 0 implies
                                self.ma_inv(self.ma@[ma_idx(self.ma@, m)]) by {
                                if m == n@ {
                                    assert(ma_idx(self.ma@, n@) == self.ma@.len() - 1);
                                } else {
                                    lemma_ma_idx(self.ma@, m);
                                    assert(ma_idx(self.ma@, m) == ma_idx(mid, m));
                                    assert(mid =~= pre.ma@.remove(i as int));
                                    assert(pre.ma@[i as int].name@ == n@);
                                    lemma_ma_idx_remove(pre.ma@, i as int, m);
                                    lemma_ma_idx(mid, m);
                                    assert(self.ma@[ma_idx(self.ma@, m)] == mid[ma_idx(mid, m)]);
                                    assert(mid[ma_idx(mid, m)] == pre.ma@[ma_idx(pre.ma@, m)]);
                                    assert(pre.ma_inv(pre.ma@[ma_idx(pre.ma@, m)]));
                                }
                            }
                            assert forall|m: Seq<u8>| #[trigger] deps_idx(self.deps@, m) >= 0
                                implies self.deps_inv(self.deps@[deps_idx(self.deps@, m)]) by {
                                lemma_deps_idx(pre.deps@, m);
                                let de = pre.deps@[deps_idx(pre.deps@, m)];
                                assert(pre.deps_inv(de));
                                if m == n@ {
                                    assert(ma_idx(self.ma@, n@) == self.ma@.len() - 1);
                                    assert(ma_idx(pre.ma@, n@) == i);
                                    let meo = pre.ma@[i as int];
                                    assert(mod_res_v(meo.value) == mod_res_v(e.value));
                                    assert(meo.changed_at == e.changed_at);
                                } else {
                                    lemma_ma_idx(self.ma@, m);
                                    assert(ma_idx(self.ma@, m) == ma_idx(mid, m));
                                    assert(mid =~= pre.ma@.remove(i as int));
                                    assert(pre.ma@[i as int].name@ == n@);
                                    lemma_ma_idx_remove(pre.ma@, i as int, m);
                                    lemma_ma_idx(mid, m);
                                    if ma_idx(self.ma@, m) >= 0 {
                                        assert(self.ma@[ma_idx(self.ma@, m)] == mid[ma_idx(
                                            mid,
                                            m,
                                        )]);
                                        assert(mid[ma_idx(mid, m)] == pre.ma@[ma_idx(
                                            pre.ma@,
                                            m,
                                        )]);
                                    }
                                }
                            }
                            assert forall|m: Seq<u8>| #[trigger] ana_idx(self.ana@, m) >= 0
                                implies self.ana_inv(self.ana@[ana_idx(self.ana@, m)]) by {
                                lemma_ana_idx(pre.ana@, m);
                                assert(pre.ana_inv(pre.ana@[ana_idx(pre.ana@, m)]));
                            }
                        }
                        return (ret, ca);
                    }
                }
            },
            None => {},
        }
        // Recompute from the current inputs.
        let in_names = crate::graph::contains_name(&self.names, n);
        let value: Result<Module, Error> = if !in_names {
            let mut msg = lit_unable();
            crate::bytes::push_bytes(&mut msg, n);
            Err(
                Error::FileIO {
                    action: FileIOAction::Read,
                    kind: FileKind::File,
                    path: Vec::new(),
                    err: Some(msg),
                },
            )
        } else {
            let ci = match self.find_input(n) {
                Some(ci) => ci,
                None => {
                    proof {
                        let j = choose|j: int|
                            0 <= j < deep(self.names@).len() && deep(self.names@)[j] == n@;
                        assert(cell_idx(self.inputs@, deep(self.names@)[j]) >= 0);
                        assert(false);
                    }
                    0
                },
            };
            let inp = input_clone(&self.inputs[ci].value);
            proof {
                lemma_cell_idx(self.inputs@, n@);
                assert(s.inputs[n@] == inp@);
            }
            let (stripped, comments) = strip_extra(inp.src.as_slice());
            match parse(stripped.as_slice()) {
                Err(pe) => Err(
                    Error::Parse {
                        path: copy_bytes(inp.path.as_slice()),
                        src: copy_bytes(inp.src.as_slice()),
                        error: pe,
                    },
                ),
                Ok(um) => {
                    let um = attach_doc_comments(um, comments.as_slice());
                    let mname = create_module_name(&inp);
                    let segs = split_bytes(mname.as_slice(), SLASH);
                    let UntypedModule { name: _, statements } = um;
                    let m2 = UntypedModule { name: segs, statements };
                    Ok(
                        Module {
                            src: copy_bytes(inp.src.as_slice()),
                            path: copy_bytes(inp.path.as_slice()),
                            source_base_path: copy_bytes(inp.source_base_path.as_slice()),
                            origin: inp.origin,
                            module: m2,
                        },
                    )
                },
            }
        };
        proof {
            assert(deep(self.names@).contains(n@) <==> in_names);
            assert(mod_res_v(value) == spec_module_ast(s, n@));
        }
        let old_idx = self.find_ma(n);
        let ca: u64 = match old_idx {
            Some(i) => {
                proof {
                    lemma_ma_idx(self.ma@, n@);
                    assert(self.ma_inv(self.ma@[i as int]));
                }
                if mod_res_eq(&self.ma[i].value, &value) {
                    self.ma[i].changed_at
                } else {
                    rev
                }
            },
            None => rev,
        };
        let ret = mod_res_clone(&value);
        let e = MaEntry { name: copy_bytes(n), value, verified_at: rev, changed_at: ca };
        let ghost pre = *self;
        match old_idx {
            Some(i) => {
                proof {
                    lemma_ma_idx(pre.ma@, n@);
                }
                let _ = self.ma.remove(i);
            },
            None => {},
        }
        let ghost mid = self.ma@;
        self.ma.push(e);
        proof {
            assert(self.ma@.drop_last() =~= mid);
            assert(pre.state() == s);
            assert(self.state() == s);
            assert(e.name@ == n@);
            assert forall|m: Seq<u8>| #[trigger] ma_idx(self.ma@, m) >= 0 implies self.ma_inv(
                self.ma@[ma_idx(self.ma@, m)],
            ) by {
                if m == n@ {
                    assert(ma_idx(self.ma@, n@) == self.ma@.len() - 1);
                } else {
                    lemma_ma_idx(self.ma@, m);
                    assert(ma_idx(self.ma@, m) == ma_idx(mid, m));
                    match old_idx {
                        Some(i) => {
                            assert(mid =~= pre.ma@.remove(i as int));
                            assert(pre.ma@[i as int].name@ == n@);
                            lemma_ma_idx_remove(pre.ma@, i as int, m);
                            lemma_ma_idx(mid, m);
                            assert(self.ma@[ma_idx(self.ma@, m)] == mid[ma_idx(mid, m)]);
                            assert(mid[ma_idx(mid, m)] == pre.ma@[ma_idx(pre.ma@, m)]);
                            assert(pre.ma_inv(pre.ma@[ma_idx(pre.ma@, m)]));
                        },
                        None => {
                            assert(mid == pre.ma@);
                            assert(pre.ma_inv(pre.ma@[ma_idx(pre.ma@, m)]));
                        },
                    }
                }
            }
            assert forall|m: Seq<u8>| #[trigger] deps_idx(self.deps@, m) >= 0 implies
                self.deps_inv(self.deps@[deps_idx(self.deps@, m)]) by {
                lemma_deps_idx(pre.deps@, m);
                let de = pre.deps@[deps_idx(pre.deps@, m)];
                assert(pre.deps_inv(de));
                if m == n@ {
                    assert(ma_idx(self.ma@, n@) == self.ma@.len() - 1);
                    if e.changed_at <= de.verified_at {
                        if e.changed_at == rev {
                            assert(de.verified_at == rev);
                            assert(deps_v(de.value@) == spec_dependencies(s, n@));
                            assert(Self::deps_of_parse(mod_res_v(e.value))
                                == spec_dependencies(s, n@));
                        } else {
                            let meo = pre.ma@[ma_idx(pre.ma@, n@)];
                            assert(ma_idx(pre.ma@, n@) >= 0);
                            assert(mod_res_v(meo.value) == mod_res_v(e.value));
                            assert(meo.changed_at == e.changed_at);
                        }
                    }
                } else {
                    lemma_ma_idx(self.ma@, m);
                    if ma_idx(self.ma@, m) >= 0 {
                        assert(ma_idx(self.ma@, m) == ma_idx(mid, m));
                        match old_idx {
                            Some(i) => {
                                assert(mid =~= pre.ma@.remove(i as int));
                                assert(pre.ma@[i as int].name@ == n@);
                                lemma_ma_idx_remove(pre.ma@, i as int, m);
                                lemma_ma_idx(mid, m);
                                assert(self.ma@[ma_idx(self.ma@, m)] == mid[ma_idx(mid, m)]);
                                assert(mid[ma_idx(mid, m)] == pre.ma@[ma_idx(pre.ma@, m)]);
                            },
                            None => {
                                assert(mid == pre.ma@);
                            },
                        }
                    } else {
                        match old_idx {
                            Some(i) => {
                                assert(mid =~= pre.ma@.remove(i as int));
                                assert(pre.ma@[i as int].name@ == n@);
                                lemma_ma_idx_remove(pre.ma@, i as int, m);
                                lemma_ma_idx(mid, m);
                                assert(ma_idx(self.ma@, m) == ma_idx(mid, m));
                            },
                            None => {
                                assert(mid == pre.ma@);
                                assert(ma_idx(self.ma@, m) == ma_idx(mid, m));
                            },
                        }
                    }
                }
            }
            assert forall|m: Seq<u8>| #[trigger] ana_idx(self.ana@, m) >= 0 implies self.ana_inv(
                self.ana@[ana_idx(self.ana@, m)],
            ) by {
                lemma_ana_idx(pre.ana@, m);
                assert(pre.ana_inv(pre.ana@[ana_idx(pre.ana@, m)]));
            }
        }
        (ret, ca)
    }

    /// Demands `dependencies(n)`.
    #[verifier::rlimit(50)]
    fn demand_dependencies(&mut self, n: &[u8]) -> (r: (Vec<(Vec<u8>, SrcSpan)>, u64))
        requires
            old(self).wf(),
        ensures
            final(self).wf(),
            final(self).revision == old(self).revision,
            final(self).names@ == old(self).names@,
            final(self).names_changed_at == old(self).names_changed_at,
            final(self).inputs@ == old(self).inputs@,
            final(self).ana@ == old(self).ana@,
            final(self).analyzed_computes == old(self).analyzed_computes,
            deps_v(r.0@) == spec_dependencies(old(self).state(), n@),
            match deps_latest(*final(self), n@) {
                Some(e) => e.verified_at == final(self).revision && e.changed_at == r.1
                    && deps_v(e.value@) == deps_v(r.0@),
                None => false,
            },
    {
        let ghost s = self.state();
        let rev = self.revision;
        match self.find_deps(n) {
            Some(i) => {
                proof {
                    lemma_deps_idx(self.deps@, n@);
                    assert(self.deps_inv(self.deps@[i as int]));
                }
                if self.deps[i].verified_at == rev {
                    let v = deps_clone(&self.deps[i].value);
                    let ca = self.deps[i].changed_at;
                    return (v, ca);
                }
            },
            None => {},
        }
        let (mav, ma_ca) = self.demand_module_ast(n);
        match self.find_deps(n) {
            Some(i) => {
                proof {
                    lemma_deps_idx(self.deps@, n@);
                    assert(self.deps_inv(self.deps@[i as int]));
                }
                // Validate: the one read is the parse; when its
                // `changed_at` is at or below this entry's
                // `verified_at`, the cached list is still current.
                if ma_ca <= self.deps[i].verified_at {
                    proof {
                        lemma_ma_idx(self.ma@, n@);
                        assert(ma_idx(self.ma@, n@) >= 0);
                        let me = self.ma@[ma_idx(self.ma@, n@)];
                        assert(me.changed_at == ma_ca);
                        assert(mod_res_v(me.value) == mod_res_v(mav));
                        assert(deps_v(self.deps@[i as int].value@) == Self::deps_of_parse(
                            mod_res_v(mav),
                        ));
                        assert(Self::deps_of_parse(mod_res_v(mav)) == spec_dependencies(s, n@));
                    }
                    let value = deps_clone(&self.deps[i].value);
                    let ret = deps_clone(&self.deps[i].value);
                    let ca = self.deps[i].changed_at;
                    let e = DepsEntry {
                        name: copy_bytes(n),
                        value,
                        verified_at: rev,
                        changed_at: ca,
                    };
                    let ghost pre = *self;
                    proof {
                        lemma_deps_idx(pre.deps@, n@);
                    }
                    let _ = self.deps.remove(i);
                    let ghost mid = self.deps@;
                    self.deps.push(e);
                    proof {
                        assert(self.deps@.drop_last() =~= mid);
                        assert(pre.state() == s);
                        assert(self.state() == s);
                        assert(e.name@ == n@);
                        assert forall|m: Seq<u8>| #[trigger] deps_idx(self.deps@, m) >= 0
                            implies self.deps_inv(self.deps@[deps_idx(self.deps@, m)]) by {
                            if m == n@ {
                                assert(deps_idx(self.deps@, n@) == self.deps@.len() - 1);
                            } else {
                                lemma_deps_idx(self.deps@, m);
                                assert(deps_idx(self.deps@, m) == deps_idx(mid, m));
                                assert(mid =~= pre.deps@.remove(i as int));
                                assert(pre.deps@[i as int].name@ == n@);
                                lemma_deps_idx_remove(pre.deps@, i as int, m);
                                lemma_deps_idx(mid, m);
                                if deps_idx(self.deps@, m) >= 0 {
                                    assert(self.deps@[deps_idx(self.deps@, m)] == mid[deps_idx(
                                        mid,
                                        m,
                                    )]);
                                    assert(mid[deps_idx(mid, m)] == pre.deps@[deps_idx(
                                        pre.deps@,
                                        m,
                                    )]);
                                    assert(pre.deps_inv(pre.deps@[deps_idx(pre.deps@, m)]));
                                }
                            }
                        }
                        assert forall|m: Seq<u8>| #[trigger] ma_idx(self.ma@, m) >= 0 implies
                            self.ma_inv(self.ma@[ma_idx(self.ma@, m)]) by {
                            lemma_ma_idx(pre.ma@, m);
                            assert(pre.ma_inv(pre.ma@[ma_idx(pre.ma@, m)]));
                        }
                        assert forall|m: Seq<u8>| #[trigger] ana_idx(self.ana@, m) >= 0 implies
                            self.ana_inv(self.ana@[ana_idx(self.ana@, m)]) by {
                            lemma_ana_idx(pre.ana@, m);
                            assert(pre.ana_inv(pre.ana@[ana_idx(pre.ana@, m)]));
                        }
                    }
                    return (ret, ca);
                }
            },
            None => {},
        }
        // Recompute from the current parse.
        let value: Vec<(Vec<u8>, SrcSpan)> = match &mav {
            Ok(m) => m.dependencies(),
            Err(_) => Vec::new(),
        };
        proof {
            assert(deps_v(value@) =~= spec_dependencies(s, n@));
            assert(deps_v(value@) == Self::deps_of_parse(mod_res_v(mav)));
        }
        let old_idx = self.find_deps(n);
        let ca: u64 = match old_idx {
            Some(i) => {
                proof {
                    lemma_deps_idx(self.deps@, n@);
                    assert(self.deps_inv(self.deps@[i as int]));
                }
                if deps_eq(&self.deps[i].value, &value) {
                    self.deps[i].changed_at
                } else {
                    rev
                }
            },
            None => rev,
        };
        let ret = deps_clone(&value);
        let e = DepsEntry { name: copy_bytes(n), value, verified_at: rev, changed_at: ca };
        let ghost pre = *self;
        match old_idx {
            Some(i) => {
                proof {
                    lemma_deps_idx(pre.deps@, n@);
                }
                let _ = self.deps.remove(i);
            },
            None => {},
        }
        let ghost mid = self.deps@;
        self.deps.push(e);
        proof {
            assert(self.deps@.drop_last() =~= mid);
            assert(pre.state() == s);
            assert(self.state() == s);
            assert(e.name@ == n@);
            assert forall|m: Seq<u8>| #[trigger] deps_idx(self.deps@, m) >= 0 implies
                self.deps_inv(self.deps@[deps_idx(self.deps@, m)]) by {
                if m == n@ {
                    assert(deps_idx(self.deps@, n@) == self.deps@.len() - 1);
                    lemma_ma_idx(self.ma@, n@);
                    if ma_idx(self.ma@, n@) >= 0 {
                        let me = self.ma@[ma_idx(self.ma@, n@)];
                        assert(mod_res_v(me.value) == mod_res_v(mav));
                        assert(deps_v(e.value@) == Self::deps_of_parse(mod_res_v(me.value)));
                    }
                } else {
                    lemma_deps_idx(self.deps@, m);
                    assert(deps_idx(self.deps@, m) == deps_idx(mid, m));
                    match old_idx {
                        Some(i) => {
                            assert(mid =~= pre.deps@.remove(i as int));
                            assert(pre.deps@[i as int].name@ == n@);
                            lemma_deps_idx_remove(pre.deps@, i as int, m);
                            lemma_deps_idx(mid, m);
                            assert(self.deps@[deps_idx(self.deps@, m)] == mid[deps_idx(mid, m)]);
                            assert(mid[deps_idx(mid, m)] == pre.deps@[deps_idx(pre.deps@, m)]);
                            assert(pre.deps_inv(pre.deps@[deps_idx(pre.deps@, m)]));
                        },
                        None => {
                            assert(mid == pre.deps@);
                            assert(pre.deps_inv(pre.deps@[deps_idx(pre.deps@, m)]));
                        },
                    }
                }
            }
            assert forall|m: Seq<u8>| #[trigger] ma_idx(self.ma@, m) >= 0 implies self.ma_inv(
                self.ma@[ma_idx(self.ma@, m)],
            ) by {
                lemma_ma_idx(pre.ma@, m);
                assert(pre.ma_inv(pre.ma@[ma_idx(pre.ma@, m)]));
            }
            assert forall|m: Seq<u8>| #[trigger] ana_idx(self.ana@, m) >= 0 implies self.ana_inv(
                self.ana@[ana_idx(self.ana@, m)],
            ) by {
                lemma_ana_idx(pre.ana@, m);
                assert(pre.ana_inv(pre.ana@[ana_idx(pre.ana@, m)]));
            }
        }
        (ret, ca)
    }
}

impl Database {
    /// The analysed computation for a module whose parse succeeded:
    /// reads the import graph, refuses cycles, analyses each import in
    /// order, and runs type inference.
    #[verifier::rlimit(100)]
    #[verifier::spinoff_prover]
    fn analyze_parsed(
        &mut self,
        n: &[u8],
        m: Module,
        dv: &Vec<(Vec<u8>, SrcSpan)>,
        Ghost(fuel): Ghost<int>,
    ) -> (r: Result<Analysed, Error>)
        requires
            old(self).wf(),
            fuel >= 1,
            path_bound(state_graph(old(self).state()), n@, fuel),
            spec_module_ast(old(self).state(), n@) == Ok::<ModuleV, ErrorV>(m@),
            deps_v(dv@) == spec_dependencies(old(self).state(), n@),
        ensures
            final(self).wf(),
            final(self).revision == old(self).revision,
            final(self).names@ == old(self).names@,
            final(self).inputs@ == old(self).inputs@,
            final(self).analyzed_computes >= old(self).analyzed_computes,
            ana_res_v(r) == spec_analyzed(old(self).state(), n@, fuel),
        decreases fuel, 0int,
    {
        let ghost s = self.state();
        let ghost pre0 = *self;
        let rev = self.revision;
            let nlen = self.names.len();
            let mut gr: Vec<(Vec<u8>, Vec<Vec<u8>>)> = Vec::new();
            let mut ki: usize = 0;
            while ki < nlen
                invariant
                    self.wf(),
                    ki <= nlen,
                    s == self.state(),
                    self.names@ == pre0.names@,
                    self.inputs@ == pre0.inputs@,
                    self.analyzed_computes == pre0.analyzed_computes,
                    self.analyzed_computes >= old(self).analyzed_computes,
                    nlen == self.names@.len(),
                    rev == self.revision,
                    gr@.len() == ki,
                    forall|j: int|
                        0 <= j < ki ==> (#[trigger] gr@[j]).0@ == s.names[j] && deep(
                            gr@[j].1@,
                        ) == fsts(spec_dependencies(s, s.names[j])),
                decreases nlen - ki,
            {
                let k = copy_bytes(self.names[ki].as_slice());
                proof {
                    assert(deep(self.names@)[ki as int] == k@);
                }
                let ghost mid = *self;
                let (kdeps, _) = self.demand_dependencies(k.as_slice());
                let mut succs: Vec<Vec<u8>> = Vec::new();
                let mut si: usize = 0;
                while si < kdeps.len()
                    invariant
                        si <= kdeps@.len(),
                        succs@.len() == si,
                        forall|j: int| 0 <= j < si ==> (#[trigger] succs@[j])@ == kdeps@[j].0@,
                    decreases kdeps@.len() - si,
                {
                    succs.push(copy_bytes(kdeps[si].0.as_slice()));
                    si = si + 1;
                }
                proof {
                    assert(deep(succs@) =~= fsts(deps_v(kdeps@)));
                    assert(deep(succs@) == fsts(spec_dependencies(s, k@)));
                }
                let ghost kv = k@;
                let ghost sv2 = deep(succs@);
                gr.push((k, succs));
                ki = ki + 1;
                proof {
                    assert(gr@[ki - 1].0@ == kv);
                    assert(deep(gr@[ki - 1].1@) == sv2);
                }
            }
            proof {
                assert(graph_v(gr@).len() == gr@.len());
                assert forall|j: int| 0 <= j < gr@.len() implies graph_v(gr@)[j]
                    == state_graph(s)[j] by {
                    assert(gr@[j].0@ == s.names[j]);
                    assert(deep(gr@[j].1@) == fsts(spec_dependencies(s, s.names[j])));
                }
                assert(graph_v(gr@) =~= state_graph(s));
            }
            let cyc = cycle_nodes_from(&gr, n);
            if cyc.len() > 0 {
                proof {
                    assert(has_cycle_from(state_graph(s), n@));
                }
                Err(Error::Cycle { modules: cyc })
            } else {
                proof {
                    assert(!has_cycle_from(state_graph(s), n@));
                }
                let mpath = copy_bytes(m.path.as_slice());
                let msrc = copy_bytes(m.src.as_slice());
                let mbase = copy_bytes(m.source_base_path.as_slice());
                let morigin = m.origin;
                let mut infos: Vec<(Vec<u8>, TypeInfo)> = Vec::new();
                let mut err: Option<Error> = None;
                let mut j: usize = 0;
                let ghost dvv = deps_v(dv@);
                while j < dv.len() && matches!(err, None)
                    invariant
                        self.wf(),
                        self.names@ == pre0.names@,
                        self.inputs@ == pre0.inputs@,
                        self.analyzed_computes >= pre0.analyzed_computes,
                        self.analyzed_computes >= old(self).analyzed_computes,
                        j <= dvv.len(),
                        s == self.state(),
                        rev == self.revision,
                        dvv == deps_v(dv@),
                        dvv == spec_dependencies(s, n@),
                        spec_module_ast(s, n@) is Ok,
                        mpath@ == (match spec_module_ast(s, n@) {
                            Ok(mm) => mm.path,
                            Err(_) => arbitrary(),
                        }),
                        msrc@ == (match spec_module_ast(s, n@) {
                            Ok(mm) => mm.src,
                            Err(_) => arbitrary(),
                        }),
                        !has_cycle_from(state_graph(s), n@),
                        path_bound(state_graph(s), n@, fuel),
                        fuel >= 1,
                        s.names.contains(n@),
                        deep(self.names@) == s.names,
                        match err {
                            None => spec_scan(s, n@, mpath@, msrc@, dvv, 0, fuel - 1) == (
                            match spec_scan(s, n@, mpath@, msrc@, dvv, j as int, fuel - 1) {
                                Ok(rest) => Ok::<_, ErrorV>(infos_v(infos@) + rest),
                                Err(e2) => Err::<Seq<(Seq<u8>, crate::project::TypeInfoV)>,
                                    _>(e2),
                            }),
                            Some(e) => spec_scan(s, n@, mpath@, msrc@, dvv, 0, fuel - 1)
                                == Err::<Seq<(Seq<u8>, crate::project::TypeInfoV)>, ErrorV>(
                                e@,
                            ),
                        },
                    decreases dvv.len() - j,
                {
                    let d = copy_bytes(dv[j].0.as_slice());
                    let ghost dd = d@;
                    proof {
                        assert(deps_v(dv@)[j as int].0 == dd);
                        assert(g_succs(state_graph(s), n@).contains(d@)) by {
                            lemma_state_graph_succs(s, n@);
                            assert(fsts(dvv)[j as int] == dd);
                        }
                        lemma_path_bound_step(state_graph(s), n@, dd, fuel);
                    }
                    let (av, _a_ca) = self.demand_analyzed(d.as_slice(), Ghost(fuel - 1));
                    proof {
                        lemma_fuel0_bound(s, dd);
                        lemma_fuel_analyzed(s, dd, fuel - 1, fuel0(s));
                        assert(ana_res_v(av) == spec_analyzed(s, dd, fuel - 1));
                    }
                    let ghost pinfos = infos@;
                    match av {
                        Ok(a) => {
                            let ghost aok = a@;
                            proof {
                                assert(spec_analyzed(s, dd, fuel - 1) == Ok::<
                                    AnalysedV,
                                    ErrorV,
                                >(aok));
                            }
                            let ti = a.type_info;
                            infos.push((d, ti));
                            proof {
                                assert(infos_v(infos@).len() == infos@.len());
                                assert(infos@.last().0@ == dd);
                                assert(infos@.last().1@ == aok.type_info);
                                assert(forall|jj: int|
                                    0 <= jj < pinfos.len() ==> infos@[jj] == pinfos[jj]);
                            }
                        },
                        Err(e) => {
                            let is_fio = match &e {
                                Error::FileIO { .. } => true,
                                _ => false,
                            };
                            if is_fio {
                                err = Some(
                                    Error::UnknownImport {
                                        module: copy_bytes(n),
                                        import: d,
                                        location: dv[j].1,
                                        path: copy_bytes(mpath.as_slice()),
                                        src: copy_bytes(msrc.as_slice()),
                                        modules: copy_bytes_list(&self.names),
                                    },
                                );
                            } else {
                                err = Some(e);
                            }
                        },
                    }
                    j = j + 1;
                    proof {
                        assert(dvv[j - 1].1 == dv@[j - 1].1);
                        match err {
                            None => {
                                assert(infos@.drop_last() =~= pinfos);
                                assert(infos_v(infos@) =~= infos_v(infos@.drop_last())
                                    + seq![(dd, infos@.last().1@)]);
                                assert(spec_scan(s, n@, mpath@, msrc@, dvv, j - 1, fuel - 1)
                                    == (match spec_scan(
                                    s,
                                    n@,
                                    mpath@,
                                    msrc@,
                                    dvv,
                                    j as int,
                                    fuel - 1,
                                ) {
                                    Ok(rest) => Ok::<_, ErrorV>(
                                        seq![(dd, infos@.last().1@)] + rest,
                                    ),
                                    Err(e2) => Err::<Seq<
                                        (Seq<u8>, crate::project::TypeInfoV),
                                    >, _>(e2),
                                }));
                                let pr = (dd, infos@.last().1@);
                                match spec_scan(s, n@, mpath@, msrc@, dvv, j as int, fuel
                                    - 1) {
                                    Ok(rest) => {
                                        assert(infos_v(infos@.drop_last()) + (seq![pr]
                                            + rest) =~= infos_v(infos@) + rest);
                                    },
                                    Err(_) => {},
                                }
                            },
                            Some(_) => {},
                        }
                    }
                }
                match err {
                    Some(e) => Err(e),
                    None => {
                        proof {
                            assert(spec_scan(s, n@, mpath@, msrc@, dvv, dvv.len() as int, fuel
                                - 1) == Ok::<_, ErrorV>(
                                Seq::<(Seq<u8>, crate::project::TypeInfoV)>::empty(),
                            ));
                            assert(infos_v(infos@) + Seq::<(
                                Seq<u8>,
                                crate::project::TypeInfoV,
                            )>::empty() =~= infos_v(infos@));
                        }
                        let Module { src: _, path: _, source_base_path: _, origin: _, module } =
                            m;
                        match infer_module(module, infos) {
                            Err(te) => Err(
                                Error::Type { path: mpath, src: msrc, error: te },
                            ),
                            Ok(t) => {
                                let ti = crate::values::info_clone(&t.type_info);
                                let nm = copy_bytes_list(&t.name);
                                Ok(
                                    Analysed {
                                        ast: t,
                                        name: nm,
                                        origin: morigin,
                                        type_info: ti,
                                        source_base_path: mbase,
                                    },
                                )
                            },
                        }
                    },
                }
            }
    }
}

impl Database {
    fn demand_analyzed(&mut self, n: &[u8], Ghost(fuel): Ghost<int>) -> (r: (
        Result<Analysed, Error>,
        u64,
    ))
        requires
            old(self).wf(),
            fuel >= 1,
            path_bound(state_graph(old(self).state()), n@, fuel),
        ensures
            final(self).wf(),
            final(self).revision == old(self).revision,
            final(self).names@ == old(self).names@,
            final(self).inputs@ == old(self).inputs@,
            final(self).analyzed_computes >= old(self).analyzed_computes,
            (match ana_latest(*old(self), n@) {
                Some(e) => e.verified_at == old(self).revision,
                None => false,
            }) ==> final(self).analyzed_computes == old(self).analyzed_computes,
            ana_res_v(r.0) == spec_analyzed_module(old(self).state(), n@),
            match ana_latest(*final(self), n@) {
                Some(e) => e.verified_at == final(self).revision && e.changed_at == r.1
                    && ana_res_v(e.value) == ana_res_v(r.0),
                None => false,
            },
        decreases fuel, 1int,
    {
        let ghost s = self.state();
        let rev = self.revision;
        let fnd = self.find_ana(n);
        match fnd {
            Some(i) => {
                proof {
                    lemma_ana_idx(self.ana@, n@);
                    assert(self.ana_inv(self.ana@[i as int]));
                }
                if self.ana[i].verified_at == rev {
                    let v = ana_res_clone(&self.ana[i].value);
                    let ca = self.ana[i].changed_at;
                    return (v, ca);
                }
            },
            None => {},
        }
        // Recompute from the current state.
        if self.analyzed_computes < u64::MAX {
            self.analyzed_computes = self.analyzed_computes + 1;
        }
        let ghost pre0 = *self;
        let (dv, _d_ca) = self.demand_dependencies(n);
        let (mav, _m_ca) = self.demand_module_ast(n);
        proof {
            assert(self.state() == s);
        }
        let value: Result<Analysed, Error> = match mav {
            Err(e) => {
                proof {
                    assert(ana_res_v(Err::<Analysed, Error>(e)) == spec_analyzed(s, n@, fuel))
                        by {
                        assert(e@ == (match spec_module_ast(s, n@) {
                            Err(e2) => e2,
                            Ok(_) => arbitrary(),
                        }));
                    }
                }
                Err(e)
            },
            Ok(m) => self.analyze_parsed(n, m, &dv, Ghost(fuel)),
        };
        proof {
            assert(ana_res_v(value) == spec_analyzed(s, n@, fuel));
            lemma_fuel0_bound(s, n@);
            lemma_fuel_analyzed(s, n@, fuel, fuel0(s));
            assert(ana_res_v(value) == spec_analyzed_module(s, n@));
        }
        let old_idx = self.find_ana(n);
        let ca: u64 = match old_idx {
            Some(i) => {
                proof {
                    lemma_ana_idx(self.ana@, n@);
                    assert(self.ana_inv(self.ana@[i as int]));
                }
                if ana_res_eq(&self.ana[i].value, &value) {
                    self.ana[i].changed_at
                } else {
                    rev
                }
            },
            None => rev,
        };
        let ret = ana_res_clone(&value);
        let e = AnaEntry { name: copy_bytes(n), value, verified_at: rev, changed_at: ca };
        let ghost pre = *self;
        match old_idx {
            Some(i) => {
                proof {
                    lemma_ana_idx(pre.ana@, n@);
                }
                let _ = self.ana.remove(i);
            },
            None => {},
        }
        let ghost mid = self.ana@;
        self.ana.push(e);
        proof {
            assert(self.ana@.drop_last() =~= mid);
            assert(pre.state() == s);
            assert(self.state() == s);
            assert(e.name@ == n@);
            assert forall|m: Seq<u8>| #[trigger] ana_idx(self.ana@, m) >= 0 implies self.ana_inv(
                self.ana@[ana_idx(self.ana@, m)],
            ) by {
                if m == n@ {
                    assert(ana_idx(self.ana@, n@) == self.ana@.len() - 1);
                } else {
                    lemma_ana_idx(self.ana@, m);
                    assert(ana_idx(self.ana@, m) == ana_idx(mid, m));
                    match old_idx {
                        Some(i) => {
                            assert(mid =~= pre.ana@.remove(i as int));
                            assert(pre.ana@[i as int].name@ == n@);
                            lemma_ana_idx_remove(pre.ana@, i as int, m);
                            lemma_ana_idx(mid, m);
                            assert(self.ana@[ana_idx(self.ana@, m)] == mid[ana_idx(mid, m)]);
                            assert(mid[ana_idx(mid, m)] == pre.ana@[ana_idx(pre.ana@, m)]);
                            assert(pre.ana_inv(pre.ana@[ana_idx(pre.ana@, m)]));
                        },
                        None => {
                            assert(mid == pre.ana@);
                            assert(pre.ana_inv(pre.ana@[ana_idx(pre.ana@, m)]));
                        },
                    }
                }
            }
            assert forall|m: Seq<u8>| #[trigger] ma_idx(self.ma@, m) >= 0 implies self.ma_inv(
                self.ma@[ma_idx(self.ma@, m)],
            ) by {
                lemma_ma_idx(pre.ma@, m);
                assert(pre.ma_inv(pre.ma@[ma_idx(pre.ma@, m)]));
            }
            assert forall|m: Seq<u8>| #[trigger] deps_idx(self.deps@, m) >= 0 implies
                self.deps_inv(self.deps@[deps_idx(self.deps@, m)]) by {
                lemma_deps_idx(pre.deps@, m);
                assert(pre.deps_inv(pre.deps@[deps_idx(pre.deps@, m)]));
            }
        }
        (ret, ca)
    }
}

/// The deep view of an input list.
pub open spec fn inputs_v(s: Seq<Input>) -> Seq<InputV> {
    Seq::new(s.len(), |i: int| s[i]@)
}

/// The deep view of a module list.
pub open spec fn mods_v(s: Seq<Module>) -> Seq<ModuleV> {
    Seq::new(s.len(), |i: int| s[i]@)
}

/// What `all_sources` yields: the inputs of the live names, in name
/// order.
pub open spec fn spec_all_sources(s: StateV) -> Seq<InputV> {
    Seq::new(s.names.len(), |i: int| s.inputs[s.names[i]])
}

/// What `all_modules_ast` yields: every live module parsed, stopping at
/// the first failure.
pub open spec fn spec_all_modules_ast_from(s: StateV, i: int) -> Result<Seq<ModuleV>, ErrorV>
    decreases s.names.len() - i,
{
    if i < 0 || i >= s.names.len() {
        Ok(Seq::empty())
    } else {
        match spec_module_ast(s, s.names[i]) {
            Err(e) => Err(e),
            Ok(m) => match spec_all_modules_ast_from(s, i + 1) {
                Err(e) => Err(e),
                Ok(ms) => Ok(seq![m] + ms),
            },
        }
    }
}

pub open spec fn spec_all_modules_ast(s: StateV) -> Result<Seq<ModuleV>, ErrorV> {
    spec_all_modules_ast_from(s, 0)
}

/// What `all_modules_analyzed` yields: every live input analysed under
/// its path-derived module name, stopping at the first failure.
pub open spec fn spec_all_modules_analyzed_from(s: StateV, i: int) -> Result<
    Seq<AnalysedV>,
    ErrorV,
>
    decreases s.names.len() - i,
{
    if i < 0 || i >= s.names.len() {
        Ok(Seq::empty())
    } else {
        match spec_analyzed_module(s, spec_create_module_name(s.inputs[s.names[i]])) {
            Err(e) => Err(e),
            Ok(a) => match spec_all_modules_analyzed_from(s, i + 1) {
                Err(e) => Err(e),
                Ok(rest) => Ok(seq![a] + rest),
            },
        }
    }
}

pub open spec fn spec_all_modules_analyzed(s: StateV) -> Result<Seq<AnalysedV>, ErrorV> {
    spec_all_modules_analyzed_from(s, 0)
}

/// What `check_dependents` yields: the first analysis error among the
/// dependents of a module, if any.
pub open spec fn spec_check_list(s: StateV, list: Seq<Seq<u8>>, i: int) -> Result<(), ErrorV>
    decreases list.len() - i,
{
    if i < 0 || i >= list.len() {
        Ok(())
    } else {
        match spec_analyzed_module(s, list[i]) {
            Err(e) => Err(e),
            Ok(_) => spec_check_list(s, list, i + 1),
        }
    }
}

pub open spec fn spec_check_dependents(s: StateV, n: Seq<u8>) -> Result<(), ErrorV> {
    spec_check_list(s, spec_dependents(s, n), 0)
}

/// What `generate_project_code` yields.
pub open spec fn spec_generate_project_code(s: StateV) -> Result<Seq<OutputFileV>, ErrorV> {
    match spec_all_modules_analyzed(s) {
        Err(e) => Err(e),
        Ok(l) => Ok(crate::project::spec_outputs_all(l)),
    }
}

/// What `generate_new_module` and `invalidate_module` yield for one
/// module.
pub open spec fn spec_module_outputs(s: StateV, n: Seq<u8>) -> Result<Seq<OutputFileV>, ErrorV> {
    match spec_analyzed_module(s, n) {
        Err(e) => Err(e),
        Ok(a) => Ok(crate::project::spec_outputs_for(a)),
    }
}

impl Database {
    /// The input of one live module name.
    pub fn source_file(&self, name: &[u8]) -> (r: Input)
        requires
            self.wf(),
            cell_idx(self.inputs@, name@) >= 0,
        ensures
            r@ == self.state().inputs[name@],
    {
        match self.find_input(name) {
            Some(ci) => {
                proof {
                    lemma_cell_idx(self.inputs@, name@);
                }
                input_clone(&self.inputs[ci].value)
            },
            None => {
                proof {
                    assert(false);
                }
                Input {
                    source_base_path: Vec::new(),
                    path: Vec::new(),
                    src: Vec::new(),
                    origin: crate::project::ModuleOrigin::Src,
                }
            },
        }
    }

    /// The set of live module names, in name order.
    pub fn sources(&self) -> (r: Vec<Vec<u8>>)
        ensures
            deep(r@) == self.state().names,
    {
        let r = copy_bytes_list(&self.names);
        proof {
            assert(deep(r@) =~= deep(self.names@));
        }
        r
    }

    /// Whether a name is live.
    pub fn has_source(&self, name: &[u8]) -> (r: bool)
        ensures
            r <==> self.state().names.contains(name@),
    {
        crate::graph::contains_name(&self.names, name)
    }

    /// The number of times `analyzed_module` was recomputed rather than
    /// reused or revalidated.
    pub fn analyzed_compute_count(&self) -> (r: u64)
        ensures
            r == self.analyzed_computes,
    {
        self.analyzed_computes
    }

    /// Every live input, in name order.
    pub fn all_sources(&self) -> (r: Vec<Input>)
        requires
            self.wf(),
        ensures
            inputs_v(r@) == spec_all_sources(self.state()),
    {
        let mut out: Vec<Input> = Vec::new();
        let mut i: usize = 0;
        while i < self.names.len()
            invariant
                self.wf(),
                i <= self.names@.len(),
                out@.len() == i,
                forall|j: int|
                    0 <= j < i ==> inputs_v(out@)[j] == spec_all_sources(self.state())[j],
            decreases self.names@.len() - i,
        {
            proof {
                assert(cell_idx(self.inputs@, deep(self.names@)[i as int]) >= 0);
            }
            match self.find_input(self.names[i].as_slice()) {
                Some(ci) => {
                    proof {
                        lemma_cell_idx(self.inputs@, deep(self.names@)[i as int]);
                    }
                    out.push(input_clone(&self.inputs[ci].value));
                },
                None => {
                    proof {
                        assert(false);
                    }
                },
            }
            i = i + 1;
        }
        proof {
            assert(inputs_v(out@) =~= spec_all_sources(self.state()));
        }
        out
    }

    /// Demands the parsed module of `name`.
    pub fn module_ast(&mut self, name: &[u8]) -> (r: Result<Module, Error>)
        requires
            old(self).wf(),
        ensures
            final(self).wf(),
            final(self).state() == old(self).state(),
            final(self).revision == old(self).revision,
            mod_res_v(r) == spec_module_ast(old(self).state(), name@),
    {
        let (v, _) = self.demand_module_ast(name);
        proof {
            assert(self.state() == old(self).state());
        }
        v
    }

    /// Demands the import list of `name`.
    pub fn dependencies(&mut self, name: &[u8]) -> (r: Vec<(Vec<u8>, SrcSpan)>)
        requires
            old(self).wf(),
        ensures
            final(self).wf(),
            final(self).state() == old(self).state(),
            final(self).revision == old(self).revision,
            deps_v(r@) == spec_dependencies(old(self).state(), name@),
    {
        let (v, _) = self.demand_dependencies(name);
        proof {
            assert(self.state() == old(self).state());
        }
        v
    }

    /// Scans all live modules for those whose dependencies include
    /// `name`.
    pub fn dependents(&mut self, name: &[u8]) -> (r: Vec<Vec<u8>>)
        requires
            old(self).wf(),
        ensures
            final(self).wf(),
            final(self).state() == old(self).state(),
            final(self).revision == old(self).revision,
            deep(r@) == spec_dependents(old(self).state(), name@),
    {
        let ghost s = self.state();
        let mut out: Vec<Vec<u8>> = Vec::new();
        let mut i: usize = 0;
        let nlen = self.names.len();
        while i < nlen
            invariant
                self.wf(),
                self.state() == s,
                s == old(self).state(),
                self.revision == old(self).revision,
                i <= nlen,
                nlen == self.names@.len(),
                deep(out@) =~= spec_dependents_pre(s, name@, i as int),
            decreases nlen - i,
        {
            proof {
                assert(cell_idx(self.inputs@, deep(self.names@)[i as int]) >= 0);
            }
            let inp = self.source_file(self.names[i].as_slice());
            let mname = create_module_name(&inp);
            proof {
                assert(mname@ == spec_create_module_name(s.inputs[s.names[i as int]]));
            }
            let (dk, _) = self.demand_dependencies(mname.as_slice());
            let mut hit = false;
            let mut j: usize = 0;
            while j < dk.len()
                invariant
                    j <= dk@.len(),
                    hit <==> exists|jj: int| 0 <= jj < j && deps_v(dk@)[jj].0 == name@,
                decreases dk@.len() - j,
            {
                if !hit {
                    if bytes_eq(dk[j].0.as_slice(), name) {
                        hit = true;
                        proof {
                            assert(deps_v(dk@)[j as int].0 == name@);
                        }
                    }
                }
                j = j + 1;
            }
            proof {
                assert(hit <==> fsts(spec_dependencies(s, mname@)).contains(name@)) by {
                    if hit {
                        let jj = choose|jj: int| 0 <= jj < dk@.len() && deps_v(dk@)[jj].0 == name@;
                        assert(fsts(deps_v(dk@))[jj] == name@);
                    }
                    if fsts(spec_dependencies(s, mname@)).contains(name@) {
                        let jj = choose|jj: int|
                            0 <= jj < fsts(spec_dependencies(s, mname@)).len() && fsts(
                                spec_dependencies(s, mname@),
                            )[jj] == name@;
                        assert(deps_v(dk@)[jj].0 == name@);
                    }
                }
            }
            if hit {
                out.push(mname);
            }
            i = i + 1;
            proof {
                assert(deep(out@) =~= spec_dependents_pre(s, name@, i as int));
            }
        }
        proof {
            assert(self.state() == old(self).state());
        }
        out
    }

    /// Demands the analysed module of `name`.
    pub fn analyzed_module(&mut self, name: &[u8]) -> (r: Result<Analysed, Error>)
        requires
            old(self).wf(),
        ensures
            final(self).wf(),
            final(self).state() == old(self).state(),
            final(self).revision == old(self).revision,
            final(self).analyzed_computes >= old(self).analyzed_computes,
            (match crate::db::ana_latest(*old(self), name@) {
                Some(e) => e.verified_at == old(self).revision,
                None => false,
            }) ==> final(self).analyzed_computes == old(self).analyzed_computes,
            ana_res_v(r) == spec_analyzed_module(old(self).state(), name@),
    {
        let ghost s = self.state();
        proof {
            lemma_fuel0_bound(s, name@);
        }
        let (v, _) = self.demand_analyzed(name, Ghost(fuel0(s)));
        proof {
            assert(self.state() == old(self).state());
        }
        v
    }

    /// Forces the analysis of every module that imports `name` and
    /// returns the first error found.
    pub fn check_dependents(&mut self, name: &[u8]) -> (r: Result<(), Error>)
        requires
            old(self).wf(),
        ensures
            final(self).wf(),
            final(self).state() == old(self).state(),
            final(self).revision == old(self).revision,
            match r {
                Ok(()) => spec_check_dependents(old(self).state(), name@) == Ok::<(), ErrorV>(()),
                Err(e) => spec_check_dependents(old(self).state(), name@) == Err::<(), _>(e@),
            },
    {
        let ghost s = self.state();
        let ds = self.dependents(name);
        let ghost dl = deep(ds@);
        let mut i: usize = 0;
        while i < ds.len()
            invariant
                self.wf(),
                self.state() == s,
                s == old(self).state(),
                self.revision == old(self).revision,
                i <= ds@.len(),
                dl == deep(ds@),
                dl == spec_dependents(s, name@),
                spec_check_list(s, dl, 0) == spec_check_list(s, dl, i as int),
            decreases ds@.len() - i,
        {
            match self.analyzed_module(ds[i].as_slice()) {
                Ok(_) => {},
                Err(e) => {
                    return Err(e);
                },
            }
            i = i + 1;
        }
        Ok(())
    }

    /// Parses every live module, stopping at the first failure.
    pub fn all_modules_ast(&mut self) -> (r: Result<Vec<Module>, Error>)
        requires
            old(self).wf(),
        ensures
            final(self).wf(),
            final(self).state() == old(self).state(),
            final(self).revision == old(self).revision,
            match r {
                Ok(ms) => spec_all_modules_ast(old(self).state()) == Ok::<_, ErrorV>(mods_v(ms@)),
                Err(e) => spec_all_modules_ast(old(self).state()) == Err::<Seq<ModuleV>, _>(e@),
            },
    {
        let ghost s = self.state();
        let mut out: Vec<Module> = Vec::new();
        proof {
            match spec_all_modules_ast_from(s, 0) {
                Ok(rest) => {
                    assert(mods_v(out@) + rest =~= rest);
                },
                Err(_) => {},
            }
        }
        let mut i: usize = 0;
        let nlen = self.names.len();
        while i < nlen
            invariant
                self.wf(),
                self.state() == s,
                s == old(self).state(),
                self.revision == old(self).revision,
                i <= nlen,
                nlen == self.names@.len(),
                out@.len() == i,
                spec_all_modules_ast(s) == (match spec_all_modules_ast_from(s, i as int) {
                    Ok(rest) => Ok::<_, ErrorV>(mods_v(out@) + rest),
                    Err(e) => Err::<Seq<ModuleV>, _>(e),
                }),
            decreases nlen - i,
        {
            let k = copy_bytes(self.names[i].as_slice());
            proof {
                assert(k@ == s.names[i as int]);
            }
            let ghost prev = out@;
            match self.module_ast(k.as_slice()) {
                Ok(m) => {
                    out.push(m);
                },
                Err(e) => {
                    return Err(e);
                },
            }
            i = i + 1;
            proof {
                assert(out@.drop_last() =~= prev);
                assert(spec_module_ast(s, s.names[i - 1]) == Ok::<ModuleV, ErrorV>(
                    out@.last()@,
                ));
                assert(spec_all_modules_ast_from(s, i - 1) == (
                match spec_all_modules_ast_from(s, i as int) {
                    Ok(rest) => Ok::<_, ErrorV>(seq![out@.last()@] + rest),
                    Err(e2) => Err::<Seq<ModuleV>, _>(e2),
                }));
                assert(mods_v(out@).len() == out@.len());
                assert(mods_v(out@) =~= mods_v(out@.drop_last()) + seq![out@.last()@]);
                match spec_all_modules_ast_from(s, i as int) {
                    Ok(rest) => {
                        assert(mods_v(out@) + rest =~= mods_v(out@.drop_last()) + (seq![
                            out@.last()@,
                        ] + rest));
                    },
                    Err(_) => {},
                }
            }
        }
        proof {
            assert(mods_v(out@) + Seq::<ModuleV>::empty() =~= mods_v(out@));
        }
        Ok(out)
    }

    /// Analyses every live module, stopping at the first failure.
    pub fn all_modules_analyzed(&mut self) -> (r: Result<Vec<Analysed>, Error>)
        requires
            old(self).wf(),
        ensures
            final(self).wf(),
            final(self).state() == old(self).state(),
            final(self).revision == old(self).revision,
            match r {
                Ok(ms) => spec_all_modules_analyzed(old(self).state()) == Ok::<_, ErrorV>(
                    crate::project::ans_v(ms@),
                ),
                Err(e) => spec_all_modules_analyzed(old(self).state()) == Err::<
                    Seq<AnalysedV>,
                    _,
                >(e@),
            },
    {
        let ghost s = self.state();
        let mut out: Vec<Analysed> = Vec::new();
        proof {
            match spec_all_modules_analyzed_from(s, 0) {
                Ok(rest) => {
                    assert(crate::project::ans_v(out@) + rest =~= rest);
                },
                Err(_) => {},
            }
        }
        let mut i: usize = 0;
        let nlen = self.names.len();
        while i < nlen
            invariant
                self.wf(),
                self.state() == s,
                s == old(self).state(),
                self.revision == old(self).revision,
                i <= nlen,
                nlen == self.names@.len(),
                out@.len() == i,
                spec_all_modules_analyzed(s) == (match spec_all_modules_analyzed_from(
                    s,
                    i as int,
                ) {
                    Ok(rest) => Ok::<_, ErrorV>(crate::project::ans_v(out@) + rest),
                    Err(e) => Err::<Seq<AnalysedV>, _>(e),
                }),
            decreases nlen - i,
        {
            proof {
                assert(cell_idx(self.inputs@, deep(self.names@)[i as int]) >= 0);
            }
            let inp = self.source_file(self.names[i].as_slice());
            let mname = create_module_name(&inp);
            proof {
                assert(mname@ == spec_create_module_name(s.inputs[s.names[i as int]]));
            }
            let ghost prev = out@;
            match self.analyzed_module(mname.as_slice()) {
                Ok(a) => {
                    out.push(a);
                },
                Err(e) => {
                    return Err(e);
                },
            }
            i = i + 1;
            proof {
                assert(out@.drop_last() =~= prev);
                assert(spec_analyzed_module(s, spec_create_module_name(s.inputs[s.names[i - 1]]))
                    == Ok::<AnalysedV, ErrorV>(out@.last()@));
                assert(spec_all_modules_analyzed_from(s, i - 1) == (
                match spec_all_modules_analyzed_from(s, i as int) {
                    Ok(rest) => Ok::<_, ErrorV>(seq![out@.last()@] + rest),
                    Err(e2) => Err::<Seq<AnalysedV>, _>(e2),
                }));
                let av = crate::project::ans_v(out@);
                assert(av.len() == out@.len());
                assert(av =~= crate::project::ans_v(out@.drop_last()) + seq![out@.last()@]);
                match spec_all_modules_analyzed_from(s, i as int) {
                    Ok(rest) => {
                        assert(av + rest =~= crate::project::ans_v(out@.drop_last()) + (seq![
                            out@.last()@,
                        ] + rest));
                    },
                    Err(_) => {},
                }
            }
        }
        proof {
            assert(crate::project::ans_v(out@) + Seq::<AnalysedV>::empty()
                =~= crate::project::ans_v(out@));
        }
        Ok(out)
    }

    /// Analyses the whole project and emits every backend file.
    pub fn generate_project_code(&mut self) -> (r: Result<Vec<OutputFile>, Error>)
        requires
            old(self).wf(),
        ensures
            final(self).wf(),
            final(self).state() == old(self).state(),
            final(self).revision == old(self).revision,
            match r {
                Ok(fs) => spec_generate_project_code(old(self).state()) == Ok::<_, ErrorV>(
                    crate::project::outs_v(fs@),
                ),
                Err(e) => spec_generate_project_code(old(self).state()) == Err::<
                    Seq<OutputFileV>,
                    _,
                >(e@),
            },
    {
        match self.all_modules_analyzed() {
            Err(e) => Err(e),
            Ok(list) => {
                let mut files: Vec<OutputFile> = Vec::new();
                crate::project::generate_erlang(list.as_slice(), &mut files);
                proof {
                    assert(crate::project::outs_v(files@) =~= crate::project::spec_outputs_all(
                        crate::project::ans_v(list@),
                    ));
                }
                Ok(files)
            },
        }
    }

    /// Analyses one module and emits its backend files.
    pub fn generate_new_module(&mut self, name: &[u8]) -> (r: Result<Vec<OutputFile>, Error>)
        requires
            old(self).wf(),
        ensures
            final(self).wf(),
            final(self).state() == old(self).state(),
            final(self).revision == old(self).revision,
            match r {
                Ok(fs) => spec_module_outputs(old(self).state(), name@) == Ok::<_, ErrorV>(
                    crate::project::outs_v(fs@),
                ),
                Err(e) => spec_module_outputs(old(self).state(), name@) == Err::<
                    Seq<OutputFileV>,
                    _,
                >(e@),
            },
    {
        match self.analyzed_module(name) {
            Err(e) => Err(e),
            Ok(a) => {
                let mut files: Vec<OutputFile> = Vec::new();
                let mut one: Vec<Analysed> = Vec::new();
                one.push(a);
                crate::project::generate_erlang(one.as_slice(), &mut files);
                proof {
                    assert(crate::project::ans_v(one@) =~= seq![one@[0]@]);
                    assert(crate::project::ans_v(one@).drop_last() =~= Seq::<AnalysedV>::empty());
                    assert(crate::project::spec_outputs_all(Seq::<AnalysedV>::empty())
                        =~= Seq::<crate::project::OutputFileV>::empty());
                    assert(crate::project::spec_outputs_all(crate::project::ans_v(one@))
                        =~= crate::project::spec_outputs_for(one@[0]@));
                    assert(crate::project::outs_v(files@) =~= crate::project::spec_outputs_for(
                        one@[0]@,
                    ));
                }
                Ok(files)
            },
        }
    }

    /// Re-checks the dependents of a changed module (best effort), then
    /// analyses the module itself and emits its backend files.
    pub fn invalidate_module(&mut self, name: &[u8]) -> (r: Result<Vec<OutputFile>, Error>)
        requires
            old(self).wf(),
        ensures
            final(self).wf(),
            final(self).state() == old(self).state(),
            final(self).revision == old(self).revision,
            match r {
                Ok(fs) => spec_module_outputs(old(self).state(), name@) == Ok::<_, ErrorV>(
                    crate::project::outs_v(fs@),
                ),
                Err(e) => spec_module_outputs(old(self).state(), name@) == Err::<
                    Seq<OutputFileV>,
                    _,
                >(e@),
            },
    {
        let _ = self.check_dependents(name);
        self.generate_new_module(name)
    }
}

/// The module names a list of discovered inputs maps to.
pub open spec fn in_mnames(inps: Seq<Input>) -> Seq<Seq<u8>> {
    Seq::new(inps.len(), |i: int| spec_create_module_name(inps[i]@))
}

impl Database {
    /// Whether an input cell exists for a name.
    pub fn has_input(&self, name: &[u8]) -> (r: bool)
        ensures
            r <==> self.state().inputs.contains_key(name@),
    {
        match self.find_input(name) {
            Some(_) => true,
            None => false,
        }
    }

    /// Takes the discovered inputs of a project into the Sources layer.
    /// Discovery rejects a project in which two inputs map to the same
    /// module name; otherwise every input is stored under its derived
    /// name and the name set is replaced.
    #[verifier::rlimit(80)]
    pub fn ingest_sources(&mut self, inputs: Vec<Input>) -> (r: Result<(), Error>)
        requires
            old(self).wf(),
            old(self).revision + inputs@.len() < u64::MAX,
        ensures
            final(self).wf(),
            match r {
                Ok(()) => {
                    &&& forall|i: int, j: int|
                        0 <= i < j < inputs@.len() ==> in_mnames(inputs@)[i] != in_mnames(
                            inputs@,
                        )[j]
                    &&& forall|x: Seq<u8>|
                        final(self).state().names.contains(x) <==> in_mnames(inputs@).contains(x)
                    &&& forall|i: int|
                        0 <= i < inputs@.len() ==> final(self).state().inputs.contains_key(
                            #[trigger] in_mnames(inputs@)[i],
                        ) && final(self).state().inputs[in_mnames(inputs@)[i]] == inputs@[i]@
                },
                Err(e) => {
                    &&& exists|i: int, j: int|
                        0 <= i < j < inputs@.len() && in_mnames(inputs@)[i] == in_mnames(
                            inputs@,
                        )[j]
                    &&& final(self).state() == old(self).state()
                    &&& e@ is FileIO
                },
            },
    {
        let ghost inputs0 = inputs@;
        // Derive every module name first.
        let mut mnames: Vec<Vec<u8>> = Vec::new();
        let mut i: usize = 0;
        while i < inputs.len()
            invariant
                i <= inputs@.len(),
                inputs@ == inputs0,
                mnames@.len() == i,
                forall|j: int| 0 <= j < i ==> deep(mnames@)[j] == in_mnames(inputs0)[j],
            decreases inputs@.len() - i,
        {
            mnames.push(create_module_name(&inputs[i]));
            i = i + 1;
        }
        // Reject a name collision.
        let mut dup_a: usize = 0;
        let mut dup_b: usize = 0;
        let mut has_dup: bool = false;
        let mut a: usize = 0;
        while a < mnames.len() && !has_dup
            invariant
                inputs@ == inputs0,
                a <= mnames@.len(),
                mnames@.len() == inputs0.len(),
                forall|j: int| 0 <= j < mnames@.len() ==> deep(mnames@)[j] == in_mnames(inputs0)[j],
                !has_dup ==> forall|i2: int, j2: int|
                    0 <= i2 < j2 < mnames@.len() && i2 < a ==> in_mnames(inputs0)[i2]
                        != in_mnames(inputs0)[j2],
                has_dup ==> dup_a < dup_b < inputs0.len() && in_mnames(inputs0)[dup_a as int]
                    == in_mnames(inputs0)[dup_b as int],
            decreases mnames@.len() - a,
        {
            let mut b: usize = a + 1;
            while b < mnames.len() && !has_dup
                invariant
                    inputs@ == inputs0,
                    a < mnames@.len(),
                    a < b <= mnames@.len(),
                    mnames@.len() == inputs0.len(),
                    forall|j: int|
                        0 <= j < mnames@.len() ==> deep(mnames@)[j] == in_mnames(inputs0)[j],
                    !has_dup ==> forall|j2: int|
                        a < j2 < b ==> in_mnames(inputs0)[a as int] != in_mnames(inputs0)[j2],
                    has_dup ==> dup_a < dup_b < inputs0.len() && in_mnames(inputs0)[dup_a as int]
                        == in_mnames(inputs0)[dup_b as int],
                decreases mnames@.len() - b,
            {
                if bytes_eq(mnames[a].as_slice(), mnames[b].as_slice()) {
                    has_dup = true;
                    dup_a = a;
                    dup_b = b;
                    proof {
                        assert(in_mnames(inputs0)[a as int] == in_mnames(inputs0)[b as int]);
                    }
                }
                b = b + 1;
            }
            a = a + 1;
        }
        if has_dup {
            proof {
                assert(exists|i2: int, j2: int|
                    0 <= i2 < j2 < inputs0.len() && in_mnames(inputs0)[i2] == in_mnames(
                        inputs0,
                    )[j2]) by {
                    assert(0 <= dup_a < dup_b < inputs0.len());
                }
            }
            return Err(
                Error::FileIO {
                    action: FileIOAction::Read,
                    kind: FileKind::File,
                    path: copy_bytes(inputs[dup_b].path.as_slice()),
                    err: Some(copy_bytes(mnames[dup_a].as_slice())),
                },
            );
        }
        proof {
            assert(forall|i2: int, j2: int|
                0 <= i2 < j2 < inputs0.len() ==> in_mnames(inputs0)[i2] != in_mnames(
                    inputs0,
                )[j2]);
        }
        // Store every input under its name, then replace the name set.
        let ghost pre = *self;
        let mut inputs = inputs;
        let mut k: usize = 0;
        while k < mnames.len()
            invariant
                self.wf(),
                pre == *old(self),
                pre.wf(),
                k <= mnames@.len(),
                mnames@.len() == inputs0.len(),
                inputs@.len() == inputs0.len() - k,
                forall|j: int| 0 <= j < inputs@.len() ==> inputs@[j] == inputs0[j + k],
                forall|j: int|
                    0 <= j < mnames@.len() ==> deep(mnames@)[j] == in_mnames(inputs0)[j],
                forall|i2: int, j2: int|
                    0 <= i2 < j2 < inputs0.len() ==> in_mnames(inputs0)[i2] != in_mnames(
                        inputs0,
                    )[j2],
                self.revision == pre.revision + k,
                pre.revision + inputs0.len() < u64::MAX,
                self.state().names == pre.state().names,
                forall|j: int|
                    0 <= j < k ==> self.state().inputs.contains_key(
                        #[trigger] in_mnames(inputs0)[j],
                    ) && self.state().inputs[in_mnames(inputs0)[j]] == inputs0[j]@,
            decreases mnames@.len() - k,
        {
            let inp = inputs.remove(0);
            proof {
                assert(in_mnames(inputs0).len() == inputs0.len());
                assert(inp == inputs0[k as int]);
            }
            let nm = copy_bytes(mnames[k].as_slice());
            proof {
                assert(nm@ == in_mnames(inputs0)[k as int]);
            }
            let ghost smid = self.state();
            self.set_source_file(nm, inp);
            k = k + 1;
            proof {
                assert(self.state().inputs == smid.inputs.insert(
                    in_mnames(inputs0)[k - 1],
                    inputs0[k - 1]@,
                ));
                assert forall|j: int|
                    0 <= j < k implies self.state().inputs.contains_key(
                    #[trigger] in_mnames(inputs0)[j],
                ) && self.state().inputs[in_mnames(inputs0)[j]] == inputs0[j]@ by {
                    if j < k - 1 {
                        assert(in_mnames(inputs0)[j] != in_mnames(inputs0)[k - 1]);
                        assert(smid.inputs.contains_key(in_mnames(inputs0)[j]));
                    }
                }
            }
        }
        // All names now have cells; replace the set.
        proof {
            assert forall|i2: int|
                0 <= i2 < mnames@.len() implies cell_idx(
                self.inputs@,
                #[trigger] deep(mnames@)[i2],
            ) >= 0 by {
                assert(in_mnames(inputs0).take(mnames@.len() as int) =~= in_mnames(inputs0));
                assert(self.state().inputs.contains_key(in_mnames(inputs0)[i2]));
            }
        }
        let ghost smid2 = self.state();
        let ghost mn = deep(mnames@);
        self.set_sources(mnames);
        proof {
            assert forall|i2: int|
                0 <= i2 < inputs0.len() implies self.state().inputs.contains_key(
                #[trigger] in_mnames(inputs0)[i2],
            ) && self.state().inputs[in_mnames(inputs0)[i2]] == inputs0[i2]@ by {
                assert(smid2.inputs.contains_key(in_mnames(inputs0)[i2]));
            }
            assert forall|x: Seq<u8>|
                self.state().names.contains(x) <==> in_mnames(inputs0).contains(x) by {
                if in_mnames(inputs0).contains(x) {
                    let w = choose|w: int|
                        0 <= w < in_mnames(inputs0).len() && in_mnames(inputs0)[w] == x;
                    assert(mn[w] == x);
                }
                if mn.contains(x) {
                    let w = choose|w: int| 0 <= w < mn.len() && mn[w] == x;
                    assert(in_mnames(inputs0)[w] == x);
                }
            }
        }
        Ok(())
    }
}

} // verus!
