//! The engine's global laws, stated and proved once over the
//! specification-level model that every public contract speaks in.

use vstd::prelude::*;

use crate::bytes::{lex_lt, AT};
use crate::db::{
    fsts, sorted_distinct, spec_analyzed_module, spec_dependencies, spec_dependents,
    spec_dependents_pre, spec_generate_project_code, Database, StateV,
};
use crate::error::ErrorV;
use crate::graph::{g_succs, has_cycle_from, reaches, spec_cycle_nodes};
use crate::project::{
    record_names, spec_create_module_name, spec_erl_name, spec_gen_dir, spec_outputs_for,
    AnalysedV,
};

verus! {

/// Two sorted, duplicate-free name lists with the same members are the
/// same list.
pub proof fn lemma_sorted_unique(a: Seq<Seq<u8>>, b: Seq<Seq<u8>>)
    requires
        sorted_distinct(a),
        sorted_distinct(b),
        forall|x: Seq<u8>| a.contains(x) <==> b.contains(x),
    ensures
        a == b,
    decreases a.len(),
{
    if a.len() == 0 {
        if b.len() > 0 {
            assert(b.contains(b[0]));
            assert(a.contains(b[0]));
        }
        assert(a =~= b);
    } else {
        assert(a.contains(a[0]));
        assert(b.contains(a[0]));
        let j = choose|j: int| 0 <= j < b.len() && b[j] == a[0];
        assert(j == 0) by {
            if j > 0 {
                assert(lex_lt(b[0], b[j]));
                assert(a.contains(b[0]));
                let k = choose|k: int| 0 <= k < a.len() && a[k] == b[0];
                if k == 0 {
                    crate::bytes::lemma_lex_lt_irrefl(a[0]);
                } else {
                    assert(lex_lt(a[0], a[k]));
                    crate::bytes::lemma_lex_lt_asym(a[0], a[k]);
                }
            }
        }
        let a1 = a.skip(1);
        let b1 = b.skip(1);
        assert(sorted_distinct(a1)) by {
            assert(forall|i: int, k: int|
                0 <= i < k < a1.len() ==> a1[i] == a[i + 1] && a1[k] == a[k + 1]);
        }
        assert(sorted_distinct(b1)) by {
            assert(forall|i: int, k: int|
                0 <= i < k < b1.len() ==> b1[i] == b[i + 1] && b1[k] == b[k + 1]);
        }
        assert forall|x: Seq<u8>| a1.contains(x) <==> b1.contains(x) by {
            if a1.contains(x) {
                let i = choose|i: int| 0 <= i < a1.len() && a1[i] == x;
                assert(a[i + 1] == x);
                assert(a.contains(x));
                assert(b.contains(x));
                let k = choose|k: int| 0 <= k < b.len() && b[k] == x;
                assert(k != 0) by {
                    if k == 0 {
                        assert(x == a[0]);
                        assert(lex_lt(a[0], a[i + 1]));
                        crate::bytes::lemma_lex_lt_irrefl(a[0]);
                    }
                }
                assert(b1[k - 1] == x);
            }
            if b1.contains(x) {
                let i = choose|i: int| 0 <= i < b1.len() && b1[i] == x;
                assert(b[i + 1] == x);
                assert(b.contains(x));
                assert(a.contains(x));
                let k = choose|k: int| 0 <= k < a.len() && a[k] == x;
                assert(k != 0) by {
                    if k == 0 {
                        assert(x == b[0]);
                        assert(lex_lt(b[0], b[i + 1]));
                        crate::bytes::lemma_lex_lt_irrefl(b[0]);
                    }
                }
                assert(a1[k - 1] == x);
            }
        }
        lemma_sorted_unique(a1, b1);
        assert(a =~= b) by {
            assert(forall|i: int| 1 <= i < a.len() ==> a[i] == a1[i - 1] && b[i] == b1[i - 1]);
        }
    }
}

/// Two databases with the same Sources state have the same state view.
pub proof fn lemma_states_agree(db1: Database, db2: Database)
    requires
        db1.wf(),
        db2.wf(),
        db1.state().inputs == db2.state().inputs,
        forall|x: Seq<u8>| db1.state().names.contains(x) <==> db2.state().names.contains(x),
    ensures
        db1.state() == db2.state(),
{
    assert(sorted_distinct(db1.state().names));
    assert(sorted_distinct(db2.state().names));
    lemma_sorted_unique(db1.state().names, db2.state().names);
    assert(db1.state() == db2.state());
}

/// Determinism: two databases holding the same final Sources state
/// yield equal whole-project generation results, whatever sequence of
/// assignments and demands built each of them.
pub proof fn lemma_determinism(db1: Database, db2: Database)
    requires
        db1.wf(),
        db2.wf(),
        db1.state().inputs == db2.state().inputs,
        forall|x: Seq<u8>| db1.state().names.contains(x) <==> db2.state().names.contains(x),
    ensures
        spec_generate_project_code(db1.state()) == spec_generate_project_code(db2.state()),
{
    lemma_states_agree(db1, db2);
}

/// No stale reads: the analysed result of any module is a function of
/// the current Sources state alone — two databases agreeing on that
/// state agree on every analysis, whatever was cached before.
pub proof fn lemma_no_stale_reads(db1: Database, db2: Database, m: Seq<u8>)
    requires
        db1.wf(),
        db2.wf(),
        db1.state().inputs == db2.state().inputs,
        forall|x: Seq<u8>| db1.state().names.contains(x) <==> db2.state().names.contains(x),
    ensures
        spec_analyzed_module(db1.state(), m) == spec_analyzed_module(db2.state(), m),
{
    lemma_states_agree(db1, db2);
}

/// A name sync'd state: every live name is the module name its own
/// input derives.
pub open spec fn names_sync(s: StateV) -> bool {
    forall|i: int|
        0 <= i < s.names.len() ==> spec_create_module_name(s.inputs[#[trigger] s.names[i]])
            == s.names[i]
}

proof fn lemma_dependents_pre_member(s: StateV, n: Seq<u8>, m: Seq<u8>, i: int)
    requires
        names_sync(s),
        0 <= i <= s.names.len(),
    ensures
        spec_dependents_pre(s, n, i).contains(m) <==> exists|j: int|
            0 <= j < i && s.names[j] == m && fsts(spec_dependencies(s, m)).contains(n),
    decreases i,
{
    if i > 0 {
        lemma_dependents_pre_member(s, n, m, i - 1);
        let pre = spec_dependents_pre(s, n, i - 1);
        let whole = spec_dependents_pre(s, n, i);
        let mi = spec_create_module_name(s.inputs[s.names[i - 1]]);
        assert(mi == s.names[i - 1]);
        if whole.contains(m) {
            let w = choose|w: int| 0 <= w < whole.len() && whole[w] == m;
            if w < pre.len() {
                assert(pre[w] == m);
                assert(pre.contains(m));
            } else {
                assert(m == mi);
            }
        }
        if exists|j: int| 0 <= j < i && s.names[j] == m && fsts(spec_dependencies(s, m)).contains(
            n,
        ) {
            let j = choose|j: int|
                0 <= j < i && s.names[j] == m && fsts(spec_dependencies(s, m)).contains(n);
            if j < i - 1 {
                assert(pre.contains(m));
                let w = choose|w: int| 0 <= w < pre.len() && pre[w] == m;
                assert(whole[w] == m);
            } else {
                assert(whole[whole.len() - 1] == m);
            }
        }
        if pre.contains(m) {
            let w = choose|w: int| 0 <= w < pre.len() && pre[w] == m;
            assert(whole[w] == m);
        }
    }
}

/// The dependents law: in a name-sync'd state, the dependents of `n`
/// are exactly the live modules whose dependencies name `n`.
pub proof fn lemma_dependents_law(s: StateV, n: Seq<u8>, m: Seq<u8>)
    requires
        names_sync(s),
    ensures
        spec_dependents(s, n).contains(m) <==> (s.names.contains(m) && fsts(
            spec_dependencies(s, m),
        ).contains(n)),
{
    lemma_dependents_pre_member(s, n, m, s.names.len() as int);
    if s.names.contains(m) && fsts(spec_dependencies(s, m)).contains(n) {
        let j = choose|j: int| 0 <= j < s.names.len() && s.names[j] == m;
        assert(exists|j2: int|
            0 <= j2 < s.names.len() && s.names[j2] == m && fsts(spec_dependencies(s, m)).contains(
                n,
            ));
    }
}

/// No byte of `x` is the `@` separator.
pub open spec fn no_at(x: Seq<u8>) -> bool {
    forall|k: int| 0 <= k < x.len() ==> x[k] != AT
}

/// The output path law: every emitted file path starts with
/// `<base parent>/gen/<origin dir>/`, and holds `@` only inside the
/// joined module name, where it separates the name's segments.
pub proof fn lemma_output_paths(a: AnalysedV, i: int)
    requires
        0 <= i < spec_outputs_for(a).len(),
        no_at(a.source_base_path),
        forall|j: int| 0 <= j < a.name.len() ==> no_at(#[trigger] a.name[j]),
        forall|j: int| 0 <= j < record_names(a.ast.statements).len() ==> no_at(
            #[trigger] record_names(a.ast.statements)[j],
        ),
    ensures
        crate::bytes::is_prefix(
            spec_outputs_for(a)[i].path,
            spec_gen_dir(a.source_base_path, a.origin),
        ),
        forall|k: int|
            0 <= k < spec_outputs_for(a)[i].path.len() && spec_outputs_for(a)[i].path[k] == AT
                ==> spec_gen_dir(a.source_base_path, a.origin).len() <= k < spec_gen_dir(
                a.source_base_path,
                a.origin,
            ).len() + spec_erl_name(a.name).len(),
{
    let dir = spec_gen_dir(a.source_base_path, a.origin);
    let en = spec_erl_name(a.name);
    let p = spec_outputs_for(a)[i].path;
    let rn = record_names(a.ast.statements);
    lemma_no_at_parent(a.source_base_path);
    assert(no_at(dir));
    let tail = if i < rn.len() {
        seq![95u8] + rn[i] + crate::project::s_dot_hrl()
    } else {
        crate::project::s_dot_erl()
    };
    assert(p =~= dir + en + tail);
    assert(no_at(tail)) by {
        if i < rn.len() {
            assert(no_at(rn[i]));
            assert forall|k: int| 0 <= k < tail.len() implies tail[k] != AT by {
                if k == 0 {
                } else if k < 1 + rn[i].len() {
                    assert(tail[k] == rn[i][k - 1]);
                } else {
                    assert(tail[k] == crate::project::s_dot_hrl()[k - 1 - rn[i].len()]);
                }
            }
        }
    }
    assert(p.take(dir.len() as int) =~= dir);
    assert forall|k: int| 0 <= k < p.len() && p[k] == AT implies dir.len() <= k < dir.len()
        + en.len() by {
        if k < dir.len() {
            assert(p[k] == dir[k]);
        }
        if k >= dir.len() + en.len() {
            assert(p[k] == tail[k - dir.len() - en.len()]);
        }
    }
}

/// The parent of an `@`-free path is `@`-free.
proof fn lemma_no_at_parent(base: Seq<u8>)
    requires
        no_at(base),
    ensures
        forall|o: crate::project::ModuleOrigin| no_at(#[trigger] crate::project::spec_gen_dir(
            base,
            o,
        )),
{
    assert forall|o: crate::project::ModuleOrigin| no_at(#[trigger] crate::project::spec_gen_dir(
        base,
        o,
    )) by {
        let par = crate::project::spec_parent_of(base);
        assert(no_at(par)) by {
            crate::project::lemma_rfind(base, crate::bytes::SLASH);
            if crate::project::spec_rfind(base, crate::bytes::SLASH) >= 0 {
                assert(forall|k: int| 0 <= k < par.len() ==> par[k] == base[k]);
            }
        }
        let dir = crate::project::spec_gen_dir(base, o);
        let dn = crate::project::spec_dir_name(o);
        assert forall|k: int| 0 <= k < dir.len() implies dir[k] != AT by {
            if k < par.len() {
                assert(dir[k] == par[k]);
            } else if k < par.len() + 5 {
                assert(dir[k] == crate::project::s_slash_gen_slash()[k - par.len()]);
            } else if k < par.len() + 5 + dn.len() {
                assert(dir[k] == dn[k - par.len() - 5]);
            } else {
                assert(dir[k] == crate::bytes::SLASH);
            }
        }
    }
}

/// Cycle detection: when `a` imports `b` and `b` imports `a`, analysing
/// either yields a cycle error naming both modules.
pub proof fn lemma_cycle_detection(s: StateV, a: Seq<u8>, b: Seq<u8>)
    requires
        sorted_distinct(s.names),
        fsts(spec_dependencies(s, a)).contains(b),
        fsts(spec_dependencies(s, b)).contains(a),
    ensures
        match spec_analyzed_module(s, a) {
            Err(e) => match e {
                ErrorV::Cycle { modules } => modules.contains(a) && modules.contains(b),
                _ => false,
            },
            Ok(_) => false,
        },
        match spec_analyzed_module(s, b) {
            Err(e) => match e {
                ErrorV::Cycle { modules } => modules.contains(a) && modules.contains(b),
                _ => false,
            },
            Ok(_) => false,
        },
{
    let g = crate::db::state_graph(s);
    assert(s.names.contains(a) && s.names.contains(b)) by {
        if !s.names.contains(a) {
            assert(spec_dependencies(s, a).len() == 0);
            assert(fsts(spec_dependencies(s, a)).len() == 0);
        }
        if !s.names.contains(b) {
            assert(spec_dependencies(s, b).len() == 0);
            assert(fsts(spec_dependencies(s, b)).len() == 0);
        }
    }
    crate::db::lemma_state_graph_succs(s, a);
    crate::db::lemma_state_graph_succs(s, b);
    crate::graph::lemma_reach_edge(g, a, b);
    crate::graph::lemma_reach_edge(g, b, a);
    crate::graph::lemma_reach_trans(g, a, b, a);
    crate::graph::lemma_reach_trans(g, b, a, b);
    assert(has_cycle_from(g, a)) by {
        assert(reaches(g, a, a) && reaches(g, a, a));
    }
    assert(has_cycle_from(g, b)) by {
        assert(reaches(g, b, b));
    }
    assert(spec_module_ast_ok(s, a) && spec_module_ast_ok(s, b));
    let ia = choose|ia: int| 0 <= ia < s.names.len() && s.names[ia] == a;
    let ib = choose|ib: int| 0 <= ib < s.names.len() && s.names[ib] == b;
    assert(g[ia].0 == a);
    assert(g[ib].0 == b);
    crate::graph::lemma_cycle_nodes_has(g, a, g.len() as int, ia);
    crate::graph::lemma_cycle_nodes_has(g, a, g.len() as int, ib);
    crate::graph::lemma_cycle_nodes_has(g, b, g.len() as int, ia);
    crate::graph::lemma_cycle_nodes_has(g, b, g.len() as int, ib);
    assert(reaches(g, a, b) && reaches(g, b, b));
    assert(reaches(g, b, a) && reaches(g, a, a));
}

/// A module with a nonempty dependency list parsed successfully.
pub open spec fn spec_module_ast_ok(s: StateV, n: Seq<u8>) -> bool {
    crate::db::spec_module_ast(s, n) is Ok
}

} // verus!
