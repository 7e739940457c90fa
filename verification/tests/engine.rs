//! End-to-end tests of the incremental engine.

use gleam_build::db::Database;
use gleam_build::error::Error;
use gleam_build::project::{Input, ModuleOrigin};

fn bv(s: &str) -> Vec<u8> {
    s.as_bytes().to_vec()
}

fn input(path: &str, src: &str, origin: ModuleOrigin) -> Input {
    Input {
        source_base_path: bv("/r/src"),
        path: bv(path),
        src: bv(src),
        origin,
    }
}

fn fresh(mods: &[(&str, &str)]) -> Database {
    let mut db = Database::new();
    let inputs: Vec<Input> = mods
        .iter()
        .map(|(n, s)| input(&format!("/r/src/{}.gleam", n), s, ModuleOrigin::Src))
        .collect();
    db.ingest_sources(inputs).expect("no duplicate names");
    db
}

#[test]
fn fresh_build_emits_one_file_per_module() {
    let mut db = fresh(&[("a", "import b\n"), ("b", "")]);
    let files = db.generate_project_code().expect("project compiles");
    assert_eq!(files.len(), 2);
    assert_eq!(files[0].path, bv("/r/gen/src/a.erl"));
    assert_eq!(files[1].path, bv("/r/gen/src/b.erl"));
    assert_eq!(files[0].text, bv("-module(a).\n"));
}

#[test]
fn unknown_import_is_reported_with_the_known_modules() {
    let mut db = fresh(&[("a", "import c\n")]);
    match db.generate_project_code() {
        Err(Error::UnknownImport {
            module,
            import,
            modules,
            ..
        }) => {
            assert_eq!(module, bv("a"));
            assert_eq!(import, bv("c"));
            assert!(modules.contains(&bv("a")));
        }
        _ => panic!("expected an unknown-import error"),
    }
}

#[test]
fn parse_error_carries_the_path() {
    let mut db = fresh(&[("a", "@\n")]);
    match db.generate_project_code() {
        Err(Error::Parse { path, .. }) => {
            assert_eq!(path, bv("/r/src/a.gleam"));
        }
        _ => panic!("expected a parse error"),
    }
}

#[test]
fn import_cycle_yields_a_cycle_error_naming_both_modules() {
    let mut db = fresh(&[("a", "import b\n"), ("b", "import a\n")]);
    match db.generate_project_code() {
        Err(Error::Cycle { modules }) => {
            assert!(modules.contains(&bv("a")));
            assert!(modules.contains(&bv("b")));
        }
        _ => panic!("expected a cycle error"),
    }
    match db.analyzed_module(b"a") {
        Err(Error::Cycle { modules }) => {
            assert!(modules.contains(&bv("a")));
            assert!(modules.contains(&bv("b")));
        }
        _ => panic!("expected a cycle error for a"),
    }
    match db.analyzed_module(b"b") {
        Err(Error::Cycle { .. }) => {}
        _ => panic!("expected a cycle error for b"),
    }
}

#[test]
fn repeated_demands_reuse_cached_analyses() {
    let mut db = fresh(&[("a", "import b\n"), ("b", "pub fn one\n")]);
    db.generate_project_code().expect("compiles");
    let before = db.analyzed_compute_count();
    // Within one revision every further demand is served from the cache.
    db.generate_project_code().expect("still compiles");
    let _ = db.analyzed_module(b"a");
    let _ = db.analyzed_module(b"b");
    assert_eq!(db.analyzed_compute_count(), before);
}

#[test]
fn whitespace_change_keeps_outputs_identical() {
    let mut db = fresh(&[("a", "import b\n"), ("b", "pub fn one\n")]);
    let f1 = db.generate_project_code().expect("compiles");
    // A trailing blank line keeps every statement and span unchanged,
    // so regeneration yields byte-identical outputs.
    db.set_source_file(
        bv("b"),
        input("/r/src/b.gleam", "pub fn one\n\n", ModuleOrigin::Src),
    );
    let f2 = db.generate_project_code().expect("still compiles");
    assert_eq!(f1.len(), f2.len());
    for (x, y) in f1.iter().zip(f2.iter()) {
        assert_eq!(x.path, y.path);
        assert_eq!(x.text, y.text);
    }
}

#[test]
fn no_stale_reads_after_an_input_assignment() {
    let mut db = fresh(&[("a", "import b\n"), ("b", "pub fn one\n")]);
    let a1 = db.analyzed_module(b"a").expect("a compiles");
    assert_eq!(a1.ast.imported.len(), 1);
    assert_eq!(a1.ast.imported[0].1.exports, vec![bv("one")]);
    db.set_source_file(bv("b"), input("/r/src/b.gleam", "pub fn two\n", ModuleOrigin::Src));
    let a2 = db.analyzed_module(b"a").expect("a still compiles");
    assert_eq!(a2.ast.imported[0].1.exports, vec![bv("two")]);
}

#[test]
fn dependents_are_the_importers_in_name_order() {
    let mut db = fresh(&[
        ("a", "import b\n"),
        ("b", ""),
        ("c", "import b\nimport a\n"),
    ]);
    let deps_of_b = db.dependents(b"b");
    assert_eq!(deps_of_b, vec![bv("a"), bv("c")]);
    let deps_of_a = db.dependents(b"a");
    assert_eq!(deps_of_a, vec![bv("c")]);
    let deps_of_c = db.dependents(b"c");
    assert!(deps_of_c.is_empty());
}

#[test]
fn discovery_rejects_two_inputs_with_one_module_name() {
    let mut db = Database::new();
    let a1 = input("/r/src/a.gleam", "", ModuleOrigin::Src);
    let mut a2 = input("/r/src/a.gleam", "pub fn other\n", ModuleOrigin::Src);
    a2.path = bv("/r/src/a.gleam");
    match db.ingest_sources(vec![a1, a2]) {
        Err(Error::FileIO { err: Some(name), .. }) => {
            assert_eq!(name, bv("a"));
        }
        _ => panic!("expected a duplicate-name error"),
    }
}

#[test]
fn type_error_on_duplicate_definitions() {
    let mut db = fresh(&[("a", "pub fn one\nfn one\n")]);
    match db.analyzed_module(b"a") {
        Err(Error::Type { path, .. }) => {
            assert_eq!(path, bv("/r/src/a.gleam"));
        }
        _ => panic!("expected a type error"),
    }
}

#[test]
fn record_headers_are_emitted_beside_the_module() {
    let mut db = fresh(&[("a", "pub type box\n")]);
    let files = db.generate_project_code().expect("compiles");
    assert_eq!(files.len(), 2);
    assert_eq!(files[0].path, bv("/r/gen/src/a_box.hrl"));
    assert_eq!(files[0].text, bv("-record(box).\n"));
    assert_eq!(files[1].path, bv("/r/gen/src/a.erl"));
}

#[test]
fn nested_module_names_join_with_at_in_output_paths() {
    let mut db = Database::new();
    let inp = Input {
        source_base_path: bv("/r/src"),
        path: bv("/r/src/one/two.gleam"),
        src: bv("pub fn go\n"),
        origin: ModuleOrigin::Src,
    };
    db.ingest_sources(vec![inp]).expect("single module");
    assert!(db.has_source(b"one/two"));
    let files = db.generate_project_code().expect("compiles");
    assert_eq!(files[0].path, bv("/r/gen/src/one@two.erl"));
    assert_eq!(files[0].text, bv("-module(one@two).\n-export(go).\n"));
}

#[test]
fn test_origin_modules_generate_under_the_test_directory() {
    let mut db = Database::new();
    let inp = Input {
        source_base_path: bv("/r/test"),
        path: bv("/r/test/a.gleam"),
        src: bv(""),
        origin: ModuleOrigin::Test,
    };
    db.ingest_sources(vec![inp]).expect("single module");
    let files = db.generate_project_code().expect("compiles");
    assert_eq!(files[0].path, bv("/r/gen/test/a.erl"));
}

#[test]
fn determinism_two_databases_same_state_same_outputs() {
    let mods = [("a", "import b\npub fn go\n"), ("b", "pub type t\n")];
    let mut db1 = fresh(&mods);
    // db2 reaches the same final state through extra intermediate steps.
    let mut db2 = fresh(&[("a", "@"), ("b", "")]);
    let _ = db2.generate_project_code();
    db2.set_source_file(bv("a"), input("/r/src/a.gleam", "import b\npub fn go\n", ModuleOrigin::Src));
    db2.set_source_file(bv("b"), input("/r/src/b.gleam", "pub type t\n", ModuleOrigin::Src));
    let f1 = db1.generate_project_code().expect("compiles");
    let f2 = db2.generate_project_code().expect("compiles");
    assert_eq!(f1.len(), f2.len());
    for (x, y) in f1.iter().zip(f2.iter()) {
        assert_eq!(x.path, y.path);
        assert_eq!(x.text, y.text);
    }
}

#[test]
fn invalidate_module_reemits_the_changed_module() {
    let mut db = fresh(&[("a", "import b\n"), ("b", "")]);
    db.generate_project_code().expect("compiles");
    db.set_source_file(bv("b"), input("/r/src/b.gleam", "pub fn go\n", ModuleOrigin::Src));
    let files = db.invalidate_module(b"b").expect("b compiles");
    assert_eq!(files.len(), 1);
    assert_eq!(files[0].path, bv("/r/gen/src/b.erl"));
    assert_eq!(files[0].text, bv("-module(b).\n-export(go).\n"));
}

#[test]
fn sources_and_source_file_round_trip() {
    let mut db = fresh(&[("b", "x"), ("a", "y")]);
    // Names come back in name order whatever the insertion order was.
    assert_eq!(db.sources(), vec![bv("a"), bv("b")]);
    let inp = db.source_file(b"a");
    assert_eq!(inp.src, bv("y"));
    assert_eq!(db.all_sources().len(), 2);
    let _ = db.module_ast(b"a");
}
