//! Tests of the language front end, module naming, source discovery
//! rules, and the watch handlers.

use gleam_build::db::Database;
use gleam_build::error::Error;
use gleam_build::incremental::{handle_create, handle_remove, handle_rename, handle_write};
use gleam_build::parse::{attach_doc_comments, parse, strip_extra};
use gleam_build::project::{
    create_input_from_source, create_module_name, is_gleam_path, Input, ModuleOrigin,
    SourceCollection, Statement,
};
use gleam_build::typ::infer_module;

fn bv(s: &str) -> Vec<u8> {
    s.as_bytes().to_vec()
}

fn collection() -> SourceCollection {
    SourceCollection::new(bv("/r/src"), bv("/r/test"), vec![bv("/r/deps")])
}

#[test]
fn parser_reads_imports_and_definitions() {
    let (stripped, comments) = strip_extra(b"import one/two\npub fn go\ntype hidden\n");
    assert!(comments.is_empty());
    let m = parse(stripped.as_slice()).expect("parses");
    assert_eq!(m.statements.len(), 3);
    match &m.statements[0] {
        Statement::Import { module, .. } => {
            assert_eq!(module.len(), 2);
            assert_eq!(module[0], bv("one"));
            assert_eq!(module[1], bv("two"));
        }
        _ => panic!("expected an import"),
    }
    match &m.statements[1] {
        Statement::FnDef { name, public, .. } => {
            assert_eq!(name, &bv("go"));
            assert!(*public);
        }
        _ => panic!("expected a function"),
    }
    match &m.statements[2] {
        Statement::TypeDef { name, public, .. } => {
            assert_eq!(name, &bv("hidden"));
            assert!(!*public);
        }
        _ => panic!("expected a type"),
    }
}

#[test]
fn parser_reports_the_offending_token() {
    let (stripped, _) = strip_extra(b"pub fn ok\nwat is this\n");
    match parse(stripped.as_slice()) {
        Err(e) => {
            assert_eq!(e.token, bv("wat"));
            assert_eq!(e.location.start, 10);
        }
        Ok(_) => panic!("expected a parse error"),
    }
}

#[test]
fn comments_are_stripped_and_doc_comments_attach_to_statements() {
    let src = b"// plain comment\n/// the doc\npub fn go\n";
    let (stripped, comments) = strip_extra(src);
    assert_eq!(stripped.len(), src.len());
    assert_eq!(comments.len(), 1);
    assert_eq!(comments[0].text, bv(" the doc"));
    let m = parse(stripped.as_slice()).expect("parses");
    let m = attach_doc_comments(m, comments.as_slice());
    match &m.statements[0] {
        Statement::FnDef { doc, .. } => {
            assert_eq!(doc.len(), 1);
            assert_eq!(doc[0], bv(" the doc"));
        }
        _ => panic!("expected a function"),
    }
}

#[test]
fn module_names_come_from_the_path_under_the_source_base() {
    let inp = Input {
        source_base_path: bv("/r/src"),
        path: bv("/r/src/one/two.gleam"),
        src: bv(""),
        origin: ModuleOrigin::Src,
    };
    assert_eq!(create_module_name(&inp), bv("one/two"));
    let win = Input {
        source_base_path: bv("c:/r/src"),
        path: bv("c:/r/src/one\\two.gleam"),
        src: bv(""),
        origin: ModuleOrigin::Src,
    };
    assert_eq!(create_module_name(&win), bv("one/two"));
}

#[test]
fn gleam_paths_are_lowercase_segment_files() {
    assert!(is_gleam_path(b"/r/src/a.gleam", b"/r/src"));
    assert!(is_gleam_path(b"/r/src/one/two_three.gleam", b"/r/src"));
    assert!(!is_gleam_path(b"/r/src/One.gleam", b"/r/src"));
    assert!(!is_gleam_path(b"/r/src/a.txt", b"/r/src"));
    assert!(!is_gleam_path(b"/r/src/a//b.gleam", b"/r/src"));
    assert!(!is_gleam_path(b"/elsewhere/a.gleam", b"/r/src"));
}

#[test]
fn origin_resolution_prefers_src_and_test_over_dependencies() {
    let c = collection();
    let (base, origin) = c.origin_of(b"/r/src/a.gleam").expect("src file");
    assert_eq!(base, bv("/r/src"));
    assert_eq!(origin, ModuleOrigin::Src);
    let (base, origin) = c.origin_of(b"/r/test/a.gleam").expect("test file");
    assert_eq!(base, bv("/r/test"));
    assert_eq!(origin, ModuleOrigin::Test);
    let (base, origin) = c.origin_of(b"/r/deps/x/src/a.gleam").expect("dep file");
    assert_eq!(base, bv("/r/deps"));
    assert_eq!(origin, ModuleOrigin::Dependency);
    assert!(c.origin_of(b"/outside/a.gleam").is_none());
    assert_eq!(c.dirs(), vec![bv("/r/deps"), bv("/r/src"), bv("/r/test")]);
}

#[test]
fn create_input_carries_the_resolved_origin() {
    let c = collection();
    let inp = create_input_from_source(bv("/r/src/a.gleam"), bv("x"), &c).expect("resolves");
    assert_eq!(inp.source_base_path, bv("/r/src"));
    assert_eq!(inp.origin, ModuleOrigin::Src);
    assert!(create_input_from_source(bv("/nowhere/a.gleam"), bv("x"), &c).is_none());
}

#[test]
fn inference_collects_exports_and_rejects_duplicates() {
    let (stripped, _) = strip_extra(b"pub fn go\nfn quiet\npub type box\n");
    let m = parse(stripped.as_slice()).expect("parses");
    let t = infer_module(m, Vec::new()).expect("infers");
    assert_eq!(t.type_info.exports, vec![bv("go"), bv("box")]);
    let (stripped, _) = strip_extra(b"fn go\ntype go\n");
    let m = parse(stripped.as_slice()).expect("parses");
    match infer_module(m, Vec::new()) {
        Err(gleam_build::error::TypeError::DuplicateDefinition { name, .. }) => {
            assert_eq!(name, bv("go"));
        }
        Ok(_) => panic!("expected a duplicate-definition error"),
    }
}

fn seeded() -> Database {
    let mut db = Database::new();
    let a = Input {
        source_base_path: bv("/r/src"),
        path: bv("/r/src/a.gleam"),
        src: bv("import b\n"),
        origin: ModuleOrigin::Src,
    };
    let b = Input {
        source_base_path: bv("/r/src"),
        path: bv("/r/src/b.gleam"),
        src: bv(""),
        origin: ModuleOrigin::Src,
    };
    db.ingest_sources(vec![a, b]).expect("distinct names");
    db
}

#[test]
fn write_event_updates_the_input_and_reemits_the_module() {
    let mut db = seeded();
    db.generate_project_code().expect("compiles");
    let c = collection();
    let r = handle_write(&mut db, bv("/r/src/b.gleam"), bv("pub fn go\n"), &c)
        .expect("a source path")
        .expect("recompiles");
    assert_eq!(r.len(), 1);
    assert_eq!(r[0].text, bv("-module(b).\n-export(go).\n"));
    assert!(handle_write(&mut db, bv("/elsewhere/x.gleam"), bv(""), &c).is_none());
}

#[test]
fn create_event_adds_the_module_to_the_live_set() {
    let mut db = seeded();
    let c = collection();
    let r = handle_create(&mut db, bv("/r/src/c.gleam"), bv(""), &c)
        .expect("a source path")
        .expect("compiles");
    assert_eq!(r.len(), 1);
    assert_eq!(r[0].path, bv("/r/gen/src/c.erl"));
    assert!(db.has_source(b"c"));
}

#[test]
fn remove_event_drops_the_module_and_surfaces_breakage() {
    let mut db = seeded();
    let c = collection();
    let r = handle_remove(&mut db, bv("/r/src/b.gleam"), &c).expect("a source path");
    assert!(!db.has_source(b"b"));
    match r {
        Err(Error::UnknownImport { module, import, .. }) => {
            assert_eq!(module, bv("a"));
            assert_eq!(import, bv("b"));
        }
        _ => panic!("removing b breaks a"),
    }
}

#[test]
fn rename_event_swaps_the_names() {
    let mut db = seeded();
    let c = collection();
    let r = handle_rename(&mut db, bv("/r/src/b.gleam"), bv("/r/src/c.gleam"), &c)
        .expect("both are source paths");
    assert!(!db.has_source(b"b"));
    assert!(db.has_source(b"c"));
    // Nothing imports c yet, so the dependent check passes; demanding
    // the stale importer directly surfaces the breakage.
    assert!(r.is_ok());
    match db.analyzed_module(b"a") {
        Err(Error::UnknownImport { import, .. }) => {
            assert_eq!(import, bv("b"));
        }
        _ => panic!("renaming b away breaks a"),
    }
}
