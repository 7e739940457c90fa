//! The project data model: inputs, modules, analysed modules, output
//! files, and the pure functions over them (module naming, source-path
//! recognition, backend emission).

use vstd::prelude::*;

use crate::bytes::{
    copy_bytes, copy_bytes_list, deep, ends_with, is_prefix, is_suffix, join_bytes, push_bytes,
    spec_join, starts_with, sub_bytes, BSLASH, SLASH,
};
use crate::error::SrcSpan;

verus! {

/// Where a module comes from; decides the output directory.
#[derive(Clone, Copy, PartialEq, Eq, Structural, Debug)]
pub enum ModuleOrigin {
    Src,
    Test,
    Dependency,
}

/// One compilable unit: a source file as discovered on disk.
pub struct Input {
    pub source_base_path: Vec<u8>,
    pub path: Vec<u8>,
    pub src: Vec<u8>,
    pub origin: ModuleOrigin,
}

pub ghost struct InputV {
    pub source_base_path: Seq<u8>,
    pub path: Seq<u8>,
    pub src: Seq<u8>,
    pub origin: ModuleOrigin,
}

impl View for Input {
    type V = InputV;

    open spec fn view(&self) -> InputV {
        InputV {
            source_base_path: self.source_base_path@,
            path: self.path@,
            src: self.src@,
            origin: self.origin,
        }
    }
}

/// One top-level statement of the small source language.
pub enum Statement {
    Import { module: Vec<Vec<u8>>, location: SrcSpan, doc: Vec<Vec<u8>> },
    FnDef { name: Vec<u8>, public: bool, location: SrcSpan, doc: Vec<Vec<u8>> },
    TypeDef { name: Vec<u8>, public: bool, location: SrcSpan, doc: Vec<Vec<u8>> },
}

pub ghost enum StatementV {
    Import { module: Seq<Seq<u8>>, location: SrcSpan, doc: Seq<Seq<u8>> },
    FnDef { name: Seq<u8>, public: bool, location: SrcSpan, doc: Seq<Seq<u8>> },
    TypeDef { name: Seq<u8>, public: bool, location: SrcSpan, doc: Seq<Seq<u8>> },
}

impl View for Statement {
    type V = StatementV;

    open spec fn view(&self) -> StatementV {
        match self {
            Statement::Import { module, location, doc } => StatementV::Import {
                module: deep(module@),
                location: *location,
                doc: deep(doc@),
            },
            Statement::FnDef { name, public, location, doc } => StatementV::FnDef {
                name: name@,
                public: *public,
                location: *location,
                doc: deep(doc@),
            },
            Statement::TypeDef { name, public, location, doc } => StatementV::TypeDef {
                name: name@,
                public: *public,
                location: *location,
                doc: deep(doc@),
            },
        }
    }
}

impl StatementV {
    pub open spec fn location(self) -> SrcSpan {
        match self {
            StatementV::Import { location, .. } => location,
            StatementV::FnDef { location, .. } => location,
            StatementV::TypeDef { location, .. } => location,
        }
    }

    pub open spec fn doc(self) -> Seq<Seq<u8>> {
        match self {
            StatementV::Import { doc, .. } => doc,
            StatementV::FnDef { doc, .. } => doc,
            StatementV::TypeDef { doc, .. } => doc,
        }
    }

    /// The same statement with its doc comments replaced.
    pub open spec fn with_doc(self, d: Seq<Seq<u8>>) -> StatementV {
        match self {
            StatementV::Import { module, location, .. } => StatementV::Import {
                module,
                location,
                doc: d,
            },
            StatementV::FnDef { name, public, location, .. } => StatementV::FnDef {
                name,
                public,
                location,
                doc: d,
            },
            StatementV::TypeDef { name, public, location, .. } => StatementV::TypeDef {
                name,
                public,
                location,
                doc: d,
            },
        }
    }
}

/// The deep view of a list of statements.
pub open spec fn stmts_v(s: Seq<Statement>) -> Seq<StatementV> {
    Seq::new(s.len(), |i: int| s[i]@)
}

/// The deep view of a dependency list.
pub open spec fn deps_v(s: Seq<(Vec<u8>, SrcSpan)>) -> Seq<(Seq<u8>, SrcSpan)> {
    Seq::new(s.len(), |i: int| (s[i].0@, s[i].1))
}

/// The deep view of a list of named type infos.
pub open spec fn infos_v(s: Seq<(Vec<u8>, TypeInfo)>) -> Seq<(Seq<u8>, TypeInfoV)> {
    Seq::new(s.len(), |i: int| (s[i].0@, s[i].1@))
}

/// An untyped module as the parser returns it.
pub struct UntypedModule {
    pub name: Vec<Vec<u8>>,
    pub statements: Vec<Statement>,
}

pub ghost struct UntypedModuleV {
    pub name: Seq<Seq<u8>>,
    pub statements: Seq<StatementV>,
}

impl View for UntypedModule {
    type V = UntypedModuleV;

    open spec fn view(&self) -> UntypedModuleV {
        UntypedModuleV { name: deep(self.name@), statements: stmts_v(self.statements@) }
    }
}

/// The outbound imports of a statement list, with their spans.
pub open spec fn deps_of_stmts(ss: Seq<StatementV>) -> Seq<(Seq<u8>, SrcSpan)>
    decreases ss.len(),
{
    if ss.len() == 0 {
        Seq::empty()
    } else {
        deps_of_stmts(ss.drop_last()) + match ss.last() {
            StatementV::Import { module, location, .. } => seq![
                (spec_join(module, SLASH), location),
            ],
            _ => Seq::empty(),
        }
    }
}

/// A parsed module together with the raw input it came from.
pub struct Module {
    pub src: Vec<u8>,
    pub path: Vec<u8>,
    pub source_base_path: Vec<u8>,
    pub origin: ModuleOrigin,
    pub module: UntypedModule,
}

pub ghost struct ModuleV {
    pub src: Seq<u8>,
    pub path: Seq<u8>,
    pub source_base_path: Seq<u8>,
    pub origin: ModuleOrigin,
    pub module: UntypedModuleV,
}

impl View for Module {
    type V = ModuleV;

    open spec fn view(&self) -> ModuleV {
        ModuleV {
            src: self.src@,
            path: self.path@,
            source_base_path: self.source_base_path@,
            origin: self.origin,
            module: self.module@,
        }
    }
}

impl Module {
    /// The slash-joined names this module imports, with their spans.
    pub fn dependencies(&self) -> (r: Vec<(Vec<u8>, SrcSpan)>)
        ensures
            deps_v(r@) == deps_of_stmts(self@.module.statements),
    {
        let mut out: Vec<(Vec<u8>, SrcSpan)> = Vec::new();
        let stmts = &self.module.statements;
        let mut i: usize = 0;
        while i < stmts.len()
            invariant
                i <= stmts.len(),
                deps_v(out@) =~= deps_of_stmts(stmts_v(stmts@).take(i as int)),
            decreases stmts.len() - i,
        {
            proof {
                assert(stmts_v(stmts@).take(i + 1).drop_last() =~= stmts_v(stmts@).take(i as int));
                assert(stmts_v(stmts@).take(i + 1).last() == stmts@[i as int]@);
            }
            match &stmts[i] {
                Statement::Import { module, location, .. } => {
                    let name = join_bytes(module.as_slice(), SLASH);
                    out.push((name, *location));
                },
                _ => {},
            }
            i = i + 1;
        }
        proof {
            assert(stmts_v(stmts@).take(stmts@.len() as int) =~= stmts_v(stmts@));
        }
        out
    }
}

/// What a module exports to its importers.
pub struct TypeInfo {
    pub name: Vec<Vec<u8>>,
    pub exports: Vec<Vec<u8>>,
}

pub ghost struct TypeInfoV {
    pub name: Seq<Seq<u8>>,
    pub exports: Seq<Seq<u8>>,
}

impl View for TypeInfo {
    type V = TypeInfoV;

    open spec fn view(&self) -> TypeInfoV {
        TypeInfoV { name: deep(self.name@), exports: deep(self.exports@) }
    }
}

/// A module after type inference.
pub struct TypedModule {
    pub name: Vec<Vec<u8>>,
    pub statements: Vec<Statement>,
    pub imported: Vec<(Vec<u8>, TypeInfo)>,
    pub type_info: TypeInfo,
}

pub ghost struct TypedModuleV {
    pub name: Seq<Seq<u8>>,
    pub statements: Seq<StatementV>,
    pub imported: Seq<(Seq<u8>, TypeInfoV)>,
    pub type_info: TypeInfoV,
}

impl View for TypedModule {
    type V = TypedModuleV;

    open spec fn view(&self) -> TypedModuleV {
        TypedModuleV {
            name: deep(self.name@),
            statements: stmts_v(self.statements@),
            imported: infos_v(self.imported@),
            type_info: self.type_info@,
        }
    }
}

/// The result of analysing one module.
pub struct Analysed {
    pub ast: TypedModule,
    pub name: Vec<Vec<u8>>,
    pub origin: ModuleOrigin,
    pub type_info: TypeInfo,
    pub source_base_path: Vec<u8>,
}

pub ghost struct AnalysedV {
    pub ast: TypedModuleV,
    pub name: Seq<Seq<u8>>,
    pub origin: ModuleOrigin,
    pub type_info: TypeInfoV,
    pub source_base_path: Seq<u8>,
}

impl View for Analysed {
    type V = AnalysedV;

    open spec fn view(&self) -> AnalysedV {
        AnalysedV {
            ast: self.ast@,
            name: deep(self.name@),
            origin: self.origin,
            type_info: self.type_info@,
            source_base_path: self.source_base_path@,
        }
    }
}

/// A generated backend file.
pub struct OutputFile {
    pub text: Vec<u8>,
    pub path: Vec<u8>,
}

pub ghost struct OutputFileV {
    pub text: Seq<u8>,
    pub path: Seq<u8>,
}

impl View for OutputFile {
    type V = OutputFileV;

    open spec fn view(&self) -> OutputFileV {
        OutputFileV { text: self.text@, path: self.path@ }
    }
}

// ---------------------------------------------------------------------
// Byte-string literals used by the engine.
// ---------------------------------------------------------------------

pub open spec fn s_src() -> Seq<u8> {
    seq![115u8, 114u8, 99u8]
}

pub open spec fn s_test() -> Seq<u8> {
    seq![116u8, 101u8, 115u8, 116u8]
}

pub open spec fn s_slash_gen_slash() -> Seq<u8> {
    seq![SLASH, 103u8, 101u8, 110u8, SLASH]
}

pub open spec fn s_dot_gleam() -> Seq<u8> {
    seq![46u8, 103u8, 108u8, 101u8, 97u8, 109u8]
}

pub open spec fn s_dot_erl() -> Seq<u8> {
    seq![46u8, 101u8, 114u8, 108u8]
}

pub open spec fn s_dot_hrl() -> Seq<u8> {
    seq![46u8, 104u8, 114u8, 108u8]
}

pub fn lit_src() -> (r: Vec<u8>)
    ensures
        r@ == s_src(),
{
    let mut v: Vec<u8> = Vec::new();
    v.push(115u8);
    v.push(114u8);
    v.push(99u8);
    proof {
        assert(v@ =~= s_src());
    }
    v
}

pub fn lit_test() -> (r: Vec<u8>)
    ensures
        r@ == s_test(),
{
    let mut v: Vec<u8> = Vec::new();
    v.push(116u8);
    v.push(101u8);
    v.push(115u8);
    v.push(116u8);
    proof {
        assert(v@ =~= s_test());
    }
    v
}

pub fn lit_slash_gen_slash() -> (r: Vec<u8>)
    ensures
        r@ == s_slash_gen_slash(),
{
    let mut v: Vec<u8> = Vec::new();
    v.push(SLASH);
    v.push(103u8);
    v.push(101u8);
    v.push(110u8);
    v.push(SLASH);
    proof {
        assert(v@ =~= s_slash_gen_slash());
    }
    v
}

pub fn lit_dot_gleam() -> (r: Vec<u8>)
    ensures
        r@ == s_dot_gleam(),
{
    let mut v: Vec<u8> = Vec::new();
    v.push(46u8);
    v.push(103u8);
    v.push(108u8);
    v.push(101u8);
    v.push(97u8);
    v.push(109u8);
    proof {
        assert(v@ =~= s_dot_gleam());
    }
    v
}

pub fn lit_dot_erl() -> (r: Vec<u8>)
    ensures
        r@ == s_dot_erl(),
{
    let mut v: Vec<u8> = Vec::new();
    v.push(46u8);
    v.push(101u8);
    v.push(114u8);
    v.push(108u8);
    proof {
        assert(v@ =~= s_dot_erl());
    }
    v
}

pub fn lit_dot_hrl() -> (r: Vec<u8>)
    ensures
        r@ == s_dot_hrl(),
{
    let mut v: Vec<u8> = Vec::new();
    v.push(46u8);
    v.push(104u8);
    v.push(114u8);
    v.push(108u8);
    proof {
        assert(v@ =~= s_dot_hrl());
    }
    v
}

// ---------------------------------------------------------------------
// Origins and output directories.
// ---------------------------------------------------------------------

/// The directory name an origin's outputs are generated under.
pub open spec fn spec_dir_name(o: ModuleOrigin) -> Seq<u8> {
    match o {
        ModuleOrigin::Test => s_test(),
        _ => s_src(),
    }
}

impl ModuleOrigin {
    /// The output directory for this origin: `src` for project and
    /// dependency modules, `test` for test modules.
    pub fn dir_name(&self) -> (r: Vec<u8>)
        ensures
            r@ == spec_dir_name(*self),
    {
        match self {
            ModuleOrigin::Test => lit_test(),
            _ => lit_src(),
        }
    }
}

/// The last index of `b` in `s`, or -1.
pub open spec fn spec_rfind(s: Seq<u8>, b: u8) -> int
    decreases s.len(),
{
    if s.len() == 0 {
        -1
    } else if s.last() == b {
        s.len() - 1
    } else {
        spec_rfind(s.drop_last(), b)
    }
}

pub proof fn lemma_rfind(s: Seq<u8>, b: u8)
    ensures
        -1 <= spec_rfind(s, b) < s.len(),
        spec_rfind(s, b) >= 0 ==> s[spec_rfind(s, b)] == b,
        forall|j: int| spec_rfind(s, b) < j < s.len() ==> s[j] != b,
    decreases s.len(),
{
    if s.len() > 0 && s.last() != b {
        lemma_rfind(s.drop_last(), b);
        assert forall|j: int| spec_rfind(s, b) < j < s.len() implies s[j] != b by {
            if j < s.len() - 1 {
                assert(s.drop_last()[j] == s[j]);
            }
        }
    }
}

/// The directory part of a slash-separated path: everything before the
/// last `/`, or the empty string when there is none.
pub open spec fn spec_parent_of(p: Seq<u8>) -> Seq<u8> {
    if spec_rfind(p, SLASH) < 0 {
        Seq::empty()
    } else {
        p.take(spec_rfind(p, SLASH))
    }
}

/// The directory part of a slash-separated path.
pub fn parent_of(p: &[u8]) -> (r: Vec<u8>)
    ensures
        r@ == spec_parent_of(p@),
{
    proof {
        lemma_rfind(p@, SLASH);
    }
    let mut i: usize = p.len();
    while i > 0
        invariant
            i <= p.len(),
            forall|j: int| i <= j < p@.len() ==> p@[j] != SLASH,
        decreases i,
    {
        if p[i - 1] == SLASH {
            proof {
                lemma_rfind_is(p@, SLASH, i - 1);
            }
            return sub_bytes(p, 0, i - 1);
        }
        i = i - 1;
    }
    proof {
        if spec_rfind(p@, SLASH) >= 0 {
            assert(p@[spec_rfind(p@, SLASH)] == SLASH);
        }
    }
    Vec::new()
}

/// An index holding `b` with nothing after it holding `b` is the last one.
proof fn lemma_rfind_is(s: Seq<u8>, b: u8, i: int)
    requires
        0 <= i < s.len(),
        s[i] == b,
        forall|j: int| i < j < s.len() ==> s[j] != b,
    ensures
        spec_rfind(s, b) == i,
    decreases s.len(),
{
    if s.len() - 1 == i {
    } else {
        assert(s.last() != b);
        lemma_rfind_is(s.drop_last(), b, i);
    }
}

// ---------------------------------------------------------------------
// Module names.
// ---------------------------------------------------------------------

/// The module name derived from an input's path: the path relative to the
/// source base, without a leading separator and the `.gleam` extension,
/// with backslashes turned into slashes.
pub open spec fn spec_create_module_name(i: InputV) -> Seq<u8> {
    let rel = if is_prefix(i.path, i.source_base_path) {
        i.path.skip(i.source_base_path.len() as int)
    } else {
        i.path
    };
    let rel2 = if rel.len() > 0 && rel[0] == SLASH {
        rel.skip(1)
    } else {
        rel
    };
    let stem = if is_suffix(rel2, s_dot_gleam()) {
        rel2.take(rel2.len() - 6)
    } else {
        rel2
    };
    stem.map_values(|c: u8| if c == BSLASH { SLASH } else { c })
}

/// Derives the module name of an input.  The caller hands in canonical
/// paths; the derivation itself is a pure function of the input.
pub fn create_module_name(input: &Input) -> (r: Vec<u8>)
    ensures
        r@ == spec_create_module_name(input@),
{
    let path = input.path.as_slice();
    let base = input.source_base_path.as_slice();
    let rel: Vec<u8> = if starts_with(path, base) {
        let s = sub_bytes(path, base.len(), path.len());
        proof {
            assert(s@ =~= input@.path.skip(input@.source_base_path.len() as int));
        }
        s
    } else {
        copy_bytes(path)
    };
    let rel2: Vec<u8> = if rel.len() > 0 && rel[0] == SLASH {
        let s = sub_bytes(rel.as_slice(), 1, rel.len());
        proof {
            assert(s@ =~= rel@.skip(1));
        }
        s
    } else {
        rel
    };
    let g = lit_dot_gleam();
    let stem: Vec<u8> = if ends_with(rel2.as_slice(), g.as_slice()) {
        let s = sub_bytes(rel2.as_slice(), 0, rel2.len() - 6);
        proof {
            assert(s@ =~= rel2@.take(rel2@.len() - 6));
        }
        s
    } else {
        rel2
    };
    let mut out: Vec<u8> = Vec::new();
    let mut i: usize = 0;
    while i < stem.len()
        invariant
            i <= stem.len(),
            out@.len() == i,
            forall|j: int|
                0 <= j < i ==> out@[j] == (if stem@[j] == BSLASH {
                    SLASH
                } else {
                    stem@[j]
                }),
        decreases stem.len() - i,
    {
        let c = stem[i];
        if c == BSLASH {
            out.push(SLASH);
        } else {
            out.push(c);
        }
        i = i + 1;
    }
    proof {
        assert(out@ =~= stem@.map_values(|c: u8| if c == BSLASH { SLASH } else { c }));
    }
    out
}

// ---------------------------------------------------------------------
// Recognising compilable source paths.
// ---------------------------------------------------------------------

pub open spec fn is_seg_byte(c: u8) -> bool {
    (97u8 <= c && c <= 122u8) || c == 95u8
}

pub open spec fn is_sep_byte(c: u8) -> bool {
    c == SLASH || c == BSLASH
}

/// A well-formed module stem: nonempty segments of lowercase letters and
/// underscores, separated by single path separators.
pub open spec fn stem_ok(s: Seq<u8>) -> bool {
    &&& s.len() > 0
    &&& forall|i: int| 0 <= i < s.len() ==> is_seg_byte(#[trigger] s[i]) || is_sep_byte(s[i])
    &&& !is_sep_byte(s[0])
    &&& !is_sep_byte(s[s.len() - 1])
    &&& forall|i: int| 0 <= i < s.len() - 1 ==> !(is_sep_byte(#[trigger] s[i]) && is_sep_byte(
        s[i + 1],
    ))
}

/// A relative path that names a compilable unit: a well-formed stem
/// followed by the `.gleam` extension.
pub open spec fn spec_gleam_rel(rel: Seq<u8>) -> bool {
    is_suffix(rel, s_dot_gleam()) && stem_ok(rel.take(rel.len() - 6))
}

/// The path relative to a directory: what follows the directory prefix,
/// without one leading separator.
pub open spec fn spec_rel_to(path: Seq<u8>, dir: Seq<u8>) -> Seq<u8> {
    let r = path.skip(dir.len() as int);
    if r.len() > 0 && r[0] == SLASH {
        r.skip(1)
    } else {
        r
    }
}

/// True when `path` lies under `dir` and its relative part names a
/// compilable unit.
pub open spec fn spec_is_gleam_path(path: Seq<u8>, dir: Seq<u8>) -> bool {
    is_prefix(path, dir) && spec_gleam_rel(spec_rel_to(path, dir))
}

/// Checks a well-formed stem.
fn check_stem(s: &[u8]) -> (r: bool)
    ensures
        r <==> stem_ok(s@),
{
    if s.len() == 0 {
        return false;
    }
    let c0 = s[0];
    if c0 == SLASH || c0 == BSLASH {
        return false;
    }
    let cl = s[s.len() - 1];
    if cl == SLASH || cl == BSLASH {
        return false;
    }
    let mut i: usize = 0;
    while i < s.len()
        invariant
            i <= s.len(),
            forall|j: int| 0 <= j < i ==> is_seg_byte(#[trigger] s@[j]) || is_sep_byte(s@[j]),
            forall|j: int|
                0 <= j < i - 1 ==> !(is_sep_byte(#[trigger] s@[j]) && is_sep_byte(s@[j + 1])),
        decreases s.len() - i,
    {
        let c = s[i];
        let seg = (97u8 <= c && c <= 122u8) || c == 95u8;
        let sep = c == SLASH || c == BSLASH;
        if !seg && !sep {
            return false;
        }
        if sep && i > 0 {
            let p = s[i - 1];
            if p == SLASH || p == BSLASH {
                return false;
            }
        }
        i = i + 1;
    }
    true
}

/// Recognises a source path under a source directory, as the watcher and
/// the discovery step need it.
pub fn is_gleam_path(path: &[u8], src_dir: &[u8]) -> (r: bool)
    ensures
        r <==> spec_is_gleam_path(path@, src_dir@),
{
    if !starts_with(path, src_dir) {
        return false;
    }
    let r0 = sub_bytes(path, src_dir.len(), path.len());
    proof {
        assert(r0@ =~= path@.skip(src_dir@.len() as int));
    }
    let rel: Vec<u8> = if r0.len() > 0 && r0[0] == SLASH {
        let s = sub_bytes(r0.as_slice(), 1, r0.len());
        proof {
            assert(s@ =~= r0@.skip(1));
        }
        s
    } else {
        r0
    };
    let g = lit_dot_gleam();
    if !ends_with(rel.as_slice(), g.as_slice()) {
        return false;
    }
    let stem = sub_bytes(rel.as_slice(), 0, rel.len() - 6);
    proof {
        assert(stem@ =~= rel@.take(rel@.len() - 6));
    }
    check_stem(stem.as_slice())
}

// ---------------------------------------------------------------------
// Source collections.
// ---------------------------------------------------------------------

/// The directories a project's sources are discovered under.
pub struct SourceCollection {
    pub dependency_dirs: Vec<Vec<u8>>,
    pub source_dir: Vec<u8>,
    pub test_dir: Vec<u8>,
}

pub ghost struct SourceCollectionV {
    pub dependency_dirs: Seq<Seq<u8>>,
    pub source_dir: Seq<u8>,
    pub test_dir: Seq<u8>,
}

impl View for SourceCollection {
    type V = SourceCollectionV;

    open spec fn view(&self) -> SourceCollectionV {
        SourceCollectionV {
            dependency_dirs: deep(self.dependency_dirs@),
            source_dir: self.source_dir@,
            test_dir: self.test_dir@,
        }
    }
}

/// The first dependency directory that `path` lies under.
pub open spec fn spec_first_dep_dir(dirs: Seq<Seq<u8>>, path: Seq<u8>) -> Option<
    (Seq<u8>, ModuleOrigin),
>
    decreases dirs.len(),
{
    if dirs.len() == 0 {
        None
    } else if is_prefix(path, dirs[0]) {
        Some((dirs[0], ModuleOrigin::Dependency))
    } else {
        spec_first_dep_dir(dirs.skip(1), path)
    }
}

/// Which source base `path` lies under, and with which origin; the
/// project's own source and test directories take precedence over
/// dependency directories.
pub open spec fn spec_origin_of(c: SourceCollectionV, path: Seq<u8>) -> Option<
    (Seq<u8>, ModuleOrigin),
> {
    if is_prefix(path, c.source_dir) {
        Some((c.source_dir, ModuleOrigin::Src))
    } else if is_prefix(path, c.test_dir) {
        Some((c.test_dir, ModuleOrigin::Test))
    } else {
        spec_first_dep_dir(c.dependency_dirs, path)
    }
}

impl SourceCollection {
    pub fn new(source_dir: Vec<u8>, test_dir: Vec<u8>, dependency_dirs: Vec<Vec<u8>>) -> (r:
        SourceCollection)
        ensures
            r@.source_dir == source_dir@,
            r@.test_dir == test_dir@,
            r@.dependency_dirs == deep(dependency_dirs@),
    {
        SourceCollection { source_dir, test_dir, dependency_dirs }
    }

    /// All directories of the collection: the dependency directories,
    /// then the source directory, then the test directory.
    pub fn dirs(&self) -> (r: Vec<Vec<u8>>)
        ensures
            deep(r@) == self@.dependency_dirs + seq![self@.source_dir, self@.test_dir],
    {
        let mut ds = copy_bytes_list(&self.dependency_dirs);
        ds.push(copy_bytes(self.source_dir.as_slice()));
        ds.push(copy_bytes(self.test_dir.as_slice()));
        proof {
            assert(deep(ds@) =~= self@.dependency_dirs + seq![self@.source_dir, self@.test_dir]);
        }
        ds
    }

    /// The source base and origin of a path, if it lies in the collection.
    pub fn origin_of(&self, path: &[u8]) -> (r: Option<(Vec<u8>, ModuleOrigin)>)
        ensures
            match r {
                Some(p) => spec_origin_of(self@, path@) == Some((p.0@, p.1)),
                None => spec_origin_of(self@, path@) is None,
            },
    {
        if starts_with(path, self.source_dir.as_slice()) {
            return Some((copy_bytes(self.source_dir.as_slice()), ModuleOrigin::Src));
        }
        if starts_with(path, self.test_dir.as_slice()) {
            return Some((copy_bytes(self.test_dir.as_slice()), ModuleOrigin::Test));
        }
        proof {
            assert(self@.dependency_dirs.skip(0) =~= self@.dependency_dirs);
        }
        let mut i: usize = 0;
        while i < self.dependency_dirs.len()
            invariant
                i <= self.dependency_dirs.len(),
                !is_prefix(path@, self@.source_dir),
                !is_prefix(path@, self@.test_dir),
                spec_first_dep_dir(self@.dependency_dirs, path@) == spec_first_dep_dir(
                    self@.dependency_dirs.skip(i as int),
                    path@,
                ),
        decreases self.dependency_dirs.len() - i,
        {
            if starts_with(path, self.dependency_dirs[i].as_slice()) {
                proof {
                    assert(self@.dependency_dirs[i as int] == self.dependency_dirs@[i as int]@);
                    assert(self@.dependency_dirs.skip(i as int).len() > 0);
                    assert(self@.dependency_dirs.skip(i as int)[0] == self@.dependency_dirs[
                        i as int
                    ]);
                    assert(is_prefix(path@, self@.dependency_dirs.skip(i as int)[0]));
                    assert(spec_first_dep_dir(self@.dependency_dirs.skip(i as int), path@)
                        == Some((self@.dependency_dirs[i as int], ModuleOrigin::Dependency)));
                    assert(!is_prefix(path@, self@.source_dir));
                    assert(!is_prefix(path@, self@.test_dir));
                    assert(spec_origin_of(self@, path@) == spec_first_dep_dir(
                        self@.dependency_dirs,
                        path@,
                    ));
                    assert(spec_origin_of(self@, path@) == Some((
                        self@.dependency_dirs[i as int],
                        ModuleOrigin::Dependency,
                    )));
                }
                return Some(
                    (copy_bytes(self.dependency_dirs[i].as_slice()), ModuleOrigin::Dependency),
                );
            }
            proof {
                assert(self@.dependency_dirs.skip(i as int).skip(1) =~= self@.dependency_dirs.skip(
                    i as int + 1,
                ));
            }
            i = i + 1;
        }
        None
    }
}

/// What `create_input_from_source` yields over views.
pub open spec fn spec_create_input(c: SourceCollectionV, path: Seq<u8>, src: Seq<u8>) -> Option<
    InputV,
> {
    match spec_origin_of(c, path) {
        Some(p) => Some(
            InputV { source_base_path: p.0, path: path, src: src, origin: p.1 },
        ),
        None => None,
    }
}

/// Builds the input record for a source text found at a path of the
/// collection.  The caller hands in the canonical path.
pub fn create_input_from_source(
    path: Vec<u8>,
    src: Vec<u8>,
    source_collection: &SourceCollection,
) -> (r: Option<Input>)
    ensures
        match r {
            Some(i) => spec_create_input(source_collection@, path@, src@) == Some(i@),
            None => spec_create_input(source_collection@, path@, src@) is None,
        },
{
    match source_collection.origin_of(path.as_slice()) {
        Some(p) => Some(Input { source_base_path: p.0, path, src, origin: p.1 }),
        None => None,
    }
}


// ---------------------------------------------------------------------
// Backend emission.
// ---------------------------------------------------------------------

pub open spec fn s_module_open() -> Seq<u8> {
    seq![45u8, 109u8, 111u8, 100u8, 117u8, 108u8, 101u8, 40u8]
}

pub open spec fn s_export_open() -> Seq<u8> {
    seq![45u8, 101u8, 120u8, 112u8, 111u8, 114u8, 116u8, 40u8]
}

pub open spec fn s_record_open() -> Seq<u8> {
    seq![45u8, 114u8, 101u8, 99u8, 111u8, 114u8, 100u8, 40u8]
}

pub open spec fn s_close_line() -> Seq<u8> {
    seq![41u8, 46u8, 10u8]
}

fn lit_module_open() -> (r: Vec<u8>)
    ensures
        r@ == s_module_open(),
{
    let mut v: Vec<u8> = Vec::new();
    v.push(45u8);
    v.push(109u8);
    v.push(111u8);
    v.push(100u8);
    v.push(117u8);
    v.push(108u8);
    v.push(101u8);
    v.push(40u8);
    proof {
        assert(v@ =~= s_module_open());
    }
    v
}

fn lit_export_open() -> (r: Vec<u8>)
    ensures
        r@ == s_export_open(),
{
    let mut v: Vec<u8> = Vec::new();
    v.push(45u8);
    v.push(101u8);
    v.push(120u8);
    v.push(112u8);
    v.push(111u8);
    v.push(114u8);
    v.push(116u8);
    v.push(40u8);
    proof {
        assert(v@ =~= s_export_open());
    }
    v
}

fn lit_record_open() -> (r: Vec<u8>)
    ensures
        r@ == s_record_open(),
{
    let mut v: Vec<u8> = Vec::new();
    v.push(45u8);
    v.push(114u8);
    v.push(101u8);
    v.push(99u8);
    v.push(111u8);
    v.push(114u8);
    v.push(100u8);
    v.push(40u8);
    proof {
        assert(v@ =~= s_record_open());
    }
    v
}

fn lit_close_line() -> (r: Vec<u8>)
    ensures
        r@ == s_close_line(),
{
    let mut v: Vec<u8> = Vec::new();
    v.push(41u8);
    v.push(46u8);
    v.push(10u8);
    proof {
        assert(v@ =~= s_close_line());
    }
    v
}

/// The backend name of a module: its segments joined with `@`.
pub open spec fn spec_erl_name(name: Seq<Seq<u8>>) -> Seq<u8> {
    spec_join(name, crate::bytes::AT)
}

/// The directory generated files of a module go to:
/// `<base parent>/gen/<origin dir>/`.
pub open spec fn spec_gen_dir(base: Seq<u8>, origin: ModuleOrigin) -> Seq<u8> {
    spec_parent_of(base) + s_slash_gen_slash() + spec_dir_name(origin) + seq![SLASH]
}

/// The text of a generated record header.
pub open spec fn spec_record_text(n: Seq<u8>) -> Seq<u8> {
    s_record_open() + n + s_close_line()
}

/// One export line per public function definition.
pub open spec fn spec_export_lines(ss: Seq<StatementV>) -> Seq<u8>
    decreases ss.len(),
{
    if ss.len() == 0 {
        Seq::empty()
    } else {
        spec_export_lines(ss.drop_last()) + match ss.last() {
            StatementV::FnDef { name, public: true, .. } => s_export_open() + name
                + s_close_line(),
            _ => Seq::empty(),
        }
    }
}

/// The text of a generated backend module.
pub open spec fn spec_module_text(a: AnalysedV) -> Seq<u8> {
    s_module_open() + spec_erl_name(a.name) + s_close_line() + spec_export_lines(
        a.ast.statements,
    )
}

/// The names of the records a module declares: its public types.
pub open spec fn record_names(ss: Seq<StatementV>) -> Seq<Seq<u8>>
    decreases ss.len(),
{
    if ss.len() == 0 {
        Seq::empty()
    } else {
        record_names(ss.drop_last()) + match ss.last() {
            StatementV::TypeDef { name, public: true, .. } => seq![name],
            _ => Seq::empty(),
        }
    }
}

/// The generated files of one analysed module: one record header per
/// public type, then the module file itself.
pub open spec fn spec_outputs_for(a: AnalysedV) -> Seq<OutputFileV> {
    let rn = record_names(a.ast.statements);
    let dir = spec_gen_dir(a.source_base_path, a.origin);
    let en = spec_erl_name(a.name);
    Seq::new(
        rn.len(),
        |i: int|
            OutputFileV {
                path: dir + en + seq![95u8] + rn[i] + s_dot_hrl(),
                text: spec_record_text(rn[i]),
            },
    ) + seq![OutputFileV { path: dir + en + s_dot_erl(), text: spec_module_text(a) }]
}

/// The generated files of a list of analysed modules, in order.
pub open spec fn spec_outputs_all(list: Seq<AnalysedV>) -> Seq<OutputFileV>
    decreases list.len(),
{
    if list.len() == 0 {
        Seq::empty()
    } else {
        spec_outputs_all(list.drop_last()) + spec_outputs_for(list.last())
    }
}

/// The deep view of a list of analysed modules.
pub open spec fn ans_v(s: Seq<Analysed>) -> Seq<AnalysedV> {
    Seq::new(s.len(), |i: int| s[i]@)
}

/// The deep view of a list of output files.
pub open spec fn outs_v(s: Seq<OutputFile>) -> Seq<OutputFileV> {
    Seq::new(s.len(), |i: int| s[i]@)
}

fn export_lines(ss: &Vec<Statement>) -> (r: Vec<u8>)
    ensures
        r@ == spec_export_lines(stmts_v(ss@)),
{
    let ghost sv = stmts_v(ss@);
    let mut out: Vec<u8> = Vec::new();
    let mut i: usize = 0;
    while i < ss.len()
        invariant
            i <= ss.len(),
            sv == stmts_v(ss@),
            out@ =~= spec_export_lines(sv.take(i as int)),
        decreases ss.len() - i,
    {
        proof {
            assert(sv.take(i + 1).drop_last() =~= sv.take(i as int));
            assert(sv.take(i + 1).last() == sv[i as int]);
        }
        match &ss[i] {
            Statement::FnDef { name, public, .. } => {
                if *public {
                    push_bytes(&mut out, lit_export_open().as_slice());
                    push_bytes(&mut out, name.as_slice());
                    push_bytes(&mut out, lit_close_line().as_slice());
                }
            },
            _ => {},
        }
        i = i + 1;
    }
    proof {
        assert(sv.take(sv.len() as int) =~= sv);
    }
    out
}

fn record_names_of(ss: &Vec<Statement>) -> (r: Vec<Vec<u8>>)
    ensures
        deep(r@) == record_names(stmts_v(ss@)),
{
    let ghost sv = stmts_v(ss@);
    let mut out: Vec<Vec<u8>> = Vec::new();
    let mut i: usize = 0;
    while i < ss.len()
        invariant
            i <= ss.len(),
            sv == stmts_v(ss@),
            deep(out@) =~= record_names(sv.take(i as int)),
        decreases ss.len() - i,
    {
        proof {
            assert(sv.take(i + 1).drop_last() =~= sv.take(i as int));
            assert(sv.take(i + 1).last() == sv[i as int]);
        }
        match &ss[i] {
            Statement::TypeDef { name, public, .. } => {
                if *public {
                    out.push(copy_bytes(name.as_slice()));
                    proof {
                        assert(deep(out@) =~= record_names(sv.take(i as int + 1)));
                    }
                }
            },
            _ => {},
        }
        i = i + 1;
        proof {
            assert(deep(out@) =~= record_names(sv.take(i as int)));
        }
    }
    proof {
        assert(sv.take(sv.len() as int) =~= sv);
    }
    out
}

/// Emits the backend files of the given analysed modules, appending to
/// `files`: for each module its record headers, then its module file.
pub fn generate_erlang(analysed: &[Analysed], files: &mut Vec<OutputFile>)
    ensures
        outs_v(final(files)@) == outs_v(old(files)@) + spec_outputs_all(ans_v(analysed@)),
{
    let ghost av = ans_v(analysed@);
    let ghost base = outs_v(files@);
    let mut i: usize = 0;
    while i < analysed.len()
        invariant
            i <= analysed.len(),
            av == ans_v(analysed@),
            base == outs_v(old(files)@),
            outs_v(files@) =~= base + spec_outputs_all(av.take(i as int)),
        decreases analysed.len() - i,
    {
        let a = &analysed[i];
        let dir = {
            let mut d = parent_of(a.source_base_path.as_slice());
            push_bytes(&mut d, lit_slash_gen_slash().as_slice());
            push_bytes(&mut d, a.origin.dir_name().as_slice());
            d.push(SLASH);
            proof {
                assert(d@ =~= spec_gen_dir(a@.source_base_path, a@.origin));
            }
            d
        };
        let en = join_bytes(a.name.as_slice(), crate::bytes::AT);
        let rn = record_names_of(&a.ast.statements);
        let ghost rns = record_names(a@.ast.statements);
        proof {
            assert(deep(rn@).len() == rn@.len());
            assert(deep(a.name@).len() == a.name@.len());
        }
        let ghost recfiles = Seq::new(
            rns.len(),
            |k: int|
                OutputFileV {
                    path: spec_gen_dir(a@.source_base_path, a@.origin) + spec_erl_name(a@.name)
                        + seq![95u8] + rns[k] + s_dot_hrl(),
                    text: spec_record_text(rns[k]),
                },
        );
        let mut k: usize = 0;
        while k < rn.len()
            invariant
                k <= rn.len(),
                deep(rn@) == rns,
                recfiles == Seq::new(
                    rns.len(),
                    |k: int|
                        OutputFileV {
                            path: spec_gen_dir(a@.source_base_path, a@.origin) + spec_erl_name(
                                a@.name,
                            ) + seq![95u8] + rns[k] + s_dot_hrl(),
                            text: spec_record_text(rns[k]),
                        },
                ),
                dir@ == spec_gen_dir(a@.source_base_path, a@.origin),
                en@ == spec_erl_name(a@.name),
                outs_v(files@) =~= base + spec_outputs_all(av.take(i as int)) + recfiles.take(
                    k as int,
                ),
            decreases rn.len() - k,
        {
            let mut path = copy_bytes(dir.as_slice());
            push_bytes(&mut path, en.as_slice());
            path.push(95u8);
            push_bytes(&mut path, rn[k].as_slice());
            push_bytes(&mut path, lit_dot_hrl().as_slice());
            let mut text = lit_record_open();
            push_bytes(&mut text, rn[k].as_slice());
            push_bytes(&mut text, lit_close_line().as_slice());
            proof {
                assert(deep(rn@)[k as int] == rn@[k as int]@);
                assert(path@ =~= recfiles[k as int].path);
                assert(text@ =~= recfiles[k as int].text);
            }
            let ghost prev = files@;
            files.push(OutputFile { path, text });
            k = k + 1;
            proof {
                assert(outs_v(files@).len() == files@.len());
                assert(files@.last()@ == recfiles[k - 1]);
                assert(outs_v(files@) =~= outs_v(prev).push(recfiles[k - 1]));
                assert(recfiles.take(k as int) =~= recfiles.take(k - 1).push(recfiles[k - 1]));
                assert(outs_v(files@) =~= base + spec_outputs_all(av.take(i as int))
                    + recfiles.take(k as int));
            }
        }
        let mut mpath = copy_bytes(dir.as_slice());
        push_bytes(&mut mpath, en.as_slice());
        push_bytes(&mut mpath, lit_dot_erl().as_slice());
        let mut mtext = lit_module_open();
        push_bytes(&mut mtext, en.as_slice());
        push_bytes(&mut mtext, lit_close_line().as_slice());
        let el = export_lines(&a.ast.statements);
        push_bytes(&mut mtext, el.as_slice());
        proof {
            assert(mtext@ =~= spec_module_text(a@));
        }
        let ghost mfile = OutputFileV {
            path: spec_gen_dir(a@.source_base_path, a@.origin) + spec_erl_name(a@.name)
                + s_dot_erl(),
            text: spec_module_text(a@),
        };
        proof {
            assert(mpath@ =~= mfile.path);
            assert(mtext@ == mfile.text);
        }
        let ghost prev2 = files@;
        files.push(OutputFile { path: mpath, text: mtext });
        i = i + 1;
        proof {
            assert(outs_v(files@).len() == files@.len());
            assert(files@.last()@ == mfile);
            assert(outs_v(files@) =~= outs_v(prev2).push(mfile));
            assert(recfiles.take(rns.len() as int) =~= recfiles);
            assert(spec_outputs_for(a@) =~= recfiles.push(mfile)) by {
                assert(spec_outputs_for(a@) =~= recfiles + seq![mfile]);
                assert(recfiles + seq![mfile] =~= recfiles.push(mfile));
            }
            assert(av.take(i as int).drop_last() =~= av.take(i as int - 1));
            assert(av.take(i as int).last() == a@);
            assert(outs_v(files@) =~= base + (spec_outputs_all(av.take(i as int - 1))
                + spec_outputs_for(a@)));
            assert(outs_v(files@) =~= base + spec_outputs_all(av.take(i as int)));
        }
    }
    proof {
        assert(outs_v(files@).len() == files@.len());
        assert(av.take(av.len() as int) =~= av);
        assert(outs_v(files@) =~= outs_v(old(files)@) + spec_outputs_all(av));
    }
}

} // verus!

