//! The line-oriented grammar of the small source language.
//!
//! `strip_extra` separates comments from code while keeping byte
//! offsets; the parser turns the stripped text into statements; doc
//! comments are attached to the statements that follow them.

use vstd::prelude::*;

use crate::bytes::{bytes_eq, find_byte_from, split_bytes, spec_split, sub_bytes, CR, NL, SLASH, SP, TAB};
use crate::error::{ParseError, ParseErrorV, SrcSpan};
use crate::bytes::deep;
use crate::project::{is_seg_byte, stmts_v, Statement, StatementV, UntypedModule, UntypedModuleV};

verus! {

/// A doc comment: its text and the offset at which its line ends.
pub struct Comment {
    pub end: usize,
    pub text: Vec<u8>,
}

pub ghost struct CommentV {
    pub end: usize,
    pub text: Seq<u8>,
}

impl View for Comment {
    type V = CommentV;

    open spec fn view(&self) -> CommentV {
        CommentV { end: self.end, text: self.text@ }
    }
}

/// The deep view of a comment list.
pub open spec fn comments_v(s: Seq<Comment>) -> Seq<CommentV> {
    Seq::new(s.len(), |i: int| s[i]@)
}

pub open spec fn is_ws(c: u8) -> bool {
    c == SP || c == TAB || c == CR
}

/// The first index at or after `from` holding `b`, or the length.
pub open spec fn spec_find(s: Seq<u8>, from: int, b: u8) -> int
    decreases s.len() - from,
{
    if from < 0 || from >= s.len() {
        s.len() as int
    } else if s[from] == b {
        from
    } else {
        spec_find(s, from + 1, b)
    }
}

pub proof fn lemma_find_props(s: Seq<u8>, from: int, b: u8)
    requires
        0 <= from <= s.len(),
    ensures
        from <= spec_find(s, from, b) <= s.len(),
        forall|j: int| from <= j < spec_find(s, from, b) ==> s[j] != b,
        spec_find(s, from, b) < s.len() ==> s[spec_find(s, from, b)] == b,
    decreases s.len() - from,
{
    if from < s.len() && s[from] != b {
        lemma_find_props(s, from + 1, b);
    }
}

/// Any index with the first-occurrence properties is `spec_find`.
pub proof fn lemma_find_unique(s: Seq<u8>, from: int, b: u8, r: int)
    requires
        0 <= from <= r <= s.len(),
        forall|j: int| from <= j < r ==> s[j] != b,
        r < s.len() ==> s[r] == b,
    ensures
        r == spec_find(s, from, b),
{
    lemma_find_props(s, from, b);
    let f = spec_find(s, from, b);
    if r < f {
        assert(s[r] != b);
    }
    if f < r {
        assert(s[f] != b);
    }
}

/// The first non-whitespace index at or after `from`, or the length.
pub open spec fn spec_skip_ws(s: Seq<u8>, from: int) -> int
    decreases s.len() - from,
{
    if from < 0 || from >= s.len() {
        s.len() as int
    } else if is_ws(s[from]) {
        spec_skip_ws(s, from + 1)
    } else {
        from
    }
}

pub proof fn lemma_skip_ws_props(s: Seq<u8>, from: int)
    requires
        0 <= from <= s.len(),
    ensures
        from <= spec_skip_ws(s, from) <= s.len(),
        forall|j: int| from <= j < spec_skip_ws(s, from) ==> is_ws(s[j]),
        spec_skip_ws(s, from) < s.len() ==> !is_ws(s[spec_skip_ws(s, from)]),
    decreases s.len() - from,
{
    if from < s.len() && is_ws(s[from]) {
        lemma_skip_ws_props(s, from + 1);
    }
}

pub proof fn lemma_skip_ws_unique(s: Seq<u8>, from: int, r: int)
    requires
        0 <= from <= r <= s.len(),
        forall|j: int| from <= j < r ==> is_ws(s[j]),
        r < s.len() ==> !is_ws(s[r]),
    ensures
        r == spec_skip_ws(s, from),
{
    lemma_skip_ws_props(s, from);
    let f = spec_skip_ws(s, from);
    if r < f {
        assert(is_ws(s[r]));
    }
    if f < r {
        assert(is_ws(s[f]));
    }
}

/// The first whitespace index at or after `from`, or the length.
pub open spec fn spec_find_ws(s: Seq<u8>, from: int) -> int
    decreases s.len() - from,
{
    if from < 0 || from >= s.len() {
        s.len() as int
    } else if !is_ws(s[from]) {
        spec_find_ws(s, from + 1)
    } else {
        from
    }
}

pub proof fn lemma_find_ws_props(s: Seq<u8>, from: int)
    requires
        0 <= from <= s.len(),
    ensures
        from <= spec_find_ws(s, from) <= s.len(),
        forall|j: int| from <= j < spec_find_ws(s, from) ==> !is_ws(s[j]),
        spec_find_ws(s, from) < s.len() ==> is_ws(s[spec_find_ws(s, from)]),
    decreases s.len() - from,
{
    if from < s.len() && !is_ws(s[from]) {
        lemma_find_ws_props(s, from + 1);
    }
}

pub proof fn lemma_find_ws_unique(s: Seq<u8>, from: int, r: int)
    requires
        0 <= from <= r <= s.len(),
        forall|j: int| from <= j < r ==> !is_ws(s[j]),
        r < s.len() ==> is_ws(s[r]),
    ensures
        r == spec_find_ws(s, from),
{
    lemma_find_ws_props(s, from);
    let f = spec_find_ws(s, from);
    if r < f {
        assert(!is_ws(s[r]));
    }
    if f < r {
        assert(!is_ws(s[f]));
    }
}

/// Finds whitespace in executable code.
fn find_ws_from(s: &[u8], from: usize) -> (r: usize)
    requires
        from <= s@.len(),
    ensures
        r == spec_find_ws(s@, from as int),
{
    let mut i: usize = from;
    while i < s.len()
        invariant
            from <= i <= s.len(),
            forall|j: int| from <= j < i ==> !is_ws(s@[j]),
        decreases s.len() - i,
    {
        let c = s[i];
        if c == SP || c == TAB || c == CR {
            proof {
                lemma_find_ws_unique(s@, from as int, i as int);
            }
            return i;
        }
        i = i + 1;
    }
    proof {
        lemma_find_ws_unique(s@, from as int, i as int);
    }
    i
}

/// Skips whitespace in executable code.
fn skip_ws_from(s: &[u8], from: usize) -> (r: usize)
    requires
        from <= s@.len(),
    ensures
        r == spec_skip_ws(s@, from as int),
{
    let mut i: usize = from;
    while i < s.len()
        invariant
            from <= i <= s.len(),
            forall|j: int| from <= j < i ==> is_ws(s@[j]),
        decreases s.len() - i,
    {
        let c = s[i];
        if !(c == SP || c == TAB || c == CR) {
            proof {
                lemma_skip_ws_unique(s@, from as int, i as int);
            }
            return i;
        }
        i = i + 1;
    }
    proof {
        lemma_skip_ws_unique(s@, from as int, i as int);
    }
    i
}

/// The whitespace-separated words of `s` from `i` on.
pub open spec fn spec_words_from(s: Seq<u8>, i: int) -> Seq<Seq<u8>>
    decreases s.len() - i, 1int,
{
    if i < 0 || i >= s.len() {
        Seq::empty()
    } else if is_ws(s[i]) {
        spec_words_from(s, i + 1)
    } else {
        spec_words_at(s, i)
    }
}

/// The words of `s` from the word starting exactly at `i`.
pub open spec fn spec_words_at(s: Seq<u8>, i: int) -> Seq<Seq<u8>>
    decreases s.len() - i, 0int,
    via spec_words_at_dec
{
    if 0 <= i < s.len() && !is_ws(s[i]) {
        let e = spec_find_ws(s, i);
        seq![s.subrange(i, e)] + if e < s.len() {
            spec_words_from(s, e + 1)
        } else {
            Seq::empty()
        }
    } else {
        Seq::empty()
    }
}

#[via_fn]
proof fn spec_words_at_dec(s: Seq<u8>, i: int) {
    if 0 <= i < s.len() && !is_ws(s[i]) {
        lemma_find_ws_props(s, i);
    }
}

/// The words of a line.
pub open spec fn spec_words(s: Seq<u8>) -> Seq<Seq<u8>> {
    spec_words_from(s, 0)
}

/// Collects the whitespace-separated words of `s` from `i` on.
fn words_from(s: &[u8], i: usize) -> (r: Vec<Vec<u8>>)
    requires
        i <= s@.len(),
    ensures
        deep(r@) == spec_words_from(s@, i as int),
    decreases s@.len() - i,
{
    let w = skip_ws_from(s, i);
    proof {
        lemma_skip_ws_props(s@, i as int);
        lemma_words_skip(s@, i as int, w as int);
    }
    if w == s.len() {
        let out: Vec<Vec<u8>> = Vec::new();
        proof {
            assert(deep(out@) =~= spec_words_from(s@, w as int));
        }
        out
    } else {
        let e = find_ws_from(s, w);
        proof {
            lemma_find_ws_props(s@, w as int);
        }
        let word = sub_bytes(s, w, e);
        let mut out: Vec<Vec<u8>> = Vec::new();
        out.push(word);
        if e < s.len() {
            let rest = words_from(s, e + 1);
            let mut k: usize = 0;
            while k < rest.len()
                invariant
                    k <= rest.len(),
                    out@.len() == k + 1,
                    out@[0]@ == s@.subrange(w as int, e as int),
                    forall|j: int| 0 <= j < k ==> out@[j + 1]@ == rest@[j]@,
            decreases rest.len() - k,
            {
                out.push(crate::bytes::copy_bytes(rest[k].as_slice()));
                k = k + 1;
            }
            proof {
                assert(deep(rest@) =~= spec_words_from(s@, e as int + 1));
                assert(deep(out@) =~= seq![s@.subrange(w as int, e as int)] + spec_words_from(
                    s@,
                    e as int + 1,
                ));
                assert(deep(out@) =~= spec_words_at(s@, w as int));
            }
        } else {
            proof {
                assert(deep(out@) =~= spec_words_at(s@, w as int));
            }
        }
        out
    }
}

/// Skipping leading whitespace does not change the word list.
proof fn lemma_words_skip(s: Seq<u8>, i: int, w: int)
    requires
        0 <= i <= w <= s.len(),
        forall|j: int| i <= j < w ==> is_ws(s[j]),
        w < s.len() ==> !is_ws(s[w]),
    ensures
        spec_words_from(s, i) == if w < s.len() {
            spec_words_at(s, w)
        } else {
            Seq::<Seq<u8>>::empty()
        },
    decreases w - i,
{
    if i < w {
        lemma_words_skip(s, i + 1, w);
    }
}

// ---------------------------------------------------------------------
// Separating comments from code.
// ---------------------------------------------------------------------

/// A comment line whose content starts at `w` is a doc comment when a
/// third slash follows the two comment slashes, but not a fourth.
pub open spec fn is_doc_comment(line: Seq<u8>, w: int) -> bool {
    &&& w + 2 < line.len()
    &&& line[w + 2] == SLASH
    &&& !(w + 3 < line.len() && line[w + 3] == SLASH)
}

/// Strips comments from `s` from offset `pos` on.  Comment lines are
/// blanked to spaces so every byte offset is preserved; doc comments are
/// collected with the offset of their line end.
pub open spec fn spec_strip_from(s: Seq<u8>, pos: int) -> (Seq<u8>, Seq<CommentV>)
    decreases s.len() - pos,
    via spec_strip_from_dec
{
    if pos < 0 || pos >= s.len() {
        (Seq::empty(), Seq::empty())
    } else {
        let e = spec_find(s, pos, NL);
        let line = s.subrange(pos, e);
        let rest = if e < s.len() {
            spec_strip_from(s, e + 1)
        } else {
            (Seq::empty(), Seq::empty())
        };
        let nl_part: Seq<u8> = if e < s.len() {
            seq![NL]
        } else {
            Seq::empty()
        };
        let w = spec_skip_ws(line, 0);
        if w + 1 < line.len() && line[w] == SLASH && line[w + 1] == SLASH {
            let blank = Seq::new(line.len(), |i: int| SP);
            if is_doc_comment(line, w) {
                let c = CommentV { end: e as usize, text: line.skip(w + 3) };
                (blank + nl_part + rest.0, seq![c] + rest.1)
            } else {
                (blank + nl_part + rest.0, rest.1)
            }
        } else {
            (line + nl_part + rest.0, rest.1)
        }
    }
}

#[via_fn]
proof fn spec_strip_from_dec(s: Seq<u8>, pos: int) {
    if 0 <= pos < s.len() {
        lemma_find_props(s, pos, NL);
    }
}

/// Separates comments from code: the text with comments blanked out, and
/// the doc comments in order.
pub open spec fn spec_strip_extra(s: Seq<u8>) -> (Seq<u8>, Seq<CommentV>) {
    spec_strip_from(s, 0)
}

fn strip_from(s: &[u8], pos: usize) -> (r: (Vec<u8>, Vec<Comment>))
    requires
        pos <= s@.len(),
    ensures
        r.0@ == spec_strip_from(s@, pos as int).0,
        comments_v(r.1@) == spec_strip_from(s@, pos as int).1,
    decreases s@.len() - pos,
{
    if pos == s.len() {
        let r: (Vec<u8>, Vec<Comment>) = (Vec::new(), Vec::new());
        proof {
            assert(comments_v(r.1@) =~= spec_strip_from(s@, pos as int).1);
        }
        return r;
    }
    let e = find_byte_from(s, pos, NL);
    proof {
        lemma_find_unique(s@, pos as int, NL, e as int);
    }
    let line = sub_bytes(s, pos, e);
    let w = skip_ws_from(line.as_slice(), 0);
    proof {
        lemma_skip_ws_props(line@, 0);
    }
    let is_comment = w < line.len() && w + 1 < line.len() && line[w] == SLASH && line[w + 1]
        == SLASH;
    let mut out: Vec<u8>;
    let mut out_c: Vec<Comment> = Vec::new();
    if is_comment {
        out = Vec::new();
        let mut i: usize = 0;
        while i < line.len()
            invariant
                i <= line.len(),
                out@.len() == i,
                forall|j: int| 0 <= j < i ==> out@[j] == SP,
            decreases line.len() - i,
        {
            out.push(SP);
            i = i + 1;
        }
        proof {
            assert(out@ =~= Seq::new(line@.len(), |i: int| SP));
        }
        let is_doc = w + 2 < line.len() && line[w + 2] == SLASH && (w + 3 >= line.len() || line[w
            + 3] != SLASH);
        if is_doc {
            let text = sub_bytes(line.as_slice(), w + 3, line.len());
            proof {
                assert(text@ =~= line@.skip(w + 3));
            }
            out_c.push(Comment { end: e, text });
        }
    } else {
        out = line;
    }
    if e < s.len() {
        out.push(NL);
        let (rest_s, rest_c) = strip_from(s, e + 1);
        crate::bytes::push_bytes(&mut out, rest_s.as_slice());
        let mut k: usize = 0;
        let ghost base_c = out_c@;
        while k < rest_c.len()
            invariant
                k <= rest_c.len(),
                out_c@.len() == base_c.len() + k,
                base_c.len() <= out_c@.len(),
                forall|j: int| 0 <= j < base_c.len() ==> out_c@[j] == base_c[j],
                forall|j: int| 0 <= j < k ==> out_c@[base_c.len() + j]@ == rest_c@[j]@,
            decreases rest_c.len() - k,
        {
            let c = &rest_c[k];
            out_c.push(Comment { end: c.end, text: crate::bytes::copy_bytes(c.text.as_slice()) });
            k = k + 1;
        }
        proof {
            assert(comments_v(out_c@).len() == out_c@.len());
            assert(comments_v(rest_c@).len() == rest_c@.len());
            assert(out@ =~= spec_strip_from(s@, pos as int).0);
            let target = spec_strip_from(s@, pos as int).1;
            assert forall|j: int| 0 <= j < out_c@.len() implies comments_v(out_c@)[j] == (
            if j < base_c.len() {
                base_c[j]@
            } else {
                comments_v(rest_c@)[j - base_c.len()]
            }) by {
                if j >= base_c.len() {
                    assert(out_c@[j]@ == rest_c@[j - base_c.len()]@);
                }
            }
            assert(comments_v(out_c@) =~= target);
        }
        (out, out_c)
    } else {
        proof {
            assert(comments_v(out_c@).len() == out_c@.len());
            assert(out@ =~= spec_strip_from(s@, pos as int).0);
            assert(comments_v(out_c@) =~= spec_strip_from(s@, pos as int).1);
        }
        (out, out_c)
    }
}

/// Separates comments from code, keeping byte offsets intact.
pub fn strip_extra(src: &[u8]) -> (r: (Vec<u8>, Vec<Comment>))
    ensures
        r.0@ == spec_strip_extra(src@).0,
        comments_v(r.1@) == spec_strip_extra(src@).1,
{
    strip_from(src, 0)
}

// ---------------------------------------------------------------------
// The grammar.
// ---------------------------------------------------------------------

pub open spec fn s_import() -> Seq<u8> {
    seq![105u8, 109u8, 112u8, 111u8, 114u8, 116u8]
}

pub open spec fn s_pub() -> Seq<u8> {
    seq![112u8, 117u8, 98u8]
}

pub open spec fn s_fn() -> Seq<u8> {
    seq![102u8, 110u8]
}

pub open spec fn s_type() -> Seq<u8> {
    seq![116u8, 121u8, 112u8, 101u8]
}

fn lit_import() -> (r: Vec<u8>)
    ensures
        r@ == s_import(),
{
    let mut v: Vec<u8> = Vec::new();
    v.push(105u8);
    v.push(109u8);
    v.push(112u8);
    v.push(111u8);
    v.push(114u8);
    v.push(116u8);
    proof {
        assert(v@ =~= s_import());
    }
    v
}

fn lit_pub() -> (r: Vec<u8>)
    ensures
        r@ == s_pub(),
{
    let mut v: Vec<u8> = Vec::new();
    v.push(112u8);
    v.push(117u8);
    v.push(98u8);
    proof {
        assert(v@ =~= s_pub());
    }
    v
}

fn lit_fn() -> (r: Vec<u8>)
    ensures
        r@ == s_fn(),
{
    let mut v: Vec<u8> = Vec::new();
    v.push(102u8);
    v.push(110u8);
    proof {
        assert(v@ =~= s_fn());
    }
    v
}

fn lit_type() -> (r: Vec<u8>)
    ensures
        r@ == s_type(),
{
    let mut v: Vec<u8> = Vec::new();
    v.push(116u8);
    v.push(121u8);
    v.push(112u8);
    v.push(101u8);
    proof {
        assert(v@ =~= s_type());
    }
    v
}

/// A well-formed identifier: lowercase letters and underscores.
pub open spec fn ident_ok(w: Seq<u8>) -> bool {
    w.len() > 0 && forall|i: int| 0 <= i < w.len() ==> is_seg_byte(w[i])
}

/// Well-formed module-name segments.
pub open spec fn segs_ok(segs: Seq<Seq<u8>>) -> bool {
    forall|i: int| 0 <= i < segs.len() ==> #[trigger] ident_ok(segs[i])
}

/// Classifies one line: a statement, nothing (blank), or a grammar error.
/// `base` is the offset of the line within the module text.
pub open spec fn spec_classify(line: Seq<u8>, base: int) -> Result<Option<StatementV>, ParseErrorV> {
    let w = spec_skip_ws(line, 0);
    if w >= line.len() {
        Ok(None)
    } else {
        let words = spec_words(line);
        let loc = SrcSpan { start: (base + w) as usize, end: (base + line.len()) as usize };
        let perr = ParseErrorV { location: loc, token: words[0] };
        if words[0] == s_import() {
            if words.len() == 2 && segs_ok(spec_split(words[1], SLASH)) {
                Ok(
                    Some(
                        StatementV::Import {
                            module: spec_split(words[1], SLASH),
                            location: loc,
                            doc: Seq::empty(),
                        },
                    ),
                )
            } else {
                Err(perr)
            }
        } else if words[0] == s_pub() {
            if words.len() == 3 && words[1] == s_fn() && ident_ok(words[2]) {
                Ok(
                    Some(
                        StatementV::FnDef {
                            name: words[2],
                            public: true,
                            location: loc,
                            doc: Seq::empty(),
                        },
                    ),
                )
            } else if words.len() == 3 && words[1] == s_type() && ident_ok(words[2]) {
                Ok(
                    Some(
                        StatementV::TypeDef {
                            name: words[2],
                            public: true,
                            location: loc,
                            doc: Seq::empty(),
                        },
                    ),
                )
            } else {
                Err(perr)
            }
        } else if words[0] == s_fn() {
            if words.len() == 2 && ident_ok(words[1]) {
                Ok(
                    Some(
                        StatementV::FnDef {
                            name: words[1],
                            public: false,
                            location: loc,
                            doc: Seq::empty(),
                        },
                    ),
                )
            } else {
                Err(perr)
            }
        } else if words[0] == s_type() {
            if words.len() == 2 && ident_ok(words[1]) {
                Ok(
                    Some(
                        StatementV::TypeDef {
                            name: words[1],
                            public: false,
                            location: loc,
                            doc: Seq::empty(),
                        },
                    ),
                )
            } else {
                Err(perr)
            }
        } else {
            Err(perr)
        }
    }
}

/// Checks a well-formed identifier.
fn check_ident(w: &[u8]) -> (r: bool)
    ensures
        r <==> ident_ok(w@),
{
    if w.len() == 0 {
        return false;
    }
    let mut i: usize = 0;
    while i < w.len()
        invariant
            i <= w.len(),
            forall|j: int| 0 <= j < i ==> is_seg_byte(w@[j]),
        decreases w.len() - i,
    {
        let c = w[i];
        if !((97u8 <= c && c <= 122u8) || c == 95u8) {
            return false;
        }
        i = i + 1;
    }
    true
}

/// Checks well-formed module-name segments.
fn check_segs(segs: &Vec<Vec<u8>>) -> (r: bool)
    ensures
        r <==> segs_ok(deep(segs@)),
{
    let mut i: usize = 0;
    while i < segs.len()
        invariant
            i <= segs.len(),
            forall|j: int| 0 <= j < i ==> #[trigger] ident_ok(deep(segs@)[j]),
        decreases segs.len() - i,
    {
        if !check_ident(segs[i].as_slice()) {
            proof {
                assert(deep(segs@).len() == segs@.len());
                assert(!ident_ok(deep(segs@)[i as int]));
            }
            return false;
        }
        i = i + 1;
    }
    true
}

fn classify_line(line: &[u8], base: usize) -> (r: Result<Option<Statement>, ParseError>)
    requires
        base + line@.len() <= usize::MAX,
    ensures
        match r {
            Ok(Some(st)) => spec_classify(line@, base as int) == Ok::<_, ParseErrorV>(
                Some(st@),
            ),
            Ok(None) => spec_classify(line@, base as int) == Ok::<_, ParseErrorV>(None::<StatementV>),
            Err(e) => spec_classify(line@, base as int) == Err::<Option<StatementV>, _>(e@),
        },
{
    let w = skip_ws_from(line, 0);
    proof {
        lemma_skip_ws_props(line@, 0);
    }
    if w >= line.len() {
        return Ok(None);
    }
    let words = words_from(line, 0);
    proof {
        lemma_words_skip(line@, 0, w as int);
        assert(spec_words_at(line@, w as int).len() >= 1);
        assert(deep(words@) == spec_words(line@));
    }
    let loc = SrcSpan { start: base + w, end: base + line.len() };
    proof {
        assert(deep(words@).len() == words@.len());
        assert(deep(Seq::<Vec<u8>>::empty()) =~= Seq::<Seq<u8>>::empty());
    }
    let w0 = &words[0];
    if bytes_eq(w0.as_slice(), lit_import().as_slice()) {
        if words.len() == 2 {
            let segs = split_bytes(words[1].as_slice(), SLASH);
            if check_segs(&segs) {
                return Ok(
                    Some(Statement::Import { module: segs, location: loc, doc: Vec::new() }),
                );
            }
        }
        return Err(
            ParseError { location: loc, token: crate::bytes::copy_bytes(words[0].as_slice()) },
        );
    }
    if bytes_eq(w0.as_slice(), lit_pub().as_slice()) {
        if words.len() == 3 && bytes_eq(words[1].as_slice(), lit_fn().as_slice()) && check_ident(
            words[2].as_slice(),
        ) {
            let name = crate::bytes::copy_bytes(words[2].as_slice());
            return Ok(Some(Statement::FnDef { name, public: true, location: loc, doc: Vec::new() }));
        }
        if words.len() == 3 && bytes_eq(words[1].as_slice(), lit_type().as_slice()) && check_ident(
            words[2].as_slice(),
        ) {
            let name = crate::bytes::copy_bytes(words[2].as_slice());
            return Ok(
                Some(Statement::TypeDef { name, public: true, location: loc, doc: Vec::new() }),
            );
        }
        return Err(
            ParseError { location: loc, token: crate::bytes::copy_bytes(words[0].as_slice()) },
        );
    }
    if bytes_eq(w0.as_slice(), lit_fn().as_slice()) {
        if words.len() == 2 && check_ident(words[1].as_slice()) {
            let name = crate::bytes::copy_bytes(words[1].as_slice());
            return Ok(Some(Statement::FnDef { name, public: false, location: loc, doc: Vec::new() }));
        }
        return Err(
            ParseError { location: loc, token: crate::bytes::copy_bytes(words[0].as_slice()) },
        );
    }
    if bytes_eq(w0.as_slice(), lit_type().as_slice()) {
        if words.len() == 2 && check_ident(words[1].as_slice()) {
            let name = crate::bytes::copy_bytes(words[1].as_slice());
            return Ok(
                Some(Statement::TypeDef { name, public: false, location: loc, doc: Vec::new() }),
            );
        }
        return Err(
            ParseError { location: loc, token: crate::bytes::copy_bytes(words[0].as_slice()) },
        );
    }
    Err(ParseError { location: loc, token: crate::bytes::copy_bytes(words[0].as_slice()) })
}

/// Parses the statements of `s` from offset `pos` on.
pub open spec fn spec_parse_from(s: Seq<u8>, pos: int) -> Result<Seq<StatementV>, ParseErrorV>
    decreases s.len() - pos,
    via spec_parse_from_dec
{
    if pos < 0 || pos >= s.len() {
        Ok(Seq::empty())
    } else {
        let e = spec_find(s, pos, NL);
        let line = s.subrange(pos, e);
        match spec_classify(line, pos) {
            Err(pe) => Err(pe),
            Ok(opt) => match (if e < s.len() {
                spec_parse_from(s, e + 1)
            } else {
                Ok(Seq::empty())
            }) {
                Err(pe) => Err(pe),
                Ok(rest) => Ok(
                    match opt {
                        Some(st) => seq![st] + rest,
                        None => rest,
                    },
                ),
            },
        }
    }
}

#[via_fn]
proof fn spec_parse_from_dec(s: Seq<u8>, pos: int) {
    if 0 <= pos < s.len() {
        lemma_find_props(s, pos, NL);
    }
}

/// Parses a whole (comment-stripped) module text.
pub open spec fn spec_parse(s: Seq<u8>) -> Result<UntypedModuleV, ParseErrorV> {
    match spec_parse_from(s, 0) {
        Ok(ss) => Ok(UntypedModuleV { name: Seq::empty(), statements: ss }),
        Err(e) => Err(e),
    }
}

fn parse_from(s: &[u8], pos: usize) -> (r: Result<Vec<Statement>, ParseError>)
    requires
        pos <= s@.len(),
    ensures
        match r {
            Ok(v) => spec_parse_from(s@, pos as int) == Ok::<_, ParseErrorV>(stmts_v(v@)),
            Err(e) => spec_parse_from(s@, pos as int) == Err::<Seq<StatementV>, _>(e@),
        },
    decreases s@.len() - pos,
{
    if pos == s.len() {
        let out: Vec<Statement> = Vec::new();
        proof {
            assert(stmts_v(out@) =~= Seq::<StatementV>::empty());
        }
        return Ok(out);
    }
    let e = find_byte_from(s, pos, NL);
    proof {
        lemma_find_unique(s@, pos as int, NL, e as int);
    }
    let line = sub_bytes(s, pos, e);
    proof {
        assert(line@ =~= s@.subrange(pos as int, e as int));
    }
    match classify_line(line.as_slice(), pos) {
        Err(pe) => Err(pe),
        Ok(opt) => {
            let rest = if e < s.len() {
                parse_from(s, e + 1)
            } else {
                Ok(Vec::new())
            };
            match rest {
                Err(pe) => Err(pe),
                Ok(mut rest) => {
                    let mut out: Vec<Statement> = Vec::new();
                    let ghost had = match opt {
                        Some(ref st) => Some(st@),
                        None => None::<StatementV>,
                    };
                    match opt {
                        Some(st) => {
                            out.push(st);
                        },
                        None => {},
                    }
                    let ghost restv = stmts_v(rest@);
                    out.append(&mut rest);
                    proof {
                        if e >= s.len() {
                            assert(restv =~= Seq::<StatementV>::empty());
                        }
                        match had {
                            Some(stv) => {
                                assert(stmts_v(out@) =~= seq![stv] + restv);
                            },
                            None => {
                                assert(stmts_v(out@) =~= restv);
                            },
                        }
                    }
                    Ok(out)
                },
            }
        },
    }
}

/// Parses a comment-stripped module text into an untyped module whose
/// name is still empty; the engine overwrites the name from the path.
pub fn parse(stripped: &[u8]) -> (r: Result<UntypedModule, ParseError>)
    ensures
        match r {
            Ok(m) => spec_parse(stripped@) == Ok::<_, ParseErrorV>(m@),
            Err(e) => spec_parse(stripped@) == Err::<UntypedModuleV, _>(e@),
        },
{
    match parse_from(stripped, 0) {
        Ok(ss) => {
            let m = UntypedModule { name: Vec::new(), statements: ss };
            proof {
                assert(m@.name =~= Seq::<Seq<u8>>::empty());
            }
            Ok(m)
        },
        Err(e) => Err(e),
    }
}

// ---------------------------------------------------------------------
// Attaching doc comments.
// ---------------------------------------------------------------------

/// How many leading comments end at or before `limit`.
pub open spec fn spec_take_count(cs: Seq<CommentV>, limit: usize) -> int
    decreases cs.len(),
{
    if cs.len() == 0 {
        0
    } else if cs[0].end <= limit {
        1 + spec_take_count(cs.skip(1), limit)
    } else {
        0
    }
}

pub proof fn lemma_take_count_le(cs: Seq<CommentV>, limit: usize)
    ensures
        0 <= spec_take_count(cs, limit) <= cs.len(),
    decreases cs.len(),
{
    if cs.len() > 0 && cs[0].end <= limit {
        lemma_take_count_le(cs.skip(1), limit);
    }
}

proof fn lemma_take_count_char(cs: Seq<CommentV>, limit: usize, k: int)
    requires
        0 <= k <= cs.len(),
        forall|j: int| 0 <= j < k ==> cs[j].end <= limit,
        k < cs.len() ==> cs[k].end > limit,
    ensures
        spec_take_count(cs, limit) == k,
    decreases cs.len(),
{
    if cs.len() > 0 {
        if k == 0 {
        } else {
            lemma_take_count_char(cs.skip(1), limit, k - 1);
        }
    }
}

/// The statements with the doc comments distributed over them: each
/// statement consumes the prefix of remaining comments ending at or
/// before its own end offset.
pub open spec fn spec_attach(ss: Seq<StatementV>, cs: Seq<CommentV>) -> Seq<StatementV>
    decreases ss.len(),
    via spec_attach_dec
{
    if ss.len() == 0 {
        Seq::empty()
    } else {
        let k = spec_take_count(cs, ss[0].location().end);
        seq![ss[0].with_doc(Seq::new(k as nat, |i: int| cs[i].text))] + spec_attach(
            ss.skip(1),
            cs.skip(k),
        )
    }
}

#[via_fn]
proof fn spec_attach_dec(ss: Seq<StatementV>, cs: Seq<CommentV>) {
    if ss.len() > 0 {
        lemma_take_count_le(cs, ss[0].location().end);
    }
}

fn stmt_end(st: &Statement) -> (r: usize)
    ensures
        r == st@.location().end,
{
    match st {
        Statement::Import { location, .. } => location.end,
        Statement::FnDef { location, .. } => location.end,
        Statement::TypeDef { location, .. } => location.end,
    }
}

fn stmt_with_doc(st: Statement, d: Vec<Vec<u8>>) -> (r: Statement)
    ensures
        r@ == st@.with_doc(deep(d@)),
{
    match st {
        Statement::Import { module, location, .. } => Statement::Import {
            module,
            location,
            doc: d,
        },
        Statement::FnDef { name, public, location, .. } => Statement::FnDef {
            name,
            public,
            location,
            doc: d,
        },
        Statement::TypeDef { name, public, location, .. } => Statement::TypeDef {
            name,
            public,
            location,
            doc: d,
        },
    }
}

fn attach_list(ss: Vec<Statement>, cs: &[Comment], ci: usize) -> (r: Vec<Statement>)
    requires
        ci <= cs@.len(),
    ensures
        stmts_v(r@) == spec_attach(stmts_v(ss@), comments_v(cs@).skip(ci as int)),
    decreases ss@.len(),
{
    let ghost csv = comments_v(cs@).skip(ci as int);
    let ghost ss0 = stmts_v(ss@);
    if ss.len() == 0 {
        let out: Vec<Statement> = Vec::new();
        proof {
            assert(stmts_v(out@) =~= spec_attach(ss0, csv));
        }
        return out;
    }
    let mut ss = ss;
    let st = ss.remove(0);
    proof {
        assert(st@ == ss0[0]);
        assert(stmts_v(ss@) =~= ss0.skip(1));
    }
    let limit = stmt_end(&st);
    proof {
        assert(comments_v(cs@).len() == cs@.len());
        assert(csv.len() == cs@.len() - ci);
        assert(forall|j: int| 0 <= j < csv.len() ==> csv[j] == comments_v(cs@)[ci + j]);
        assert(forall|j: int| 0 <= j < csv.len() ==> csv[j] == cs@[ci + j]@);
    }
    let mut m: usize = ci;
    while m < cs.len() && cs[m].end <= limit
        invariant
            ci <= m <= cs@.len(),
            csv.len() == cs@.len() - ci,
            forall|j: int| 0 <= j < csv.len() ==> csv[j] == cs@[ci + j]@,
            forall|j: int| 0 <= j < m - ci ==> (#[trigger] csv[j]).end <= limit,
        decreases cs@.len() - m,
    {
        proof {
            assert(csv[m - ci] == cs@[m as int]@);
        }
        m = m + 1;
    }
    let k: usize = m - ci;
    proof {
        if m < cs@.len() {
            assert(csv[k as int] == cs@[m as int]@);
        }
        lemma_take_count_char(csv, limit, k as int);
    }
    let mut doc: Vec<Vec<u8>> = Vec::new();
    let mut m2: usize = ci;
    while m2 < m
        invariant
            m == ci + k,
            ci <= m2 <= m,
            m <= cs@.len(),
            csv.len() == cs@.len() - ci,
            forall|j: int| 0 <= j < csv.len() ==> csv[j] == cs@[ci + j]@,
            doc@.len() == m2 - ci,
            forall|j: int| 0 <= j < m2 - ci ==> deep(doc@)[j] == (#[trigger] csv[j]).text,
        decreases m - m2,
    {
        proof {
            assert(csv[m2 - ci] == cs@[m2 as int]@);
        }
        doc.push(crate::bytes::copy_bytes(cs[m2].text.as_slice()));
        m2 = m2 + 1;
    }
    proof {
        assert(deep(doc@).len() == doc@.len());
        assert(deep(doc@) =~= Seq::new(k as nat, |i: int| csv[i].text));
    }
    let st2 = stmt_with_doc(st, doc);
    let mut rest = attach_list(ss, cs, ci + k);
    let mut out: Vec<Statement> = Vec::new();
    out.push(st2);
    let ghost restv = stmts_v(rest@);
    out.append(&mut rest);
    proof {
        assert(comments_v(cs@).skip(ci + k) =~= csv.skip(k as int));
        assert(restv == spec_attach(ss0.skip(1), csv.skip(k as int)));
        assert(stmts_v(out@) =~= seq![st2@] + restv);
        assert(limit == ss0[0].location().end);
        assert(stmts_v(out@) =~= spec_attach(ss0, csv));
    }
    out
}

/// Walks the statements left to right, attaching to each the prefix of
/// remaining doc comments whose end offset lies at or before the
/// statement's own end.
pub fn attach_doc_comments(module: UntypedModule, comments: &[Comment]) -> (r: UntypedModule)
    ensures
        r@.name == module@.name,
        r@.statements == spec_attach(module@.statements, comments_v(comments@)),
{
    let UntypedModule { name, statements } = module;
    let statements = attach_list(statements, comments, 0);
    proof {
        assert(comments_v(comments@).skip(0) =~= comments_v(comments@));
    }
    UntypedModule { name, statements }
}

} // verus!


