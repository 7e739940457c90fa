//! Byte-string helpers.
//!
//! Every piece of text the engine handles (paths, module names, source
//! text, generated code) is a `Vec<u8>`; the specifications speak about
//! the corresponding `Seq<u8>`.

use vstd::prelude::*;

verus! {

/// The path separator byte `/`.
pub const SLASH: u8 = 47;

/// The alternative path separator byte `\`.
pub const BSLASH: u8 = 92;

/// The newline byte.
pub const NL: u8 = 10;

/// The space byte.
pub const SP: u8 = 32;

/// The tab byte.
pub const TAB: u8 = 9;

/// The carriage-return byte.
pub const CR: u8 = 13;

/// The `@` byte, used to join module segments in backend file names.
pub const AT: u8 = 64;

/// The deep view of a list of byte strings.
pub open spec fn deep(s: Seq<Vec<u8>>) -> Seq<Seq<u8>> {
    Seq::new(s.len(), |i: int| s[i]@)
}

/// True when `p` is a prefix of `s`.
pub open spec fn is_prefix(s: Seq<u8>, p: Seq<u8>) -> bool {
    p.len() <= s.len() && s.take(p.len() as int) == p
}

/// True when `p` is a suffix of `s`.
pub open spec fn is_suffix(s: Seq<u8>, p: Seq<u8>) -> bool {
    p.len() <= s.len() && s.skip(s.len() - p.len()) == p
}

/// The parts of `parts` joined with the single byte `sep` between them.
pub open spec fn spec_join(parts: Seq<Seq<u8>>, sep: u8) -> Seq<u8>
    decreases parts.len(),
{
    if parts.len() == 0 {
        Seq::empty()
    } else if parts.len() == 1 {
        parts[0]
    } else {
        parts[0] + seq![sep] + spec_join(parts.skip(1), sep)
    }
}

/// Splitting `s` at every occurrence of `sep`; the inverse of `spec_join`
/// for parts that do not contain `sep`.
pub open spec fn spec_split(s: Seq<u8>, sep: u8) -> Seq<Seq<u8>>
    decreases s.len(),
{
    if s.len() == 0 {
        seq![Seq::empty()]
    } else if s[0] == sep {
        seq![Seq::<u8>::empty()] + spec_split(s.skip(1), sep)
    } else {
        let rest = spec_split(s.skip(1), sep);
        seq![seq![s[0]] + rest[0]] + rest.skip(1)
    }
}

pub proof fn lemma_split_len(s: Seq<u8>, sep: u8)
    ensures
        spec_split(s, sep).len() >= 1,
    decreases s.len(),
{
    if s.len() == 0 {
    } else if s[0] == sep {
        lemma_split_len(s.skip(1), sep);
    } else {
        lemma_split_len(s.skip(1), sep);
    }
}

/// Structural equality of two byte strings.
pub fn bytes_eq(a: &[u8], b: &[u8]) -> (r: bool)
    ensures
        r <==> a@ == b@,
{
    if a.len() != b.len() {
        proof {
            if a@ == b@ {
                assert(a@.len() == b@.len());
            }
        }
        return false;
    }
    let mut i: usize = 0;
    while i < a.len()
        invariant
            i <= a.len(),
            a.len() == b.len(),
            forall|j: int| 0 <= j < i ==> a@[j] == b@[j],
        decreases a.len() - i,
    {
        if a[i] != b[i] {
            proof {
                if a@ == b@ {
                    assert(a@[i as int] == b@[i as int]);
                }
            }
            return false;
        }
        i = i + 1;
    }
    proof {
        assert(a@ =~= b@);
    }
    true
}

/// Lexicographic strict order on byte strings (shorter prefixes first).
pub open spec fn lex_lt(a: Seq<u8>, b: Seq<u8>) -> bool
    decreases a.len(),
{
    if b.len() == 0 {
        false
    } else if a.len() == 0 {
        true
    } else if a[0] < b[0] {
        true
    } else if a[0] > b[0] {
        false
    } else {
        lex_lt(a.skip(1), b.skip(1))
    }
}

pub proof fn lemma_lex_lt_irrefl(a: Seq<u8>)
    ensures
        !lex_lt(a, a),
    decreases a.len(),
{
    if a.len() > 0 {
        lemma_lex_lt_irrefl(a.skip(1));
    }
}

pub proof fn lemma_lex_lt_total(a: Seq<u8>, b: Seq<u8>)
    ensures
        lex_lt(a, b) || lex_lt(b, a) || a == b,
    decreases a.len(),
{
    if b.len() == 0 {
        if a.len() == 0 {
            assert(a =~= b);
        }
    } else if a.len() == 0 {
    } else if a[0] == b[0] {
        lemma_lex_lt_total(a.skip(1), b.skip(1));
        if a.skip(1) == b.skip(1) {
            assert(a =~= seq![a[0]] + a.skip(1));
            assert(b =~= seq![b[0]] + b.skip(1));
        }
    }
}

pub proof fn lemma_lex_lt_asym(a: Seq<u8>, b: Seq<u8>)
    ensures
        !(lex_lt(a, b) && lex_lt(b, a)),
    decreases a.len(),
{
    if a.len() > 0 && b.len() > 0 && a[0] == b[0] {
        lemma_lex_lt_asym(a.skip(1), b.skip(1));
    }
}

pub proof fn lemma_lex_lt_trans(a: Seq<u8>, b: Seq<u8>, c: Seq<u8>)
    ensures
        lex_lt(a, b) && lex_lt(b, c) ==> lex_lt(a, c),
    decreases a.len(),
{
    if a.len() > 0 && b.len() > 0 && c.len() > 0 {
        lemma_lex_lt_trans(a.skip(1), b.skip(1), c.skip(1));
    }
}

/// Decides `lex_lt` on byte strings.
pub fn bytes_lt(a: &[u8], b: &[u8]) -> (r: bool)
    ensures
        r <==> lex_lt(a@, b@),
    decreases a@.len(),
{
    proof {
        assert(a@.skip(0) =~= a@);
        assert(b@.skip(0) =~= b@);
    }
    let mut i: usize = 0;
    loop
        invariant
            i <= a.len(),
            i <= b.len(),
            forall|j: int| 0 <= j < i ==> a@[j] == b@[j],
            lex_lt(a@, b@) <==> lex_lt(a@.skip(i as int), b@.skip(i as int)),
        decreases a.len() - i,
    {
        if i >= b.len() {
            assert(b@.skip(i as int).len() == 0);
            return false;
        }
        if i >= a.len() {
            assert(a@.skip(i as int).len() == 0);
            assert(b@.skip(i as int).len() > 0);
            return true;
        }
        let ab = a[i];
        let bb = b[i];
        assert(a@.skip(i as int)[0] == a@[i as int]);
        assert(b@.skip(i as int)[0] == b@[i as int]);
        if ab < bb {
            return true;
        }
        if ab > bb {
            return false;
        }
        proof {
            assert(a@.skip(i as int).skip(1) =~= a@.skip(i as int + 1));
            assert(b@.skip(i as int).skip(1) =~= b@.skip(i as int + 1));
        }
        i = i + 1;
    }
}

/// True when `s` starts with `p`.
pub fn starts_with(s: &[u8], p: &[u8]) -> (r: bool)
    ensures
        r <==> is_prefix(s@, p@),
{
    if p.len() > s.len() {
        return false;
    }
    let mut i: usize = 0;
    while i < p.len()
        invariant
            i <= p.len(),
            p.len() <= s.len(),
            forall|j: int| 0 <= j < i ==> s@[j] == p@[j],
        decreases p.len() - i,
    {
        if s[i] != p[i] {
            proof {
                if is_prefix(s@, p@) {
                    assert(s@.take(p@.len() as int)[i as int] == p@[i as int]);
                }
            }
            return false;
        }
        i = i + 1;
    }
    proof {
        assert(s@.take(p@.len() as int) =~= p@);
    }
    true
}

/// True when `s` ends with `p`.
pub fn ends_with(s: &[u8], p: &[u8]) -> (r: bool)
    ensures
        r <==> is_suffix(s@, p@),
{
    if p.len() > s.len() {
        return false;
    }
    let off: usize = s.len() - p.len();
    let mut i: usize = 0;
    while i < p.len()
        invariant
            i <= p.len(),
            p.len() <= s.len(),
            off == s.len() - p.len(),
            forall|j: int| 0 <= j < i ==> s@[off + j] == p@[j],
        decreases p.len() - i,
    {
        if s[off + i] != p[i] {
            proof {
                if is_suffix(s@, p@) {
                    assert(s@.skip(s@.len() - p@.len())[i as int] == p@[i as int]);
                }
            }
            return false;
        }
        i = i + 1;
    }
    proof {
        assert(s@.skip(s@.len() - p@.len()) =~= p@);
    }
    true
}

/// A fresh copy of a byte string.
pub fn copy_bytes(s: &[u8]) -> (r: Vec<u8>)
    ensures
        r@ == s@,
{
    let mut out: Vec<u8> = Vec::new();
    let mut i: usize = 0;
    while i < s.len()
        invariant
            i <= s.len(),
            out@ =~= s@.take(i as int),
        decreases s.len() - i,
    {
        out.push(s[i]);
        i = i + 1;
    }
    proof {
        assert(out@ =~= s@);
    }
    out
}

/// A fresh copy of a list of byte strings.
pub fn copy_bytes_list(s: &Vec<Vec<u8>>) -> (r: Vec<Vec<u8>>)
    ensures
        deep(r@) == deep(s@),
{
    let mut out: Vec<Vec<u8>> = Vec::new();
    let mut i: usize = 0;
    while i < s.len()
        invariant
            i <= s.len(),
            out@.len() == i,
            deep(out@) =~= deep(s@).take(i as int),
        decreases s.len() - i,
    {
        out.push(copy_bytes(s[i].as_slice()));
        i = i + 1;
        proof {
            assert(deep(out@) =~= deep(s@).take(i as int));
        }
    }
    proof {
        assert(deep(out@) =~= deep(s@));
    }
    out
}

/// The bytes of `s` from `i` (inclusive) to `j` (exclusive).
pub fn sub_bytes(s: &[u8], i: usize, j: usize) -> (r: Vec<u8>)
    requires
        i <= j <= s@.len(),
    ensures
        r@ == s@.subrange(i as int, j as int),
{
    let mut out: Vec<u8> = Vec::new();
    let mut k: usize = i;
    while k < j
        invariant
            i <= k <= j <= s@.len(),
            out@ =~= s@.subrange(i as int, k as int),
        decreases j - k,
    {
        out.push(s[k]);
        k = k + 1;
    }
    proof {
        assert(out@ =~= s@.subrange(i as int, j as int));
    }
    out
}

/// Appends all of `src` to `dest`.
pub fn push_bytes(dest: &mut Vec<u8>, src: &[u8])
    ensures
        final(dest)@ == old(dest)@ + src@,
{
    let mut i: usize = 0;
    while i < src.len()
        invariant
            i <= src.len(),
            dest@ =~= old(dest)@ + src@.take(i as int),
        decreases src.len() - i,
    {
        dest.push(src[i]);
        i = i + 1;
    }
    proof {
        assert(dest@ =~= old(dest)@ + src@);
    }
}

/// The first index at or after `from` holding `b`, or the length of `s`.
pub fn find_byte_from(s: &[u8], from: usize, b: u8) -> (r: usize)
    requires
        from <= s@.len(),
    ensures
        from <= r <= s@.len(),
        forall|j: int| from <= j < r ==> s@[j] != b,
        r < s@.len() ==> s@[r as int] == b,
{
    let mut i: usize = from;
    while i < s.len()
        invariant
            from <= i <= s.len(),
            forall|j: int| from <= j < i ==> s@[j] != b,
        decreases s.len() - i,
    {
        if s[i] == b {
            return i;
        }
        i = i + 1;
    }
    i
}

/// Joins the byte strings of `parts` from index `i` on, with `sep`
/// between them.
fn join_from(parts: &[Vec<u8>], i: usize, sep: u8) -> (r: Vec<u8>)
    requires
        i <= parts@.len(),
    ensures
        r@ == spec_join(deep(parts@).skip(i as int), sep),
    decreases parts@.len() - i,
{
    let ghost pv = deep(parts@);
    if i == parts.len() {
        let out: Vec<u8> = Vec::new();
        proof {
            assert(pv.skip(i as int).len() == 0);
        }
        out
    } else if i + 1 == parts.len() {
        let out = copy_bytes(parts[i].as_slice());
        proof {
            assert(pv.skip(i as int).len() == 1);
            assert(pv.skip(i as int)[0] == pv[i as int]);
        }
        out
    } else {
        let mut out = copy_bytes(parts[i].as_slice());
        out.push(sep);
        let rest = join_from(parts, i + 1, sep);
        push_bytes(&mut out, rest.as_slice());
        proof {
            assert(pv.skip(i as int).skip(1) =~= pv.skip(i as int + 1));
            assert(pv.skip(i as int)[0] == pv[i as int]);
            assert(out@ =~= pv.skip(i as int)[0] + seq![sep] + spec_join(pv.skip(i as int + 1), sep));
        }
        out
    }
}

/// Joins byte strings with a separator byte.
pub fn join_bytes(parts: &[Vec<u8>], sep: u8) -> (r: Vec<u8>)
    ensures
        r@ == spec_join(deep(parts@), sep),
{
    let r = join_from(parts, 0, sep);
    proof {
        assert(deep(parts@).skip(0) =~= deep(parts@));
    }
    r
}

/// Splits the bytes of `s` from `from` on at every `sep`.
fn split_from(s: &[u8], from: usize, sep: u8) -> (r: Vec<Vec<u8>>)
    requires
        from <= s@.len(),
    ensures
        deep(r@) == spec_split(s@.skip(from as int), sep),
    decreases s@.len() - from,
{
    let nl = find_byte_from(s, from, sep);
    if nl == s.len() {
        let mut out: Vec<Vec<u8>> = Vec::new();
        out.push(sub_bytes(s, from, s.len()));
        proof {
            assert(forall|j: int|
                0 <= j < s@.skip(from as int).len() ==> s@.skip(from as int)[j] != sep);
            lemma_split_whole(s@.skip(from as int), sep);
            assert(s@.subrange(from as int, s@.len() as int) =~= s@.skip(from as int));
            assert(deep(out@) =~= spec_split(s@.skip(from as int), sep));
        }
        out
    } else {
        let head = sub_bytes(s, from, nl);
        let rest = split_from(s, nl + 1, sep);
        let mut out: Vec<Vec<u8>> = Vec::new();
        out.push(head);
        let mut i: usize = 0;
        while i < rest.len()
            invariant
                i <= rest.len(),
                out@.len() == i + 1,
                out@[0]@ == s@.subrange(from as int, nl as int),
                forall|j: int| 0 <= j < i ==> out@[j + 1]@ == rest@[j]@,
            decreases rest.len() - i,
        {
            out.push(copy_bytes(rest[i].as_slice()));
            i = i + 1;
        }
        proof {
            let sk = s@.skip(from as int);
            assert(sk[nl - from] == s@[nl as int]);
            assert(forall|j: int| 0 <= j < nl - from ==> sk[j] == s@[from + j] && sk[j] != sep);
            lemma_split_at(sk, sep, nl - from);
            assert(sk.subrange(0, nl - from) =~= s@.subrange(from as int, nl as int));
            assert(sk.skip(nl - from + 1) =~= s@.skip(nl as int + 1));
            assert(deep(rest@) =~= spec_split(s@.skip(nl as int + 1), sep));
            assert(deep(out@) =~= seq![s@.subrange(from as int, nl as int)]
                + spec_split(s@.skip(nl as int + 1), sep));
        }
        out
    }
}

/// Splits a byte string at a separator byte.
pub fn split_bytes(s: &[u8], sep: u8) -> (r: Vec<Vec<u8>>)
    ensures
        deep(r@) == spec_split(s@, sep),
{
    let r = split_from(s, 0, sep);
    proof {
        assert(s@.skip(0) =~= s@);
    }
    r
}

/// When `s` holds no separator, the split is the single part `s`.
pub proof fn lemma_split_whole(s: Seq<u8>, sep: u8)
    requires
        forall|j: int| 0 <= j < s.len() ==> s[j] != sep,
    ensures
        spec_split(s, sep) == seq![s],
    decreases s.len(),
{
    if s.len() == 0 {
        assert(s =~= Seq::<u8>::empty());
        assert(spec_split(s, sep) =~= seq![s]);
    } else {
        lemma_split_whole(s.skip(1), sep);
        assert(spec_split(s.skip(1), sep) == seq![s.skip(1)]);
        assert(seq![s[0]] + s.skip(1) =~= s);
        assert(spec_split(s, sep) =~= seq![s]);
    }
}

/// When the first separator of `s` stands at `i`, the split is the prefix
/// before `i` followed by the split of what comes after it.
pub proof fn lemma_split_at(s: Seq<u8>, sep: u8, i: int)
    requires
        0 <= i < s.len(),
        s[i] == sep,
        forall|j: int| 0 <= j < i ==> s[j] != sep,
    ensures
        spec_split(s, sep) == seq![s.subrange(0, i)] + spec_split(s.skip(i + 1), sep),
    decreases s.len(),
{
    if i == 0 {
        assert(s.subrange(0, 0) =~= Seq::<u8>::empty());
        assert(spec_split(s, sep) =~= seq![s.subrange(0, 0)] + spec_split(s.skip(1), sep));
    } else {
        assert(s[0] != sep);
        lemma_split_at(s.skip(1), sep, i - 1);
        lemma_split_len(s.skip(1).skip(i), sep);
        assert(s.skip(1).subrange(0, i - 1) =~= s.subrange(1, i));
        assert(s.skip(1).skip(i) =~= s.skip(i + 1));
        let rest = spec_split(s.skip(1), sep);
        assert(rest == seq![s.subrange(1, i)] + spec_split(s.skip(i + 1), sep));
        assert(rest[0] == s.subrange(1, i));
        assert(seq![s[0]] + s.subrange(1, i) =~= s.subrange(0, i));
        assert(rest.skip(1) =~= spec_split(s.skip(i + 1), sep));
        assert(spec_split(s, sep) =~= seq![s.subrange(0, i)] + spec_split(s.skip(i + 1), sep));
    }
}

} // verus!

