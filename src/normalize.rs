//! Canonical form of a raw tag token.
use vstd::prelude::*;

verus! {

/// Whether a character has the Unicode `White_Space` property, the set that
/// `char::is_whitespace` tests.
pub open spec fn is_ws(c: char) -> bool {
    let u = c as u32;
    (0x9 <= u && u <= 0xd) || u == 0x20 || u == 0x85 || u == 0xa0 || u == 0x1680
        || (0x2000 <= u && u <= 0x200a) || u == 0x2028 || u == 0x2029 || u == 0x202f
        || u == 0x205f || u == 0x3000
}

/// `s` without its leading whitespace.
pub open spec fn trim_front(s: Seq<char>) -> Seq<char>
    decreases s.len(),
{
    if s.len() > 0 && is_ws(s[0]) {
        trim_front(s.drop_first())
    } else {
        s
    }
}

/// `s` without its trailing whitespace.
pub open spec fn trim_back(s: Seq<char>) -> Seq<char>
    decreases s.len(),
{
    if s.len() > 0 && is_ws(s.last()) {
        trim_back(s.drop_last())
    } else {
        s
    }
}

pub open spec fn trim(s: Seq<char>) -> Seq<char> {
    trim_back(trim_front(s))
}

/// ASCII case folding of one character: `A`..`Z` become `a`..`z`, all else stays.
pub open spec fn lower_char(c: char) -> char {
    if 'A' <= c && c <= 'Z' {
        ((c as u32 + 32) as u8) as char
    } else {
        c
    }
}

/// Each character folded to lower case, with every `_` removed.
pub open spec fn fold_strip(s: Seq<char>) -> Seq<char>
    decreases s.len(),
{
    if s.len() == 0 {
        s
    } else if s.last() == '_' {
        fold_strip(s.drop_last())
    } else {
        fold_strip(s.drop_last()).push(lower_char(s.last()))
    }
}

/// The canonical form of a raw token: lower-cased, without underscores, and
/// trimmed of the whitespace left at either end.
pub open spec fn normalized(s: Seq<char>) -> Seq<char> {
    trim(fold_strip(s))
}

/// `s` with every `_` removed.
pub open spec fn strip_underscores(s: Seq<char>) -> Seq<char>
    decreases s.len(),
{
    if s.len() == 0 {
        s
    } else if s.last() == '_' {
        strip_underscores(s.drop_last())
    } else {
        strip_underscores(s.drop_last()).push(s.last())
    }
}

fn is_whitespace_char(c: char) -> (r: bool)
    ensures
        r == is_ws(c),
{
    let u = c as u32;
    (0x9 <= u && u <= 0xd) || u == 0x20 || u == 0x85 || u == 0xa0 || u == 0x1680
        || (0x2000 <= u && u <= 0x200a) || u == 0x2028 || u == 0x2029 || u == 0x202f
        || u == 0x205f || u == 0x3000
}

fn fold_char(c: char) -> (r: char)
    ensures
        r == lower_char(c),
{
    if 'A' <= c && c <= 'Z' {
        ((c as u32 + 32) as u8) as char
    } else {
        c
    }
}

/// Relies on `String::push`: appends one character at the end.
#[verifier::external_body]
pub(crate) fn push_char(s: &mut String, c: char)
    ensures
        final(s)@ == old(s)@.push(c),
{
    s.push(c)
}

proof fn lemma_trim_front_skip(s: Seq<char>, i: int)
    requires
        0 <= i <= s.len(),
        forall|k: int| 0 <= k < i ==> is_ws(#[trigger] s[k]),
    ensures
        trim_front(s) == trim_front(s.subrange(i, s.len() as int)),
    decreases i,
{
    if i > 0 {
        assert(s.drop_first() =~= s.subrange(1, s.len() as int));
        lemma_trim_front_skip(s.drop_first(), i - 1);
        assert(s.drop_first().subrange(i - 1, s.drop_first().len() as int) =~= s.subrange(
            i,
            s.len() as int,
        ));
    } else {
        assert(s =~= s.subrange(0, s.len() as int));
    }
}

proof fn lemma_trim_back_skip(s: Seq<char>, e: int)
    requires
        0 <= e <= s.len(),
        forall|k: int| e <= k < s.len() ==> is_ws(#[trigger] s[k]),
    ensures
        trim_back(s) == trim_back(s.subrange(0, e)),
    decreases s.len() - e,
{
    if e < s.len() {
        lemma_trim_back_skip(s.drop_last(), e);
        assert(s.drop_last().subrange(0, e) =~= s.subrange(0, e));
    } else {
        assert(s =~= s.subrange(0, e));
    }
}

/// A sequence with no whitespace at either end is its own trim.
proof fn lemma_trimmed_fixed(y: Seq<char>)
    requires
        y.len() == 0 || (!is_ws(y[0]) && !is_ws(y.last())),
    ensures
        trim(y) == y,
{
}

proof fn lemma_trim_front_shape(s: Seq<char>) -> (i: int)
    ensures
        0 <= i <= s.len(),
        trim_front(s) == s.subrange(i, s.len() as int),
        i == s.len() || !is_ws(s[i]),
    decreases s.len(),
{
    if s.len() > 0 && is_ws(s[0]) {
        let j = lemma_trim_front_shape(s.drop_first());
        assert(s.drop_first().subrange(j, s.drop_first().len() as int) =~= s.subrange(
            j + 1,
            s.len() as int,
        ));
        j + 1
    } else {
        assert(s.subrange(0, s.len() as int) =~= s);
        0
    }
}

proof fn lemma_trim_back_shape(s: Seq<char>) -> (e: int)
    ensures
        0 <= e <= s.len(),
        trim_back(s) == s.subrange(0, e),
        e == 0 || !is_ws(s[e - 1]),
    decreases s.len(),
{
    if s.len() > 0 && is_ws(s.last()) {
        let e = lemma_trim_back_shape(s.drop_last());
        assert(s.drop_last().subrange(0, e) =~= s.subrange(0, e));
        e
    } else {
        assert(s.subrange(0, s.len() as int) =~= s);
        s.len() as int
    }
}

/// The trim of `s` is the part of `s` between two places, with no
/// whitespace at either end.
proof fn lemma_trim_shape(s: Seq<char>) -> (r: (int, int))
    ensures
        0 <= r.0 <= r.1 <= s.len(),
        trim(s) == s.subrange(r.0, r.1),
        trim(s).len() == 0 || (!is_ws(trim(s)[0]) && !is_ws(trim(s).last())),
{
    let i = lemma_trim_front_shape(s);
    let t = s.subrange(i, s.len() as int);
    let e = lemma_trim_back_shape(t);
    assert(t.subrange(0, e) =~= s.subrange(i, i + e));
    if e > 0 {
        assert(trim(s)[0] == s[i]);
        assert(trim(s).last() == t[e - 1]);
    }
    (i, i + e)
}

/// Canonical form of a tag: ASCII letters lower-cased, every underscore
/// removed, and the whitespace then left at either end trimmed.
pub fn normalize_tag(tag: &str) -> (r: String)
    ensures
        r@ == normalized(tag@),
        trim(r@) == r@,
        normalized(r@) == r@,
{
    let n = tag.unicode_len();
    let ghost s = tag@;
    let mut folded = String::new();
    let mut k: usize = 0;
    while k < n
        invariant
            n == s.len(),
            s == tag@,
            k <= n,
            folded@ == fold_strip(s.subrange(0, k as int)),
        decreases n - k,
    {
        let c = tag.get_char(k);
        proof {
            assert(s.subrange(0, k + 1).drop_last() =~= s.subrange(0, k as int));
        }
        if c != '_' {
            push_char(&mut folded, fold_char(c));
        }
        k = k + 1;
    }
    assert(s.subrange(0, n as int) =~= s);
    let f = folded.as_str();
    let ghost x = f@;
    let m = f.unicode_len();
    let mut start: usize = 0;
    while start < m && is_whitespace_char(f.get_char(start))
        invariant
            m == x.len(),
            x == f@,
            start <= m,
            forall|j: int| 0 <= j < start ==> is_ws(#[trigger] x[j]),
        decreases m - start,
    {
        start = start + 1;
    }
    let mut end: usize = m;
    while end > start && is_whitespace_char(f.get_char(end - 1))
        invariant
            m == x.len(),
            x == f@,
            start <= end <= m,
            forall|j: int| end <= j < m ==> is_ws(#[trigger] x[j]),
        decreases end,
    {
        end = end - 1;
    }
    let ghost mid = x.subrange(start as int, end as int);
    proof {
        lemma_trim_front_skip(x, start as int);
        let rest = x.subrange(start as int, m as int);
        if start < m {
            assert(!is_ws(rest[0]));
        }
        assert(trim_front(rest) == rest);
        lemma_trim_back_skip(rest, end - start);
        assert(rest.subrange(0, end - start) =~= mid);
        if end > start {
            assert(!is_ws(mid.last()));
        }
        assert(trim_back(mid) == mid);
    }
    let mut r = String::new();
    let mut k: usize = start;
    while k < end
        invariant
            m == x.len(),
            x == f@,
            start <= k <= end <= m,
            r@ == x.subrange(start as int, k as int),
        decreases end - k,
    {
        push_char(&mut r, f.get_char(k));
        k = k + 1;
        assert(r@ =~= x.subrange(start as int, k as int));
    }
    proof {
        lemma_normalize_idempotent(tag@);
        lemma_trim_shape(normalized(tag@));
    }
    r
}

proof fn lemma_lower_char(c: char)
    ensures
        c != '_' ==> lower_char(c) != '_',
        lower_char(lower_char(c)) == lower_char(c),
{
    if 'A' <= c && c <= 'Z' {
        let b = (c as u32 + 32) as u8;
        assert(97 <= b <= 122);
        assert((b as char) as u32 == b as u32);
    }
}

proof fn lemma_fold_strip_canonical(s: Seq<char>)
    ensures
        forall|k: int|
            0 <= k < fold_strip(s).len() ==> #[trigger] fold_strip(s)[k] != '_' && lower_char(
                fold_strip(s)[k],
            ) == fold_strip(s)[k],
    decreases s.len(),
{
    if s.len() > 0 {
        lemma_fold_strip_canonical(s.drop_last());
        lemma_lower_char(s.last());
        let p = fold_strip(s.drop_last());
        if s.last() != '_' {
            assert forall|k: int| 0 <= k < fold_strip(s).len() implies #[trigger] fold_strip(
                s,
            )[k] != '_' && lower_char(fold_strip(s)[k]) == fold_strip(s)[k] by {
                if k < p.len() {
                    assert(fold_strip(s)[k] == p[k]);
                }
            }
        }
    }
}

proof fn lemma_fold_strip_fixed(s: Seq<char>)
    requires
        forall|k: int| 0 <= k < s.len() ==> #[trigger] s[k] != '_' && lower_char(s[k]) == s[k],
    ensures
        fold_strip(s) == s,
    decreases s.len(),
{
    if s.len() > 0 {
        lemma_fold_strip_fixed(s.drop_last());
        assert(s.drop_last().push(s.last()) =~= s);
    }
}

/// Normalizing twice gives what normalizing once gives; a normal form has
/// no whitespace at either end.
pub proof fn lemma_normalize_idempotent(t: Seq<char>)
    ensures
        normalized(normalized(t)) == normalized(t),
        trim(normalized(t)) == normalized(t),
{
    let x = fold_strip(t);
    let n = normalized(t);
    lemma_fold_strip_canonical(t);
    let (i, e) = lemma_trim_shape(x);
    assert forall|k: int| 0 <= k < n.len() implies #[trigger] n[k] != '_' && lower_char(n[k])
        == n[k] by {
        assert(n[k] == x[i + k]);
    }
    lemma_fold_strip_fixed(n);
    lemma_trimmed_fixed(n);
}

proof fn lemma_fold_strip_ignores_underscores(s: Seq<char>)
    ensures
        fold_strip(s) == fold_strip(strip_underscores(s)),
    decreases s.len(),
{
    if s.len() > 0 {
        lemma_fold_strip_ignores_underscores(s.drop_last());
        if s.last() != '_' {
            let u = strip_underscores(s);
            assert(u.drop_last() =~= strip_underscores(s.drop_last()));
        }
    }
}

/// Underscores do not matter: two tokens that are equal once their
/// underscores are removed have the same normal form, wherever the
/// underscores stood.
pub proof fn lemma_normalize_ignores_underscores(a: Seq<char>, b: Seq<char>)
    requires
        strip_underscores(a) == strip_underscores(b),
    ensures
        normalized(a) == normalized(b),
{
    lemma_fold_strip_ignores_underscores(a);
    lemma_fold_strip_ignores_underscores(b);
}

} // verus!
