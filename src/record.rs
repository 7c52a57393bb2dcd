//! Building users and posts from the text fields of one record.
use crate::entity::{Post, User};
use crate::normalize::{lemma_normalize_idempotent, normalize_tag, normalized, push_char};
use crate::similarity::{has_tag, tag_set, tag_views};
use vstd::prelude::*;

verus! {

/// The value of a digit character, as `char::to_digit` reads it: `0`..`9`,
/// then `a`..`z` or `A`..`Z` for 10 to 35; 36 for any other character.
pub open spec fn digit_value(c: char) -> nat {
    if '0' <= c && c <= '9' {
        (c as nat - '0' as nat) as nat
    } else if 'a' <= c && c <= 'z' {
        (c as nat - 'a' as nat + 10) as nat
    } else if 'A' <= c && c <= 'Z' {
        (c as nat - 'A' as nat + 10) as nat
    } else {
        36
    }
}

/// The value of a string of digits in base `radix`.
pub open spec fn radix_value(s: Seq<char>, radix: nat) -> nat
    decreases s.len(),
{
    if s.len() == 0 {
        0
    } else {
        radix * radix_value(s.drop_last(), radix) + digit_value(s.last())
    }
}

/// The digits of a number: the text without one leading `+`.
pub open spec fn id_digits(s: Seq<char>) -> Seq<char> {
    if s.len() > 0 && s[0] == '+' {
        s.drop_first()
    } else {
        s
    }
}

/// The number `s` writes in base `radix`: one or more digits of that base
/// after an optional `+`, with a value that fits in 32 bits.
pub open spec fn parsed_radix(s: Seq<char>, radix: nat) -> Option<u32> {
    let d = id_digits(s);
    if d.len() > 0 && (forall|k: int| 0 <= k < d.len() ==> digit_value(#[trigger] d[k]) < radix)
        && radix_value(d, radix) <= u32::MAX {
        Some(radix_value(d, radix) as u32)
    } else {
        None
    }
}

/// The id a field holds: after a `0x` prefix a hexadecimal number, else a
/// decimal one.
pub open spec fn parsed_id(s: Seq<char>) -> Option<u32> {
    if s.len() >= 2 && s[0] == '0' && s[1] == 'x' {
        parsed_radix(s.subrange(2, s.len() as int), 16)
    } else {
        parsed_radix(s, 10)
    }
}

proof fn lemma_radix_value_grows(s: Seq<char>, radix: nat, k: int)
    requires
        0 <= k <= s.len(),
        radix >= 1,
    ensures
        radix_value(s.subrange(0, k), radix) <= radix_value(s, radix),
    decreases s.len() - k,
{
    if k < s.len() {
        lemma_radix_value_grows(s, radix, k + 1);
        let p = s.subrange(0, k + 1);
        assert(p.drop_last() =~= s.subrange(0, k));
        let v = radix_value(s.subrange(0, k), radix);
        assert(radix * v >= v) by (nonlinear_arith)
            requires
                radix >= 1,
        ;
    } else {
        assert(s.subrange(0, k) =~= s);
    }
}

fn digit_of(c: char) -> (r: u64)
    ensures
        r as nat == digit_value(c),
{
    if '0' <= c && c <= '9' {
        (c as u64) - ('0' as u64)
    } else if 'a' <= c && c <= 'z' {
        (c as u64) - ('a' as u64) + 10
    } else if 'A' <= c && c <= 'Z' {
        (c as u64) - ('A' as u64) + 10
    } else {
        36
    }
}

/// Reads the number that `field` writes from place `from` on, in base
/// `radix`.
fn parse_radix(field: &str, from: usize, radix: u64) -> (r: Option<u32>)
    requires
        from <= field@.len(),
        radix == 10 || radix == 16,
    ensures
        r == parsed_radix(field@.subrange(from as int, field@.len() as int), radix as nat),
{
    let n = field.unicode_len();
    let ghost s = field@.subrange(from as int, n as int);
    let mut start: usize = from;
    if from < n && field.get_char(from) == '+' {
        start = from + 1;
    }
    let ghost d = id_digits(s);
    assert(d =~= field@.subrange(start as int, n as int));
    if start == n {
        return None;
    }
    let mut v: u64 = 0;
    let mut k: usize = start;
    while k < n
        invariant
            start <= k <= n,
            n == field@.len(),
            radix == 10 || radix == 16,
            d == field@.subrange(start as int, n as int),
            d == id_digits(s),
            s == field@.subrange(from as int, n as int),
            forall|j: int| 0 <= j < k - start ==> digit_value(#[trigger] d[j]) < radix,
            v as nat == radix_value(d.subrange(0, k - start), radix as nat),
            v <= u32::MAX,
        decreases n - k,
    {
        let c = field.get_char(k);
        proof {
            assert(d.subrange(0, k - start + 1).drop_last() =~= d.subrange(0, k - start));
        }
        let dv = digit_of(c);
        if dv >= radix {
            assert(digit_value(d[k - start]) >= radix);
            assert(parsed_radix(s, radix as nat).is_none());
            return None;
        }
        assert(v * radix <= 16 * 0xffff_ffff) by (nonlinear_arith)
            requires
                v <= 0xffff_ffff,
                radix <= 16,
        ;
        v = radix * v + dv;
        k = k + 1;
        assert(d[k - 1 - start] == c);
        assert(v as nat == radix_value(d.subrange(0, k - start), radix as nat));
        if v > 0xffff_ffff {
            proof {
                let kk = k - start;
                if forall|j: int| 0 <= j < d.len() ==> digit_value(#[trigger] d[j]) < radix {
                    lemma_radix_value_grows(d, radix as nat, kk);
                }
                assert(parsed_radix(s, radix as nat).is_none());
            }
            return None;
        }
    }
    assert(d.subrange(0, n - start) =~= d);
    Some(v as u32)
}

/// Reads an id field as the csv reader reads an unsigned integer: after a
/// `0x` prefix, hexadecimal digits of either case; otherwise decimal digits;
/// either after an optional `+`. `None` when the field holds anything else or
/// a value over `u32::MAX`.
pub fn parse_id(field: &str) -> (r: Option<u32>)
    ensures
        r == parsed_id(field@),
{
    let n = field.unicode_len();
    if n >= 2 && field.get_char(0) == '0' && field.get_char(1) == 'x' {
        parse_radix(field, 2, 16)
    } else {
        let r = parse_radix(field, 0, 10);
        assert(field@.subrange(0, n as int) =~= field@);
        r
    }
}

/// The pieces of a field split at every `,`; a field without one is a single
/// piece, and the empty field is one empty piece.
pub open spec fn split_commas(s: Seq<char>) -> Seq<Seq<char>>
    decreases s.len(),
{
    if s.len() == 0 {
        seq![Seq::empty()]
    } else {
        let p = split_commas(s.drop_last());
        if s.last() == ',' {
            p.push(Seq::empty())
        } else {
            p.update(p.len() - 1, p.last().push(s.last()))
        }
    }
}

/// The canonical tags a comma-separated field names.
pub open spec fn field_tags(s: Seq<char>) -> Set<Seq<char>> {
    split_commas(s).map_values(|p: Seq<char>| normalized(p)).to_set()
}

/// Adds `t` to `v` unless `v` already holds it.
fn add_tag(v: &mut Vec<String>, t: String)
    requires
        tag_views(old(v)@).no_duplicates(),
    ensures
        tag_views(final(v)@).no_duplicates(),
        tag_set(final(v)@) == tag_set(old(v)@).insert(t@),
{
    let ghost tv = t@;
    let n = v.len();
    if has_tag(v, n, &t) {
        proof {
            let j = choose|j: int| 0 <= j < n && (#[trigger] v@[j])@ == tv;
            assert(tag_views(v@)[j] == tv);
            assert(tag_set(v@).insert(tv) =~= tag_set(v@));
        }
    } else {
        let ghost old_v = v@;
        v.push(t);
        proof {
            assert(tag_views(v@) =~= tag_views(old_v).push(tv));
            tag_views(old_v).lemma_push_to_set_commute(tv);
            assert forall|j: int| 0 <= j < old_v.len() implies tag_views(old_v)[j] != tv by {
                assert(old_v[j] == v@[j]);
            }
        }
    }
}

/// The tags a comma-separated field names: each piece normalized, each
/// distinct tag once.
pub fn tags_from_field(field: &str) -> (r: Vec<String>)
    ensures
        tag_views(r@).no_duplicates(),
        tag_set(r@) == field_tags(field@),
        all_canonical(r@),
{
    let n = field.unicode_len();
    let ghost s = field@;
    let mut r: Vec<String> = Vec::new();
    let mut piece = String::new();
    let ghost mut done: Seq<Seq<char>> = Seq::empty();
    let mut k: usize = 0;
    proof {
        assert(split_commas(s.subrange(0, 0)) =~= done.push(piece@));
        assert(tag_set(r@) =~= done.map_values(|p: Seq<char>| normalized(p)).to_set());
        assert(tag_views(r@) =~= Seq::empty());
    }
    while k < n
        invariant
            n == s.len(),
            s == field@,
            k <= n,
            split_commas(s.subrange(0, k as int)) == done.push(piece@),
            tag_views(r@).no_duplicates(),
            tag_set(r@) == done.map_values(|p: Seq<char>| normalized(p)).to_set(),
        decreases n - k,
    {
        let c = field.get_char(k);
        proof {
            assert(s.subrange(0, k + 1).drop_last() =~= s.subrange(0, k as int));
        }
        if c == ',' {
            let t = normalize_tag(piece.as_str());
            add_tag(&mut r, t);
            proof {
                let f = |p: Seq<char>| normalized(p);
                assert(done.push(piece@).map_values(f) =~= done.map_values(f).push(normalized(piece@)));
                done.map_values(f).lemma_push_to_set_commute(normalized(piece@));
                done = done.push(piece@);
            }
            piece = String::new();
            proof {
                assert(split_commas(s.subrange(0, k + 1)) =~= done.push(piece@));
            }
        } else {
            push_char(&mut piece, c);
            proof {
                assert(split_commas(s.subrange(0, k + 1)) =~= done.push(piece@));
            }
        }
        k = k + 1;
    }
    let t = normalize_tag(piece.as_str());
    add_tag(&mut r, t);
    proof {
        let f = |p: Seq<char>| normalized(p);
        assert(s.subrange(0, n as int) =~= s);
        assert(done.push(piece@).map_values(f) =~= done.map_values(f).push(normalized(piece@)));
        done.map_values(f).lemma_push_to_set_commute(normalized(piece@));
        lemma_field_tags_canonical(r@, field@);
    }
    r
}

/// Every tag of the list is in canonical form.
pub open spec fn all_canonical(v: Seq<String>) -> bool {
    forall|k: int| 0 <= k < v.len() ==> normalized((#[trigger] v[k])@) == v[k]@
}

proof fn lemma_field_tags_canonical(v: Seq<String>, s: Seq<char>)
    requires
        tag_set(v) == field_tags(s),
    ensures
        all_canonical(v),
{
    let f = |p: Seq<char>| normalized(p);
    let pieces = split_commas(s).map_values(f);
    assert forall|k: int| 0 <= k < v.len() implies normalized((#[trigger] v[k])@) == v[k]@ by {
        assert(tag_views(v)[k] == v[k]@);
        assert(tag_set(v).contains(v[k]@));
        let j = choose|j: int| 0 <= j < pieces.len() && pieces[j] == v[k]@;
        lemma_normalize_idempotent(split_commas(s)[j]);
    }
}

/// A user from the fields of one record.
pub fn user_from_fields(id: u32, username: String, preferences: &str) -> (r: User)
    ensures
        r.id == id,
        r.username@ == username@,
        tag_views(r.preferences@).no_duplicates(),
        all_canonical(r.preferences@),
        tag_set(r.preferences@) == field_tags(preferences@),
{
    User { id, username, preferences: tags_from_field(preferences) }
}

/// A post from the fields of one record.
pub fn post_from_fields(id: u32, title: String, tags: &str) -> (r: Post)
    ensures
        r.id == id,
        r.title@ == title@,
        tag_views(r.tags@).no_duplicates(),
        all_canonical(r.tags@),
        tag_set(r.tags@) == field_tags(tags@),
{
    Post { id, title, tags: tags_from_field(tags) }
}

} // verus!
