//! Tag sets and the overlap score between two of them.
use vstd::prelude::*;
use vstd::seq_lib::seq_to_set_is_finite;
use vstd::set_lib::lemma_len_intersect;

verus! {

/// The tag strings of a list, as character sequences.
pub open spec fn tag_views(v: Seq<String>) -> Seq<Seq<char>> {
    v.map_values(|s: String| s@)
}

/// The set of tags a list holds; repeated entries count once.
pub open spec fn tag_set(v: Seq<String>) -> Set<Seq<char>> {
    tag_views(v).to_set()
}

/// Similarity of two tag sets: how many tags they share.
pub open spec fn similarity(a: Set<Seq<char>>, b: Set<Seq<char>>) -> nat {
    a.intersect(b).len()
}

pub proof fn lemma_tag_set_finite(v: Seq<String>)
    ensures
        tag_set(v).finite(),
{
    seq_to_set_is_finite(tag_views(v));
}

/// Whether one of the first `end` entries of `v` equals `t`.
pub fn has_tag(v: &Vec<String>, end: usize, t: &String) -> (r: bool)
    requires
        end <= v@.len(),
    ensures
        r == (exists|j: int| 0 <= j < end && (#[trigger] v@[j])@ == t@),
{
    let mut j: usize = 0;
    while j < end
        invariant
            end <= v@.len(),
            j <= end,
            forall|k: int| 0 <= k < j ==> (#[trigger] v@[k])@ != t@,
        decreases end - j,
    {
        if v[j] == *t {
            return true;
        }
        j = j + 1;
    }
    false
}

proof fn lemma_tag_set_push(v: Seq<String>, i: int)
    requires
        0 <= i < v.len(),
    ensures
        tag_set(v.subrange(0, i + 1)) == tag_set(v.subrange(0, i)).insert(v[i]@),
        tag_set(v.subrange(0, i)).contains(v[i]@) <==> exists|j: int|
            0 <= j < i && (#[trigger] v[j])@ == v[i]@,
{
    let p = v.subrange(0, i);
    let q = v.subrange(0, i + 1);
    assert(tag_views(q) =~= tag_views(p).push(v[i]@));
    tag_views(p).lemma_push_to_set_commute(v[i]@);
    if tag_set(p).contains(v[i]@) {
        let j = choose|j: int| 0 <= j < tag_views(p).len() && tag_views(p)[j] == v[i]@;
        assert(v[j] == p[j]);
    }
    if exists|j: int| 0 <= j < i && (#[trigger] v[j])@ == v[i]@ {
        let j = choose|j: int| 0 <= j < i && (#[trigger] v[j])@ == v[i]@;
        assert(tag_views(p)[j] == v[i]@);
    }
}

/// The number of tags shared by the two lists, each list read as a set.
pub fn score(a: &Vec<String>, b: &Vec<String>) -> (r: usize)
    ensures
        r == similarity(tag_set(a@), tag_set(b@)),
{
    let ghost bs = tag_set(b@);
    let mut count: usize = 0;
    let mut i: usize = 0;
    proof {
        assert(tag_set(a@.subrange(0, 0)) =~= Set::empty());
        assert(Set::<Seq<char>>::empty().intersect(bs) =~= Set::empty());
    }
    while i < a.len()
        invariant
            i <= a@.len(),
            bs == tag_set(b@),
            count <= i,
            count == similarity(tag_set(a@.subrange(0, i as int)), bs),
        decreases a@.len() - i,
    {
        let t = &a[i];
        let seen = has_tag(a, i, t);
        let shared = has_tag(b, b.len(), t);
        proof {
            let s = tag_set(a@.subrange(0, i as int));
            let x = a@[i as int]@;
            lemma_tag_set_push(a@, i as int);
            lemma_tag_set_finite(a@.subrange(0, i as int));
            lemma_tag_set_finite(b@);
            assert(bs.contains(x) == shared) by {
                assert(tag_views(b@)[0] == b@[0]@ || b@.len() == 0);
                if shared {
                    let j = choose|j: int| 0 <= j < b@.len() && (#[trigger] b@[j])@ == x;
                    assert(tag_views(b@)[j] == x);
                }
                if bs.contains(x) {
                    let j = choose|j: int| 0 <= j < tag_views(b@).len() && tag_views(b@)[j] == x;
                    assert(b@[j]@ == x);
                }
            }
            if shared && !seen {
                assert(s.insert(x).intersect(bs) =~= s.intersect(bs).insert(x));
            } else {
                assert(s.insert(x).intersect(bs) =~= s.intersect(bs));
            }
        }
        if shared && !seen {
            count = count + 1;
        }
        i = i + 1;
    }
    proof {
        assert(a@.subrange(0, a@.len() as int) =~= a@);
    }
    count
}

/// Laws of the similarity score: it is symmetric, a set shares all its tags
/// with itself, nothing with the empty set, and never more than it holds,
/// so no set scores higher against `a` than `a` itself does.
pub proof fn lemma_similarity_laws(a: Set<Seq<char>>, b: Set<Seq<char>>)
    requires
        a.finite(),
        b.finite(),
    ensures
        similarity(a, b) == similarity(b, a),
        similarity(a, b) >= 0,
        similarity(a, b) <= a.len(),
        similarity(a, a) == a.len(),
        similarity(a, b) <= similarity(a, a),
        similarity(a, Set::empty()) == 0,
{
    assert(a.intersect(b) =~= b.intersect(a));
    assert(a.intersect(a) =~= a);
    assert(a.intersect(Set::empty()) =~= Set::<Seq<char>>::empty());
    lemma_len_intersect(a, b);
}

} // verus!
