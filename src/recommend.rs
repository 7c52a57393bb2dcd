//! Recommending similar users and matching posts to a user.
use crate::entity::{Post, PostView, User, UserView};
use crate::ranking::{chosen, is_top_ranking, lemma_top_ranking_complete, min_nat, positive_set, ranks_before, top_ranked};
use crate::similarity::{score, similarity};
use vstd::prelude::*;

verus! {

/// How many preferences of `subject` a post's tags match.
pub open spec fn post_score(subject: UserView, post: PostView) -> nat {
    similarity(post.tags.to_set(), subject.preferences.to_set())
}

/// How many preferences two users share.
pub open spec fn user_score(subject: UserView, other: UserView) -> nat {
    similarity(other.preferences.to_set(), subject.preferences.to_set())
}

pub open spec fn post_views(posts: Seq<Post>) -> Seq<PostView> {
    posts.map_values(|p: Post| p@)
}

pub open spec fn user_views(users: Seq<User>) -> Seq<UserView> {
    users.map_values(|u: User| u@)
}

/// The ranking key of each post for `subject`: its score.
pub open spec fn post_keys(subject: UserView, posts: Seq<PostView>) -> Seq<nat> {
    Seq::new(posts.len(), |i: int| post_score(subject, posts[i]))
}

/// The ranking key of each user for `subject`: the score, or 0 for a user
/// with the subject's own id, who is never recommended.
pub open spec fn user_keys(subject: UserView, users: Seq<UserView>) -> Seq<nat> {
    Seq::new(
        users.len(),
        |i: int|
            if users[i].id == subject.id {
                0
            } else {
                user_score(subject, users[i])
            },
    )
}

/// The posts whose tags share at least one tag with the user's preferences,
/// most shared tags first, pool order among equal scores, at most `limit`.
pub fn recommended_posts(user: &User, posts: &[Post], limit: usize) -> (r: Vec<Post>)
    ensures
        exists|idx: Seq<usize>|
            is_top_ranking(post_keys(user@, post_views(posts@)), limit as nat, idx) && r@.len()
                == idx.len() && forall|k: int|
                0 <= k < idx.len() ==> (#[trigger] r@[k])@ == posts@[idx[k] as int]@,
        r@.len() <= limit,
        r@.len() == min_nat(limit as nat, positive_set(post_keys(user@, post_views(posts@))).len()),
        forall|k: int| 0 <= k < r@.len() ==> post_score(user@, (#[trigger] r@[k])@) > 0,
        forall|k: int|
            0 <= k < r@.len() - 1 ==> post_score(user@, (#[trigger] r@[k])@) >= post_score(
                user@,
                r@[k + 1]@,
            ),
{
    let ghost keys = post_keys(user@, post_views(posts@));
    let mut scores: Vec<usize> = Vec::new();
    let mut i: usize = 0;
    while i < posts.len()
        invariant
            i <= posts@.len(),
            keys == post_keys(user@, post_views(posts@)),
            scores@.len() == i,
            forall|j: int| 0 <= j < i ==> (#[trigger] scores@[j]) as nat == keys[j],
        decreases posts@.len() - i,
    {
        let sc = score(&posts[i].tags, &user.preferences);
        scores.push(sc);
        i = i + 1;
    }
    assert(crate::ranking::nat_seq(scores@) =~= keys);
    let idx = top_ranked(&scores, limit);
    let mut r: Vec<Post> = Vec::new();
    let mut k: usize = 0;
    while k < idx.len()
        invariant
            k <= idx@.len(),
            keys == post_keys(user@, post_views(posts@)),
            is_top_ranking(keys, limit as nat, idx@),
            r@.len() == k,
            forall|m: int| 0 <= m < k ==> (#[trigger] r@[m])@ == posts@[idx@[m] as int]@,
        decreases idx@.len() - k,
    {
        assert(idx@[k as int] < keys.len());
        r.push(posts[idx[k]].clone());
        k = k + 1;
    }
    proof {
        assert forall|m: int| 0 <= m < r@.len() implies post_score(user@, (#[trigger] r@[m])@) > 0 by {
            assert(keys[idx@[m] as int] > 0);
        }
        assert forall|m: int| 0 <= m < r@.len() - 1 implies post_score(user@, (#[trigger] r@[m])@)
            >= post_score(user@, r@[m + 1]@) by {
            assert(ranks_before(keys, idx@[m] as int, idx@[m + 1] as int));
        }
    }
    r
}

/// The users other than `current_user` (by id) who share at least one
/// preference with it, most shared first, pool order among equal scores, at
/// most `limit`.
pub fn recommended_users(current_user: &User, users: &[User], limit: usize) -> (r: Vec<User>)
    ensures
        exists|idx: Seq<usize>|
            is_top_ranking(user_keys(current_user@, user_views(users@)), limit as nat, idx)
                && r@.len() == idx.len() && forall|k: int|
                0 <= k < idx.len() ==> (#[trigger] r@[k])@ == users@[idx[k] as int]@,
        r@.len() <= limit,
        r@.len() == min_nat(
            limit as nat,
            positive_set(user_keys(current_user@, user_views(users@))).len(),
        ),
        forall|k: int| 0 <= k < r@.len() ==> (#[trigger] r@[k]).id != current_user.id,
        forall|k: int| 0 <= k < r@.len() ==> user_score(current_user@, (#[trigger] r@[k])@) > 0,
        forall|k: int|
            0 <= k < r@.len() - 1 ==> user_score(current_user@, (#[trigger] r@[k])@) >= user_score(
                current_user@,
                r@[k + 1]@,
            ),
{
    let ghost keys = user_keys(current_user@, user_views(users@));
    let mut scores: Vec<usize> = Vec::new();
    let mut i: usize = 0;
    while i < users.len()
        invariant
            i <= users@.len(),
            keys == user_keys(current_user@, user_views(users@)),
            scores@.len() == i,
            forall|j: int| 0 <= j < i ==> (#[trigger] scores@[j]) as nat == keys[j],
        decreases users@.len() - i,
    {
        let sc = if users[i].id == current_user.id {
            0
        } else {
            score(&users[i].preferences, &current_user.preferences)
        };
        scores.push(sc);
        i = i + 1;
    }
    assert(crate::ranking::nat_seq(scores@) =~= keys);
    let idx = top_ranked(&scores, limit);
    let mut r: Vec<User> = Vec::new();
    let mut k: usize = 0;
    while k < idx.len()
        invariant
            k <= idx@.len(),
            keys == user_keys(current_user@, user_views(users@)),
            is_top_ranking(keys, limit as nat, idx@),
            r@.len() == k,
            forall|m: int| 0 <= m < k ==> (#[trigger] r@[m])@ == users@[idx@[m] as int]@,
        decreases idx@.len() - k,
    {
        assert(idx@[k as int] < keys.len());
        r.push(users[idx[k]].clone());
        k = k + 1;
    }
    proof {
        assert forall|m: int| 0 <= m < r@.len() implies (#[trigger] r@[m]).id != current_user.id
            && user_score(current_user@, r@[m]@) > 0 by {
            assert(keys[idx@[m] as int] > 0);
            assert(r@[m]@.id == r@[m].id);
        }
        assert forall|m: int| 0 <= m < r@.len() - 1 implies user_score(
            current_user@,
            (#[trigger] r@[m])@,
        ) >= user_score(current_user@, r@[m + 1]@) by {
            assert(ranks_before(keys, idx@[m] as int, idx@[m + 1] as int));
            assert(keys[idx@[m] as int] > 0 && keys[idx@[m + 1] as int] > 0);
        }
    }
    r
}

/// Sharing preferences is mutual: two users score the same against each
/// other.
pub proof fn lemma_user_score_symmetric(a: UserView, b: UserView)
    ensures
        user_score(a, b) == user_score(b, a),
{
    assert(a.preferences.to_set().intersect(b.preferences.to_set()) =~= b.preferences.to_set().intersect(
        a.preferences.to_set(),
    ));
}

/// Recommending users is mutual when the limit covers the whole pool: of
/// two users of the pool with different ids, the ranking for the first
/// holds the second exactly when the ranking for the second holds the first.
pub proof fn lemma_mutual_recommendation(
    users: Seq<UserView>,
    i: int,
    j: int,
    limit: nat,
    for_i: Seq<usize>,
    for_j: Seq<usize>,
)
    requires
        0 <= i < users.len(),
        0 <= j < users.len(),
        users[i].id != users[j].id,
        limit >= users.len(),
        is_top_ranking(user_keys(users[i], users), limit, for_i),
        is_top_ranking(user_keys(users[j], users), limit, for_j),
    ensures
        chosen(for_i, j) <==> chosen(for_j, i),
{
    lemma_top_ranking_complete(user_keys(users[i], users), limit, for_i);
    lemma_top_ranking_complete(user_keys(users[j], users), limit, for_j);
    lemma_user_score_symmetric(users[i], users[j]);
}

} // verus!
