use tag_recommender::entity::{Post, User};
use tag_recommender::normalize::normalize_tag;
use tag_recommender::ranking::top_ranked;
use tag_recommender::recommend::{recommended_posts, recommended_users};
use tag_recommender::similarity::score;

fn tags(v: &[&str]) -> Vec<String> {
    v.iter().map(|s| s.to_string()).collect()
}

fn user(id: u32, name: &str, prefs: &[&str]) -> User {
    User { id, username: name.to_string(), preferences: tags(prefs) }
}

fn post(id: u32, title: &str, t: &[&str]) -> Post {
    Post { id, title: title.to_string(), tags: tags(t) }
}

fn post_ids(v: &[Post]) -> Vec<u32> {
    v.iter().map(|p| p.id).collect()
}

fn user_ids(v: &[User]) -> Vec<u32> {
    v.iter().map(|u| u.id).collect()
}

#[test]
fn normalize_ignores_case_whitespace_underscores() {
    assert_eq!(normalize_tag(" Tech_Gadgets "), "techgadgets");
    assert_eq!(normalize_tag("techgadgets"), "techgadgets");
    assert_eq!(normalize_tag("\tMUSIC_\n"), "music");
    assert_eq!(normalize_tag("a_b_c"), "abc");
}

#[test]
fn normalize_empty_and_blank() {
    assert_eq!(normalize_tag(""), "");
    assert_eq!(normalize_tag("   "), "");
    assert_eq!(normalize_tag("___"), "");
}

#[test]
fn normalize_twice_is_once() {
    for raw in [" Tech_Gadgets ", "GAMING", "  mixed Case_Words ", "x"] {
        let once = normalize_tag(raw);
        assert_eq!(normalize_tag(&once), once);
    }
}

#[test]
fn normalize_underscore_next_to_space_still_trims() {
    assert_eq!(normalize_tag("_ a"), "a");
    assert_eq!(normalize_tag("a _"), "a");
    assert_eq!(normalize_tag(" a"), "a");
    assert_eq!(normalize_tag("t_e_c_h"), normalize_tag("tech"));
}

#[test]
fn normalize_keeps_non_ascii_letters() {
    assert_eq!(normalize_tag(" Ünï_Code\u{3000}"), "Ünïcode");
}

#[test]
fn score_counts_shared_tags() {
    let a = tags(&["tech", "gaming", "music"]);
    let b = tags(&["music", "tech", "cooking"]);
    assert_eq!(score(&a, &b), 2);
    assert_eq!(score(&b, &a), 2);
}

#[test]
fn score_of_set_with_itself_and_empty() {
    let a = tags(&["tech", "gaming", "music"]);
    let empty: Vec<String> = Vec::new();
    assert_eq!(score(&a, &a), 3);
    assert_eq!(score(&a, &empty), 0);
    assert_eq!(score(&empty, &a), 0);
    assert_eq!(score(&empty, &empty), 0);
}

#[test]
fn score_counts_repeated_tags_once() {
    let a = tags(&["tech", "tech", "gaming"]);
    let b = tags(&["tech", "tech"]);
    assert_eq!(score(&a, &b), 1);
    assert_eq!(score(&a, &a), 2);
}

#[test]
fn score_disjoint_is_zero() {
    assert_eq!(score(&tags(&["a", "b"]), &tags(&["c"])), 0);
}

#[test]
fn recommend_posts_scenario_orders_by_score() {
    let a = user(1, "A", &["tech", "gaming"]);
    let posts = vec![
        post(1, "post1", &["tech", "music"]),
        post(2, "post2", &["gaming", "tech"]),
        post(3, "post3", &["cooking"]),
    ];
    let r = recommended_posts(&a, &posts, 5);
    assert_eq!(post_ids(&r), vec![2, 1]);
    assert_eq!(r[0].title, "post2");
    assert_eq!(r[0].tags, tags(&["gaming", "tech"]));
}

#[test]
fn recommend_posts_respects_limit() {
    let a = user(1, "A", &["tech", "gaming"]);
    let posts = vec![
        post(1, "post1", &["tech", "music"]),
        post(2, "post2", &["gaming", "tech"]),
        post(3, "post3", &["gaming"]),
    ];
    assert_eq!(post_ids(&recommended_posts(&a, &posts, 1)), vec![2]);
    assert_eq!(post_ids(&recommended_posts(&a, &posts, 2)), vec![2, 1]);
    assert!(recommended_posts(&a, &posts, 0).is_empty());
}

#[test]
fn recommend_posts_ties_keep_pool_order() {
    let a = user(1, "A", &["x", "y"]);
    let posts = vec![
        post(10, "p10", &["x"]),
        post(11, "p11", &["y"]),
        post(12, "p12", &["x", "y"]),
        post(13, "p13", &["x"]),
    ];
    assert_eq!(post_ids(&recommended_posts(&a, &posts, 10)), vec![12, 10, 11, 13]);
}

#[test]
fn recommend_posts_empty_preferences_gives_nothing() {
    let a = user(1, "A", &[]);
    let posts = vec![post(1, "post1", &["tech"])];
    assert!(recommended_posts(&a, &posts, 5).is_empty());
    assert!(recommended_posts(&user(1, "A", &["tech"]), &[], 5).is_empty());
}

#[test]
fn recommend_users_excludes_self() {
    let a = user(1, "A", &["tech", "gaming"]);
    let users = vec![
        user(1, "A", &["tech", "gaming"]),
        user(2, "B", &["tech"]),
        user(3, "C", &["cooking"]),
        user(4, "D", &["gaming", "tech", "music"]),
    ];
    let r = recommended_users(&a, &users, 5);
    assert_eq!(user_ids(&r), vec![4, 2]);
    assert_eq!(r[0].username, "D");
}

#[test]
fn recommend_users_excludes_every_entry_with_own_id() {
    let a = user(7, "A", &["tech"]);
    let users = vec![user(7, "A2", &["tech"]), user(8, "B", &["tech"]), user(7, "A3", &["tech"])];
    assert_eq!(user_ids(&recommended_users(&a, &users, 5)), vec![8]);
}

#[test]
fn recommend_users_limit_and_order() {
    let a = user(0, "A", &["a", "b", "c"]);
    let users = vec![
        user(1, "u1", &["a"]),
        user(2, "u2", &["a", "b", "c"]),
        user(3, "u3", &["b", "c"]),
        user(4, "u4", &["c"]),
        user(5, "u5", &["z"]),
    ];
    assert_eq!(user_ids(&recommended_users(&a, &users, 3)), vec![2, 3, 1]);
    assert_eq!(user_ids(&recommended_users(&a, &users, 10)), vec![2, 3, 1, 4]);
    assert!(recommended_users(&a, &users, 0).is_empty());
}

#[test]
fn top_ranked_orders_positive_scores() {
    assert_eq!(top_ranked(&vec![1, 0, 3, 1, 2], 10), vec![2, 4, 0, 3]);
    assert_eq!(top_ranked(&vec![1, 0, 3, 1, 2], 2), vec![2, 4]);
    assert_eq!(top_ranked(&vec![0, 0], 2), Vec::<usize>::new());
    assert_eq!(top_ranked(&vec![], 3), Vec::<usize>::new());
    assert_eq!(top_ranked(&vec![5, 5, 5], 3), vec![0, 1, 2]);
}

#[test]
fn recommend_users_is_mutual_with_full_limit() {
    let users = vec![
        user(1, "a", &["x", "y"]),
        user(2, "b", &["y"]),
        user(3, "c", &["z"]),
        user(4, "d", &["x", "z"]),
    ];
    for a in &users {
        for b in &users {
            if a.id == b.id {
                continue;
            }
            let a_has_b = recommended_users(a, &users, users.len()).iter().any(|u| u.id == b.id);
            let b_has_a = recommended_users(b, &users, users.len()).iter().any(|u| u.id == a.id);
            assert_eq!(a_has_b, b_has_a);
        }
    }
}

#[test]
fn own_tags_score_highest() {
    let a = user(1, "a", &["x", "y"]);
    let posts = vec![post(5, "other", &["x"]), post(6, "same", &["y", "x"])];
    let r = recommended_posts(&a, &posts, 1);
    assert_eq!(post_ids(&r), vec![6]);
    assert_eq!(score(&a.preferences, &a.preferences), 2);
}
