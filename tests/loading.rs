use tag_recommender::record::{parse_id, tags_from_field, user_from_fields};
use tag_recommender::table::{
    find_column, load_posts, load_users, posts_from_rows, users_from_rows, LoadError,
};

fn sorted(mut v: Vec<String>) -> Vec<String> {
    v.sort();
    v
}

#[test]
fn parse_id_accepts_decimal() {
    assert_eq!(parse_id("0"), Some(0));
    assert_eq!(parse_id("42"), Some(42));
    assert_eq!(parse_id("+7"), Some(7));
    assert_eq!(parse_id("007"), Some(7));
    assert_eq!(parse_id("4294967295"), Some(4294967295));
}

#[test]
fn parse_id_rejects_others() {
    assert_eq!(parse_id(""), None);
    assert_eq!(parse_id("+"), None);
    assert_eq!(parse_id("abc"), None);
    assert_eq!(parse_id("12a"), None);
    assert_eq!(parse_id("-1"), None);
    assert_eq!(parse_id(" 1"), None);
    assert_eq!(parse_id("4294967296"), None);
    assert_eq!(parse_id("99999999999999999999"), None);
}

#[test]
fn tags_from_field_normalizes_and_dedups() {
    let t = tags_from_field("tech, gaming,Music_, TECH,music");
    assert_eq!(sorted(t), vec!["gaming", "music", "tech"]);
}

#[test]
fn tags_from_field_keeps_empty_pieces() {
    assert_eq!(tags_from_field(""), vec![""]);
    assert_eq!(sorted(tags_from_field("a,,b")), vec!["", "a", "b"]);
}

#[test]
fn user_from_fields_builds_user() {
    let u = user_from_fields(3, "carol".to_string(), " Tech_Gadgets ,techgadgets");
    assert_eq!(u.id, 3);
    assert_eq!(u.username, "carol");
    assert_eq!(u.preferences, vec!["techgadgets"]);
}

#[test]
fn load_users_reads_rows_in_order() {
    let text = "id,username,preferences\n1,alice,\"tech, gaming,Music_\"\n2,bob,cooking\n";
    let users = match load_users(text) {
        Ok(u) => u,
        Err(_) => panic!("load failed"),
    };
    assert_eq!(users.len(), 2);
    assert_eq!(users[0].id, 1);
    assert_eq!(users[0].username, "alice");
    assert_eq!(sorted(users[0].preferences.clone()), vec!["gaming", "music", "tech"]);
    assert_eq!(users[1].id, 2);
    assert_eq!(users[1].preferences, vec!["cooking"]);
}

#[test]
fn load_users_columns_by_header_name() {
    let text = "preferences,id,username,extra\nfood,5,eve,x\n";
    let users = match load_users(text) {
        Ok(u) => u,
        Err(_) => panic!("load failed"),
    };
    assert_eq!(users.len(), 1);
    assert_eq!(users[0].id, 5);
    assert_eq!(users[0].username, "eve");
    assert_eq!(users[0].preferences, vec!["food"]);
}

#[test]
fn load_users_header_only_is_empty() {
    match load_users("id,username,preferences\n") {
        Ok(u) => assert!(u.is_empty()),
        Err(_) => panic!("header-only file must load"),
    }
}

#[test]
fn load_posts_header_only_is_empty() {
    match load_posts("id,title,tags\n") {
        Ok(p) => assert!(p.is_empty()),
        Err(_) => panic!("header-only file must load"),
    }
}

#[test]
fn load_users_non_numeric_id_fails() {
    let text = "id,username,preferences\n1,alice,tech\nabc,bob,cooking\n";
    assert!(matches!(load_users(text), Err(LoadError::InvalidId { row: 1 })));
}

#[test]
fn load_posts_non_numeric_id_fails() {
    let text = "id,title,tags\nx1,Hello,tech\n";
    assert!(matches!(load_posts(text), Err(LoadError::InvalidId { row: 0 })));
}

#[test]
fn load_users_missing_column_fails() {
    let text = "id,name,preferences\n1,alice,tech\n";
    assert!(matches!(load_users(text), Err(LoadError::MissingColumn { row: 0 })));
}

#[test]
fn load_users_bad_id_reported_before_missing_column() {
    let text = "id,name\nq,alice\n";
    assert!(matches!(load_users(text), Err(LoadError::InvalidId { row: 0 })));
}

#[test]
fn load_users_uneven_row_is_csv_error() {
    let text = "id,username,preferences\n1,alice\n";
    assert!(matches!(load_users(text), Err(LoadError::Csv(_))));
}

#[test]
fn load_posts_reads_rows() {
    let text = "id,title,tags\n10,Intro,\"Tech_Gadgets, tech_gadgets\"\n11,Soup,cooking\n";
    let posts = match load_posts(text) {
        Ok(p) => p,
        Err(_) => panic!("load failed"),
    };
    assert_eq!(posts.len(), 2);
    assert_eq!(posts[0].id, 10);
    assert_eq!(posts[0].title, "Intro");
    assert_eq!(posts[0].tags, vec!["techgadgets"]);
    assert_eq!(posts[1].title, "Soup");
}

#[test]
fn load_empty_text_is_empty() {
    match load_users("") {
        Ok(u) => assert!(u.is_empty()),
        Err(_) => panic!("empty text must load"),
    }
}

#[test]
fn rows_without_header_load_nothing() {
    let none: Vec<Vec<String>> = Vec::new();
    assert!(matches!(users_from_rows(&none), Ok(ref u) if u.is_empty()));
    assert!(matches!(posts_from_rows(&none), Ok(ref p) if p.is_empty()));
}

#[test]
fn rows_with_a_needed_column_named_twice_fail() {
    let rows: Vec<Vec<String>> = vec![
        vec!["id".to_string(), "username".to_string(), "preferences".to_string(), "id".to_string()],
        vec!["9".to_string(), "zed".to_string(), "A_b".to_string(), "x".to_string()],
    ];
    assert_eq!(find_column(&rows[0], "id"), Some(0));
    assert_eq!(find_column(&rows[0], "tags"), None);
    assert!(matches!(users_from_rows(&rows), Err(LoadError::DuplicateColumn { row: 0 })));
}

#[test]
fn rows_with_an_unused_column_named_twice_load() {
    let rows: Vec<Vec<String>> = vec![
        vec!["x".to_string(), "id".to_string(), "username".to_string(), "x".to_string(), "preferences".to_string()],
        vec!["1".to_string(), "9".to_string(), "zed".to_string(), "2".to_string(), "A_b".to_string()],
    ];
    match users_from_rows(&rows) {
        Ok(u) => {
            assert_eq!(u.len(), 1);
            assert_eq!(u[0].id, 9);
            assert_eq!(u[0].preferences, vec!["ab"]);
        }
        Err(_) => panic!("rows must load"),
    }
}

#[test]
fn load_bad_id_before_repeated_column_is_invalid_id() {
    let text = "id,title,tags,title\nzz,a,b,c\n";
    assert!(matches!(load_posts(text), Err(LoadError::InvalidId { row: 0 })));
    let text = "title,id,tags,title\na,zz,b,c\n";
    assert!(matches!(load_posts(text), Err(LoadError::InvalidId { row: 0 })));
    let text = "title,tags,title,id\na,b,c,zz\n";
    assert!(matches!(load_posts(text), Err(LoadError::DuplicateColumn { row: 0 })));
    let text = "title,id,tags,title\n";
    assert!(matches!(load_posts(text), Ok(ref p) if p.is_empty()));
}

#[test]
fn parse_id_accepts_hex_prefix() {
    assert_eq!(parse_id("0x1f"), Some(31));
    assert_eq!(parse_id("0xFF"), Some(255));
    assert_eq!(parse_id("0x+a"), Some(10));
    assert_eq!(parse_id("0x0"), Some(0));
    assert_eq!(parse_id("0xffffffff"), Some(4294967295));
    assert_eq!(parse_id("0x100000000"), None);
    assert_eq!(parse_id("0x"), None);
    assert_eq!(parse_id("0xg1"), None);
    assert_eq!(parse_id("0X1f"), None);
    assert_eq!(parse_id("0"), Some(0));
    assert_eq!(parse_id("01"), Some(1));
}

#[test]
fn load_users_reads_hex_ids() {
    match load_users("id,username,preferences\n0x10,hexa,tech\n") {
        Ok(u) => {
            assert_eq!(u.len(), 1);
            assert_eq!(u[0].id, 16);
        }
        Err(_) => panic!("hex id must load"),
    }
}

#[test]
fn loaded_tags_are_canonical() {
    match load_users("id,username,preferences\n1,a,\"_ x,y _, Z\"\n") {
        Ok(u) => assert_eq!(sorted(u[0].preferences.clone()), vec!["x", "y", "z"]),
        Err(_) => panic!("load failed"),
    }
}
