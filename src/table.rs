//! Loading users and posts from comma-separated text with a header row.
use crate::entity::{Post, User};
use crate::record::{all_canonical, field_tags, parse_id, parsed_id, post_from_fields, user_from_fields};
use crate::similarity::{has_tag, tag_set, tag_views};
use vstd::prelude::*;

verus! {

#[verifier::external_type_specification]
#[verifier::external_body]
pub struct ExCsvError(csv::Error);

/// Why a load failed.
pub enum LoadError {
    /// The text is not well-formed comma-separated data.
    Csv(csv::Error),
    /// The header lacks a column that data row `row` (counted from 0) needs.
    MissingColumn { row: usize },
    /// The header names a column that data row `row` (counted from 0) needs
    /// more than once.
    DuplicateColumn { row: usize },
    /// The id field of data row `row` (counted from 0) is not a valid id.
    InvalidId { row: usize },
}

/// What the csv reader makes of a text: its header row and then each data
/// record, as lists of fields; `None` where the reader reports an error.
pub uninterp spec fn csv_rows(text: Seq<char>) -> Option<Seq<Seq<Seq<char>>>>;

/// Relies on `csv::Reader::from_reader` with default settings, its `headers`
/// and its `records`: splits the text into the header row and the data
/// records, or reports the reader's error.
#[verifier::external_body]
fn read_csv_rows(text: &str) -> (r: Result<Vec<Vec<String>>, csv::Error>)
    ensures
        match r {
            Ok(rows) => csv_rows(text@) == Some(rows.deep_view()),
            Err(_) => csv_rows(text@).is_none(),
        },
{
    let mut reader = csv::Reader::from_reader(text.as_bytes());
    let mut rows: Vec<Vec<String>> = Vec::new();
    rows.push(reader.headers()?.iter().map(String::from).collect());
    for record in reader.records() {
        rows.push(record?.iter().map(String::from).collect());
    }
    Ok(rows)
}

/// The place of the first column named `name`.
pub open spec fn column(header: Seq<Seq<char>>, name: Seq<char>) -> Option<int>
    decreases header.len(),
{
    if header.len() == 0 {
        None
    } else {
        match column(header.drop_last(), name) {
            Some(j) => Some(j),
            None => if header.last() == name {
                Some(header.len() - 1)
            } else {
                None
            },
        }
    }
}

pub open spec fn header_row(t: Seq<Seq<Seq<char>>>) -> Seq<Seq<char>> {
    if t.len() == 0 {
        Seq::empty()
    } else {
        t[0]
    }
}

pub open spec fn data_rows(t: Seq<Seq<Seq<char>>>) -> Seq<Seq<Seq<char>>> {
    if t.len() == 0 {
        Seq::empty()
    } else {
        t.drop_first()
    }
}

/// The field of `row` in column `col`, if there is one.
pub open spec fn field_at(row: Seq<Seq<char>>, col: Option<int>) -> Option<Seq<char>> {
    match col {
        Some(c) => if 0 <= c < row.len() {
            Some(row[c])
        } else {
            None
        },
        None => None,
    }
}

/// The first column of `header` that repeats the name of an earlier one,
/// where that name is `id`, `name` or `tags`.
pub open spec fn first_duplicate(header: Seq<Seq<char>>, name: Seq<char>, tags: Seq<char>) -> Option<
    int,
>
    decreases header.len(),
{
    if header.len() == 0 {
        None
    } else {
        match first_duplicate(header.drop_last(), name, tags) {
            Some(j) => Some(j),
            None => {
                let x = header.last();
                if (x == "id"@ || x == name || x == tags) && header.drop_last().contains(x) {
                    Some(header.len() - 1)
                } else {
                    None
                }
            },
        }
    }
}

/// The id, name and tag field of data row `i`, given the places of the id,
/// name and tag columns and of the first repeated column name; or the error
/// the row gives. Columns are read from left to right: an invalid id before
/// the repeated column fails as an invalid id, the repeat fails next, and a
/// missing column is reported last.
pub open spec fn row_result(
    row: Seq<Seq<char>>,
    id_col: Option<int>,
    name_col: Option<int>,
    tags_col: Option<int>,
    dup: Option<int>,
    i: int,
) -> Result<(u32, Seq<char>, Seq<char>), LoadError> {
    let bad_id_first = match (id_col, field_at(row, id_col)) {
        (Some(p), Some(f)) => parsed_id(f) is None && (dup is None || p < dup->0),
        _ => false,
    };
    if bad_id_first {
        Err(LoadError::InvalidId { row: i as usize })
    } else if dup is Some {
        Err(LoadError::DuplicateColumn { row: i as usize })
    } else {
        match field_at(row, id_col) {
            None => Err(LoadError::MissingColumn { row: i as usize }),
            Some(f) => match parsed_id(f) {
                None => Err(LoadError::InvalidId { row: i as usize }),
                Some(id) => match (field_at(row, name_col), field_at(row, tags_col)) {
                    (Some(n), Some(g)) => Ok((id, n, g)),
                    _ => Err(LoadError::MissingColumn { row: i as usize }),
                },
            },
        }
    }
}

/// The id, name and tag field of data row `i` of `t`, whose name and tag
/// columns are called `name` and `tags`; or the error that row gives.
pub open spec fn row_fields(t: Seq<Seq<Seq<char>>>, name: Seq<char>, tags: Seq<char>, i: int) -> Result<
    (u32, Seq<char>, Seq<char>),
    LoadError,
> {
    let h = header_row(t);
    row_result(
        data_rows(t)[i],
        column(h, "id"@),
        column(h, name),
        column(h, tags),
        first_duplicate(h, name, tags),
        i,
    )
}

/// Every data row of `t` yields its fields.
pub open spec fn all_rows_ok(t: Seq<Seq<Seq<char>>>, name: Seq<char>, tags: Seq<char>) -> bool {
    forall|i: int| 0 <= i < data_rows(t).len() ==> (#[trigger] row_fields(t, name, tags, i)) is Ok
}

/// `e` is the error of the first data row of `t` that fails.
pub open spec fn first_row_error(
    t: Seq<Seq<Seq<char>>>,
    name: Seq<char>,
    tags: Seq<char>,
    e: LoadError,
) -> bool {
    exists|i: int|
        0 <= i < data_rows(t).len() && (forall|j: int|
            0 <= j < i ==> (#[trigger] row_fields(t, name, tags, j)) is Ok) && row_fields(
            t,
            name,
            tags,
            i,
        ) == Err::<(u32, Seq<char>, Seq<char>), LoadError>(e)
}

/// A user built from fields `f`: its id and name, and the canonical tags
/// of its preference field, each once.
pub open spec fn user_of_fields(u: User, f: (u32, Seq<char>, Seq<char>)) -> bool {
    &&& u.id == f.0
    &&& u.username@ == f.1
    &&& tag_views(u.preferences@).no_duplicates()
    &&& all_canonical(u.preferences@)
    &&& tag_set(u.preferences@) == field_tags(f.2)
}

pub open spec fn post_of_fields(p: Post, f: (u32, Seq<char>, Seq<char>)) -> bool {
    &&& p.id == f.0
    &&& p.title@ == f.1
    &&& tag_views(p.tags@).no_duplicates()
    &&& all_canonical(p.tags@)
    &&& tag_set(p.tags@) == field_tags(f.2)
}

/// `r` is what loading users from the rows `t` gives: one user per data row,
/// in order, or the error of the first row that fails.
pub open spec fn users_loaded(t: Seq<Seq<Seq<char>>>, r: Result<Vec<User>, LoadError>) -> bool {
    match r {
        Ok(users) => all_rows_ok(t, "username"@, "preferences"@) && users@.len() == data_rows(
            t,
        ).len() && forall|i: int|
            0 <= i < users@.len() ==> user_of_fields(
                #[trigger] users@[i],
                row_fields(t, "username"@, "preferences"@, i)->Ok_0,
            ),
        Err(e) => first_row_error(t, "username"@, "preferences"@, e),
    }
}

/// `r` is what loading posts from the rows `t` gives.
pub open spec fn posts_loaded(t: Seq<Seq<Seq<char>>>, r: Result<Vec<Post>, LoadError>) -> bool {
    match r {
        Ok(posts) => all_rows_ok(t, "title"@, "tags"@) && posts@.len() == data_rows(t).len()
            && forall|i: int|
            0 <= i < posts@.len() ==> post_of_fields(
                #[trigger] posts@[i],
                row_fields(t, "title"@, "tags"@, i)->Ok_0,
            ),
        Err(e) => first_row_error(t, "title"@, "tags"@, e),
    }
}

/// Whether two strings hold the same characters.
pub fn same_text(a: &str, b: &str) -> (r: bool)
    ensures
        r == (a@ == b@),
{
    let n = a.unicode_len();
    if n != b.unicode_len() {
        return false;
    }
    let mut k: usize = 0;
    while k < n
        invariant
            n == a@.len(),
            n == b@.len(),
            k <= n,
            forall|j: int| 0 <= j < k ==> a@[j] == b@[j],
        decreases n - k,
    {
        if a.get_char(k) != b.get_char(k) {
            return false;
        }
        k = k + 1;
    }
    assert(a@ =~= b@);
    true
}

/// The place of the first column of `header` named `name`.
pub fn find_column(header: &Vec<String>, name: &str) -> (r: Option<usize>)
    ensures
        r matches Some(c) ==> column(header.deep_view(), name@) == Some(c as int),
        r is None ==> column(header.deep_view(), name@) is None,
{
    let ghost h = header.deep_view();
    let mut j: usize = 0;
    while j < header.len()
        invariant
            h == header.deep_view(),
            j <= h.len(),
            column(h.subrange(0, j as int), name@) is None,
        decreases h.len() - j,
    {
        proof {
            assert(h.subrange(0, j + 1).drop_last() =~= h.subrange(0, j as int));
        }
        if same_text(header[j].as_str(), name) {
            proof {
                lemma_column_prefix(h, j + 1, name@);
            }
            return Some(j);
        }
        j = j + 1;
    }
    assert(h.subrange(0, j as int) =~= h);
    None
}

proof fn lemma_column_prefix(h: Seq<Seq<char>>, k: int, name: Seq<char>)
    requires
        0 <= k <= h.len(),
        column(h.subrange(0, k), name) is Some,
    ensures
        column(h, name) == column(h.subrange(0, k), name),
    decreases h.len() - k,
{
    if k < h.len() {
        assert(h.subrange(0, k + 1).drop_last() =~= h.subrange(0, k));
        lemma_column_prefix(h, k + 1, name);
    } else {
        assert(h.subrange(0, k) =~= h);
    }
}

/// The field of `row` in column `col`.
fn field_of(row: &Vec<String>, col: Option<usize>) -> (r: Option<&String>)
    ensures
        match r {
            Some(f) => field_at(row.deep_view(), opt_int(col)) == Some(f@),
            None => field_at(row.deep_view(), opt_int(col)) is None,
        },
{
    match col {
        Some(c) => if c < row.len() {
            Some(&row[c])
        } else {
            None
        },
        None => None,
    }
}

pub open spec fn opt_int(c: Option<usize>) -> Option<int> {
    match c {
        Some(x) => Some(x as int),
        None => None,
    }
}

/// The id, name and tag field of one data row, given the columns found in
/// the header.
fn read_row(
    row: &Vec<String>,
    id_col: Option<usize>,
    name_col: Option<usize>,
    tags_col: Option<usize>,
    dup: Option<usize>,
    i: usize,
) -> (r: Result<(u32, String, String), LoadError>)
    ensures
        match r {
            Ok(f) => row_result(
                row.deep_view(),
                opt_int(id_col),
                opt_int(name_col),
                opt_int(tags_col),
                opt_int(dup),
                i as int,
            ) == Ok::<(u32, Seq<char>, Seq<char>), LoadError>((f.0, f.1@, f.2@)),
            Err(e) => row_result(
                row.deep_view(),
                opt_int(id_col),
                opt_int(name_col),
                opt_int(tags_col),
                opt_int(dup),
                i as int,
            ) == Err::<(u32, Seq<char>, Seq<char>), LoadError>(e),
        },
{
    let idf = field_of(row, id_col);
    let id = match idf {
        Some(f) => parse_id(f.as_str()),
        None => None,
    };
    if let (Some(p), Some(_)) = (id_col, idf) {
        if id.is_none() {
            let before_dup = match dup {
                Some(d) => p < d,
                None => true,
            };
            if before_dup {
                return Err(LoadError::InvalidId { row: i });
            }
        }
    }
    if dup.is_some() {
        return Err(LoadError::DuplicateColumn { row: i });
    }
    if idf.is_none() {
        return Err(LoadError::MissingColumn { row: i });
    }
    let id = match id {
        Some(id) => id,
        None => return Err(LoadError::InvalidId { row: i }),
    };
    match (field_of(row, name_col), field_of(row, tags_col)) {
        (Some(n), Some(g)) => Ok((id, n.clone(), g.clone())),
        _ => Err(LoadError::MissingColumn { row: i }),
    }
}

/// The place of the first column of `header` that repeats the name of an
/// earlier column, where that name is `id`, `name` or `tags`.
pub fn find_duplicate(header: &Vec<String>, name: &str, tags: &str) -> (r: Option<usize>)
    ensures
        opt_int(r) == first_duplicate(header.deep_view(), name@, tags@),
{
    let ghost h = header.deep_view();
    let mut c: usize = 0;
    while c < header.len()
        invariant
            h == header.deep_view(),
            c <= h.len(),
            first_duplicate(h.subrange(0, c as int), name@, tags@) is None,
        decreases h.len() - c,
    {
        let x = header[c].as_str();
        let ghost p = h.subrange(0, c as int);
        proof {
            assert(h.subrange(0, c + 1).drop_last() =~= p);
            assert(h.subrange(0, c + 1).last() == h[c as int]);
        }
        if same_text(x, "id") || same_text(x, name) || same_text(x, tags) {
            let seen = has_tag(header, c, &header[c]);
            proof {
                if seen {
                    let j = choose|j: int| 0 <= j < c && (#[trigger] header@[j])@ == header@[c as int]@;
                    assert(p[j] == h[c as int]);
                }
                if p.contains(h[c as int]) {
                    let j = choose|j: int| 0 <= j < p.len() && p[j] == h[c as int];
                    assert(header@[j]@ == p[j]);
                }
            }
            if seen {
                proof {
                    lemma_duplicate_prefix(h, c + 1, name@, tags@);
                }
                return Some(c);
            }
        }
        c = c + 1;
    }
    assert(h.subrange(0, c as int) =~= h);
    None
}

proof fn lemma_duplicate_prefix(h: Seq<Seq<char>>, k: int, name: Seq<char>, tags: Seq<char>)
    requires
        0 <= k <= h.len(),
        first_duplicate(h.subrange(0, k), name, tags) is Some,
    ensures
        first_duplicate(h, name, tags) == first_duplicate(h.subrange(0, k), name, tags),
    decreases h.len() - k,
{
    if k < h.len() {
        assert(h.subrange(0, k + 1).drop_last() =~= h.subrange(0, k));
        lemma_duplicate_prefix(h, k + 1, name, tags);
    } else {
        assert(h.subrange(0, k) =~= h);
    }
}

/// The users of rows read from comma-separated text: the first row names the
/// columns, each later row gives one user by its `id`, `username` and `preferences`
/// columns. Fails with the error of the first row that lacks a column, finds
/// a needed column named twice, or holds an invalid id.
pub fn users_from_rows(rows: &Vec<Vec<String>>) -> (r: Result<Vec<User>, LoadError>)
    ensures
        users_loaded(rows.deep_view(), r),
{
    let ghost t = rows.deep_view();
    let mut out: Vec<User> = Vec::new();
    if rows.len() == 0 {
        return Ok(out);
    }
    let id_col = find_column(&rows[0], "id");
    let name_col = find_column(&rows[0], "username");
    let tags_col = find_column(&rows[0], "preferences");
    let dup = find_duplicate(&rows[0], "username", "preferences");
    assert(header_row(t) == rows@[0].deep_view());
    let mut i: usize = 0;
    while i < rows.len() - 1
        invariant
            t == rows.deep_view(),
            rows@.len() >= 1,
            i < rows@.len(),
            data_rows(t).len() == rows@.len() - 1,
            opt_int(id_col) == column(header_row(t), "id"@),
            opt_int(name_col) == column(header_row(t), "username"@),
            opt_int(tags_col) == column(header_row(t), "preferences"@),
            opt_int(dup) == first_duplicate(header_row(t), "username"@, "preferences"@),
            out@.len() == i,
            forall|j: int| 0 <= j < i ==> (#[trigger] row_fields(t, "username"@, "preferences"@, j)) is Ok,
            forall|j: int|
                0 <= j < i ==> user_of_fields(
                    #[trigger] out@[j],
                    row_fields(t, "username"@, "preferences"@, j)->Ok_0,
                ),
        decreases rows@.len() - i,
    {
        assert(data_rows(t)[i as int] == rows@[i + 1].deep_view());
        match read_row(&rows[i + 1], id_col, name_col, tags_col, dup, i) {
            Ok(f) => {
                let e = user_from_fields(f.0, f.1, f.2.as_str());
                out.push(e);
            },
            Err(e) => {
                assert(row_fields(t, "username"@, "preferences"@, i as int) == Err::<(u32, Seq<char>, Seq<char>), LoadError>(e));
                return Err(e);
            },
        }
        i = i + 1;
    }
    Ok(out)
}

/// The users in comma-separated text with a header row: a csv error where
/// the text is malformed, else as `users_from_rows` gives.
pub fn load_users(text: &str) -> (r: Result<Vec<User>, LoadError>)
    ensures
        match csv_rows(text@) {
            None => r matches Err(LoadError::Csv(_)),
            Some(t) => users_loaded(t, r),
        },
{
    match read_csv_rows(text) {
        Ok(rows) => users_from_rows(&rows),
        Err(e) => Err(LoadError::Csv(e)),
    }
}

/// The posts of rows read from comma-separated text: the first row names the
/// columns, each later row gives one post by its `id`, `title` and `tags`
/// columns. Fails with the error of the first row that lacks a column, finds
/// a needed column named twice, or holds an invalid id.
pub fn posts_from_rows(rows: &Vec<Vec<String>>) -> (r: Result<Vec<Post>, LoadError>)
    ensures
        posts_loaded(rows.deep_view(), r),
{
    let ghost t = rows.deep_view();
    let mut out: Vec<Post> = Vec::new();
    if rows.len() == 0 {
        return Ok(out);
    }
    let id_col = find_column(&rows[0], "id");
    let name_col = find_column(&rows[0], "title");
    let tags_col = find_column(&rows[0], "tags");
    let dup = find_duplicate(&rows[0], "title", "tags");
    assert(header_row(t) == rows@[0].deep_view());
    let mut i: usize = 0;
    while i < rows.len() - 1
        invariant
            t == rows.deep_view(),
            rows@.len() >= 1,
            i < rows@.len(),
            data_rows(t).len() == rows@.len() - 1,
            opt_int(id_col) == column(header_row(t), "id"@),
            opt_int(name_col) == column(header_row(t), "title"@),
            opt_int(tags_col) == column(header_row(t), "tags"@),
            opt_int(dup) == first_duplicate(header_row(t), "title"@, "tags"@),
            out@.len() == i,
            forall|j: int| 0 <= j < i ==> (#[trigger] row_fields(t, "title"@, "tags"@, j)) is Ok,
            forall|j: int|
                0 <= j < i ==> post_of_fields(
                    #[trigger] out@[j],
                    row_fields(t, "title"@, "tags"@, j)->Ok_0,
                ),
        decreases rows@.len() - i,
    {
        assert(data_rows(t)[i as int] == rows@[i + 1].deep_view());
        match read_row(&rows[i + 1], id_col, name_col, tags_col, dup, i) {
            Ok(f) => {
                let e = post_from_fields(f.0, f.1, f.2.as_str());
                out.push(e);
            },
            Err(e) => {
                assert(row_fields(t, "title"@, "tags"@, i as int) == Err::<(u32, Seq<char>, Seq<char>), LoadError>(e));
                return Err(e);
            },
        }
        i = i + 1;
    }
    Ok(out)
}

/// The posts in comma-separated text with a header row: a csv error where
/// the text is malformed, else as `posts_from_rows` gives.
pub fn load_posts(text: &str) -> (r: Result<Vec<Post>, LoadError>)
    ensures
        match csv_rows(text@) {
            None => r matches Err(LoadError::Csv(_)),
            Some(t) => posts_loaded(t, r),
        },
{
    match read_csv_rows(text) {
        Ok(rows) => posts_from_rows(&rows),
        Err(e) => Err(LoadError::Csv(e)),
    }
}

/// Rows that hold a header and no data load as no users, without error.
pub proof fn lemma_header_only_users(t: Seq<Seq<Seq<char>>>, r: Result<Vec<User>, LoadError>)
    requires
        t.len() <= 1,
        users_loaded(t, r),
    ensures
        r matches Ok(users) && users@.len() == 0,
{
}

/// Rows that hold a header and no data load as no posts, without error.
pub proof fn lemma_header_only_posts(t: Seq<Seq<Seq<char>>>, r: Result<Vec<Post>, LoadError>)
    requires
        t.len() <= 1,
        posts_loaded(t, r),
    ensures
        r matches Ok(posts) && posts@.len() == 0,
{
}

/// A data row whose id field is not a valid id makes the whole load of
/// users fail: no users are returned. Where it is the first row that fails
/// and the header names no needed column twice, the error names it as an
/// invalid id.
pub proof fn lemma_bad_id_fails_users(t: Seq<Seq<Seq<char>>>, r: Result<Vec<User>, LoadError>, i: int)
    requires
        users_loaded(t, r),
        0 <= i < data_rows(t).len(),
        field_at(data_rows(t)[i], column(header_row(t), "id"@)) matches Some(f) && parsed_id(
            f,
        ) is None,
    ensures
        r is Err,
        first_duplicate(header_row(t), "username"@, "preferences"@) is None && (forall|j: int|
            0 <= j < i ==> (#[trigger] row_fields(t, "username"@, "preferences"@, j)) is Ok) ==> r == Err::<
            Vec<User>,
            LoadError,
        >(LoadError::InvalidId { row: i as usize }),
{
    assert(row_fields(t, "username"@, "preferences"@, i) is Err);
    if r is Err {
        let e = r->Err_0;
        let k = choose|k: int|
            0 <= k < data_rows(t).len() && (forall|j: int|
                0 <= j < k ==> (#[trigger] row_fields(t, "username"@, "preferences"@, j)) is Ok)
                && row_fields(t, "username"@, "preferences"@, k) == Err::<(u32, Seq<char>, Seq<char>), LoadError>(e);
        if first_duplicate(header_row(t), "username"@, "preferences"@) is None && forall|j: int|
            0 <= j < i ==> (#[trigger] row_fields(t, "username"@, "preferences"@, j)) is Ok {
            if k < i {
                assert(row_fields(t, "username"@, "preferences"@, k) is Ok);
            } else if k > i {
                assert(row_fields(t, "username"@, "preferences"@, i) is Ok);
            }
        }
    }
}

/// The same for posts.
pub proof fn lemma_bad_id_fails_posts(t: Seq<Seq<Seq<char>>>, r: Result<Vec<Post>, LoadError>, i: int)
    requires
        posts_loaded(t, r),
        0 <= i < data_rows(t).len(),
        field_at(data_rows(t)[i], column(header_row(t), "id"@)) matches Some(f) && parsed_id(
            f,
        ) is None,
    ensures
        r is Err,
        first_duplicate(header_row(t), "title"@, "tags"@) is None && (forall|j: int|
            0 <= j < i ==> (#[trigger] row_fields(t, "title"@, "tags"@, j)) is Ok) ==> r == Err::<
            Vec<Post>,
            LoadError,
        >(LoadError::InvalidId { row: i as usize }),
{
    assert(row_fields(t, "title"@, "tags"@, i) is Err);
    if r is Err {
        let e = r->Err_0;
        let k = choose|k: int|
            0 <= k < data_rows(t).len() && (forall|j: int|
                0 <= j < k ==> (#[trigger] row_fields(t, "title"@, "tags"@, j)) is Ok)
                && row_fields(t, "title"@, "tags"@, k) == Err::<(u32, Seq<char>, Seq<char>), LoadError>(e);
        if first_duplicate(header_row(t), "title"@, "tags"@) is None && forall|j: int|
            0 <= j < i ==> (#[trigger] row_fields(t, "title"@, "tags"@, j)) is Ok {
            if k < i {
                assert(row_fields(t, "title"@, "tags"@, k) is Ok);
            } else if k > i {
                assert(row_fields(t, "title"@, "tags"@, i) is Ok);
            }
        }
    }
}

} // verus!
