//! Users and posts, each with a set of canonical tags.
use crate::similarity::tag_views;
use vstd::prelude::*;

verus! {

/// A user, with the tags of the topics they prefer.
pub struct User {
    pub id: u32,
    pub username: String,
    pub preferences: Vec<String>,
}

/// A post, with its descriptive tags.
pub struct Post {
    pub id: u32,
    pub title: String,
    pub tags: Vec<String>,
}

pub struct UserView {
    pub id: u32,
    pub username: Seq<char>,
    pub preferences: Seq<Seq<char>>,
}

pub struct PostView {
    pub id: u32,
    pub title: Seq<char>,
    pub tags: Seq<Seq<char>>,
}

impl View for User {
    type V = UserView;

    open spec fn view(&self) -> UserView {
        UserView { id: self.id, username: self.username@, preferences: tag_views(self.preferences@) }
    }
}

impl View for Post {
    type V = PostView;

    open spec fn view(&self) -> PostView {
        PostView { id: self.id, title: self.title@, tags: tag_views(self.tags@) }
    }
}

/// A copy of a list of tags.
pub fn copy_tags(v: &Vec<String>) -> (r: Vec<String>)
    ensures
        r@ == v@,
{
    let mut r: Vec<String> = Vec::new();
    let mut i: usize = 0;
    while i < v.len()
        invariant
            i <= v@.len(),
            r@ == v@.subrange(0, i as int),
        decreases v@.len() - i,
    {
        r.push(v[i].clone());
        i = i + 1;
        assert(r@ =~= v@.subrange(0, i as int));
    }
    assert(v@.subrange(0, v@.len() as int) =~= v@);
    r
}

impl Clone for User {
    fn clone(&self) -> (r: Self)
        ensures
            r@ == self@,
    {
        User { id: self.id, username: self.username.clone(), preferences: copy_tags(&self.preferences) }
    }
}

impl Clone for Post {
    fn clone(&self) -> (r: Self)
        ensures
            r@ == self@,
    {
        Post { id: self.id, title: self.title.clone(), tags: copy_tags(&self.tags) }
    }
}

} // verus!
