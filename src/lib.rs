//! Tag-overlap recommendations for users and posts.
pub mod normalize;
pub mod similarity;
pub mod ranking;
pub mod entity;
pub mod recommend;
pub mod record;
pub mod table;
