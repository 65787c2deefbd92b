//! The data model: categories (with parent links), blogs, tags, the
//! blog-tag join row, users, and the auth claims. Identifiers are held as
//! 128-bit integers, the plain value of a UUID.

use vstd::prelude::*;

verus! {

/// A category row. `category_id` links a child to its parent category;
/// `None` marks a root.
#[derive(Clone)]
pub struct Category {
    pub id: u128,
    pub name: Option<String>,
    pub category_id: Option<u128>,
}

impl Category {
    /// An exact copy, field for field.
    pub fn duplicate(&self) -> (r: Category)
        ensures
            r == *self,
    {
        let name = match &self.name {
            Some(s) => Some(s.clone()),
            None => None,
        };
        Category { id: self.id, name, category_id: self.category_id }
    }
}

/// A node of the assembled category forest: a category together with its
/// recursively resolved children.
pub struct TreeModel {
    pub category: Category,
    pub children: Vec<TreeModel>,
}

/// Publication state of a blog post.
#[derive(Clone, Copy, PartialEq, Eq, Structural)]
pub enum StatusEnum {
    Draft,
    Pend,
    Post,
}

/// A blog post row. Times are unix timestamps.
#[derive(Clone)]
pub struct Blog {
    pub id: u128,
    pub title: String,
    pub content: String,
    pub user_id: u128,
    pub category_id: u128,
    pub cover_image: Option<String>,
    pub status: StatusEnum,
    pub create_time: i64,
    pub update_time: i64,
}

/// A tag row; the name column is nullable.
#[derive(Clone)]
pub struct Tag {
    pub id: u128,
    pub name: Option<String>,
}

/// One association between a blog and a tag: a join row with a composite
/// key.
#[derive(Clone, Copy, PartialEq, Eq, Structural)]
pub struct BlogTag {
    pub blog_id: u128,
    pub tag_id: u128,
}

/// A registered user.
#[derive(Clone)]
pub struct User {
    pub id: u128,
    pub username: String,
    pub password: String,
    pub email: String,
    pub avatar: Option<String>,
}

/// The payload of an auth token: who the caller is and until when the
/// token is good.
#[derive(Clone)]
pub struct Claims {
    pub user_id: u128,
    pub name: String,
    pub exp: i64,
}

/// A blog post enriched with its tag names and its category name, as one
/// API response row.
#[derive(Clone)]
pub struct CombineBlog {
    pub blog: Blog,
    pub tags: Vec<String>,
    pub category: Option<String>,
}

/// A form value that has passed field validation.
pub struct ValidatedForm<T>(pub T);

} // verus!
