use blog_api::blog_combine::{combine_blog, combine_blogs, find_category};
use blog_api::entities::{Blog, Category, StatusEnum, Tag};

fn blog(id: u128, title: &str, category_id: u128) -> Blog {
    Blog {
        id,
        title: title.to_string(),
        content: "body".to_string(),
        user_id: 1,
        category_id,
        cover_image: None,
        status: StatusEnum::Draft,
        create_time: 0,
        update_time: 0,
    }
}

fn cat(id: u128, name: &str) -> Category {
    Category { id, name: Some(name.to_string()), category_id: None }
}

fn tag(id: u128, name: Option<&str>) -> Tag {
    Tag { id, name: name.map(|s| s.to_string()) }
}

#[test]
fn single_combine_resolves_names() {
    let b = blog(1, "hello", 5);
    let c = Some(cat(5, "tech"));
    let tags = vec![tag(1, Some("rust")), tag(2, None), tag(3, Some("verus"))];
    let view = combine_blog(b, &c, &tags);
    assert!(view.blog.id == 1);
    assert!(view.category.as_deref() == Some("tech"));
    // a tag without a name contributes nothing
    assert!(view.tags == vec!["rust".to_string(), "verus".to_string()]);
}

#[test]
fn missing_category_yields_none_not_error() {
    let b = blog(1, "hello", 5);
    let view = combine_blog(b, &None, &Vec::new());
    assert!(view.category.is_none());
    assert!(view.tags.is_empty());
}

#[test]
fn batch_keeps_order_and_pairing() {
    // three blogs, two sharing a category, disjoint tag sets
    let blogs = vec![blog(1, "a", 5), blog(2, "b", 5), blog(3, "c", 6)];
    let categories = vec![Some(cat(5, "tech")), Some(cat(5, "tech")), None];
    let tag_groups = vec![
        vec![tag(1, Some("one"))],
        Vec::new(),
        vec![tag(2, Some("two")), tag(3, Some("three"))],
    ];
    let views = combine_blogs(blogs, categories, tag_groups);
    assert!(views.len() == 3);
    assert!(views[0].blog.id == 1 && views[1].blog.id == 2 && views[2].blog.id == 3);
    assert!(views[0].category.as_deref() == Some("tech"));
    assert!(views[1].category.as_deref() == Some("tech"));
    assert!(views[2].category.is_none());
    assert!(views[0].tags == vec!["one".to_string()]);
    assert!(views[1].tags.is_empty());
    assert!(views[2].tags == vec!["two".to_string(), "three".to_string()]);
}

#[test]
fn find_category_returns_first_match() {
    let cats = vec![cat(5, "a"), cat(6, "b"), cat(5, "c")];
    assert!(find_category(&cats, 5) == Some(0));
    assert!(find_category(&cats, 6) == Some(1));
    assert!(find_category(&cats, 7).is_none());
}
