//! Combining a blog post with its category name and tag names into the
//! view object a listing returns.
//!
//! The batched form pairs three equally long columns positionally: the
//! blogs, each blog's category lookup result, and each blog's tag group.
//! The output keeps the blog order, one combined view per input blog.

use vstd::prelude::*;

use crate::entities::Blog;
use crate::entities::Category;
use crate::entities::CombineBlog;
use crate::entities::Tag;

verus! {

broadcast use vstd::std_specs::vec::group_vec_axioms, vstd::seq::group_seq_axioms;

/// The names of the tags that have one, in tag order.
pub open spec fn tag_names(tags: Seq<Tag>) -> Seq<String>
    decreases tags.len(),
{
    if tags.len() == 0 {
        Seq::empty()
    } else {
        let rest = tag_names(tags.drop_last());
        match tags.last().name {
            Some(n) => rest.push(n),
            None => rest,
        }
    }
}

/// The category name a lookup result contributes to the combined view:
/// a missing category yields no name, not an error.
pub open spec fn category_name(category: Option<Category>) -> Option<String> {
    match category {
        Some(c) => c.name,
        None => None,
    }
}

/// The names of the given tags, in order.
pub fn collect_tag_names(tags: &Vec<Tag>) -> (r: Vec<String>)
    ensures
        r@ == tag_names(tags@),
{
    let mut out: Vec<String> = Vec::new();
    let mut i: usize = 0;
    while i < tags.len()
        invariant
            i <= tags.len(),
            out@ == tag_names(tags@.take(i as int)),
        decreases tags.len() - i,
    {
        match &tags[i].name {
            Some(n) => out.push(n.clone()),
            None => {},
        }
        proof {
            assert(tags@.take(i as int + 1).drop_last() =~= tags@.take(i as int));
            assert(tags@.take(i as int + 1).last() == tags@[i as int]);
        }
        i = i + 1;
    }
    proof {
        assert(tags@.take(tags@.len() as int) =~= tags@);
    }
    out
}

/// Builds one combined view: the blog itself, the names of its tags, and
/// its category's name if the category was found.
pub fn combine_blog(blog: Blog, category: &Option<Category>, tags: &Vec<Tag>) -> (r: CombineBlog)
    ensures
        r.blog == blog,
        r.tags@ == tag_names(tags@),
        r.category == category_name(*category),
{
    let name = match category {
        Some(c) => match &c.name {
            Some(s) => Some(s.clone()),
            None => None,
        },
        None => None,
    };
    CombineBlog { blog, tags: collect_tag_names(tags), category: name }
}

/// Builds the combined views for a whole listing: the three columns are
/// paired positionally, so the result holds one view per blog, in the
/// blogs' order, each with its own category name and tag names.
pub fn combine_blogs(
    blogs: Vec<Blog>,
    categories: Vec<Option<Category>>,
    tag_groups: Vec<Vec<Tag>>,
) -> (r: Vec<CombineBlog>)
    requires
        blogs@.len() == categories@.len(),
        blogs@.len() == tag_groups@.len(),
    ensures
        r@.len() == blogs@.len(),
        forall|i: int|
            0 <= i < r@.len() ==> (#[trigger] r@[i]).blog == blogs@[i] && r@[i].category
                == category_name(categories@[i]) && r@[i].tags@ == tag_names(tag_groups@[i]@),
{
    let ghost gblogs = blogs@;
    let ghost gcats = categories@;
    let ghost ggroups = tag_groups@;
    let mut blogs = blogs;
    let mut categories = categories;
    let mut tag_groups = tag_groups;
    let mut out: Vec<CombineBlog> = Vec::new();
    proof {
        assert(gblogs.skip(0) =~= gblogs);
        assert(gcats.skip(0) =~= gcats);
        assert(ggroups.skip(0) =~= ggroups);
    }
    while blogs.len() > 0
        invariant
            gblogs.len() == gcats.len(),
            gblogs.len() == ggroups.len(),
            out@.len() + blogs@.len() == gblogs.len(),
            blogs@ == gblogs.skip(out@.len() as int),
            categories@ == gcats.skip(out@.len() as int),
            tag_groups@ == ggroups.skip(out@.len() as int),
            forall|i: int|
                0 <= i < out@.len() ==> (#[trigger] out@[i]).blog == gblogs[i] && out@[i].category
                    == category_name(gcats[i]) && out@[i].tags@ == tag_names(ggroups[i]@),
        decreases blogs.len(),
    {
        let ghost k = out@.len() as int;
        let blog = blogs.remove(0);
        let category = categories.remove(0);
        let tags = tag_groups.remove(0);
        proof {
            assert(blog == gblogs[k]);
            assert(category == gcats[k]);
            assert(tags == ggroups[k]);
            assert(gblogs.skip(k).remove(0) =~= gblogs.skip(k + 1));
            assert(gcats.skip(k).remove(0) =~= gcats.skip(k + 1));
            assert(ggroups.skip(k).remove(0) =~= ggroups.skip(k + 1));
        }
        let view = combine_blog(blog, &category, &tags);
        out.push(view);
    }
    out
}

/// The index of the first category with the given id, the way a lookup by
/// primary key resolves a blog's category.
pub fn find_category(cats: &Vec<Category>, id: u128) -> (r: Option<usize>)
    ensures
        match r {
            Some(i) => i < cats@.len() && cats@[i as int].id == id && (forall|j: int|
                0 <= j < i ==> cats@[j].id != id),
            None => forall|j: int| 0 <= j < cats@.len() ==> cats@[j].id != id,
        },
{
    let mut i: usize = 0;
    while i < cats.len()
        invariant
            i <= cats.len(),
            forall|j: int| 0 <= j < i ==> cats@[j].id != id,
        decreases cats.len() - i,
    {
        if cats[i].id == id {
            return Some(i);
        }
        i = i + 1;
    }
    None
}

} // verus!
