//! Reconciling a blog's tag associations.
//!
//! The store holds the blog-tag join rows. Reconciliation brings the rows
//! of one blog to a desired tag-id set: associations not desired any more
//! are removed first, missing ones are added after. Removing an
//! association deletes only the `{blog_id, tag_id}` join row, never a tag
//! itself, so no other blog's associations are touched.

use vstd::prelude::*;

use crate::entities::BlogTag;

verus! {

broadcast use vstd::std_specs::vec::group_vec_axioms, vstd::seq::group_seq_axioms;

/// The tag ids associated with `blog_id`, in row order.
pub open spec fn tag_ids_of(rows: Seq<BlogTag>, blog_id: u128) -> Seq<u128>
    decreases rows.len(),
{
    if rows.len() == 0 {
        Seq::empty()
    } else {
        let rest = tag_ids_of(rows.drop_last(), blog_id);
        if rows.last().blog_id == blog_id {
            rest.push(rows.last().tag_id)
        } else {
            rest
        }
    }
}

/// All rows except `row`, in order: the deletion of one association.
pub open spec fn remove_row(rows: Seq<BlogTag>, row: BlogTag) -> Seq<BlogTag>
    decreases rows.len(),
{
    if rows.len() == 0 {
        Seq::empty()
    } else {
        let rest = remove_row(rows.drop_last(), row);
        if rows.last() == row {
            rest
        } else {
            rest.push(rows.last())
        }
    }
}

/// The removal half of reconciliation: keeps every row except those of
/// `blog_id` whose tag is no longer desired.
pub open spec fn remove_phase(rows: Seq<BlogTag>, blog_id: u128, desired: Seq<u128>) -> Seq<
    BlogTag,
>
    decreases rows.len(),
{
    if rows.len() == 0 {
        Seq::empty()
    } else {
        let rest = remove_phase(rows.drop_last(), blog_id, desired);
        let r = rows.last();
        if r.blog_id == blog_id && !desired.contains(r.tag_id) {
            rest
        } else {
            rest.push(r)
        }
    }
}

/// The addition half of reconciliation: appends a join row for each
/// desired tag that has none yet, in the desired order.
pub open spec fn add_phase(rows: Seq<BlogTag>, blog_id: u128, desired: Seq<u128>) -> Seq<BlogTag>
    decreases desired.len(),
{
    if desired.len() == 0 {
        rows
    } else {
        let row = BlogTag { blog_id, tag_id: desired[0] };
        let grown = if rows.contains(row) {
            rows
        } else {
            rows.push(row)
        };
        add_phase(grown, blog_id, desired.drop_first())
    }
}

/// The whole reconciliation: remove first, then add.
pub open spec fn reconcile_spec(rows: Seq<BlogTag>, blog_id: u128, desired: Seq<u128>) -> Seq<
    BlogTag,
> {
    add_phase(remove_phase(rows, blog_id, desired), blog_id, desired)
}

proof fn lemma_push_contains<T>(s: Seq<T>, x: T, r: T)
    ensures
        s.push(x).contains(r) <==> (s.contains(r) || r == x),
{
    if s.push(x).contains(r) {
        let i = choose|i: int| 0 <= i < s.push(x).len() && s.push(x)[i] == r;
        if i < s.len() {
            assert(s[i] == r);
        }
    }
    if s.contains(r) {
        let i = choose|i: int| 0 <= i < s.len() && s[i] == r;
        assert(s.push(x)[i] == r);
    }
    if r == x {
        assert(s.push(x)[s.len() as int] == r);
    }
}

/// A join row for `blog_id` with tag `t` exists exactly when `t` is among
/// the blog's tag ids.
proof fn lemma_row_iff_tag(rows: Seq<BlogTag>, blog_id: u128, t: u128)
    ensures
        rows.contains(BlogTag { blog_id, tag_id: t }) <==> tag_ids_of(rows, blog_id).contains(t),
    decreases rows.len(),
{
    if rows.len() > 0 {
        lemma_row_iff_tag(rows.drop_last(), blog_id, t);
        lemma_push_contains(rows.drop_last(), rows.last(), BlogTag { blog_id, tag_id: t });
        assert(rows.drop_last().push(rows.last()) =~= rows);
        if rows.last().blog_id == blog_id {
            lemma_push_contains(
                tag_ids_of(rows.drop_last(), blog_id),
                rows.last().tag_id,
                t,
            );
        }
    }
}

/// Membership after the removal half: a row survives exactly when it was
/// there and is not an undesired row of the blog.
proof fn lemma_remove_phase_contains(rows: Seq<BlogTag>, blog_id: u128, desired: Seq<u128>, r: BlogTag)
    ensures
        remove_phase(rows, blog_id, desired).contains(r) <==> (rows.contains(r) && !(r.blog_id
            == blog_id && !desired.contains(r.tag_id))),
    decreases rows.len(),
{
    if rows.len() > 0 {
        lemma_remove_phase_contains(rows.drop_last(), blog_id, desired, r);
        lemma_push_contains(rows.drop_last(), rows.last(), r);
        assert(rows.drop_last().push(rows.last()) =~= rows);
        let last = rows.last();
        if !(last.blog_id == blog_id && !desired.contains(last.tag_id)) {
            lemma_push_contains(remove_phase(rows.drop_last(), blog_id, desired), last, r);
        }
    }
}

/// Membership after the addition half: a row is present exactly when it
/// was, or it is a row of the blog for a desired tag.
proof fn lemma_add_phase_contains(rows: Seq<BlogTag>, blog_id: u128, desired: Seq<u128>, r: BlogTag)
    ensures
        add_phase(rows, blog_id, desired).contains(r) <==> (rows.contains(r) || (r.blog_id
            == blog_id && desired.contains(r.tag_id))),
    decreases desired.len(),
{
    if desired.len() > 0 {
        let row = BlogTag { blog_id, tag_id: desired[0] };
        let grown = if rows.contains(row) {
            rows
        } else {
            rows.push(row)
        };
        lemma_add_phase_contains(grown, blog_id, desired.drop_first(), r);
        lemma_push_contains(rows, row, r);
        assert forall|t: u128| desired.contains(t) implies t == desired[0]
            || desired.drop_first().contains(t) by {
            let i = choose|i: int| 0 <= i < desired.len() && desired[i] == t;
            if i > 0 {
                assert(desired.drop_first()[i - 1] == t);
            }
        }
        assert forall|t: u128| desired.drop_first().contains(t) implies desired.contains(t) by {
            let i = choose|i: int| 0 <= i < desired.drop_first().len() && desired.drop_first()[i]
                == t;
            assert(desired[i + 1] == t);
        }
        assert(desired.contains(desired[0]));
    }
}

/// The removal half does not touch rows of other blogs.
proof fn lemma_remove_phase_other(rows: Seq<BlogTag>, blog_id: u128, desired: Seq<u128>, other: u128)
    requires
        other != blog_id,
    ensures
        tag_ids_of(remove_phase(rows, blog_id, desired), other) == tag_ids_of(rows, other),
    decreases rows.len(),
{
    if rows.len() > 0 {
        lemma_remove_phase_other(rows.drop_last(), blog_id, desired, other);
        let rest = remove_phase(rows.drop_last(), blog_id, desired);
        let last = rows.last();
        if !(last.blog_id == blog_id && !desired.contains(last.tag_id)) {
            assert(rest.push(last).drop_last() =~= rest);
        }
    }
}

/// The addition half does not touch rows of other blogs.
proof fn lemma_add_phase_other(rows: Seq<BlogTag>, blog_id: u128, desired: Seq<u128>, other: u128)
    requires
        other != blog_id,
    ensures
        tag_ids_of(add_phase(rows, blog_id, desired), other) == tag_ids_of(rows, other),
    decreases desired.len(),
{
    if desired.len() > 0 {
        let row = BlogTag { blog_id, tag_id: desired[0] };
        if !rows.contains(row) {
            assert(rows.push(row).drop_last() =~= rows);
            assert(tag_ids_of(rows.push(row), other) == tag_ids_of(rows, other));
            lemma_add_phase_other(rows.push(row), blog_id, desired.drop_first(), other);
        } else {
            lemma_add_phase_other(rows, blog_id, desired.drop_first(), other);
        }
    }
}

/// The removal half keeps rows pairwise distinct.
proof fn lemma_remove_phase_no_duplicates(rows: Seq<BlogTag>, blog_id: u128, desired: Seq<u128>)
    requires
        rows.no_duplicates(),
    ensures
        remove_phase(rows, blog_id, desired).no_duplicates(),
    decreases rows.len(),
{
    if rows.len() > 0 {
        assert(rows.drop_last().no_duplicates());
        lemma_remove_phase_no_duplicates(rows.drop_last(), blog_id, desired);
        let rest = remove_phase(rows.drop_last(), blog_id, desired);
        let last = rows.last();
        if !(last.blog_id == blog_id && !desired.contains(last.tag_id)) {
            assert(!rows.drop_last().contains(last)) by {
                if rows.drop_last().contains(last) {
                    let i = choose|i: int|
                        0 <= i < rows.drop_last().len() && rows.drop_last()[i] == last;
                    assert(rows[i] == rows[rows.len() - 1]);
                }
            }
            assert(!rest.contains(last)) by {
                lemma_remove_phase_contains(rows.drop_last(), blog_id, desired, last);
            }
            lemma_push_preserves_no_duplicates(rest, last);
        }
    }
}

/// The addition half keeps rows pairwise distinct: it only appends rows
/// that are absent.
proof fn lemma_add_phase_no_duplicates(rows: Seq<BlogTag>, blog_id: u128, desired: Seq<u128>)
    requires
        rows.no_duplicates(),
    ensures
        add_phase(rows, blog_id, desired).no_duplicates(),
    decreases desired.len(),
{
    if desired.len() > 0 {
        let row = BlogTag { blog_id, tag_id: desired[0] };
        if !rows.contains(row) {
            lemma_push_preserves_no_duplicates(rows, row);
            lemma_add_phase_no_duplicates(rows.push(row), blog_id, desired.drop_first());
        } else {
            lemma_add_phase_no_duplicates(rows, blog_id, desired.drop_first());
        }
    }
}

/// Deleting one association keeps rows pairwise distinct.
proof fn lemma_remove_row_no_duplicates(rows: Seq<BlogTag>, row: BlogTag)
    requires
        rows.no_duplicates(),
    ensures
        remove_row(rows, row).no_duplicates(),
    decreases rows.len(),
{
    if rows.len() > 0 {
        assert(rows.drop_last().no_duplicates());
        lemma_remove_row_no_duplicates(rows.drop_last(), row);
        let rest = remove_row(rows.drop_last(), row);
        let last = rows.last();
        if last != row {
            assert(!rows.drop_last().contains(last)) by {
                if rows.drop_last().contains(last) {
                    let i = choose|i: int|
                        0 <= i < rows.drop_last().len() && rows.drop_last()[i] == last;
                    assert(rows[i] == rows[rows.len() - 1]);
                }
            }
            assert(!rest.contains(last)) by {
                lemma_remove_row_contains(rows.drop_last(), row, last);
            }
            lemma_push_preserves_no_duplicates(rest, last);
        }
    }
}

/// Membership after deleting one association.
proof fn lemma_remove_row_contains(rows: Seq<BlogTag>, row: BlogTag, r: BlogTag)
    ensures
        remove_row(rows, row).contains(r) <==> (rows.contains(r) && r != row),
    decreases rows.len(),
{
    if rows.len() > 0 {
        lemma_remove_row_contains(rows.drop_last(), row, r);
        lemma_push_contains(rows.drop_last(), rows.last(), r);
        assert(rows.drop_last().push(rows.last()) =~= rows);
        if rows.last() != row {
            lemma_push_contains(remove_row(rows.drop_last(), row), rows.last(), r);
        }
    }
}

/// Law: after reconciliation, the tag ids associated with the blog are
/// exactly the desired ones.
pub proof fn lemma_reconcile_sets_exact(rows: Seq<BlogTag>, blog_id: u128, desired: Seq<u128>)
    ensures
        forall|t: u128|
            tag_ids_of(#[trigger] reconcile_spec(rows, blog_id, desired), blog_id).contains(t)
                <==> desired.contains(t),
{
    let mid = remove_phase(rows, blog_id, desired);
    let fin = add_phase(mid, blog_id, desired);
    assert forall|t: u128| tag_ids_of(fin, blog_id).contains(t) <==> desired.contains(t) by {
        lemma_row_iff_tag(fin, blog_id, t);
        lemma_add_phase_contains(mid, blog_id, desired, BlogTag { blog_id, tag_id: t });
        lemma_remove_phase_contains(rows, blog_id, desired, BlogTag { blog_id, tag_id: t });
    }
}

/// Law: reconciling one blog's associations leaves every other blog's
/// associations exactly as they were. Only join rows of the given blog are
/// removed; tags themselves are never deleted.
pub proof fn lemma_reconcile_preserves_others(
    rows: Seq<BlogTag>,
    blog_id: u128,
    desired: Seq<u128>,
    other: u128,
)
    requires
        other != blog_id,
    ensures
        tag_ids_of(reconcile_spec(rows, blog_id, desired), other) == tag_ids_of(rows, other),
{
    lemma_remove_phase_other(rows, blog_id, desired, other);
    lemma_add_phase_other(remove_phase(rows, blog_id, desired), blog_id, desired, other);
}

/// The removal half is the identity when every row of the blog is still
/// desired.
proof fn lemma_remove_phase_noop(rows: Seq<BlogTag>, blog_id: u128, desired: Seq<u128>)
    requires
        forall|i: int|
            0 <= i < rows.len() && (#[trigger] rows[i]).blog_id == blog_id ==> desired.contains(
                rows[i].tag_id,
            ),
    ensures
        remove_phase(rows, blog_id, desired) == rows,
    decreases rows.len(),
{
    if rows.len() > 0 {
        lemma_remove_phase_noop(rows.drop_last(), blog_id, desired);
        assert(rows.drop_last().push(rows.last()) =~= rows);
    }
}

/// The addition half is the identity when every desired tag already has
/// its row.
proof fn lemma_add_phase_noop(rows: Seq<BlogTag>, blog_id: u128, desired: Seq<u128>)
    requires
        forall|t: u128|
            desired.contains(t) ==> rows.contains(BlogTag { blog_id, tag_id: t }),
    ensures
        add_phase(rows, blog_id, desired) == rows,
    decreases desired.len(),
{
    if desired.len() > 0 {
        assert(desired.contains(desired[0]));
        assert forall|t: u128| desired.drop_first().contains(t) implies rows.contains(
            BlogTag { blog_id, tag_id: t },
        ) by {
            let i = choose|i: int| 0 <= i < desired.drop_first().len() && desired.drop_first()[i]
                == t;
            assert(desired[i + 1] == t);
            assert(desired.contains(t));
        }
        lemma_add_phase_noop(rows, blog_id, desired.drop_first());
    }
}

/// Law: reconciliation is idempotent. Running it a second time with the
/// same desired set leaves the stored rows unchanged, row for row.
pub proof fn lemma_reconcile_idempotent(rows: Seq<BlogTag>, blog_id: u128, desired: Seq<u128>)
    ensures
        reconcile_spec(reconcile_spec(rows, blog_id, desired), blog_id, desired) == reconcile_spec(
            rows,
            blog_id,
            desired,
        ),
{
    let mid = reconcile_spec(rows, blog_id, desired);
    assert forall|i: int|
        0 <= i < mid.len() && (#[trigger] mid[i]).blog_id == blog_id implies desired.contains(
        mid[i].tag_id,
    ) by {
        assert(mid.contains(mid[i]));
        lemma_add_phase_contains(
            remove_phase(rows, blog_id, desired),
            blog_id,
            desired,
            mid[i],
        );
        lemma_remove_phase_contains(rows, blog_id, desired, mid[i]);
    }
    lemma_remove_phase_noop(mid, blog_id, desired);
    assert forall|t: u128| desired.contains(t) implies mid.contains(
        BlogTag { blog_id, tag_id: t },
    ) by {
        lemma_add_phase_contains(
            remove_phase(rows, blog_id, desired),
            blog_id,
            desired,
            BlogTag { blog_id, tag_id: t },
        );
    }
    lemma_add_phase_noop(mid, blog_id, desired);
}

/// Whether `v` holds the id `x`.
pub fn contains_id(v: &Vec<u128>, x: u128) -> (r: bool)
    ensures
        r == v@.contains(x),
{
    let mut i: usize = 0;
    while i < v.len()
        invariant
            i <= v.len(),
            forall|k: int| 0 <= k < i ==> v@[k] != x,
        decreases v.len() - i,
    {
        if v[i] == x {
            return true;
        }
        i = i + 1;
    }
    false
}

/// The in-memory store of blog-tag join rows.
pub struct BlogTagStore {
    rows: Vec<BlogTag>,
}

impl View for BlogTagStore {
    type V = Seq<BlogTag>;

    closed spec fn view(&self) -> Seq<BlogTag> {
        self.rows@
    }
}

impl BlogTagStore {
    /// Rows are pairwise distinct: the composite key `{blog_id, tag_id}`
    /// is unique.
    pub open spec fn wf(&self) -> bool {
        self@.no_duplicates()
    }

    /// An empty store.
    pub fn new() -> (r: Self)
        ensures
            r@ == Seq::<BlogTag>::empty(),
            r.wf(),
    {
        BlogTagStore { rows: Vec::new() }
    }

    /// Whether the association `{blog_id, tag_id}` is stored.
    pub fn has(&self, blog_id: u128, tag_id: u128) -> (r: bool)
        ensures
            r == self@.contains(BlogTag { blog_id, tag_id }),
    {
        let mut i: usize = 0;
        while i < self.rows.len()
            invariant
                i <= self.rows.len(),
                forall|k: int| 0 <= k < i ==> self.rows@[k] != (BlogTag { blog_id, tag_id }),
            decreases self.rows.len() - i,
        {
            let r = self.rows[i];
            if r.blog_id == blog_id && r.tag_id == tag_id {
                return true;
            }
            i = i + 1;
        }
        false
    }

    /// The tag ids associated with `blog_id`, in row order.
    pub fn tags_of(&self, blog_id: u128) -> (r: Vec<u128>)
        ensures
            r@ == tag_ids_of(self@, blog_id),
    {
        let mut out: Vec<u128> = Vec::new();
        let mut i: usize = 0;
        while i < self.rows.len()
            invariant
                i <= self.rows.len(),
                out@ == tag_ids_of(self.rows@.take(i as int), blog_id),
            decreases self.rows.len() - i,
        {
            let r = self.rows[i];
            if r.blog_id == blog_id {
                out.push(r.tag_id);
            }
            proof {
                assert(self.rows@.take(i + 1).drop_last() =~= self.rows@.take(i as int));
                assert(self.rows@.take(i + 1).last() == self.rows@[i as int]);
            }
            i = i + 1;
        }
        proof {
            assert(self.rows@.take(self.rows@.len() as int) =~= self.rows@);
        }
        out
    }

    /// Stores the association `{blog_id, tag_id}` unless it is already
    /// there.
    pub fn insert(&mut self, blog_id: u128, tag_id: u128)
        requires
            old(self).wf(),
        ensures
            final(self).wf(),
            final(self)@ == if old(self)@.contains(BlogTag { blog_id, tag_id }) {
                old(self)@
            } else {
                old(self)@.push(BlogTag { blog_id, tag_id })
            },
    {
        if !self.has(blog_id, tag_id) {
            proof {
                lemma_push_preserves_no_duplicates(self.rows@, BlogTag { blog_id, tag_id });
            }
            self.rows.push(BlogTag { blog_id, tag_id });
        }
    }

    /// Deletes the association `{blog_id, tag_id}`: only that join row,
    /// never a tag itself.
    pub fn remove(&mut self, blog_id: u128, tag_id: u128)
        requires
            old(self).wf(),
        ensures
            final(self).wf(),
            final(self)@ == remove_row(old(self)@, BlogTag { blog_id, tag_id }),
    {
        let row = BlogTag { blog_id, tag_id };
        let mut kept: Vec<BlogTag> = Vec::new();
        let mut i: usize = 0;
        while i < self.rows.len()
            invariant
                i <= self.rows.len(),
                row == (BlogTag { blog_id, tag_id }),
                kept@ == remove_row(self.rows@.take(i as int), row),
            decreases self.rows.len() - i,
        {
            let r = self.rows[i];
            if !(r.blog_id == blog_id && r.tag_id == tag_id) {
                kept.push(r);
            }
            proof {
                assert(self.rows@.take(i as int + 1).drop_last() =~= self.rows@.take(i as int));
                assert(self.rows@.take(i as int + 1).last() == self.rows@[i as int]);
            }
            i = i + 1;
        }
        proof {
            assert(self.rows@.take(self.rows@.len() as int) =~= self.rows@);
            lemma_remove_row_no_duplicates(self.rows@, row);
        }
        self.rows = kept;
    }

    /// Brings the blog's associations to exactly the desired tag ids:
    /// associations no longer desired are removed first, missing ones are
    /// added after, each as its own row write. Other blogs' associations
    /// are untouched.
    pub fn reconcile(&mut self, blog_id: u128, desired: &Vec<u128>)
        requires
            old(self).wf(),
        ensures
            final(self).wf(),
            final(self)@ == reconcile_spec(old(self)@, blog_id, desired@),
            forall|t: u128|
                tag_ids_of(final(self)@, blog_id).contains(t) <==> desired@.contains(t),
            forall|b: u128|
                b != blog_id ==> tag_ids_of(final(self)@, b) == tag_ids_of(old(self)@, b),
    {
        let mut kept: Vec<BlogTag> = Vec::new();
        let mut i: usize = 0;
        while i < self.rows.len()
            invariant
                i <= self.rows.len(),
                kept@ == remove_phase(self.rows@.take(i as int), blog_id, desired@),
            decreases self.rows.len() - i,
        {
            let r = self.rows[i];
            if !(r.blog_id == blog_id && !contains_id(desired, r.tag_id)) {
                kept.push(r);
            }
            proof {
                assert(self.rows@.take(i as int + 1).drop_last() =~= self.rows@.take(i as int));
                assert(self.rows@.take(i as int + 1).last() == self.rows@[i as int]);
            }
            i = i + 1;
        }
        proof {
            assert(self.rows@.take(self.rows@.len() as int) =~= self.rows@);
        }
        self.rows = kept;
        let ghost mid = self.rows@;
        proof {
            assert(desired@.skip(0) =~= desired@);
        }
        let mut j: usize = 0;
        while j < desired.len()
            invariant
                j <= desired.len(),
                add_phase(self.rows@, blog_id, desired@.skip(j as int)) == add_phase(
                    mid,
                    blog_id,
                    desired@,
                ),
            decreases desired.len() - j,
        {
            let t = desired[j];
            proof {
                assert(desired@.skip(j as int)[0] == desired@[j as int]);
                assert(desired@.skip(j as int).drop_first() =~= desired@.skip(j as int + 1));
            }
            if !self.has(blog_id, t) {
                self.rows.push(BlogTag { blog_id, tag_id: t });
            }
            j = j + 1;
        }
        proof {
            assert(desired@.skip(desired@.len() as int) =~= Seq::<u128>::empty());
            lemma_remove_phase_no_duplicates(old(self)@, blog_id, desired@);
            lemma_add_phase_no_duplicates(mid, blog_id, desired@);
            lemma_reconcile_sets_exact(old(self)@, blog_id, desired@);
            assert forall|b: u128| b != blog_id implies tag_ids_of(self@, b) == tag_ids_of(
                old(self)@,
                b,
            ) by {
                lemma_reconcile_preserves_others(old(self)@, blog_id, desired@, b);
            }
        }
    }
}

proof fn lemma_push_preserves_no_duplicates<T>(s: Seq<T>, x: T)
    requires
        s.no_duplicates(),
        !s.contains(x),
    ensures
        s.push(x).no_duplicates(),
{
    assert forall|i: int, j: int| 0 <= i < j < s.push(x).len() implies s.push(x)[i] != s.push(
        x,
    )[j] by {
        if j < s.len() {
            assert(s[i] != s[j]);
        } else {
            assert(s.contains(s[i]));
        }
    }
}

} // verus!
