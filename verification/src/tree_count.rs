//! Counting the assembled forest.
//!
//! The law proved here: over categories with pairwise distinct ids and no
//! reachable cycle, the forest holds exactly one node per category whose
//! parent chain leads to a root. Orphans, and whatever hangs off them,
//! appear nowhere.

use vstd::prelude::*;

use crate::category_tree::bounded_depth;
use crate::category_tree::children_of;
use crate::category_tree::cycle_free;
use crate::category_tree::forest_matches_children;
use crate::category_tree::forest_matches_roots;
use crate::category_tree::node_ok;
use crate::category_tree::roots_of;
use crate::entities::Category;
use crate::entities::TreeModel;

verus! {

broadcast use vstd::std_specs::vec::group_vec_axioms, vstd::seq::group_seq_axioms;

/// No two categories share an id.
pub open spec fn distinct_ids(cats: Seq<Category>) -> bool {
    forall|i: int, j: int| 0 <= i < j < cats.len() ==> cats[i].id != cats[j].id
}

/// The number of nodes in one tree.
pub open spec fn node_count(node: TreeModel) -> nat
    decreases node,
{
    1 + forest_count(node.children@)
}

/// The number of nodes across a forest.
pub open spec fn forest_count(forest: Seq<TreeModel>) -> nat
    decreases forest,
{
    if forest.len() == 0 {
        0
    } else {
        forest_count(forest.drop_last()) + node_count(forest.last())
    }
}

/// The parent chain from index `m` passes the id `p` within `fuel` extra
/// steps.
pub open spec fn links_to(cats: Seq<Category>, m: int, p: u128, fuel: nat) -> bool
    decreases fuel,
{
    &&& 0 <= m < cats.len()
    &&& match cats[m].category_id {
        None => false,
        Some(q) => q == p || (fuel > 0 && exists|j: int|
            0 <= j < cats.len() && (#[trigger] cats[j]).id == q && links_to(
                cats,
                j,
                p,
                (fuel - 1) as nat,
            )),
    }
}

/// The parent chain from index `m` passes the id `p`.
pub open spec fn linked(cats: Seq<Category>, m: int, p: u128) -> bool {
    exists|f: nat| links_to(cats, m, p, f)
}

/// The category at index `m` is reachable from a root: it is one, or its
/// parent chain leads to one.
pub open spec fn reachable(cats: Seq<Category>, m: int) -> bool {
    &&& 0 <= m < cats.len()
    &&& (cats[m].category_id is None || exists|r: int|
        0 <= r < cats.len() && (#[trigger] cats[r]).category_id is None && linked(
            cats,
            m,
            cats[r].id,
        ))
}

/// How many of the first `n` categories are reachable from a root.
pub open spec fn count_reachable(cats: Seq<Category>, n: int) -> nat
    decreases n,
{
    if n <= 0 {
        0
    } else {
        count_reachable(cats, n - 1) + (if reachable(cats, n - 1) {
            1nat
        } else {
            0nat
        })
    }
}

/// How many of the first `n` categories link to the id `p`.
pub open spec fn count_linked(cats: Seq<Category>, p: u128, n: int) -> nat
    decreases n,
{
    if n <= 0 {
        0
    } else {
        count_linked(cats, p, n - 1) + (if linked(cats, n - 1, p) {
            1nat
        } else {
            0nat
        })
    }
}

/// How many of the first `n` categories link directly to the id `p`.
pub open spec fn count_direct(cats: Seq<Category>, p: u128, n: int) -> nat
    decreases n,
{
    if n <= 0 {
        0
    } else {
        count_direct(cats, p, n - 1) + (if cats[n - 1].category_id == Some(p) {
            1nat
        } else {
            0nat
        })
    }
}

/// How many ids of `kids` the chain from index `m` links to.
pub open spec fn sum_ind(cats: Seq<Category>, kids: Seq<Category>, m: int) -> nat
    decreases kids.len(),
{
    if kids.len() == 0 {
        0
    } else {
        sum_ind(cats, kids.drop_last(), m) + (if linked(cats, m, kids.last().id) {
            1nat
        } else {
            0nat
        })
    }
}

/// `sum_ind` summed over the first `n` indices.
pub open spec fn count_sum(cats: Seq<Category>, kids: Seq<Category>, n: int) -> nat
    decreases n,
{
    if n <= 0 {
        0
    } else {
        count_sum(cats, kids, n - 1) + sum_ind(cats, kids, n - 1)
    }
}

/// `count_linked` summed over the ids of `kids`.
pub open spec fn linked_weight(cats: Seq<Category>, kids: Seq<Category>, n: int) -> nat
    decreases kids.len(),
{
    if kids.len() == 0 {
        0
    } else {
        linked_weight(cats, kids.drop_last(), n) + count_linked(cats, kids.last().id, n)
    }
}

/// A longer chain bound keeps every link.
proof fn lemma_links_mono(cats: Seq<Category>, m: int, p: u128, f: nat, g: nat)
    requires
        links_to(cats, m, p, f),
        f <= g,
    ensures
        links_to(cats, m, p, g),
    decreases f,
{
    match cats[m].category_id {
        None => {},
        Some(q) => {
            if q != p {
                let j = choose|j: int|
                    0 <= j < cats.len() && (#[trigger] cats[j]).id == q && links_to(
                        cats,
                        j,
                        p,
                        (f - 1) as nat,
                    );
                lemma_links_mono(cats, j, p, (f - 1) as nat, (g - 1) as nat);
            }
        },
    }
}

/// Extending a chain by one downward edge: if the chain from `m` passes
/// the id of a category whose own parent is `p`, it passes `p` too.
proof fn lemma_links_extend(cats: Seq<Category>, m: int, x: u128, p: u128, f: nat, c: int)
    requires
        links_to(cats, m, x, f),
        0 <= c < cats.len(),
        cats[c].id == x,
        cats[c].category_id == Some(p),
    ensures
        links_to(cats, m, p, (f + 1) as nat),
    decreases f,
{
    match cats[m].category_id {
        None => {},
        Some(q) => {
            if q == x {
                assert(links_to(cats, c, p, 0nat));
                lemma_links_mono(cats, c, p, 0nat, f);
                assert(cats[c].id == q && links_to(cats, c, p, f));
                assert(links_to(cats, m, p, (f + 1) as nat));
            } else {
                let j = choose|j: int|
                    0 <= j < cats.len() && (#[trigger] cats[j]).id == q && links_to(
                        cats,
                        j,
                        x,
                        (f - 1) as nat,
                    );
                lemma_links_extend(cats, j, x, p, (f - 1) as nat, c);
                lemma_links_mono(cats, j, p, f as nat, f as nat);
                assert(links_to(cats, m, p, (f + 1) as nat));
            }
        },
    }
}

/// A bounded subtree has no category that is its own child: a child of
/// `p` never carries the id `p` itself.
proof fn lemma_no_self_child(cats: Seq<Category>, p: u128, i: int, g: nat)
    requires
        bounded_depth(cats, p, g),
        0 <= i < cats.len(),
        cats[i].category_id == Some(p),
    ensures
        cats[i].id != p,
    decreases g,
{
    if cats[i].id == p {
        assert(bounded_depth(cats, cats[i].id, (g - 1) as nat));
        lemma_no_self_child(cats, p, i, (g - 1) as nat);
    }
}

/// A chain that reaches `q` walks a downward path from `q`: so a depth
/// bound at `q` yields a strictly smaller depth bound at the chain's
/// start.
proof fn lemma_links_descend(cats: Seq<Category>, m: int, q: u128, f: nat, g: nat) -> (g2: nat)
    requires
        links_to(cats, m, q, f),
        bounded_depth(cats, q, g),
    ensures
        g2 < g,
        bounded_depth(cats, cats[m].id, g2),
    decreases f,
{
    match cats[m].category_id {
        None => {
            0
        },
        Some(w) => {
            if w == q {
                assert(bounded_depth(cats, cats[m].id, (g - 1) as nat));
                (g - 1) as nat
            } else {
                let j = choose|j: int|
                    0 <= j < cats.len() && (#[trigger] cats[j]).id == w && links_to(
                        cats,
                        j,
                        q,
                        (f - 1) as nat,
                    );
                let gj = lemma_links_descend(cats, j, q, (f - 1) as nat, g);
                assert(bounded_depth(cats, cats[m].id, (gj - 1) as nat));
                (gj - 1) as nat
            }
        },
    }
}

/// Below a bounded subtree root `p`, no chain from `p`'s own index comes
/// back to one of `p`'s children: that would close a cycle through `p`.
proof fn lemma_no_chain_back(cats: Seq<Category>, pi: int, p: u128, c: int, f: nat, g: nat)
    requires
        0 <= pi < cats.len(),
        cats[pi].id == p,
        0 <= c < cats.len(),
        cats[c].category_id == Some(p),
        bounded_depth(cats, p, g),
    ensures
        !links_to(cats, pi, cats[c].id, f),
    decreases g,
{
    if links_to(cats, pi, cats[c].id, f) {
        assert(bounded_depth(cats, cats[c].id, (g - 1) as nat));
        let g2 = lemma_links_descend(cats, pi, cats[c].id, f, (g - 1) as nat);
        lemma_no_chain_back(cats, pi, p, c, f, g2);
    }
}

/// Two chains from one index: since a parent id resolves to at most one
/// category, the chain is one path, so one of the two targets is passed
/// through the other's category.
proof fn lemma_two_targets(cats: Seq<Category>, m: int, x: u128, y: u128, f1: nat, f2: nat)
    requires
        distinct_ids(cats),
        links_to(cats, m, x, f1),
        links_to(cats, m, y, f2),
        x != y,
    ensures
        (exists|xi: int|
            0 <= xi < cats.len() && (#[trigger] cats[xi]).id == x && links_to(cats, xi, y, f2))
            || (exists|yi: int|
            0 <= yi < cats.len() && (#[trigger] cats[yi]).id == y && links_to(cats, yi, x, f1)),
    decreases f1 + f2,
{
    let q = cats[m].category_id->Some_0;
    if q == x {
        // the chain's first stop is x; the chain to y keeps going from
        // x's own category
        let j = choose|j: int|
            0 <= j < cats.len() && (#[trigger] cats[j]).id == q && links_to(
                cats,
                j,
                y,
                (f2 - 1) as nat,
            );
        lemma_links_mono(cats, j, y, (f2 - 1) as nat, f2);
        assert(cats[j].id == x && links_to(cats, j, y, f2));
    } else if q == y {
        let j = choose|j: int|
            0 <= j < cats.len() && (#[trigger] cats[j]).id == q && links_to(
                cats,
                j,
                x,
                (f1 - 1) as nat,
            );
        lemma_links_mono(cats, j, x, (f1 - 1) as nat, f1);
        assert(cats[j].id == y && links_to(cats, j, x, f1));
    } else {
        let j1 = choose|j: int|
            0 <= j < cats.len() && (#[trigger] cats[j]).id == q && links_to(
                cats,
                j,
                x,
                (f1 - 1) as nat,
            );
        let j2 = choose|j: int|
            0 <= j < cats.len() && (#[trigger] cats[j]).id == q && links_to(
                cats,
                j,
                y,
                (f2 - 1) as nat,
            );
        assert(j1 == j2) by {
            if j1 != j2 {
                assert(cats[j1].id == cats[j2].id);
            }
        }
        lemma_two_targets(cats, j1, x, y, (f1 - 1) as nat, (f2 - 1) as nat);
        assert forall|xi: int|
            0 <= xi < cats.len() && (#[trigger] cats[xi]).id == x && links_to(
                cats,
                xi,
                y,
                (f2 - 1) as nat,
            ) implies links_to(cats, xi, y, f2) by {
            lemma_links_mono(cats, xi, y, (f2 - 1) as nat, f2);
        }
        assert forall|yi: int|
            0 <= yi < cats.len() && (#[trigger] cats[yi]).id == y && links_to(
                cats,
                yi,
                x,
                (f1 - 1) as nat,
            ) implies links_to(cats, yi, x, f1) by {
            lemma_links_mono(cats, yi, x, (f1 - 1) as nat, f1);
        }
    }
}

proof fn lemma_seq_push_has<T>(s: Seq<T>, x: T, r: T)
    ensures
        s.push(x).contains(r) <==> (s.contains(r) || r == x),
{
    if s.push(x).contains(r) {
        let i = choose|i: int| 0 <= i < s.push(x).len() && s.push(x)[i] == r;
        if i < s.len() {
            assert(s[i] == r);
        }
    }
    if s.contains(r) {
        let i = choose|i: int| 0 <= i < s.len() && s[i] == r;
        assert(s.push(x)[i] == r);
    }
    if r == x {
        assert(s.push(x)[s.len() as int] == r);
    }
}

/// Every member of `children_of` is a category of `cats` whose parent is
/// `p`.
proof fn lemma_children_of_member(cats: Seq<Category>, p: u128, x: Category)
    requires
        children_of(cats, p).contains(x),
    ensures
        x.category_id == Some(p),
        exists|i: int| 0 <= i < cats.len() && cats[i] == x,
    decreases cats.len(),
{
    if cats.len() > 0 {
        let rest = children_of(cats.drop_last(), p);
        if cats.last().category_id == Some(p) {
            lemma_seq_push_has(rest, cats.last(), x);
            if x == cats.last() {
                assert(cats[cats.len() - 1] == x);
            } else {
                lemma_children_of_member(cats.drop_last(), p, x);
                let i = choose|i: int| 0 <= i < cats.drop_last().len() && cats.drop_last()[i] == x;
                assert(cats[i] == x);
            }
        } else {
            lemma_children_of_member(cats.drop_last(), p, x);
            let i = choose|i: int| 0 <= i < cats.drop_last().len() && cats.drop_last()[i] == x;
            assert(cats[i] == x);
        }
    }
}

/// Every category of `cats` whose parent is `p` is a member of
/// `children_of`.
proof fn lemma_children_of_has(cats: Seq<Category>, p: u128, i: int)
    requires
        0 <= i < cats.len(),
        cats[i].category_id == Some(p),
    ensures
        children_of(cats, p).contains(cats[i]),
    decreases cats.len(),
{
    let rest = children_of(cats.drop_last(), p);
    if i == cats.len() - 1 {
        assert(rest.push(cats.last())[rest.len() as int] == cats[i]);
    } else {
        assert(cats.drop_last()[i] == cats[i]);
        lemma_children_of_has(cats.drop_last(), p, i);
        if cats.last().category_id == Some(p) {
            lemma_seq_push_has(rest, cats.last(), cats[i]);
        }
    }
}

/// Under distinct ids, the children of `p` carry pairwise distinct ids.
proof fn lemma_children_of_distinct(cats: Seq<Category>, p: u128)
    requires
        distinct_ids(cats),
    ensures
        forall|a: int, b: int|
            0 <= a < b < children_of(cats, p).len() ==> children_of(cats, p)[a].id != children_of(
                cats,
                p,
            )[b].id,
    decreases cats.len(),
{
    if cats.len() > 0 {
        assert(distinct_ids(cats.drop_last())) by {
            assert forall|i: int, j: int|
                0 <= i < j < cats.drop_last().len() implies cats.drop_last()[i].id
                != cats.drop_last()[j].id by {
                assert(cats[i].id != cats[j].id);
            }
        }
        lemma_children_of_distinct(cats.drop_last(), p);
        let rest = children_of(cats.drop_last(), p);
        let kids = children_of(cats, p);
        if cats.last().category_id == Some(p) {
            assert forall|a: int, b: int|
                0 <= a < b < kids.len() implies kids[a].id != kids[b].id by {
                if b == kids.len() - 1 {
                    assert(kids[a] == rest[a]);
                    assert(rest.contains(rest[a]));
                    lemma_children_of_member(cats.drop_last(), p, rest[a]);
                    let i = choose|i: int|
                        0 <= i < cats.drop_last().len() && cats.drop_last()[i] == rest[a];
                    assert(cats[i] == rest[a]);
                    assert(cats[i].id != cats[cats.len() - 1].id);
                } else {
                    assert(kids[a] == rest[a] && kids[b] == rest[b]);
                }
            }
        }
    }
}

/// Every member of `roots_of` is a category of `cats` with no parent.
proof fn lemma_roots_of_member(cats: Seq<Category>, x: Category)
    requires
        roots_of(cats).contains(x),
    ensures
        x.category_id is None,
        exists|i: int| 0 <= i < cats.len() && cats[i] == x,
    decreases cats.len(),
{
    if cats.len() > 0 {
        let rest = roots_of(cats.drop_last());
        if cats.last().category_id is None {
            lemma_seq_push_has(rest, cats.last(), x);
            if x == cats.last() {
                assert(cats[cats.len() - 1] == x);
            } else {
                lemma_roots_of_member(cats.drop_last(), x);
                let i = choose|i: int| 0 <= i < cats.drop_last().len() && cats.drop_last()[i] == x;
                assert(cats[i] == x);
            }
        } else {
            lemma_roots_of_member(cats.drop_last(), x);
            let i = choose|i: int| 0 <= i < cats.drop_last().len() && cats.drop_last()[i] == x;
            assert(cats[i] == x);
        }
    }
}

/// Every parentless category of `cats` is a member of `roots_of`.
proof fn lemma_roots_of_has(cats: Seq<Category>, i: int)
    requires
        0 <= i < cats.len(),
        cats[i].category_id is None,
    ensures
        roots_of(cats).contains(cats[i]),
    decreases cats.len(),
{
    let rest = roots_of(cats.drop_last());
    if i == cats.len() - 1 {
        assert(rest.push(cats.last())[rest.len() as int] == cats[i]);
    } else {
        assert(cats.drop_last()[i] == cats[i]);
        lemma_roots_of_has(cats.drop_last(), i);
        if cats.last().category_id is None {
            lemma_seq_push_has(rest, cats.last(), cats[i]);
        }
    }
}

/// Under distinct ids, the roots carry pairwise distinct ids.
proof fn lemma_roots_of_distinct(cats: Seq<Category>)
    requires
        distinct_ids(cats),
    ensures
        forall|a: int, b: int|
            0 <= a < b < roots_of(cats).len() ==> roots_of(cats)[a].id != roots_of(cats)[b].id,
    decreases cats.len(),
{
    if cats.len() > 0 {
        assert(distinct_ids(cats.drop_last())) by {
            assert forall|i: int, j: int|
                0 <= i < j < cats.drop_last().len() implies cats.drop_last()[i].id
                != cats.drop_last()[j].id by {
                assert(cats[i].id != cats[j].id);
            }
        }
        lemma_roots_of_distinct(cats.drop_last());
        let rest = roots_of(cats.drop_last());
        let roots = roots_of(cats);
        if cats.last().category_id is None {
            assert forall|a: int, b: int|
                0 <= a < b < roots.len() implies roots[a].id != roots[b].id by {
                if b == roots.len() - 1 {
                    assert(roots[a] == rest[a]);
                    assert(rest.contains(rest[a]));
                    lemma_roots_of_member(cats.drop_last(), rest[a]);
                    let i = choose|i: int|
                        0 <= i < cats.drop_last().len() && cats.drop_last()[i] == rest[a];
                    assert(cats[i] == rest[a]);
                    assert(cats[i].id != cats[cats.len() - 1].id);
                } else {
                    assert(roots[a] == rest[a] && roots[b] == rest[b]);
                }
            }
        }
    }
}

/// When the chain from `m` links to no id of `kids`, the sum is zero.
proof fn lemma_sum_ind_zero(cats: Seq<Category>, kids: Seq<Category>, m: int)
    requires
        forall|a: int| 0 <= a < kids.len() ==> !linked(cats, m, (#[trigger] kids[a]).id),
    ensures
        sum_ind(cats, kids, m) == 0,
    decreases kids.len(),
{
    if kids.len() > 0 {
        assert forall|a: int|
            0 <= a < kids.drop_last().len() implies !linked(
            cats,
            m,
            (#[trigger] kids.drop_last()[a]).id,
        ) by {
            assert(kids.drop_last()[a] == kids[a]);
        }
        lemma_sum_ind_zero(cats, kids.drop_last(), m);
        assert(!linked(cats, m, kids[kids.len() - 1].id));
    }
}

/// When the chain from `m` links to exactly one id of `kids`, the sum is
/// one.
proof fn lemma_sum_ind_one(cats: Seq<Category>, kids: Seq<Category>, m: int)
    requires
        exists|a: int| 0 <= a < kids.len() && linked(cats, m, (#[trigger] kids[a]).id),
        forall|a: int, b: int|
            0 <= a < kids.len() && 0 <= b < kids.len() && a != b ==> !(linked(
                cats,
                m,
                (#[trigger] kids[a]).id,
            ) && linked(cats, m, (#[trigger] kids[b]).id)),
    ensures
        sum_ind(cats, kids, m) == 1,
    decreases kids.len(),
{
    let last = kids.len() - 1;
    if linked(cats, m, kids[last].id) {
        assert forall|a: int|
            0 <= a < kids.drop_last().len() implies !linked(
            cats,
            m,
            (#[trigger] kids.drop_last()[a]).id,
        ) by {
            assert(kids.drop_last()[a] == kids[a]);
            assert(!(linked(cats, m, kids[a].id) && linked(cats, m, kids[last].id)));
        }
        lemma_sum_ind_zero(cats, kids.drop_last(), m);
    } else {
        let a = choose|a: int| 0 <= a < kids.len() && linked(cats, m, (#[trigger] kids[a]).id);
        assert(a < last);
        assert(kids.drop_last()[a] == kids[a]);
        assert(exists|a2: int|
            0 <= a2 < kids.drop_last().len() && linked(cats, m, (#[trigger] kids.drop_last()[a2]).id));
        assert forall|a2: int, b2: int|
            0 <= a2 < kids.drop_last().len() && 0 <= b2 < kids.drop_last().len() && a2
                != b2 implies !(linked(cats, m, (#[trigger] kids.drop_last()[a2]).id) && linked(
            cats,
            m,
            (#[trigger] kids.drop_last()[b2]).id,
        )) by {
            assert(kids.drop_last()[a2] == kids[a2]);
            assert(kids.drop_last()[b2] == kids[b2]);
        }
        lemma_sum_ind_one(cats, kids.drop_last(), m);
    }
}

/// A chain that reaches `p` indirectly passes some child of `p`.
proof fn lemma_chain_through_child(cats: Seq<Category>, m: int, p: u128, f: nat)
    requires
        links_to(cats, m, p, f),
        cats[m].category_id != Some(p),
    ensures
        exists|c: int|
            0 <= c < cats.len() && (#[trigger] cats[c]).category_id == Some(p) && linked(
                cats,
                m,
                cats[c].id,
            ),
    decreases f,
{
    let q = cats[m].category_id->Some_0;
    let j = choose|j: int|
        0 <= j < cats.len() && (#[trigger] cats[j]).id == q && links_to(cats, j, p, (f - 1) as nat);
    if cats[j].category_id == Some(p) {
        assert(links_to(cats, m, cats[j].id, 0nat));
        assert(linked(cats, m, cats[j].id));
    } else {
        lemma_chain_through_child(cats, j, p, (f - 1) as nat);
        let c = choose|c: int|
            0 <= c < cats.len() && (#[trigger] cats[c]).category_id == Some(p) && linked(
                cats,
                j,
                cats[c].id,
            );
        let fj = choose|fj: nat| links_to(cats, j, cats[c].id, fj);
        assert(links_to(cats, m, cats[c].id, (fj + 1) as nat));
        assert(linked(cats, m, cats[c].id));
    }
}

/// From one child of `p`, no chain reaches another child of `p`: the
/// chain's first stop is `p`, and coming back down would close a cycle.
proof fn lemma_no_cross_chain(cats: Seq<Category>, ca: int, cb: int, p: u128, f: nat, g: nat)
    requires
        0 <= ca < cats.len(),
        0 <= cb < cats.len(),
        cats[ca].category_id == Some(p),
        cats[cb].category_id == Some(p),
        bounded_depth(cats, p, g),
    ensures
        !links_to(cats, ca, cats[cb].id, f),
{
    if links_to(cats, ca, cats[cb].id, f) {
        if cats[cb].id == p {
            lemma_no_self_child(cats, p, cb, g);
        } else {
            let j = choose|j: int|
                0 <= j < cats.len() && (#[trigger] cats[j]).id == p && links_to(
                    cats,
                    j,
                    cats[cb].id,
                    (f - 1) as nat,
                );
            lemma_no_chain_back(cats, j, p, cb, (f - 1) as nat, g);
        }
    }
}

/// At every index, linking to `p` is one of two disjoint things: a direct
/// parent link, or a chain through exactly one child of `p`.
proof fn lemma_point_split(cats: Seq<Category>, p: u128, g: nat, m: int)
    requires
        distinct_ids(cats),
        bounded_depth(cats, p, g),
        0 <= m < cats.len(),
    ensures
        (if linked(cats, m, p) {
            1nat
        } else {
            0nat
        }) == (if cats[m].category_id == Some(p) {
            1nat
        } else {
            0nat
        }) + sum_ind(cats, children_of(cats, p), m),
{
    let kids = children_of(cats, p);
    if cats[m].category_id == Some(p) {
        assert(links_to(cats, m, p, 0nat));
        assert(linked(cats, m, p));
        assert forall|a: int|
            0 <= a < kids.len() implies !linked(cats, m, (#[trigger] kids[a]).id) by {
            if linked(cats, m, kids[a].id) {
                let f = choose|f: nat| links_to(cats, m, kids[a].id, f);
                assert(kids.contains(kids[a]));
                lemma_children_of_member(cats, p, kids[a]);
                let c = choose|c: int| 0 <= c < cats.len() && cats[c] == kids[a];
                lemma_no_self_child(cats, p, c, g);
                if kids[a].id != p {
                    let j = choose|j: int|
                        0 <= j < cats.len() && (#[trigger] cats[j]).id == p && links_to(
                            cats,
                            j,
                            kids[a].id,
                            (f - 1) as nat,
                        );
                    lemma_no_chain_back(cats, j, p, c, (f - 1) as nat, g);
                }
            }
        }
        lemma_sum_ind_zero(cats, kids, m);
    } else if linked(cats, m, p) {
        let f = choose|f: nat| links_to(cats, m, p, f);
        lemma_chain_through_child(cats, m, p, f);
        let c = choose|c: int|
            0 <= c < cats.len() && (#[trigger] cats[c]).category_id == Some(p) && linked(
                cats,
                m,
                cats[c].id,
            );
        lemma_children_of_has(cats, p, c);
        let a0 = choose|a0: int| 0 <= a0 < kids.len() && kids[a0] == cats[c];
        assert(linked(cats, m, kids[a0].id));
        assert(exists|a: int| 0 <= a < kids.len() && linked(cats, m, (#[trigger] kids[a]).id));
        lemma_children_of_distinct(cats, p);
        assert forall|a: int, b: int|
            0 <= a < kids.len() && 0 <= b < kids.len() && a != b implies !(linked(
            cats,
            m,
            (#[trigger] kids[a]).id,
        ) && linked(cats, m, (#[trigger] kids[b]).id)) by {
            if linked(cats, m, kids[a].id) && linked(cats, m, kids[b].id) {
                let fa = choose|fa: nat| links_to(cats, m, kids[a].id, fa);
                let fb = choose|fb: nat| links_to(cats, m, kids[b].id, fb);
                assert(kids.contains(kids[a]));
                assert(kids.contains(kids[b]));
                lemma_children_of_member(cats, p, kids[a]);
                lemma_children_of_member(cats, p, kids[b]);
                let ia = choose|i: int| 0 <= i < cats.len() && cats[i] == kids[a];
                let ib = choose|i: int| 0 <= i < cats.len() && cats[i] == kids[b];
                assert(kids[a].id != kids[b].id);
                lemma_two_targets(cats, m, kids[a].id, kids[b].id, fa, fb);
                if exists|xi: int|
                    0 <= xi < cats.len() && (#[trigger] cats[xi]).id == kids[a].id && links_to(
                        cats,
                        xi,
                        kids[b].id,
                        fb,
                    ) {
                    let xi = choose|xi: int|
                        0 <= xi < cats.len() && (#[trigger] cats[xi]).id == kids[a].id && links_to(
                            cats,
                            xi,
                            kids[b].id,
                            fb,
                        );
                    assert(xi == ia) by {
                        if xi != ia {
                            assert(cats[xi].id == cats[ia].id);
                        }
                    }
                    lemma_no_cross_chain(cats, ia, ib, p, fb, g);
                } else {
                    let yi = choose|yi: int|
                        0 <= yi < cats.len() && (#[trigger] cats[yi]).id == kids[b].id && links_to(
                            cats,
                            yi,
                            kids[a].id,
                            fa,
                        );
                    assert(yi == ib) by {
                        if yi != ib {
                            assert(cats[yi].id == cats[ib].id);
                        }
                    }
                    lemma_no_cross_chain(cats, ib, ia, p, fa, g);
                }
            }
        }
        lemma_sum_ind_one(cats, kids, m);
    } else {
        assert forall|a: int|
            0 <= a < kids.len() implies !linked(cats, m, (#[trigger] kids[a]).id) by {
            if linked(cats, m, kids[a].id) {
                let f = choose|f: nat| links_to(cats, m, kids[a].id, f);
                assert(kids.contains(kids[a]));
                lemma_children_of_member(cats, p, kids[a]);
                let c = choose|c: int| 0 <= c < cats.len() && cats[c] == kids[a];
                lemma_links_extend(cats, m, kids[a].id, p, f, c);
                assert(linked(cats, m, p));
            }
        }
        lemma_sum_ind_zero(cats, kids, m);
    }
}

/// The split of `lemma_point_split`, summed over the first `n` indices.
proof fn lemma_count_split(cats: Seq<Category>, p: u128, g: nat, n: int)
    requires
        distinct_ids(cats),
        bounded_depth(cats, p, g),
        n <= cats.len(),
    ensures
        count_linked(cats, p, n) == count_direct(cats, p, n) + count_sum(
            cats,
            children_of(cats, p),
            n,
        ),
    decreases n,
{
    if n > 0 {
        lemma_count_split(cats, p, g, n - 1);
        lemma_point_split(cats, p, g, n - 1);
    }
}

proof fn lemma_count_sum_step(cats: Seq<Category>, kids: Seq<Category>, n: int)
    requires
        kids.len() > 0,
    ensures
        count_sum(cats, kids, n) == count_sum(cats, kids.drop_last(), n) + count_linked(
            cats,
            kids.last().id,
            n,
        ),
    decreases n,
{
    if n > 0 {
        lemma_count_sum_step(cats, kids, n - 1);
    }
}

proof fn lemma_count_sum_empty(cats: Seq<Category>, kids: Seq<Category>, n: int)
    requires
        kids.len() == 0,
    ensures
        count_sum(cats, kids, n) == 0,
    decreases n,
{
    if n > 0 {
        lemma_count_sum_empty(cats, kids, n - 1);
    }
}

/// Summing per index and then per kid equals summing per kid and then per
/// index.
proof fn lemma_count_sum_swap(cats: Seq<Category>, kids: Seq<Category>, n: int)
    ensures
        count_sum(cats, kids, n) == linked_weight(cats, kids, n),
    decreases kids.len(),
{
    if kids.len() == 0 {
        lemma_count_sum_empty(cats, kids, n);
    } else {
        lemma_count_sum_step(cats, kids, n);
        lemma_count_sum_swap(cats, kids.drop_last(), n);
    }
}

/// The weight of a kid list splits into one per kid plus the linked
/// counts.
pub open spec fn kids_weight(cats: Seq<Category>, kids: Seq<Category>) -> nat
    decreases kids.len(),
{
    if kids.len() == 0 {
        0
    } else {
        kids_weight(cats, kids.drop_last()) + 1 + count_linked(
            cats,
            kids.last().id,
            cats.len() as int,
        )
    }
}

proof fn lemma_kids_weight(cats: Seq<Category>, kids: Seq<Category>)
    ensures
        kids_weight(cats, kids) == kids.len() + linked_weight(cats, kids, cats.len() as int),
    decreases kids.len(),
{
    if kids.len() > 0 {
        lemma_kids_weight(cats, kids.drop_last());
    }
}

proof fn lemma_count_direct_len(cats: Seq<Category>, p: u128, n: int)
    requires
        0 <= n <= cats.len(),
    ensures
        count_direct(cats, p, n) == children_of(cats.take(n), p).len(),
    decreases n,
{
    if n > 0 {
        lemma_count_direct_len(cats, p, n - 1);
        assert(cats.take(n).drop_last() =~= cats.take(n - 1));
        assert(cats.take(n).last() == cats[n - 1]);
    }
}

/// The node count of a correct subtree forest under `p` equals the number
/// of categories whose chain links to `p`.
proof fn lemma_subtree_count(cats: Seq<Category>, p: u128, nodes: Seq<TreeModel>, g: nat)
    requires
        distinct_ids(cats),
        bounded_depth(cats, p, g),
        forest_matches_children(cats, nodes, p),
    ensures
        forest_count(nodes) == count_linked(cats, p, cats.len() as int),
    decreases g, 0nat, 0nat,
{
    let kids = children_of(cats, p);
    assert forall|k: int|
        0 <= k < kids.len() implies bounded_depth(cats, (#[trigger] kids[k]).id, (g - 1) as nat) by {
        assert(kids.contains(kids[k]));
        lemma_children_of_member(cats, p, kids[k]);
        let i = choose|i: int| 0 <= i < cats.len() && cats[i] == kids[k];
        assert(bounded_depth(cats, cats[i].id, (g - 1) as nat));
    }
    lemma_forest_sum(cats, nodes, kids, (g - 1) as nat);
    lemma_kids_weight(cats, kids);
    lemma_count_sum_swap(cats, kids, cats.len() as int);
    lemma_count_split(cats, p, g, cats.len() as int);
    lemma_count_direct_len(cats, p, cats.len() as int);
    assert(cats.take(cats.len() as int) =~= cats);
}

/// The node count of a forest equals the per-kid weights, one subtree at
/// a time.
proof fn lemma_forest_sum(cats: Seq<Category>, nodes: Seq<TreeModel>, kids: Seq<Category>, g: nat)
    requires
        distinct_ids(cats),
        nodes.len() == kids.len(),
        forall|k: int|
            0 <= k < nodes.len() ==> (#[trigger] nodes[k]).category == kids[k] && node_ok(
                cats,
                nodes[k],
            ),
        forall|k: int| 0 <= k < kids.len() ==> bounded_depth(cats, (#[trigger] kids[k]).id, g),
    ensures
        forest_count(nodes) == kids_weight(cats, kids),
    decreases g, 1nat, nodes.len(),
{
    if nodes.len() > 0 {
        assert forall|k: int|
            0 <= k < nodes.drop_last().len() implies (#[trigger] nodes.drop_last()[k]).category
            == kids.drop_last()[k] && node_ok(cats, nodes.drop_last()[k]) by {
            assert(nodes.drop_last()[k] == nodes[k]);
            assert(kids.drop_last()[k] == kids[k]);
        }
        assert forall|k: int|
            0 <= k < kids.drop_last().len() implies bounded_depth(
            cats,
            (#[trigger] kids.drop_last()[k]).id,
            g,
        ) by {
            assert(kids.drop_last()[k] == kids[k]);
        }
        lemma_forest_sum(cats, nodes.drop_last(), kids.drop_last(), g);
        let node = nodes.last();
        assert(node.category == kids.last() && node_ok(cats, node));
        lemma_subtree_count(cats, kids.last().id, node.children@, g);
        assert(forest_count(nodes) == forest_count(nodes.drop_last()) + node_count(nodes.last()));
        assert(node_count(node) == 1 + forest_count(node.children@));
        assert(kids_weight(cats, kids) == kids_weight(cats, kids.drop_last()) + 1 + count_linked(
            cats,
            kids.last().id,
            cats.len() as int,
        ));
    }
}

/// At every index, reachability is one of two disjoint things: being a
/// root, or a chain to exactly one root.
proof fn lemma_point_split_roots(cats: Seq<Category>, m: int)
    requires
        distinct_ids(cats),
        0 <= m < cats.len(),
    ensures
        (if reachable(cats, m) {
            1nat
        } else {
            0nat
        }) == (if cats[m].category_id is None {
            1nat
        } else {
            0nat
        }) + sum_ind(cats, roots_of(cats), m),
{
    let roots = roots_of(cats);
    if cats[m].category_id is None {
        assert(reachable(cats, m));
        assert forall|a: int|
            0 <= a < roots.len() implies !linked(cats, m, (#[trigger] roots[a]).id) by {
            if linked(cats, m, roots[a].id) {
                let f = choose|f: nat| links_to(cats, m, roots[a].id, f);
                assert(!links_to(cats, m, roots[a].id, f));
            }
        }
        lemma_sum_ind_zero(cats, roots, m);
    } else if reachable(cats, m) {
        let r = choose|r: int|
            0 <= r < cats.len() && (#[trigger] cats[r]).category_id is None && linked(
                cats,
                m,
                cats[r].id,
            );
        lemma_roots_of_has(cats, r);
        let a0 = choose|a0: int| 0 <= a0 < roots.len() && roots[a0] == cats[r];
        assert(linked(cats, m, roots[a0].id));
        assert(exists|a: int| 0 <= a < roots.len() && linked(cats, m, (#[trigger] roots[a]).id));
        lemma_roots_of_distinct(cats);
        assert forall|a: int, b: int|
            0 <= a < roots.len() && 0 <= b < roots.len() && a != b implies !(linked(
            cats,
            m,
            (#[trigger] roots[a]).id,
        ) && linked(cats, m, (#[trigger] roots[b]).id)) by {
            if linked(cats, m, roots[a].id) && linked(cats, m, roots[b].id) {
                let fa = choose|fa: nat| links_to(cats, m, roots[a].id, fa);
                let fb = choose|fb: nat| links_to(cats, m, roots[b].id, fb);
                assert(roots.contains(roots[a]));
                assert(roots.contains(roots[b]));
                lemma_roots_of_member(cats, roots[a]);
                lemma_roots_of_member(cats, roots[b]);
                let ia = choose|i: int| 0 <= i < cats.len() && cats[i] == roots[a];
                let ib = choose|i: int| 0 <= i < cats.len() && cats[i] == roots[b];
                assert(roots[a].id != roots[b].id);
                lemma_two_targets(cats, m, roots[a].id, roots[b].id, fa, fb);
                if exists|xi: int|
                    0 <= xi < cats.len() && (#[trigger] cats[xi]).id == roots[a].id && links_to(
                        cats,
                        xi,
                        roots[b].id,
                        fb,
                    ) {
                    let xi = choose|xi: int|
                        0 <= xi < cats.len() && (#[trigger] cats[xi]).id == roots[a].id && links_to(
                            cats,
                            xi,
                            roots[b].id,
                            fb,
                        );
                    assert(xi == ia) by {
                        if xi != ia {
                            assert(cats[xi].id == cats[ia].id);
                        }
                    }
                } else {
                    let yi = choose|yi: int|
                        0 <= yi < cats.len() && (#[trigger] cats[yi]).id == roots[b].id && links_to(
                            cats,
                            yi,
                            roots[a].id,
                            fa,
                        );
                    assert(yi == ib) by {
                        if yi != ib {
                            assert(cats[yi].id == cats[ib].id);
                        }
                    }
                }
            }
        }
        lemma_sum_ind_one(cats, roots, m);
    } else {
        assert forall|a: int|
            0 <= a < roots.len() implies !linked(cats, m, (#[trigger] roots[a]).id) by {
            if linked(cats, m, roots[a].id) {
                assert(roots.contains(roots[a]));
                lemma_roots_of_member(cats, roots[a]);
                let ra = choose|i: int| 0 <= i < cats.len() && cats[i] == roots[a];
                assert(0 <= ra < cats.len() && cats[ra].category_id is None && linked(
                    cats,
                    m,
                    cats[ra].id,
                ));
                assert(reachable(cats, m));
            }
        }
        lemma_sum_ind_zero(cats, roots, m);
    }
}

proof fn lemma_count_reach_split(cats: Seq<Category>, n: int)
    requires
        distinct_ids(cats),
        n <= cats.len(),
    ensures
        count_reachable(cats, n) == crate::category_tree::count_null_parents(cats, n) + count_sum(
            cats,
            roots_of(cats),
            n,
        ),
    decreases n,
{
    if n > 0 {
        lemma_count_reach_split(cats, n - 1);
        lemma_point_split_roots(cats, n - 1);
    }
}

/// Law: over categories with pairwise distinct ids and no cycle reachable
/// from a root, a forest that matches the roots holds exactly one node
/// per category reachable from a root. Orphans, and whatever hangs off
/// them, appear nowhere.
pub proof fn lemma_tree_builder_node_count(cats: Seq<Category>, forest: Seq<TreeModel>)
    requires
        distinct_ids(cats),
        cycle_free(cats),
        forest_matches_roots(cats, forest),
    ensures
        forest_count(forest) == count_reachable(cats, cats.len() as int),
{
    let roots = roots_of(cats);
    assert forall|k: int|
        0 <= k < roots.len() implies bounded_depth(cats, (#[trigger] roots[k]).id, cats.len() as nat) by {
        assert(roots.contains(roots[k]));
        lemma_roots_of_member(cats, roots[k]);
        let i = choose|i: int| 0 <= i < cats.len() && cats[i] == roots[k];
        assert(bounded_depth(cats, cats[i].id, cats.len() as nat));
    }
    lemma_forest_sum(cats, forest, roots, cats.len() as nat);
    lemma_kids_weight(cats, roots);
    lemma_count_sum_swap(cats, roots, cats.len() as int);
    lemma_count_reach_split(cats, cats.len() as int);
    crate::category_tree::lemma_tree_builder_root_count(cats, forest);
}

} // verus!
