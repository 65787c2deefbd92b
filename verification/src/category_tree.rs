//! Assembling the flat category list into a forest.
//!
//! Each node's children are exactly the categories whose parent link equals
//! the node's id, in storage order. A category whose parent id matches no
//! node reachable from a root is dropped. A parent chain that descends more
//! levels than there are categories must repeat a category, that is, run
//! through a cycle; the builder detects this and fails instead of recursing
//! forever.

use vstd::prelude::*;

use crate::entities::Category;
use crate::entities::TreeModel;

verus! {

broadcast use vstd::std_specs::vec::group_vec_axioms, vstd::seq::group_seq_axioms;

/// Building the forest failed.
#[derive(Clone, Copy, Debug, PartialEq, Eq, Structural)]
pub enum TreeError {
    /// A parent chain reachable from a root runs through a cycle.
    CycleDetected,
}

/// The categories whose parent link is `pid`, in storage order.
pub open spec fn children_of(cats: Seq<Category>, pid: u128) -> Seq<Category>
    decreases cats.len(),
{
    if cats.len() == 0 {
        Seq::empty()
    } else {
        let rest = children_of(cats.drop_last(), pid);
        if cats.last().category_id == Some(pid) {
            rest.push(cats.last())
        } else {
            rest
        }
    }
}

/// The categories with no parent link, in storage order.
pub open spec fn roots_of(cats: Seq<Category>) -> Seq<Category>
    decreases cats.len(),
{
    if cats.len() == 0 {
        Seq::empty()
    } else {
        let rest = roots_of(cats.drop_last());
        if cats.last().category_id is None {
            rest.push(cats.last())
        } else {
            rest
        }
    }
}

/// Every descent through parent links below the id `pid` ends within
/// `fuel` levels.
pub open spec fn bounded_depth(cats: Seq<Category>, pid: u128, fuel: nat) -> bool
    decreases fuel,
{
    &&& fuel > 0
    &&& forall|i: int|
        0 <= i < cats.len() && cats[i].category_id == Some(pid) ==> bounded_depth(
            cats,
            #[trigger] cats[i].id,
            (fuel - 1) as nat,
        )
}

/// No cycle is reachable from any root: a forest of `n` categories has
/// parent chains of at most `n` categories, so a descent of more levels
/// would repeat one.
pub open spec fn cycle_free(cats: Seq<Category>) -> bool {
    forall|i: int|
        0 <= i < cats.len() && cats[i].category_id is None ==> bounded_depth(
            cats,
            #[trigger] cats[i].id,
            cats.len() as nat,
        )
}

/// The node's children hold exactly the categories whose parent link is
/// the node's id, recursively.
pub open spec fn node_ok(cats: Seq<Category>, node: TreeModel) -> bool
    decreases node,
{
    forest_matches_children(cats, node.children@, node.category.id)
}

/// `forest` holds one correct node for each category of
/// `children_of(cats, pid)`, in order.
pub open spec fn forest_matches_children(cats: Seq<Category>, forest: Seq<TreeModel>, pid: u128) -> bool
    decreases forest,
{
    &&& forest.len() == children_of(cats, pid).len()
    &&& forall|k: int|
        0 <= k < forest.len() ==> (#[trigger] forest[k]).category == children_of(cats, pid)[k]
            && node_ok(cats, forest[k])
}

/// `forest` holds one correct node for each root of `cats`, in order.
pub open spec fn forest_matches_roots(cats: Seq<Category>, forest: Seq<TreeModel>) -> bool {
    &&& forest.len() == roots_of(cats).len()
    &&& forall|k: int|
        0 <= k < forest.len() ==> (#[trigger] forest[k]).category == roots_of(cats)[k]
            && node_ok(cats, forest[k])
}

proof fn lemma_children_of_take_step(cats: Seq<Category>, pid: u128, i: int)
    requires
        0 <= i < cats.len(),
    ensures
        children_of(cats.take(i + 1), pid) == if cats[i].category_id == Some(pid) {
            children_of(cats.take(i), pid).push(cats[i])
        } else {
            children_of(cats.take(i), pid)
        },
{
    assert(cats.take(i + 1).drop_last() =~= cats.take(i));
    assert(cats.take(i + 1).last() == cats[i]);
}

proof fn lemma_roots_of_take_step(cats: Seq<Category>, i: int)
    requires
        0 <= i < cats.len(),
    ensures
        roots_of(cats.take(i + 1)) == if cats[i].category_id is None {
            roots_of(cats.take(i)).push(cats[i])
        } else {
            roots_of(cats.take(i))
        },
{
    assert(cats.take(i + 1).drop_last() =~= cats.take(i));
    assert(cats.take(i + 1).last() == cats[i]);
}

/// The number of categories with no parent link among the first `n`.
pub open spec fn count_null_parents(cats: Seq<Category>, n: int) -> nat
    decreases n,
{
    if n <= 0 {
        0
    } else {
        count_null_parents(cats, n - 1) + (if cats[n - 1].category_id is None {
            1nat
        } else {
            0nat
        })
    }
}

proof fn lemma_roots_of_len(cats: Seq<Category>, n: int)
    requires
        0 <= n <= cats.len(),
    ensures
        roots_of(cats.take(n)).len() == count_null_parents(cats, n),
    decreases n,
{
    if n > 0 {
        lemma_roots_of_len(cats, n - 1);
        assert(cats.take(n).drop_last() =~= cats.take(n - 1));
        assert(cats.take(n).last() == cats[n - 1]);
    }
}

/// Law: a forest that matches the roots has exactly one root node per
/// category with no parent link.
pub proof fn lemma_tree_builder_root_count(cats: Seq<Category>, forest: Seq<TreeModel>)
    requires
        forest_matches_roots(cats, forest),
    ensures
        forest.len() == count_null_parents(cats, cats.len() as int),
{
    lemma_roots_of_len(cats, cats.len() as int);
    assert(cats.take(cats.len() as int) =~= cats);
}

/// Builds the nodes for every category whose parent link is `pid`,
/// spending one level of `fuel` per descent. Succeeds exactly when every
/// descent below `pid` ends within `fuel` levels.
pub fn build_forest(cats: &Vec<Category>, pid: u128, fuel: usize) -> (r: Result<
    Vec<TreeModel>,
    TreeError,
>)
    ensures
        match r {
            Ok(forest) => bounded_depth(cats@, pid, fuel as nat) && forest_matches_children(
                cats@,
                forest@,
                pid,
            ),
            Err(_) => !bounded_depth(cats@, pid, fuel as nat),
        },
    decreases fuel,
{
    if fuel == 0 {
        return Err(TreeError::CycleDetected);
    }
    let mut forest: Vec<TreeModel> = Vec::new();
    let mut i: usize = 0;
    while i < cats.len()
        invariant
            i <= cats.len(),
            fuel > 0,
            forest@.len() == children_of(cats@.take(i as int), pid).len(),
            forall|k: int|
                0 <= k < forest@.len() ==> (#[trigger] forest@[k]).category == children_of(
                    cats@.take(i as int),
                    pid,
                )[k] && node_ok(cats@, forest@[k]),
            forall|j: int|
                0 <= j < i && cats@[j].category_id == Some(pid) ==> bounded_depth(
                    cats@,
                    #[trigger] cats@[j].id,
                    (fuel - 1) as nat,
                ),
        decreases cats.len() - i,
    {
        let c = &cats[i];
        let is_child = match c.category_id {
            Some(p) => p == pid,
            None => false,
        };
        if is_child {
            match build_forest(cats, c.id, fuel - 1) {
                Ok(children) => {
                    let node = TreeModel { category: c.duplicate(), children };
                    assert(node_ok(cats@, node));
                    forest.push(node);
                },
                Err(e) => {
                    proof {
                        assert(!bounded_depth(cats@, pid, fuel as nat)) by {
                            if bounded_depth(cats@, pid, fuel as nat) {
                                assert(bounded_depth(cats@, cats@[i as int].id, (fuel - 1) as nat));
                            }
                        }
                    }
                    return Err(e);
                },
            }
        }
        proof {
            lemma_children_of_take_step(cats@, pid, i as int);
        }
        i = i + 1;
    }
    proof {
        assert(cats@.take(cats@.len() as int) =~= cats@);
    }
    Ok(forest)
}

/// Assembles the whole category forest: one tree per root category, each
/// node's children exactly the categories whose parent link is the node's
/// id, in storage order. Fails exactly when a cycle is reachable from a
/// root; orphans, reachable from no root, are dropped silently.
pub fn build_category_tree(cats: &Vec<Category>) -> (r: Result<Vec<TreeModel>, TreeError>)
    ensures
        match r {
            Ok(forest) => cycle_free(cats@) && forest_matches_roots(cats@, forest@),
            Err(_) => !cycle_free(cats@),
        },
{
    let n = cats.len();
    let mut forest: Vec<TreeModel> = Vec::new();
    let mut i: usize = 0;
    while i < n
        invariant
            i <= n,
            n == cats.len(),
            forest@.len() == roots_of(cats@.take(i as int)).len(),
            forall|k: int|
                0 <= k < forest@.len() ==> (#[trigger] forest@[k]).category == roots_of(
                    cats@.take(i as int),
                )[k] && node_ok(cats@, forest@[k]),
            forall|j: int|
                0 <= j < i && cats@[j].category_id is None ==> bounded_depth(
                    cats@,
                    #[trigger] cats@[j].id,
                    cats@.len() as nat,
                ),
        decreases n - i,
    {
        let c = &cats[i];
        if c.category_id.is_none() {
            match build_forest(cats, c.id, n) {
                Ok(children) => {
                    let node = TreeModel { category: c.duplicate(), children };
                    assert(node_ok(cats@, node));
                    forest.push(node);
                },
                Err(e) => {
                    proof {
                        assert(!cycle_free(cats@)) by {
                            if cycle_free(cats@) {
                                assert(bounded_depth(cats@, cats@[i as int].id, cats@.len() as nat));
                            }
                        }
                    }
                    return Err(e);
                },
            }
        }
        proof {
            lemma_roots_of_take_step(cats@, i as int);
        }
        i = i + 1;
    }
    proof {
        assert(cats@.take(cats@.len() as int) =~= cats@);
    }
    Ok(forest)
}

} // verus!
