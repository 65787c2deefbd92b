use blog_api::category_tree::{build_category_tree, TreeError};
use blog_api::entities::Category;

fn cat(id: u128, parent: Option<u128>) -> Category {
    Category { id, name: Some(format!("c{}", id)), category_id: parent }
}

#[test]
fn orphan_is_dropped_and_child_nests() {
    // A is a root, B is A's child, C points at a nonexistent parent X.
    let a: u128 = 1;
    let b: u128 = 2;
    let c: u128 = 3;
    let x: u128 = 99;
    let cats = vec![cat(a, None), cat(b, Some(a)), cat(c, Some(x))];
    let forest = build_category_tree(&cats).unwrap();
    assert!(forest.len() == 1);
    assert!(forest[0].category.id == a);
    assert!(forest[0].children.len() == 1);
    assert!(forest[0].children[0].category.id == b);
    assert!(forest[0].children[0].children.len() == 0);
}

#[test]
fn empty_input_yields_empty_forest() {
    let cats: Vec<Category> = Vec::new();
    let forest = build_category_tree(&cats).unwrap();
    assert!(forest.len() == 0);
}

#[test]
fn root_count_matches_parentless_categories() {
    let cats = vec![
        cat(1, None),
        cat(2, None),
        cat(3, Some(1)),
        cat(4, Some(3)),
        cat(5, None),
    ];
    let forest = build_category_tree(&cats).unwrap();
    assert!(forest.len() == 3);
    assert!(forest[0].category.id == 1);
    assert!(forest[1].category.id == 2);
    assert!(forest[2].category.id == 5);
    // the chain 1 -> 3 -> 4 nests fully
    assert!(forest[0].children.len() == 1);
    assert!(forest[0].children[0].category.id == 3);
    assert!(forest[0].children[0].children.len() == 1);
    assert!(forest[0].children[0].children[0].category.id == 4);
}

#[test]
fn reachable_cycle_is_detected() {
    // With duplicate ids a root's subtree can loop: the root has id 1 and
    // so does a category whose parent is 1, making it its own child.
    let cats = vec![cat(1, None), cat(1, Some(1))];
    let r = build_category_tree(&cats);
    assert!(matches!(r, Err(TreeError::CycleDetected)));
}

#[test]
fn unreachable_cycle_is_dropped_silently() {
    // 2 and 3 point at each other and at no root: never visited, so the
    // build succeeds without them, as the storage order walk would.
    let cats = vec![cat(1, None), cat(2, Some(3)), cat(3, Some(2))];
    let forest = build_category_tree(&cats).unwrap();
    assert!(forest.len() == 1);
    assert!(forest[0].category.id == 1);
    assert!(forest[0].children.len() == 0);
}

#[test]
fn maximal_depth_chain_builds() {
    // a single chain as deep as the category count exercises the depth
    // guard's boundary
    let cats = vec![cat(1, None), cat(2, Some(1)), cat(3, Some(2)), cat(4, Some(3))];
    let forest = build_category_tree(&cats).unwrap();
    let mut node = &forest[0];
    let mut depth = 1;
    while node.children.len() == 1 {
        node = &node.children[0];
        depth += 1;
    }
    assert!(depth == 4);
    assert!(node.category.id == 4);
}

#[test]
fn siblings_keep_storage_order() {
    let cats = vec![cat(7, None), cat(5, Some(7)), cat(4, Some(7)), cat(6, Some(7))];
    let forest = build_category_tree(&cats).unwrap();
    assert!(forest.len() == 1);
    let kids: Vec<u128> = forest[0].children.iter().map(|n| n.category.id).collect();
    assert!(kids == vec![5, 4, 6]);
}
