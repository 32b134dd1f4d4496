use tree_mem_sort::retracer::retrace;
use tree_mem_sort::rewriter::{rewrite, rewrite_dag};
use tree_mem_sort::solver::solve;
use tree_mem_sort::{DagEntry, TreeEntry};

fn tree(val: u32, parent: Option<usize>, children: Vec<usize>) -> TreeEntry<u32> {
    TreeEntry { val, parent, children }
}

#[test]
fn solve_chain_stored_backwards() {
    let mut nodes =
        vec![tree(2, Some(1), vec![]), tree(1, Some(2), vec![0]), tree(0, None, vec![1])];
    let gen = solve(&mut nodes);
    assert_eq!(gen, vec![2, 1, 0]);
    assert_eq!(
        nodes,
        vec![tree(2, Some(1), vec![]), tree(1, Some(2), vec![0]), tree(0, None, vec![1])]
    );
}

#[test]
fn solve_of_nothing_is_empty() {
    let mut nodes: Vec<TreeEntry<u32>> = vec![];
    let gen = solve(&mut nodes);
    assert_eq!(gen, Vec::<usize>::new());
}

#[test]
fn solve_of_ordered_tree_is_identity() {
    let mut nodes = vec![
        tree(0, None, vec![1, 2]),
        tree(1, Some(0), vec![3]),
        tree(2, Some(0), vec![]),
        tree(3, Some(1), vec![]),
    ];
    let gen = solve(&mut nodes);
    assert_eq!(gen, vec![0, 1, 2, 3]);
}

#[test]
fn solve_keeps_unrelated_nodes_in_place() {
    let mut nodes = vec![tree(5, None, vec![]), tree(4, None, vec![]), tree(3, None, vec![])];
    let gen = solve(&mut nodes);
    assert_eq!(gen, vec![0, 1, 2]);
}

#[test]
fn solve_factor_tree() {
    let mut nodes = vec![
        tree(2, None, vec![]),
        tree(6, Some(0), vec![4, 0]),
        tree(2, Some(2), vec![]),
        tree(12, None, vec![2, 1]),
        tree(3, Some(2), vec![]),
    ];
    let gen = solve(&mut nodes);
    assert_eq!(gen, vec![4, 2, 1, 0, 3]);
}

#[test]
fn solve_reads_children_only() {
    let mut with_parents = vec![
        DagEntry { val: 'a', parents: vec![0, 0], children: vec![] },
        DagEntry { val: 'b', parents: vec![], children: vec![0] },
    ];
    let mut without = vec![tree(9, None, vec![]), tree(8, None, vec![0])];
    assert_eq!(solve(&mut with_parents), vec![1, 0]);
    assert_eq!(solve(&mut without), vec![1, 0]);
}

#[test]
fn rewrite_follows_generator() {
    let mut nodes =
        vec![tree(2, Some(1), vec![]), tree(1, Some(2), vec![0]), tree(0, None, vec![1])];
    rewrite(&mut nodes, &vec![2, 1, 0]);
    assert_eq!(
        nodes,
        vec![tree(2, Some(1), vec![]), tree(1, Some(0), vec![2]), tree(0, None, vec![1])]
    );
}

#[test]
fn rewrite_by_identity_changes_nothing() {
    let mut nodes =
        vec![tree(0, None, vec![1, 2]), tree(1, Some(0), vec![]), tree(2, Some(0), vec![])];
    rewrite(&mut nodes, &vec![0, 1, 2]);
    assert_eq!(
        nodes,
        vec![tree(0, None, vec![1, 2]), tree(1, Some(0), vec![]), tree(2, Some(0), vec![])]
    );
}

#[test]
fn rewrite_dag_relabels_every_entry() {
    let mut nodes = vec![
        DagEntry { val: 3, parents: vec![1, 1, 2], children: vec![] },
        DagEntry { val: 1, parents: vec![2], children: vec![0] },
        DagEntry { val: 0, parents: vec![], children: vec![1, 0] },
    ];
    rewrite_dag(&mut nodes, &vec![2, 1, 0]);
    assert_eq!(
        nodes,
        vec![
            DagEntry { val: 3, parents: vec![1, 1, 0], children: vec![] },
            DagEntry { val: 1, parents: vec![0], children: vec![2] },
            DagEntry { val: 0, parents: vec![], children: vec![1, 2] },
        ]
    );
}

#[test]
fn retrace_moves_each_item_to_its_place() {
    let mut items = vec!["a", "b", "c", "d"];
    let mut gen = vec![2, 0, 3, 1];
    retrace(&mut items, &mut gen);
    assert_eq!(items, vec!["b", "d", "a", "c"]);
    assert_eq!(gen, vec![0, 1, 2, 3]);
}

#[test]
fn retrace_two_cycles() {
    let mut items = vec![10, 11, 12, 13, 14];
    let mut gen = vec![1, 0, 2, 4, 3];
    retrace(&mut items, &mut gen);
    assert_eq!(items, vec![11, 10, 12, 14, 13]);
    assert_eq!(gen, vec![0, 1, 2, 3, 4]);
}

#[test]
fn retrace_by_identity_moves_nothing() {
    let mut items = vec!['x', 'y', 'z'];
    let mut gen = vec![0, 1, 2];
    retrace(&mut items, &mut gen);
    assert_eq!(items, vec!['x', 'y', 'z']);
    assert_eq!(gen, vec![0, 1, 2]);
}

#[test]
fn retrace_of_nothing() {
    let mut items: Vec<u8> = vec![];
    let mut gen: Vec<usize> = vec![];
    retrace(&mut items, &mut gen);
    assert_eq!(items.len(), 0);
    assert_eq!(gen.len(), 0);
}

#[test]
fn retrace_full_cycle() {
    let mut items = vec![0, 1, 2, 3];
    let mut gen = vec![1, 2, 3, 0];
    retrace(&mut items, &mut gen);
    assert_eq!(items, vec![3, 0, 1, 2]);
    assert_eq!(gen, vec![0, 1, 2, 3]);
}
