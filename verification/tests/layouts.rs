use tree_mem_sort::{sort, Linked, TreeNode};

/// A node with a layout of its own: a number and the numbers it was factored
/// into.
#[derive(PartialEq, Debug)]
struct Number {
    value: u32,
    parent: Option<usize>,
    children: Vec<usize>,
}

impl Linked for Number {
    type Content = u32;

    fn get_children(&mut self) -> &mut [usize] {
        &mut self.children
    }
}

impl TreeNode for Number {
    fn get_parent(&mut self) -> &mut Option<usize> {
        &mut self.parent
    }
}

fn number(value: u32, parent: Option<usize>, children: Vec<usize>) -> Number {
    Number { value, parent, children }
}

#[test]
fn factors_of_twelve() {
    let mut nodes = vec![
        number(2, Some(1), vec![]),
        number(6, Some(0), vec![4, 0]),
        number(2, Some(2), vec![]),
        number(12, None, vec![2, 1]),
        number(3, Some(2), vec![]),
    ];
    sort(&mut nodes);
    let values: Vec<u32> = nodes.iter().map(|n| n.value).collect();
    assert_eq!(values, vec![12, 2, 6, 3, 2]);
    let children: Vec<Vec<usize>> = nodes.iter().map(|n| n.children.clone()).collect();
    assert_eq!(children, vec![vec![1, 2], vec![], vec![3, 4], vec![], vec![]]);
}

#[test]
fn parents_are_relabeled_as_given() {
    // The parent entries here do not match the children lists. They are
    // relabeled all the same, each on its own.
    let mut nodes = vec![
        number(2, None, vec![]),
        number(6, Some(0), vec![4, 0]),
        number(2, Some(2), vec![]),
        number(12, None, vec![2, 1]),
        number(3, Some(2), vec![]),
    ];
    sort(&mut nodes);
    assert_eq!(
        nodes,
        vec![
            number(12, None, vec![1, 2]),
            number(2, Some(1), vec![]),
            number(6, Some(4), vec![3, 4]),
            number(3, Some(1), vec![]),
            number(2, None, vec![]),
        ]
    );
}

#[test]
fn exchanging_two_children_of_the_root() {
    let mut nodes = vec![
        number(0, None, vec![2, 1]),
        number(4, Some(0), vec![]),
        number(1, Some(0), vec![3, 4]),
        number(2, Some(2), vec![]),
        number(3, Some(2), vec![]),
    ];
    sort(&mut nodes);
    assert_eq!(
        nodes,
        vec![
            number(0, None, vec![1, 2]),
            number(1, Some(0), vec![3, 4]),
            number(4, Some(0), vec![]),
            number(2, Some(1), vec![]),
            number(3, Some(1), vec![]),
        ]
    );
}

#[test]
fn children_stored_before_their_parent() {
    let mut nodes = vec![
        number(0, None, vec![4, 3]),
        number(2, Some(2), vec![]),
        number(3, Some(2), vec![]),
        number(4, Some(0), vec![]),
        number(1, Some(0), vec![1, 2]),
    ];
    sort(&mut nodes);
    assert_eq!(
        nodes,
        vec![
            number(0, None, vec![1, 4]),
            number(1, Some(0), vec![2, 3]),
            number(2, Some(3), vec![]),
            number(3, Some(3), vec![]),
            number(4, Some(0), vec![]),
        ]
    );
}

#[test]
fn forest_of_two_trees() {
    let mut nodes = vec![
        number(10, Some(2), vec![]),
        number(20, None, vec![3]),
        number(30, None, vec![0]),
        number(40, Some(1), vec![]),
    ];
    sort(&mut nodes);
    assert_eq!(
        nodes,
        vec![
            number(30, None, vec![2]),
            number(20, None, vec![3]),
            number(10, Some(0), vec![]),
            number(40, Some(1), vec![]),
        ]
    );
}
