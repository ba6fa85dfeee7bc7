use egonet::engine::greatest_reached;
use egonet::frontier::Frontier;
use egonet::frontier::Node;
use egonet::paths::UNREACHABLE;
use std::cmp::Ordering;

fn fields(node: Option<Node>) -> Option<(usize, usize)> {
    node.map(|node| (node.distance, node.index))
}

#[test]
fn empty_frontier_yields_nothing() {
    let mut frontier = Frontier::new();
    assert!(frontier.is_empty());
    assert_eq!(frontier.len(), 0);
    assert_eq!(fields(frontier.pop()), None);
    assert!(frontier.is_empty());
}

#[test]
fn entries_leave_by_ascending_distance() {
    let mut frontier = Frontier::new();
    for (distance, index) in [(5, 0), (1, 1), (4, 2), (2, 3), (3, 4), (0, 5), (6, 6)] {
        frontier.push(Node { distance, index });
    }
    assert_eq!(frontier.len(), 7);
    let mut out = Vec::new();
    while let Some(node) = frontier.pop() {
        out.push(node.distance);
    }
    assert_eq!(out, vec![0, 1, 2, 3, 4, 5, 6]);
    assert!(frontier.is_empty());
}

#[test]
fn equal_distances_leave_by_ascending_index() {
    let mut frontier = Frontier::new();
    for index in [4, 2, 9, 0, 7] {
        frontier.push(Node { distance: 3, index });
    }
    frontier.push(Node { distance: 1, index: 8 });
    let mut out = Vec::new();
    while let Some(node) = frontier.pop() {
        out.push((node.distance, node.index));
    }
    assert_eq!(out, vec![(1, 8), (3, 0), (3, 2), (3, 4), (3, 7), (3, 9)]);
}

#[test]
fn an_entry_pushed_twice_leaves_twice() {
    let mut frontier = Frontier::new();
    frontier.push(Node { distance: 2, index: 1 });
    frontier.push(Node { distance: 2, index: 1 });
    assert_eq!(frontier.len(), 2);
    assert_eq!(fields(frontier.pop()), Some((2, 1)));
    assert_eq!(frontier.len(), 1);
    assert_eq!(fields(frontier.pop()), Some((2, 1)));
    assert_eq!(fields(frontier.pop()), None);
}

#[test]
fn pushes_and_pops_interleave() {
    let mut frontier = Frontier::new();
    frontier.push(Node { distance: 10, index: 0 });
    frontier.push(Node { distance: 3, index: 1 });
    assert_eq!(fields(frontier.pop()), Some((3, 1)));
    frontier.push(Node { distance: 7, index: 2 });
    frontier.push(Node { distance: 12, index: 3 });
    assert_eq!(fields(frontier.pop()), Some((7, 2)));
    assert_eq!(fields(frontier.pop()), Some((10, 0)));
    assert_eq!(fields(frontier.pop()), Some((12, 3)));
    assert_eq!(fields(frontier.pop()), None);
}

#[test]
fn nodes_at_one_distance_are_equal() {
    let a = Node { distance: 3, index: 1 };
    let b = Node { distance: 3, index: 2 };
    let c = Node { distance: 4, index: 1 };
    assert!(a == b);
    assert!(b == a);
    assert!(a == a);
    assert!(a != c);
    assert!(c != b);
}

#[test]
fn the_nearer_node_is_the_greater() {
    let near = Node { distance: 1, index: 9 };
    let far = Node { distance: 2, index: 0 };
    let also_far = Node { distance: 2, index: 5 };
    assert_eq!(near.partial_cmp(&far), Some(Ordering::Greater));
    assert_eq!(far.partial_cmp(&near), Some(Ordering::Less));
    assert_eq!(far.partial_cmp(&also_far), Some(Ordering::Equal));
    assert_eq!(near.partial_cmp(&near), Some(Ordering::Equal));
    assert!(near > far);
    assert!(far < near);
    assert!(far <= also_far && far >= also_far);
    assert!(!(far < also_far) && !(far > also_far));
    let top = Node { distance: 0, index: 0 };
    let bottom = Node { distance: usize::MAX, index: 0 };
    assert_eq!(top.partial_cmp(&bottom), Some(Ordering::Greater));
}

#[test]
fn what_precedes_is_not_the_lesser() {
    let nodes = [
        Node { distance: 1, index: 9 },
        Node { distance: 2, index: 0 },
        Node { distance: 2, index: 5 },
        Node { distance: 7, index: 3 },
    ];
    for a in nodes {
        for b in nodes {
            if a.precedes(b) {
                assert!(a >= b);
            }
            assert!(a.precedes(b) || b.precedes(a));
        }
    }
}

#[test]
fn node_order_is_by_distance_then_index() {
    let near = Node { distance: 1, index: 9 };
    let far = Node { distance: 2, index: 0 };
    assert!(near.precedes(far));
    assert!(!far.precedes(near));
    assert!(near.precedes(near));
    let low = Node { distance: 2, index: 0 };
    let high = Node { distance: 2, index: 1 };
    assert!(low.precedes(high));
    assert!(!high.precedes(low));
}

#[test]
fn greatest_reached_leaves_out_the_unreachable() {
    assert_eq!(greatest_reached(&vec![0, 4, UNREACHABLE, 2]), Some(4));
    assert_eq!(greatest_reached(&vec![UNREACHABLE, 0]), Some(0));
    assert_eq!(greatest_reached(&vec![UNREACHABLE, UNREACHABLE]), None);
    assert_eq!(greatest_reached(&Vec::new()), None);
    assert_eq!(greatest_reached(&vec![3, 3, 1]), Some(3));
}
