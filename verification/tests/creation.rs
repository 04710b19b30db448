use exclusive_range_map::map::ExclusiveRangeMap;
use exclusive_range_map::node::Color;
use exclusive_range_map::node::ExclusiveRangeMapNode;

#[test]
fn test_create_node() {
    let node = ExclusiveRangeMapNode::new(0..1, 0usize);
    assert_eq!(node.key_range.start, 0);
    assert_eq!(node.key_range.end, 1);
}

#[test]
fn test_create_map() {
    let map = ExclusiveRangeMap::<usize>::new();
    assert_eq!(map.len(), 0);
    assert_eq!(map.size, 0);
    match map.head {
        Some(_) => {
            panic!("Head should be empty!")
        }
        None => {}
    }
}

#[test]
fn test_new_node_is_detached_and_red() {
    let node = ExclusiveRangeMapNode::new(3..9, "x");
    assert_eq!(node.value, "x");
    assert_eq!(node.color, Color::Red);
    assert!(node.child_left.is_none());
    assert!(node.child_right.is_none());
}
