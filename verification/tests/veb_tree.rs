use veb_map::layout::compute_node_id;
use veb_map::layout::veb_index;
use veb_map::veb_tree::VebTree;

#[test]
fn test_create_tree_height5() {
    let tree = VebTree::new(5);
    assert_eq!(tree.height(), 5);
    assert_eq!(1usize << (tree.height() - 1), 16);
    assert_eq!(tree.node_count(), 31);

    // array offsets of the nodes, level by level
    let expected: Vec<Vec<usize>> = vec![
        vec![0],
        vec![1, 16],
        vec![2, 3, 17, 18],
        vec![4, 7, 10, 13, 19, 22, 25, 28],
        vec![5, 6, 8, 9, 11, 12, 14, 15, 20, 21, 23, 24, 26, 27, 29, 30],
    ];
    let mut positions: Vec<Vec<usize>> = Vec::new();
    for depth in 0..5usize {
        let mut level = Vec::new();
        for id in (1usize << depth)..(1usize << (depth + 1)) {
            level.push(compute_node_id(id, 5) - 1);
        }
        positions.push(level);
    }
    assert_eq!(positions, expected);
}

#[test]
fn test_works() {
    for i in 1..16 {
        println!("{}", veb_index(i, 4));
    }
}

#[test]
fn test_update_height4() {
    let mut tree = VebTree::new(4);
    assert_eq!(tree.height(), 4);
    assert_eq!(1usize << (tree.height() - 1), 8);
    assert_eq!(tree.node_count(), 15);

    for id in 1..16usize {
        assert_eq!(tree.get_node_key(id), None);
    }

    let mut slots: Vec<Option<(usize, usize)>> = vec![None; 8];
    slots[3] = Some((333, 3));
    slots[4] = Some((444, 4));
    tree.refresh(&slots, 3, 5);

    assert_eq!(tree.get_node_key(1), Some(444));
    assert_eq!(tree.get_node_key(2), Some(333));
    assert_eq!(tree.get_node_key(3), Some(444));
    assert_eq!(tree.get_node_key(4), None);
    assert_eq!(tree.get_node_key(5), Some(333));
    assert_eq!(tree.get_node_key(6), Some(444));
    assert_eq!(tree.get_node_key(7), None);
    assert_eq!(tree.get_node_key(11), Some(333));
    assert_eq!(tree.get_node_key(12), Some(444));

    slots[2] = Some((222, 2));
    slots[5] = Some((555, 5));
    tree.refresh(&slots, 2, 6);

    assert_eq!(tree.get_node_key(1), Some(555));
    assert_eq!(tree.get_node_key(2), Some(333));
    assert_eq!(tree.get_node_key(3), Some(555));
    assert_eq!(tree.get_node_key(4), None);
    assert_eq!(tree.get_node_key(5), Some(333));
    assert_eq!(tree.get_node_key(6), Some(555));
    assert_eq!(tree.get_node_key(7), None);
    assert_eq!(tree.get_node_key(10), Some(222));
    assert_eq!(tree.get_node_key(13), Some(555));

    slots[0] = Some((0, 0));
    slots[1] = Some((1, 1));
    slots[2] = Some((2, 2));
    slots[3] = Some((3, 3));
    slots[4] = None;
    slots[5] = None;
    slots[6] = Some((666, 6));
    tree.refresh(&slots, 0, 8);

    assert_eq!(tree.get_node_key(1), Some(666));
    assert_eq!(tree.get_node_key(2), Some(3));
    assert_eq!(tree.get_node_key(3), Some(666));
    assert_eq!(tree.get_node_key(4), Some(1));
    assert_eq!(tree.get_node_key(5), Some(3));
    assert_eq!(tree.get_node_key(6), None);
    assert_eq!(tree.get_node_key(7), Some(666));
    assert_eq!(tree.get_node_key(10), Some(2));
    assert_eq!(tree.get_node_key(12), None);
    assert_eq!(tree.get_node_key(14), Some(666));
    assert_eq!(tree.get_node_key(15), None);
}
