use stellar::mtree::{MTree, NodeError};

fn values_in_order<T: Clone + std::fmt::Debug>(tree: &MTree<T>) -> Vec<T> {
    let mut out = Vec::new();
    let mut it = tree.iter();
    while let Some(v) = it.next() {
        out.push(v.clone());
    }
    out
}

#[test]
fn new_tree_holds_only_the_root() {
    let tree = MTree::new("sun");
    assert_eq!(tree.get_value(0), Some(&"sun"));
    assert_eq!(tree.get_value(1), None);
    assert_eq!(values_in_order(&tree), vec!["sun"]);
    assert_eq!(tree.hierarchy(), vec![(0, 0)]);
}

#[test]
fn append_hands_out_increasing_ids() {
    let mut tree = MTree::new(0u32);
    assert_eq!(tree.append(0, 10), Some(1));
    assert_eq!(tree.append(1, 11), Some(2));
    assert_eq!(tree.append(0, 12), Some(3));
    assert_eq!(tree.get_value(2), Some(&11));
    assert_eq!(values_in_order(&tree), vec![0, 10, 11, 12]);
}

#[test]
fn append_to_missing_parent_is_not_found_and_uses_up_an_id() {
    let mut tree = MTree::new('r');
    assert_eq!(tree.append(5, 'x'), None);
    assert_eq!(tree.get_value(1), None);
    assert_eq!(tree.append(0, 'a'), Some(2));
    assert_eq!(values_in_order(&tree), vec!['r', 'a']);
}

#[test]
fn next_id_counts_up_and_never_repeats() {
    let mut tree = MTree::new(());
    assert_eq!(tree.next_id(), 1);
    assert_eq!(tree.next_id(), 2);
    assert_eq!(tree.append(0, ()), Some(3));
}

#[test]
fn iteration_is_depth_first_pre_order() {
    let mut tree = MTree::new("root");
    let a = tree.append(0, "a").unwrap();
    let b = tree.append(0, "b").unwrap();
    tree.append(a, "a1").unwrap();
    tree.append(a, "a2").unwrap();
    tree.append(b, "b1").unwrap();
    assert_eq!(values_in_order(&tree), vec!["root", "a", "a1", "a2", "b", "b1"]);
}

#[test]
fn iteration_ends_and_stays_ended() {
    let tree = MTree::new(1u8);
    let mut it = tree.iter();
    assert_eq!(it.next(), Some(&1));
    assert_eq!(it.next(), None);
    assert_eq!(it.next(), None);
}

#[test]
fn iter_mut_changes_every_value_in_pre_order() {
    let mut tree = MTree::new(1u32);
    let a = tree.append(0, 2).unwrap();
    tree.append(0, 3).unwrap();
    tree.append(a, 4).unwrap();
    let mut seen = Vec::new();
    {
        let mut it = tree.iter_mut();
        while let Some(v) = it.next() {
            seen.push(*v);
            *v *= 10;
        }
    }
    assert_eq!(seen, vec![1, 2, 4, 3]);
    assert_eq!(values_in_order(&tree), vec![10, 20, 40, 30]);
    assert_eq!(tree.get_value(2), Some(&30));
    assert_eq!(tree.get_value(3), Some(&40));
}

#[test]
fn handle_reads_and_appends() {
    let mut tree = MTree::new(String::from("star"));
    {
        let mut root = tree.root_handle();
        assert_eq!(root.id(), 0);
        assert_eq!(root.value(), "star");
        let mut planet = root.append(String::from("planet"));
        assert_eq!(planet.id(), 1);
        let moon = planet.append(String::from("moon"));
        assert_eq!(moon.id(), 2);
        assert_eq!(moon.value(), "moon");
    }
    assert_eq!(tree.get_value(2).map(|s| s.as_str()), Some("moon"));
    assert_eq!(tree.hierarchy(), vec![(0, 0), (1, 1), (2, 2)]);
}

#[test]
fn nth_child_follows_child_order() {
    let mut tree = MTree::new('r');
    tree.append(0, 'a').unwrap();
    tree.append(0, 'b').unwrap();
    let mut root = tree.root_handle();
    assert_eq!(root.nth_child(1).map(|h| *h.value()), Some('b'));
    assert_eq!(root.nth_child(0).map(|h| h.id()), Some(1));
    assert!(root.nth_child(2).is_none());
}

#[test]
fn merge_offsets_donor_ids_and_hangs_donor_below_target() {
    let mut dest = MTree::new("d0");
    dest.append(0, "d1").unwrap();
    let mut donor = MTree::new("p0");
    donor.append(0, "p1").unwrap();
    donor.append(1, "p2").unwrap();
    {
        let mut root = dest.root_handle();
        let mut target = root.nth_child(0).unwrap();
        let merged = target.merge(donor);
        assert_eq!(merged.id(), 1);
    }
    // The destination's next unused id was 2, so donor id k became k + 2.
    assert_eq!(dest.get_value(2), Some(&"p0"));
    assert_eq!(dest.get_value(3), Some(&"p1"));
    assert_eq!(dest.get_value(4), Some(&"p2"));
    assert_eq!(values_in_order(&dest), vec!["d0", "d1", "p0", "p1", "p2"]);
    assert_eq!(dest.hierarchy(), vec![(0, 0), (1, 1), (2, 2), (3, 3), (4, 4)]);
    // The counter moved past the donor's ids.
    assert_eq!(dest.append(0, "d5"), Some(5));
}

#[test]
fn merge_adds_exactly_the_donor_nodes() {
    let mut dest = MTree::new(0u32);
    dest.append(0, 1).unwrap();
    dest.append(0, 2).unwrap();
    let before = values_in_order(&dest).len();
    let mut donor = MTree::new(100u32);
    for k in 0..4u32 {
        donor.append(0, 101 + k).unwrap();
    }
    let donor_size = values_in_order(&donor).len();
    {
        let mut root = dest.root_handle();
        root.merge(donor);
        let mut root_again = root.nth_child(2).unwrap();
        assert_eq!(*root_again.value(), 100);
        assert_eq!(root_again.nth_child(3).map(|h| *h.value()), Some(104));
    }
    assert_eq!(values_in_order(&dest).len(), before + donor_size);
    assert_eq!(values_in_order(&dest), vec![0, 1, 2, 100, 101, 102, 103, 104]);
}

#[test]
fn merge_keeps_donor_parentage_and_depths() {
    let mut dest = MTree::new('s');
    let mut donor = MTree::new('p');
    let m = donor.append(0, 'm').unwrap();
    donor.append(m, 'q').unwrap();
    dest.root_handle().merge(donor);
    assert_eq!(values_in_order(&dest), vec!['s', 'p', 'm', 'q']);
    assert_eq!(dest.hierarchy(), vec![(0, 0), (1, 1), (2, 2), (3, 3)]);
}

#[test]
fn repeated_merges_never_reuse_ids() {
    let mut dest = MTree::new(0u32);
    for k in 1..=3u32 {
        let mut donor = MTree::new(k * 10);
        donor.append(0, k * 10 + 1).unwrap();
        dest.root_handle().merge(donor);
    }
    let ids: Vec<u32> = dest.hierarchy().iter().map(|e| e.1).collect();
    assert_eq!(ids, vec![0, 1, 2, 3, 4, 5, 6]);
    let mut sorted = ids.clone();
    sorted.dedup();
    assert_eq!(sorted.len(), ids.len());
    assert_eq!(values_in_order(&dest), vec![0, 10, 11, 20, 21, 30, 31]);
}

#[test]
fn every_node_sits_one_level_below_its_parent() {
    let mut tree = MTree::new(0u8);
    let a = tree.append(0, 1).unwrap();
    let b = tree.append(a, 2).unwrap();
    tree.append(b, 3).unwrap();
    tree.append(0, 4).unwrap();
    assert_eq!(tree.hierarchy(), vec![(0, 0), (1, 1), (2, 2), (3, 3), (1, 4)]);
}

#[test]
fn node_error_names_the_missing_id() {
    let e = NodeError::NotFound(7);
    assert_eq!(e, NodeError::NotFound(7));
    assert_ne!(e, NodeError::NotFound(8));
}
