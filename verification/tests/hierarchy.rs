use pmx_viewer::global_model_state::{BoneTree, HierarchyError, Model};
use pmx_viewer::records::{BoneRecord, ModelInfo};

fn record(name: &str, parent: i32) -> BoneRecord {
    BoneRecord { name: name.to_string(), english_name: String::new(), parent }
}

fn four_bones() -> Vec<BoneRecord> {
    vec![record("Root", -1), record("Hip", 0), record("Spine", 1), record("Arm", 1)]
}

fn row(depth: usize, id: i32, name: &str) -> (usize, i32, String) {
    (depth, id, name.to_string())
}

/// The number of steps from `x` up to `root`, following the parents.
fn steps_to(records: &[BoneRecord], root: i32, x: i32) -> usize {
    let mut at = x;
    let mut steps = 0;
    while at != root {
        at = records[at as usize].parent;
        steps += 1;
        assert!(steps <= records.len());
    }
    steps
}

#[test]
fn build_and_render_four_bones() {
    let records = four_bones();
    let tree = BoneTree::from_iter(&records).unwrap();
    assert_eq!(
        tree.render(&records).unwrap(),
        vec![row(0, 0, "Root"), row(1, 1, "Hip"), row(2, 2, "Spine"), row(2, 3, "Arm")]
    );
    assert_eq!(tree.walk(), vec![(0, 0), (1, 1), (2, 2), (2, 3)]);
}

#[test]
fn dump_four_bones() {
    let records = four_bones();
    let tree = BoneTree::from_iter(&records).unwrap();
    assert_eq!(tree.dump_tree(0, &records).unwrap(), "0:Root\n1:Hip\n\t2:Spine\n\t3:Arm\n");
}

#[test]
fn dump_with_indent() {
    let records = four_bones();
    let tree = BoneTree::from_iter(&records).unwrap();
    assert_eq!(
        tree.dump_tree(2, &records).unwrap(),
        "0:Root\n\t\t1:Hip\n\t\t\t2:Spine\n\t\t\t3:Arm\n"
    );
}

#[test]
fn reverse_order_insertion_gives_the_same_rows() {
    let records = four_bones();
    let mut tree = BoneTree::new(0);
    let skipped = tree.append_all(&vec![(3, 1), (2, 1), (1, 0)]);
    assert!(skipped.is_empty());
    assert_eq!(
        tree.render(&records).unwrap(),
        vec![row(0, 0, "Root"), row(1, 1, "Hip"), row(2, 2, "Spine"), row(2, 3, "Arm")]
    );
}

#[test]
fn every_order_of_entries_gives_the_same_hierarchy() {
    let entries = [(1, 0), (2, 1), (3, 1), (4, 3), (5, 0), (7, 6)];
    let orders: [[usize; 6]; 6] = [
        [0, 1, 2, 3, 4, 5],
        [5, 4, 3, 2, 1, 0],
        [3, 2, 1, 0, 5, 4],
        [1, 3, 5, 0, 2, 4],
        [4, 0, 5, 3, 1, 2],
        [2, 5, 1, 4, 0, 3],
    ];
    let mut expected = BoneTree::new(0);
    for entry in entries {
        let _ = expected.append(entry.0, entry.1);
    }
    let walk = expected.walk();
    assert_eq!(walk, vec![(0, 0), (1, 1), (2, 2), (2, 3), (3, 4), (1, 5)]);
    for order in orders {
        let offered: Vec<(i32, i32)> = order.iter().map(|&k| entries[k]).collect();
        let mut tree = BoneTree::new(0);
        let skipped = tree.append_all(&offered);
        assert_eq!(skipped, vec![7]);
        assert_eq!(tree.walk(), walk);
    }
}

#[test]
fn append_all_reports_skipped_in_the_order_of_the_entries() {
    let mut tree = BoneTree::new(0);
    let skipped = tree.append_all(&vec![(9, 8), (1, 0), (5, 4), (2, 1), (8, 9)]);
    assert_eq!(skipped, vec![9, 5, 8]);
    assert_eq!(tree.walk(), vec![(0, 0), (1, 1), (2, 2)]);
}

#[test]
fn editing_a_parent_and_rebuilding_moves_the_bone() {
    let mut records = four_bones();
    records[2].parent = 0;
    let tree = BoneTree::from_iter(&records).unwrap();
    let rows = tree.render(&records).unwrap();
    assert_eq!(
        rows,
        vec![row(0, 0, "Root"), row(1, 1, "Hip"), row(2, 3, "Arm"), row(1, 2, "Spine")]
    );
    let mut by_id = rows.clone();
    by_id.sort_by_key(|r| r.1);
    assert_eq!(
        by_id,
        vec![row(0, 0, "Root"), row(1, 1, "Hip"), row(1, 2, "Spine"), row(2, 3, "Arm")]
    );
}

#[test]
fn two_records_without_parent_are_refused() {
    let records = vec![record("A", -1), record("B", -1), record("C", 0)];
    assert_eq!(BoneTree::from_iter(&records).err(), Some(HierarchyError::MissingRoot));
}

#[test]
fn no_record_without_parent_is_refused() {
    let records = vec![record("A", 1), record("B", 0)];
    assert_eq!(BoneTree::from_iter(&records).err(), Some(HierarchyError::MissingRoot));
    let none: Vec<BoneRecord> = Vec::new();
    assert_eq!(BoneTree::from_iter(&none).err(), Some(HierarchyError::MissingRoot));
}

#[test]
fn a_record_that_is_its_own_parent_is_left_out() {
    let records = vec![record("Root", -1), record("Loop", 1), record("Hip", 0), record("Tail", 1)];
    let tree = BoneTree::from_iter(&records).unwrap();
    assert_eq!(tree.walk(), vec![(0, 0), (1, 2)]);
    assert_eq!(tree.unattached(records.len()), vec![1, 3]);
    assert!(!tree.contains(1));
}

#[test]
fn records_on_a_cycle_or_with_a_parent_out_of_range_are_left_out() {
    let records = vec![
        record("Root", -1),
        record("A", 2),
        record("B", 1),
        record("C", 0),
        record("D", 40),
        record("E", -7),
        record("F", 3),
    ];
    let tree = BoneTree::from_iter(&records).unwrap();
    assert_eq!(tree.walk(), vec![(0, 0), (1, 3), (2, 6)]);
    assert_eq!(tree.unattached(records.len()), vec![1, 2, 4, 5]);
}

#[test]
fn children_before_parents_are_attached_all_the_same() {
    let records = vec![
        record("Toe", 1),
        record("Foot", 2),
        record("Leg", 4),
        record("Hand", 5),
        record("Root", -1),
        record("Arm", 4),
    ];
    let tree = BoneTree::from_iter(&records).unwrap();
    assert_eq!(
        tree.render(&records).unwrap(),
        vec![
            row(0, 4, "Root"),
            row(1, 2, "Leg"),
            row(2, 1, "Foot"),
            row(3, 0, "Toe"),
            row(1, 5, "Arm"),
            row(2, 3, "Hand"),
        ]
    );
    assert!(tree.unattached(records.len()).is_empty());
}

#[test]
fn a_build_visits_every_record_once() {
    let parents = [3, 0, 0, -1, 3, 4, 4, 1, 7, 3, 9, 2];
    let records: Vec<BoneRecord> =
        parents.iter().enumerate().map(|(i, p)| record(&format!("b{}", i), *p)).collect();
    let tree = BoneTree::from_iter(&records).unwrap();
    let walk = tree.walk();
    assert_eq!(walk.len(), records.len());
    let mut ids: Vec<i32> = walk.iter().map(|v| v.1).collect();
    ids.sort();
    assert_eq!(ids, (0..12).collect::<Vec<i32>>());
}

#[test]
fn depth_is_the_number_of_steps_to_the_root() {
    let parents = [3, 0, 0, -1, 3, 4, 4, 1, 7, 3, 9, 2];
    let records: Vec<BoneRecord> =
        parents.iter().enumerate().map(|(i, p)| record(&format!("b{}", i), *p)).collect();
    let tree = BoneTree::from_iter(&records).unwrap();
    assert_eq!(tree.id, 3);
    for (depth, id) in tree.walk() {
        assert_eq!(depth, steps_to(&records, 3, id));
    }
    assert_eq!(
        tree.walk(),
        vec![
            (0, 3),
            (1, 0),
            (2, 1),
            (3, 7),
            (4, 8),
            (2, 2),
            (3, 11),
            (1, 4),
            (2, 5),
            (2, 6),
            (1, 9),
            (2, 10),
        ]
    );
}

fn assert_ascending(tree: &BoneTree) {
    for pair in tree.child.windows(2) {
        assert!(pair[0].id < pair[1].id);
    }
    for sub in &tree.child {
        assert_ascending(sub);
    }
}

#[test]
fn siblings_stand_in_ascending_order() {
    let mut tree = BoneTree::new(-1);
    for entry in [(9, -1), (3, -1), (7, -1), (5, 3), (4, 3), (8, 3), (1, -1), (6, 4), (2, 4)] {
        assert_eq!(tree.append(entry.0, entry.1), Ok(()));
    }
    assert_ascending(&tree);
    assert_eq!(
        tree.walk(),
        vec![(0, -1), (1, 1), (1, 3), (2, 4), (3, 2), (3, 6), (2, 5), (2, 8), (1, 7), (1, 9)]
    );
}

#[test]
fn repeated_walks_and_dumps_agree() {
    let records = four_bones();
    let tree = BoneTree::from_iter(&records).unwrap();
    assert_eq!(tree.walk(), tree.walk());
    assert_eq!(tree.render(&records), tree.render(&records));
    assert_eq!(tree.dump_tree(0, &records), tree.dump_tree(0, &records));
}

#[test]
fn rebuilding_from_unchanged_records_changes_nothing() {
    let parents = [3, 0, 0, -1, 3, 4, 4, 1, 7, 3, 9, 2];
    let records: Vec<BoneRecord> =
        parents.iter().enumerate().map(|(i, p)| record(&format!("b{}", i), *p)).collect();
    let first = BoneTree::from_iter(&records).unwrap();
    let second = BoneTree::from_iter(&records).unwrap();
    assert_eq!(first.walk(), second.walk());
    assert_eq!(first.dump_tree(0, &records), second.dump_tree(0, &records));
}

#[test]
fn dangling_parent_is_reported() {
    let mut tree = BoneTree::new(0);
    assert_eq!(tree.append(2, 1), Err(HierarchyError::DanglingParent));
    assert_eq!(tree.walk(), vec![(0, 0)]);
    assert_eq!(tree.append(1, 0), Ok(()));
    assert_eq!(tree.append(2, 1), Ok(()));
    assert_eq!(tree.walk(), vec![(0, 0), (1, 1), (2, 2)]);
}

#[test]
fn append_finds_a_parent_at_any_depth() {
    let mut tree = BoneTree::new(0);
    for entry in [(1, 0), (2, 1), (3, 2), (4, 3), (6, 0), (5, 4)] {
        assert_eq!(tree.append(entry.0, entry.1), Ok(()));
    }
    assert_eq!(tree.walk(), vec![(0, 0), (1, 1), (2, 2), (3, 3), (4, 4), (5, 5), (1, 6)]);
    assert!(tree.contains(5));
    assert!(!tree.contains(7));
}

#[test]
fn the_node_above_all_records_is_called_root() {
    let records = vec![record("Left", -1), record("Right", -1), record("Toe", 0)];
    let mut tree = BoneTree::new(-1);
    let skipped = tree.append_all(&vec![(2, 0), (1, -1), (0, -1)]);
    assert!(skipped.is_empty());
    assert_eq!(
        tree.render(&records).unwrap(),
        vec![row(0, -1, "Root"), row(1, 0, "Left"), row(2, 2, "Toe"), row(1, 1, "Right")]
    );
    assert_eq!(tree.dump_tree(0, &records).unwrap(), "-1:Root\n0:Left\n\t2:Toe\n1:Right\n");
}

#[test]
fn a_node_without_record_fails_the_render() {
    let records = four_bones();
    let tree = BoneTree::from_iter(&records).unwrap();
    let fewer = &records[..3];
    assert_eq!(tree.render(fewer), Err(HierarchyError::IndexOutOfRange));
    assert_eq!(tree.dump_tree(0, fewer), Err(HierarchyError::IndexOutOfRange));
    let mut odd = BoneTree::new(0);
    assert_eq!(odd.append(-5, 0), Ok(()));
    assert_eq!(odd.render(&records), Err(HierarchyError::IndexOutOfRange));
}

#[test]
fn ids_are_written_in_decimal() {
    let mut records: Vec<BoneRecord> = Vec::new();
    records.push(record("zero", -1));
    for i in 1..=120 {
        records.push(record(&format!("n{}", i), if i == 120 { 100 } else { 0 }));
    }
    let tree = BoneTree::from_iter(&records).unwrap();
    let text = tree.dump_tree(0, &records).unwrap();
    let mut expected = String::from("0:zero\n");
    for i in 1..120 {
        expected += &format!("{}:n{}\n", i, i);
        if i == 100 {
            expected += "\t120:n120\n";
        }
    }
    assert_eq!(text, expected);
}

#[test]
fn a_few_thousand_bones_are_built() {
    let count: usize = 4000;
    let mut records: Vec<BoneRecord> = Vec::new();
    records.push(record("b0", -1));
    for i in 1..count {
        let parent = (i * 7919 + 13) % i;
        records.push(record(&format!("b{}", i), parent as i32));
    }
    let tree = BoneTree::from_iter(&records).unwrap();
    let walk = tree.walk();
    assert_eq!(walk.len(), count);
    for (depth, id) in walk {
        assert_eq!(depth, steps_to(&records, 0, id));
    }
    assert!(tree.unattached(count).is_empty());
}

#[test]
fn a_long_chain_in_reverse_order_is_built() {
    let count: usize = 3000;
    let mut records: Vec<BoneRecord> = Vec::new();
    for i in 0..count - 1 {
        records.push(record(&format!("b{}", i), i as i32 + 1));
    }
    records.push(record("top", -1));
    let tree = BoneTree::from_iter(&records).unwrap();
    let walk = tree.walk();
    assert_eq!(walk.len(), count);
    for (depth, id) in walk {
        assert_eq!(depth, count - 1 - id as usize);
    }
}

#[test]
fn unattached_counts_from_zero() {
    let mut tree = BoneTree::new(-1);
    assert_eq!(tree.append_all(&vec![(4, 2), (2, -1), (0, -1)]), Vec::<i32>::new());
    assert_eq!(tree.unattached(6), vec![1, 3, 5]);
    assert_eq!(tree.unattached(0), Vec::<i32>::new());
}

#[test]
fn load_bones_and_dump() {
    let bones = four_bones();
    let info = ModelInfo {
        name: "model".to_string(),
        name_en: "model".to_string(),
        comment: String::new(),
        comment_en: String::new(),
    };
    let mut model = Model::new(info);
    assert_eq!(model.name, "model");
    assert!(model.bone_tree.is_none());
    assert_eq!(model.load_bones(&bones), Ok(()));
    let tree = model.bone_tree.as_ref().unwrap();
    println!("{}", tree.dump_tree(0, &bones).unwrap());
    assert_eq!(tree.dump_tree(0, &bones).unwrap(), "0:Root\n1:Hip\n\t2:Spine\n\t3:Arm\n");
}

#[test]
fn loading_bones_without_a_root_leaves_no_hierarchy() {
    let info = ModelInfo {
        name: "model".to_string(),
        name_en: String::new(),
        comment: String::new(),
        comment_en: String::new(),
    };
    let mut model = Model::new(info);
    assert_eq!(model.load_bones(&four_bones()), Ok(()));
    let broken = vec![record("A", 1), record("B", 0)];
    assert_eq!(model.load_bones(&broken), Err(HierarchyError::MissingRoot));
    assert!(model.bone_tree.is_none());
}
