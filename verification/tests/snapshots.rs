use std::collections::HashMap;
use std::collections::HashSet;
use vboxhelper::flatmap::FlatMap;
use vboxhelper::snapshot::{
    delete_args, get_from_map, has_snapshot, restore_args, restore_check,
    restore_needs_snapshots, Snapshot, SnapshotId, Snapshots,
};
use vboxhelper::{get_vm_info_map, Error, VmId};

const A: &str = "11111111-1111-1111-1111-111111111111";
const B: &str = "22222222-2222-2222-2222-222222222222";
const C: &str = "33333333-3333-3333-3333-333333333333";
const D: &str = "44444444-4444-4444-4444-444444444444";
const ID_A: u128 = 0x11111111_1111_1111_1111_111111111111;
const ID_B: u128 = 0x22222222_2222_2222_2222_222222222222;
const ID_C: u128 = 0x33333333_3333_3333_3333_333333333333;
const ID_D: u128 = 0x44444444_4444_4444_4444_444444444444;

fn flat(pairs: &[(&str, &str)]) -> FlatMap {
    let mut map = FlatMap::new();
    for (key, value) in pairs {
        map.insert(key.to_string(), value.to_string());
    }
    map
}

fn node(name: &str, uuid: u128, children: &[u128]) -> Snapshot {
    Snapshot { name: name.to_string(), uuid, desc: Vec::new(), children: children.to_vec() }
}

fn tree(nodes: Vec<Snapshot>, root: u128, current: u128) -> Snapshots {
    let mut map = HashMap::new();
    for node in nodes {
        map.insert(node.uuid, node);
    }
    Snapshots { map, root, current }
}

#[test]
fn a_map_without_snapshot_keys_has_no_tree() {
    assert!(get_from_map(&flat(&[])).unwrap().is_none());
    assert!(get_from_map(&flat(&[("name", "vm"), ("VMState", "running")])).unwrap().is_none());
}

#[test]
fn a_map_with_only_one_of_the_root_keys_has_no_tree() {
    assert!(get_from_map(&flat(&[("SnapshotName", "A")])).unwrap().is_none());
    assert!(get_from_map(&flat(&[("SnapshotUUID", A)])).unwrap().is_none());
    assert!(get_from_map(&flat(&[("SnapshotUUID", "not an identifier")])).unwrap().is_none());
    assert!(get_from_map(&flat(&[("SnapshotName-1", "B"), ("SnapshotUUID-1", B)]))
        .unwrap()
        .is_none());
}

#[test]
fn text_with_a_root_and_one_child_gives_a_tree_of_two_nodes() {
    let text = format!(
        "SnapshotName=\"A\"\nSnapshotUUID=\"{}\"\nSnapshotName-1=\"B\"\nSnapshotUUID-1=\"{}\"\nCurrentSnapshotUUID=\"{}\"\n",
        A, B, B
    );
    let flat = get_vm_info_map(&text.as_bytes().to_vec()).unwrap();
    let tree = get_from_map(&flat).unwrap().unwrap();
    assert_eq!(tree.map.len(), 2);
    assert_eq!(tree.root, ID_A);
    assert_eq!(tree.current, ID_B);
    let root = tree.get_root().unwrap();
    assert_eq!(root.name, "A");
    assert_eq!(root.uuid, ID_A);
    assert_eq!(root.children, vec![ID_B]);
    assert!(root.desc.is_empty());
    let current = tree.get_current().unwrap();
    assert_eq!(current.name, "B");
    assert_eq!(current.uuid, ID_B);
    assert!(current.children.is_empty());
}

#[test]
fn a_single_root_is_a_leaf() {
    let tree = get_from_map(&flat(&[
        ("SnapshotName", "only"),
        ("SnapshotUUID", A),
        ("CurrentSnapshotUUID", A),
    ]))
    .unwrap()
    .unwrap();
    assert_eq!(tree.map.len(), 1);
    assert!(tree.get_root().unwrap().children.is_empty());
    assert_eq!(tree.get_current().unwrap().name, "only");
}

#[test]
fn nested_branches_are_followed_to_any_depth() {
    let tree = get_from_map(&flat(&[
        ("SnapshotName", "root"),
        ("SnapshotUUID", A),
        ("SnapshotName-1", "one"),
        ("SnapshotUUID-1", B),
        ("SnapshotName-2", "two"),
        ("SnapshotUUID-2", C),
        ("SnapshotName-1-1", "deep"),
        ("SnapshotUUID-1-1", D),
        ("CurrentSnapshotUUID", D),
    ]))
    .unwrap()
    .unwrap();
    assert_eq!(tree.map.len(), 4);
    assert_eq!(tree.get_root().unwrap().children, vec![ID_B, ID_C]);
    assert_eq!(tree.get_by_uuid(&ID_B).unwrap().children, vec![ID_D]);
    assert!(tree.get_by_uuid(&ID_C).unwrap().children.is_empty());
    assert_eq!(tree.get_by_uuid(&ID_D).unwrap().name, "deep");
    assert_eq!(tree.get_current().unwrap().uuid, ID_D);
}

#[test]
fn more_than_nine_children_are_numbered_in_decimal() {
    let mut pairs: Vec<(String, String)> = vec![
        ("SnapshotName".to_string(), "root".to_string()),
        ("SnapshotUUID".to_string(), A.to_string()),
        ("CurrentSnapshotUUID".to_string(), A.to_string()),
    ];
    let mut expected = Vec::new();
    for i in 1..=12u128 {
        pairs.push((format!("SnapshotName-{}", i), format!("child {}", i)));
        pairs.push((format!("SnapshotUUID-{}", i), format!("{:032x}", 0x1000 + i)));
        expected.push(0x1000 + i);
    }
    let mut flat = FlatMap::new();
    for (key, value) in pairs {
        flat.insert(key, value);
    }
    let tree = get_from_map(&flat).unwrap().unwrap();
    assert_eq!(tree.map.len(), 13);
    assert_eq!(tree.get_root().unwrap().children, expected);
    assert_eq!(tree.get_by_uuid(&0x100c).unwrap().name, "child 12");
}

#[test]
fn a_gap_in_the_child_numbers_ends_the_enumeration() {
    let tree = get_from_map(&flat(&[
        ("SnapshotName", "root"),
        ("SnapshotUUID", A),
        ("SnapshotName-1", "one"),
        ("SnapshotUUID-1", B),
        ("SnapshotName-3", "three"),
        ("SnapshotUUID-3", C),
        ("CurrentSnapshotUUID", A),
    ]))
    .unwrap()
    .unwrap();
    assert_eq!(tree.get_root().unwrap().children, vec![ID_B]);
    assert_eq!(tree.map.len(), 2);
    assert!(tree.get_by_uuid(&ID_C).is_none());
    assert!(tree.get_by_name("three").is_empty());
}

#[test]
fn a_child_number_zero_is_never_looked_at() {
    let tree = get_from_map(&flat(&[
        ("SnapshotName", "root"),
        ("SnapshotUUID", A),
        ("SnapshotName-0", "zero"),
        ("SnapshotUUID-0", B),
        ("CurrentSnapshotUUID", A),
    ]))
    .unwrap()
    .unwrap();
    assert_eq!(tree.map.len(), 1);
}

#[test]
fn a_root_identifier_that_does_not_parse_is_a_bad_format() {
    let r = get_from_map(&flat(&[
        ("SnapshotName", "root"),
        ("SnapshotUUID", "no identifier"),
        ("CurrentSnapshotUUID", A),
    ]));
    match r {
        Err(Error::BadFormat(message)) => {
            assert_eq!(message, "Unable to parse root UUID 'no identifier'")
        }
        _ => panic!("a bad format was expected"),
    }
}

#[test]
fn a_child_identifier_that_does_not_parse_is_a_bad_format() {
    let r = get_from_map(&flat(&[
        ("SnapshotName", "root"),
        ("SnapshotUUID", A),
        ("SnapshotName-1", "one"),
        ("SnapshotUUID-1", "1234"),
        ("CurrentSnapshotUUID", A),
    ]));
    assert!(matches!(r, Err(Error::BadFormat(_))));
}

#[test]
fn a_current_identifier_that_does_not_parse_is_a_bad_format() {
    let r = get_from_map(&flat(&[
        ("SnapshotName", "root"),
        ("SnapshotUUID", A),
        ("CurrentSnapshotUUID", "current"),
    ]));
    match r {
        Err(Error::BadFormat(message)) => {
            assert_eq!(message, "Unable to parse current UUID 'current'")
        }
        _ => panic!("a bad format was expected"),
    }
}

#[test]
fn a_missing_current_snapshot_is_missing_data() {
    let r = get_from_map(&flat(&[("SnapshotName", "root"), ("SnapshotUUID", A)]));
    match r {
        Err(Error::MissingData(message)) => {
            assert_eq!(message, "Can't find expected field 'CurrentSnapshotUUID")
        }
        _ => panic!("missing data was expected"),
    }
}

#[test]
fn a_branch_without_a_name_is_missing_data() {
    let r = get_from_map(&flat(&[
        ("SnapshotName", "root"),
        ("SnapshotUUID", A),
        ("SnapshotUUID-1", B),
        ("CurrentSnapshotUUID", A),
    ]));
    match r {
        Err(Error::MissingData(message)) => {
            assert_eq!(message, "Can't find expected field 'SnapshotName-1'")
        }
        _ => panic!("missing data was expected"),
    }
}

#[test]
fn a_current_snapshot_that_is_no_branch_is_missing_data() {
    let r = get_from_map(&flat(&[
        ("SnapshotName", "root"),
        ("SnapshotUUID", A),
        ("SnapshotName-1", "one"),
        ("SnapshotUUID-1", B),
        ("CurrentSnapshotUUID", C),
    ]));
    match r {
        Err(Error::MissingData(message)) => {
            assert_eq!(message, format!("Can't find current snapshot '{}'", C))
        }
        _ => panic!("missing data was expected"),
    }
}

#[test]
fn a_current_snapshot_behind_a_gap_is_missing_data() {
    let r = get_from_map(&flat(&[
        ("SnapshotName", "root"),
        ("SnapshotUUID", A),
        ("SnapshotName-2", "two"),
        ("SnapshotUUID-2", B),
        ("CurrentSnapshotUUID", B),
    ]));
    assert!(matches!(r, Err(Error::MissingData(_))));
}

#[test]
fn the_current_snapshot_of_a_tree_is_one_of_its_nodes() {
    let tree = get_from_map(&flat(&[
        ("SnapshotName", "root"),
        ("SnapshotUUID", A),
        ("SnapshotName-1", "one"),
        ("SnapshotUUID-1", B),
        ("CurrentSnapshotUUID", "22222222222222222222222222222222"),
    ]))
    .unwrap()
    .unwrap();
    assert_eq!(tree.current, ID_B);
    assert!(tree.map.contains_key(&tree.current));
    assert_eq!(tree.get_current().unwrap().name, "one");
    assert!(tree.map.contains_key(&tree.root));
}

#[test]
fn the_names_of_the_tree_are_the_values_of_the_name_keys() {
    let text = format!(
        "SnapshotName=\"base\"\nSnapshotUUID=\"{}\"\nSnapshotName-1=\"left\"\nSnapshotUUID-1=\"{}\"\nSnapshotName-2=\"right\"\nSnapshotUUID-2=\"{}\"\nSnapshotName-2-1=\"left\"\nSnapshotUUID-2-1=\"{}\"\nCurrentSnapshotUUID=\"{}\"\nname=\"vm\"\n",
        A, B, C, D, A
    );
    let flat = get_vm_info_map(&text.as_bytes().to_vec()).unwrap();
    let tree = get_from_map(&flat).unwrap().unwrap();
    let names: HashSet<String> = tree.map.values().map(|node| node.name.clone()).collect();
    let mut expected = HashSet::new();
    for key in ["SnapshotName", "SnapshotName-1", "SnapshotName-2", "SnapshotName-2-1"] {
        expected.insert(flat.get(key).unwrap().clone());
    }
    assert_eq!(names, expected);
    assert_eq!(names.len(), 3);
}

#[test]
fn every_child_of_a_tree_is_one_of_its_nodes() {
    let tree = get_from_map(&flat(&[
        ("SnapshotName", "root"),
        ("SnapshotUUID", A),
        ("SnapshotName-1", "one"),
        ("SnapshotUUID-1", B),
        ("SnapshotName-1-1", "two"),
        ("SnapshotUUID-1-1", C),
        ("CurrentSnapshotUUID", C),
    ]))
    .unwrap()
    .unwrap();
    assert!(tree.map.contains_key(&tree.root));
    for node in tree.map.values() {
        for child in &node.children {
            assert!(tree.map.contains_key(child));
        }
    }
}

#[test]
fn identifiers_are_read_in_any_case_and_without_hyphens() {
    let tree = get_from_map(&flat(&[
        ("SnapshotName", "root"),
        ("SnapshotUUID", "936DA01F-9ABD-4D9D-80C7-02AF85C822A8"),
        ("SnapshotName-1", "one"),
        ("SnapshotUUID-1", "936da01f9abd4d9d80c702af85c822a9"),
        ("CurrentSnapshotUUID", "urn:uuid:936da01f-9abd-4d9d-80c7-02af85c822a8"),
    ]))
    .unwrap()
    .unwrap();
    assert_eq!(tree.root, 0x936DA01F9ABD4D9D80C702AF85C822A8);
    assert_eq!(tree.current, 0x936DA01F9ABD4D9D80C702AF85C822A8);
    assert_eq!(tree.get_root().unwrap().children, vec![0x936DA01F9ABD4D9D80C702AF85C822A9]);
}

#[test]
fn lookup_by_name_finds_one_none_or_many() {
    let tree = tree(
        vec![node("base", 1, &[2, 3]), node("twin", 2, &[]), node("twin", 3, &[])],
        1,
        2,
    );
    assert_eq!(tree.get_unique_by_name("base").unwrap().uuid, 1);
    match tree.get_unique_by_name("absent") {
        Err(Error::NotFound(message)) => {
            assert_eq!(message, "The VM has no snapshot named 'absent'")
        }
        _ => panic!("not found was expected"),
    }
    match tree.get_unique_by_name("twin") {
        Err(Error::Ambiguous(message)) => {
            assert_eq!(message, "The VM has multiple snapshots named 'twin'")
        }
        _ => panic!("ambiguous was expected"),
    }
    let mut twins: Vec<u128> = tree.get_by_name("twin").iter().map(|node| node.uuid).collect();
    twins.sort();
    assert_eq!(twins, vec![2, 3]);
    assert!(tree.get_by_name("absent").is_empty());
    assert!(tree.get_by_name("").is_empty());
}

#[test]
fn lookup_by_identifier_finds_the_node_or_nothing() {
    let tree = tree(vec![node("base", 1, &[2]), node("next", 2, &[])], 1, 7);
    assert_eq!(tree.get_by_uuid(&2).unwrap().name, "next");
    assert!(tree.get_by_uuid(&5).is_none());
    assert_eq!(tree.get_root().unwrap().name, "base");
    assert!(tree.get_current().is_none());
}

#[test]
fn a_designation_stands_for_the_snapshots_it_names() {
    let tree = tree(
        vec![node("base", 1, &[2, 3]), node("twin", 2, &[]), node("twin", 3, &[])],
        1,
        2,
    );
    assert_eq!(tree.get(&SnapshotId::Name("twin".to_string())).len(), 2);
    assert_eq!(tree.get(&SnapshotId::Name("none".to_string())).len(), 0);
    let found = tree.get(&SnapshotId::Uuid(3));
    assert_eq!(found.len(), 1);
    assert_eq!(found[0].uuid, 3);
    assert!(tree.get(&SnapshotId::Uuid(9)).is_empty());
}

#[test]
fn snapshots_are_equal_by_identifier() {
    assert!(node("a", 1, &[]) == node("b", 1, &[2]));
    assert!(node("a", 1, &[]) != node("a", 2, &[]));
    let mut set = HashSet::new();
    set.insert(node("a", 1, &[]));
    assert!(set.contains(&node("other", 1, &[5])));
    assert!(!set.contains(&node("a", 2, &[])));
}

#[test]
fn a_designation_is_read_as_identifier_or_name() {
    match SnapshotId::from_str("936DA01F-9ABD-4D9D-80C7-02AF85C822A8").unwrap() {
        SnapshotId::Uuid(id) => assert_eq!(id, 0x936DA01F9ABD4D9D80C702AF85C822A8),
        SnapshotId::Name(_) => panic!("an identifier was expected"),
    }
    match SnapshotId::from_str("mysnap").unwrap() {
        SnapshotId::Name(name) => assert_eq!(name, "mysnap"),
        SnapshotId::Uuid(_) => panic!("a name was expected"),
    }
    match "mysnap".parse::<SnapshotId>().unwrap() {
        SnapshotId::Name(name) => assert_eq!(name, "mysnap"),
        SnapshotId::Uuid(_) => panic!("a name was expected"),
    }
    match SnapshotId::from("936DA01F-9ABD-4D9D-80C7-02AF85C822A8") {
        SnapshotId::Name(name) => assert_eq!(name, "936DA01F-9ABD-4D9D-80C7-02AF85C822A8"),
        SnapshotId::Uuid(_) => panic!("a name was expected"),
    }
}

#[test]
fn a_designation_is_written_as_name_or_hyphenated_identifier() {
    assert_eq!(SnapshotId::Name("snap 1".to_string()).to_string(), "snap 1");
    assert_eq!(
        SnapshotId::Uuid(0x936DA01F9ABD4D9D80C702AF85C822A8).to_string(),
        "936da01f-9abd-4d9d-80c7-02af85c822a8"
    );
    assert_eq!(SnapshotId::Uuid(0).to_string(), "00000000-0000-0000-0000-000000000000");
    assert_eq!(
        SnapshotId::Uuid(0x0123456789abcdef_fedcba9876543210).to_string(),
        "01234567-89ab-cdef-fedc-ba9876543210"
    );
    assert_eq!(SnapshotId::Uuid(u128::MAX).to_string(), "ffffffff-ffff-ffff-ffff-ffffffffffff");
}

#[test]
fn a_snapshot_list_is_read_loosely_and_without_descriptions() {
    let text = format!(
        "SnapshotName=\"A\"\nSnapshotUUID=\"{}\"\nSnapshotDescription=\"first line\n-second line\"\n\nCurrentSnapshotUUID=\"{}\"\nodd\"=value\n",
        A, A
    );
    let flat = vboxhelper::snapshot::map(&text.as_bytes().to_vec()).unwrap();
    assert_eq!(flat.get("SnapshotName"), Some(&"A".to_string()));
    assert_eq!(flat.get("SnapshotDescription"), Some(&"first line".to_string()));
    assert_eq!(flat.get("odd"), Some(&"value".to_string()));
    assert_eq!(flat.len(), 5);
    let tree = get_from_map(&flat).unwrap().unwrap();
    assert_eq!(tree.get_root().unwrap().name, "A");
    assert!(matches!(vboxhelper::snapshot::map(&vec![0xc3, 0x28]), Err(Error::Encoding(_))));
}

#[test]
fn restoring_by_name_is_refused_where_the_name_is_shared() {
    let vm = VmId::from("box");
    let twins = Some(tree(vec![node("twin", 2, &[]), node("twin", 3, &[])], 2, 3));
    match restore_check(&vm, "twin", &twins) {
        Err(Error::Ambiguous(message)) => {
            assert_eq!(message, "The VM 'box' has multiple snapshots named 'twin'")
        }
        _ => panic!("ambiguous was expected"),
    }
    assert!(restore_check(&vm, "other", &twins).is_ok());
    assert!(restore_check(&vm, "twin", &None).is_ok());
    let single = Some(tree(vec![node("one", 2, &[])], 2, 2));
    assert!(restore_check(&vm, "one", &single).is_ok());
    assert!(restore_needs_snapshots(&Some(SnapshotId::from("one"))));
    assert!(!restore_needs_snapshots(&Some(SnapshotId::Uuid(2))));
    assert!(!restore_needs_snapshots(&None));
}

#[test]
fn the_arguments_of_restore_and_delete() {
    let vm = VmId::from("box");
    let uuid = VmId::Uuid(0x936DA01F9ABD4D9D80C702AF85C822A8);
    assert_eq!(restore_args(&vm, &None), vec!["snapshot", "box", "restorecurrent"]);
    assert_eq!(
        restore_args(&vm, &Some(SnapshotId::from("snap"))),
        vec!["snapshot", "box", "restore", "snap"]
    );
    assert_eq!(
        delete_args(&uuid, &SnapshotId::Uuid(7)),
        vec![
            "snapshot",
            "{936da01f-9abd-4d9d-80c7-02af85c822a8}",
            "delete",
            "00000000-0000-0000-0000-000000000007"
        ]
    );
}

#[test]
fn a_snapshot_is_deleted_only_where_it_exists() {
    let snaps = Some(tree(vec![node("one", 2, &[]), node("two", 3, &[])], 2, 3));
    assert!(has_snapshot(&snaps, &SnapshotId::from("one")));
    assert!(has_snapshot(&snaps, &SnapshotId::Uuid(3)));
    assert!(!has_snapshot(&snaps, &SnapshotId::from("three")));
    assert!(!has_snapshot(&snaps, &SnapshotId::Uuid(4)));
    assert!(!has_snapshot(&None, &SnapshotId::from("one")));
}

#[test]
fn of_two_branches_with_one_identifier_the_one_visited_later_stays() {
    let tree = get_from_map(&flat(&[
        ("SnapshotName", "root"),
        ("SnapshotUUID", A),
        ("SnapshotName-1", "one"),
        ("SnapshotUUID-1", B),
        ("SnapshotName-2", "two"),
        ("SnapshotUUID-2", B),
        ("SnapshotName-2-1", "below two"),
        ("SnapshotUUID-2-1", C),
        ("CurrentSnapshotUUID", B),
    ]))
    .unwrap()
    .unwrap();
    assert_eq!(tree.map.len(), 3);
    assert_eq!(tree.get_root().unwrap().children, vec![ID_B, ID_B]);
    let kept = tree.get_by_uuid(&ID_B).unwrap();
    assert_eq!(kept.name, "one");
    assert!(kept.children.is_empty());
    assert_eq!(tree.get_by_uuid(&ID_C).unwrap().name, "below two");
    assert!(tree.get_by_name("two").is_empty());
}

#[test]
fn a_descendant_with_the_identifier_of_the_root_replaces_the_root() {
    let tree = get_from_map(&flat(&[
        ("SnapshotName", "root"),
        ("SnapshotUUID", A),
        ("SnapshotName-1", "child"),
        ("SnapshotUUID-1", A),
        ("CurrentSnapshotUUID", A),
    ]))
    .unwrap()
    .unwrap();
    assert_eq!(tree.map.len(), 1);
    assert_eq!(tree.get_root().unwrap().name, "child");
    assert!(tree.get_root().unwrap().children.is_empty());
}

#[test]
fn the_children_of_a_branch_are_checked_before_any_child_is_visited() {
    let r = get_from_map(&flat(&[
        ("SnapshotName", "root"),
        ("SnapshotUUID", A),
        ("SnapshotUUID-1", B),
        ("SnapshotName-2", "two"),
        ("SnapshotUUID-2", "bad"),
        ("CurrentSnapshotUUID", A),
    ]));
    match r {
        Err(Error::BadFormat(message)) => {
            assert_eq!(message, format!("Unable to parse UUID '{}' for 'SnapshotUUID'", A))
        }
        _ => panic!("a bad format was expected"),
    }
}

#[test]
fn the_child_with_the_highest_number_is_visited_first() {
    let r = get_from_map(&flat(&[
        ("SnapshotName", "root"),
        ("SnapshotUUID", A),
        ("SnapshotName-1", "one"),
        ("SnapshotUUID-1", B),
        ("SnapshotName-1-1", "below one"),
        ("SnapshotUUID-1-1", "bad"),
        ("SnapshotUUID-2", C),
        ("CurrentSnapshotUUID", A),
    ]));
    match r {
        Err(Error::MissingData(message)) => {
            assert_eq!(message, "Can't find expected field 'SnapshotName-2'")
        }
        _ => panic!("missing data was expected"),
    }
    let r = get_from_map(&flat(&[
        ("SnapshotName", "root"),
        ("SnapshotUUID", A),
        ("SnapshotUUID-1", B),
        ("SnapshotName-2", "two"),
        ("SnapshotUUID-2", C),
        ("SnapshotName-2-1", "below two"),
        ("SnapshotUUID-2-1", "bad"),
        ("CurrentSnapshotUUID", A),
    ]));
    match r {
        Err(Error::BadFormat(message)) => {
            assert_eq!(message, format!("Unable to parse UUID '{}' for 'SnapshotUUID-2'", C))
        }
        _ => panic!("a bad format was expected"),
    }
}

#[test]
fn a_fault_in_the_tree_is_reported_before_one_in_the_current_snapshot() {
    let r = get_from_map(&flat(&[
        ("SnapshotName", "root"),
        ("SnapshotUUID", A),
        ("SnapshotUUID-1", B),
        ("CurrentSnapshotUUID", "bad"),
    ]));
    assert!(matches!(r, Err(Error::MissingData(_))));
    let r = get_from_map(&flat(&[("SnapshotName", "root"), ("SnapshotUUID", "bad")]));
    assert!(matches!(r, Err(Error::BadFormat(_))));
}

#[test]
fn the_walk_can_be_given_its_reader() {
    let map = flat(&[
        ("SnapshotName", "root"),
        ("SnapshotUUID", A),
        ("SnapshotName-1", "one"),
        ("SnapshotUUID-1", B),
        ("CurrentSnapshotUUID", B),
    ]);
    let tree = vboxhelper::walk::rebuild(&map, &vboxhelper::ident::Uuids).unwrap().unwrap();
    assert_eq!(tree.root, ID_A);
    assert_eq!(tree.current, ID_B);
    assert_eq!(tree.get_root().unwrap().children, vec![ID_B]);
}

#[test]
fn a_name_key_that_belongs_to_no_branch_gives_the_tree_no_name() {
    let map = flat(&[
        ("SnapshotName", "A"),
        ("SnapshotUUID", A),
        ("SnapshotName-2", "C"),
        ("CurrentSnapshotUUID", A),
    ]);
    let tree = get_from_map(&map).unwrap().unwrap();
    let names: Vec<&str> = tree.map.values().map(|node| node.name.as_str()).collect();
    assert_eq!(names, vec!["A"]);
}
