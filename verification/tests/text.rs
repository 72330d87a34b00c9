use pmx_viewer::global_model_state::{BoneTree, HierarchyError};
use pmx_viewer::records::BoneRecord;
use pmx_viewer::text::{push_decimal, push_line, push_tabs};

fn decimal(n: i32) -> String {
    let mut text = String::new();
    push_decimal(&mut text, n);
    text
}

#[test]
fn numbers_in_decimal() {
    assert_eq!(decimal(0), "0");
    assert_eq!(decimal(7), "7");
    assert_eq!(decimal(10), "10");
    assert_eq!(decimal(109), "109");
    assert_eq!(decimal(1234567890), "1234567890");
    assert_eq!(decimal(i32::MAX), "2147483647");
    assert_eq!(decimal(-1), "-1");
    assert_eq!(decimal(-40), "-40");
    assert_eq!(decimal(i32::MIN), "-2147483648");
    for n in [-1000, -999, -11, -10, -9, 9, 11, 99, 100, 101, 65535, 1000000] {
        assert_eq!(decimal(n), n.to_string());
    }
}

#[test]
fn a_number_is_written_behind_what_stands_there() {
    let mut text = String::from("id ");
    push_decimal(&mut text, 42);
    push_decimal(&mut text, -3);
    assert_eq!(text, "id 42-3");
}

#[test]
fn tabs_are_counted() {
    let mut text = String::from("a");
    push_tabs(&mut text, 0);
    assert_eq!(text, "a");
    push_tabs(&mut text, 3);
    assert_eq!(text, "a\t\t\t");
}

#[test]
fn lines_of_a_dump() {
    let mut text = String::new();
    push_line(&mut text, 5, 0, 12, "top");
    assert_eq!(text, "12:top\n");
    push_line(&mut text, 0, 1, 3, "child");
    assert_eq!(text, "12:top\n3:child\n");
    push_line(&mut text, 0, 3, 4, "deep");
    assert_eq!(text, "12:top\n3:child\n\t\t4:deep\n");
    push_line(&mut text, 2, 2, -1, "");
    assert_eq!(text, "12:top\n3:child\n\t\t4:deep\n\t\t\t-1:\n");
}

fn record(name: &str, parent: i32) -> BoneRecord {
    BoneRecord { name: name.to_string(), english_name: String::new(), parent }
}

#[test]
fn labels_of_a_list() {
    let records = vec![record("全ての親", -1), record("センター", 0)];
    let tree = BoneTree::from_iter(&records).unwrap();
    assert_eq!(tree.label(0, &records).unwrap(), "0:全ての親");
    assert_eq!(tree.child[0].label(1, &records).unwrap(), "\t1:センター");
    assert_eq!(tree.child[0].label(3, &records).unwrap(), "\t\t\t1:センター");
    assert_eq!(BoneTree::new(-1).label(4, &records).unwrap(), "-1:Root");
    assert_eq!(BoneTree::new(2).label(0, &records), Err(HierarchyError::IndexOutOfRange));
    assert_eq!(BoneTree::new(-2).label(0, &records), Err(HierarchyError::IndexOutOfRange));
}
