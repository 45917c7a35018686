use rutudu::export::{list_into_string, usize_to_string};
use rutudu::item::{CompleteStatus, ExpandStatus, Item};
use rutudu::model::RutuduList;

fn sample_list() -> RutuduList {
    let mut list = RutuduList::default();
    let mut i1 = Item::new(1, "Alpha", "first body");
    i1.expand = ExpandStatus::Open;
    i1.complete = CompleteStatus::Complete;
    let mut i2 = Item::new(2, "Beta", "");
    i2.parent_id = 1;
    i2.expand = ExpandStatus::ShowChildren;
    let mut i3 = Item::new(3, "Gamma", "third");
    i3.parent_id = 1;
    let i4 = Item::new(4, "Delta", "");
    list.restore_item(i1);
    list.restore_item(i2);
    list.restore_item(i3);
    list.restore_item(i4);
    list
}

#[test]
fn round_trip_reproduces_all_rows() {
    let list = sample_list();
    let rows = list.item_tree.to_rows();
    assert_eq!(rows.len(), 4);
    let mut reloaded = RutuduList::default();
    let orphans = reloaded.restore_list(rows);
    assert_eq!(orphans, 0);
    assert_eq!(reloaded.size(), 4);
    for key in [0u32, 1] {
        let before = list.item_tree.children_of(key);
        let after = reloaded.item_tree.children_of(key);
        assert_eq!(before.len(), after.len());
        for (a, b) in before.iter().zip(after.iter()) {
            assert_eq!(a.id, b.id);
            assert_eq!(a.parent_id, b.parent_id);
            assert_eq!(a.title, b.title);
            assert_eq!(a.entry, b.entry);
            assert_eq!(a.complete.to_code(), b.complete.to_code());
            assert_eq!(a.expand.to_code(), b.expand.to_code());
        }
    }
}

#[test]
fn restore_reports_orphan_rows() {
    let mut list = RutuduList::default();
    let mut rows = Vec::new();
    rows.push(Item::new(1, "root", ""));
    let mut lost = Item::new(2, "lost", "");
    lost.parent_id = 99; // no row ever carries id 99
    rows.push(lost);
    let orphans = list.restore_list(rows);
    assert_eq!(orphans, 1);
    // the orphan row is kept, not dropped
    assert_eq!(list.size(), 2);
    assert_eq!(list.item_tree.children_of(99).len(), 1);
}

#[test]
fn restore_skips_bad_ids_and_keeps_order() {
    let mut list = RutuduList::default();
    let mut rows = Vec::new();
    rows.push(Item::new(1, "a", ""));
    rows.push(Item::new(0, "reserved id", ""));
    rows.push(Item::new(1, "duplicate", ""));
    rows.push(Item::new(2, "b", ""));
    list.restore_list(rows);
    assert_eq!(list.size(), 2);
    let roots = list.item_tree.children_of(0);
    assert_eq!(roots[0].title, "a");
    assert_eq!(roots[1].title, "b");
}

#[test]
fn restore_does_not_assume_parent_before_child() {
    let mut list = RutuduList::default();
    let mut rows = Vec::new();
    let mut child = Item::new(2, "child first", "");
    child.parent_id = 1;
    rows.push(child);
    rows.push(Item::new(1, "parent later", ""));
    let orphans = list.restore_list(rows);
    assert_eq!(orphans, 0);
    assert_eq!(list.item_tree.children_of(1)[0].id, 2);
    assert_eq!(list.item_tree.children_of(0)[0].id, 1);
}

#[test]
fn status_codes_round_trip() {
    assert_eq!(CompleteStatus::Incomplete.to_code(), 1);
    assert_eq!(CompleteStatus::Complete.to_code(), 2);
    assert_eq!(CompleteStatus::from_code(1), CompleteStatus::Incomplete);
    assert_eq!(CompleteStatus::from_code(2), CompleteStatus::Complete);
    assert_eq!(CompleteStatus::from_code(77), CompleteStatus::Incomplete);
    assert_eq!(ExpandStatus::Closed.to_code(), 1);
    assert_eq!(ExpandStatus::ShowChildren.to_code(), 2);
    assert_eq!(ExpandStatus::Open.to_code(), 3);
    assert_eq!(ExpandStatus::from_code(1), ExpandStatus::Closed);
    assert_eq!(ExpandStatus::from_code(2), ExpandStatus::ShowChildren);
    assert_eq!(ExpandStatus::from_code(3), ExpandStatus::Open);
    assert_eq!(ExpandStatus::from_code(0), ExpandStatus::Closed);
}

#[test]
fn export_renders_numbered_indented_outline() {
    let list = sample_list();
    let text = list_into_string(&list.item_tree, 0, 0);
    assert_eq!(
        text,
        "1. Alpha\n    1. Beta\n    2. Gamma\n2. Delta\n"
    );
}

#[test]
fn export_ignores_expansion_state() {
    let mut list = RutuduList::default();
    let i1 = Item::new(1, "closed parent", ""); // Closed
    let mut i2 = Item::new(2, "still exported", "");
    i2.parent_id = 1;
    list.restore_item(i1);
    list.restore_item(i2);
    let text = list_into_string(&list.item_tree, 0, 0);
    assert_eq!(text, "1. closed parent\n    1. still exported\n");
}

#[test]
fn export_of_subtree_uses_given_depth() {
    let list = sample_list();
    let text = list_into_string(&list.item_tree, 1, 1);
    assert_eq!(text, "    1. Beta\n    2. Gamma\n");
}

#[test]
fn decimal_rendering() {
    assert_eq!(usize_to_string(0), "0");
    assert_eq!(usize_to_string(7), "7");
    assert_eq!(usize_to_string(42), "42");
    assert_eq!(usize_to_string(1203), "1203");
}
