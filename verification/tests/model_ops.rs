use rutudu::item::{CompleteStatus, ExpandStatus, InputMode, Item, MoveDirection};
use rutudu::model::RutuduList;
use rutudu::model::StatefulList;

fn root_ids(list: &RutuduList) -> Vec<u32> {
    list.item_tree.children_of(0).iter().map(|i| i.id).collect()
}

#[test]
pub fn test_add_new_item_to_list() {
    let mut list = RutuduList::default();
    let mut item = Item::new(1, "Test item", "Test item text\nwith a newline");
    list.insert_item(&mut item);
    assert_eq!(1, list.size());
}

#[test]
pub fn test_delete_item_from_list() {
    let mut list = RutuduList::default();
    let mut item = Item::new(1, "Test item", "Test item text\nwith a newline");
    list.insert_item(&mut item);
    assert_eq!(1, list.size());
    list.delete_item(0, 1);
    assert_eq!(0, list.size());
}

#[test]
fn insert_and_flatten_scenario() {
    let mut list = RutuduList::default();
    list.enter_insert_mode(InputMode::InsertAtRoot);
    let mut item = list.get_current_input_as_item("Buy milk");
    assert_eq!(item.id, 1);
    list.insert_item(&mut item);
    let flat = list.get_subtree_vec(0, 0);
    assert_eq!(flat.len(), 1);
    assert_eq!(flat[0].depth, 0);
    assert_eq!(flat[0].title, "Buy milk");

    // selection now rests on item 1; insert a child under it
    list.enter_insert_mode(InputMode::InsertChild);
    let mut child = list.get_current_input_as_item("Get the good stuff");
    assert_eq!(child.id, 2);
    list.insert_item(&mut child);
    // the parent was forced to at least ShowChildren, so both render
    let flat = list.get_subtree_vec(0, 0);
    assert_eq!(flat.len(), 2);
    assert_eq!(flat[0].id, 1);
    assert_eq!(flat[0].depth, 0);
    assert_eq!(flat[1].id, 2);
    assert_eq!(flat[1].depth, 1);
}

#[test]
fn flatten_is_idempotent() {
    let mut list = RutuduList::default();
    for n in 1..=5u32 {
        let mut it = Item::new(n, &format!("item {}", n), "");
        it.parent_id = if n > 2 { 1 } else { 0 };
        it.expand = ExpandStatus::Open;
        list.restore_item(it);
    }
    let a = list.get_subtree_vec(0, 0);
    let b = list.get_subtree_vec(0, 0);
    assert_eq!(a.len(), b.len());
    for (x, y) in a.iter().zip(b.iter()) {
        assert_eq!(x.id, y.id);
        assert_eq!(x.depth, y.depth);
        assert_eq!(x.title, y.title);
    }
}

#[test]
fn collapse_hides_descendants_entirely() {
    let mut list = RutuduList::default();
    let mut i1 = Item::new(1, "one", "");
    i1.expand = ExpandStatus::Open;
    let mut i2 = Item::new(2, "two", "");
    i2.parent_id = 1;
    i2.expand = ExpandStatus::Open;
    let mut i3 = Item::new(3, "three", "");
    i3.parent_id = 2;
    list.restore_item(i1);
    list.restore_item(i2);
    list.restore_item(i3);
    list.rebuild_list_if_dirty();
    assert_eq!(list.items.items.len(), 3);
    list.items.selected = Some(0);
    // Open -> ShowChildren, then ShowChildren -> Closed
    list.collapse_selected();
    list.collapse_selected();
    list.rebuild_list_if_dirty();
    let ids: Vec<u32> = list.items.items.iter().map(|i| i.id).collect();
    assert_eq!(ids, vec![1]);
    // items 2 and 3 keep their own expansion flags
    let kids = list.item_tree.children_of(1);
    assert_eq!(kids[0].expand, ExpandStatus::Open);
}

#[test]
fn delete_reparents_children() {
    let mut list = RutuduList::default();
    let mut i1 = Item::new(1, "one", "");
    i1.expand = ExpandStatus::Open;
    let mut i2 = Item::new(2, "two", "");
    i2.parent_id = 1;
    i2.expand = ExpandStatus::Open;
    let mut i3 = Item::new(3, "three", "");
    i3.parent_id = 2;
    list.restore_item(i1);
    list.restore_item(i2);
    list.restore_item(i3);
    list.rebuild_list_if_dirty();
    list.items.selected = Some(1); // item 2
    list.delete_selected();
    let kids = list.item_tree.children_of(1);
    assert_eq!(kids.len(), 1);
    assert_eq!(kids[0].id, 3);
    assert_eq!(kids[0].parent_id, 1);
    list.rebuild_list_if_dirty();
    let ids: Vec<u32> = list.items.items.iter().map(|i| i.id).collect();
    let depths: Vec<usize> = list.items.items.iter().map(|i| i.depth).collect();
    assert_eq!(ids, vec![1, 3]);
    assert_eq!(depths, vec![0, 1]);
}

#[test]
fn delete_preserves_count_erase_drops_subtree() {
    // four items: 1 with children 2 and 3, plus 4 at the root
    let build = || {
        let mut list = RutuduList::default();
        let mut i1 = Item::new(1, "one", "");
        i1.expand = ExpandStatus::Open;
        let mut i2 = Item::new(2, "two", "");
        i2.parent_id = 1;
        let mut i3 = Item::new(3, "three", "");
        i3.parent_id = 1;
        let i4 = Item::new(4, "four", "");
        list.restore_item(i1);
        list.restore_item(i2);
        list.restore_item(i3);
        list.restore_item(i4);
        list.rebuild_list_if_dirty();
        list.items.selected = Some(0); // item 1
        list
    };
    let mut deleted = build();
    assert_eq!(deleted.size(), 4);
    deleted.delete_selected();
    assert_eq!(deleted.size(), 3); // N - 1, children kept

    let mut erased = build();
    erased.erase_selected();
    assert_eq!(erased.size(), 1); // N - 1 - k, subtree bucket gone
}

#[test]
fn move_up_wraps_first_to_last() {
    let mut list = RutuduList::default();
    for n in 1..=3u32 {
        list.restore_item(Item::new(n, &format!("r{}", n), ""));
    }
    list.rebuild_list_if_dirty();
    list.items.selected = Some(0); // id 1, first sibling
    list.move_item(MoveDirection::Up);
    assert_eq!(root_ids(&list), vec![3, 2, 1]);
    // the selection followed the moved item
    let sel = list.items.selected.unwrap();
    assert_eq!(list.items.items[sel].id, 1);
}

#[test]
fn move_down_wraps_last_to_first() {
    let mut list = RutuduList::default();
    for n in 1..=3u32 {
        list.restore_item(Item::new(n, &format!("r{}", n), ""));
    }
    list.rebuild_list_if_dirty();
    list.items.selected = Some(2); // id 3, last sibling
    list.move_item(MoveDirection::Down);
    assert_eq!(root_ids(&list), vec![3, 2, 1]);
}

#[test]
fn move_in_out_round_trip() {
    let mut list = RutuduList::default();
    list.restore_item(Item::new(1, "A", ""));
    list.restore_item(Item::new(2, "B", ""));
    list.rebuild_list_if_dirty();
    list.items.selected = Some(1); // B
    list.move_item(MoveDirection::In);
    let kids = list.item_tree.children_of(1);
    assert_eq!(kids.len(), 1);
    assert_eq!(kids[0].id, 2);
    assert_eq!(kids[0].parent_id, 1);
    // selection followed B; move it back out
    list.move_item(MoveDirection::Out);
    let b = list
        .item_tree
        .children_of(0)
        .into_iter()
        .find(|i| i.id == 2)
        .expect("B back at root");
    assert_eq!(b.parent_id, 0);
    assert!(list.item_tree.children_of(1).is_empty());
}

#[test]
fn move_in_on_lone_child_is_a_no_op() {
    let mut list = RutuduList::default();
    list.restore_item(Item::new(1, "only", ""));
    list.rebuild_list_if_dirty();
    list.items.selected = Some(0);
    list.move_item(MoveDirection::In);
    assert_eq!(root_ids(&list), vec![1]);
}

#[test]
fn move_out_at_root_is_a_no_op() {
    let mut list = RutuduList::default();
    list.restore_item(Item::new(1, "a", ""));
    list.restore_item(Item::new(2, "b", ""));
    list.rebuild_list_if_dirty();
    list.items.selected = Some(0);
    list.move_item(MoveDirection::Out);
    assert_eq!(root_ids(&list), vec![1, 2]);
}

#[test]
fn max_id_never_collides() {
    let mut list = RutuduList::default();
    let mut seen = Vec::new();
    for _ in 0..8 {
        let mut item = list.get_current_input_as_item("entry");
        assert!(!seen.contains(&item.id));
        assert!(item.id > list.item_tree.max_id() || list.item_tree.max_id() == item.id - 1);
        seen.push(item.id);
        list.insert_item(&mut item);
    }
    assert_eq!(list.get_max_id(), 8);
    assert_eq!(list.size(), 8);
}

#[test]
fn insert_sibling_lands_right_after_selected() {
    let mut list = RutuduList::default();
    list.restore_item(Item::new(1, "A", ""));
    list.restore_item(Item::new(2, "B", ""));
    list.rebuild_list_if_dirty();
    list.items.selected = Some(0); // A
    list.enter_insert_mode(InputMode::InsertSibling);
    let mut c = list.get_current_input_as_item("C");
    assert_eq!(c.id, 3);
    list.insert_item(&mut c);
    assert_eq!(root_ids(&list), vec![1, 3, 2]);
}

#[test]
fn insert_as_parent_splices_above_selected() {
    let mut list = RutuduList::default();
    list.restore_item(Item::new(1, "old", ""));
    list.rebuild_list_if_dirty();
    list.items.selected = Some(0);
    list.enter_insert_mode(InputMode::InsertParent);
    let mut p = list.get_current_input_as_item("new parent");
    assert_eq!(p.id, 2);
    list.insert_item(&mut p);
    // the new item took the old item's place at the root
    assert_eq!(root_ids(&list), vec![2]);
    let roots = list.item_tree.children_of(0);
    assert_eq!(roots[0].expand, ExpandStatus::ShowChildren);
    // and the old item hangs beneath it
    let kids = list.item_tree.children_of(2);
    assert_eq!(kids.len(), 1);
    assert_eq!(kids[0].id, 1);
    assert_eq!(kids[0].parent_id, 2);
    assert_eq!(p.parent_id, 0);
}

#[test]
fn insert_as_parent_without_selection_changes_nothing() {
    let mut list = RutuduList::default();
    list.enter_insert_mode(InputMode::InsertParent);
    let mut p = Item::new(1, "nobody", "");
    list.insert_item(&mut p);
    assert_eq!(list.size(), 0);
}

#[test]
fn insert_refuses_id_zero_and_duplicates() {
    let mut list = RutuduList::default();
    let mut zero = Item::new(0, "zero", "");
    list.insert_item(&mut zero);
    assert_eq!(list.size(), 0);
    let mut one = Item::new(1, "one", "");
    list.insert_item(&mut one);
    let mut dup = Item::new(1, "dup", "");
    list.insert_item(&mut dup);
    assert_eq!(list.size(), 1);
}

#[test]
fn toggle_completion_updates_both_copies() {
    let mut list = RutuduList::default();
    list.restore_item(Item::new(1, "a", ""));
    list.rebuild_list_if_dirty();
    list.items.selected = Some(0);
    list.toggle_selected_item_completion_status();
    assert_eq!(list.items.items[0].complete, CompleteStatus::Complete);
    assert_eq!(
        list.item_tree.children_of(0)[0].complete,
        CompleteStatus::Complete
    );
    assert!(list.unsaved);
    list.toggle_selected_item_completion_status();
    assert_eq!(list.items.items[0].complete, CompleteStatus::Incomplete);
}

#[test]
fn cascade_toggle_sets_direct_children_one_level_deep() {
    let mut list = RutuduList::default();
    let mut i1 = Item::new(1, "p", "");
    i1.expand = ExpandStatus::Open;
    let mut i2 = Item::new(2, "c1", "");
    i2.parent_id = 1;
    i2.expand = ExpandStatus::Open;
    let mut i3 = Item::new(3, "c2", "");
    i3.parent_id = 1;
    let mut i4 = Item::new(4, "grandchild", "");
    i4.parent_id = 2;
    list.restore_item(i1);
    list.restore_item(i2);
    list.restore_item(i3);
    list.restore_item(i4);
    list.rebuild_list_if_dirty();
    list.items.selected = Some(0);
    list.toggle_selected_item_and_children_completion_status();
    let kids = list.item_tree.children_of(1);
    assert_eq!(kids[0].complete, CompleteStatus::Complete);
    assert_eq!(kids[1].complete, CompleteStatus::Complete);
    // one level deep only: the grandchild is untouched
    let grand = list.item_tree.children_of(2);
    assert_eq!(grand[0].complete, CompleteStatus::Incomplete);
}

#[test]
fn mark_toggles_visual_tag_without_unsaved() {
    let mut list = RutuduList::default();
    list.restore_item(Item::new(1, "a", ""));
    list.rebuild_list_if_dirty();
    list.dirty_list = false;
    list.unsaved = false;
    list.items.selected = Some(0);
    list.mark_selected_item();
    assert!(list.items.items[0].tracking_time);
    assert!(list.item_tree.children_of(0)[0].tracking_time);
    assert!(!list.unsaved);
    list.mark_selected_item();
    assert!(!list.items.items[0].tracking_time);
}

#[test]
fn expand_skips_show_children_when_childless() {
    let mut list = RutuduList::default();
    list.restore_item(Item::new(1, "leaf", ""));
    list.rebuild_list_if_dirty();
    list.items.selected = Some(0);
    list.expand_selected();
    // no children: Closed jumps straight to Open
    assert_eq!(list.item_tree.children_of(0)[0].expand, ExpandStatus::Open);
    list.collapse_selected();
    assert_eq!(
        list.item_tree.children_of(0)[0].expand,
        ExpandStatus::Closed
    );
}

#[test]
fn stateful_list_selection_wraps() {
    let mut sl: StatefulList<u32> = StatefulList::new();
    sl.items.push(10);
    sl.items.push(20);
    sl.items.push(30);
    sl.next();
    assert_eq!(sl.selected, Some(0));
    sl.previous();
    assert_eq!(sl.selected, Some(2));
    sl.next();
    assert_eq!(sl.selected, Some(0));
}

#[test]
fn selection_moves_through_model() {
    let mut list = RutuduList::default();
    list.restore_item(Item::new(1, "a", ""));
    list.restore_item(Item::new(2, "b", ""));
    list.rebuild_list_if_dirty();
    list.down();
    assert_eq!(list.items.selected, Some(0));
    list.down();
    assert_eq!(list.items.selected, Some(1));
    list.down();
    assert_eq!(list.items.selected, Some(0));
    list.up();
    assert_eq!(list.items.selected, Some(1));
}

#[test]
fn input_split_title_and_entry() {
    let list = RutuduList::default();
    let item = list.get_current_input_as_item("Title line\nrest of the\nentry");
    assert_eq!(item.title, "Title line");
    assert_eq!(item.entry, "\nrest of the\nentry");
    let bare = list.get_current_input_as_item("no newline at all");
    assert_eq!(bare.title, "no newline at all");
    assert_eq!(bare.entry, "");
}

#[test]
fn item_state_machines() {
    let mut it = Item::new(7, "t", "e");
    assert!(!it.should_show_children());
    it.expand();
    assert_eq!(it.expand, ExpandStatus::ShowChildren);
    assert!(it.should_show_children());
    it.expand();
    assert_eq!(it.expand, ExpandStatus::Open);
    it.expand();
    assert_eq!(it.expand, ExpandStatus::Open);
    it.collapse();
    assert_eq!(it.expand, ExpandStatus::ShowChildren);
    it.collapse();
    assert_eq!(it.expand, ExpandStatus::Closed);
    it.collapse();
    assert_eq!(it.expand, ExpandStatus::Closed);
    it.show_children();
    assert_eq!(it.expand, ExpandStatus::ShowChildren);
    it.toggle_complete_status();
    assert_eq!(it.complete, CompleteStatus::Complete);
    it.toggle_complete_status();
    assert_eq!(it.complete, CompleteStatus::Incomplete);
}

#[test]
fn expansion_symbols() {
    let mut it = Item::new(1, "t", "");
    assert_eq!(it.expansion_state_symbol(), "[+]");
    it.expand = ExpandStatus::ShowChildren;
    assert_eq!(it.expansion_state_symbol(), "[|]");
    it.expand = ExpandStatus::Open;
    assert_eq!(it.expansion_state_symbol(), "[-]");
}

#[test]
fn move_in_appends_as_last_child() {
    let mut list = RutuduList::default();
    let mut a = Item::new(1, "A", "");
    a.expand = ExpandStatus::Open;
    let mut c = Item::new(2, "C", "");
    c.parent_id = 1;
    let b = Item::new(3, "B", "");
    list.restore_item(a);
    list.restore_item(c);
    list.restore_item(b);
    list.rebuild_list_if_dirty();
    // display: A, C, B; select B and move it under A
    list.items.selected = Some(2);
    list.move_item(MoveDirection::In);
    let kids: Vec<u32> = list.item_tree.children_of(1).iter().map(|i| i.id).collect();
    assert_eq!(kids, vec![2, 3]); // B lands after the existing child
}

#[test]
fn nothing_selected_is_a_silent_no_op() {
    let mut list = RutuduList::default();
    let mut it = Item::new(1, "a", "");
    it.expand = ExpandStatus::ShowChildren;
    list.restore_item(it);
    list.rebuild_list_if_dirty();
    list.items.selected = None;
    list.expand_selected();
    list.collapse_selected();
    list.toggle_selected_item_completion_status();
    list.toggle_selected_item_and_children_completion_status();
    list.mark_selected_item();
    let item = &list.item_tree.children_of(0)[0];
    assert_eq!(item.expand, ExpandStatus::ShowChildren);
    assert_eq!(item.complete, CompleteStatus::Incomplete);
    assert!(!item.tracking_time);
}

#[test]
fn rebuild_empties_display_with_the_forest() {
    let mut list = RutuduList::default();
    list.restore_item(Item::new(1, "a", ""));
    list.rebuild_list_if_dirty();
    assert_eq!(list.items.items.len(), 1);
    list.restore_list(Vec::new());
    list.rebuild_list_if_dirty();
    assert!(list.items.items.is_empty());
}
