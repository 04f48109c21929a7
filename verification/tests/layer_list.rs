use scan_control::ok_trace::OkTraceExt;
use scan_control::selectable_list::{ListModifier, SelectableEntry, SelectableList};
use scan_control::selection::{SelectableMember, SelectableVecExt};
use scan_control::undo_queue::{StateModify, UndoQueue};

fn list_of(items: &[char]) -> SelectableList<char> {
    let mut list = SelectableList::new();
    for c in items {
        list.push(SelectableEntry::new(*c));
    }
    list
}

fn contents(list: &SelectableList<char>) -> Vec<char> {
    list.entries().iter().map(|e| e.inner).collect()
}

fn selected(list: &SelectableList<char>) -> Vec<usize> {
    list.iter_selected_indexes()
}

#[test]
fn plain_click_selects_one() {
    let mut list = list_of(&['a', 'b', 'c', 'd']);
    list.click(1, false, false);
    list.click(2, false, false);
    assert_eq!(selected(&list), vec![2]);
    assert_eq!(list.last_selected(), Some(2));
}

#[test]
fn ctrl_click_toggles() {
    let mut list = list_of(&['a', 'b', 'c', 'd']);
    list.click(1, false, true);
    list.click(3, false, true);
    assert_eq!(selected(&list), vec![1, 3]);
    list.click(1, false, true);
    assert_eq!(selected(&list), vec![3]);
    assert_eq!(list.last_selected(), Some(3));
}

#[test]
fn shift_click_extends_towards_the_anchor() {
    let mut list = list_of(&['a', 'b', 'c', 'd', 'e']);
    list.click(1, false, false);
    list.click(4, true, false);
    assert_eq!(selected(&list), vec![1, 2, 3, 4]);
    assert_eq!(list.last_selected(), Some(4));
}

#[test]
fn shift_click_without_anchor_is_a_plain_click() {
    let mut list = list_of(&['a', 'b', 'c']);
    list.click(2, true, false);
    assert_eq!(selected(&list), vec![2]);
}

#[test]
fn clear_selected_forgets_the_anchor() {
    let mut list = list_of(&['a', 'b']);
    list.click(0, false, false);
    list.clear_selected();
    assert!(selected(&list).is_empty());
    assert_eq!(list.last_selected(), None);
}

#[test]
fn move_indexes_up_stops_at_the_front() {
    let mut list = list_of(&['a', 'b', 'c', 'd']);
    let moved = list.move_indexes_up(&[0, 2]);
    assert_eq!(moved, vec![1]);
    assert_eq!(contents(&list), vec!['a', 'c', 'b', 'd']);
}

#[test]
fn move_indexes_down_stops_at_the_back() {
    let mut list = list_of(&['a', 'b', 'c', 'd']);
    let moved = list.move_indexes_down(&[1, 3]);
    assert_eq!(moved, vec![2]);
    assert_eq!(contents(&list), vec!['a', 'c', 'b', 'd']);
}

#[test]
fn moving_up_then_down_restores_the_order() {
    let mut list = list_of(&['a', 'b', 'c', 'd', 'e']);
    let moved = list.move_indexes_up(&[1, 3]);
    assert_eq!(moved, vec![0, 2]);
    let back = list.move_indexes_down(&moved);
    assert_eq!(back, vec![1, 3]);
    assert_eq!(contents(&list), vec!['a', 'b', 'c', 'd', 'e']);
}

#[test]
fn remove_then_reinsert_restores_the_list() {
    let mut list = list_of(&['a', 'b', 'c', 'd']);
    let removed = list.remove_indexes(&[0, 2]);
    assert_eq!(removed.iter().map(|e| e.inner).collect::<Vec<_>>(), vec!['c', 'a']);
    assert_eq!(contents(&list), vec!['b', 'd']);
    list.reinsert(&[0, 2], removed);
    assert_eq!(contents(&list), vec!['a', 'b', 'c', 'd']);
}

#[test]
fn list_edits_undo_and_redo() {
    let mut list = list_of(&['a', 'b', 'c', 'd']);
    let mut queue: UndoQueue<SelectableList<char>, ListModifier<char>> = UndoQueue::new();
    queue.push(&mut list, ListModifier::delete(vec![1, 2]));
    assert_eq!(contents(&list), vec!['a', 'd']);
    queue.push(&mut list, ListModifier::move_forward(vec![0]));
    assert_eq!(contents(&list), vec!['d', 'a']);
    queue.undo(&mut list);
    assert_eq!(contents(&list), vec!['a', 'd']);
    queue.undo(&mut list);
    assert_eq!(contents(&list), vec!['a', 'b', 'c', 'd']);
    queue.redo(&mut list);
    assert_eq!(contents(&list), vec!['a', 'd']);
}

#[test]
fn move_backward_at_the_front_changes_nothing() {
    let mut list = list_of(&['a', 'b']);
    let mut modifier = ListModifier::move_backward(vec![0]);
    assert!(!modifier.redo(&mut list));
    assert_eq!(contents(&list), vec!['a', 'b']);
}

#[test]
fn list_insert_get_and_remove() {
    let mut list = list_of(&['a', 'c']);
    list.insert(1, SelectableEntry::new('b'));
    assert_eq!(list.len(), 3);
    assert_eq!(list.get(1).inner, 'b');
    list.get_mut(1).inner = 'x';
    let e = list.remove(1);
    assert_eq!(e.inner, 'x');
    assert!(!e.selected);
    assert_eq!(contents(&list), vec!['a', 'c']);
}

#[derive(PartialEq, Eq, Debug)]
struct Layer {
    name: &'static str,
    on: bool,
}

impl SelectableMember for Layer {
    fn selected_spec(&self) -> bool {
        self.on
    }
    fn set_selected(&mut self, selected: bool) {
        self.on = selected;
    }
    fn is_selected(&self) -> bool {
        self.on
    }
}

fn layers() -> Vec<Layer> {
    vec![
        Layer { name: "a", on: false },
        Layer { name: "b", on: false },
        Layer { name: "c", on: false },
    ]
}

#[test]
fn set_selected_idx_selects_one_member() {
    let mut v = layers();
    v.set_selected_idx(Some(1));
    assert_eq!(v.get_selected_index(), Some(1));
    assert_eq!(v.get_selected().map(|l| l.name), Some("b"));
    v.set_selected_idx(None);
    assert_eq!(v.get_selected_index(), None);
    assert!(v.get_selected().is_none());
}

#[test]
fn set_selected_by_member_and_change_it() {
    let mut v = layers();
    let target = Layer { name: "c", on: false };
    v.set_selected(Some(&target));
    assert_eq!(v.get_selected_index(), Some(2));
    if let Some(m) = v.get_selected_mut() {
        m.name = "z";
    }
    assert_eq!(v[2].name, "z");
    v.set_selected(None);
    assert!(v.get_selected_mut().is_none());
}

#[test]
fn ok_trace_keeps_success_only() {
    let good: Result<u8, String> = Ok(3);
    let bad: Result<u8, String> = Err("no".to_string());
    assert_eq!(good.ok_trace(), Some(3));
    assert_eq!(bad.ok_trace(), None);
}
