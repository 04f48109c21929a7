use scan_control::undo_queue::{StateModify, UndoQueue};

struct Add(i64);

impl StateModify<i64> for Add {
    fn redo_spec(&self, state: i64, changed: bool, after: Self, result: i64) -> bool {
        state.checked_add(self.0) == Some(result) && changed == (self.0 != 0) && after.0 == self.0
    }
    fn undo_spec(&self, state: i64, after: Self, result: i64) -> bool {
        state.checked_sub(self.0) == Some(result) && after.0 == self.0
    }
    fn combines(&self, _previous: Self) -> bool {
        false
    }
    fn merges(&self, _previous: Self, _result: Self) -> bool {
        false
    }
    fn redo(&mut self, state: &mut i64) -> bool {
        *state += self.0;
        self.0 != 0
    }
    fn undo(&mut self, state: &mut i64) {
        *state -= self.0;
    }
    fn combine(&mut self, _previous: &mut Self) -> bool {
        false
    }
}

#[test]
fn undo_and_redo_walk_the_history() {
    let mut state = 0i64;
    let mut queue: UndoQueue<i64, Add> = UndoQueue::new();
    queue.push(&mut state, Add(1));
    queue.push(&mut state, Add(10));
    assert_eq!(state, 11);
    queue.undo(&mut state);
    assert_eq!(state, 1);
    queue.undo(&mut state);
    assert_eq!(state, 0);
    queue.undo(&mut state);
    assert_eq!(state, 0);
    queue.redo(&mut state);
    assert_eq!(state, 1);
    queue.redo(&mut state);
    assert_eq!(state, 11);
    queue.redo(&mut state);
    assert_eq!(state, 11);
}

#[test]
fn push_after_undo_drops_the_redo_branch() {
    let mut state = 0i64;
    let mut queue: UndoQueue<i64, Add> = UndoQueue::new();
    queue.push(&mut state, Add(1));
    queue.push(&mut state, Add(10));
    queue.undo(&mut state);
    queue.push(&mut state, Add(100));
    assert_eq!(state, 101);
    queue.redo(&mut state);
    assert_eq!(state, 101);
    queue.undo(&mut state);
    queue.undo(&mut state);
    assert_eq!(state, 0);
}

#[test]
fn a_change_that_changes_nothing_is_not_recorded() {
    let mut state = 5i64;
    let mut queue: UndoQueue<i64, Add> = UndoQueue::new();
    queue.push(&mut state, Add(2));
    queue.push(&mut state, Add(0));
    queue.undo(&mut state);
    assert_eq!(state, 5);
}

#[test]
fn nothing_is_left_to_redo_after_a_push_that_follows_an_undo() {
    let mut state = 0i64;
    let mut queue: UndoQueue<i64, Add> = UndoQueue::new();
    queue.push(&mut state, Add(1));
    queue.push(&mut state, Add(1));
    queue.undo(&mut state);
    assert_eq!(state, 1);
    queue.push(&mut state, Add(9));
    assert_eq!(state, 10);
    queue.redo(&mut state);
    assert_eq!(state, 10);
}

#[test]
fn undo_and_redo_on_a_fresh_history_leave_the_state() {
    let mut state = 42i64;
    let mut queue: UndoQueue<i64, Add> = UndoQueue::new();
    queue.undo(&mut state);
    assert_eq!(state, 42);
    queue.redo(&mut state);
    assert_eq!(state, 42);
}

struct Merging(i64);

impl StateModify<i64> for Merging {
    fn redo_spec(&self, state: i64, changed: bool, after: Self, result: i64) -> bool {
        state.checked_add(self.0) == Some(result) && changed && after.0 == self.0
    }
    fn undo_spec(&self, state: i64, after: Self, result: i64) -> bool {
        state.checked_sub(self.0) == Some(result) && after.0 == self.0
    }
    fn combines(&self, _previous: Self) -> bool {
        true
    }
    fn merges(&self, previous: Self, result: Self) -> bool {
        previous.0.checked_add(self.0) == Some(result.0)
    }
    fn redo(&mut self, state: &mut i64) -> bool {
        *state += self.0;
        true
    }
    fn undo(&mut self, state: &mut i64) {
        *state -= self.0;
    }
    fn combine(&mut self, previous: &mut Self) -> bool {
        previous.0 += self.0;
        true
    }
}

#[test]
fn a_merged_change_is_undone_with_the_entry_it_joined() {
    let mut state = 0i64;
    let mut queue: UndoQueue<i64, Merging> = UndoQueue::new();
    queue.push(&mut state, Merging(2));
    queue.push(&mut state, Merging(5));
    assert_eq!(state, 7);
    queue.undo(&mut state);
    assert_eq!(state, 0);
    queue.redo(&mut state);
    assert_eq!(state, 7);
}
