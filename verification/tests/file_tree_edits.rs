use scan_control::file_tree::{same_path, FileTree, Folder, TreeFile, TreeItem};
use scan_control::indexer::Indexer;

fn p(parts: &[&str]) -> Vec<String> {
    parts.iter().map(|s| s.to_string()).collect()
}

fn file(parts: &[&str], data: u32) -> TreeItem<u32> {
    TreeItem::File { file: TreeFile { path: p(parts), data, selected: false } }
}

fn folder(parts: &[&str], children: Vec<TreeItem<u32>>) -> TreeItem<u32> {
    TreeItem::Folder { folder: Folder::new(p(parts), children) }
}

/// r/
///   a/
///     x
///     y
///   b
fn sample() -> FileTree<u32> {
    let a = folder(&["r", "a"], vec![file(&["r", "a", "x"], 1), file(&["r", "a", "y"], 2)]);
    let root = Folder::new(p(&["r"]), vec![a, file(&["r", "b"], 3)]);
    let mut tree = FileTree::new();
    tree.set_root(root);
    tree
}

fn file_paths(tree: &FileTree<u32>) -> Vec<Vec<String>> {
    (0..tree.len()).map(|i| tree.get(i).unwrap().path.clone()).collect()
}

fn item_paths(tree: &FileTree<u32>) -> Vec<Vec<String>> {
    (0..tree.item_count()).map(|i| tree.get_item(i).unwrap().path().clone()).collect()
}

fn selected_files(tree: &FileTree<u32>) -> Vec<u32> {
    (0..tree.len()).filter(|i| tree.get(*i).unwrap().selected).map(|i| tree.get(i).unwrap().data).collect()
}

#[test]
fn preorder_numbering_of_entries_and_files() {
    let tree = sample();
    assert_eq!(tree.item_count(), 4);
    assert_eq!(tree.len(), 3);
    assert_eq!(item_paths(&tree), vec![p(&["r", "a"]), p(&["r", "a", "x"]), p(&["r", "a", "y"]), p(&["r", "b"])]);
    assert_eq!(file_paths(&tree), vec![p(&["r", "a", "x"]), p(&["r", "a", "y"]), p(&["r", "b"])]);
    assert!(tree.get(3).is_none());
    assert!(tree.get_item(4).is_none());
    assert_eq!(tree.root_path(), Some(&p(&["r"])));
}

#[test]
fn an_empty_tree_has_nothing() {
    let mut tree: FileTree<u32> = FileTree::new();
    assert_eq!(tree.len(), 0);
    assert!(tree.get(0).is_none());
    assert!(tree.root_path().is_none());
    assert!(!tree.apply_create(file(&["r", "z"], 9)));
    assert!(!tree.apply_delete(p(&["r", "z"])));
}

#[test]
fn position_and_folder_queries() {
    let tree = sample();
    let item = tree.get_item(0).unwrap();
    let inner = item.as_folder().unwrap();
    assert_eq!(inner.item_count(), 2);
    assert_eq!(inner.file_count(), 2);
    assert_eq!(inner.position_of(&p(&["r", "a", "y"])), Some(1));
    assert_eq!(inner.position_of(&p(&["r", "b"])), None);
    assert!(inner.contains_path(&p(&["r", "a", "x"])));
    assert!(same_path(&p(&["r", "a"]), &p(&["r", "a"])));
    assert!(!same_path(&p(&["r", "a"]), &p(&["r"])));
}

#[test]
fn a_created_file_joins_its_folder() {
    let mut tree = sample();
    assert!(tree.apply_create(file(&["r", "a", "z"], 4)));
    assert_eq!(
        file_paths(&tree),
        vec![p(&["r", "a", "x"]), p(&["r", "a", "y"]), p(&["r", "a", "z"]), p(&["r", "b"])]
    );
}

#[test]
fn a_file_created_directly_in_the_top_folder_is_dropped() {
    let mut tree = sample();
    assert!(!tree.apply_create(file(&["r", "c"], 4)));
    assert_eq!(tree.len(), 3);
}

#[test]
fn a_deleted_file_leaves_its_folder() {
    let mut tree = sample();
    assert!(tree.apply_delete(p(&["r", "a", "x"])));
    assert_eq!(file_paths(&tree), vec![p(&["r", "a", "y"]), p(&["r", "b"])]);
}

#[test]
fn deleting_what_was_created_restores_the_tree() {
    let mut tree = sample();
    let before = item_paths(&tree);
    assert!(tree.apply_create(file(&["r", "a", "new"], 5)));
    assert!(tree.apply_delete(p(&["r", "a", "new"])));
    assert_eq!(item_paths(&tree), before);
}

#[test]
fn renaming_a_folder_moves_what_is_inside() {
    let mut tree = sample();
    assert!(tree.apply_rename(p(&["r", "a"]), p(&["r", "q"])));
    assert_eq!(
        item_paths(&tree),
        vec![p(&["r", "q"]), p(&["r", "q", "x"]), p(&["r", "q", "y"]), p(&["r", "b"])]
    );
}

#[test]
fn renaming_a_missing_path_changes_nothing() {
    let mut tree = sample();
    assert!(!tree.apply_rename(p(&["r", "nope"]), p(&["r", "q"])));
    assert_eq!(tree.item_count(), 4);
}

#[test]
fn renaming_only_looks_among_the_first_positions() {
    let mut tree = sample();
    // "r/b" is entry 3, not below the number of files (3): it is not renamed.
    assert!(!tree.apply_rename(p(&["r", "b"]), p(&["r", "c"])));
    assert_eq!(tree.get(2).unwrap().path, p(&["r", "b"]));
}

#[test]
fn moving_a_file_between_folders() {
    let d = folder(&["r", "d"], vec![]);
    let a = folder(&["r", "a"], vec![file(&["r", "a", "x"], 1), file(&["r", "a", "y"], 2)]);
    let mut tree = FileTree::new();
    tree.set_root(Folder::new(p(&["r"]), vec![a, d]));
    assert!(tree.apply_move(p(&["r", "a", "x"]), p(&["r", "d", "x2"])));
    assert_eq!(
        item_paths(&tree),
        vec![p(&["r", "a"]), p(&["r", "a", "y"]), p(&["r", "d"]), p(&["r", "d", "x2"])]
    );
    assert_eq!(tree.get(1).unwrap().data, 1);
}

#[test]
fn moving_to_the_top_folder_drops_the_entry() {
    let mut tree = sample();
    assert!(!tree.apply_move(p(&["r", "a", "x"]), p(&["r", "x"])));
    assert_eq!(file_paths(&tree), vec![p(&["r", "a", "y"]), p(&["r", "b"])]);
}

#[test]
fn clicks_select_files() {
    let mut tree = sample();
    tree.click(1, false, false);
    assert_eq!(selected_files(&tree), vec![1]);
    assert_eq!(tree.last_selected(), Some(1));
    tree.click(3, false, true);
    assert_eq!(selected_files(&tree), vec![1, 3]);
    assert_eq!(tree.last_selected(), Some(3));
    tree.click(2, true, false);
    assert_eq!(selected_files(&tree), vec![2, 3]);
    assert_eq!(tree.last_selected(), Some(3));
    tree.click(0, false, false);
    assert_eq!(selected_files(&tree), vec![2, 3]);
    tree.click(3, false, true);
    assert_eq!(selected_files(&tree), vec![2]);
    assert_eq!(tree.last_selected(), Some(3));
    tree.clear_selected();
    assert!(selected_files(&tree).is_empty());
}

#[test]
fn files_change_in_place() {
    let mut tree = sample();
    tree.get_mut(1).unwrap().data = 20;
    assert_eq!(tree.get(1).unwrap().data, 20);
    assert!(tree.get_mut(5).is_none());
}

#[test]
fn indexers_lead_to_the_files() {
    let a = folder(&["r", "a"], vec![file(&["r", "a", "x"], 1), file(&["r", "a", "y"], 2)]);
    let top = folder(&["r"], vec![a, file(&["r", "b"], 3)]);
    let paths = top.file_indexers();
    assert_eq!(paths.len(), 3);
    let data: Vec<u32> = paths
        .iter()
        .map(|ind| match top.get_at(*ind) {
            Some(TreeItem::File { file }) => file.data,
            _ => 0,
        })
        .collect();
    assert_eq!(data, vec![1, 2, 3]);
    let mut ind = Indexer::new();
    ind.push(0);
    assert_eq!(top.get_at(ind).unwrap().path(), &p(&["r", "a"]));
    ind.push_front(1);
    assert_eq!(top.get_at(ind).unwrap().path(), &p(&["r", "a", "y"]));
    let mut deeper = Indexer::new();
    deeper.push(0);
    deeper.push(1);
    assert!(top.get_at(deeper).is_none());
}

#[test]
fn a_moved_entry_joins_the_target_folder_itself() {
    let a = folder(&["r", "a"], vec![file(&["r", "a", "x"], 1)]);
    let d = folder(&["r", "d"], vec![folder(&["r", "d", "e"], vec![])]);
    let mut tree = FileTree::new();
    tree.set_root(Folder::new(p(&["r"]), vec![a, d]));
    assert!(tree.apply_move(p(&["r", "a", "x"]), p(&["r", "d", "x"])));
    assert!(tree.apply_delete(p(&["r", "d", "e"])));
    assert_eq!(item_paths(&tree), vec![p(&["r", "a"]), p(&["r", "d"]), p(&["r", "d", "x"])]);
    assert_eq!(file_paths(&tree), vec![p(&["r", "d", "x"])]);
}

#[test]
fn deleting_keeps_the_other_children_in_order() {
    let a = folder(&["r", "a"], vec![file(&["r", "a", "x"], 1), folder(&["r", "a", "s"], vec![file(&["r", "a", "s", "t"], 4)]), file(&["r", "a", "y"], 2)]);
    let mut tree = FileTree::new();
    tree.set_root(Folder::new(p(&["r"]), vec![a]));
    assert!(tree.apply_delete(p(&["r", "a", "x"])));
    assert_eq!(item_paths(&tree), vec![p(&["r", "a"]), p(&["r", "a", "s"]), p(&["r", "a", "s", "t"]), p(&["r", "a", "y"])]);
    assert!(tree.apply_delete(p(&["r", "a", "s"])));
    assert_eq!(file_paths(&tree), vec![p(&["r", "a", "y"])]);
}
