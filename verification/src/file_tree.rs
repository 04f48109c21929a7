//! A folder tree of loaded files, numbered in preorder: every entry is
//! followed by the entries inside it.
use crate::indexer::Indexer;
use vstd::prelude::*;

verus! {

/// A loaded file of the tree.
pub struct TreeFile<T> {
    /// The components of its path.
    pub path: Vec<String>,
    pub data: T,
    pub selected: bool,
}

/// A folder of the tree and what it holds.
pub struct Folder<T> {
    /// The components of its path.
    pub path: Vec<String>,
    pub children: Vec<TreeItem<T>>,
}

/// An entry of the tree.
pub enum TreeItem<T> {
    Folder { folder: Folder<T> },
    File { file: TreeFile<T> },
}

/// An entry followed by everything inside it, in preorder.
pub open spec fn entry_items<T>(c: TreeItem<T>) -> Seq<TreeItem<T>>
    decreases c,
{
    seq![c] + match c {
        TreeItem::Folder { folder } => seq_items(folder.children@),
        TreeItem::File { .. } => Seq::empty(),
    }
}

/// The entries of a row of siblings and everything inside them, in
/// preorder.
pub open spec fn seq_items<T>(cs: Seq<TreeItem<T>>) -> Seq<TreeItem<T>>
    decreases cs,
{
    if cs.len() == 0 {
        Seq::empty()
    } else {
        seq_items(cs.drop_last()) + entry_items(cs.last())
    }
}

/// The files inside an entry, in preorder.
pub open spec fn entry_files<T>(c: TreeItem<T>) -> Seq<TreeFile<T>>
    decreases c,
{
    match c {
        TreeItem::Folder { folder } => seq_files(folder.children@),
        TreeItem::File { file } => seq![file],
    }
}

/// The files inside a row of siblings, in preorder.
pub open spec fn seq_files<T>(cs: Seq<TreeItem<T>>) -> Seq<TreeFile<T>>
    decreases cs,
{
    if cs.len() == 0 {
        Seq::empty()
    } else {
        seq_files(cs.drop_last()) + entry_files(cs.last())
    }
}

/// Preorder numbering distributes over joining two rows of siblings.
pub proof fn lemma_seq_items_append<T>(a: Seq<TreeItem<T>>, b: Seq<TreeItem<T>>)
    ensures
        seq_items(a + b) == seq_items(a) + seq_items(b),
        seq_files(a + b) == seq_files(a) + seq_files(b),
    decreases b.len(),
{
    if b.len() == 0 {
        assert(a + b =~= a);
        assert(seq_items(a) + seq_items(b) =~= seq_items(a));
        assert(seq_files(a) + seq_files(b) =~= seq_files(a));
    } else {
        assert((a + b).drop_last() =~= a + b.drop_last());
        assert((a + b).last() == b.last());
        lemma_seq_items_append(a, b.drop_last());
        assert(seq_items(a + b) =~= seq_items(a) + seq_items(b));
        assert(seq_files(a + b) =~= seq_files(a) + seq_files(b));
    }
}

/// The entries of the first `k + 1` siblings are those of the first `k`
/// followed by the entries of sibling `k`.
pub proof fn lemma_seq_items_take<T>(cs: Seq<TreeItem<T>>, k: int)
    requires
        0 <= k < cs.len(),
    ensures
        seq_items(cs.take(k + 1)) == seq_items(cs.take(k)) + entry_items(cs[k]),
        seq_files(cs.take(k + 1)) == seq_files(cs.take(k)) + entry_files(cs[k]),
        seq_items(cs.take(k + 1)).len() <= seq_items(cs).len(),
        seq_files(cs.take(k + 1)).len() <= seq_files(cs).len(),
{
    assert(cs.take(k + 1).drop_last() =~= cs.take(k));
    assert(cs.take(k + 1).last() == cs[k]);
    assert(cs =~= cs.take(k + 1) + cs.skip(k + 1));
    lemma_seq_items_append(cs.take(k + 1), cs.skip(k + 1));
}

/// The components of a path, as text.
pub open spec fn path_view(path: Vec<String>) -> Seq<Seq<char>> {
    path.deep_view()
}

/// The path of an entry.
pub open spec fn item_path<T>(c: TreeItem<T>) -> Seq<Seq<char>> {
    match c {
        TreeItem::Folder { folder } => path_view(folder.path),
        TreeItem::File { file } => path_view(file.path),
    }
}

/// What preorder numbering shows of one entry: a folder by its path, a
/// file by its path, data and selection.
pub enum TreeNode<T> {
    Folder { path: Seq<Seq<char>> },
    File { path: Seq<Seq<char>>, data: T, selected: bool },
}

/// The node that an entry shows.
pub open spec fn node_of<T>(c: TreeItem<T>) -> TreeNode<T> {
    match c {
        TreeItem::Folder { folder } => TreeNode::Folder { path: path_view(folder.path) },
        TreeItem::File { file } => TreeNode::File {
            path: path_view(file.path),
            data: file.data,
            selected: file.selected,
        },
    }
}

/// The nodes of an entry and of everything inside it, in preorder.
pub open spec fn entry_nodes<T>(c: TreeItem<T>) -> Seq<TreeNode<T>> {
    entry_items(c).map_values(|x: TreeItem<T>| node_of(x))
}

/// The nodes of a row of siblings and of everything inside them.
pub open spec fn seq_nodes<T>(cs: Seq<TreeItem<T>>) -> Seq<TreeNode<T>> {
    seq_items(cs).map_values(|x: TreeItem<T>| node_of(x))
}

/// Position `j` holds the first entry of `items` whose path is `p`.
pub open spec fn is_first_match<T>(items: Seq<TreeItem<T>>, p: Seq<Seq<char>>, j: int) -> bool {
    &&& 0 <= j < items.len()
    &&& item_path(items[j]) == p
    &&& forall|i: int| 0 <= i < j ==> item_path(#[trigger] items[i]) != p
}

/// No entry of `items` has the path `p`.
pub open spec fn no_match<T>(items: Seq<TreeItem<T>>, p: Seq<Seq<char>>) -> bool {
    forall|i: int| 0 <= i < items.len() ==> item_path(#[trigger] items[i]) != p
}

/// Whether two paths have the same components.
pub fn same_path(a: &Vec<String>, b: &Vec<String>) -> (r: bool)
    ensures
        r == (path_view(*a) == path_view(*b)),
{
    if a.len() != b.len() {
        assert(path_view(*a).len() != path_view(*b).len());
        return false;
    }
    let mut k: usize = 0;
    while k < a.len()
        invariant
            a.len() == b.len(),
            k <= a.len(),
            forall|i: int| 0 <= i < k ==> a@[i]@ == b@[i]@,
        decreases a.len() - k,
    {
        if a[k] != b[k] {
            assert(path_view(*a)[k as int] != path_view(*b)[k as int]);
            return false;
        }
        k = k + 1;
    }
    assert(path_view(*a) =~= path_view(*b));
    true
}

impl<T> TreeItem<T> {
    /// The file, if the entry is one, for changing it in place.
    pub fn as_file_mut(&mut self) -> (r: Option<&mut TreeFile<T>>)
        ensures
            match r {
                Some(m) => *old(self) == (TreeItem::File { file: *m }) && *final(self) == (TreeItem::File { file: *final(m) }),
                None => *old(self) is Folder && *final(self) == *old(self),
            },
    {
        match self {
            TreeItem::File { file } => Some(file),
            TreeItem::Folder { .. } => None,
        }
    }

    /// The entry reached by following `indexer`, as `entry_at` says.
    pub fn get_at(&self, indexer: Indexer) -> (r: Option<&TreeItem<T>>)
        requires
            indexer.wf(),
            path_in_range(*self, indexer@),
        ensures
            match r {
                Some(x) => entry_at(*self, indexer@) == Some(*x),
                None => entry_at(*self, indexer@) is None,
            },
        decreases indexer@.len(),
    {
        let mut indexer = indexer;
        if indexer.is_empty() {
            Some(self)
        } else {
            let i = indexer.pop();
            match self {
                TreeItem::Folder { folder } => folder.children[i].get_at(indexer),
                TreeItem::File { .. } => None,
            }
        }
    }

    /// The path to each file inside the entry, in preorder; a file is
    /// reached by the empty path.
    pub fn file_indexers(&self) -> (r: Vec<Indexer>)
        requires
            fits_depth(*self, 15),
        ensures
            leads_to_files(*self, r@.map_values(|x: Indexer| x@), 15),
            forall|k: int| 0 <= k < r@.len() ==> (#[trigger] r@[k]).wf(),
    {
        self.indexers_within(Ghost(15))
    }

    fn indexers_within(&self, Ghost(d): Ghost<nat>) -> (r: Vec<Indexer>)
        requires
            fits_depth(*self, d),
            d <= 15,
        ensures
            leads_to_files(*self, r@.map_values(|x: Indexer| x@), d),
            forall|k: int| 0 <= k < r@.len() ==> (#[trigger] r@[k]).wf(),
        decreases *self,
    {
        match self {
            TreeItem::File { .. } => {
                let r = vec![Indexer::new()];
                proof {
                    assert(entry_files(*self) =~= seq![self->file]);
                    assert(r@.map_values(|x: Indexer| x@)[0] == Seq::<usize>::empty());
                }
                r
            },
            TreeItem::Folder { folder } => {
                let ghost cs = folder.children@;
                let mut r: Vec<Indexer> = Vec::new();
                let n = folder.children.len();
                let mut i: usize = 0;
                while i < n
                    invariant
                        n == cs.len(),
                        cs == folder.children@,
                        *self is Folder,
                        self->folder.children@ == cs,
                        i <= n,
                        d > 0,
                        d <= 15,
                        forall|k: int| 0 <= k < cs.len() ==> fits_depth(#[trigger] cs[k], (d - 1) as nat),
                        r@.len() == seq_files(cs.take(i as int)).len(),
                        forall|k: int| 0 <= k < r@.len() ==> (#[trigger] r@[k]).wf(),
                        forall|k: int|
                            0 <= k < r@.len() ==> {
                                &&& entry_at(*self, #[trigger] r@[k]@) == Some(
                                    TreeItem::File { file: seq_files(cs.take(i as int))[k] },
                                )
                                &&& r@[k]@.len() <= d
                            },
                        decreases_to!(*self => cs),
                    decreases n - i,
                {
                    proof {
                        lemma_seq_items_take(cs, i as int);
                        assert(decreases_to!(*self => cs[i as int]));
                    }
                    let sub = folder.children[i].indexers_within(Ghost((d - 1) as nat));
                    let ghost before = r@;
                    let m = sub.len();
                    proof {
                        let subv = sub@.map_values(|x: Indexer| x@);
                        assert forall|k: int| 0 <= k < m implies (#[trigger] sub@[k])@.len() <= d - 1 by {
                            assert(subv[k] == sub@[k]@);
                        };
                    }
                    let mut j: usize = 0;
                    while j < m
                        invariant
                            m == sub@.len(),
                            j <= m,
                            r@.len() == before.len() + j,
                            forall|k: int| 0 <= k < before.len() ==> r@[k] == before[k],
                            forall|k: int|
                                0 <= k < j ==> (#[trigger] r@[before.len() + k])@ == sub@[k]@.push(i),
                            forall|k: int| 0 <= k < r@.len() ==> (#[trigger] r@[k]).wf(),
                            forall|k: int| 0 <= k < m ==> (#[trigger] sub@[k]).wf(),
                            forall|k: int| 0 <= k < m ==> (#[trigger] sub@[k])@.len() <= d - 1,
                            d > 0,
                            d <= 15,
                        decreases m - j,
                    {
                        let mut ind = sub[j];
                        proof {
                            assert(sub@[j as int]@.len() <= d - 1);
                        }
                        ind.push(i);
                        r.push(ind);
                        j = j + 1;
                    }
                    proof {
                        let c = cs[i as int];
                        let fs = seq_files(cs.take(i as int));
                        assert(seq_files(cs.take(i + 1)) == fs + entry_files(c));
                        let subv = sub@.map_values(|x: Indexer| x@);
                        assert forall|k: int| 0 <= k < r@.len() implies {
                            &&& entry_at(*self, #[trigger] r@[k]@) == Some(
                                TreeItem::File { file: seq_files(cs.take(i + 1))[k] },
                            )
                            &&& r@[k]@.len() <= d
                        } by {
                            if k < before.len() {
                                assert(r@[k] == before[k]);
                                assert(r@[k]@ == before[k]@);
                                assert(seq_files(cs.take(i + 1))[k] == fs[k]);
                            } else {
                                let q = k - before.len();
                                assert(subv[q] == sub@[q]@);
                                assert(r@[before.len() + q] == r@[k]);
                                let path = r@[k]@;
                                assert(path == sub@[q]@.push(i));
                                assert(path.last() == i);
                                assert(path.drop_last() =~= sub@[q]@);
                                assert(*self is Folder);
                                assert(self->folder.children@ == cs);
                                assert(path.len() > 0);
                                assert(path.last() < cs.len());
                                assert(entry_at(*self, path) == entry_at(cs[path.last() as int], path.drop_last()));
                                assert(entry_at(*self, path) == entry_at(cs[i as int], sub@[q]@));
                                assert(entry_at(cs[i as int], subv[q]) == Some(
                                    TreeItem::File { file: entry_files(c)[q] },
                                ));
                                assert(seq_files(cs.take(i + 1))[k] == entry_files(c)[q]);
                            }
                        };
                    }
                    i = i + 1;
                }
                proof {
                    assert(cs.take(n as int) =~= cs);
                    assert(entry_files(*self) == seq_files(cs));
                }
                r
            },
        }
    }

    /// The folder, if the entry is one, for changing it in place.
    pub fn as_folder_mut(&mut self) -> (r: Option<&mut Folder<T>>)
        ensures
            match r {
                Some(m) => *old(self) == (TreeItem::Folder { folder: *m }) && *final(self) == (TreeItem::Folder { folder: *final(m) }),
                None => *old(self) is File && *final(self) == *old(self),
            },
    {
        match self {
            TreeItem::Folder { folder } => Some(folder),
            TreeItem::File { .. } => None,
        }
    }

    /// The path of the entry.
    pub fn path(&self) -> (r: &Vec<String>)
        ensures
            path_view(*r) == item_path(*self),
    {
        match self {
            TreeItem::Folder { folder } => &folder.path,
            TreeItem::File { file } => &file.path,
        }
    }

    /// The folder, if the entry is one.
    pub fn as_folder(&self) -> (r: Option<&Folder<T>>)
        ensures
            match *self {
                TreeItem::Folder { folder } => r == Some(&folder),
                TreeItem::File { .. } => r is None,
            },
    {
        match self {
            TreeItem::Folder { folder } => Some(folder),
            TreeItem::File { .. } => None,
        }
    }
}

/// A change made to one entry of the tree.
pub enum TreeEdit<T> {
    /// Adds an entry at the end of the folder's children.
    Attach { item: TreeItem<T> },
    /// Takes out every child of the folder that has this path.
    Extract { path: Vec<String> },
    /// Gives the entry a new path, and each entry inside it the path of
    /// its new parent followed by its own last component.
    Rename { to: Vec<String> },
}

/// A node with its path replaced.
pub open spec fn with_path<T>(n: TreeNode<T>, to: Seq<Seq<char>>) -> TreeNode<T> {
    match n {
        TreeNode::Folder { .. } => TreeNode::Folder { path: to },
        TreeNode::File { data, selected, .. } => TreeNode::File { path: to, data, selected },
    }
}

/// The nodes of an entry renamed to `to`, and of everything inside it.
pub open spec fn renamed_nodes<T>(c: TreeItem<T>, to: Seq<Seq<char>>) -> Seq<TreeNode<T>>
    decreases c,
{
    seq![with_path(node_of(c), to)] + match c {
        TreeItem::Folder { folder } => renamed_row(folder.children@, to),
        TreeItem::File { .. } => Seq::empty(),
    }
}

/// The nodes of a row of siblings moved under the folder path `base`.
pub open spec fn renamed_row<T>(cs: Seq<TreeItem<T>>, base: Seq<Seq<char>>) -> Seq<TreeNode<T>>
    decreases cs,
{
    if cs.len() == 0 {
        Seq::empty()
    } else {
        renamed_row(cs.drop_last(), base) + renamed_nodes(cs.last(), base.push(item_path(cs.last()).last()))
    }
}

/// `after` is `before` renamed to `to`: the same kind of entry in the same
/// shape, a file keeping its data and selection, a folder keeping its
/// children in their order, each renamed to `to` followed by its own last
/// component.
pub open spec fn renamed_as<T>(before: TreeItem<T>, after: TreeItem<T>, to: Seq<Seq<char>>) -> bool
    decreases before,
{
    &&& item_path(after) == to
    &&& match (before, after) {
        (TreeItem::File { file: b }, TreeItem::File { file: a }) => a.data == b.data && a.selected
            == b.selected,
        (TreeItem::Folder { folder: b }, TreeItem::Folder { folder: a }) => {
            &&& a.children@.len() == b.children@.len()
            &&& forall|i: int|
                0 <= i < b.children@.len() ==> renamed_as(
                    #[trigger] b.children@[i],
                    a.children@[i],
                    to.push(item_path(b.children@[i]).last()),
                )
        },
        _ => false,
    }
}

/// Every entry inside `c` has a path with at least one component.
pub open spec fn inner_paths_named<T>(c: TreeItem<T>) -> bool {
    match c {
        TreeItem::Folder { folder } => forall|i: int|
            0 <= i < folder.items().len() ==> item_path(#[trigger] folder.items()[i]).len() > 0,
        TreeItem::File { .. } => true,
    }
}

/// Whether an edit can be made to `c`: adding and taking out need a folder,
/// renaming needs the entries inside to have names.
pub open spec fn edit_applies<T>(c: TreeItem<T>, op: TreeEdit<T>) -> bool {
    match op {
        TreeEdit::Rename { .. } => inner_paths_named(c),
        _ => c is Folder,
    }
}

/// The children of a folder that do not have the path `p`.
pub open spec fn kept_children<T>(cs: Seq<TreeItem<T>>, p: Seq<Seq<char>>) -> Seq<TreeItem<T>> {
    cs.filter(|x: TreeItem<T>| !(item_path(x) == p))
}

/// The children of a folder that have the path `p`.
pub open spec fn taken_children<T>(cs: Seq<TreeItem<T>>, p: Seq<Seq<char>>) -> Seq<TreeItem<T>> {
    cs.filter(|x: TreeItem<T>| item_path(x) == p)
}

/// Sorting the first `i + 1` children into those kept and those taken out
/// extends the sorting of the first `i` by child `i`.
pub proof fn lemma_sort_step<T>(cs: Seq<TreeItem<T>>, i: int, p: Seq<Seq<char>>)
    requires
        0 <= i < cs.len(),
    ensures
        kept_children(cs.take(i + 1), p) == if item_path(cs[i]) == p {
            kept_children(cs.take(i), p)
        } else {
            kept_children(cs.take(i), p).push(cs[i])
        },
        taken_children(cs.take(i + 1), p) == if item_path(cs[i]) == p {
            taken_children(cs.take(i), p).push(cs[i])
        } else {
            taken_children(cs.take(i), p)
        },
{
    reveal(Seq::filter);
    assert(cs.take(i + 1).drop_last() =~= cs.take(i));
    assert(cs.take(i + 1).last() == cs[i]);
}

/// The nodes of an entry and everything inside it after an edit.
pub open spec fn edited_nodes<T>(c: TreeItem<T>, op: TreeEdit<T>) -> Seq<TreeNode<T>> {
    match op {
        TreeEdit::Attach { item } => entry_nodes(c) + entry_nodes(item),
        TreeEdit::Extract { path } => match c {
            TreeItem::Folder { folder } => seq![node_of(c)] + seq_nodes(
                kept_children(folder.children@, path_view(path)),
            ),
            TreeItem::File { .. } => entry_nodes(c),
        },
        TreeEdit::Rename { to } => renamed_nodes(c, path_view(to)),
    }
}

/// `after` is what an edit makes of `before`: its nodes are the edited
/// nodes; an added entry ends the folder's children, taking out leaves
/// the folder's other children in their order, and a renamed entry keeps
/// its shape.
pub open spec fn edit_result<T>(before: TreeItem<T>, after: TreeItem<T>, op: TreeEdit<T>) -> bool {
    &&& entry_nodes(after) == edited_nodes(before, op)
    &&& match op {
        TreeEdit::Attach { item } => {
            &&& after is Folder
            &&& after->folder.path == before->folder.path
            &&& after->folder.children@ == before->folder.children@.push(item)
        },
        TreeEdit::Extract { path } => match before {
            TreeItem::Folder { folder } => {
                &&& after is Folder
                &&& after->folder.path == folder.path
                &&& after->folder.children@ == kept_children(folder.children@, path_view(path))
            },
            TreeItem::File { .. } => after == before,
        },
        TreeEdit::Rename { to } => renamed_as(before, after, path_view(to)),
    }
}

/// `cs2` is the row of siblings `cs` with the entry at preorder position
/// `j` replaced by `x`: every folder on the way to it keeps its path and
/// its other children, and every other entry stays where it was.
pub open spec fn replaced_at<T>(cs: Seq<TreeItem<T>>, cs2: Seq<TreeItem<T>>, j: int, x: TreeItem<T>) -> bool
    decreases cs,
{
    exists|k: int|
        #![trigger cs2[k]]
        {
            let off = seq_items(cs.take(k)).len() as int;
            &&& 0 <= k < cs.len()
            &&& cs2 == cs.update(k, cs2[k])
            &&& if j == off {
                cs2[k] == x
            } else {
                &&& off < j
                &&& cs[k] is Folder
                &&& cs2[k] is Folder
                &&& cs2[k]->folder.path == cs[k]->folder.path
                &&& replaced_at(cs[k]->folder.children@, cs2[k]->folder.children@, j - off - 1, x)
            }
        }
}

/// An edited entry still shows at least its own node.
pub proof fn lemma_edited_nonempty<T>(c: TreeItem<T>, op: TreeEdit<T>)
    ensures
        edited_nodes(c, op).len() >= 1,
{
    assert(entry_nodes(c).len() == entry_items(c).len());
    assert(entry_items(c).len() >= 1);
    match op {
        TreeEdit::Rename { to } => {
            assert(renamed_nodes(c, path_view(to)).len() >= 1);
        },
        _ => {},
    }
}

/// The entries that an edit takes out.
pub open spec fn edit_taken<T>(c: TreeItem<T>, op: TreeEdit<T>) -> Seq<TreeItem<T>> {
    match (op, c) {
        (TreeEdit::Extract { path }, TreeItem::Folder { folder }) => taken_children(folder.children@, path_view(path)),
        _ => Seq::empty(),
    }
}

/// The entries of a row of siblings start with those of its first `k`
/// siblings, followed by the entries of sibling `k`.
pub proof fn lemma_seq_items_prefix<T>(cs: Seq<TreeItem<T>>, k: int)
    requires
        0 <= k < cs.len(),
    ensures
        seq_items(cs) == seq_items(cs.take(k)) + entry_items(cs[k]) + seq_items(cs.skip(k + 1)),
        seq_files(cs) == seq_files(cs.take(k)) + entry_files(cs[k]) + seq_files(cs.skip(k + 1)),
{
    lemma_seq_items_take(cs, k);
    assert(cs =~= cs.take(k + 1) + cs.skip(k + 1));
    lemma_seq_items_append(cs.take(k + 1), cs.skip(k + 1));
}

/// There are never more files than entries.
pub proof fn lemma_files_within_items<T>(cs: Seq<TreeItem<T>>)
    ensures
        seq_files(cs).len() <= seq_items(cs).len(),
    decreases cs,
{
    if cs.len() > 0 {
        lemma_files_within_items(cs.drop_last());
        match cs.last() {
            TreeItem::Folder { folder } => {
                assert(decreases_to!(cs => folder.children@)) by {
                    assert(decreases_to!(cs => cs.last()));
                };
                lemma_files_within_items(folder.children@);
                assert(entry_files(cs.last()).len() <= entry_items(cs.last()).len());
            },
            TreeItem::File { .. } => {
                assert(entry_files(cs.last()).len() <= entry_items(cs.last()).len());
            },
        }
        assert(seq_files(cs) == seq_files(cs.drop_last()) + entry_files(cs.last()));
        assert(seq_items(cs) == seq_items(cs.drop_last()) + entry_items(cs.last()));
    }
}

/// Replacing a stretch inside the middle part of `a + m + b` replaces
/// the same stretch of the whole, shifted by the length of `a`.
pub proof fn lemma_splice<X>(a: Seq<X>, m: Seq<X>, b: Seq<X>, d: int, len: int, e: Seq<X>)
    requires
        0 <= d,
        0 <= len,
        d + len <= m.len(),
    ensures
        a + (m.take(d) + e + m.skip(d + len)) + b == (a + m + b).take(a.len() + d) + e + (a + m + b).skip(
            a.len() + d + len,
        ),
{
    assert(a + (m.take(d) + e + m.skip(d + len)) + b =~= (a + m + b).take(a.len() + d) + e + (a + m + b).skip(
        a.len() + d + len,
    ));
}

/// The first entry with a given path is at one position only.
pub proof fn lemma_first_match_unique<T>(items: Seq<TreeItem<T>>, p: Seq<Seq<char>>, j1: int, j2: int)
    requires
        is_first_match(items, p, j1),
        is_first_match(items, p, j2),
    ensures
        j1 == j2,
{
    if j1 < j2 {
        assert(item_path(items[j1]) != p);
    } else if j2 < j1 {
        assert(item_path(items[j2]) != p);
    }
}

/// An entry occupies a contiguous stretch of the preorder numbering:
/// it and everything inside it fit before the end.
pub proof fn lemma_entry_within<T>(cs: Seq<TreeItem<T>>, j: int)
    requires
        0 <= j < seq_items(cs).len(),
    ensures
        j + entry_items(seq_items(cs)[j]).len() <= seq_items(cs).len(),
    decreases cs,
{
    if cs.len() > 0 {
        let init = cs.drop_last();
        let last = cs.last();
        let off = seq_items(init).len() as int;
        assert(seq_items(cs) == seq_items(init) + entry_items(last));
        if j < off {
            lemma_entry_within(init, j);
            assert(seq_items(cs)[j] == seq_items(init)[j]);
        } else if j > off {
            match last {
                TreeItem::Folder { folder } => {
                    assert(entry_items(last) == seq![last] + seq_items(folder.children@));
                    assert(decreases_to!(cs => folder.children@)) by {
                        assert(decreases_to!(cs => last));
                    };
                    lemma_entry_within(folder.children@, j - off - 1);
                    assert(seq_items(cs)[j] == seq_items(folder.children@)[j - off - 1]);
                },
                TreeItem::File { .. } => {},
            }
        }
    }
}

/// A first match found inside child `c` of a row, where neither the
/// siblings before `c` nor `c` itself match, is the first match of the
/// whole row, shifted past them.
pub proof fn lemma_nested_first_match<T>(
    items: Seq<TreeItem<T>>,
    pre: Seq<TreeItem<T>>,
    c: TreeItem<T>,
    f0: Folder<T>,
    post: Seq<TreeItem<T>>,
    pv: Seq<Seq<char>>,
    j2: int,
)
    requires
        c == (TreeItem::Folder { folder: f0 }),
        items == pre + entry_items(c) + post,
        no_match(pre, pv),
        item_path(c) != pv,
        is_first_match(f0.items(), pv, j2),
    ensures
        is_first_match(items, pv, pre.len() + 1 + j2),
        items[pre.len() + 1 + j2] == f0.items()[j2],
{
    let off = pre.len() as int;
    assert(entry_items(c) == seq![c] + f0.items());
    assert(items[off + 1 + j2] == f0.items()[j2]);
    assert forall|i: int| 0 <= i < off + 1 + j2 implies item_path(#[trigger] items[i]) != pv by {
        if i < off {
            assert(items[i] == pre[i]);
        } else if i == off {
            assert(items[i] == c);
        } else {
            assert(items[i] == f0.items()[i - off - 1]);
        }
    };
}

/// What holds of child `k` of a row when the entries before it do not
/// have the path `pv`: where its entries stand in the whole numbering, and
/// which edits apply to the first match inside it.
pub proof fn lemma_child_context<T>(cs: Seq<TreeItem<T>>, k: int, pv: Seq<Seq<char>>, op: TreeEdit<T>)
    requires
        0 <= k < cs.len(),
        no_match(seq_items(cs.take(k)), pv),
        forall|j: int| is_first_match(seq_items(cs), pv, j) ==> edit_applies(#[trigger] seq_items(cs)[j], op),
    ensures
        seq_items(cs) == seq_items(cs.take(k)) + entry_items(cs[k]) + seq_items(cs.skip(k + 1)),
        seq_items(cs)[seq_items(cs.take(k)).len() as int] == cs[k],
        item_path(cs[k]) == pv ==> is_first_match(seq_items(cs), pv, seq_items(cs.take(k)).len() as int),
        item_path(cs[k]) == pv ==> edit_applies(cs[k], op),
        (item_path(cs[k]) != pv && cs[k] is Folder) ==> forall|j2: int|
            is_first_match(cs[k]->folder.items(), pv, j2) ==> edit_applies(#[trigger] cs[k]->folder.items()[j2], op),
{
    lemma_seq_items_prefix(cs, k);
    let pre = seq_items(cs.take(k));
    let post = seq_items(cs.skip(k + 1));
    let c = cs[k];
    let off = pre.len() as int;
    assert(seq_items(cs)[off] == c);
    if item_path(c) == pv {
        assert forall|i: int| 0 <= i < off implies item_path(#[trigger] seq_items(cs)[i]) != pv by {
            assert(seq_items(cs)[i] == pre[i]);
        };
        assert(is_first_match(seq_items(cs), pv, off));
    } else {
        match c {
            TreeItem::Folder { folder: f0 } => {
                assert forall|j2: int| is_first_match(f0.items(), pv, j2) implies edit_applies(
                    #[trigger] f0.items()[j2],
                    op,
                ) by {
                    lemma_nested_first_match(seq_items(cs), pre, c, f0, post, pv, j2);
                };
            },
            TreeItem::File { .. } => {},
        }
    }
}

/// Making an edit to child `k`, the first match of its row, splices the
/// edited nodes into the row's numbering.
pub proof fn lemma_edit_here<T>(cs: Seq<TreeItem<T>>, k: int, after: Seq<TreeItem<T>>, op: TreeEdit<T>, pv: Seq<Seq<char>>)
    requires
        0 <= k < cs.len(),
        no_match(seq_items(cs.take(k)), pv),
        item_path(cs[k]) == pv,
        after.len() == cs.len(),
        forall|i: int| 0 <= i < cs.len() && i != k ==> after[i] == cs[i],
        entry_nodes(after[k]) == edited_nodes(cs[k], op),
    ensures
        ({
            let j = seq_items(cs.take(k)).len() as int;
            &&& is_first_match(seq_items(cs), pv, j)
            &&& seq_nodes(after) == nodes_after_edit(seq_nodes(cs), seq_items(cs), j, op)
            &&& seq_items(cs)[j] == cs[k]
            &&& seq_items(after)[j] == after[k]
        }),
{
    lemma_seq_items_prefix(cs, k);
    lemma_seq_items_prefix(after, k);
    let pre = seq_items(cs.take(k));
    let off = pre.len() as int;
    assert(after.take(k) =~= cs.take(k));
    assert(after.skip(k + 1) =~= cs.skip(k + 1));
    assert(seq_items(cs)[off] == cs[k]);
    assert(seq_items(after)[off] == after[k]);
    assert forall|i: int| 0 <= i < off implies item_path(#[trigger] seq_items(cs)[i]) != pv by {
        assert(seq_items(cs)[i] == pre[i]);
    };
    let a = seq_nodes(cs.take(k));
    let b = seq_nodes(cs.skip(k + 1));
    let m = entry_nodes(cs[k]);
    let e = edited_nodes(cs[k], op);
    assert(seq_nodes(after) =~= a + e + b);
    assert(seq_nodes(cs) =~= a + m + b);
    assert(m.take(0) + e + m.skip(m.len() as int) =~= e);
    lemma_splice(a, m, b, 0, m.len() as int, e);
}

/// An edit made inside child `k`, at the first match of its folder,
/// splices the edited nodes into the row's numbering, shifted past the
/// entries before it.
pub proof fn lemma_edit_inside<T>(
    cs: Seq<TreeItem<T>>,
    k: int,
    after: Seq<TreeItem<T>>,
    f0: Folder<T>,
    f1: Folder<T>,
    j2: int,
    op: TreeEdit<T>,
    pv: Seq<Seq<char>>,
)
    requires
        0 <= k < cs.len(),
        no_match(seq_items(cs.take(k)), pv),
        cs[k] == (TreeItem::Folder { folder: f0 }),
        item_path(cs[k]) != pv,
        after.len() == cs.len(),
        forall|i: int| 0 <= i < cs.len() && i != k ==> after[i] == cs[i],
        after[k] == (TreeItem::Folder { folder: f1 }),
        f1.path == f0.path,
        is_first_match(f0.items(), pv, j2),
        f1.nodes() == nodes_after_edit(f0.nodes(), f0.items(), j2, op),
    ensures
        ({
            let g = seq_items(cs.take(k)).len() + 1 + j2;
            &&& is_first_match(seq_items(cs), pv, g)
            &&& seq_nodes(after) == nodes_after_edit(seq_nodes(cs), seq_items(cs), g, op)
            &&& seq_items(cs)[g] == f0.items()[j2]
            &&& seq_items(after)[g] == f1.items()[j2]
        }),
{
    lemma_seq_items_prefix(cs, k);
    lemma_seq_items_prefix(after, k);
    let c = cs[k];
    let c2 = after[k];
    let off = seq_items(cs.take(k)).len() as int;
    assert(after.take(k) =~= cs.take(k));
    assert(entry_items(c2) == seq![c2] + f1.items());
    lemma_entry_within(f0.children@, j2);
    lemma_edited_nonempty(f0.items()[j2], op);
    assert(f1.items().len() == f1.nodes().len());
    assert(f1.items().len() > j2);
    assert(seq_items(after)[off + 1 + j2] == f1.items()[j2]) by {
        assert(seq_items(after) == seq_items(after.take(k)) + entry_items(c2) + seq_items(after.skip(k + 1)));
    };
    let pre = seq_items(cs.take(k));
    let post = seq_items(cs.skip(k + 1));
    lemma_nested_first_match(seq_items(cs), pre, c, f0, post, pv, j2);
    lemma_entry_within(f0.children@, j2);
    assert(after.take(k) =~= cs.take(k));
    assert(after.skip(k + 1) =~= cs.skip(k + 1));
    lemma_entry_nodes_split(c);
    lemma_entry_nodes_split(c2);
    let a = seq_nodes(cs.take(k));
    let b = seq_nodes(cs.skip(k + 1));
    let m = entry_nodes(c);
    let len = entry_items(f0.items()[j2]).len() as int;
    let e = edited_nodes(f0.items()[j2], op);
    assert(a.len() == pre.len());
    assert(seq_nodes(after) =~= a + entry_nodes(c2) + b);
    assert(seq_nodes(cs) =~= a + m + b);
    assert(entry_nodes(c2) =~= m.take(1 + j2) + e + m.skip(1 + j2 + len));
    lemma_splice(a, m, b, 1 + j2, len, e);
}

/// Child `k` and everything inside it lack the path `pv`, so the first
/// `k + 1` children lack it when the first `k` do.
pub proof fn lemma_no_match_step<T>(cs: Seq<TreeItem<T>>, k: int, pv: Seq<Seq<char>>)
    requires
        0 <= k < cs.len(),
        no_match(seq_items(cs.take(k)), pv),
        item_path(cs[k]) != pv,
        cs[k] is Folder ==> no_match(cs[k]->folder.items(), pv),
    ensures
        no_match(seq_items(cs.take(k + 1)), pv),
{
    lemma_seq_items_take(cs, k);
    let pre = seq_items(cs.take(k));
    let next = seq_items(cs.take(k + 1));
    let c = cs[k];
    let off = pre.len() as int;
    assert forall|i: int| 0 <= i < next.len() implies item_path(#[trigger] next[i]) != pv by {
        if i < off {
            assert(next[i] == pre[i]);
        } else if i == off {
            assert(next[i] == c);
        } else {
            let f0 = c->folder;
            assert(entry_items(c) == seq![c] + f0.items());
            assert(next[i] == f0.items()[i - off - 1]);
        }
    };
}

/// Replacing child `k` of a row changes the row's files and entries only
/// where that child's stood.
pub proof fn lemma_row_update<T>(cs: Seq<TreeItem<T>>, k: int, x: TreeItem<T>)
    requires
        0 <= k < cs.len(),
    ensures
        seq_files(cs.update(k, x)) == seq_files(cs.take(k)) + entry_files(x) + seq_files(cs.skip(k + 1)),
        seq_items(cs.update(k, x)).len() == seq_items(cs).len() - entry_items(cs[k]).len() + entry_items(x).len(),
{
    let after = cs.update(k, x);
    lemma_seq_items_prefix(cs, k);
    lemma_seq_items_prefix(after, k);
    assert(after.take(k) =~= cs.take(k));
    assert(after.skip(k + 1) =~= cs.skip(k + 1));
}

/// How a selection pass sets the flag of each file from its preorder
/// position.
#[derive(Clone, Copy, PartialEq, Eq, Debug)]
pub enum SelectMode {
    /// No file stays selected.
    Clear,
    /// Exactly the files at positions `lo` to `hi`, both included, are
    /// selected.
    Range { lo: usize, hi: usize },
    /// The file at position `at` flips; the others keep their flag.
    Toggle { at: usize },
}

/// The flag of the file at position `q` after a pass, given its flag
/// before.
pub open spec fn new_selected(mode: SelectMode, q: int, before: bool) -> bool {
    match mode {
        SelectMode::Clear => false,
        SelectMode::Range { lo, hi } => lo <= q <= hi,
        SelectMode::Toggle { at } => if q == at {
            !before
        } else {
            before
        },
    }
}

/// A node after a selection pass, at position `q`.
pub open spec fn reselect_node<T>(n: TreeNode<T>, q: int, mode: SelectMode) -> TreeNode<T> {
    match n {
        TreeNode::Folder { .. } => n,
        TreeNode::File { path, data, selected } => TreeNode::File {
            path,
            data,
            selected: new_selected(mode, q, selected),
        },
    }
}

/// Nodes after a selection pass, the first of them at position `base`.
pub open spec fn reselected<T>(ns: Seq<TreeNode<T>>, base: int, mode: SelectMode) -> Seq<TreeNode<T>> {
    Seq::new(ns.len(), |q: int| reselect_node(ns[q], base + q, mode))
}

/// A selection pass over two stretches is a pass over each, the second
/// starting where the first ends.
pub proof fn lemma_reselected_append<T>(a: Seq<TreeNode<T>>, b: Seq<TreeNode<T>>, base: int, mode: SelectMode)
    ensures
        reselected(a + b, base, mode) == reselected(a, base, mode) + reselected(b, base + a.len(), mode),
{
    assert(reselected(a + b, base, mode) =~= reselected(a, base, mode) + reselected(b, base + a.len(), mode));
}

/// The path of a node.
pub open spec fn node_path<T>(n: TreeNode<T>) -> Seq<Seq<char>> {
    match n {
        TreeNode::Folder { path } => path,
        TreeNode::File { path, .. } => path,
    }
}

/// No file among the nodes has the path `p`.
pub open spec fn no_file_at<T>(ns: Seq<TreeNode<T>>, p: Seq<Seq<char>>) -> bool {
    forall|q: int| 0 <= q < ns.len() ==> !(#[trigger] ns[q] is File && node_path(ns[q]) == p)
}

/// The path of a path's parent: all its components but the last.
pub open spec fn parent_view(p: Seq<Seq<char>>) -> Seq<Seq<char>> {
    p.drop_last()
}

/// When no file has the path `p`, the first entry with that path is a
/// folder.
pub proof fn lemma_first_match_is_folder<T>(cs: Seq<TreeItem<T>>, p: Seq<Seq<char>>, j: int)
    requires
        no_file_at(seq_nodes(cs), p),
        is_first_match(seq_items(cs), p, j),
    ensures
        seq_items(cs)[j] is Folder,
{
    assert(seq_nodes(cs)[j] == node_of(seq_items(cs)[j]));
    if seq_items(cs)[j] is File {
        assert(seq_nodes(cs)[j] is File && node_path(seq_nodes(cs)[j]) == p);
    }
}

/// An entry's entries occupy a contiguous stretch of the numbering.
pub proof fn lemma_entry_stretch<T>(cs: Seq<TreeItem<T>>, j: int)
    requires
        0 <= j < seq_items(cs).len(),
    ensures
        j + entry_items(seq_items(cs)[j]).len() <= seq_items(cs).len(),
        seq_items(cs).subrange(j, j + entry_items(seq_items(cs)[j]).len()) == entry_items(seq_items(cs)[j]),
    decreases cs,
{
    if cs.len() > 0 {
        let init = cs.drop_last();
        let last = cs.last();
        let off = seq_items(init).len() as int;
        let all = seq_items(cs);
        assert(all == seq_items(init) + entry_items(last));
        if j < off {
            lemma_entry_stretch(init, j);
            assert(all[j] == seq_items(init)[j]);
            assert(all.subrange(j, j + entry_items(all[j]).len()) =~= seq_items(init).subrange(
                j,
                j + entry_items(all[j]).len(),
            ));
        } else if j == off {
            assert(all[j] == last);
            assert(all.subrange(j, j + entry_items(last).len()) =~= entry_items(last));
        } else {
            match last {
                TreeItem::Folder { folder } => {
                    let sub = seq_items(folder.children@);
                    assert(entry_items(last) == seq![last] + sub);
                    assert(decreases_to!(cs => folder.children@)) by {
                        assert(decreases_to!(cs => last));
                    };
                    let j2 = j - off - 1;
                    lemma_entry_stretch(folder.children@, j2);
                    assert(all[j] == sub[j2]);
                    assert(all.subrange(j, j + entry_items(all[j]).len()) =~= sub.subrange(
                        j2,
                        j2 + entry_items(sub[j2]).len(),
                    ));
                },
                TreeItem::File { .. } => {},
            }
        }
    }
}

/// Keeping some children keeps the absence of a file at a path.
pub proof fn lemma_kept_no_file<T>(cs: Seq<TreeItem<T>>, path: Seq<Seq<char>>, p: Seq<Seq<char>>)
    requires
        no_file_at(seq_nodes(cs), p),
    ensures
        no_file_at(seq_nodes(kept_children(cs, path)), p),
    decreases cs.len(),
{
    reveal(Seq::filter);
    if cs.len() > 0 {
        let init = cs.drop_last();
        let last = cs.last();
        assert(seq_items(cs) == seq_items(init) + entry_items(last));
        lemma_nodes_append(init, seq![last]);
        assert(init + seq![last] =~= cs);
        assert(seq_items(seq![last]) =~= entry_items(last)) by {
            let one = seq![last];
            assert(one.drop_last() =~= Seq::<TreeItem<T>>::empty());
            assert(one.last() == last);
            assert(seq_items(one.drop_last()) =~= Seq::<TreeItem<T>>::empty());
            assert(seq_items(one) == seq_items(one.drop_last()) + entry_items(one.last()));
        };
        let ni = seq_nodes(init);
        let nl = entry_nodes(last);
        assert(seq_nodes(seq![last]) =~= nl);
        assert(no_file_at(ni, p)) by {
            assert forall|q: int| 0 <= q < ni.len() implies !(#[trigger] ni[q] is File && node_path(ni[q]) == p) by {
                assert(seq_nodes(cs)[q] == ni[q]);
            };
        };
        lemma_kept_no_file(init, path, p);
        let k0 = kept_children(init, path);
        if item_path(last) == path {
            assert(kept_children(cs, path) == k0);
        } else {
            assert(kept_children(cs, path) == k0.push(last));
            lemma_nodes_append(k0, seq![last]);
            assert(k0 + seq![last] =~= k0.push(last));
            let nk = seq_nodes(k0.push(last));
            assert forall|q: int| 0 <= q < nk.len() implies !(#[trigger] nk[q] is File && node_path(nk[q]) == p) by {
                if q >= seq_nodes(k0).len() {
                    let q2 = q - seq_nodes(k0).len();
                    assert(nk[q] == nl[q2]);
                    assert(seq_nodes(cs)[ni.len() + q2] == nl[q2]);
                }
            };
        }
    }
}

/// Taking children out of a folder keeps the absence of a file at a path.
pub proof fn lemma_extract_no_file<T>(cs: Seq<TreeItem<T>>, j: int, path: Vec<String>, p: Seq<Seq<char>>)
    requires
        no_file_at(seq_nodes(cs), p),
        0 <= j < seq_items(cs).len(),
        seq_items(cs)[j] is Folder,
    ensures
        no_file_at(nodes_after_edit(seq_nodes(cs), seq_items(cs), j, TreeEdit::Extract { path }), p),
{
    let all = seq_nodes(cs);
    let c = seq_items(cs)[j];
    let f = c->folder;
    let len = entry_items(c).len() as int;
    lemma_entry_stretch(cs, j);
    lemma_entry_nodes_split(c);
    let sub = all.subrange(j, j + len);
    assert(sub =~= entry_nodes(c));
    let inner = seq_nodes(f.children@);
    assert(no_file_at(inner, p)) by {
        assert forall|q: int| 0 <= q < inner.len() implies !(#[trigger] inner[q] is File && node_path(inner[q]) == p) by {
            assert(entry_nodes(c)[q + 1] == inner[q]);
            assert(all[j + 1 + q] == inner[q]);
        };
    };
    lemma_kept_no_file(f.children@, path_view(path), p);
    let res = nodes_after_edit(all, seq_items(cs), j, TreeEdit::Extract { path });
    let kept = seq_nodes(kept_children(f.children@, path_view(path)));
    assert(res == all.take(j) + (seq![node_of(c)] + kept) + all.skip(j + len));
    assert forall|q: int| 0 <= q < res.len() implies !(#[trigger] res[q] is File && node_path(res[q]) == p) by {
        if q < j {
            assert(res[q] == all[q]);
        } else if q == j {
            assert(res[q] == node_of(c));
            assert(all[j] == node_of(c));
        } else if q < j + 1 + kept.len() {
            assert(res[q] == kept[q - j - 1]);
        } else {
            assert(res[q] == all[q - 1 - kept.len() + len]);
        }
    };
}

/// The node at each position shows the entry at that position.
pub proof fn lemma_node_at<T>(cs: Seq<TreeItem<T>>, i: int)
    requires
        0 <= i < seq_items(cs).len(),
    ensures
        seq_nodes(cs).len() == seq_items(cs).len(),
        seq_nodes(cs)[i] == node_of(seq_items(cs)[i]),
        node_path(seq_nodes(cs)[i]) == item_path(seq_items(cs)[i]),
{
}

/// Deleting the entry just created gives back the tree: when the first
/// folder at the parent path had no child at the entry's path, creating
/// the entry there and then deleting that path leaves the nodes of the
/// entries as they were.
pub proof fn lemma_tree_delete_undoes_create<T>(
    f0: Folder<T>,
    f1: Folder<T>,
    f2: Folder<T>,
    item: TreeItem<T>,
    path: Vec<String>,
    j: int,
    j2: int,
)
    requires
        path_view(path) == item_path(item),
        is_first_match(f0.items(), parent_view(item_path(item)), j),
        f0.items()[j] is Folder,
        forall|i: int|
            0 <= i < f0.items()[j]->folder.children@.len() ==> item_path(
                #[trigger] f0.items()[j]->folder.children@[i],
            ) != path_view(path),
        f1.nodes() == nodes_after_edit(f0.nodes(), f0.items(), j, TreeEdit::Attach { item }),
        edit_result(f0.items()[j], f1.items()[j], TreeEdit::Attach { item }),
        is_first_match(f1.items(), parent_view(path_view(path)), j2),
        f2.nodes() == nodes_after_edit(f1.nodes(), f1.items(), j2, TreeEdit::Extract { path }),
    ensures
        f2.nodes() == f0.nodes(),
{
    let pp = parent_view(item_path(item));
    let c = f0.items()[j];
    let c1 = f1.items()[j];
    let n0 = f0.nodes();
    let n1 = f1.nodes();
    let len0 = entry_items(c).len() as int;
    lemma_entry_stretch(f0.children@, j);
    assert(entry_nodes(c).len() == len0);
    let extra = entry_nodes(item);
    assert(n1 == n0.take(j) + (entry_nodes(c) + extra) + n0.skip(j + len0));
    assert forall|i: int| 0 <= i < j implies item_path(#[trigger] f1.items()[i]) != pp by {
        lemma_node_at(f1.children@, i);
        lemma_node_at(f0.children@, i);
        assert(n1[i] == n0[i]);
        assert(item_path(f0.items()[i]) != pp);
    };
    lemma_node_at(f0.children@, j);
    assert(f1.items().len() == n1.len());
    assert(j < n1.len());
    lemma_node_at(f1.children@, j);
    lemma_entry_nodes_split(c);
    assert(n1[j] == entry_nodes(c)[0]);
    assert(entry_nodes(c)[0] == node_of(c));
    assert(item_path(f1.items()[j]) == item_path(c));
    assert(is_first_match(f1.items(), pp, j));
    lemma_first_match_unique(f1.items(), pp, j, j2);
    lemma_delete_undoes_create(c, c1, item, path);
    let len1 = entry_items(c1).len() as int;
    assert(entry_nodes(c1).len() == len1);
    assert(entry_nodes(c1) == entry_nodes(c) + extra);
    assert(n1.take(j) =~= n0.take(j));
    assert(n1.skip(j + len1) =~= n0.skip(j + len0));
    assert(n0.subrange(j, j + len0) =~= entry_nodes(c)) by {
        assert forall|q: int| 0 <= q < len0 implies n0.subrange(j, j + len0)[q] == entry_nodes(c)[q] by {
            lemma_node_at(f0.children@, j + q);
            assert(f0.items()[j + q] == entry_items(c)[q]);
        };
    };
    assert(f2.nodes() =~= n0);
}

/// Every entry inside `c` is named under its folder: its path is the
/// folder's path followed by one more component.
pub open spec fn well_named<T>(c: TreeItem<T>) -> bool
    decreases c,
{
    match c {
        TreeItem::File { .. } => true,
        TreeItem::Folder { folder } => forall|k: int|
            0 <= k < folder.children@.len() ==> {
                &&& item_path(#[trigger] folder.children@[k]).len() == path_view(folder.path).len() + 1
                &&& item_path(folder.children@[k]).take(path_view(folder.path).len() as int) == path_view(
                    folder.path,
                )
                &&& well_named(folder.children@[k])
            },
    }
}

/// The children of a folder at path `p` are named under it.
pub open spec fn row_named<T>(cs: Seq<TreeItem<T>>, p: Seq<Seq<char>>) -> bool {
    forall|k: int|
        0 <= k < cs.len() ==> {
            &&& item_path(#[trigger] cs[k]).len() == p.len() + 1
            &&& item_path(cs[k]).take(p.len() as int) == p
            &&& well_named(cs[k])
        }
}

/// Renaming an entry whose entries are named under their folders moves
/// everything inside it along: each node's path becomes the new path
/// followed by what came after the entry's old path.
pub proof fn lemma_rename_moves_contents<T>(c: TreeItem<T>, to: Seq<Seq<char>>)
    requires
        well_named(c),
    ensures
        renamed_nodes(c, to).len() == entry_nodes(c).len(),
        forall|q: int|
            0 <= q < entry_nodes(c).len() ==> {
                &&& node_path(#[trigger] entry_nodes(c)[q]).len() >= item_path(c).len()
                &&& node_path(entry_nodes(c)[q]).take(item_path(c).len() as int) == item_path(c)
                &&& node_path(renamed_nodes(c, to)[q]) == to + node_path(entry_nodes(c)[q]).skip(
                    item_path(c).len() as int,
                )
            },
    decreases c,
{
    lemma_entry_nodes_split(c);
    let p = item_path(c);
    assert(node_path(entry_nodes(c)[0]) == p);
    assert(p.take(p.len() as int) =~= p);
    assert(to + p.skip(p.len() as int) =~= to);
    match c {
        TreeItem::File { .. } => {},
        TreeItem::Folder { folder } => {
            let cs = folder.children@;
            assert(decreases_to!(c => cs));
            lemma_row_renamed(cs, to, p);
            let inner = seq_nodes(cs);
            assert forall|q: int| 1 <= q < entry_nodes(c).len() implies {
                &&& node_path(#[trigger] entry_nodes(c)[q]).len() >= p.len()
                &&& node_path(entry_nodes(c)[q]).take(p.len() as int) == p
                &&& node_path(renamed_nodes(c, to)[q]) == to + node_path(entry_nodes(c)[q]).skip(p.len() as int)
            } by {
                assert(entry_nodes(c)[q] == inner[q - 1]);
                assert(renamed_nodes(c, to)[q] == renamed_row(cs, to)[q - 1]);
            };
        },
    }
}

/// `lemma_rename_moves_contents` for a row of siblings under the folder
/// path `p`, moved under `base`.
pub proof fn lemma_row_renamed<T>(cs: Seq<TreeItem<T>>, base: Seq<Seq<char>>, p: Seq<Seq<char>>)
    requires
        row_named(cs, p),
    ensures
        renamed_row(cs, base).len() == seq_nodes(cs).len(),
        forall|q: int|
            0 <= q < seq_nodes(cs).len() ==> {
                &&& node_path(#[trigger] seq_nodes(cs)[q]).len() >= p.len() + 1
                &&& node_path(seq_nodes(cs)[q]).take(p.len() as int) == p
                &&& node_path(renamed_row(cs, base)[q]) == base + node_path(seq_nodes(cs)[q]).skip(p.len() as int)
            },
    decreases cs,
{
    if cs.len() > 0 {
        let init = cs.drop_last();
        let last = cs.last();
        assert(row_named(init, p)) by {
            assert forall|k: int| 0 <= k < init.len() implies {
                &&& item_path(#[trigger] init[k]).len() == p.len() + 1
                &&& item_path(init[k]).take(p.len() as int) == p
                &&& well_named(init[k])
            } by {
                assert(init[k] == cs[k]);
            };
        };
        assert(item_path(cs[cs.len() - 1]).len() == p.len() + 1);
        lemma_row_renamed(init, base, p);
        let lp = item_path(last);
        let n = lp.last();
        let b2 = base.push(n);
        lemma_rename_moves_contents(last, b2);
        assert(seq_items(cs) == seq_items(init) + entry_items(last));
        let a = seq_nodes(init);
        let e = entry_nodes(last);
        assert(seq_nodes(cs) =~= a + e);
        let ra = renamed_row(init, base);
        let re = renamed_nodes(last, b2);
        assert(renamed_row(cs, base) == ra + re);
        assert forall|q: int| 0 <= q < seq_nodes(cs).len() implies {
            &&& node_path(#[trigger] seq_nodes(cs)[q]).len() >= p.len() + 1
            &&& node_path(seq_nodes(cs)[q]).take(p.len() as int) == p
            &&& node_path(renamed_row(cs, base)[q]) == base + node_path(seq_nodes(cs)[q]).skip(p.len() as int)
        } by {
            if q < a.len() {
                assert(seq_nodes(cs)[q] == a[q]);
                assert(renamed_row(cs, base)[q] == ra[q]);
            } else {
                let q2 = q - a.len();
                assert(seq_nodes(cs)[q] == e[q2]);
                assert(renamed_row(cs, base)[q] == re[q2]);
                let x = node_path(e[q2]);
                assert(x.take(lp.len() as int) == lp);
                assert(lp.take(p.len() as int) == p);
                assert(x.take(p.len() as int) =~= lp.take(p.len() as int));
                assert(x[p.len() as int] == lp[p.len() as int]);
                assert(lp[p.len() as int] == n);
                assert(b2 + x.skip(lp.len() as int) =~= base + x.skip(p.len() as int));
            }
        };
    }
}

/// The selection pass that a click on the file at position `i` makes.
pub open spec fn click_mode(i: usize, shift: bool, ctrl: bool, last: Option<usize>) -> SelectMode {
    if shift && last is Some {
        let l = last->0;
        if i < l {
            SelectMode::Range { lo: i, hi: l }
        } else {
            SelectMode::Range { lo: l, hi: i }
        }
    } else if ctrl {
        SelectMode::Toggle { at: i }
    } else {
        SelectMode::Range { lo: i, hi: i }
    }
}

/// The remembered position after a click on the file at position `i`,
/// which was selected (`before`) or not.
pub open spec fn click_last(i: usize, shift: bool, ctrl: bool, last: Option<usize>, before: bool) -> Option<usize> {
    if shift {
        last
    } else if ctrl {
        if before {
            last
        } else {
            Some(i)
        }
    } else {
        Some(i)
    }
}

/// The nodes of a folder after the nodes `extra` were added at the end of
/// the folder at preorder position `j`.
pub open spec fn nodes_after_attach<T>(
    nodes: Seq<TreeNode<T>>,
    items: Seq<TreeItem<T>>,
    j: int,
    extra: Seq<TreeNode<T>>,
) -> Seq<TreeNode<T>> {
    nodes.take(j) + (entry_nodes(items[j]) + extra) + nodes.skip(j + entry_items(items[j]).len())
}

/// The child of the folder at position `j` that a move takes out.
pub open spec fn moved_child<T>(items: Seq<TreeItem<T>>, j: int, from: Seq<Seq<char>>) -> TreeItem<T> {
    taken_children(items[j]->folder.children@, from)[0]
}

/// What a click does to the selection: a plain click selects the clicked
/// file alone, a ctrl-click flips it and keeps the others, and a
/// shift-click after an earlier click selects exactly the files between
/// the two positions; no click changes a path or the data of a file.
pub proof fn lemma_click_selection<T>(ns: Seq<TreeNode<T>>, i: usize, l: usize, q: int)
    requires
        0 <= q < ns.len(),
        ns[q] is File,
    ensures
        reselected(ns, 0, click_mode(i, false, false, Some(l)))[q]->selected == (q == i),
        reselected(ns, 0, click_mode(i, false, true, Some(l)))[q]->selected == if q == i {
            !(ns[q]->selected)
        } else {
            ns[q]->selected
        },
        reselected(ns, 0, click_mode(i, true, false, Some(l)))[q]->selected == ((i <= q <= l) || (l <= q <= i)),
        node_path(reselected(ns, 0, click_mode(i, true, false, Some(l)))[q]) == node_path(ns[q]),
        reselected(ns, 0, click_mode(i, true, false, Some(l)))[q]->data == ns[q]->data,
{
}

/// The entry reached from `c` by following `path` from its last position
/// to its first, each position choosing a child of the folder reached so
/// far; none when a file is reached with positions left.
pub open spec fn entry_at<T>(c: TreeItem<T>, path: Seq<usize>) -> Option<TreeItem<T>>
    decreases path.len(),
{
    if path.len() == 0 {
        Some(c)
    } else {
        match c {
            TreeItem::Folder { folder } => if path.last() < folder.children@.len() {
                entry_at(folder.children@[path.last() as int], path.drop_last())
            } else {
                None
            },
            TreeItem::File { .. } => None,
        }
    }
}

/// Every position of `path` that chooses a child of a folder names one.
pub open spec fn path_in_range<T>(c: TreeItem<T>, path: Seq<usize>) -> bool
    decreases path.len(),
{
    path.len() == 0 || match c {
        TreeItem::Folder { folder } => path.last() < folder.children@.len() && path_in_range(
            folder.children@[path.last() as int],
            path.drop_last(),
        ),
        TreeItem::File { .. } => true,
    }
}

/// Files inside `c` lie at most `d` folders deep.
pub open spec fn fits_depth<T>(c: TreeItem<T>, d: nat) -> bool
    decreases c,
{
    match c {
        TreeItem::File { .. } => true,
        TreeItem::Folder { folder } => d > 0 && forall|k: int|
            0 <= k < folder.children@.len() ==> fits_depth(#[trigger] folder.children@[k], (d - 1) as nat),
    }
}

/// Each path of `paths` leads from `c` to the file at the same place
/// among `c`'s files, and is at most `d` long.
pub open spec fn leads_to_files<T>(c: TreeItem<T>, paths: Seq<Seq<usize>>, d: nat) -> bool {
    &&& paths.len() == entry_files(c).len()
    &&& forall|k: int|
        0 <= k < paths.len() ==> {
            &&& entry_at(c, #[trigger] paths[k]) == Some(TreeItem::File { file: entry_files(c)[k] })
            &&& paths[k].len() <= d
        }
}

/// The nodes of a folder after `op` was made to the entry at preorder
/// position `j`.
pub open spec fn nodes_after_edit<T>(
    nodes: Seq<TreeNode<T>>,
    items: Seq<TreeItem<T>>,
    j: int,
    op: TreeEdit<T>,
) -> Seq<TreeNode<T>> {
    nodes.take(j) + edited_nodes(items[j], op) + nodes.skip(j + entry_items(items[j]).len())
}

impl<T> Folder<T> {
    /// The entries inside the folder, in preorder; the folder itself is
    /// not among them.
    pub open spec fn items(&self) -> Seq<TreeItem<T>> {
        seq_items(self.children@)
    }

    /// The files inside the folder, in preorder.
    pub open spec fn files(&self) -> Seq<TreeFile<T>> {
        seq_files(self.children@)
    }

    /// A folder with the given path and entries.
    pub fn new(path: Vec<String>, children: Vec<TreeItem<T>>) -> (r: Self)
        ensures
            r.path == path,
            r.children == children,
    {
        Folder { path, children }
    }

    /// The number of entries inside the folder, at any depth.
    pub fn item_count(&self) -> (r: usize)
        requires
            self.items().len() <= usize::MAX,
        ensures
            r == self.items().len(),
        decreases self,
    {
        let n = self.children.len();
        let mut sum: usize = 0;
        let mut k: usize = 0;
        while k < n
            invariant
                n == self.children@.len(),
                k <= n,
                sum == seq_items(self.children@.take(k as int)).len(),
                self.items().len() <= usize::MAX,
            decreases n - k,
        {
            proof {
                lemma_seq_items_take(self.children@, k as int);
            }
            match &self.children[k] {
                TreeItem::Folder { folder } => {
                    assert(decreases_to!(self => folder));
                    let c = folder.item_count();
                    sum = sum + 1 + c;
                },
                TreeItem::File { .. } => {
                    sum = sum + 1;
                },
            }
            k = k + 1;
        }
        assert(self.children@.take(n as int) =~= self.children@);
        sum
    }

    /// The number of files inside the folder, at any depth.
    pub fn file_count(&self) -> (r: usize)
        requires
            self.items().len() <= usize::MAX,
        ensures
            r == self.files().len(),
        decreases self,
    {
        proof {
            lemma_files_within_items(self.children@);
        }
        let n = self.children.len();
        let mut sum: usize = 0;
        let mut k: usize = 0;
        while k < n
            invariant
                n == self.children@.len(),
                k <= n,
                sum == seq_files(self.children@.take(k as int)).len(),
                self.files().len() <= usize::MAX,
                self.items().len() <= usize::MAX,
            decreases n - k,
        {
            proof {
                lemma_seq_items_take(self.children@, k as int);
            }
            match &self.children[k] {
                TreeItem::Folder { folder } => {
                    assert(decreases_to!(self => folder));
                    proof {
                        lemma_files_within_items(folder.children@);
                        lemma_files_within_items(self.children@);
                    }
                    let c = folder.file_count();
                    sum = sum + c;
                },
                TreeItem::File { .. } => {
                    sum = sum + 1;
                },
            }
            k = k + 1;
        }
        assert(self.children@.take(n as int) =~= self.children@);
        sum
    }

    /// The entry at preorder position `i` inside the folder.
    pub fn get_item(&self, i: usize) -> (r: Option<&TreeItem<T>>)
        requires
            self.items().len() <= usize::MAX,
        ensures
            match r {
                Some(x) => i < self.items().len() && *x == self.items()[i as int],
                None => i >= self.items().len(),
            },
        decreases self,
    {
        let n = self.children.len();
        let mut rest: usize = i;
        let mut k: usize = 0;
        while k < n
            invariant
                n == self.children@.len(),
                k <= n,
                i == seq_items(self.children@.take(k as int)).len() + rest,
                self.items().len() <= usize::MAX,
            decreases n - k,
        {
            proof {
                lemma_seq_items_take(self.children@, k as int);
                lemma_seq_items_prefix(self.children@, k as int);
            }
            if rest == 0 {
                return Some(&self.children[k]);
            }
            rest = rest - 1;
            match &self.children[k] {
                TreeItem::Folder { folder } => {
                    assert(decreases_to!(self => folder));
                    let len = folder.item_count();
                    if rest < len {
                        return folder.get_item(rest);
                    }
                    rest = rest - len;
                },
                TreeItem::File { .. } => {},
            }
            k = k + 1;
        }
        assert(self.children@.take(n as int) =~= self.children@);
        None
    }

    /// Searches the entries inside the folder for the first with path `p`:
    /// its preorder position, or the number of entries when none has it.
    fn find_path(&self, p: &Vec<String>) -> (r: Result<usize, usize>)
        requires
            self.items().len() <= usize::MAX,
        ensures
            match r {
                Ok(j) => is_first_match(self.items(), path_view(*p), j as int),
                Err(m) => m == self.items().len() && no_match(self.items(), path_view(*p)),
            },
        decreases self,
    {
        let n = self.children.len();
        let mut offset: usize = 0;
        let mut k: usize = 0;
        while k < n
            invariant
                n == self.children@.len(),
                k <= n,
                offset == seq_items(self.children@.take(k as int)).len(),
                no_match(seq_items(self.children@.take(k as int)), path_view(*p)),
                self.items().len() <= usize::MAX,
            decreases n - k,
        {
            proof {
                lemma_seq_items_take(self.children@, k as int);
                lemma_seq_items_prefix(self.children@, k as int);
            }
            let ghost pre = seq_items(self.children@.take(k as int));
            let ghost c = self.children@[k as int];
            if same_path(self.children[k].path(), p) {
                assert(self.items()[offset as int] == c);
                assert forall|i: int| 0 <= i < offset implies item_path(#[trigger] self.items()[i]) != path_view(*p) by {
                    assert(self.items()[i] == pre[i]);
                };
                return Ok(offset);
            }
            match &self.children[k] {
                TreeItem::Folder { folder } => {
                    assert(decreases_to!(self => folder));
                    match folder.find_path(p) {
                        Ok(j) => {
                            let ghost sub = folder.items();
                            assert(entry_items(c) == seq![c] + sub);
                            assert(self.items()[offset + 1 + j] == sub[j as int]);
                            assert forall|i: int| 0 <= i < offset + 1 + j implies item_path(#[trigger] self.items()[i]) != path_view(*p) by {
                                if i < offset {
                                    assert(self.items()[i] == pre[i]);
                                } else if i == offset {
                                    assert(self.items()[i] == c);
                                } else {
                                    assert(self.items()[i] == sub[i - offset - 1]);
                                }
                            };
                            return Ok(offset + 1 + j);
                        },
                        Err(m) => {
                            let ghost sub = folder.items();
                            assert(entry_items(c) == seq![c] + sub);
                            let ghost next = seq_items(self.children@.take(k + 1));
                            assert(next == pre + seq![c] + sub);
                            assert forall|i: int| 0 <= i < next.len() implies item_path(#[trigger] next[i]) != path_view(*p) by {
                                if i < offset {
                                    assert(next[i] == pre[i]);
                                } else if i == offset {
                                    assert(next[i] == c);
                                } else {
                                    assert(next[i] == sub[i - offset - 1]);
                                }
                            };
                            offset = offset + 1 + m;
                        },
                    }
                },
                TreeItem::File { .. } => {
                    let ghost next = seq_items(self.children@.take(k + 1));
                    assert(entry_items(c) == seq![c]);
                    assert(next == pre + seq![c]);
                    assert forall|i: int| 0 <= i < next.len() implies item_path(#[trigger] next[i]) != path_view(*p) by {
                        if i < offset {
                            assert(next[i] == pre[i]);
                        }
                    };
                    offset = offset + 1;
                },
            }
            k = k + 1;
        }
        assert(self.children@.take(n as int) =~= self.children@);
        Err(offset)
    }

    /// The preorder position of the first entry inside the folder whose
    /// path is `p`.
    pub fn position_of(&self, p: &Vec<String>) -> (r: Option<usize>)
        requires
            self.items().len() <= usize::MAX,
        ensures
            match r {
                Some(j) => is_first_match(self.items(), path_view(*p), j as int),
                None => no_match(self.items(), path_view(*p)),
            },
    {
        match self.find_path(p) {
            Ok(j) => Some(j),
            Err(_) => None,
        }
    }

    /// The nodes of the entries inside the folder, in preorder.
    pub open spec fn nodes(&self) -> Seq<TreeNode<T>> {
        seq_nodes(self.children@)
    }

    /// Whether some entry inside the folder has the path `p`.
    pub fn contains_path(&self, p: &Vec<String>) -> (r: bool)
        ensures
            r == !no_match(self.items(), path_view(*p)),
        decreases self,
    {
        let ghost pv = path_view(*p);
        let n = self.children.len();
        let mut k: usize = 0;
        while k < n
            invariant
                n == self.children@.len(),
                k <= n,
                pv == path_view(*p),
                no_match(seq_items(self.children@.take(k as int)), pv),
            decreases n - k,
        {
            let ghost c = self.children@[k as int];
            proof {
                lemma_seq_items_prefix(self.children@, k as int);
                let off = seq_items(self.children@.take(k as int)).len() as int;
                assert(self.items()[off] == c);
            }
            if same_path(self.children[k].path(), p) {
                return true;
            }
            match &self.children[k] {
                TreeItem::Folder { folder } => {
                    assert(decreases_to!(self => folder));
                    if folder.contains_path(p) {
                        proof {
                            let pre = seq_items(self.children@.take(k as int));
                            let off = pre.len() as int;
                            let i = choose|i: int| 0 <= i < folder.items().len() && item_path(#[trigger] folder.items()[i]) == pv;
                            assert(entry_items(c) == seq![c] + folder.items());
                            assert(self.items()[off + 1 + i] == folder.items()[i]);
                        }
                        return true;
                    }
                },
                TreeItem::File { .. } => {},
            }
            proof {
                lemma_no_match_step(self.children@, k as int, pv);
            }
            k = k + 1;
        }
        proof {
            assert(self.children@.take(n as int) =~= self.children@);
        }
        false
    }

    /// Makes `op` to the first entry inside the folder whose path is `p`
    /// and returns the entries it took out.
    #[verifier::rlimit(100)]
    pub fn edit_first(&mut self, p: &Vec<String>, op: TreeEdit<T>) -> (taken: Vec<TreeItem<T>>)
        requires
            !no_match(old(self).items(), path_view(*p)),
            forall|j: int|
                is_first_match(old(self).items(), path_view(*p), j) ==> edit_applies(
                    #[trigger] old(self).items()[j],
                    op,
                ),
        ensures
            final(self).path == old(self).path,
            exists|j: int|
                {
                    &&& is_first_match(old(self).items(), path_view(*p), j)
                    &&& final(self).nodes() == nodes_after_edit(old(self).nodes(), old(self).items(), j, op)
                    &&& taken@ == edit_taken(#[trigger] old(self).items()[j], op)
                    &&& edit_result(old(self).items()[j], final(self).items()[j], op)
                    &&& replaced_at(old(self).children@, final(self).children@, j, final(self).items()[j])
                },
        decreases *old(self),
    {
        let ghost pv = path_view(*p);
        let ghost orig = old(self).children@;
        let ghost orig_self = *old(self);
        assert forall|j: int| is_first_match(seq_items(orig), pv, j) implies edit_applies(
            #[trigger] seq_items(orig)[j],
            op,
        ) by {
            assert(seq_items(orig) == old(self).items());
        };
        let n = self.children.len();
        let mut k: usize = 0;
        while k < n
            invariant
                n == orig.len(),
                k <= n,
                *self == orig_self,
                orig_self == *old(self),
                orig == orig_self.children@,
                pv == path_view(*p),
                no_match(seq_items(orig.take(k as int)), pv),
                !no_match(seq_items(orig), pv),
                forall|j: int|
                    is_first_match(seq_items(orig), pv, j) ==> edit_applies(
                        #[trigger] seq_items(orig)[j],
                        op,
                    ),
            decreases n - k,
        {
            let ghost c = orig[k as int];
            proof {
                lemma_child_context(orig, k as int, pv, op);
                assert(decreases_to!(orig_self => c)) by {
                    assert(decreases_to!(orig_self => orig_self.children));
                    assert(decreases_to!(orig_self.children => orig));
                    assert(decreases_to!(orig => c));
                };
            }
            if same_path(self.children[k].path(), p) {
                let ghost fpath = self.path;
                let taken = self.children[k].apply_edit(op);
                proof {
                    lemma_edit_here(orig, k as int, self.children@, op, pv);
                    let j = seq_items(orig.take(k as int)).len() as int;
                    assert(is_first_match(old(self).items(), path_view(*p), j));
                    assert(self.nodes() == nodes_after_edit(old(self).nodes(), old(self).items(), j, op));
                    assert(taken@ == edit_taken(old(self).items()[j], op));
                    assert(edit_result(old(self).items()[j], self.items()[j], op));
                    assert(self.children@ == orig.update(k as int, self.children@[k as int]));
                    assert(replaced_at(orig, self.children@, j, self.items()[j]));
                }
                assert(self.path == fpath);
                return taken;
            }
            let inside = match &self.children[k] {
                TreeItem::Folder { folder } => folder.contains_path(p),
                TreeItem::File { .. } => false,
            };
            if inside {
                proof {
                    let f0 = c->folder;
                    assert(decreases_to!(orig_self => f0)) by {
                        assert(decreases_to!(c => f0));
                    };
                }
                let ghost fpath = self.path;
                let taken = match &mut self.children[k] {
                    TreeItem::Folder { folder } => folder.edit_first(p, op),
                    TreeItem::File { .. } => Vec::new(),
                };
                proof {
                    let f0 = c->folder;
                    let f1 = self.children@[k as int]->folder;
                    let j2 = choose|j2: int|
                        {
                            &&& is_first_match(f0.items(), pv, j2)
                            &&& f1.nodes() == nodes_after_edit(f0.nodes(), f0.items(), j2, op)
                            &&& taken@ == edit_taken(#[trigger] f0.items()[j2], op)
                            &&& edit_result(f0.items()[j2], f1.items()[j2], op)
                            &&& replaced_at(f0.children@, f1.children@, j2, f1.items()[j2])
                        };
                    lemma_edit_inside(orig, k as int, self.children@, f0, f1, j2, op, pv);
                    let g = seq_items(orig.take(k as int)).len() + 1 + j2;
                    assert(self.children@ == orig.update(k as int, self.children@[k as int]));
                    assert(replaced_at(orig, self.children@, g, self.items()[g]));
                    assert(is_first_match(old(self).items(), path_view(*p), g));
                    assert(self.nodes() == nodes_after_edit(old(self).nodes(), old(self).items(), g, op));
                    assert(taken@ == edit_taken(old(self).items()[g], op));
                    assert(edit_result(old(self).items()[g], self.items()[g], op));
                }
                assert(self.path == fpath);
                return taken;
            }
            proof {
                lemma_no_match_step(orig, k as int, pv);
            }
            k = k + 1;
        }
        proof {
            assert(orig.take(n as int) =~= orig);
        }
        Vec::new()
    }

    /// The file at preorder position `i` among the files inside the folder,
    /// for changing it in place.
    pub fn get_file_mut(&mut self, i: usize) -> (r: Option<&mut TreeFile<T>>)
        requires
            old(self).items().len() <= usize::MAX,
        ensures
            final(self).path == old(self).path,
            final(self).children@.len() == old(self).children@.len(),
            match r {
                Some(m) => {
                    &&& i < old(self).files().len()
                    &&& *m == old(self).files()[i as int]
                    &&& final(self).files() == old(self).files().update(i as int, *final(m))
                    &&& final(self).items().len() == old(self).items().len()
                },
                None => i >= old(self).files().len() && *final(self) == *old(self),
            },
        decreases *old(self),
    {
        let ghost orig = old(self).children@;
        let ghost orig_self = *old(self);
        let n = self.children.len();
        let mut rest: usize = i;
        let mut k: usize = 0;
        while k < n
            invariant
                n == orig.len(),
                k <= n,
                *self == orig_self,
                orig_self == *old(self),
                orig == orig_self.children@,
                i == seq_files(orig.take(k as int)).len() + rest,
                orig_self.items().len() <= usize::MAX,
            decreases n - k,
        {
            let ghost c = orig[k as int];
            proof {
                lemma_seq_items_take(orig, k as int);
                lemma_seq_items_prefix(orig, k as int);
                assert(decreases_to!(orig_self => c)) by {
                    assert(decreases_to!(orig_self => orig_self.children));
                    assert(decreases_to!(orig_self.children => orig));
                    assert(decreases_to!(orig => c));
                };
                assert forall|x: TreeItem<T>|
                    #![trigger orig.update(k as int, x)]
                    seq_files(orig.update(k as int, x)) == seq_files(orig.take(k as int)) + entry_files(x) + seq_files(
                        orig.skip(k + 1),
                    ) && seq_items(orig.update(k as int, x)).len() == seq_items(orig).len() - entry_items(
                        orig[k as int],
                    ).len() + entry_items(x).len() by {
                    lemma_row_update(orig, k as int, x);
                };
            }
            let is_file = match &self.children[k] {
                TreeItem::File { .. } => true,
                TreeItem::Folder { .. } => false,
            };
            if is_file {
                if rest == 0 {
                    return self.children[k].as_file_mut();
                }
                rest = rest - 1;
            } else {
                let len = match &self.children[k] {
                    TreeItem::Folder { folder } => {
                        proof {
                            lemma_files_within_items(folder.children@);
                            assert(entry_items(c) == seq![c] + folder.items());
                        }
                        folder.file_count()
                    },
                    TreeItem::File { .. } => 0,
                };
                if rest < len {
                    proof {
                        let f0 = c->folder;
                        assert(decreases_to!(orig_self => f0)) by {
                            assert(decreases_to!(c => f0));
                        };
                        assert(entry_items(c) == seq![c] + f0.items());
                    }
                    let r = match self.children[k].as_folder_mut() {
                        Some(folder) => folder.get_file_mut(rest),
                        None => None,
                    };
                    return r;
                }
                rest = rest - len;
            }
            k = k + 1;
        }
        proof {
            assert(orig.take(n as int) =~= orig);
        }
        None
    }

    /// Sets the selection flag of every file inside the folder from its
    /// preorder position, counted from `base`; returns the number of
    /// entries passed.
    pub fn reselect(&mut self, base: usize, mode: SelectMode) -> (count: usize)
        requires
            base + old(self).items().len() <= usize::MAX,
        ensures
            count == old(self).items().len(),
            final(self).path == old(self).path,
            final(self).items().len() == old(self).items().len(),
            final(self).nodes() == reselected(old(self).nodes(), base as int, mode),
        decreases *old(self),
    {
        let ghost orig = old(self).children@;
        let ghost orig_self = *old(self);
        let n = self.children.len();
        let mut offset: usize = 0;
        let mut k: usize = 0;
        while k < n
            invariant
                n == orig.len(),
                k <= n,
                orig_self == *old(self),
                orig == orig_self.children@,
                self.path == orig_self.path,
                self.children@.len() == n,
                forall|i: int| k <= i < n ==> self.children@[i] == orig[i],
                seq_nodes(self.children@.take(k as int)) == reselected(seq_nodes(orig.take(k as int)), base as int, mode),
                seq_items(self.children@.take(k as int)).len() == seq_items(orig.take(k as int)).len(),
                offset == seq_items(orig.take(k as int)).len(),
                base + seq_items(orig).len() <= usize::MAX,
            decreases n - k,
        {
            let ghost c = orig[k as int];
            let ghost cur = self.children@;
            proof {
                lemma_seq_items_take(orig, k as int);
                lemma_nodes_take(orig, k as int);
                lemma_entry_nodes_split(c);
                assert(decreases_to!(orig_self => c)) by {
                    assert(decreases_to!(orig_self => orig_self.children));
                    assert(decreases_to!(orig_self.children => orig));
                    assert(decreases_to!(orig => c));
                };
            }
            let q = base + offset;
            let step = match self.children[k].as_file_mut() {
                Some(file) => {
                    file.selected = match mode {
                        SelectMode::Clear => false,
                        SelectMode::Range { lo, hi } => lo <= q && q <= hi,
                        SelectMode::Toggle { at } => if q == at {
                            !file.selected
                        } else {
                            file.selected
                        },
                    };
                    1
                },
                None => 0,
            };
            if step == 0 {
                proof {
                    let f0 = c->folder;
                    assert(decreases_to!(orig_self => f0)) by {
                        assert(decreases_to!(c => f0));
                    };
                    assert(entry_items(c) == seq![c] + f0.items());
                }
                let inner = match self.children[k].as_folder_mut() {
                    Some(folder) => folder.reselect(q + 1, mode),
                    None => 0,
                };
                offset = offset + 1 + inner;
            } else {
                offset = offset + 1;
            }
            proof {
                let now = self.children@;
                let x = now[k as int];
                assert(now == cur.update(k as int, x));
                assert(now.take(k as int) =~= cur.take(k as int));
                lemma_nodes_take(now, k as int);
                lemma_seq_items_take(now, k as int);
                lemma_entry_nodes_split(x);
                assert(entry_nodes(x) =~= reselected(entry_nodes(c), q as int, mode));
                lemma_reselected_append(seq_nodes(orig.take(k as int)), entry_nodes(c), base as int, mode);
            }
            k = k + 1;
        }
        proof {
            assert(orig.take(n as int) =~= orig);
            assert(self.children@.take(n as int) =~= self.children@);
        }
        offset
    }

    /// The file at preorder position `i` among the files inside the folder.
    pub fn get_file(&self, i: usize) -> (r: Option<&TreeFile<T>>)
        requires
            self.items().len() <= usize::MAX,
        ensures
            match r {
                Some(x) => i < self.files().len() && *x == self.files()[i as int],
                None => i >= self.files().len(),
            },
        decreases self,
    {
        let n = self.children.len();
        let mut rest: usize = i;
        let mut k: usize = 0;
        while k < n
            invariant
                n == self.children@.len(),
                k <= n,
                i == seq_files(self.children@.take(k as int)).len() + rest,
                self.items().len() <= usize::MAX,
            decreases n - k,
        {
            proof {
                lemma_seq_items_take(self.children@, k as int);
                lemma_seq_items_prefix(self.children@, k as int);
            }
            match &self.children[k] {
                TreeItem::File { file } => {
                    if rest == 0 {
                        return Some(file);
                    }
                    rest = rest - 1;
                },
                TreeItem::Folder { folder } => {
                    assert(decreases_to!(self => folder));
                    proof {
                        lemma_files_within_items(folder.children@);
                    }
                    let len = folder.file_count();
                    if rest < len {
                        return folder.get_file(rest);
                    }
                    rest = rest - len;
                },
            }
            k = k + 1;
        }
        assert(self.children@.take(n as int) =~= self.children@);
        None
    }
}

/// The nodes of an entry are its own node followed by the nodes of its
/// children's entries.
pub proof fn lemma_entry_nodes_split<T>(c: TreeItem<T>)
    ensures
        entry_nodes(c) == seq![node_of(c)] + match c {
            TreeItem::Folder { folder } => seq_nodes(folder.children@),
            TreeItem::File { .. } => Seq::empty(),
        },
{
    let rest = match c {
        TreeItem::Folder { folder } => seq_nodes(folder.children@),
        TreeItem::File { .. } => Seq::<TreeNode<T>>::empty(),
    };
    assert(entry_nodes(c) =~= seq![node_of(c)] + rest);
}

/// Node numbering of the first `k + 1` siblings extends that of the
/// first `k` by the nodes of sibling `k`.
pub proof fn lemma_nodes_take<T>(cs: Seq<TreeItem<T>>, k: int)
    requires
        0 <= k < cs.len(),
    ensures
        seq_nodes(cs.take(k + 1)) == seq_nodes(cs.take(k)) + entry_nodes(cs[k]),
{
    lemma_seq_items_take(cs, k);
    assert(seq_nodes(cs.take(k + 1)) =~= seq_nodes(cs.take(k)) + entry_nodes(cs[k]));
}

/// Node numbering distributes over joining rows of siblings.
pub proof fn lemma_nodes_append<T>(a: Seq<TreeItem<T>>, b: Seq<TreeItem<T>>)
    ensures
        seq_nodes(a + b) == seq_nodes(a) + seq_nodes(b),
{
    lemma_seq_items_append(a, b);
    assert(seq_nodes(a + b) =~= seq_nodes(a) + seq_nodes(b));
}

/// Adding a child at the end of a folder adds its nodes at the end of the
/// folder's nodes.
pub proof fn lemma_nodes_concat<T>(before: TreeItem<T>, after: TreeItem<T>, item: TreeItem<T>)
    requires
        before is Folder,
        after is Folder,
        path_view(after->folder.path) == path_view(before->folder.path),
        after->folder.children@ == before->folder.children@.push(item),
    ensures
        entry_nodes(after) == entry_nodes(before) + entry_nodes(item),
{
    let bc = before->folder.children@;
    let ac = after->folder.children@;
    assert(ac.drop_last() =~= bc);
    assert(seq_items(ac) == seq_items(bc) + entry_items(item));
    lemma_entry_nodes_split(before);
    lemma_entry_nodes_split(after);
    assert(seq_nodes(ac) =~= seq_nodes(bc) + entry_nodes(item));
    assert(entry_nodes(after) =~= entry_nodes(before) + entry_nodes(item));
}

/// A copy of a path.
fn copy_path(p: &Vec<String>) -> (r: Vec<String>)
    ensures
        path_view(r) == path_view(*p),
{
    let mut r: Vec<String> = Vec::new();
    let mut k: usize = 0;
    while k < p.len()
        invariant
            k <= p.len(),
            r@.len() == k,
            forall|i: int| 0 <= i < k ==> r@[i]@ == p@[i]@,
        decreases p.len() - k,
    {
        r.push(p[k].clone());
        k = k + 1;
    }
    assert(path_view(r) =~= path_view(*p));
    r
}

/// Keeping the children that lack a path no child has keeps them all.
pub proof fn lemma_kept_all<T>(cs: Seq<TreeItem<T>>, p: Seq<Seq<char>>)
    requires
        forall|i: int| 0 <= i < cs.len() ==> item_path(#[trigger] cs[i]) != p,
    ensures
        kept_children(cs, p) == cs,
        taken_children(cs, p) == Seq::<TreeItem<T>>::empty(),
    decreases cs.len(),
{
    reveal(Seq::filter);
    if cs.len() > 0 {
        lemma_kept_all(cs.drop_last(), p);
        assert(item_path(cs[cs.len() - 1]) != p);
        assert(cs.drop_last().push(cs.last()) =~= cs);
    }
}

/// Deleting what was just created restores a folder: taking out the
/// children with the path of the entry just added at its end, when no
/// child had that path before, gives back the folder's nodes and takes out
/// exactly the added entry.
pub proof fn lemma_delete_undoes_create<T>(c: TreeItem<T>, after: TreeItem<T>, item: TreeItem<T>, path: Vec<String>)
    requires
        c is Folder,
        after is Folder,
        after->folder.path == c->folder.path,
        after->folder.children@ == c->folder.children@.push(item),
        path_view(path) == item_path(item),
        forall|i: int|
            0 <= i < c->folder.children@.len() ==> item_path(#[trigger] c->folder.children@[i]) != path_view(path),
    ensures
        edited_nodes(after, TreeEdit::Extract { path }) == entry_nodes(c),
        edit_taken(after, TreeEdit::Extract { path }) == seq![item],
{
    reveal(Seq::filter);
    let cs = c->folder.children@;
    let ac = after->folder.children@;
    let p = path_view(path);
    lemma_kept_all(cs, p);
    assert(ac.drop_last() =~= cs);
    assert(ac.last() == item);
    assert(kept_children(ac, p) == kept_children(cs, p));
    assert(taken_children(ac, p) == taken_children(cs, p).push(item));
    assert(taken_children(ac, p) =~= seq![item]);
    lemma_entry_nodes_split(c);
}

impl<T> TreeItem<T> {
    /// Gives the entry the path `to`, and each entry inside a folder the
    /// path of its renamed parent followed by its own last component.
    pub fn rename(&mut self, to: Vec<String>)
        requires
            inner_paths_named(*old(self)),
        ensures
            entry_nodes(*final(self)) == renamed_nodes(*old(self), path_view(to)),
            renamed_as(*old(self), *final(self), path_view(to)),
        decreases *old(self),
    {
        let ghost base = path_view(to);
        proof {
            lemma_entry_nodes_split(*old(self));
        }
        match self {
            TreeItem::File { file } => {
                file.path = to;
                proof {
                    lemma_entry_nodes_split(*self);
                }
            },
            TreeItem::Folder { folder } => {
                let ghost orig = folder.children@;
                let ghost orig_folder = *folder;
                folder.path = to;
                let n = folder.children.len();
                let mut k: usize = 0;
                while k < n
                    invariant
                        n == orig.len(),
                        folder.children@.len() == n,
                        path_view(folder.path) == base,
                        k <= n,
                        forall|i: int| k <= i < n ==> folder.children@[i] == orig[i],
                        seq_nodes(folder.children@.take(k as int)) == renamed_row(orig.take(k as int), base),
                        forall|i: int|
                            0 <= i < k ==> renamed_as(
                                #[trigger] orig[i],
                                folder.children@[i],
                                base.push(item_path(orig[i]).last()),
                            ),
                        forall|i: int| 0 <= i < orig_folder.items().len() ==> item_path(#[trigger] orig_folder.items()[i]).len() > 0,
                        orig == orig_folder.children@,
                        decreases_to!(*old(self) => orig_folder),
                    decreases n - k,
                {
                    proof {
                        lemma_seq_items_prefix(orig, k as int);
                        lemma_seq_items_take(orig, k as int);
                        lemma_nodes_take(orig, k as int);
                        let c = orig[k as int];
                        let pre_len: int = seq_items(orig.take(k as int)).len() as int;
                        assert(orig_folder.items()[pre_len] == c);
                        assert(inner_paths_named(c)) by {
                            match c {
                                TreeItem::Folder { folder: cf } => {
                                    assert forall|i: int| 0 <= i < cf.items().len() implies item_path(#[trigger] cf.items()[i]).len() > 0 by {
                                        assert(entry_items(c) == seq![c] + cf.items());
                                        assert(orig_folder.items()[pre_len + 1 + i] == cf.items()[i]);
                                    };
                                },
                                TreeItem::File { .. } => {},
                            }
                        };
                        assert(decreases_to!(*old(self) => c)) by {
                            assert(decreases_to!(orig_folder => orig_folder.children));
                            assert(decreases_to!(orig_folder.children => orig));
                            assert(decreases_to!(orig => c));
                        };
                    }
                    let ghost before_children = folder.children@;
                    let last = folder.children[k].path().len() - 1;
                    let name = folder.children[k].path()[last].clone();
                    let mut child_path = copy_path(&folder.path);
                    child_path.push(name);
                    proof {
                        assert(path_view(child_path) =~= base.push(item_path(orig[k as int]).last()));
                    }
                    folder.children[k].rename(child_path);
                    proof {
                        assert(folder.children@.take(k as int) =~= before_children.take(k as int));
                        lemma_nodes_take(folder.children@, k as int);
                        assert(orig.take(k + 1).drop_last() =~= orig.take(k as int));
                    }
                    k = k + 1;
                }
                proof {
                    assert(folder.children@.take(n as int) =~= folder.children@);
                    assert(orig.take(n as int) =~= orig);
                }
            },
        }
        proof {
            lemma_entry_nodes_split(*self);
        }
    }

    /// Makes an edit to this entry and returns the entries it took out.
    pub fn apply_edit(&mut self, op: TreeEdit<T>) -> (r: Vec<TreeItem<T>>)
        requires
            edit_applies(*old(self), op),
        ensures
            edit_result(*old(self), *final(self), op),
            r@ == edit_taken(*old(self), op),
    {
        match op {
            TreeEdit::Attach { item } => {
                match self {
                    TreeItem::Folder { folder } => {
                        let ghost before = folder.children@;
                        folder.children.push(item);
                        proof {
                            assert(folder.children@.drop_last() =~= before);
                        }
                    },
                    TreeItem::File { .. } => {},
                }
                proof {
                    lemma_nodes_concat(*old(self), *self, item);
                }
                Vec::new()
            },
            TreeEdit::Extract { path } => {
                let mut taken: Vec<TreeItem<T>> = Vec::new();
                match self {
                    TreeItem::Folder { folder } => {
                        let mut all: Vec<TreeItem<T>> = Vec::new();
                        std::mem::swap(&mut all, &mut folder.children);
                        let ghost before = all@;
                        let ghost pv = path_view(path);
                        let ghost fpath = folder.path;
                        for x in it: all.into_iter()
                            invariant
                                it.seq() == before,
                                folder.path == fpath,
                                pv == path_view(path),
                                folder.children@ == kept_children(before.take(it.index() as int), pv),
                                taken@ == taken_children(before.take(it.index() as int), pv),
                        {
                            let ghost i = it.index() as int;
                            proof {
                                lemma_sort_step(before, i, pv);
                                assert(x == before[i]);
                            }
                            let same = same_path(x.path(), &path);
                            if same {
                                taken.push(x);
                            } else {
                                folder.children.push(x);
                            }
                        }
                        proof {
                            assert(before.take(before.len() as int) =~= before);
                        }
                    },
                    TreeItem::File { .. } => {},
                }
                proof {
                    lemma_entry_nodes_split(*old(self));
                    lemma_entry_nodes_split(*self);
                }
                taken
            },
            TreeEdit::Rename { to } => {
                self.rename(to);
                Vec::new()
            },
        }
    }
}

/// The path of a path's parent.
fn parent_path(p: &Vec<String>) -> (r: Vec<String>)
    requires
        p@.len() > 0,
    ensures
        path_view(r) == parent_view(path_view(*p)),
{
    let mut r: Vec<String> = Vec::new();
    let mut k: usize = 0;
    let last = p.len() - 1;
    while k < last
        invariant
            last == p@.len() - 1,
            k <= last,
            r@.len() == k,
            forall|i: int| 0 <= i < k ==> r@[i]@ == p@[i]@,
        decreases p.len() - k,
    {
        r.push(p[k].clone());
        k = k + 1;
    }
    assert(path_view(r) =~= parent_view(path_view(*p)));
    r
}

/// The folder `after` is the folder `before` with the entry at preorder
/// position `j` replaced by `x`, and nothing else changed.
pub open spec fn folder_replaced<T>(before: Folder<T>, after: Folder<T>, j: int, x: TreeItem<T>) -> bool {
    after.path == before.path && replaced_at(before.children@, after.children@, j, x)
}

/// A folder tree of loaded files, with the preorder position of the last
/// file that a click selected.
pub struct FileTree<T> {
    tree: Option<Folder<T>>,
    last_selected: Option<usize>,
}

impl<T> FileTree<T> {
    /// The top folder, once one is loaded.
    pub closed spec fn root(&self) -> Option<Folder<T>> {
        self.tree
    }

    /// The preorder position of the last file that a click selected.
    pub closed spec fn last(&self) -> Option<usize> {
        self.last_selected
    }

    /// The entries under the top folder, in preorder.
    pub open spec fn items(&self) -> Seq<TreeItem<T>> {
        match self.root() {
            Some(f) => f.items(),
            None => Seq::empty(),
        }
    }

    /// The nodes of the entries under the top folder, in preorder.
    pub open spec fn nodes(&self) -> Seq<TreeNode<T>> {
        match self.root() {
            Some(f) => f.nodes(),
            None => Seq::empty(),
        }
    }

    /// The files under the top folder, in preorder.
    pub open spec fn files(&self) -> Seq<TreeFile<T>> {
        match self.root() {
            Some(f) => f.files(),
            None => Seq::empty(),
        }
    }

    /// The entries can be numbered by `usize`.
    pub open spec fn fits(&self) -> bool {
        self.items().len() <= usize::MAX
    }

    /// An empty tree.
    pub fn new() -> (r: Self)
        ensures
            r.root() is None,
            r.last() is None,
    {
        FileTree { tree: None, last_selected: None }
    }

    /// Makes `folder` the top folder.
    pub fn set_root(&mut self, folder: Folder<T>)
        ensures
            final(self).root() == Some(folder),
            final(self).last() == old(self).last(),
    {
        self.tree = Some(folder);
    }

    /// The path of the top folder.
    pub fn root_path(&self) -> (r: Option<&Vec<String>>)
        ensures
            match self.root() {
                Some(f) => r == Some(&f.path),
                None => r is None,
            },
    {
        match &self.tree {
            Some(f) => Some(&f.path),
            None => None,
        }
    }

    /// The preorder position of the last file that a click selected.
    pub fn last_selected(&self) -> (r: Option<usize>)
        ensures
            r == self.last(),
    {
        self.last_selected
    }

    /// The number of files.
    pub fn len(&self) -> (r: usize)
        requires
            self.fits(),
        ensures
            r == self.files().len(),
    {
        match &self.tree {
            Some(f) => f.file_count(),
            None => 0,
        }
    }

    /// The number of entries.
    pub fn item_count(&self) -> (r: usize)
        requires
            self.fits(),
        ensures
            r == self.items().len(),
    {
        match &self.tree {
            Some(f) => f.item_count(),
            None => 0,
        }
    }

    /// The file at preorder position `i` among the files.
    pub fn get(&self, i: usize) -> (r: Option<&TreeFile<T>>)
        requires
            self.fits(),
        ensures
            match r {
                Some(x) => i < self.files().len() && *x == self.files()[i as int],
                None => i >= self.files().len(),
            },
    {
        match &self.tree {
            Some(f) => f.get_file(i),
            None => None,
        }
    }

    /// The entry at preorder position `i`.
    pub fn get_item(&self, i: usize) -> (r: Option<&TreeItem<T>>)
        requires
            self.fits(),
        ensures
            match r {
                Some(x) => i < self.items().len() && *x == self.items()[i as int],
                None => i >= self.items().len(),
            },
    {
        match &self.tree {
            Some(f) => f.get_item(i),
            None => None,
        }
    }

    /// The file at preorder position `i` among the files, for changing it
    /// in place.
    pub fn get_mut(&mut self, i: usize) -> (r: Option<&mut TreeFile<T>>)
        requires
            old(self).fits(),
        ensures
            final(self).last() == old(self).last(),
            final(self).root() is Some == old(self).root() is Some,
            match r {
                Some(m) => {
                    &&& i < old(self).files().len()
                    &&& *m == old(self).files()[i as int]
                    &&& final(self).files() == old(self).files().update(i as int, *final(m))
                    &&& final(self).items().len() == old(self).items().len()
                },
                None => i >= old(self).files().len() && *final(self) == *old(self),
            },
    {
        match &mut self.tree {
            Some(f) => f.get_file_mut(i),
            None => None,
        }
    }

    /// Handles a click on the entry at preorder position `i`: a click on a
    /// folder changes nothing; with shift, and a file clicked before, the
    /// files from that one to this one become the selection; with ctrl,
    /// the file flips; otherwise it becomes the only file selected.
    pub fn click(&mut self, i: usize, shift: bool, ctrl: bool)
        requires
            old(self).fits(),
            i < old(self).items().len(),
            (shift && old(self).last() is Some) ==> old(self).last()->0 < old(self).items().len(),
        ensures
            old(self).items()[i as int] is Folder ==> *final(self) == *old(self),
            old(self).items()[i as int] is File ==> {
                &&& final(self).nodes() == reselected(old(self).nodes(), 0, click_mode(i, shift, ctrl, old(self).last()))
                &&& final(self).last() == click_last(
                    i,
                    shift,
                    ctrl,
                    old(self).last(),
                    old(self).items()[i as int]->file.selected,
                )
            },
            final(self).items().len() == old(self).items().len(),
            final(self).root() is Some == old(self).root() is Some,
    {
        let before = match self.get_item(i) {
            Some(item) => match item {
                TreeItem::File { file } => Some(file.selected),
                TreeItem::Folder { .. } => None,
            },
            None => None,
        };
        let before = match before {
            Some(b) => b,
            None => {
                return ;
            },
        };
        let mode = if shift && self.last_selected.is_some() {
            let l = match self.last_selected {
                Some(l) => l,
                None => 0,
            };
            if i < l {
                SelectMode::Range { lo: i, hi: l }
            } else {
                SelectMode::Range { lo: l, hi: i }
            }
        } else if ctrl {
            SelectMode::Toggle { at: i }
        } else {
            SelectMode::Range { lo: i, hi: i }
        };
        match &mut self.tree {
            Some(f) => {
                f.reselect(0, mode);
            },
            None => {},
        }
        if !shift {
            if ctrl {
                if !before {
                    self.last_selected = Some(i);
                }
            } else {
                self.last_selected = Some(i);
            }
        }
    }

    /// Places a newly created entry at the end of the first folder whose
    /// path is the entry's parent; with no such folder the entry is
    /// dropped. Returns whether it was placed.
    #[verifier::spinoff_prover]
    pub fn apply_create(&mut self, item: TreeItem<T>) -> (placed: bool)
        requires
            item_path(item).len() > 0,
            old(self).root() is Some ==> no_file_at(old(self).nodes(), parent_view(item_path(item))),
        ensures
            final(self).last() == old(self).last(),
            final(self).root() is Some == old(self).root() is Some,
            placed == (old(self).root() is Some && !no_match(old(self).items(), parent_view(item_path(item)))),
            !placed ==> *final(self) == *old(self),
            placed ==> exists|j: int|
                #![trigger is_first_match(old(self).items(), parent_view(item_path(item)), j)]
                {
                    &&& is_first_match(old(self).items(), parent_view(item_path(item)), j)
                    &&& final(self).nodes() == nodes_after_edit(
                        old(self).nodes(),
                        old(self).items(),
                        j,
                        TreeEdit::Attach { item },
                    )
                    &&& edit_result(old(self).items()[j], final(self).items()[j], TreeEdit::Attach { item })
                    &&& folder_replaced(old(self).root().unwrap(), final(self).root().unwrap(), j, final(self).items()[j])
                },
    {
        let ghost pv = parent_view(item_path(item));
        let ghost op = TreeEdit::Attach { item };
        let ghost mut jw: int = 0;
        let placed = match &mut self.tree {
            None => false,
            Some(f) => {
                let parent = parent_path(item.path());
                if f.contains_path(&parent) {
                    proof {
                        assert forall|j: int| is_first_match(f.items(), pv, j) implies edit_applies(
                            #[trigger] f.items()[j],
                            op,
                        ) by {
                            lemma_first_match_is_folder(f.children@, pv, j);
                        };
                    }
                    let ghost before = *f;
                    f.edit_first(&parent, TreeEdit::Attach { item });
                    proof {
                        jw = choose|j: int|
                            {
                                &&& is_first_match(before.items(), pv, j)
                                &&& f.nodes() == nodes_after_edit(before.nodes(), before.items(), j, op)
                                &&& edit_taken(#[trigger] before.items()[j], op) == edit_taken(before.items()[j], op)
                                &&& edit_result(before.items()[j], f.items()[j], op)
                                &&& replaced_at(before.children@, f.children@, j, f.items()[j])
                            };
                    }
                    true
                } else {
                    false
                }
            },
        };
        proof {
            if placed {
                assert(is_first_match(old(self).items(), pv, jw));
                assert(self.nodes() == nodes_after_edit(old(self).nodes(), old(self).items(), jw, op));
                assert(edit_result(old(self).items()[jw], self.items()[jw], op));
            }
        }
        placed
    }

    /// Takes out every child with path `path` of the first folder whose
    /// path is the parent of `path`. Returns whether such a folder was
    /// found.
    #[verifier::spinoff_prover]
    pub fn apply_delete(&mut self, path: Vec<String>) -> (found: bool)
        requires
            path@.len() > 0,
            old(self).root() is Some ==> no_file_at(old(self).nodes(), parent_view(path_view(path))),
        ensures
            final(self).last() == old(self).last(),
            final(self).root() is Some == old(self).root() is Some,
            found == (old(self).root() is Some && !no_match(old(self).items(), parent_view(path_view(path)))),
            !found ==> *final(self) == *old(self),
            found ==> exists|j: int|
                #![trigger is_first_match(old(self).items(), parent_view(path_view(path)), j)]
                {
                    &&& is_first_match(old(self).items(), parent_view(path_view(path)), j)
                    &&& final(self).nodes() == nodes_after_edit(
                        old(self).nodes(),
                        old(self).items(),
                        j,
                        TreeEdit::Extract { path },
                    )
                    &&& edit_result(old(self).items()[j], final(self).items()[j], TreeEdit::Extract { path })
                    &&& folder_replaced(old(self).root().unwrap(), final(self).root().unwrap(), j, final(self).items()[j])
                },
    {
        let ghost pv = parent_view(path_view(path));
        let ghost op = TreeEdit::Extract { path };
        let ghost mut jw: int = 0;
        let found = match &mut self.tree {
            None => false,
            Some(f) => {
                let parent = parent_path(&path);
                if f.contains_path(&parent) {
                    proof {
                        assert forall|j: int| is_first_match(f.items(), pv, j) implies edit_applies(
                            #[trigger] f.items()[j],
                            op,
                        ) by {
                            lemma_first_match_is_folder(f.children@, pv, j);
                        };
                    }
                    let ghost before = *f;
                    f.edit_first(&parent, TreeEdit::Extract { path });
                    proof {
                        jw = choose|j: int|
                            {
                                &&& is_first_match(before.items(), pv, j)
                                &&& f.nodes() == nodes_after_edit(before.nodes(), before.items(), j, op)
                                &&& edit_taken(#[trigger] before.items()[j], op) == edit_taken(before.items()[j], op)
                                &&& edit_result(before.items()[j], f.items()[j], op)
                                &&& replaced_at(before.children@, f.children@, j, f.items()[j])
                            };
                    }
                    true
                } else {
                    false
                }
            },
        };
        proof {
            if found {
                assert(is_first_match(old(self).items(), pv, jw));
                assert(self.nodes() == nodes_after_edit(old(self).nodes(), old(self).items(), jw, op));
                assert(edit_result(old(self).items()[jw], self.items()[jw], op));
            }
        }
        found
    }

    /// Renames the first entry with path `from`, when it stands among the
    /// first `len()` positions of the preorder numbering; entries inside it
    /// follow it. Returns whether it was renamed.
    #[verifier::spinoff_prover]
    pub fn apply_rename(&mut self, from: Vec<String>, to: Vec<String>) -> (renamed: bool)
        requires
            old(self).fits(),
            forall|j: int|
                is_first_match(old(self).items(), path_view(from), j) && j < old(self).files().len()
                    ==> inner_paths_named(#[trigger] old(self).items()[j]),
        ensures
            final(self).last() == old(self).last(),
            final(self).root() is Some == old(self).root() is Some,
            renamed == exists|j: int| is_first_match(old(self).items(), path_view(from), j) && j < old(self).files().len(),
            !renamed ==> *final(self) == *old(self),
            renamed ==> exists|j: int|
                {
                    &&& is_first_match(old(self).items(), path_view(from), j)
                    &&& #[trigger] final(self).nodes() == nodes_after_edit(
                        old(self).nodes(),
                        old(self).items(),
                        j,
                        TreeEdit::Rename { to },
                    )
                    &&& edit_result(old(self).items()[j], final(self).items()[j], TreeEdit::Rename { to })
                    &&& folder_replaced(old(self).root().unwrap(), final(self).root().unwrap(), j, final(self).items()[j])
                },
    {
        let ghost pv = path_view(from);
        match &mut self.tree {
            None => false,
            Some(f) => {
                let pos = f.position_of(&from);
                match pos {
                    Some(j) => {
                        proof {
                            lemma_files_within_items(f.children@);
                        }
                        if j < f.file_count() {
                            let ghost op = TreeEdit::Rename { to };
                            proof {
                                assert forall|j2: int| is_first_match(f.items(), pv, j2) implies edit_applies(
                                    #[trigger] f.items()[j2],
                                    op,
                                ) by {
                                    lemma_first_match_unique(f.items(), pv, j as int, j2);
                                };
                            }
                            f.edit_first(&from, TreeEdit::Rename { to });
                            true
                        } else {
                            proof {
                                assert forall|j2: int| is_first_match(f.items(), pv, j2) implies j2 >= f.files().len() by {
                                    lemma_first_match_unique(f.items(), pv, j as int, j2);
                                };
                            }
                            false
                        }
                    },
                    None => false,
                }
            },
        }
    }

    /// Moves the entry at `from` to `to`: takes it out of the first folder
    /// whose path is the parent of `from`, renames it to `to`, and places it
    /// at the end of the first folder whose path is the parent of `to`;
    /// with no such folder the entry is dropped. Returns whether it was
    /// placed.
    #[verifier::spinoff_prover]
    pub fn apply_move(&mut self, from: Vec<String>, to: Vec<String>) -> (placed: bool)
        requires
            from@.len() > 0,
            to@.len() > 0,
            old(self).root() is Some ==> {
                &&& !no_match(old(self).items(), parent_view(path_view(from)))
                &&& no_file_at(old(self).nodes(), parent_view(path_view(from)))
                &&& no_file_at(old(self).nodes(), parent_view(path_view(to)))
                &&& forall|j: int|
                    is_first_match(old(self).items(), parent_view(path_view(from)), j) ==> {
                        &&& taken_children(old(self).items()[j]->folder.children@, path_view(from)).len() == 1
                        &&& inner_paths_named(moved_child(old(self).items(), j, path_view(from)))
                    }
            },
        ensures
            final(self).last() == old(self).last(),
            final(self).root() is Some == old(self).root() is Some,
            old(self).root() is None ==> !placed && *final(self) == *old(self),
            old(self).root() is Some ==> exists|j1: int, mid: Folder<T>|
                #![trigger is_first_match(old(self).items(), parent_view(path_view(from)), j1), mid.nodes()]
                {
                    &&& is_first_match(old(self).items(), parent_view(path_view(from)), j1)
                    &&& mid.nodes() == nodes_after_edit(
                        old(self).nodes(),
                        old(self).items(),
                        j1,
                        TreeEdit::Extract { path: from },
                    )
                    &&& edit_result(old(self).items()[j1], mid.items()[j1], TreeEdit::Extract { path: from })
                    &&& folder_replaced(old(self).root().unwrap(), mid, j1, mid.items()[j1])
                    &&& placed == !no_match(mid.items(), parent_view(path_view(to)))
                    &&& !placed ==> final(self).root() == Some(mid)
                    &&& placed ==> exists|j2: int, renamed: TreeItem<T>|
                        #![trigger is_first_match(mid.items(), parent_view(path_view(to)), j2), renamed_as(moved_child(old(self).items(), j1, path_view(from)), renamed, path_view(to))]
                        {
                            &&& is_first_match(mid.items(), parent_view(path_view(to)), j2)
                            &&& renamed_as(moved_child(old(self).items(), j1, path_view(from)), renamed, path_view(to))
                            &&& final(self).nodes() == nodes_after_attach(
                                mid.nodes(),
                                mid.items(),
                                j2,
                                renamed_nodes(moved_child(old(self).items(), j1, path_view(from)), path_view(to)),
                            )
                            &&& edit_result(mid.items()[j2], final(self).items()[j2], TreeEdit::Attach { item: renamed })
                            &&& folder_replaced(mid, final(self).root().unwrap(), j2, final(self).items()[j2])
                        }
                },
    {
        let ghost pfv = parent_view(path_view(from));
        let ghost ptv = parent_view(path_view(to));
        let ghost fv = path_view(from);
        let ghost from_copy = from;
        match &mut self.tree {
            None => false,
            Some(f) => {
                let ghost before = *f;
                let pfrom = parent_path(&from);
                let pto = parent_path(&to);
                let ghost op = TreeEdit::Extract { path: from };
                proof {
                    assert forall|j: int| is_first_match(f.items(), pfv, j) implies edit_applies(
                        #[trigger] f.items()[j],
                        op,
                    ) by {
                        lemma_first_match_is_folder(f.children@, pfv, j);
                    };
                }
                let taken = f.edit_first(&pfrom, TreeEdit::Extract { path: from });
                let ghost mid = *f;
                let ghost j1 = choose|j1: int|
                    {
                        &&& is_first_match(before.items(), pfv, j1)
                        &&& mid.nodes() == nodes_after_edit(before.nodes(), before.items(), j1, op)
                        &&& taken@ == edit_taken(#[trigger] before.items()[j1], op)
                        &&& edit_result(before.items()[j1], mid.items()[j1], op)
                        &&& replaced_at(before.children@, mid.children@, j1, mid.items()[j1])
                    };
                proof {
                    lemma_first_match_is_folder(before.children@, pfv, j1);
                    lemma_extract_no_file(before.children@, j1, from_copy, ptv);
                }
                let found = crate::single::exactly_one(taken);
                match found {
                    None => false,
                    Some(item) => {
                        let mut item = item;
                        item.rename(to);
                        let ghost renamed = item;
                        if f.contains_path(&pto) {
                            let ghost op2 = TreeEdit::Attach { item };
                            proof {
                                assert forall|j: int| is_first_match(f.items(), ptv, j) implies edit_applies(
                                    #[trigger] f.items()[j],
                                    op2,
                                ) by {
                                    lemma_first_match_is_folder(f.children@, ptv, j);
                                };
                            }
                            f.edit_first(&pto, TreeEdit::Attach { item });
                            proof {
                                let j2 = choose|j2: int|
                                    {
                                        &&& is_first_match(mid.items(), ptv, j2)
                                        &&& f.nodes() == nodes_after_edit(mid.nodes(), mid.items(), j2, op2)
                                        &&& edit_result(#[trigger] mid.items()[j2], f.items()[j2], op2)
                                        &&& replaced_at(mid.children@, f.children@, j2, f.items()[j2])
                                    };
                                assert(f.nodes() == nodes_after_attach(
                                    mid.nodes(),
                                    mid.items(),
                                    j2,
                                    renamed_nodes(moved_child(before.items(), j1, fv), path_view(to)),
                                ));
                                assert(renamed_as(moved_child(before.items(), j1, fv), renamed, path_view(to)));
                            }
                            true
                        } else {
                            false
                        }
                    },
                }
            },
        }
    }

    /// Deselects every file.
    pub fn clear_selected(&mut self)
        requires
            old(self).fits(),
        ensures
            final(self).nodes() == reselected(old(self).nodes(), 0, SelectMode::Clear),
            final(self).items().len() == old(self).items().len(),
            final(self).last() == old(self).last(),
            final(self).root() is Some == old(self).root() is Some,
    {
        match &mut self.tree {
            Some(f) => {
                f.reselect(0, SelectMode::Clear);
            },
            None => {},
        }
    }
}

} // verus!
