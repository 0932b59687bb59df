//! The editor's panes: a binary tree of splits whose leaves each show a
//! note, and the operations on it (find, split, close).
use vstd::prelude::*;

verus! {

/// What a pane shows: the editor, the preview, or both side by side.
#[derive(Debug, Clone, Copy, PartialEq, Eq, Structural)]
pub enum ViewMode {
    Editor,
    SplitHorizontal,
    SplitVertical,
    Preview,
}

/// Identifier of a pane.
#[derive(Debug, Clone, Copy, PartialEq, Eq, Hash, Structural)]
pub struct PaneId(pub usize);

/// How a split pane lays out its two children.
#[derive(Debug, Clone, Copy, PartialEq, Eq, Structural)]
pub enum SplitDirection {
    Horizontal,
    Vertical,
}


impl ViewMode {
    /// The next mode in the cycle editor, side by side, stacked, preview.
    pub open spec fn cycled(self) -> ViewMode {
        match self {
            ViewMode::Editor => ViewMode::SplitHorizontal,
            ViewMode::SplitHorizontal => ViewMode::SplitVertical,
            ViewMode::SplitVertical => ViewMode::Preview,
            ViewMode::Preview => ViewMode::Editor,
        }
    }

    /// The next mode in the cycle editor, side by side, stacked, preview.
    pub fn next(self) -> (r: ViewMode)
        ensures
            r == self.cycled(),
    {
        match self {
            ViewMode::Editor => ViewMode::SplitHorizontal,
            ViewMode::SplitHorizontal => ViewMode::SplitVertical,
            ViewMode::SplitVertical => ViewMode::Preview,
            ViewMode::Preview => ViewMode::Editor,
        }
    }
}

/// Cycling four times through the view modes comes back to the start.
pub proof fn law_view_mode_cycle(m: ViewMode)
    ensures
        m.cycled().cycled().cycled().cycled() == m,
        m.cycled() != m,
{
}

/// A pane showing a note (or nothing): its file, title and view mode.
#[derive(Debug)]
pub struct PaneLeaf {
    pub id: PaneId,
    pub file_path: Option<String>,
    pub title: String,
    pub view_mode: ViewMode,
}

/// A tree of panes: a leaf, or a split of two panes in a direction.
#[derive(Debug)]
pub enum PaneNode {
    Leaf(PaneLeaf),
    Split { id: PaneId, direction: SplitDirection, children: Box<(PaneNode, PaneNode)> },
}

/// The ids of the leaves, left to right.
pub open spec fn leaf_ids(n: PaneNode) -> Seq<PaneId>
    decreases n,
{
    match n {
        PaneNode::Leaf(l) => seq![l.id],
        PaneNode::Split { children, .. } => leaf_ids(children.0) + leaf_ids(children.1),
    }
}

/// The ids of all the nodes, splits and leaves.
pub open spec fn node_ids(n: PaneNode) -> Seq<PaneId>
    decreases n,
{
    match n {
        PaneNode::Leaf(l) => seq![l.id],
        PaneNode::Split { id, children, .. } => seq![id] + node_ids(children.0) + node_ids(
            children.1,
        ),
    }
}

/// The first leaf (left to right) with the id.
pub open spec fn leaf_with(n: PaneNode, id: PaneId) -> Option<PaneLeaf>
    decreases n,
{
    match n {
        PaneNode::Leaf(l) => if l.id == id {
            Some(l)
        } else {
            None
        },
        PaneNode::Split { children, .. } => match leaf_with(children.0, id) {
            Some(l) => Some(l),
            None => leaf_with(children.1, id),
        },
    }
}

/// The id of the first leaf (left to right) showing the file.
pub open spec fn file_leaf(n: PaneNode, path: Seq<char>) -> Option<PaneId>
    decreases n,
{
    match n {
        PaneNode::Leaf(l) => if l.file_path matches Some(p) && p@ == path {
            Some(l.id)
        } else {
            None
        },
        PaneNode::Split { children, .. } => match file_leaf(children.0, path) {
            Some(i) => Some(i),
            None => file_leaf(children.1, path),
        },
    }
}

/// The id of the leftmost leaf.
pub open spec fn first_leaf(n: PaneNode) -> PaneId
    decreases n,
{
    match n {
        PaneNode::Leaf(l) => l.id,
        PaneNode::Split { children, .. } => first_leaf(children.0),
    }
}

/// The node is a leaf whose id is `t`.
pub open spec fn is_leaf_with(n: PaneNode, t: PaneId) -> bool {
    n matches PaneNode::Leaf(l) && l.id == t
}

/// The tree once the leaf `t` is closed: the first split (in pre-order)
/// with `t` as a direct child is replaced by its other child; and whether
/// one was.
pub open spec fn closed_tree(n: PaneNode, t: PaneId) -> (PaneNode, bool)
    decreases n,
{
    match n {
        PaneNode::Leaf(_) => (n, false),
        PaneNode::Split { id, direction, children } => if is_leaf_with(children.0, t) {
            (children.1, true)
        } else if is_leaf_with(children.1, t) {
            (children.0, true)
        } else {
            let (a, ok) = closed_tree(children.0, t);
            if ok {
                (PaneNode::Split { id, direction, children: Box::new((a, children.1)) }, true)
            } else {
                let (b, ok2) = closed_tree(children.1, t);
                (PaneNode::Split { id, direction, children: Box::new((children.0, b)) }, ok2)
            }
        },
    }
}

/// The tree with every leaf `t` split in `direction` into itself and
/// `leaf`, under a split node `sid`.
pub open spec fn split_tree(n: PaneNode, t: PaneId, direction: SplitDirection, leaf: PaneLeaf, sid: PaneId) -> PaneNode
    decreases n,
{
    match n {
        PaneNode::Leaf(l) => if l.id == t {
            PaneNode::Split {
                id: sid,
                direction,
                children: Box::new((PaneNode::Leaf(l), PaneNode::Leaf(leaf))),
            }
        } else {
            n
        },
        PaneNode::Split { id, direction: d, children } => PaneNode::Split {
            id,
            direction: d,
            children: Box::new(
                (
                    split_tree(children.0, t, direction, leaf, sid),
                    split_tree(children.1, t, direction, leaf, sid),
                ),
            ),
        },
    }
}

/// The tree with the view mode of the first leaf `t` cycled.
pub open spec fn toggled_tree(n: PaneNode, t: PaneId) -> PaneNode
    decreases n,
{
    match n {
        PaneNode::Leaf(l) => if l.id == t {
            PaneNode::Leaf(PaneLeaf { view_mode: l.view_mode.cycled(), ..l })
        } else {
            n
        },
        PaneNode::Split { id, direction, children } => if leaf_with(children.0, t) is Some {
            PaneNode::Split {
                id,
                direction,
                children: Box::new((toggled_tree(children.0, t), children.1)),
            }
        } else {
            PaneNode::Split {
                id,
                direction,
                children: Box::new((children.0, toggled_tree(children.1, t))),
            }
        },
    }
}

/// The tree with the first leaf `t` showing a file: its path and title set
/// and its view mode back to the editor.
pub open spec fn opened_tree(n: PaneNode, t: PaneId, path: String, title: String) -> PaneNode
    decreases n,
{
    match n {
        PaneNode::Leaf(l) => if l.id == t {
            PaneNode::Leaf(
                PaneLeaf {
                    id: l.id,
                    file_path: Some(path),
                    title,
                    view_mode: ViewMode::Editor,
                },
            )
        } else {
            n
        },
        PaneNode::Split { id, direction, children } => if leaf_with(children.0, t) is Some {
            PaneNode::Split {
                id,
                direction,
                children: Box::new((opened_tree(children.0, t, path, title), children.1)),
            }
        } else {
            PaneNode::Split {
                id,
                direction,
                children: Box::new((children.0, opened_tree(children.1, t, path, title))),
            }
        },
    }
}


pub proof fn lemma_closed_unchanged(n: PaneNode, t: PaneId)
    ensures
        !closed_tree(n, t).1 ==> closed_tree(n, t).0 == n,
    decreases n,
{
    if let PaneNode::Split { children, .. } = n {
        lemma_closed_unchanged(children.0, t);
        lemma_closed_unchanged(children.1, t);
    }
}

/// An empty pane with the given id.
pub fn empty_leaf(id: PaneId) -> (r: PaneLeaf)
    ensures
        r.id == id,
        r.file_path is None,
        r.title@.len() == 0,
        r.view_mode == ViewMode::Editor,
{
    PaneLeaf { id, file_path: None, title: String::new(), view_mode: ViewMode::Editor }
}

/// A copy of a leaf.
pub fn copy_leaf(l: &PaneLeaf) -> (r: PaneLeaf)
    ensures
        r == *l,
{
    let file_path = match &l.file_path {
        Some(p) => Some(p.clone()),
        None => None,
    };
    PaneLeaf { id: l.id, file_path, title: l.title.clone(), view_mode: l.view_mode }
}

/// Whether a node is a leaf with the id.
fn is_leaf_id(n: &PaneNode, t: PaneId) -> (b: bool)
    ensures
        b == is_leaf_with(*n, t),
{
    match n {
        PaneNode::Leaf(l) => l.id == t,
        PaneNode::Split { .. } => false,
    }
}

/// Whether a string holds the text.
fn same_text(a: &String, b: &str) -> (r: bool)
    ensures
        r == (a@ == b@),
{
    let o = b.to_owned();
    *a == o
}

impl PaneNode {
    /// The first leaf (left to right) with the id.
    pub fn find_leaf(&self, id: PaneId) -> (r: Option<&PaneLeaf>)
        ensures
            match r {
                Some(l) => leaf_with(*self, id) == Some(*l),
                None => leaf_with(*self, id) is None,
            },
        decreases self,
    {
        match self {
            PaneNode::Leaf(leaf) => if leaf.id == id {
                Some(leaf)
            } else {
                None
            },
            PaneNode::Split { children, .. } => match children.0.find_leaf(id) {
                Some(l) => Some(l),
                None => children.1.find_leaf(id),
            },
        }
    }

    /// The ids of the leaves, left to right.
    pub fn collect_leaves(&self) -> (r: Vec<PaneId>)
        ensures
            r@ == leaf_ids(*self),
        decreases self,
    {
        match self {
            PaneNode::Leaf(leaf) => vec![leaf.id],
            PaneNode::Split { children, .. } => {
                let mut leaves = children.0.collect_leaves();
                let mut right = children.1.collect_leaves();
                leaves.append(&mut right);
                leaves
            },
        }
    }

    /// The id of the first leaf (left to right) showing the file.
    pub fn find_file(&self, path: &str) -> (r: Option<PaneId>)
        ensures
            r == file_leaf(*self, path@),
        decreases self,
    {
        match self {
            PaneNode::Leaf(leaf) => match &leaf.file_path {
                Some(p) => if same_text(p, path) {
                    Some(leaf.id)
                } else {
                    None
                },
                None => None,
            },
            PaneNode::Split { children, .. } => match children.0.find_file(path) {
                Some(i) => Some(i),
                None => children.1.find_file(path),
            },
        }
    }

    /// The id of the leftmost leaf.
    pub fn first_leaf_id(&self) -> (r: PaneId)
        ensures
            r == first_leaf(*self),
        decreases self,
    {
        match self {
            PaneNode::Leaf(leaf) => leaf.id,
            PaneNode::Split { children, .. } => children.0.first_leaf_id(),
        }
    }

    /// Whether the tree is a single pane.
    pub fn is_single_leaf(&self) -> (b: bool)
        ensures
            b == (*self is Leaf),
    {
        match self {
            PaneNode::Leaf(_) => true,
            PaneNode::Split { .. } => false,
        }
    }
}

fn closed_owned(n: PaneNode, t: PaneId) -> (r: (PaneNode, bool))
    ensures
        r == closed_tree(n, t),
    decreases n,
{
    match n {
        PaneNode::Leaf(l) => (PaneNode::Leaf(l), false),
        PaneNode::Split { id, direction, children } => {
            let (a, b) = *children;
            if is_leaf_id(&a, t) {
                return (b, true);
            }
            if is_leaf_id(&b, t) {
                return (a, true);
            }
            proof {
                lemma_closed_unchanged(a, t);
            }
            let (a2, ok) = closed_owned(a, t);
            if ok {
                return (PaneNode::Split { id, direction, children: Box::new((a2, b)) }, true);
            }
            let (b2, ok2) = closed_owned(b, t);
            (PaneNode::Split { id, direction, children: Box::new((a2, b2)) }, ok2)
        },
    }
}

/// Closes the leaf `target_id`: the first split (in pre-order) that has it
/// as a direct child is replaced by its other child. Whether one was.
pub fn close_leaf_in_node(node: &mut PaneNode, target_id: PaneId) -> (r: bool)
    ensures
        (*final(node), r) == closed_tree(*old(node), target_id),
{
    let mut taken = PaneNode::Leaf(empty_leaf(PaneId(0)));
    std::mem::swap(node, &mut taken);
    let (res, ok) = closed_owned(taken, target_id);
    *node = res;
    ok
}

fn split_owned(n: PaneNode, t: PaneId, direction: SplitDirection, leaf: &PaneLeaf, sid: PaneId) -> (r: PaneNode)
    ensures
        r == split_tree(n, t, direction, *leaf, sid),
    decreases n,
{
    match n {
        PaneNode::Leaf(l) => if l.id == t {
            PaneNode::Split {
                id: sid,
                direction,
                children: Box::new((PaneNode::Leaf(l), PaneNode::Leaf(copy_leaf(leaf)))),
            }
        } else {
            PaneNode::Leaf(l)
        },
        PaneNode::Split { id, direction: d, children } => {
            let (a, b) = *children;
            let a2 = split_owned(a, t, direction, leaf, sid);
            let b2 = split_owned(b, t, direction, leaf, sid);
            PaneNode::Split { id, direction: d, children: Box::new((a2, b2)) }
        },
    }
}

/// Splits every leaf `target_id` in `direction` into itself and `new_leaf`,
/// under a split node `split_id`.
pub fn split_in_tree(node: &mut PaneNode, target_id: PaneId, direction: SplitDirection, new_leaf: PaneLeaf, split_id: PaneId)
    ensures
        *final(node) == split_tree(*old(node), target_id, direction, new_leaf, split_id),
{
    let mut taken = PaneNode::Leaf(empty_leaf(PaneId(0)));
    std::mem::swap(node, &mut taken);
    *node = split_owned(taken, target_id, direction, &new_leaf, split_id);
}

fn toggled_owned(n: PaneNode, t: PaneId) -> (r: PaneNode)
    ensures
        r == toggled_tree(n, t),
    decreases n,
{
    match n {
        PaneNode::Leaf(l) => if l.id == t {
            let PaneLeaf { id, file_path, title, view_mode } = l;
            PaneNode::Leaf(PaneLeaf { id, file_path, title, view_mode: view_mode.next() })
        } else {
            PaneNode::Leaf(l)
        },
        PaneNode::Split { id, direction, children } => {
            let (a, b) = *children;
            if a.find_leaf(t).is_some() {
                let a2 = toggled_owned(a, t);
                PaneNode::Split { id, direction, children: Box::new((a2, b)) }
            } else {
                let b2 = toggled_owned(b, t);
                PaneNode::Split { id, direction, children: Box::new((a, b2)) }
            }
        },
    }
}

/// Cycles the view mode of the first leaf `id`.
pub fn toggle_view_mode(node: &mut PaneNode, id: PaneId)
    ensures
        *final(node) == toggled_tree(*old(node), id),
{
    let mut taken = PaneNode::Leaf(empty_leaf(PaneId(0)));
    std::mem::swap(node, &mut taken);
    *node = toggled_owned(taken, id);
}

fn opened_owned(n: PaneNode, t: PaneId, path: String, title: String) -> (r: PaneNode)
    ensures
        r == opened_tree(n, t, path, title),
    decreases n,
{
    match n {
        PaneNode::Leaf(l) => if l.id == t {
            PaneNode::Leaf(
                PaneLeaf { id: l.id, file_path: Some(path), title, view_mode: ViewMode::Editor },
            )
        } else {
            PaneNode::Leaf(l)
        },
        PaneNode::Split { id, direction, children } => {
            let (a, b) = *children;
            if a.find_leaf(t).is_some() {
                let a2 = opened_owned(a, t, path, title);
                PaneNode::Split { id, direction, children: Box::new((a2, b)) }
            } else {
                let b2 = opened_owned(b, t, path, title);
                PaneNode::Split { id, direction, children: Box::new((a, b2)) }
            }
        },
    }
}

/// Makes the first leaf `id` show a file: its path and title set, its view
/// mode back to the editor.
pub fn open_in_leaf(node: &mut PaneNode, id: PaneId, path: String, title: String)
    ensures
        *final(node) == opened_tree(*old(node), id, path, title),
{
    let mut taken = PaneNode::Leaf(empty_leaf(PaneId(0)));
    std::mem::swap(node, &mut taken);
    *node = opened_owned(taken, id, path, title);
}


/// The tree with the first leaf `t` given the title.
pub open spec fn retitled_tree(n: PaneNode, t: PaneId, title: String) -> PaneNode
    decreases n,
{
    match n {
        PaneNode::Leaf(l) => if l.id == t {
            PaneNode::Leaf(PaneLeaf { title, ..l })
        } else {
            n
        },
        PaneNode::Split { id, direction, children } => if leaf_with(children.0, t) is Some {
            PaneNode::Split {
                id,
                direction,
                children: Box::new((retitled_tree(children.0, t, title), children.1)),
            }
        } else {
            PaneNode::Split {
                id,
                direction,
                children: Box::new((children.0, retitled_tree(children.1, t, title))),
            }
        },
    }
}

fn retitled_owned(n: PaneNode, t: PaneId, title: String) -> (r: PaneNode)
    ensures
        r == retitled_tree(n, t, title),
    decreases n,
{
    match n {
        PaneNode::Leaf(l) => if l.id == t {
            PaneNode::Leaf(
                PaneLeaf { id: l.id, file_path: l.file_path, title, view_mode: l.view_mode },
            )
        } else {
            PaneNode::Leaf(l)
        },
        PaneNode::Split { id, direction, children } => {
            let (a, b) = *children;
            if a.find_leaf(t).is_some() {
                let a2 = retitled_owned(a, t, title);
                PaneNode::Split { id, direction, children: Box::new((a2, b)) }
            } else {
                let b2 = retitled_owned(b, t, title);
                PaneNode::Split { id, direction, children: Box::new((a, b2)) }
            }
        },
    }
}

/// Gives the first leaf `id` a new title (its note's title changed).
pub fn retitle_leaf(node: &mut PaneNode, id: PaneId, title: String)
    ensures
        *final(node) == retitled_tree(*old(node), id, title),
{
    let mut taken = PaneNode::Leaf(empty_leaf(PaneId(0)));
    std::mem::swap(node, &mut taken);
    *node = retitled_owned(taken, id, title);
}

/// Renaming a pane keeps the panes.
pub proof fn law_retitle_keeps_leaves(n: PaneNode, t: PaneId, title: String)
    ensures
        leaf_ids(retitled_tree(n, t, title)) == leaf_ids(n),
    decreases n,
{
    if let PaneNode::Split { children, .. } = n {
        law_retitle_keeps_leaves(children.0, t, title);
        law_retitle_keeps_leaves(children.1, t, title);
    }
}

/// `s` with `x` after each occurrence of `t`.
pub open spec fn after_each(s: Seq<PaneId>, t: PaneId, x: PaneId) -> Seq<PaneId>
    decreases s.len(),
{
    if s.len() == 0 {
        seq![]
    } else {
        (if s[0] == t {
            seq![s[0], x]
        } else {
            seq![s[0]]
        }) + after_each(s.drop_first(), t, x)
    }
}

/// `s` without the occurrences of `t`.
pub open spec fn without(s: Seq<PaneId>, t: PaneId) -> Seq<PaneId>
    decreases s.len(),
{
    if s.len() == 0 {
        seq![]
    } else {
        (if s[0] == t {
            seq![]
        } else {
            seq![s[0]]
        }) + without(s.drop_first(), t)
    }
}

pub proof fn lemma_after_each_concat(a: Seq<PaneId>, b: Seq<PaneId>, t: PaneId, x: PaneId)
    ensures
        after_each(a + b, t, x) == after_each(a, t, x) + after_each(b, t, x),
    decreases a.len(),
{
    if a.len() == 0 {
        assert(a + b =~= b);
    } else {
        assert((a + b).drop_first() =~= a.drop_first() + b);
        lemma_after_each_concat(a.drop_first(), b, t, x);
    }
}

pub proof fn lemma_without_concat(a: Seq<PaneId>, b: Seq<PaneId>, t: PaneId)
    ensures
        without(a + b, t) == without(a, t) + without(b, t),
    decreases a.len(),
{
    if a.len() == 0 {
        assert(a + b =~= b);
    } else {
        assert((a + b).drop_first() =~= a.drop_first() + b);
        lemma_without_concat(a.drop_first(), b, t);
    }
}

pub proof fn lemma_without_absent(s: Seq<PaneId>, t: PaneId)
    requires
        !s.contains(t),
    ensures
        without(s, t) == s,
    decreases s.len(),
{
    if s.len() > 0 {
        assert(!s.drop_first().contains(t)) by {
            if s.drop_first().contains(t) {
                let k = choose|k: int| 0 <= k < s.drop_first().len() && s.drop_first()[k] == t;
                assert(s[k + 1] == t);
            }
        }
        lemma_without_absent(s.drop_first(), t);
        assert(s[0] != t) by {
            assert(s[0] == s[0]);
        }
        assert(seq![s[0]] + s.drop_first() =~= s);
    }
}

pub proof fn lemma_closed_absent(n: PaneNode, t: PaneId)
    requires
        !leaf_ids(n).contains(t),
    ensures
        !closed_tree(n, t).1,
    decreases n,
{
    if let PaneNode::Split { children, .. } = n {
        let la = leaf_ids(children.0);
        let lb = leaf_ids(children.1);
        assert(leaf_ids(n) == la + lb);
        if la.contains(t) {
            let k = choose|k: int| 0 <= k < la.len() && la[k] == t;
            assert((la + lb)[k] == t);
        }
        if lb.contains(t) {
            let k = choose|k: int| 0 <= k < lb.len() && lb[k] == t;
            assert((la + lb)[la.len() + k] == t);
        }
        if is_leaf_with(children.0, t) {
            assert(la[0] == t);
        }
        if is_leaf_with(children.1, t) {
            assert(lb[0] == t);
        }
        lemma_closed_absent(children.0, t);
        lemma_closed_absent(children.1, t);
    }
}

/// Splitting a pane puts the new pane right after it, left to right.
pub proof fn law_split_leaves(n: PaneNode, t: PaneId, direction: SplitDirection, leaf: PaneLeaf, sid: PaneId)
    ensures
        leaf_ids(split_tree(n, t, direction, leaf, sid)) == after_each(leaf_ids(n), t, leaf.id),
    decreases n,
{
    match n {
        PaneNode::Leaf(l) => {
            assert(seq![l.id].drop_first() =~= Seq::<PaneId>::empty());
            reveal_with_fuel(after_each, 2);
            if l.id == t {
                let st = split_tree(n, t, direction, leaf, sid);
                if let PaneNode::Split { children: c2, .. } = st {
                    assert(leaf_ids(c2.0) == seq![l.id]);
                    assert(leaf_ids(c2.1) == seq![leaf.id]);
                }
                assert(leaf_ids(st) =~= seq![l.id, leaf.id]);
                assert(seq![l.id, leaf.id] + Seq::<PaneId>::empty() =~= seq![l.id, leaf.id]);
            } else {
                assert(seq![l.id] + Seq::<PaneId>::empty() =~= seq![l.id]);
            }
        },
        PaneNode::Split { children, .. } => {
            law_split_leaves(children.0, t, direction, leaf, sid);
            law_split_leaves(children.1, t, direction, leaf, sid);
            lemma_after_each_concat(leaf_ids(children.0), leaf_ids(children.1), t, leaf.id);
        },
    }
}

/// Closing a pane of a split tree whose panes are distinct removes exactly
/// that pane.
pub proof fn law_close_leaves(n: PaneNode, t: PaneId)
    requires
        n is Split,
        leaf_ids(n).contains(t),
        leaf_ids(n).no_duplicates(),
    ensures
        closed_tree(n, t).1,
        leaf_ids(closed_tree(n, t).0) == without(leaf_ids(n), t),
    decreases n,
{
    if let PaneNode::Split { children, .. } = n {
        let a = children.0;
        let b = children.1;
        let la = leaf_ids(a);
        let lb = leaf_ids(b);
        let ln = la + lb;
        assert(leaf_ids(n) == ln);
        lemma_without_concat(la, lb, t);
        assert(la.no_duplicates()) by {
            assert forall|i: int, j: int| 0 <= i < la.len() && 0 <= j < la.len() && i != j implies la[i] != la[j] by {
                assert(ln[i] == la[i] && ln[j] == la[j]);
            }
        }
        assert(lb.no_duplicates()) by {
            assert forall|i: int, j: int| 0 <= i < lb.len() && 0 <= j < lb.len() && i != j implies lb[i] != lb[j] by {
                assert(ln[la.len() + i] == lb[i] && ln[la.len() + j] == lb[j]);
            }
        }
        let in_a = la.contains(t);
        let in_b = lb.contains(t);
        assert(in_a || in_b) by {
            let k = choose|k: int| 0 <= k < ln.len() && ln[k] == t;
            if k < la.len() {
                assert(la[k] == t);
            } else {
                assert(lb[k - la.len()] == t);
            }
        }
        assert(!(in_a && in_b)) by {
            if in_a && in_b {
                let i = choose|i: int| 0 <= i < la.len() && la[i] == t;
                let j = choose|j: int| 0 <= j < lb.len() && lb[j] == t;
                assert(ln[i] == ln[la.len() + j]);
            }
        }
        if in_a {
            lemma_without_absent(lb, t);
        }
        if in_b {
            lemma_without_absent(la, t);
        }
        if is_leaf_with(a, t) {
            assert(la =~= seq![t]);
            assert(without(la, t) =~= Seq::<PaneId>::empty()) by {
                assert(la.drop_first() =~= Seq::<PaneId>::empty());
                reveal_with_fuel(without, 2);
            }
            assert(without(ln, t) =~= lb);
        } else if is_leaf_with(b, t) {
            assert(lb =~= seq![t]);
            assert(without(lb, t) =~= Seq::<PaneId>::empty()) by {
                assert(lb.drop_first() =~= Seq::<PaneId>::empty());
                reveal_with_fuel(without, 2);
            }
            assert(without(ln, t) =~= la);
        } else if in_a {
            assert(a is Split) by {
                if let PaneNode::Leaf(l) = a {
                    assert(la == seq![l.id]);
                    assert(la[0] == t);
                }
            }
            law_close_leaves(a, t);
        } else {
            assert(b is Split) by {
                if let PaneNode::Leaf(l) = b {
                    assert(lb == seq![l.id]);
                    assert(lb[0] == t);
                }
            }
            lemma_closed_absent(a, t);
            lemma_closed_unchanged(a, t);
            law_close_leaves(b, t);
        }
    }
}

/// Cycling a pane's view mode keeps the panes.
pub proof fn law_toggle_keeps_leaves(n: PaneNode, t: PaneId)
    ensures
        leaf_ids(toggled_tree(n, t)) == leaf_ids(n),
    decreases n,
{
    if let PaneNode::Split { children, .. } = n {
        law_toggle_keeps_leaves(children.0, t);
        law_toggle_keeps_leaves(children.1, t);
    }
}

/// Showing a file in a pane keeps the panes.
pub proof fn law_open_keeps_leaves(n: PaneNode, t: PaneId, path: String, title: String)
    ensures
        leaf_ids(opened_tree(n, t, path, title)) == leaf_ids(n),
    decreases n,
{
    if let PaneNode::Split { children, .. } = n {
        law_open_keeps_leaves(children.0, t, path, title);
        law_open_keeps_leaves(children.1, t, path, title);
    }
}

/// The leftmost leaf is the first of the leaves.
pub proof fn lemma_first_leaf(n: PaneNode)
    ensures
        leaf_ids(n).len() > 0,
        leaf_ids(n)[0] == first_leaf(n),
    decreases n,
{
    if let PaneNode::Split { children, .. } = n {
        lemma_first_leaf(children.0);
        lemma_first_leaf(children.1);
    }
}


/// What `after_each` holds: the old items and the new one; the new one when
/// `t` was there; no item twice when none was and the new one is new.
pub proof fn lemma_after_each(s: Seq<PaneId>, t: PaneId, x: PaneId)
    ensures
        forall|y: PaneId| #[trigger] after_each(s, t, x).contains(y) ==> s.contains(y) || y == x,
        s.contains(t) ==> after_each(s, t, x).contains(x),
        !s.contains(t) && !s.contains(x) ==> !after_each(s, t, x).contains(x),
        forall|y: PaneId| s.contains(y) ==> #[trigger] after_each(s, t, x).contains(y),
        s.no_duplicates() && !s.contains(x) ==> after_each(s, t, x).no_duplicates(),
    decreases s.len(),
{
    if s.len() > 0 {
        let r = s.drop_first();
        lemma_after_each(r, t, x);
        let head = if s[0] == t {
            seq![s[0], x]
        } else {
            seq![s[0]]
        };
        let tail = after_each(r, t, x);
        assert(after_each(s, t, x) == head + tail);
        assert(s =~= seq![s[0]] + r);
        assert forall|y: PaneId| #[trigger] after_each(s, t, x).contains(y) implies s.contains(y)
            || y == x by {
            let k = choose|k: int| 0 <= k < (head + tail).len() && (head + tail)[k] == y;
            if k >= head.len() {
                assert(tail[k - head.len()] == y);
                assert(tail.contains(y));
                if r.contains(y) {
                    let j = choose|j: int| 0 <= j < r.len() && r[j] == y;
                    assert(s[j + 1] == y);
                }
            } else {
                if k == 0 {
                    assert(s[0] == y);
                }
            }
        }
        assert forall|y: PaneId| s.contains(y) implies #[trigger] after_each(s, t, x).contains(y) by {
            let k = choose|k: int| 0 <= k < s.len() && s[k] == y;
            if k == 0 {
                assert((head + tail)[0] == y);
            } else {
                assert(r[k - 1] == y);
                assert(r.contains(y));
                assert(tail.contains(y));
                let j = choose|j: int| 0 <= j < tail.len() && tail[j] == y;
                assert((head + tail)[head.len() + j] == y);
            }
        }
        if s.contains(t) {
            if s[0] == t {
                assert((head + tail)[1] == x);
            } else {
                let k = choose|k: int| 0 <= k < s.len() && s[k] == t;
                assert(r[k - 1] == t);
                assert(r.contains(t));
                let j = choose|j: int| 0 <= j < tail.len() && tail[j] == x;
                assert((head + tail)[head.len() + j] == x);
            }
        }
        if !s.contains(t) && !s.contains(x) {
            assert(s[0] != t && s[0] != x) by {
                assert(s.contains(s[0]));
            }
            assert(!r.contains(t)) by {
                if r.contains(t) {
                    let k = choose|k: int| 0 <= k < r.len() && r[k] == t;
                    assert(s[k + 1] == t);
                }
            }
            assert(!r.contains(x)) by {
                if r.contains(x) {
                    let k = choose|k: int| 0 <= k < r.len() && r[k] == x;
                    assert(s[k + 1] == x);
                }
            }
            assert(!(head + tail).contains(x)) by {
                if (head + tail).contains(x) {
                    let k = choose|k: int| 0 <= k < (head + tail).len() && (head + tail)[k] == x;
                    if k >= head.len() {
                        assert(tail[k - head.len()] == x);
                    }
                }
            }
        }
        if s.no_duplicates() && !s.contains(x) {
            assert(r.no_duplicates()) by {
                assert forall|i: int, j: int| 0 <= i < r.len() && 0 <= j < r.len() && i != j implies r[i] != r[j] by {
                    assert(s[i + 1] == r[i] && s[j + 1] == r[j]);
                }
            }
            assert(!r.contains(x)) by {
                if r.contains(x) {
                    let k = choose|k: int| 0 <= k < r.len() && r[k] == x;
                    assert(s[k + 1] == x);
                }
            }
            assert(!r.contains(s[0])) by {
                if r.contains(s[0]) {
                    let k = choose|k: int| 0 <= k < r.len() && r[k] == s[0];
                    assert(s[k + 1] == s[0]);
                }
            }
            assert(s[0] != x) by {
                assert(s.contains(s[0]));
            }
            if s[0] == t {
                assert(!r.contains(t));
            }
            assert forall|i: int, j: int| 0 <= i < (head + tail).len() && 0 <= j < (head
                + tail).len() && i != j implies (head + tail)[i] != (head + tail)[j] by {
                if i >= head.len() && j >= head.len() {
                } else if i < head.len() && j < head.len() {
                } else {
                    let (hi, ti) = if i < head.len() {
                        (i, j)
                    } else {
                        (j, i)
                    };
                    let y = (head + tail)[ti];
                    assert(tail[ti - head.len()] == y);
                    assert(tail.contains(y));
                    if hi == 0 {
                        assert(y != s[0]) by {
                            if y == s[0] {
                                assert(r.contains(y) || y == x);
                            }
                        }
                    } else {
                        assert(!tail.contains(x));
                    }
                }
            }
        }
    }
}

/// What `without` holds: the old items but `t`; no item twice when none
/// was.
pub proof fn lemma_without(s: Seq<PaneId>, t: PaneId)
    ensures
        forall|y: PaneId| #[trigger] without(s, t).contains(y) <==> s.contains(y) && y != t,
        s.no_duplicates() ==> without(s, t).no_duplicates(),
    decreases s.len(),
{
    if s.len() > 0 {
        let r = s.drop_first();
        lemma_without(r, t);
        let head = if s[0] == t {
            Seq::<PaneId>::empty()
        } else {
            seq![s[0]]
        };
        let tail = without(r, t);
        assert(without(s, t) == head + tail);
        assert forall|y: PaneId| #[trigger] without(s, t).contains(y) <==> s.contains(y) && y != t by {
            if (head + tail).contains(y) {
                let k = choose|k: int| 0 <= k < (head + tail).len() && (head + tail)[k] == y;
                if k >= head.len() {
                    assert(tail[k - head.len()] == y);
                    assert(tail.contains(y));
                    let j = choose|j: int| 0 <= j < r.len() && r[j] == y;
                    assert(s[j + 1] == y);
                } else {
                    assert(s[0] == y);
                }
            }
            if s.contains(y) && y != t {
                let k = choose|k: int| 0 <= k < s.len() && s[k] == y;
                if k == 0 {
                    assert((head + tail)[0] == y);
                } else {
                    assert(r[k - 1] == y);
                    assert(r.contains(y));
                    assert(without(r, t).contains(y));
                    let j = choose|j: int| 0 <= j < tail.len() && tail[j] == y;
                    assert((head + tail)[head.len() + j] == y);
                }
            }
        }
        if s.no_duplicates() {
            assert(r.no_duplicates()) by {
                assert forall|i: int, j: int| 0 <= i < r.len() && 0 <= j < r.len() && i != j implies r[i] != r[j] by {
                    assert(s[i + 1] == r[i] && s[j + 1] == r[j]);
                }
            }
            assert(!r.contains(s[0])) by {
                if r.contains(s[0]) {
                    let k = choose|k: int| 0 <= k < r.len() && r[k] == s[0];
                    assert(s[k + 1] == s[0]);
                }
            }
            assert forall|i: int, j: int| 0 <= i < (head + tail).len() && 0 <= j < (head
                + tail).len() && i != j implies (head + tail)[i] != (head + tail)[j] by {
                if i < head.len() && j >= head.len() {
                    assert(tail[j - head.len()] == (head + tail)[j]);
                    assert(tail.contains((head + tail)[j]));
                } else if j < head.len() && i >= head.len() {
                    assert(tail[i - head.len()] == (head + tail)[i]);
                    assert(tail.contains((head + tail)[i]));
                }
            }
        }
    }
}

/// Removing what was put after `t` gives back the list it started from.
pub proof fn lemma_without_after_each(s: Seq<PaneId>, t: PaneId, x: PaneId)
    requires
        !s.contains(x),
    ensures
        without(after_each(s, t, x), x) == s,
    decreases s.len(),
{
    if s.len() > 0 {
        let r = s.drop_first();
        assert(!r.contains(x)) by {
            if r.contains(x) {
                let k = choose|k: int| 0 <= k < r.len() && r[k] == x;
                assert(s[k + 1] == x);
            }
        }
        assert(s[0] != x) by {
            assert(s.contains(s[0]));
        }
        lemma_without_after_each(r, t, x);
        let head = if s[0] == t {
            seq![s[0], x]
        } else {
            seq![s[0]]
        };
        lemma_without_concat(head, after_each(r, t, x), x);
        reveal_with_fuel(without, 3);
        assert(head.drop_first().len() == 0 ==> head.drop_first() =~= Seq::<PaneId>::empty());
        if s[0] == t {
            assert(head.drop_first() =~= seq![x]);
            assert(seq![x].drop_first() =~= Seq::<PaneId>::empty());
            assert(without(head, x) =~= seq![s[0]]);
        } else {
            assert(head.drop_first() =~= Seq::<PaneId>::empty());
            assert(without(head, x) =~= seq![s[0]]);
        }
        assert(seq![s[0]] + r =~= s);
    }
}

/// The pane found showing a file is one of the panes.
pub proof fn lemma_file_leaf_in(n: PaneNode, path: Seq<char>)
    ensures
        file_leaf(n, path) matches Some(p) ==> leaf_ids(n).contains(p),
    decreases n,
{
    if let PaneNode::Split { children, .. } = n {
        lemma_file_leaf_in(children.0, path);
        lemma_file_leaf_in(children.1, path);
        let la = leaf_ids(children.0);
        let lb = leaf_ids(children.1);
        if let Some(p) = file_leaf(children.0, path) {
            let k = choose|k: int| 0 <= k < la.len() && la[k] == p;
            assert((la + lb)[k] == p);
        } else if let Some(p) = file_leaf(children.1, path) {
            let k = choose|k: int| 0 <= k < lb.len() && lb[k] == p;
            assert((la + lb)[la.len() + k] == p);
        }
    } else {
        if let PaneNode::Leaf(l) = n {
            assert(leaf_ids(n)[0] == l.id);
        }
    }
}

/// Closing the pane just split off gives back the panes there were.
pub proof fn law_split_then_close(n: PaneNode, t: PaneId, direction: SplitDirection, leaf: PaneLeaf, sid: PaneId)
    requires
        leaf_ids(n).no_duplicates(),
        leaf_ids(n).contains(t),
        !leaf_ids(n).contains(leaf.id),
    ensures
        closed_tree(split_tree(n, t, direction, leaf, sid), leaf.id).1,
        leaf_ids(closed_tree(split_tree(n, t, direction, leaf, sid), leaf.id).0) == leaf_ids(n),
{
    let n2 = split_tree(n, t, direction, leaf, sid);
    law_split_leaves(n, t, direction, leaf, sid);
    lemma_after_each(leaf_ids(n), t, leaf.id);
    lemma_without_after_each(leaf_ids(n), t, leaf.id);
    law_close_leaves(n2, leaf.id);
}

} // verus!
