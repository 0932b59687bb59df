//! Tabs of panes: which tab is active, which pane of each is focused, and
//! the operations on them (open, split, close, cycle).
use vstd::prelude::*;
use crate::gui::pane::{
    after_each, close_leaf_in_node, closed_tree, empty_leaf, file_leaf, first_leaf, law_close_leaves,
    law_open_keeps_leaves, law_split_leaves, law_toggle_keeps_leaves, leaf_ids, leaf_with,
    lemma_first_leaf, open_in_leaf, opened_tree, retitle_leaf, retitled_tree, law_retitle_keeps_leaves,
    split_in_tree, split_tree, toggle_view_mode,
    toggled_tree, without, PaneId, PaneLeaf, PaneNode, SplitDirection, ViewMode,
};
use crate::gui::command_palette::{decimal, decimal_chars};
use crate::text::{chars_of, push_all, string_from_chars};

verus! {

/// One tab: its tree of panes and the pane that has the focus.
#[derive(Debug)]
pub struct TabWorkspace {
    root: PaneNode,
    focused: PaneId,
}

/// Model of a tab.
pub struct TabView {
    pub root: PaneNode,
    pub focused: PaneId,
}

/// Model of the tab manager.
pub struct TabsView {
    pub tabs: Seq<TabView>,
    pub active: nat,
    pub next_id: nat,
}

impl TabWorkspace {
    pub closed spec fn view(&self) -> TabView {
        TabView { root: self.root, focused: self.focused }
    }

    /// A tab of one pane, focused.
    fn new(leaf: PaneLeaf) -> (r: Self)
        ensures
            r@.root == PaneNode::Leaf(leaf),
            r@.focused == leaf.id,
    {
        let id = leaf.id;
        TabWorkspace { root: PaneNode::Leaf(leaf), focused: id }
    }

    /// The title of the tab: that of its focused pane when it shows a
    /// file, else "Empty".
    pub fn title(&self) -> (r: String)
        ensures
            match leaf_with(self@.root, self@.focused) {
                Some(l) => if l.file_path is Some {
                    r@ == l.title@
                } else {
                    r@ == "Empty"@
                },
                None => r@ == "Empty"@,
            },
    {
        if let Some(leaf) = self.root.find_leaf(self.focused) {
            if leaf.file_path.is_some() {
                return leaf.title.clone();
            }
        }
        "Empty".to_string()
    }

    /// The tree of panes.
    pub fn root(&self) -> (r: &PaneNode)
        ensures
            *r == self@.root,
    {
        &self.root
    }

    /// The focused pane.
    pub fn focused(&self) -> (r: PaneId)
        ensures
            r == self@.focused,
    {
        self.focused
    }

    /// The number of panes of the tab.
    pub fn pane_count(&self) -> (r: usize)
        ensures
            r == leaf_ids(self@.root).len(),
    {
        self.root.collect_leaves().len()
    }

    /// The first pane of the tab showing the file.
    pub fn find_file(&self, path: &str) -> (r: Option<PaneId>)
        ensures
            r == file_leaf(self@.root, path@),
    {
        self.root.find_file(path)
    }
}

/// The models of a list of tabs.
pub open spec fn tab_views(v: Seq<TabWorkspace>) -> Seq<TabView> {
    Seq::new(v.len(), |k: int| v[k]@)
}

/// The tabs, the active one, and the next free pane id.
#[derive(Debug)]
pub struct TabManager {
    tabs: Vec<TabWorkspace>,
    active_tab: usize,
    next_id: usize,
}

/// A pane showing nothing, in the editor mode.
pub open spec fn is_blank_leaf(l: PaneLeaf, id: PaneId) -> bool {
    l.id == id && l.file_path is None && l.title@.len() == 0 && l.view_mode == ViewMode::Editor
}

/// A tab's panes are distinct, one of them has the focus, and all of them
/// have ids below `next`.
pub open spec fn tab_ok(t: TabView, next: nat) -> bool {
    &&& leaf_ids(t.root).no_duplicates()
    &&& leaf_ids(t.root).contains(t.focused)
    &&& forall|q: int| 0 <= q < leaf_ids(t.root).len() ==> (#[trigger] leaf_ids(t.root)[q]).0 < next
}

/// What the tab manager keeps true: there is an active tab, and every tab
/// is as [`tab_ok`] says.
pub open spec fn tabs_wf(v: TabsView) -> bool {
    &&& v.tabs.len() > 0
    &&& v.active < v.tabs.len()
    &&& forall|k: int| 0 <= k < v.tabs.len() ==> tab_ok(#[trigger] v.tabs[k], v.next_id)
}

pub proof fn lemma_tab_ok_grow(t: TabView, a: nat, b: nat)
    requires
        tab_ok(t, a),
        a <= b,
    ensures
        tab_ok(t, b),
{
}

/// Index of the first occurrence of `x` in `s`, or the length.
pub open spec fn index_in(s: Seq<PaneId>, x: PaneId) -> int
    decreases s.len(),
{
    if s.len() == 0 {
        0
    } else if s[0] == x {
        0
    } else {
        1 + index_in(s.drop_first(), x)
    }
}

pub proof fn lemma_index_in(s: Seq<PaneId>, x: PaneId, k: int)
    requires
        0 <= k < s.len(),
        s[k] == x,
        forall|q: int| 0 <= q < k ==> s[q] != x,
    ensures
        index_in(s, x) == k,
    decreases k,
{
    if k > 0 {
        assert(s[0] != x);
        lemma_index_in(s.drop_first(), x, k - 1);
    }
}

/// The pane after `f`, cyclically.
pub open spec fn next_focus(s: Seq<PaneId>, f: PaneId) -> PaneId {
    s[(index_in(s, f) + 1) % (s.len() as int)]
}

/// The pane before `f`, cyclically.
pub open spec fn prev_focus(s: Seq<PaneId>, f: PaneId) -> PaneId {
    let p = index_in(s, f);
    if p == 0 {
        s[s.len() - 1]
    } else {
        s[p - 1]
    }
}

/// The tab after `a` of `n`, cyclically.
pub open spec fn next_index(a: nat, n: nat) -> nat {
    ((a + 1) % n) as nat
}

/// The tab before `a` of `n`, cyclically.
pub open spec fn prev_index(a: nat, n: nat) -> nat {
    if a == 0 {
        (n - 1) as nat
    } else {
        (a - 1) as nat
    }
}

/// What closing the focused pane did.
#[derive(Debug, Clone, Copy, PartialEq, Eq, Structural)]
pub enum CloseOutcome {
    /// The only pane of the only tab was emptied.
    ClearedLastPane,
    /// The tab, which had one pane, was removed.
    ClosedTab,
    /// The pane was removed from its tab's tree.
    ClosedPane,
}

/// What opening a file did.
#[derive(Debug, Clone, Copy, PartialEq, Eq, Structural)]
pub enum OpenOutcome {
    /// The file was open already; its tab and pane got the focus.
    Switched,
    /// The focused pane now shows the file.
    Opened,
}

/// Index and pane of the first tab from `k` on that shows the file.
pub open spec fn file_tab_from(tabs: Seq<TabView>, path: Seq<char>, k: int) -> Option<(int, PaneId)>
    decreases tabs.len() - k,
{
    if k < 0 || k >= tabs.len() {
        None
    } else {
        match file_leaf(tabs[k].root, path) {
            Some(p) => Some((k, p)),
            None => file_tab_from(tabs, path, k + 1),
        }
    }
}

impl TabManager {
    pub closed spec fn view(&self) -> TabsView {
        TabsView {
            tabs: tab_views(self.tabs@),
            active: self.active_tab as nat,
            next_id: self.next_id as nat,
        }
    }

    /// See [`tabs_wf`].
    pub open spec fn wf(&self) -> bool {
        tabs_wf(self@)
    }

    /// One tab of one empty pane (id 0), focused.
    pub fn new() -> (r: Self)
        ensures
            r.wf(),
            r@.tabs.len() == 1,
            r@.active == 0,
            r@.next_id == 1,
            r@.tabs[0].focused == PaneId(0),
            r@.tabs[0].root matches PaneNode::Leaf(l) && is_blank_leaf(l, PaneId(0)),
    {
        let tab = TabWorkspace::new(empty_leaf(PaneId(0)));
        let r = TabManager { tabs: vec![tab], active_tab: 0, next_id: 1 };
        proof {
            let t = r@.tabs[0];
            assert(leaf_ids(t.root) =~= seq![PaneId(0)]);
            assert(leaf_ids(t.root)[0] == PaneId(0));
        }
        r
    }

    /// The index of the active tab.
    pub fn active_tab(&self) -> (r: usize)
        ensures
            r == self@.active,
    {
        self.active_tab
    }

    /// The number of tabs.
    pub fn tab_count(&self) -> (r: usize)
        ensures
            r == self@.tabs.len(),
    {
        self.tabs.len()
    }

    /// The focused pane of the active tab.
    pub fn focused(&self) -> (r: PaneId)
        requires
            self.wf(),
        ensures
            r == self@.tabs[self@.active as int].focused,
    {
        self.tabs[self.active_tab].focused
    }

    /// The active tab.
    pub fn tab(&self) -> (r: &TabWorkspace)
        requires
            self.wf(),
        ensures
            r@ == self@.tabs[self@.active as int],
    {
        &self.tabs[self.active_tab]
    }

    /// The focused pane of the active tab.
    pub fn focused_leaf(&self) -> (r: Option<&PaneLeaf>)
        requires
            self.wf(),
        ensures
            ({
                let t = self@.tabs[self@.active as int];
                match r {
                    Some(l) => leaf_with(t.root, t.focused) == Some(*l),
                    None => leaf_with(t.root, t.focused) is None,
                }
            }),
    {
        let tab = &self.tabs[self.active_tab];
        tab.root.find_leaf(tab.focused)
    }

    /// The first tab (and its pane) showing the file.
    pub fn find_file_in_all_tabs(&self, path: &str) -> (r: Option<(usize, PaneId)>)
        ensures
            match r {
                Some((i, p)) => file_tab_from(self@.tabs, path@, 0) == Some((i as int, p)),
                None => file_tab_from(self@.tabs, path@, 0) is None,
            },
    {
        let mut i: usize = 0;
        while i < self.tabs.len()
            invariant
                i <= self.tabs@.len(),
                file_tab_from(self@.tabs, path@, i as int) == file_tab_from(self@.tabs, path@, 0),
            decreases self.tabs@.len() - i,
        {
            if let Some(p) = self.tabs[i].find_file(path) {
                return Some((i, p));
            }
            i += 1;
        }
        None
    }
}


impl TabManager {
    /// Splits the focused pane of the active tab in `direction`: a new
    /// empty pane goes beside it, under a new split node, and gets the
    /// focus.
    #[verifier::spinoff_prover]
    pub fn split_focused(&mut self, direction: SplitDirection)
        requires
            old(self).wf(),
            old(self)@.next_id + 2 <= usize::MAX,
        ensures
            final(self).wf(),
            ({
                let v = old(self)@;
                let w = final(self)@;
                let a = v.active as int;
                let t = v.tabs[a];
                let nid = PaneId(v.next_id as usize);
                &&& w.active == v.active
                &&& w.next_id == v.next_id + 2
                &&& exists|l: PaneLeaf|
                    #[trigger] is_blank_leaf(l, nid) && w.tabs == v.tabs.update(
                        a,
                        TabView {
                            root: split_tree(
                                t.root,
                                t.focused,
                                direction,
                                l,
                                PaneId((v.next_id + 1) as usize),
                            ),
                            focused: nid,
                        },
                    )
            }),
    {
        let ghost v = self@;
        let a = self.active_tab;
        let new_id = PaneId(self.next_id);
        let split_id = PaneId(self.next_id + 1);
        self.next_id = self.next_id + 2;
        let leaf = empty_leaf(new_id);
        let ghost l = leaf;
        let focused = self.tabs[a].focused;
        proof {
            assert(v.tabs[a as int] == self.tabs@[a as int]@);
        }
        split_in_tree(&mut self.tabs[a].root, focused, direction, leaf, split_id);
        self.tabs[a].focused = new_id;
        proof {
            let t = v.tabs[a as int];
            let t2 = TabView { root: split_tree(t.root, t.focused, direction, l, split_id), focused: new_id };
            assert(self@.tabs =~= v.tabs.update(a as int, t2));
            assert(split_id == PaneId((v.next_id + 1) as usize));
            assert(new_id == PaneId(v.next_id as usize));
            assert(exists|l2: PaneLeaf|
                #[trigger] is_blank_leaf(l2, PaneId(v.next_id as usize)) && self@.tabs == v.tabs.update(
                    a as int,
                    TabView {
                        root: split_tree(
                            t.root,
                            t.focused,
                            direction,
                            l2,
                            PaneId((v.next_id + 1) as usize),
                        ),
                        focused: PaneId(v.next_id as usize),
                    },
                )) by {
                assert(is_blank_leaf(l, PaneId(v.next_id as usize)));
            }
            assert(tab_ok(t, v.next_id));
            law_split_leaves(t.root, t.focused, direction, l, split_id);
            crate::gui::pane::lemma_after_each(leaf_ids(t.root), t.focused, new_id);
            assert(!leaf_ids(t.root).contains(new_id)) by {
                if leaf_ids(t.root).contains(new_id) {
                    let q = choose|q: int| 0 <= q < leaf_ids(t.root).len() && leaf_ids(t.root)[q] == new_id;
                    assert(leaf_ids(t.root)[q].0 < v.next_id);
                }
            }
            let s2 = leaf_ids(t2.root);
            assert forall|q: int| 0 <= q < s2.len() implies (#[trigger] s2[q]).0 < self@.next_id by {
                assert(s2.contains(s2[q]));
                if leaf_ids(t.root).contains(s2[q]) {
                    let j = choose|j: int| 0 <= j < leaf_ids(t.root).len() && leaf_ids(t.root)[j] == s2[q];
                    assert(leaf_ids(t.root)[j].0 < v.next_id);
                }
            }
            assert forall|k: int| 0 <= k < self@.tabs.len() implies tab_ok(#[trigger] self@.tabs[k], self@.next_id) by {
                if k != a {
                    assert(tab_ok(v.tabs[k], v.next_id));
                    lemma_tab_ok_grow(v.tabs[k], v.next_id, self@.next_id);
                }
            }
        }
    }

    /// Cycles the view mode of the focused pane of the active tab.
    pub fn toggle_view(&mut self)
        requires
            old(self).wf(),
        ensures
            final(self).wf(),
            ({
                let v = old(self)@;
                let a = v.active as int;
                final(self)@ == TabsView {
                    tabs: v.tabs.update(
                        a,
                        TabView { root: toggled_tree(v.tabs[a].root, v.tabs[a].focused), ..v.tabs[a] },
                    ),
                    ..v
                }
            }),
    {
        let ghost v = self@;
        let a = self.active_tab;
        let focused = self.tabs[a].focused;
        proof {
            assert(v.tabs[a as int] == self.tabs@[a as int]@);
        }
        toggle_view_mode(&mut self.tabs[a].root, focused);
        proof {
            let t = v.tabs[a as int];
            law_toggle_keeps_leaves(t.root, t.focused);
            assert(tab_ok(t, v.next_id));
            assert(self@.tabs =~= v.tabs.update(
                a as int,
                TabView { root: toggled_tree(t.root, t.focused), ..t },
            ));
            assert forall|k: int| 0 <= k < self@.tabs.len() implies tab_ok(#[trigger] self@.tabs[k], self@.next_id) by {
                if k != a {
                    assert(tab_ok(v.tabs[k], v.next_id));
                }
            }
        }
    }

    /// Opens a new tab of one empty pane and makes it active.
    pub fn new_tab(&mut self)
        requires
            old(self).wf(),
            old(self)@.next_id + 1 <= usize::MAX,
        ensures
            final(self).wf(),
            ({
                let v = old(self)@;
                let w = final(self)@;
                let nid = PaneId(v.next_id as usize);
                &&& w.next_id == v.next_id + 1
                &&& w.tabs.len() == v.tabs.len() + 1
                &&& w.tabs.take(v.tabs.len() as int) == v.tabs
                &&& w.active == v.tabs.len()
                &&& w.tabs.last().focused == nid
                &&& w.tabs.last().root matches PaneNode::Leaf(l) && is_blank_leaf(l, nid)
            }),
    {
        let ghost v = self@;
        let new_id = PaneId(self.next_id);
        self.next_id = self.next_id + 1;
        let tab = TabWorkspace::new(empty_leaf(new_id));
        self.tabs.push(tab);
        self.active_tab = self.tabs.len() - 1;
        proof {
            assert(self@.tabs.take(v.tabs.len() as int) =~= v.tabs);
            let t = self@.tabs.last();
            assert(leaf_ids(t.root) =~= seq![new_id]);
            assert(leaf_ids(t.root)[0] == new_id);
            assert forall|k: int| 0 <= k < self@.tabs.len() implies tab_ok(#[trigger] self@.tabs[k], self@.next_id) by {
                if k < v.tabs.len() {
                    assert(self@.tabs[k] == v.tabs[k]);
                    assert(tab_ok(v.tabs[k], v.next_id));
                    lemma_tab_ok_grow(v.tabs[k], v.next_id, self@.next_id);
                }
            }
        }
    }

    /// Activates the next tab, cyclically; false (and nothing changes)
    /// when there is only one.
    pub fn next_tab(&mut self) -> (r: bool)
        requires
            old(self).wf(),
        ensures
            final(self).wf(),
            r == (old(self)@.tabs.len() > 1),
            final(self)@ == if r {
                TabsView { active: next_index(old(self)@.active, old(self)@.tabs.len()), ..old(self)@ }
            } else {
                old(self)@
            },
    {
        if self.tabs.len() <= 1 {
            return false;
        }
        self.active_tab = (self.active_tab + 1) % self.tabs.len();
        true
    }

    /// Activates the previous tab, cyclically; false (and nothing changes)
    /// when there is only one.
    pub fn prev_tab(&mut self) -> (r: bool)
        requires
            old(self).wf(),
        ensures
            final(self).wf(),
            r == (old(self)@.tabs.len() > 1),
            final(self)@ == if r {
                TabsView { active: prev_index(old(self)@.active, old(self)@.tabs.len()), ..old(self)@ }
            } else {
                old(self)@
            },
    {
        if self.tabs.len() <= 1 {
            return false;
        }
        self.active_tab = if self.active_tab == 0 {
            self.tabs.len() - 1
        } else {
            self.active_tab - 1
        };
        true
    }
}

/// Cycling to the next tab and back, or back and then forward, returns to
/// the same tab.
pub proof fn law_tab_cycle(a: nat, n: nat)
    requires
        a < n,
    ensures
        prev_index(next_index(a, n), n) == a,
        next_index(prev_index(a, n), n) == a,
{
    if a + 1 == n {
        assert((a + 1) % n == 0) by (nonlinear_arith)
            requires
                a + 1 == n,
                n > 0,
        ;
    } else {
        assert((a + 1) % n == a + 1) by (nonlinear_arith)
            requires
                a + 1 < n,
        ;
    }
    if a == 0 {
        let m = (n - 1) as nat;
        assert((m + 1) % n == 0) by (nonlinear_arith)
            requires
                m + 1 == n,
                n > 0,
        ;
    } else {
        let m = (a - 1) as nat;
        assert((m + 1) % n == a) by (nonlinear_arith)
            requires
                m + 1 == a,
                a < n,
        ;
    }
}


/// In a list without repeats, the index of an item is where it stands.
pub proof fn lemma_index_of_distinct(s: Seq<PaneId>, k: int)
    requires
        s.no_duplicates(),
        0 <= k < s.len(),
    ensures
        index_in(s, s[k]) == k,
{
    assert forall|q: int| 0 <= q < k implies s[q] != s[k] by {}
    lemma_index_in(s, s[k], k);
}

/// Going to the next pane and back, or back and then forward, returns to
/// the same pane.
pub proof fn law_pane_cycle(s: Seq<PaneId>, f: PaneId)
    requires
        s.no_duplicates(),
        s.contains(f),
        s.len() > 1,
    ensures
        prev_focus(s, next_focus(s, f)) == f,
        next_focus(s, prev_focus(s, f)) == f,
{
    let k = choose|k: int| 0 <= k < s.len() && s[k] == f;
    lemma_index_of_distinct(s, k);
    let n = s.len() as int;
    let j = (k + 1) % n;
    if k + 1 == n {
        assert(j == 0) by (nonlinear_arith)
            requires
                j == (k + 1) % n,
                k + 1 == n,
                n > 0,
        ;
    } else {
        assert(j == k + 1) by (nonlinear_arith)
            requires
                j == (k + 1) % n,
                0 <= k + 1 < n,
        ;
    }
    lemma_index_of_distinct(s, j);
    let i = if k == 0 {
        n - 1
    } else {
        k - 1
    };
    lemma_index_of_distinct(s, i);
    let j2 = (i + 1) % n;
    if i + 1 == n {
        assert(j2 == 0) by (nonlinear_arith)
            requires
                j2 == (i + 1) % n,
                i + 1 == n,
                n > 0,
        ;
    } else {
        assert(j2 == i + 1) by (nonlinear_arith)
            requires
                j2 == (i + 1) % n,
                0 <= i + 1 < n,
        ;
    }
}

/// Where `file_tab_from` finds a file, the tab shows it in that pane.
pub proof fn lemma_file_tab_from(tabs: Seq<TabView>, path: Seq<char>, k: int)
    ensures
        file_tab_from(tabs, path, k) matches Some((i, p)) ==> k <= i < tabs.len() && file_leaf(
            tabs[i].root,
            path,
        ) == Some(p),
    decreases tabs.len() - k,
{
    if 0 <= k < tabs.len() && file_leaf(tabs[k].root, path) is None {
        lemma_file_tab_from(tabs, path, k + 1);
    }
}

impl TabManager {
    /// Closes the focused pane of the active tab. The only pane of the only
    /// tab is emptied instead; a tab of one pane is removed (the next tab,
    /// or the last one, becomes active); otherwise the pane leaves its
    /// tree and the leftmost pane gets the focus.
    #[verifier::spinoff_prover]
    pub fn close_pane(&mut self) -> (r: CloseOutcome)
        requires
            old(self).wf(),
        ensures
            final(self).wf(),
            ({
                let v = old(self)@;
                let w = final(self)@;
                let a = v.active as int;
                let t = v.tabs[a];
                &&& w.next_id == v.next_id
                &&& match r {
                    CloseOutcome::ClearedLastPane => {
                        &&& t.root is Leaf
                        &&& v.tabs.len() == 1
                        &&& w.active == v.active
                        &&& w.tabs.len() == 1
                        &&& w.tabs[0].focused == t.focused
                        &&& w.tabs[0].root matches PaneNode::Leaf(l) && is_blank_leaf(l, t.focused)
                    },
                    CloseOutcome::ClosedTab => {
                        &&& t.root is Leaf
                        &&& v.tabs.len() > 1
                        &&& w.tabs == v.tabs.remove(a)
                        &&& w.active == if a < w.tabs.len() {
                            a
                        } else {
                            w.tabs.len() - 1
                        }
                    },
                    CloseOutcome::ClosedPane => {
                        let c = closed_tree(t.root, t.focused).0;
                        &&& t.root is Split
                        &&& w.active == v.active
                        &&& w.tabs == v.tabs.update(a, TabView { root: c, focused: first_leaf(c) })
                    },
                }
            }),
    {
        let ghost v = self@;
        let a = self.active_tab;
        proof {
            assert(v.tabs[a as int] == self.tabs@[a as int]@);
            assert(tab_ok(v.tabs[a as int], v.next_id));
        }
        if self.tabs[a].root.is_single_leaf() {
            if self.tabs.len() == 1 {
                let id = self.tabs[0].root.first_leaf_id();
                proof {
                    let t = v.tabs[0];
                    assert(leaf_ids(t.root) == seq![id]);
                    assert(leaf_ids(t.root).contains(t.focused));
                    assert(t.focused == id);
                }
                self.tabs[0].root = PaneNode::Leaf(empty_leaf(id));
                proof {
                    let t = self@.tabs[0];
                    assert(leaf_ids(t.root) =~= seq![id]);
                    assert(leaf_ids(t.root)[0] == id);
                    assert(id.0 < v.next_id) by {
                        assert(leaf_ids(v.tabs[0].root)[0] == id);
                    }
                    assert(tab_ok(t, self@.next_id));
                }
                return CloseOutcome::ClearedLastPane;
            }
            let _ = self.tabs.remove(a);
            if self.active_tab >= self.tabs.len() {
                self.active_tab = self.tabs.len() - 1;
            }
            proof {
                assert(self@.tabs =~= v.tabs.remove(a as int));
                assert forall|k: int| 0 <= k < self@.tabs.len() implies tab_ok(#[trigger] self@.tabs[k], self@.next_id) by {
                    if k < a {
                        assert(self@.tabs[k] == v.tabs[k]);
                        assert(tab_ok(v.tabs[k], v.next_id));
                    } else {
                        assert(self@.tabs[k] == v.tabs[k + 1]);
                        assert(tab_ok(v.tabs[k + 1], v.next_id));
                    }
                }
            }
            return CloseOutcome::ClosedTab;
        }
        let focused = self.tabs[a].focused;
        let _ = close_leaf_in_node(&mut self.tabs[a].root, focused);
        let f = self.tabs[a].root.first_leaf_id();
        self.tabs[a].focused = f;
        proof {
            let t = v.tabs[a as int];
            let c = closed_tree(t.root, t.focused).0;
            assert(self@.tabs =~= v.tabs.update(a as int, TabView { root: c, focused: first_leaf(c) }));
            law_close_leaves(t.root, t.focused);
            crate::gui::pane::lemma_without(leaf_ids(t.root), t.focused);
            lemma_first_leaf(c);
            let s2 = leaf_ids(c);
            assert(s2.contains(first_leaf(c))) by {
                assert(s2[0] == first_leaf(c));
            }
            assert forall|q: int| 0 <= q < s2.len() implies (#[trigger] s2[q]).0 < self@.next_id by {
                assert(s2.contains(s2[q]));
                assert(without(leaf_ids(t.root), t.focused).contains(s2[q]));
                let j = choose|j: int| 0 <= j < leaf_ids(t.root).len() && leaf_ids(t.root)[j] == s2[q];
                assert(leaf_ids(t.root)[j].0 < v.next_id);
            }
            assert forall|k: int| 0 <= k < self@.tabs.len() implies tab_ok(#[trigger] self@.tabs[k], self@.next_id) by {
                if k != a {
                    assert(tab_ok(v.tabs[k], v.next_id));
                }
            }
        }
        CloseOutcome::ClosedPane
    }

    /// Index of the focused pane among the panes of the active tab.
    fn focus_position(&self, leaves: &Vec<PaneId>) -> (k: usize)
        requires
            self.wf(),
            leaves@ == leaf_ids(self@.tabs[self@.active as int].root),
        ensures
            k == index_in(leaves@, self@.tabs[self@.active as int].focused),
            k < leaves@.len(),
    {
        let a = self.active_tab;
        let f = self.tabs[a].focused;
        proof {
            assert(self@.tabs[a as int] == self.tabs@[a as int]@);
            assert(tab_ok(self@.tabs[a as int], self@.next_id));
        }
        let mut k: usize = 0;
        while k < leaves.len() && leaves[k] != f
            invariant
                k <= leaves@.len(),
                leaves@.contains(f),
                forall|q: int| 0 <= q < k ==> leaves@[q] != f,
            decreases leaves@.len() - k,
        {
            k += 1;
        }
        proof {
            if k == leaves@.len() {
                let j = choose|j: int| 0 <= j < leaves@.len() && leaves@[j] == f;
                assert(leaves@[j] != f);
            }
            lemma_index_in(leaves@, f, k as int);
        }
        k
    }

    /// Focuses the next pane of the active tab, cyclically; false (and
    /// nothing changes) when the tab has one pane.
    #[verifier::spinoff_prover]
    pub fn next_pane(&mut self) -> (r: bool)
        requires
            old(self).wf(),
        ensures
            final(self).wf(),
            ({
                let v = old(self)@;
                let a = v.active as int;
                let t = v.tabs[a];
                &&& r == (leaf_ids(t.root).len() > 1)
                &&& final(self)@ == if r {
                    TabsView {
                        tabs: v.tabs.update(
                            a,
                            TabView { focused: next_focus(leaf_ids(t.root), t.focused), ..t },
                        ),
                        ..v
                    }
                } else {
                    v
                }
            }),
    {
        let ghost v = self@;
        let a = self.active_tab;
        proof {
            assert(v.tabs[a as int] == self.tabs@[a as int]@);
        }
        let leaves = self.tabs[a].root.collect_leaves();
        let n = leaves.len();
        if n <= 1 {
            return false;
        }
        let pos = self.focus_position(&leaves);
        let j = (pos + 1) % n;
        let nf = leaves[j];
        self.tabs[a].focused = nf;
        proof {
            let t = v.tabs[a as int];
            assert(self@.tabs =~= v.tabs.update(
                a as int,
                TabView { focused: next_focus(leaf_ids(t.root), t.focused), ..t },
            ));
            assert(tab_ok(t, v.next_id));
            assert(leaf_ids(t.root).contains(nf)) by {
                assert(leaves@[j as int] == nf);
            }
            assert forall|k: int| 0 <= k < self@.tabs.len() implies tab_ok(#[trigger] self@.tabs[k], self@.next_id) by {
                if k != a {
                    assert(tab_ok(v.tabs[k], v.next_id));
                }
            }
        }
        true
    }

    /// Focuses the previous pane of the active tab, cyclically; false (and
    /// nothing changes) when the tab has one pane.
    #[verifier::spinoff_prover]
    pub fn prev_pane(&mut self) -> (r: bool)
        requires
            old(self).wf(),
        ensures
            final(self).wf(),
            ({
                let v = old(self)@;
                let a = v.active as int;
                let t = v.tabs[a];
                &&& r == (leaf_ids(t.root).len() > 1)
                &&& final(self)@ == if r {
                    TabsView {
                        tabs: v.tabs.update(
                            a,
                            TabView { focused: prev_focus(leaf_ids(t.root), t.focused), ..t },
                        ),
                        ..v
                    }
                } else {
                    v
                }
            }),
    {
        let ghost v = self@;
        let a = self.active_tab;
        proof {
            assert(v.tabs[a as int] == self.tabs@[a as int]@);
        }
        let leaves = self.tabs[a].root.collect_leaves();
        let n = leaves.len();
        if n <= 1 {
            return false;
        }
        let pos = self.focus_position(&leaves);
        let pf = if pos == 0 {
            leaves[n - 1]
        } else {
            leaves[pos - 1]
        };
        self.tabs[a].focused = pf;
        proof {
            let t = v.tabs[a as int];
            assert(self@.tabs =~= v.tabs.update(
                a as int,
                TabView { focused: prev_focus(leaf_ids(t.root), t.focused), ..t },
            ));
            assert(tab_ok(t, v.next_id));
            assert(leaf_ids(t.root).contains(pf)) by {
                if pos == 0 {
                    assert(leaves@[n - 1] == pf);
                } else {
                    assert(leaves@[pos - 1] == pf);
                }
            }
            assert forall|k: int| 0 <= k < self@.tabs.len() implies tab_ok(#[trigger] self@.tabs[k], self@.next_id) by {
                if k != a {
                    assert(tab_ok(v.tabs[k], v.next_id));
                }
            }
        }
        true
    }

    /// Shows a file: when a tab shows it already, that tab and pane get
    /// the focus; otherwise the focused pane of the active tab shows it,
    /// with the given title, in the editor mode.
    #[verifier::spinoff_prover]
    pub fn open_in_focused(&mut self, path: String, title: String) -> (r: OpenOutcome)
        requires
            old(self).wf(),
        ensures
            final(self).wf(),
            ({
                let v = old(self)@;
                let w = final(self)@;
                let a = v.active as int;
                let t = v.tabs[a];
                match r {
                    OpenOutcome::Switched => file_tab_from(v.tabs, path@, 0) matches Some((i, p))
                        && w == TabsView {
                        tabs: v.tabs.update(i, TabView { focused: p, ..v.tabs[i] }),
                        active: i as nat,
                        ..v
                    },
                    OpenOutcome::Opened => file_tab_from(v.tabs, path@, 0) is None && w
                        == TabsView {
                        tabs: v.tabs.update(
                            a,
                            TabView { root: opened_tree(t.root, t.focused, path, title), ..t },
                        ),
                        ..v
                    },
                }
            }),
    {
        let ghost v = self@;
        match self.find_file_in_all_tabs(path.as_str()) {
            Some((i, p)) => {
                proof {
                    lemma_file_tab_from(v.tabs, path@, 0);
                    assert(v.tabs[i as int] == self.tabs@[i as int]@);
                }
                self.active_tab = i;
                self.tabs[i].focused = p;
                proof {
                    let ti = v.tabs[i as int];
                    crate::gui::pane::lemma_file_leaf_in(ti.root, path@);
                    assert(self@.tabs =~= v.tabs.update(i as int, TabView { focused: p, ..ti }));
                    assert(tab_ok(ti, v.next_id));
                    assert forall|k: int| 0 <= k < self@.tabs.len() implies tab_ok(#[trigger] self@.tabs[k], self@.next_id) by {
                        if k != i {
                            assert(tab_ok(v.tabs[k], v.next_id));
                        }
                    }
                }
                OpenOutcome::Switched
            },
            None => {
                let a = self.active_tab;
                let focused = self.tabs[a].focused;
                proof {
                    assert(v.tabs[a as int] == self.tabs@[a as int]@);
                }
                let ghost (pv, tv) = (path, title);
                open_in_leaf(&mut self.tabs[a].root, focused, path, title);
                proof {
                    let t = v.tabs[a as int];
                    law_open_keeps_leaves(t.root, t.focused, pv, tv);
                    assert(tab_ok(t, v.next_id));
                    assert(self@.tabs =~= v.tabs.update(
                        a as int,
                        TabView { root: opened_tree(t.root, t.focused, pv, tv), ..t },
                    ));
                    assert forall|k: int| 0 <= k < self@.tabs.len() implies tab_ok(#[trigger] self@.tabs[k], self@.next_id) by {
                        if k != a {
                            assert(tab_ok(v.tabs[k], v.next_id));
                        }
                    }
                }
                OpenOutcome::Opened
            },
        }
    }
}


/// Index of the first tab from `i` on that has the pane `id`.
pub open spec fn tab_with_pane_from(tabs: Seq<TabView>, id: PaneId, i: int) -> Option<int>
    decreases tabs.len() - i,
{
    if i < 0 || i >= tabs.len() {
        None
    } else if leaf_with(tabs[i].root, id) is Some {
        Some(i)
    } else {
        tab_with_pane_from(tabs, id, i + 1)
    }
}

impl TabManager {
    /// The note shown in pane `id` has a new title: the pane, in the first
    /// tab that has it, takes it. False when no tab has the pane.
    pub fn retitle_pane(&mut self, id: PaneId, title: String) -> (r: bool)
        requires
            old(self).wf(),
        ensures
            final(self).wf(),
            r == (tab_with_pane_from(old(self)@.tabs, id, 0) is Some),
            ({
                let v = old(self)@;
                match tab_with_pane_from(v.tabs, id, 0) {
                    Some(i) => final(self)@ == TabsView {
                        tabs: v.tabs.update(
                            i,
                            TabView { root: retitled_tree(v.tabs[i].root, id, title), ..v.tabs[i] },
                        ),
                        ..v
                    },
                    None => final(self)@ == v,
                }
            }),
    {
        let ghost v = self@;
        let mut i: usize = 0;
        while i < self.tabs.len()
            invariant
                i <= self.tabs@.len(),
                self@ == v,
                v == old(self)@,
                tabs_wf(v),
                tab_with_pane_from(v.tabs, id, 0) == tab_with_pane_from(v.tabs, id, i as int),
            decreases self.tabs@.len() - i,
        {
            proof {
                assert(v.tabs[i as int] == self.tabs@[i as int]@);
            }
            let found = self.tabs[i].root.find_leaf(id).is_some();
            proof {
                assert(self.tabs@[i as int].root == v.tabs[i as int].root);
                assert(found == (leaf_with(v.tabs[i as int].root, id) is Some));
            }
            if found {
                proof {
                    assert(tab_with_pane_from(v.tabs, id, i as int) == Some(i as int));
                }
                let ghost tv = title;
                retitle_leaf(&mut self.tabs[i].root, id, title);
                proof {
                    let t = v.tabs[i as int];
                    law_retitle_keeps_leaves(t.root, id, tv);
                    assert(tab_ok(t, v.next_id));
                    assert(self@.tabs =~= v.tabs.update(
                        i as int,
                        TabView { root: retitled_tree(t.root, id, tv), ..t },
                    ));
                    assert forall|k: int| 0 <= k < self@.tabs.len() implies tab_ok(#[trigger] self@.tabs[k], self@.next_id) by {
                        if k != i {
                            assert(tab_ok(v.tabs[k], v.next_id));
                        }
                    }
                }
                return true;
            }
            i += 1;
        }
        false
    }
}


/// The title of a tab: that of its focused pane when it shows a file,
/// else "Empty".
pub open spec fn tab_title(t: TabView) -> Seq<char> {
    match leaf_with(t.root, t.focused) {
        Some(l) => if l.file_path is Some {
            l.title@
        } else {
            "Empty"@
        },
        None => "Empty"@,
    }
}

/// The label of a tab in the tab bar: its title, followed by its number of
/// panes in parentheses when that is asked for and it has more than one.
pub open spec fn tab_label(t: TabView, show_pane_count: bool) -> Seq<char> {
    let n = leaf_ids(t.root).len();
    if show_pane_count && n > 1 {
        tab_title(t) + seq![' ', '('] + decimal(n) + seq![')']
    } else {
        tab_title(t)
    }
}

impl TabManager {
    /// The tab bar: each tab's label (see [`tab_label`]), the active one
    /// flagged.
    pub fn tab_labels(&self, show_pane_count: bool) -> (r: Vec<(String, bool)>)
        ensures
            r@.len() == self@.tabs.len(),
            forall|i: int| 0 <= i < r@.len() ==> (#[trigger] r@[i]).0@ == tab_label(self@.tabs[i], show_pane_count),
            forall|i: int| 0 <= i < r@.len() ==> (#[trigger] r@[i]).1 == (i == self@.active),
    {
        let mut r: Vec<(String, bool)> = Vec::new();
        let mut i: usize = 0;
        while i < self.tabs.len()
            invariant
                i <= self.tabs@.len(),
                r@.len() == i,
                forall|q: int|
                    0 <= q < i ==> (#[trigger] r@[q]).0@ == tab_label(self@.tabs[q], show_pane_count),
                forall|q: int| 0 <= q < i ==> (#[trigger] r@[q]).1 == (q == self@.active),
            decreases self.tabs@.len() - i,
        {
            let tab = &self.tabs[i];
            proof {
                assert(self@.tabs[i as int] == tab@);
            }
            let title = tab.title();
            let n = tab.pane_count();
            proof {
                assert(title@ == tab_title(tab@));
            }
            let label = if show_pane_count && n > 1 {
                let mut v: Vec<char> = chars_of(title.as_str());
                v.push(' ');
                v.push('(');
                push_all(&mut v, decimal_chars(n).as_slice());
                v.push(')');
                proof {
                    assert(v@ =~= tab_title(tab@) + seq![' ', '('] + decimal(n as nat) + seq![')']);
                }
                string_from_chars(v.as_slice())
            } else {
                title
            };
            let ghost lv = label@;
            proof {
                assert(lv == tab_label(self@.tabs[i as int], show_pane_count));
            }
            let ghost before = r@;
            r.push((label, i == self.active_tab));
            proof {
                assert(r@[i as int].0@ == lv);
                assert(self@.active == self.active_tab as nat);
                assert forall|q: int| 0 <= q < i + 1 implies (#[trigger] r@[q]).0@ == tab_label(
                    self@.tabs[q],
                    show_pane_count,
                ) by {
                    if q < i {
                        assert(r@[q] == before[q]);
                    }
                }
                assert forall|q: int| 0 <= q < i + 1 implies (#[trigger] r@[q]).1 == (q == self@.active) by {
                    if q < i {
                        assert(r@[q] == before[q]);
                    }
                }
            }
            i += 1;
        }
        r
    }

    /// A click on tab `i`: it becomes the active tab.
    pub fn select_tab(&mut self, i: usize)
        requires
            old(self).wf(),
            i < old(self)@.tabs.len(),
        ensures
            final(self).wf(),
            final(self)@ == (TabsView { active: i as nat, ..old(self)@ }),
    {
        self.active_tab = i;
    }

    /// A click on pane `id` of the active tab: it gets the focus.
    pub fn focus_pane(&mut self, id: PaneId)
        requires
            old(self).wf(),
            leaf_ids(old(self)@.tabs[old(self)@.active as int].root).contains(id),
        ensures
            final(self).wf(),
            ({
                let v = old(self)@;
                let a = v.active as int;
                final(self)@ == TabsView {
                    tabs: v.tabs.update(a, TabView { focused: id, ..v.tabs[a] }),
                    ..v
                }
            }),
    {
        let ghost v = self@;
        let a = self.active_tab;
        self.tabs[a].focused = id;
        proof {
            let t = v.tabs[a as int];
            assert(tab_ok(t, v.next_id));
            assert(self@.tabs =~= v.tabs.update(a as int, TabView { focused: id, ..t }));
            assert forall|k: int| 0 <= k < self@.tabs.len() implies tab_ok(#[trigger] self@.tabs[k], self@.next_id) by {
                if k != a {
                    assert(tab_ok(v.tabs[k], v.next_id));
                }
            }
        }
    }
}

} // verus!
