//! The list model: the authoritative forest of items, the flattened display
//! copy with its selection, the editor mode, and the restructuring
//! operations that edit the forest while keeping it well-formed.

use vstd::prelude::*;
use vstd::string::StrSliceExecFns;

use crate::flatten::{flat_display, flatten_bucket};
use crate::flatten::flatten_from;
use crate::forest::{has_id, Forest};
use crate::forest::{item_ids, lemma_child_parent, lemma_children_unique, lemma_counts_from_wf, lemma_has_id_iff, lemma_id_at_position, lemma_position_unique};
use crate::item::{lowered, raised, toggled, CompleteStatus, ExpandStatus, InputMode, Item, MoveDirection};

verus! {

/// An ordered list together with a selection index; the index may go stale
/// and is re-checked against the list before every use.
pub struct StatefulList<T> {
    pub selected: Option<usize>,
    pub items: Vec<T>,
}

impl<T> StatefulList<T> {
    /// An empty list with nothing selected.
    pub fn new() -> (r: Self)
        ensures
            r.selected is None,
            r.items@ == Seq::<T>::empty(),
    {
        StatefulList { selected: None, items: Vec::new() }
    }

    /// Move the selection one entry down, wrapping from the last entry to
    /// the first; an empty list keeps its selection.
    pub fn next(&mut self)
        ensures
            final(self).items == old(self).items,
            old(self).items@.len() == 0 ==> final(self).selected == old(self).selected,
            old(self).items@.len() > 0 ==> final(self).selected == Some(
                match old(self).selected {
                    Some(i) => if i >= old(self).items@.len() - 1 {
                        0usize
                    } else {
                        (i + 1) as usize
                    },
                    None => 0usize,
                },
            ),
    {
        if self.items.len() > 0 {
            let i = match self.selected {
                Some(i) => {
                    if i >= self.items.len() - 1 {
                        0
                    } else {
                        i + 1
                    }
                },
                None => 0,
            };
            self.selected = Some(i);
        }
    }

    /// Move the selection one entry up, wrapping from the first entry to
    /// the last; an empty list keeps its selection.
    pub fn previous(&mut self)
        ensures
            final(self).items == old(self).items,
            old(self).items@.len() == 0 ==> final(self).selected == old(self).selected,
            old(self).items@.len() > 0 ==> final(self).selected == Some(
                match old(self).selected {
                    Some(i) => if i == 0 {
                        (old(self).items@.len() - 1) as usize
                    } else {
                        (i - 1) as usize
                    },
                    None => 0usize,
                },
            ),
    {
        if self.items.len() > 0 {
            let i = match self.selected {
                Some(i) => {
                    if i == 0 {
                        self.items.len() - 1
                    } else {
                        i - 1
                    }
                },
                None => 0,
            };
            self.selected = Some(i);
        }
    }
}

/// The whole editor model: mode, flattened display list with selection,
/// the authoritative item forest, and the dirty/unsaved flags.
pub struct RutuduList {
    pub input_mode: InputMode,
    pub items: StatefulList<Item>,
    pub item_tree: Forest,
    pub dirty_list: bool,
    pub unsaved: bool,
}

/// The selection of `rl` rests on the first display entry whose id is
/// `id`, or on index 0 when no entry carries it.
pub open spec fn selected_points_at(rl: RutuduList, id: u32) -> bool {
    match rl.items.selected {
        Some(i) => {
            ||| {
                &&& i < rl.items.items@.len()
                &&& rl.items.items@[i as int].id == id
                &&& (forall|l: int| 0 <= l < i ==> rl.items.items@[l].id != id)
            }
            ||| {
                &&& i == 0
                &&& (forall|l: int| 0 <= l < rl.items.items@.len() ==> rl.items.items@[l].id != id)
            }
        },
        None => false,
    }
}


/// `it` with its expansion lowered one step, or two steps when it has no
/// children (so a childless item rolls all the way up in one action).
pub open spec fn step_collapsed(it: Item, kids: nat) -> Item {
    Item {
        expand: if kids == 0 {
            lowered(lowered(it.expand))
        } else {
            lowered(it.expand)
        },
        ..it
    }
}

/// `it` with its expansion raised one step, or two steps when it has no
/// children (so a childless item opens all the way in one action).
pub open spec fn step_expanded(it: Item, kids: nat) -> Item {
    Item {
        expand: if kids == 0 {
            raised(raised(it.expand))
        } else {
            raised(it.expand)
        },
        ..it
    }
}

/// `it` with its completion state replaced.
pub open spec fn with_complete(it: Item, c: CompleteStatus) -> Item {
    Item { complete: c, ..it }
}

/// `it` with its visual mark flipped.
pub open spec fn with_mark_flipped(it: Item) -> Item {
    Item { tracking_time: !it.tracking_time, ..it }
}


/// `it` with its parent link replaced.
pub open spec fn with_parent(it: Item, p: u32) -> Item {
    Item { parent_id: p, ..it }
}

/// `s` with every item re-parented to `p`, order kept.
pub open spec fn reparented(s: Seq<Item>, p: u32) -> Seq<Item> {
    Seq::new(s.len(), (|l: int| with_parent(s[l], p)))
}

/// What a soft delete of item `d` under grandparent key `g` does to the
/// forest: the item leaves `g`'s bucket, its direct children move to the
/// end of `g`'s bucket re-parented to `g`, and nothing else changes. The
/// degenerate call with `g == d` (a self-parented item) only removes the
/// item.
pub open spec fn delete_outcome(pre: Forest, post: Forest, g: u32, d: u32) -> bool {
    let cs = pre.children(g);
    let ks = pre.children(d);
    &&& (forall|k: u32| k != g && k != d ==> post.children(k) == pre.children(k))
    &&& (g != d ==> post.children(d) == Seq::<Item>::empty())
    &&& (g != d ==> (forall|j: int|
        0 <= j < cs.len() && cs[j].id == d ==> post.children(g) == cs.remove(j) + reparented(
            ks,
            g,
        ) && post.total() + 1 == pre.total()))
    &&& (g != d && (forall|j: int| 0 <= j < cs.len() ==> cs[j].id != d) ==> post.children(g) == cs
        + reparented(ks, g) && post.total() == pre.total())
    &&& (g == d ==> (forall|j: int|
        0 <= j < cs.len() && cs[j].id == d ==> post.children(g) == cs.remove(j) && post.total()
            + 1 == pre.total()))
    &&& (g == d && (forall|j: int| 0 <= j < cs.len() ==> cs[j].id != d) ==> post.children(g) == cs
        && post.total() == pre.total())
}

/// What a hard delete (erase) of item `d` under parent key `g` does to the
/// forest: the item leaves `g`'s bucket and the bucket of its direct
/// children is dropped outright.
pub open spec fn erase_outcome(pre: Forest, post: Forest, g: u32, d: u32) -> bool {
    let cs = pre.children(g);
    let ks = pre.children(d);
    &&& (forall|k: u32| k != g && k != d ==> post.children(k) == pre.children(k))
    &&& post.children(d) == Seq::<Item>::empty()
    &&& (g != d ==> (forall|j: int|
        0 <= j < cs.len() && cs[j].id == d ==> post.children(g) == cs.remove(j) && post.total()
            + ks.len() + 1 == pre.total()))
    &&& (g != d && (forall|j: int| 0 <= j < cs.len() ==> cs[j].id != d) ==> post.children(g) == cs
        && post.total() + ks.len() == pre.total())
    &&& (g == d ==> post.total() + ks.len() == pre.total())
}


/// `it` with children made visible: a closed item moves to `ShowChildren`,
/// any other level is kept.
pub open spec fn with_shown(it: Item) -> Item {
    Item {
        expand: if it.expand == ExpandStatus::Closed {
            ExpandStatus::ShowChildren
        } else {
            it.expand
        },
        ..it
    }
}

/// The sibling-order hint recorded at insertion: the bucket size, saturated
/// at the field's width.
pub open spec fn sat_order(n: nat) -> u16 {
    if n > u16::MAX {
        u16::MAX
    } else {
        n as u16
    }
}

/// A new item as it lands in bucket `p`: parent link set and order hint
/// recorded from the bucket size `cslen`.
pub open spec fn stored_insert(it: Item, p: u32, cslen: nat) -> Item {
    Item { parent_id: p, order: sat_order(cslen), ..it }
}

/// A new item as it lands when inserted as a parent: linked under `p`,
/// showing children so the old item renders beneath it.
pub open spec fn parent_stored(it: Item, p: u32) -> Item {
    Item { parent_id: p, expand: ExpandStatus::ShowChildren, order: 0, ..it }
}

/// The bucket a plain insert goes to: the item's own parent link when it
/// already has one, else a parent derived from the insert mode and the
/// selection.
pub open spec fn insert_target(rl: RutuduList, origp: u32) -> u32 {
    if origp != 0 {
        origp
    } else {
        match rl.input_mode {
            InputMode::InsertChild => match rl.selected_entry() {
                Some(e) => e.id,
                None => 0,
            },
            InputMode::InsertSibling => match rl.selected_entry() {
                Some(e) => e.parent_id,
                None => 0,
            },
            _ => 0,
        }
    }
}

/// Inputs an insert refuses outright: the reserved id 0, an id already in
/// use, or a forest at the machine size bound.
pub open spec fn insert_blocked(rl: RutuduList, it: Item) -> bool {
    ||| it.id == 0
    ||| rl.item_tree.idc(it.id) > 0
    ||| rl.item_tree.total() + 1 >= usize::MAX
}


/// A move never creates or destroys items: every key outside the two
/// touched buckets keeps its children, every id keeps its count, and the
/// total is unchanged.
pub open spec fn move_frame(pre: Forest, post: Forest, a: u32, b: u32) -> bool {
    &&& (forall|k: u32| k != a && k != b ==> post.children(k) == pre.children(k))
    &&& (forall|x: u32| post.idc(x) == pre.idc(x))
    &&& post.total() == pre.total()
}

/// Moving the child at position `j` of bucket `pid` up: it swaps with its
/// predecessor, or with the last sibling when it is first (circular order).
pub open spec fn moved_up(pre: Forest, post: Forest, pid: u32, j: int) -> bool {
    let cs = pre.children(pid);
    let t = if j == 0 {
        cs.len() - 1
    } else {
        j - 1
    };
    &&& move_frame(pre, post, pid, pid)
    &&& post.children(pid) == cs.update(j, cs[t]).update(t, cs[j])
}

/// Moving the child at position `j` of bucket `pid` down: it swaps with its
/// successor, or with the first sibling when it is last (circular order).
pub open spec fn moved_down(pre: Forest, post: Forest, pid: u32, j: int) -> bool {
    let cs = pre.children(pid);
    let t = if j == cs.len() - 1 {
        0int
    } else {
        j + 1
    };
    &&& move_frame(pre, post, pid, pid)
    &&& post.children(pid) == cs.update(j, cs[t]).update(t, cs[j])
}

/// Moving the child at position `j` of bucket `pid` in: it becomes the
/// last child of its elder sibling (the one above it, wrapping to the last
/// sibling when it is first), and a closed new parent is opened to
/// `ShowChildren`.
pub open spec fn moved_in(pre: Forest, post: Forest, pid: u32, j: int) -> bool {
    let cs = pre.children(pid);
    let t = if j == 0 {
        cs.len() - 1
    } else {
        j - 1
    };
    let sib = cs[t];
    let t2 = if t < j {
        t
    } else {
        t - 1
    };
    let csr = cs.remove(j);
    &&& move_frame(pre, post, pid, sib.id)
    &&& (sib.id != pid ==> {
        &&& (sib.expand == ExpandStatus::Closed ==> post.children(pid) == csr.update(
            t2,
            with_shown(csr[t2]),
        ))
        &&& (sib.expand != ExpandStatus::Closed ==> post.children(pid) == csr)
        &&& post.children(sib.id) == pre.children(sib.id).push(with_parent(cs[j], sib.id))
    })
}

/// Moving the child at position `j` of bucket `pid` out to the bucket of
/// grandparent key `gp`: it leaves its bucket and lands right after its
/// former parent in the grandparent's bucket (or at the front when the
/// parent is not there).
pub open spec fn moved_out(pre: Forest, post: Forest, pid: u32, j: int, gp: u32) -> bool {
    let cs = pre.children(pid);
    let oi = cs[j];
    let gcs = pre.children(gp);
    &&& move_frame(pre, post, pid, gp)
    &&& (gp != pid ==> {
        &&& post.children(pid) == cs.remove(j)
        &&& (forall|jj: int|
            0 <= jj < gcs.len() && gcs[jj].id == pid ==> post.children(gp) == gcs.insert(
                jj + 1,
                with_parent(oi, gp),
            ))
        &&& ((forall|jj: int| 0 <= jj < gcs.len() ==> gcs[jj].id != pid) && gcs.len() > 0
            ==> post.children(gp) == gcs.insert(1, with_parent(oi, gp)))
        &&& ((forall|jj: int| 0 <= jj < gcs.len() ==> gcs[jj].id != pid) && gcs.len() == 0
            ==> post.children(gp) == gcs.insert(0, with_parent(oi, gp)))
    })
}


/// The index of the first newline of `s`, or `s.len()` when it has none:
/// where the title ends and the entry begins.
pub open spec fn first_newline(s: Seq<char>) -> int
    decreases s.len(),
{
    if s.len() == 0 {
        0
    } else if s[0] == '\n' {
        0
    } else {
        1 + first_newline(s.drop_first())
    }
}

/// `first_newline` points at the first newline: everything before it is
/// not a newline, and it is a newline unless the string has none.
pub proof fn lemma_first_newline(s: Seq<char>)
    ensures
        0 <= first_newline(s) <= s.len(),
        forall|l: int| 0 <= l < first_newline(s) ==> s[l] != '\n',
        first_newline(s) < s.len() ==> s[first_newline(s)] == '\n',
    decreases s.len(),
{
    if s.len() == 0 {
    } else if s[0] == '\n' {
    } else {
        lemma_first_newline(s.drop_first());
        assert forall|l: int| 0 <= l < first_newline(s) implies s[l] != '\n' by {
            if l > 0 {
                assert(s.drop_first()[l - 1] != '\n');
            }
        }
    }
}

/// Carry out a move In on the forest: the child of `pid` at `idx` becomes
/// the last child of its elder sibling, which is opened to `ShowChildren`
/// when it was closed.
fn do_move_in(tree: &mut Forest, pid: u32, idx: usize)
    requires
        old(tree).wf(),
        idx < old(tree).children(pid).len(),
        old(tree).children(pid).len() >= 2,
    ensures
        final(tree).wf(),
        moved_in(*old(tree), *final(tree), pid, idx as int),
{
    let ghost pre = *tree;
    let ghost cs = pre.children(pid);
    proof {
        lemma_children_unique(pre.buckets@, pid);
        lemma_child_parent(pre.buckets@, pid);
        lemma_counts_from_wf(pre.buckets@);
    }
    let len = tree.child_count(pid);
    let its = if idx == 0 {
        len - 1
    } else {
        idx - 1
    };
    let sib = tree.item_at(pid, its);
    let np = sib.id;
    let mut oi = tree.take_item(pid, idx);
    proof {
        assert(tree.idc(oi.id) == 0);
    }
    oi.parent_id = np;
    proof {
        assert(oi == with_parent(cs[idx as int], np));
    }
    let end = tree.child_count(np);
    tree.put_item(np, end, oi);
    proof {
        if np != pid {
            assert(tree.children(np) =~= pre.children(np).push(oi));
        }
    }
    if matches!(sib.expand, ExpandStatus::Closed) {
        let ghost mid = *tree;
        match tree.index_of_id(pid, np) {
            Some(js) => {
                let mut t = tree.item_at(pid, js);
                proof {
                    if np != pid {
                        lemma_child_parent(mid.buckets@, pid);
                        lemma_children_unique(mid.buckets@, pid);
                        let t2 = if its < idx {
                            its as int
                        } else {
                            its - 1
                        };
                        assert(mid.children(pid) == cs.remove(idx as int));
                        assert(mid.children(pid)[t2] == cs[its as int]);
                        assert(js == t2) by {
                            if (js as int) < t2 {
                                assert(mid.children(pid)[js as int].id != mid.children(pid)[t2].id);
                            } else if t2 < js as int {
                                assert(mid.children(pid)[t2].id != mid.children(pid)[js as int].id);
                            }
                        }
                    } else {
                        lemma_child_parent(mid.buckets@, pid);
                    }
                }
                t.show_children();
                tree.replace_item(pid, js, t);
            },
            None => {},
        }
    }
}

/// Carry out a move Out on the forest: the child of `pid` at `idx` leaves
/// its bucket and lands right after its former parent in the bucket keyed
/// `gpid`, the parent of every item whose id is `pid`.
fn do_move_out(tree: &mut Forest, pid: u32, idx: usize, gpid: u32)
    requires
        old(tree).wf(),
        idx < old(tree).children(pid).len(),
        !has_id(old(tree).buckets@, pid) ==> gpid == 0,
        forall|b: int, j: int|
            0 <= b < old(tree).buckets@.len() && 0 <= j < old(tree).buckets@[b].items@.len() && (
            #[trigger] old(tree).buckets@[b].items@[j]).id == pid ==> old(
                tree,
            ).buckets@[b].items@[j].parent_id == gpid,
    ensures
        final(tree).wf(),
        has_id(old(tree).buckets@, pid) ==> forall|b: int, jj: int|
            0 <= b < old(tree).buckets@.len() && 0 <= jj < old(tree).buckets@[b].items@.len() && (
            #[trigger] old(tree).buckets@[b].items@[jj]).id == pid ==> moved_out(
                *old(tree),
                *final(tree),
                pid,
                idx as int,
                old(tree).buckets@[b].items@[jj].parent_id,
            ),
        !has_id(old(tree).buckets@, pid) ==> moved_out(
            *old(tree),
            *final(tree),
            pid,
            idx as int,
            0,
        ),
{
    let ghost pre = *tree;
    let ghost cs = pre.children(pid);
    proof {
        lemma_children_unique(pre.buckets@, pid);
        lemma_child_parent(pre.buckets@, pid);
        lemma_counts_from_wf(pre.buckets@);
    }
    let mut oi = tree.take_item(pid, idx);
    proof {
        assert(tree.idc(oi.id) == 0);
    }
    oi.parent_id = gpid;
    proof {
        assert(oi == with_parent(cs[idx as int], gpid));
    }
    let glen = tree.child_count(gpid);
    let ghost gcs = pre.children(gpid);
    proof {
        if gpid != pid {
            assert(tree.children(gpid) == gcs);
        }
        lemma_children_unique(pre.buckets@, gpid);
    }
    let fin = match tree.index_of_id(gpid, pid) {
        Some(pj) => pj + 1,
        None => {
            if glen > 0 {
                1
            } else {
                0
            }
        },
    };
    tree.put_item(gpid, fin, oi);
    proof {
        if gpid != pid {
            lemma_position_unique(pre.buckets@);
            lemma_has_id_iff(pre.buckets@, pid);
            if has_id(pre.buckets@, pid) {
                assert forall|b: int, jj: int|
                    0 <= b < pre.buckets@.len() && 0 <= jj < pre.buckets@[b].items@.len() && (
                #[trigger] pre.buckets@[b].items@[jj]).id == pid implies moved_out(
                    pre,
                    *tree,
                    pid,
                    idx as int,
                    pre.buckets@[b].items@[jj].parent_id,
                ) by {
                    assert(pre.buckets@[b].items@[jj].parent_id == gpid);
                    crate::forest::lemma_key_at(pre.buckets@, pre.buckets@[b].key, b);
                    assert(gcs == pre.buckets@[b].items@);
                    assert(gcs[jj].id == pid);
                }
            }
        }
    }
}

impl Default for RutuduList {
    /// A fresh empty list in edit mode.
    fn default() -> (r: Self)
        ensures
            r.wf(),
            r.input_mode == InputMode::Edit,
            r.items.selected is None,
            r.items.items@ == Seq::<Item>::empty(),
            r.item_tree.total() == 0,
            forall|k: u32| r.item_tree.children(k) == Seq::<Item>::empty(),
            forall|x: u32| r.item_tree.idc(x) == 0,
            !r.dirty_list,
            !r.unsaved,
    {
        RutuduList {
            input_mode: InputMode::Edit,
            items: StatefulList::new(),
            item_tree: Forest::new(),
            dirty_list: false,
            unsaved: false,
        }
    }
}

impl RutuduList {
    /// Well-formedness of the model: the forest invariant. The display copy
    /// carries no invariant of its own; it may lag behind the forest until
    /// the next rebuild.
    pub open spec fn wf(&self) -> bool {
        self.item_tree.wf()
    }

    /// The entry the selection points at, when it points inside the display
    /// list.
    pub open spec fn selected_entry(&self) -> Option<Item> {
        match self.items.selected {
            Some(i) => if i < self.items.items@.len() {
                Some(self.items.items@[i as int])
            } else {
                None
            },
            None => None,
        }
    }

    /// Enter edit mode.
    pub fn enter_edit_mode(&mut self)
        ensures
            *final(self) == (RutuduList { input_mode: InputMode::Edit, ..*old(self) }),
    {
        self.input_mode = InputMode::Edit;
    }

    /// Enter save mode.
    pub fn enter_save_mode(&mut self)
        ensures
            *final(self) == (RutuduList { input_mode: InputMode::Save, ..*old(self) }),
    {
        self.input_mode = InputMode::Save;
    }

    /// Enter quit-confirmation mode.
    pub fn enter_quit_mode(&mut self)
        ensures
            *final(self) == (RutuduList { input_mode: InputMode::Quit, ..*old(self) }),
    {
        self.input_mode = InputMode::Quit;
    }

    /// Enter file-open mode.
    pub fn enter_open_mode(&mut self)
        ensures
            *final(self) == (RutuduList { input_mode: InputMode::Open, ..*old(self) }),
    {
        self.input_mode = InputMode::Open;
    }

    /// Enter one of the insert modes (or any other mode the caller picks).
    pub fn enter_insert_mode(&mut self, mode: InputMode)
        ensures
            *final(self) == (RutuduList { input_mode: mode, ..*old(self) }),
    {
        self.input_mode = mode;
    }

    /// Record that the list was persisted: clear the unsaved flag and go
    /// back to edit mode.
    pub fn mark_saved(&mut self)
        ensures
            *final(self) == (RutuduList {
                input_mode: InputMode::Edit,
                unsaved: false,
                ..*old(self)
            }),
    {
        self.unsaved = false;
        self.enter_edit_mode();
    }

    /// Move the display selection one entry down.
    pub fn down(&mut self)
        ensures
            final(self).input_mode == old(self).input_mode,
            final(self).item_tree == old(self).item_tree,
            final(self).dirty_list == old(self).dirty_list,
            final(self).unsaved == old(self).unsaved,
            final(self).items.items == old(self).items.items,
            old(self).items.items@.len() == 0 ==> final(self).items.selected == old(self).items.selected,
            old(self).items.items@.len() > 0 ==> final(self).items.selected == Some(
                match old(self).items.selected {
                    Some(i) => if i >= old(self).items.items@.len() - 1 {
                        0usize
                    } else {
                        (i + 1) as usize
                    },
                    None => 0usize,
                },
            ),
    {
        self.items.next();
    }

    /// Move the display selection one entry up.
    pub fn up(&mut self)
        ensures
            final(self).input_mode == old(self).input_mode,
            final(self).item_tree == old(self).item_tree,
            final(self).dirty_list == old(self).dirty_list,
            final(self).unsaved == old(self).unsaved,
            final(self).items.items == old(self).items.items,
            old(self).items.items@.len() == 0 ==> final(self).items.selected == old(self).items.selected,
            old(self).items.items@.len() > 0 ==> final(self).items.selected == Some(
                match old(self).items.selected {
                    Some(i) => if i == 0 {
                        (old(self).items.items@.len() - 1) as usize
                    } else {
                        (i - 1) as usize
                    },
                    None => 0usize,
                },
            ),
    {
        self.items.previous();
    }

    /// The number of items in the list, shown or hidden.
    pub fn size(&self) -> (n: usize)
        requires
            self.wf(),
        ensures
            n == self.item_tree.total(),
    {
        self.item_tree.count_items()
    }

    /// The greatest id in use, or 0 for an empty list; ids for new items
    /// are allocated as `get_max_id() + 1`.
    pub fn get_max_id(&self) -> (m: u32)
        ensures
            forall|x: u32| has_id(self.item_tree.buckets@, x) ==> x <= m,
            m != 0 ==> has_id(self.item_tree.buckets@, m),
    {
        self.item_tree.max_id()
    }

    /// The flattened subtree below `parent_id`, each entry at its recomputed
    /// depth starting from `depth`. Pure: the model is not changed, and two
    /// calls on one state return the same run.
    pub fn get_subtree_vec(&self, parent_id: u32, depth: usize) -> (r: Vec<Item>)
        requires
            self.wf(),
            depth + self.item_tree.total() + 1 <= usize::MAX,
        ensures
            r@ == flatten_bucket(
                self.item_tree.buckets@,
                parent_id,
                depth as int,
                self.item_tree.total() + 1,
            ),
    {
        let fuel = self.item_tree.count_items() + 1;
        flatten_from(&self.item_tree, parent_id, depth, fuel)
    }

    /// Rebuild the display list from the forest and clear the dirty flag:
    /// the display is always the flatten projection of the forest, empty
    /// for an empty forest.
    pub fn rebuild_list(&mut self)
        requires
            old(self).wf(),
        ensures
            final(self).wf(),
            final(self).item_tree == old(self).item_tree,
            final(self).input_mode == old(self).input_mode,
            final(self).unsaved == old(self).unsaved,
            final(self).items.selected == old(self).items.selected,
            !final(self).dirty_list,
            final(self).items.items@ == flat_display(old(self).item_tree),
    {
        self.dirty_list = false;
        let root_items = self.get_subtree_vec(0, 0);
        self.items.items = root_items;
    }

    /// Rebuild the display list only when the dirty flag is set.
    pub fn rebuild_list_if_dirty(&mut self)
        requires
            old(self).wf(),
        ensures
            final(self).wf(),
            final(self).item_tree == old(self).item_tree,
            final(self).input_mode == old(self).input_mode,
            final(self).unsaved == old(self).unsaved,
            final(self).items.selected == old(self).items.selected,
            !old(self).dirty_list ==> *final(self) == *old(self),
            old(self).dirty_list ==> {
                &&& !final(self).dirty_list
                &&& final(self).items.items@ == flat_display(old(self).item_tree)
            },
    {
        if self.dirty_list {
            self.rebuild_list();
        }
    }

    /// Rebuild the display list and point the selection at the entry whose
    /// id is `id_to_select`, or at the top when no entry carries it.
    fn select_item(&mut self, id_to_select: u32)
        requires
            old(self).wf(),
        ensures
            final(self).wf(),
            final(self).item_tree == old(self).item_tree,
            final(self).input_mode == old(self).input_mode,
            final(self).unsaved == old(self).unsaved,
            !final(self).dirty_list,
            final(self).items.items@ == flat_display(old(self).item_tree),
            selected_points_at(*final(self), id_to_select),
    {
        self.rebuild_list();
        let n = self.items.items.len();
        let mut i: usize = 0;
        let mut found = false;
        while i < n && !found
            invariant
                n == self.items.items@.len(),
                i <= n,
                !found ==> forall|l: int| 0 <= l < i ==> self.items.items@[l].id != id_to_select,
                found ==> i < n && self.items.items@[i as int].id == id_to_select && (forall|l: int|
                    0 <= l < i ==> self.items.items@[l].id != id_to_select),
            decreases n - i + (if found { 0int } else { 1int }),
        {
            if self.items.items[i].id == id_to_select {
                found = true;
            } else {
                i = i + 1;
            }
        }
        if found {
            self.items.selected = Some(i);
        } else {
            self.items.selected = Some(0);
        }
    }

    /// Lower the expansion of the item under the selection, twice when it
    /// has no children; acts on the authoritative forest copy and marks the
    /// display dirty. Out-of-range selections change nothing.
    pub fn collapse_selected(&mut self)
        requires
            old(self).wf(),
        ensures
            final(self).wf(),
            old(self).selected_entry() is None ==> *final(self) == *old(self),
            match old(self).selected_entry() {
                Some(e) => ({
                let cs = old(self).item_tree.children(e.parent_id);
                let kids = old(self).item_tree.children(e.id).len();
                &&& final(self).input_mode == old(self).input_mode
                &&& final(self).unsaved == old(self).unsaved
                &&& final(self).items == old(self).items
                &&& final(self).dirty_list
                &&& (forall|k: u32|
                    k != e.parent_id ==> final(self).item_tree.children(k) == old(self).item_tree.children(k))
                &&& (forall|x: u32| final(self).item_tree.idc(x) == old(self).item_tree.idc(x))
                &&& final(self).item_tree.total() == old(self).item_tree.total()
                &&& (forall|j: int|
                    0 <= j < cs.len() && cs[j].id == e.id ==> final(self).item_tree.children(
                        e.parent_id,
                    ) == cs.update(j, step_collapsed(cs[j], kids)))
                &&& ((forall|j: int| 0 <= j < cs.len() ==> cs[j].id != e.id) ==> final(self).item_tree == old(self).item_tree)
                }),
                None => true,
            },
    {
        let si = match self.items.selected {
            Some(i) => i,
            None => {
                return ;
            },
        };
        if si >= self.items.items.len() {
            return;
        }
        let pid = self.items.items[si].parent_id;
        let iid = self.items.items[si].id;
        let kids = self.item_tree.child_count(iid);
        let ghost cs = self.item_tree.children(pid);
        match self.item_tree.index_of_id(pid, iid) {
            Some(j) => {
                let mut it = self.item_tree.item_at(pid, j);
                proof {
                    lemma_child_parent(old(self).item_tree.buckets@, pid);
                }
                it.collapse();
                if kids == 0 {
                    it.collapse();
                }
                proof {
                    assert(it == step_collapsed(cs[j as int], old(self).item_tree.children(
                        iid,
                    ).len()));
                }
                self.item_tree.replace_item(pid, j, it);
                proof {
                    lemma_children_unique(old(self).item_tree.buckets@, pid);
                    assert forall|l: int|
                        0 <= l < cs.len() && cs[l].id == iid implies self.item_tree.children(pid) == cs.update(
                        l,
                        step_collapsed(cs[l], old(self).item_tree.children(iid).len()),
                    ) by {
                        if l < j as int {
                            assert(cs[l].id != cs[j as int].id);
                        } else if l > j as int {
                            assert(cs[j as int].id != cs[l].id);
                        }
                    }
                }
            },
            None => {},
        }
        self.dirty_list = true;
    }

    /// Raise the expansion of the item under the selection, twice when it
    /// has no children; acts on the authoritative forest copy and marks the
    /// display dirty. Out-of-range selections change nothing.
    pub fn expand_selected(&mut self)
        requires
            old(self).wf(),
        ensures
            final(self).wf(),
            old(self).selected_entry() is None ==> *final(self) == *old(self),
            match old(self).selected_entry() {
                Some(e) => ({
                let cs = old(self).item_tree.children(e.parent_id);
                let kids = old(self).item_tree.children(e.id).len();
                &&& final(self).input_mode == old(self).input_mode
                &&& final(self).unsaved == old(self).unsaved
                &&& final(self).items == old(self).items
                &&& final(self).dirty_list
                &&& (forall|k: u32|
                    k != e.parent_id ==> final(self).item_tree.children(k) == old(self).item_tree.children(k))
                &&& (forall|x: u32| final(self).item_tree.idc(x) == old(self).item_tree.idc(x))
                &&& final(self).item_tree.total() == old(self).item_tree.total()
                &&& (forall|j: int|
                    0 <= j < cs.len() && cs[j].id == e.id ==> final(self).item_tree.children(
                        e.parent_id,
                    ) == cs.update(j, step_expanded(cs[j], kids)))
                &&& ((forall|j: int| 0 <= j < cs.len() ==> cs[j].id != e.id) ==> final(self).item_tree == old(self).item_tree)
                }),
                None => true,
            },
    {
        let si = match self.items.selected {
            Some(i) => i,
            None => {
                return ;
            },
        };
        if si >= self.items.items.len() {
            return;
        }
        let pid = self.items.items[si].parent_id;
        let iid = self.items.items[si].id;
        let kids = self.item_tree.child_count(iid);
        let ghost cs = self.item_tree.children(pid);
        match self.item_tree.index_of_id(pid, iid) {
            Some(j) => {
                let mut it = self.item_tree.item_at(pid, j);
                proof {
                    lemma_child_parent(old(self).item_tree.buckets@, pid);
                }
                it.expand();
                if kids == 0 {
                    it.expand();
                }
                proof {
                    assert(it == step_expanded(cs[j as int], old(self).item_tree.children(
                        iid,
                    ).len()));
                }
                self.item_tree.replace_item(pid, j, it);
                proof {
                    lemma_children_unique(old(self).item_tree.buckets@, pid);
                    assert forall|l: int|
                        0 <= l < cs.len() && cs[l].id == iid implies self.item_tree.children(pid) == cs.update(
                        l,
                        step_expanded(cs[l], old(self).item_tree.children(iid).len()),
                    ) by {
                        if l < j as int {
                            assert(cs[l].id != cs[j as int].id);
                        } else if l > j as int {
                            assert(cs[j as int].id != cs[l].id);
                        }
                    }
                }
            },
            None => {},
        }
        self.dirty_list = true;
    }

    /// Flip the completion state of the item under the selection, in both
    /// the display copy and the authoritative forest copy, and mark the
    /// list unsaved. Out-of-range selections change nothing.
    pub fn toggle_selected_item_completion_status(&mut self)
        requires
            old(self).wf(),
        ensures
            final(self).wf(),
            old(self).selected_entry() is None ==> *final(self) == *old(self),
            match old(self).selected_entry() {
                Some(e) => ({
                let si = old(self).items.selected->0 as int;
                let cs = old(self).item_tree.children(e.parent_id);
                &&& final(self).input_mode == old(self).input_mode
                &&& final(self).dirty_list == old(self).dirty_list
                &&& final(self).unsaved
                &&& final(self).items.selected == old(self).items.selected
                &&& final(self).items.items@ == old(self).items.items@.update(
                    si,
                    with_complete(e, toggled(e.complete)),
                )
                &&& (forall|k: u32|
                    k != e.parent_id ==> final(self).item_tree.children(k) == old(self).item_tree.children(k))
                &&& (forall|x: u32| final(self).item_tree.idc(x) == old(self).item_tree.idc(x))
                &&& final(self).item_tree.total() == old(self).item_tree.total()
                &&& (forall|j: int|
                    0 <= j < cs.len() && cs[j].id == e.id ==> final(self).item_tree.children(
                        e.parent_id,
                    ) == cs.update(j, with_complete(cs[j], toggled(cs[j].complete))))
                &&& ((forall|j: int| 0 <= j < cs.len() ==> cs[j].id != e.id) ==> final(self).item_tree == old(self).item_tree)
                }),
                None => true,
            },
    {
        let si = match self.items.selected {
            Some(i) => i,
            None => {
                return ;
            },
        };
        if si >= self.items.items.len() {
            return;
        }
        let pid = self.items.items[si].parent_id;
        let iid = self.items.items[si].id;
        let mut li = self.items.items[si].clone();
        li.toggle_complete_status();
        self.items.items[si] = li;
        let ghost cs = self.item_tree.children(pid);
        match self.item_tree.index_of_id(pid, iid) {
            Some(j) => {
                let mut it = self.item_tree.item_at(pid, j);
                proof {
                    lemma_child_parent(old(self).item_tree.buckets@, pid);
                }
                it.toggle_complete_status();
                proof {
                    assert(it == with_complete(cs[j as int], toggled(cs[j as int].complete)));
                }
                self.item_tree.replace_item(pid, j, it);
                proof {
                    lemma_children_unique(old(self).item_tree.buckets@, pid);
                    assert forall|l: int|
                        0 <= l < cs.len() && cs[l].id == iid implies self.item_tree.children(pid) == cs.update(
                        l,
                        with_complete(cs[l], toggled(cs[l].complete)),
                    ) by {
                        if l < j as int {
                            assert(cs[l].id != cs[j as int].id);
                        } else if l > j as int {
                            assert(cs[j as int].id != cs[l].id);
                        }
                    }
                }
            },
            None => {},
        }
        self.unsaved = true;
    }

    /// Flip the visual mark of the item under the selection, in both the
    /// display copy and the forest copy. Purely visual: no structural
    /// change, and the list is not marked unsaved. Out-of-range selections
    /// change nothing.
    pub fn mark_selected_item(&mut self)
        requires
            old(self).wf(),
        ensures
            final(self).wf(),
            old(self).selected_entry() is None ==> *final(self) == *old(self),
            match old(self).selected_entry() {
                Some(e) => ({
                let si = old(self).items.selected->0 as int;
                let cs = old(self).item_tree.children(e.parent_id);
                &&& final(self).input_mode == old(self).input_mode
                &&& final(self).dirty_list == old(self).dirty_list
                &&& final(self).unsaved == old(self).unsaved
                &&& final(self).items.selected == old(self).items.selected
                &&& final(self).items.items@ == old(self).items.items@.update(
                    si,
                    with_mark_flipped(e),
                )
                &&& (forall|k: u32|
                    k != e.parent_id ==> final(self).item_tree.children(k) == old(self).item_tree.children(k))
                &&& (forall|x: u32| final(self).item_tree.idc(x) == old(self).item_tree.idc(x))
                &&& final(self).item_tree.total() == old(self).item_tree.total()
                &&& (forall|j: int|
                    0 <= j < cs.len() && cs[j].id == e.id ==> final(self).item_tree.children(
                        e.parent_id,
                    ) == cs.update(j, with_mark_flipped(cs[j])))
                &&& ((forall|j: int| 0 <= j < cs.len() ==> cs[j].id != e.id) ==> final(self).item_tree == old(self).item_tree)
                }),
                None => true,
            },
    {
        let si = match self.items.selected {
            Some(i) => i,
            None => {
                return ;
            },
        };
        if si >= self.items.items.len() {
            return;
        }
        let pid = self.items.items[si].parent_id;
        let iid = self.items.items[si].id;
        let mut li = self.items.items[si].clone();
        li.tracking_time = !li.tracking_time;
        self.items.items[si] = li;
        let ghost cs = self.item_tree.children(pid);
        match self.item_tree.index_of_id(pid, iid) {
            Some(j) => {
                let mut it = self.item_tree.item_at(pid, j);
                proof {
                    lemma_child_parent(old(self).item_tree.buckets@, pid);
                }
                it.tracking_time = !it.tracking_time;
                proof {
                    assert(it == with_mark_flipped(cs[j as int]));
                }
                self.item_tree.replace_item(pid, j, it);
                proof {
                    lemma_children_unique(old(self).item_tree.buckets@, pid);
                    assert forall|l: int|
                        0 <= l < cs.len() && cs[l].id == iid implies self.item_tree.children(pid) == cs.update(
                        l,
                        with_mark_flipped(cs[l]),
                    ) by {
                        if l < j as int {
                            assert(cs[l].id != cs[j as int].id);
                        } else if l > j as int {
                            assert(cs[j as int].id != cs[l].id);
                        }
                    }
                }
            },
            None => {},
        }
    }


    /// Flip the completion state of the item under the selection and set
    /// every direct child (one level deep) to that same resulting state.
    /// Marks the list unsaved and the display dirty. Out-of-range
    /// selections change nothing.
    pub fn toggle_selected_item_and_children_completion_status(&mut self)
        requires
            old(self).wf(),
        ensures
            final(self).wf(),
            old(self).selected_entry() is None ==> *final(self) == *old(self),
            match old(self).selected_entry() {
                Some(e) => ({
                let si = old(self).items.selected->0 as int;
                let cs = old(self).item_tree.children(e.parent_id);
                let ks = old(self).item_tree.children(e.id);
                &&& final(self).input_mode == old(self).input_mode
                &&& final(self).dirty_list
                &&& final(self).unsaved
                &&& final(self).items.selected == old(self).items.selected
                &&& final(self).items.items@ == old(self).items.items@.update(
                    si,
                    with_complete(e, toggled(e.complete)),
                )
                &&& (forall|k: u32|
                    k != e.parent_id && k != e.id ==> final(self).item_tree.children(k) == old(self).item_tree.children(k))
                &&& (forall|x: u32| final(self).item_tree.idc(x) == old(self).item_tree.idc(x))
                &&& final(self).item_tree.total() == old(self).item_tree.total()
                &&& (e.parent_id != e.id ==> (forall|j: int|
                    0 <= j < cs.len() && cs[j].id == e.id ==> final(self).item_tree.children(
                        e.parent_id,
                    ) == cs.update(j, with_complete(cs[j], toggled(cs[j].complete)))))
                &&& (e.parent_id != e.id ==> (forall|j: int|
                    0 <= j < cs.len() && cs[j].id == e.id ==> final(self).item_tree.children(e.id)
                        == Seq::new(
                        ks.len(),
                        (|l: int| with_complete(ks[l], toggled(cs[j].complete))),
                    )))
                &&& (e.parent_id != e.id && (forall|j: int|
                    0 <= j < cs.len() ==> cs[j].id != e.id) ==> final(self).item_tree.children(
                    e.id,
                ) == Seq::new(ks.len(), (|l: int| with_complete(ks[l], toggled(e.complete)))))
                &&& (e.parent_id != e.id && (forall|j: int|
                    0 <= j < cs.len() ==> cs[j].id != e.id) ==> final(self).item_tree.children(
                    e.parent_id,
                ) == cs)
                }),
                None => true,
            },
    {
        let si = match self.items.selected {
            Some(i) => i,
            None => {
                return ;
            },
        };
        if si >= self.items.items.len() {
            return;
        }
        let pid = self.items.items[si].parent_id;
        let iid = self.items.items[si].id;
        let mut li = self.items.items[si].clone();
        li.toggle_complete_status();
        let mut target = li.complete;
        proof {
            assert(li == with_complete(
                old(self).items.items@[si as int],
                toggled(old(self).items.items@[si as int].complete),
            ));
        }
        self.items.items[si] = li;
        proof {
            assert(self.items.items@ =~= old(self).items.items@.update(
                si as int,
                with_complete(
                    old(self).items.items@[si as int],
                    toggled(old(self).items.items@[si as int].complete),
                ),
            ));
        }
        let ghost cs = self.item_tree.children(pid);
        let ghost mut sel_match: Option<int> = None;
        match self.item_tree.index_of_id(pid, iid) {
            Some(j) => {
                proof {
                    sel_match = Some(j as int);
                }
                let mut it = self.item_tree.item_at(pid, j);
                proof {
                    lemma_child_parent(old(self).item_tree.buckets@, pid);
                }
                it.toggle_complete_status();
                target = it.complete;
                proof {
                    assert(it == with_complete(cs[j as int], toggled(cs[j as int].complete)));
                }
                self.item_tree.replace_item(pid, j, it);
                proof {
                    lemma_children_unique(old(self).item_tree.buckets@, pid);
                    assert forall|l: int|
                        0 <= l < cs.len() && cs[l].id == iid implies self.item_tree.children(pid) == cs.update(
                        l,
                        with_complete(cs[l], toggled(cs[l].complete)),
                    ) by {
                        if l < j as int {
                            assert(cs[l].id != cs[j as int].id);
                        } else if l > j as int {
                            assert(cs[j as int].id != cs[l].id);
                        }
                    }
                }
            },
            None => {},
        }
        if pid != iid {
            let ghost tsnap = self.item_tree;
            let ghost presnap = *self;
            let ghost ks = old(self).item_tree.children(iid);
            proof {
                assert(tsnap.children(iid) == ks);
                lemma_child_parent(tsnap.buckets@, iid);
            }
            let k = self.item_tree.child_count(iid);
            let mut j2: usize = 0;
            while j2 < k
                invariant
                    self.items == presnap.items,
                    self.input_mode == presnap.input_mode,
                    self.unsaved == presnap.unsaved,
                    self.dirty_list == presnap.dirty_list,
                    self.item_tree.wf(),
                    pid != iid,
                    k == ks.len(),
                    j2 <= k,
                    self.item_tree.children(iid).len() == k,
                    forall|l: int|
                        0 <= l < j2 ==> self.item_tree.children(iid)[l] == with_complete(
                            ks[l],
                            target,
                        ),
                    forall|l: int| j2 <= l < k ==> self.item_tree.children(iid)[l] == ks[l],
                    forall|k2: u32|
                        k2 != iid ==> self.item_tree.children(k2) == tsnap.children(k2),
                    forall|x: u32| self.item_tree.idc(x) == tsnap.idc(x),
                    self.item_tree.total() == tsnap.total(),
                decreases k - j2,
            {
                let mut c = self.item_tree.item_at(iid, j2);
                proof {
                    lemma_child_parent(self.item_tree.buckets@, iid);
                }
                c.complete = target;
                proof {
                    assert(c == with_complete(ks[j2 as int], target));
                }
                self.item_tree.replace_item(iid, j2, c);
                j2 = j2 + 1;
            }
            proof {
                assert(self.item_tree.children(iid) =~= Seq::new(
                    ks.len(),
                    (|l: int| with_complete(ks[l], target)),
                ));
                lemma_children_unique(old(self).item_tree.buckets@, pid);
                match sel_match {
                    Some(j0) => {
                        assert(0 <= j0 < cs.len() && cs[j0].id == iid);
                        assert(target == toggled(cs[j0].complete));
                        assert forall|j: int|
                            0 <= j < cs.len() && cs[j].id == iid implies self.item_tree.children(
                            iid,
                        ) == Seq::new(
                            ks.len(),
                            (|l: int| with_complete(ks[l], toggled(cs[j].complete))),
                        ) by {
                            if j < j0 {
                                assert(cs[j].id != cs[j0].id);
                            } else if j > j0 {
                                assert(cs[j0].id != cs[j].id);
                            }
                            assert(Seq::new(
                                ks.len(),
                                (|l: int| with_complete(ks[l], toggled(cs[j].complete))),
                            ) =~= Seq::new(ks.len(), (|l: int| with_complete(ks[l], target))));
                        }
                    },
                    None => {
                        assert(target == toggled(old(self).items.items@[si as int].complete));
                        assert(Seq::new(
                            ks.len(),
                            (|l: int| with_complete(
                                ks[l],
                                toggled(old(self).items.items@[si as int].complete),
                            )),
                        ) =~= Seq::new(ks.len(), (|l: int| with_complete(ks[l], target))));
                    },
                }
            }
        }
        self.unsaved = true;
        self.dirty_list = true;
    }

    /// Soft delete: remove the item with id `item_id` from the bucket keyed
    /// `grand_parent_id` and re-parent its direct children to that key,
    /// appending them to the grandparent's bucket in their old order.
    pub fn delete_item(&mut self, grand_parent_id: u32, item_id: u32)
        requires
            old(self).wf(),
        ensures
            final(self).wf(),
            final(self).input_mode == old(self).input_mode,
            final(self).unsaved == old(self).unsaved,
            final(self).items == old(self).items,
            final(self).dirty_list,
            delete_outcome(
                old(self).item_tree,
                final(self).item_tree,
                grand_parent_id,
                item_id,
            ),
    {
        let ghost pre = self.item_tree;
        let ghost cs = pre.children(grand_parent_id);
        let ghost mut removed: Option<int> = None;
        match self.item_tree.index_of_id(grand_parent_id, item_id) {
            Some(j) => {
                proof {
                    removed = Some(j as int);
                }
                self.item_tree.take_item(grand_parent_id, j);
            },
            None => {},
        }
        let ghost st1 = self.item_tree;
        let kids = self.item_tree.children_of(item_id);
        let ghost kseq = kids@;
        proof {
            lemma_children_unique(st1.buckets@, item_id);
            lemma_child_parent(st1.buckets@, item_id);
            lemma_counts_from_wf(st1.buckets@);
        }
        self.item_tree.drop_bucket(item_id);
        let ghost st2 = self.item_tree;
        let ghost base = st2.children(grand_parent_id);
        proof {
            assert forall|l: int| 0 <= l < kseq.len() implies st2.idc(kseq[l].id) == 0 by {
                lemma_id_at_position(kseq, l);
                assert(st1.idc(kseq[l].id) <= 1);
                assert(st2.idc(kseq[l].id) + item_ids(st1.children(item_id)).to_multiset().count(
                    kseq[l].id,
                ) == st1.idc(kseq[l].id));
            }
        }
        let ghost presnap = *self;
        let n = kids.len();
        let mut l: usize = 0;
        while l < n
            invariant
                self.items == presnap.items,
                self.input_mode == presnap.input_mode,
                self.unsaved == presnap.unsaved,
                self.dirty_list == presnap.dirty_list,
                self.item_tree.wf(),
                n == kseq.len(),
                kids@ == kseq,
                l <= n,
                forall|l1: int, l2: int| 0 <= l1 < l2 < n ==> kseq[l1].id != kseq[l2].id,
                forall|l1: int| 0 <= l1 < n ==> (#[trigger] kseq[l1]).id != 0,
                self.item_tree.children(grand_parent_id) == base + reparented(
                    kseq.take(l as int),
                    grand_parent_id,
                ),
                forall|k: u32|
                    k != grand_parent_id ==> self.item_tree.children(k) == st2.children(k),
                forall|l1: int|
                    l <= l1 < n ==> self.item_tree.idc((#[trigger] kseq[l1]).id) == 0,
                self.item_tree.total() == st2.total() + l,
                st2.total() + n <= pre.total(),
                pre.total() < usize::MAX,
            decreases n - l,
        {
            let mut c = kids[l].clone();
            c.parent_id = grand_parent_id;
            let cnt = self.item_tree.child_count(grand_parent_id);
            self.item_tree.put_item(grand_parent_id, cnt, c);
            proof {
                assert(c == with_parent(kseq[l as int], grand_parent_id));
                assert(self.item_tree.children(grand_parent_id) =~= base + reparented(
                    kseq.take(l + 1),
                    grand_parent_id,
                ));
                assert forall|l1: int|
                    l + 1 <= l1 < n implies self.item_tree.idc((#[trigger] kseq[l1]).id) == 0 by {
                    assert(kseq[l as int].id != kseq[l1].id);
                }
            }
            l = l + 1;
        }
        self.dirty_list = true;
        proof {
            assert(kseq.take(n as int) =~= kseq);
            lemma_children_unique(pre.buckets@, grand_parent_id);
            if grand_parent_id != item_id {
                match removed {
                    Some(j0) => {
                        assert(kseq == pre.children(item_id));
                        assert forall|j: int|
                            0 <= j < cs.len() && cs[j].id == item_id implies self.item_tree.children(
                            grand_parent_id,
                        ) == cs.remove(j) + reparented(kseq, grand_parent_id)
                            && self.item_tree.total() + 1 == pre.total() by {
                            if j < j0 {
                                assert(cs[j].id != cs[j0].id);
                            } else if j > j0 {
                                assert(cs[j0].id != cs[j].id);
                            }
                        }
                    },
                    None => {
                        assert(base == cs);
                        assert(kseq == pre.children(item_id));
                    },
                }
            } else {
                match removed {
                    Some(j0) => {
                        assert(kseq == cs.remove(j0));
                        assert(base =~= Seq::<Item>::empty());
                        assert forall|j: int|
                            0 <= j < cs.len() && cs[j].id == item_id implies self.item_tree.children(
                            grand_parent_id,
                        ) == cs.remove(j) && self.item_tree.total() + 1 == pre.total() by {
                            if j < j0 {
                                assert(cs[j].id != cs[j0].id);
                            } else if j > j0 {
                                assert(cs[j0].id != cs[j].id);
                            }
                            lemma_child_parent(pre.buckets@, grand_parent_id);
                            assert(self.item_tree.children(grand_parent_id) =~= cs.remove(j0));
                        }
                    },
                    None => {
                        assert(kseq == cs);
                        assert(base =~= Seq::<Item>::empty());
                        lemma_child_parent(pre.buckets@, grand_parent_id);
                        assert(self.item_tree.children(grand_parent_id) =~= cs);
                    },
                }
            }
        }
    }


    /// Soft-delete the item under the selection: its children are
    /// re-parented to its own parent. Nothing selected, or a selection
    /// outside the display list, changes nothing.
    pub fn delete_selected(&mut self)
        requires
            old(self).wf(),
        ensures
            final(self).wf(),
            old(self).selected_entry() is None ==> *final(self) == *old(self),
            match old(self).selected_entry() {
                Some(e) => {
                    &&& final(self).input_mode == old(self).input_mode
                    &&& final(self).unsaved == old(self).unsaved
                    &&& final(self).items == old(self).items
                    &&& final(self).dirty_list
                    &&& delete_outcome(
                        old(self).item_tree,
                        final(self).item_tree,
                        e.parent_id,
                        e.id,
                    )
                },
                None => true,
            },
    {
        let i = match self.items.selected {
            Some(index) => index,
            None => {
                return ;
            },
        };
        if i >= self.items.items.len() {
            return ;
        }
        let item_id = self.items.items[i].id;
        let grand_parent_id = self.items.items[i].parent_id;
        self.delete_item(grand_parent_id, item_id);
    }

    /// Hard-delete the item under the selection: the item leaves its
    /// parent's bucket and the bucket of its direct children is dropped
    /// outright. Nothing selected, or a selection outside the display
    /// list, changes nothing.
    pub fn erase_selected(&mut self)
        requires
            old(self).wf(),
        ensures
            final(self).wf(),
            old(self).selected_entry() is None ==> *final(self) == *old(self),
            match old(self).selected_entry() {
                Some(e) => {
                    &&& final(self).input_mode == old(self).input_mode
                    &&& final(self).unsaved == old(self).unsaved
                    &&& final(self).items == old(self).items
                    &&& final(self).dirty_list
                    &&& erase_outcome(
                        old(self).item_tree,
                        final(self).item_tree,
                        e.parent_id,
                        e.id,
                    )
                },
                None => true,
            },
    {
        let i = match self.items.selected {
            Some(index) => index,
            None => {
                return ;
            },
        };
        if i >= self.items.items.len() {
            return ;
        }
        let item_id = self.items.items[i].id;
        let parent_id = self.items.items[i].parent_id;
        let ghost pre = self.item_tree;
        let ghost cs = pre.children(parent_id);
        let ghost ks = pre.children(item_id);
        proof {
            lemma_counts_from_wf(pre.buckets@);
            lemma_children_unique(pre.buckets@, parent_id);
        }
        self.item_tree.drop_bucket(item_id);
        let ghost st1 = self.item_tree;
        match self.item_tree.index_of_id(parent_id, item_id) {
            Some(j) => {
                self.item_tree.take_item(parent_id, j);
                proof {
                    if parent_id != item_id {
                        assert(st1.children(parent_id) == cs);
                        assert forall|l: int|
                            0 <= l < cs.len() && cs[l].id == item_id implies self.item_tree.children(
                            parent_id,
                        ) == cs.remove(l) && self.item_tree.total() + ks.len() + 1 == pre.total()
                            by {
                            if l < j as int {
                                assert(cs[l].id != cs[j as int].id);
                            } else if l > j as int {
                                assert(cs[j as int].id != cs[l].id);
                            }
                        }
                    }
                }
            },
            None => {},
        }
        self.dirty_list = true;
    }


    /// Insert a new item relative to the current selection, as the insert
    /// mode directs: at the root, as a child (forcing the selected item to
    /// show its children), as a sibling placed right after the selected
    /// item, or as a parent spliced in above it. The item's id must be
    /// fresh and positive, the display is rebuilt, and the selection moves
    /// to the new item. An item that already carries a parent link keeps
    /// it. A blocked insert, or an as-parent insert without a usable
    /// selection, changes nothing.
    #[verifier::rlimit(100)]
    #[verifier::spinoff_prover]
    pub fn insert_item(&mut self, item: &mut Item)
        requires
            old(self).wf(),
        ensures
            final(self).wf(),
            ({
                let m = old(self).input_mode;
                let origp = old(item).parent_id;
                let sel = old(self).selected_entry();
                if m == InputMode::InsertParent && origp == 0 {
                    match sel {
                        None => *final(self) == *old(self) && *final(item) == *old(item),
                        Some(e) => {
                            let csel = old(self).item_tree.children(e.parent_id);
                            &&& ((forall|j: int| 0 <= j < csel.len() ==> csel[j].id != e.id)
                                ==> *final(self) == *old(self) && *final(item) == *old(item))
                            &&& (insert_blocked(*old(self), *old(item)) && (exists|j: int|
                                0 <= j < csel.len() && csel[j].id == e.id) ==> *final(self)
                                == *old(self) && *final(item) == *old(item))
                            &&& (!insert_blocked(*old(self), *old(item)) ==> (forall|j: int|
                                0 <= j < csel.len() && csel[j].id == e.id && old(item).id
                                    != e.parent_id ==> {
                                    &&& final(self).item_tree.children(e.parent_id) == csel.update(
                                        j,
                                        parent_stored(*old(item), e.parent_id),
                                    )
                                    &&& final(self).item_tree.children(old(item).id) == old(self).item_tree.children(old(item).id).insert(
                                        0,
                                        with_parent(csel[j], old(item).id),
                                    )
                                    &&& (forall|k: u32|
                                        k != e.parent_id && k != old(item).id ==> final(self).item_tree.children(k) == old(self).item_tree.children(
                                            k,
                                        ))
                                    &&& final(self).item_tree.total() == old(self).item_tree.total()
                                        + 1
                                    &&& final(self).item_tree.idc(old(item).id) == 1
                                    &&& final(self).dirty_list
                                    &&& final(self).unsaved
                                    &&& final(self).input_mode == old(self).input_mode
                                    &&& *final(item) == with_parent(*old(item), e.parent_id)
                                    &&& final(self).items.items@ == flat_display(
                                        final(self).item_tree,
                                    )
                                    &&& selected_points_at(*final(self), old(item).id)
                                }))
                        },
                    }
                } else {
                    let p = insert_target(*old(self), origp);
                    let cs = old(self).item_tree.children(p);
                    &&& (insert_blocked(*old(self), *old(item)) ==> *final(self) == *old(self)
                        && *final(item) == *old(item))
                    &&& (!insert_blocked(*old(self), *old(item)) ==> {
                        let stored = stored_insert(*old(item), p, cs.len());
                        &&& *final(item) == with_parent(*old(item), p)
                        &&& final(self).dirty_list
                        &&& final(self).unsaved
                        &&& final(self).input_mode == old(self).input_mode
                        &&& final(self).items.items@ == flat_display(final(self).item_tree)
                        &&& selected_points_at(*final(self), old(item).id)
                        &&& final(self).item_tree.total() == old(self).item_tree.total() + 1
                        &&& final(self).item_tree.idc(old(item).id) == 1
                        &&& (forall|x: u32|
                            x != old(item).id ==> final(self).item_tree.idc(x) == old(self).item_tree.idc(x))
                        &&& (match sel {
                            Some(e) => forall|k: u32|
                                k != p && k != e.parent_id ==> final(self).item_tree.children(k)
                                    == old(self).item_tree.children(k),
                            None => forall|k: u32|
                                k != p ==> final(self).item_tree.children(k) == old(self).item_tree.children(k),
                        })
                        &&& (m == InputMode::InsertSibling && origp == 0 && sel is Some ==> ({
                            let e = sel->0;
                            &&& (forall|j: int|
                                0 <= j < cs.len() && cs[j].id == e.id ==> final(self).item_tree.children(p) == cs.insert(j + 1, stored))
                            &&& ((forall|j: int| 0 <= j < cs.len() ==> cs[j].id != e.id) ==> final(self).item_tree.children(p) == cs.push(stored))
                        }))
                        &&& (!(m == InputMode::InsertSibling && origp == 0 && sel is Some) && !(m
                            == InputMode::InsertChild && sel is Some) ==> final(self).item_tree.children(p) == cs.push(stored))
                        &&& (m == InputMode::InsertChild && sel is Some ==> ({
                            let e = sel->0;
                            let csel = old(self).item_tree.children(e.parent_id);
                            &&& (e.parent_id != p ==> final(self).item_tree.children(p)
                                == cs.push(stored))
                            &&& (e.parent_id != p ==> (forall|j: int|
                                0 <= j < csel.len() && csel[j].id == e.id ==> final(self).item_tree.children(e.parent_id) == csel.update(
                                    j,
                                    with_shown(csel[j]),
                                )))
                            &&& (e.parent_id != p && (forall|j: int|
                                0 <= j < csel.len() ==> csel[j].id != e.id) ==> final(self).item_tree.children(e.parent_id) == csel)
                        }))
                    })
                }
            }),
    {
        let m = self.input_mode;
        let origp = item.parent_id;
        let mut sel_ok = false;
        let mut sel_id: u32 = 0;
        let mut sel_pid: u32 = 0;
        match self.items.selected {
            Some(i) => {
                if i < self.items.items.len() {
                    sel_ok = true;
                    sel_id = self.items.items[i].id;
                    sel_pid = self.items.items[i].parent_id;
                }
            },
            None => {},
        }
        proof {
            assert(sel_ok <==> old(self).selected_entry() is Some);
            if sel_ok {
                assert(sel_id == old(self).selected_entry()->0.id);
                assert(sel_pid == old(self).selected_entry()->0.parent_id);
            }
        }
        if m == InputMode::InsertParent && origp == 0 {
            if !sel_ok {
                return ;
            }
            let ghost csel = self.item_tree.children(sel_pid);
            match self.item_tree.index_of_id(sel_pid, sel_id) {
                None => {
                    return ;
                },
                Some(j) => {
                    if item.id == 0 || self.item_tree.has_item_id(item.id) {
                        return ;
                    }
                    if self.item_tree.count_items() >= usize::MAX - 1 {
                        return ;
                    }
                    proof {
                        lemma_children_unique(old(self).item_tree.buckets@, sel_pid);
                        lemma_child_parent(old(self).item_tree.buckets@, sel_pid);
                        lemma_counts_from_wf(old(self).item_tree.buckets@);
                    }
                    let old_it = self.item_tree.take_item(sel_pid, j);
                    proof {
                        assert(self.item_tree.idc(old_it.id) == 0);
                        assert(old(self).item_tree.idc(old_it.id) >= 1);
                        assert(old_it.id != old(item).id);
                    }
                    let mut newit = item.clone();
                    newit.parent_id = sel_pid;
                    newit.expand = ExpandStatus::ShowChildren;
                    newit.order = 0;
                    proof {
                        assert(newit == parent_stored(*old(item), sel_pid));
                    }
                    self.item_tree.put_item(sel_pid, j, newit);
                    proof {
                        assert(self.item_tree.children(sel_pid) =~= csel.update(j as int, newit));
                    }
                    let mut old2 = old_it;
                    old2.parent_id = item.id;
                    proof {
                        assert(old2 == with_parent(csel[j as int], old(item).id));
                    }
                    self.item_tree.put_item(item.id, 0, old2);
                    item.parent_id = sel_pid;
                    self.select_item(item.id);
                    self.dirty_list = true;
                    self.unsaved = true;
                    proof {
                        if old(item).id != sel_pid {
                            assert forall|j2: int|
                                0 <= j2 < csel.len() && csel[j2].id == sel_id && old(item).id
                                    != sel_pid implies self.item_tree.children(sel_pid)
                                == csel.update(j2, parent_stored(*old(item), sel_pid)) by {
                                if j2 < j as int {
                                    assert(csel[j2].id != csel[j as int].id);
                                } else if j2 > j as int {
                                    assert(csel[j as int].id != csel[j2].id);
                                }
                            }
                        }
                    }
                },
            }
            return ;
        }
        let p = if origp != 0 {
            origp
        } else if m == InputMode::InsertChild {
            if sel_ok {
                sel_id
            } else {
                0
            }
        } else if m == InputMode::InsertSibling {
            if sel_ok {
                sel_pid
            } else {
                0
            }
        } else {
            0
        };
        proof {
            assert(p == insert_target(*old(self), origp));
        }
        if item.id == 0 || self.item_tree.has_item_id(item.id) {
            return ;
        }
        if self.item_tree.count_items() >= usize::MAX - 1 {
            return ;
        }
        item.parent_id = p;
        let ghost cs = self.item_tree.children(p);
        let cnt = self.item_tree.child_count(p);
        let order16: u16 = if cnt > (u16::MAX as usize) {
            u16::MAX
        } else {
            #[verifier::truncate] (cnt as u16)
        };
        let mut stored = item.clone();
        stored.order = order16;
        proof {
            assert(stored == stored_insert(*old(item), p, cs.len()));
        }
        let ghost mut sibpos: Option<int> = None;
        let pos = if m == InputMode::InsertSibling && origp == 0 && sel_ok {
            match self.item_tree.index_of_id(p, sel_id) {
                Some(j) => {
                    proof {
                        sibpos = Some(j as int);
                    }
                    j + 1
                },
                None => cnt,
            }
        } else {
            cnt
        };
        self.item_tree.put_item(p, pos, stored);
        proof {
            lemma_children_unique(old(self).item_tree.buckets@, p);
            if m == InputMode::InsertSibling && origp == 0 && sel_ok {
                match sibpos {
                    Some(j0) => {
                        assert forall|j: int|
                            0 <= j < cs.len() && cs[j].id == sel_id implies self.item_tree.children(
                            p,
                        ) == cs.insert(j + 1, stored) by {
                            if j < j0 {
                                assert(cs[j].id != cs[j0].id);
                            } else if j > j0 {
                                assert(cs[j0].id != cs[j].id);
                            }
                        }
                    },
                    None => {
                        assert(self.item_tree.children(p) =~= cs.push(stored));
                    },
                }
            } else {
                assert(self.item_tree.children(p) =~= cs.push(stored));
            }
        }
        let ghost mid = self.item_tree;
        if m == InputMode::InsertChild && sel_ok {
            let ghost csel = old(self).item_tree.children(sel_pid);
            match self.item_tree.index_of_id(sel_pid, sel_id) {
                Some(j2) => {
                    let mut t = self.item_tree.item_at(sel_pid, j2);
                    proof {
                        if sel_pid != p {
                            assert(self.item_tree.children(sel_pid) == csel);
                            lemma_child_parent(old(self).item_tree.buckets@, sel_pid);
                        } else {
                            lemma_child_parent(self.item_tree.buckets@, sel_pid);
                        }
                    }
                    t.show_children();
                    self.item_tree.replace_item(sel_pid, j2, t);
                    proof {
                        if sel_pid != p {
                            lemma_children_unique(old(self).item_tree.buckets@, sel_pid);
                            assert forall|j: int|
                                0 <= j < csel.len() && csel[j].id == sel_id implies self.item_tree.children(
                                sel_pid,
                            ) == csel.update(j, with_shown(csel[j])) by {
                                if j < j2 as int {
                                    assert(csel[j].id != csel[j2 as int].id);
                                } else if j > j2 as int {
                                    assert(csel[j2 as int].id != csel[j].id);
                                }
                            }
                        }
                    }
                },
                None => {
                    proof {
                        if sel_pid != p {
                            assert(self.item_tree.children(sel_pid) == csel);
                        }
                    }
                },
            }
        }
        self.select_item(item.id);
        self.dirty_list = true;
        self.unsaved = true;
    }


    /// Move the item under the selection among its siblings (`Up`/`Down`
    /// swap with wraparound), under its elder sibling (`In`), or up beside
    /// its parent (`Out`). The display is rebuilt and the selection follows
    /// the moved item. An `In` on a lone child, an `Out` at the top level,
    /// or an empty selection changes nothing.
    #[verifier::rlimit(100)]
    #[verifier::spinoff_prover]
    pub fn move_item(&mut self, dir: MoveDirection)
        requires
            old(self).wf(),
        ensures
            final(self).wf(),
            old(self).selected_entry() is None ==> *final(self) == *old(self),
            match old(self).selected_entry() {
                Some(e) => {
                    let pre = old(self).item_tree;
                    let cs = pre.children(e.parent_id);
                    let post_common = {
                        &&& final(self).input_mode == old(self).input_mode
                        &&& final(self).unsaved == old(self).unsaved
                        &&& final(self).dirty_list
                        &&& final(self).items.items@ == flat_display(final(self).item_tree)
                        &&& selected_points_at(*final(self), e.id)
                    };
                    &&& ((forall|j: int| 0 <= j < cs.len() ==> cs[j].id != e.id) ==> final(self).item_tree == pre && post_common)
                    &&& (forall|j: int|
                        0 <= j < cs.len() && cs[j].id == e.id ==> match dir {
                            MoveDirection::Up => moved_up(
                                pre,
                                final(self).item_tree,
                                e.parent_id,
                                j,
                            ) && post_common,
                            MoveDirection::Down => moved_down(
                                pre,
                                final(self).item_tree,
                                e.parent_id,
                                j,
                            ) && post_common,
                            MoveDirection::In => if cs.len() == 1 {
                                *final(self) == *old(self)
                            } else {
                                moved_in(pre, final(self).item_tree, e.parent_id, j)
                                    && post_common
                            },
                            MoveDirection::Out => if e.parent_id == 0 {
                                *final(self) == *old(self)
                            } else {
                                post_common && (has_id(pre.buckets@, e.parent_id) ==> (
                                forall|b: int, jj: int|
                                    0 <= b < pre.buckets@.len() && 0 <= jj
                                        < pre.buckets@[b].items@.len() && (
                                    #[trigger] pre.buckets@[b].items@[jj]).id == e.parent_id
                                        ==> moved_out(
                                        pre,
                                        final(self).item_tree,
                                        e.parent_id,
                                        j,
                                        pre.buckets@[b].items@[jj].parent_id,
                                    ))) && (!has_id(pre.buckets@, e.parent_id) ==> moved_out(
                                    pre,
                                    final(self).item_tree,
                                    e.parent_id,
                                    j,
                                    0,
                                ))
                            },
                        })
                },
                None => true,
            },
    {
        let i = match self.items.selected {
            Some(index) => index,
            None => {
                return ;
            },
        };
        if i >= self.items.items.len() {
            return ;
        }
        let pid = self.items.items[i].parent_id;
        let id = self.items.items[i].id;
        let gpid = self.item_tree.parent_of(pid);
        let ghost pre = self.item_tree;
        let ghost cs = pre.children(pid);
        proof {
            lemma_children_unique(pre.buckets@, pid);
            lemma_child_parent(pre.buckets@, pid);
            lemma_counts_from_wf(pre.buckets@);
        }
        match self.item_tree.index_of_id(pid, id) {
            Some(idx) => {
                let len = self.item_tree.child_count(pid);
                match dir {
                    MoveDirection::Up => {
                        let its = if idx == 0 {
                            len - 1
                        } else {
                            idx - 1
                        };
                        self.item_tree.swap_items(pid, idx, its);
                    },
                    MoveDirection::Down => {
                        let its = if idx == len - 1 {
                            0
                        } else {
                            idx + 1
                        };
                        self.item_tree.swap_items(pid, idx, its);
                    },
                    MoveDirection::In => {
                        if len == 1 {
                            return ;
                        }
                        do_move_in(&mut self.item_tree, pid, idx);
                    },
                    MoveDirection::Out => {
                        if pid == 0 {
                            return ;
                        }
                        do_move_out(&mut self.item_tree, pid, idx, gpid);
                    },
                }
            },
            None => {},
        }
        self.select_item(id);
        self.dirty_list = true;
        proof {
            lemma_children_unique(pre.buckets@, pid);
        }
    }


    /// Build a new item from the text-entry buffer: the first line becomes
    /// the title, the rest (from the newline on) the entry, and the id is
    /// allocated as one past the greatest id in use, recomputed on every
    /// call.
    pub fn get_current_input_as_item(&self, current: &str) -> (item: Item)
        requires
            self.wf(),
            !has_id(self.item_tree.buckets@, u32::MAX),
        ensures
            item.title@ == current@.take(first_newline(current@)),
            item.entry@ == current@.skip(first_newline(current@)),
            item.id >= 1,
            forall|x: u32| has_id(self.item_tree.buckets@, x) ==> x < item.id,
            item.id > 1 ==> has_id(self.item_tree.buckets@, (item.id - 1) as u32),
            item.parent_id == 0,
            item.expand == ExpandStatus::Closed,
            item.complete == CompleteStatus::Incomplete,
            item.depth == 0,
            item.order == 0,
            !item.tracking_time,
    {
        let n = current.unicode_len();
        let mut nli: usize = 0;
        let mut found = false;
        while nli < n && !found
            invariant
                n == current@.len(),
                nli <= n,
                forall|l: int| 0 <= l < nli ==> current@[l] != '\n',
                found ==> nli < n && current@[nli as int] == '\n',
            decreases n - nli + (if found { 0int } else { 1int }),
        {
            if current.get_char(nli) == '\n' {
                found = true;
            } else {
                nli = nli + 1;
            }
        }
        let title = current.substring_char(0, nli);
        let entry = current.substring_char(nli, n);
        let m = self.item_tree.max_id();
        proof {
            if m == u32::MAX {
                assert(has_id(self.item_tree.buckets@, u32::MAX));
            }
        }
        let item = Item::new(m + 1, title, entry);
        proof {
            lemma_first_newline(current@);
            let w = first_newline(current@);
            if w < nli as int {
                assert(current@[w] != '\n');
            } else if (nli as int) < w {
                assert(found);
                assert(current@[nli as int] != '\n');
            }
            assert(w == nli as int);
            assert(item.title@ =~= current@.take(nli as int));
            assert(item.entry@ =~= current@.skip(nli as int));
        }
        item
    }

}

} // verus!

