//! A single outline entry and its small state machines: the two-valued
//! completion state, the three-valued expansion level (ordered
//! `Closed < ShowChildren < Open`), and the codes under which both are
//! persisted.

use vstd::prelude::*;

verus! {

/// Completion state of an item; persisted as code 1 (incomplete) or 2
/// (complete).
#[derive(Clone, Copy, PartialEq, Eq, Structural, Debug)]
pub enum CompleteStatus {
    Incomplete,
    Complete,
}

/// Direction of a sibling move: `Up`/`Down` swap within the sibling list,
/// `In` descends under the elder sibling, `Out` climbs to the parent's level.
#[derive(Clone, Copy, PartialEq, Eq, Structural, Debug)]
pub enum MoveDirection {
    Up,
    Down,
    In,
    Out,
}

/// Expansion level of an item, ordered `Closed < ShowChildren < Open`;
/// persisted as codes 1, 2 and 3 in that order.
#[derive(Clone, Copy, PartialEq, Eq, Structural, Debug)]
pub enum ExpandStatus {
    Closed,
    ShowChildren,
    Open,
}

/// The editor's overall mode; the four `Insert*` modes decide where
/// `RutuduList::insert_item` places a new item relative to the selection.
#[derive(Clone, Copy, PartialEq, Eq, Structural, Debug)]
pub enum InputMode {
    InsertAtRoot,
    InsertChild,
    InsertParent,
    InsertSibling,
    Edit,
    Save,
    Open,
    Quit,
}

/// One outline entry. `id` is a unique positive integer; id `0` is reserved
/// for "no parent", so `parent_id == 0` marks a top-level item. `depth` and
/// `order` are transient hints rewritten by the flattener and by insertion;
/// they carry no authority over the tree shape.
pub struct Item {
    pub id: u32,
    pub title: String,
    pub entry: String,
    pub parent_id: u32,
    pub expand: ExpandStatus,
    pub complete: CompleteStatus,
    pub depth: usize,
    pub order: u16,
    pub tracking_time: bool,
}

/// The expansion level one step up the scale: `Closed` to `ShowChildren` to
/// `Open`, saturating at `Open`.
pub open spec fn raised(e: ExpandStatus) -> ExpandStatus {
    match e {
        ExpandStatus::Closed => ExpandStatus::ShowChildren,
        ExpandStatus::ShowChildren => ExpandStatus::Open,
        ExpandStatus::Open => ExpandStatus::Open,
    }
}

/// The expansion level one step down the scale: `Open` to `ShowChildren` to
/// `Closed`, saturating at `Closed`.
pub open spec fn lowered(e: ExpandStatus) -> ExpandStatus {
    match e {
        ExpandStatus::Closed => ExpandStatus::Closed,
        ExpandStatus::ShowChildren => ExpandStatus::Closed,
        ExpandStatus::Open => ExpandStatus::ShowChildren,
    }
}

/// The opposite completion state.
pub open spec fn toggled(c: CompleteStatus) -> CompleteStatus {
    match c {
        CompleteStatus::Incomplete => CompleteStatus::Complete,
        CompleteStatus::Complete => CompleteStatus::Incomplete,
    }
}

/// Whether children are rendered under an item at this expansion level:
/// every level from `ShowChildren` up.
pub open spec fn shows_children(e: ExpandStatus) -> bool {
    match e {
        ExpandStatus::Closed => false,
        ExpandStatus::ShowChildren => true,
        ExpandStatus::Open => true,
    }
}

/// The persisted code of a completion state: 1 incomplete, 2 complete.
pub open spec fn complete_code(c: CompleteStatus) -> u8 {
    match c {
        CompleteStatus::Incomplete => 1,
        CompleteStatus::Complete => 2,
    }
}

/// The persisted code of an expansion level: 1 closed, 2 show-children,
/// 3 open.
pub open spec fn expand_code(e: ExpandStatus) -> u8 {
    match e {
        ExpandStatus::Closed => 1,
        ExpandStatus::ShowChildren => 2,
        ExpandStatus::Open => 3,
    }
}

/// The completion state persisted under `code`; an unknown code falls back
/// to `Incomplete`.
pub open spec fn complete_of_code(code: u8) -> CompleteStatus {
    if code == 2 {
        CompleteStatus::Complete
    } else {
        CompleteStatus::Incomplete
    }
}

/// The expansion level persisted under `code`; an unknown code falls back
/// to `Closed`.
pub open spec fn expand_of_code(code: u8) -> ExpandStatus {
    if code == 2 {
        ExpandStatus::ShowChildren
    } else if code == 3 {
        ExpandStatus::Open
    } else {
        ExpandStatus::Closed
    }
}

impl CompleteStatus {
    /// The code under which this state is persisted.
    pub fn to_code(&self) -> (code: u8)
        ensures
            code == complete_code(*self),
    {
        match *self {
            CompleteStatus::Incomplete => 1,
            CompleteStatus::Complete => 2,
        }
    }

    /// The state persisted under `code`, defaulting to `Incomplete`.
    pub fn from_code(code: u8) -> (c: CompleteStatus)
        ensures
            c == complete_of_code(code),
    {
        if code == 2 {
            CompleteStatus::Complete
        } else {
            CompleteStatus::Incomplete
        }
    }
}

impl ExpandStatus {
    /// The code under which this level is persisted.
    pub fn to_code(&self) -> (code: u8)
        ensures
            code == expand_code(*self),
    {
        match *self {
            ExpandStatus::Closed => 1,
            ExpandStatus::ShowChildren => 2,
            ExpandStatus::Open => 3,
        }
    }

    /// The level persisted under `code`, defaulting to `Closed`.
    pub fn from_code(code: u8) -> (e: ExpandStatus)
        ensures
            e == expand_of_code(code),
    {
        if code == 2 {
            ExpandStatus::ShowChildren
        } else if code == 3 {
            ExpandStatus::Open
        } else {
            ExpandStatus::Closed
        }
    }
}

impl Clone for Item {
    /// A field-for-field copy of the item.
    fn clone(&self) -> (res: Self)
        ensures
            res == *self,
    {
        Item {
            id: self.id,
            title: self.title.clone(),
            entry: self.entry.clone(),
            parent_id: self.parent_id,
            expand: self.expand,
            complete: self.complete,
            depth: self.depth,
            order: self.order,
            tracking_time: self.tracking_time,
        }
    }
}

impl Item {
    /// A fresh top-level item: incomplete, closed, no parent.
    pub fn new(id: u32, title: &str, entry: &str) -> (item: Item)
        ensures
            item.id == id,
            item.title@ == title@,
            item.entry@ == entry@,
            item.parent_id == 0,
            item.expand == ExpandStatus::Closed,
            item.complete == CompleteStatus::Incomplete,
            item.depth == 0,
            item.order == 0,
            !item.tracking_time,
    {
        Item {
            id,
            title: title.to_owned(),
            entry: entry.to_owned(),
            parent_id: 0,
            expand: ExpandStatus::Closed,
            complete: CompleteStatus::Incomplete,
            depth: 0,
            order: 0,
            tracking_time: false,
        }
    }

    /// Symbol shown before the title: `[-]` open, `[+]` closed, `[|]`
    /// showing children only.
    pub fn expansion_state_symbol(&self) -> (sym: String)
        ensures
            self.expand == ExpandStatus::Open ==> sym@ == "[-]"@,
            self.expand == ExpandStatus::Closed ==> sym@ == "[+]"@,
            self.expand == ExpandStatus::ShowChildren ==> sym@ == "[|]"@,
    {
        match self.expand {
            ExpandStatus::Open => "[-]".to_owned(),
            ExpandStatus::Closed => "[+]".to_owned(),
            ExpandStatus::ShowChildren => "[|]".to_owned(),
        }
    }

    /// Raise the expansion level one step, saturating at `Open`.
    pub fn expand(&mut self)
        ensures
            final(self).expand == raised(old(self).expand),
            final(self).id == old(self).id,
            final(self).title == old(self).title,
            final(self).entry == old(self).entry,
            final(self).parent_id == old(self).parent_id,
            final(self).complete == old(self).complete,
            final(self).depth == old(self).depth,
            final(self).order == old(self).order,
            final(self).tracking_time == old(self).tracking_time,
    {
        match self.expand {
            ExpandStatus::Closed => self.expand = ExpandStatus::ShowChildren,
            ExpandStatus::ShowChildren => self.expand = ExpandStatus::Open,
            ExpandStatus::Open => {},
        };
    }

    /// Make children visible: a closed item moves to `ShowChildren`, any
    /// other level is kept.
    pub fn show_children(&mut self)
        ensures
            old(self).expand == ExpandStatus::Closed ==> final(self).expand == ExpandStatus::ShowChildren,
            old(self).expand != ExpandStatus::Closed ==> final(self).expand == old(self).expand,
            final(self).id == old(self).id,
            final(self).title == old(self).title,
            final(self).entry == old(self).entry,
            final(self).parent_id == old(self).parent_id,
            final(self).complete == old(self).complete,
            final(self).depth == old(self).depth,
            final(self).order == old(self).order,
            final(self).tracking_time == old(self).tracking_time,
    {
        if self.expand == ExpandStatus::Closed {
            self.expand = ExpandStatus::ShowChildren;
        }
    }

    /// Lower the expansion level one step, saturating at `Closed`.
    pub fn collapse(&mut self)
        ensures
            final(self).expand == lowered(old(self).expand),
            final(self).id == old(self).id,
            final(self).title == old(self).title,
            final(self).entry == old(self).entry,
            final(self).parent_id == old(self).parent_id,
            final(self).complete == old(self).complete,
            final(self).depth == old(self).depth,
            final(self).order == old(self).order,
            final(self).tracking_time == old(self).tracking_time,
    {
        match self.expand {
            ExpandStatus::Closed => {},
            ExpandStatus::ShowChildren => self.expand = ExpandStatus::Closed,
            ExpandStatus::Open => self.expand = ExpandStatus::ShowChildren,
        };
    }

    /// Flip the completion state.
    pub fn toggle_complete_status(&mut self)
        ensures
            final(self).complete == toggled(old(self).complete),
            final(self).id == old(self).id,
            final(self).title == old(self).title,
            final(self).entry == old(self).entry,
            final(self).parent_id == old(self).parent_id,
            final(self).expand == old(self).expand,
            final(self).depth == old(self).depth,
            final(self).order == old(self).order,
            final(self).tracking_time == old(self).tracking_time,
    {
        self.complete = match self.complete {
            CompleteStatus::Incomplete => CompleteStatus::Complete,
            CompleteStatus::Complete => CompleteStatus::Incomplete,
        }
    }

    /// Whether the flattener descends into this item's children.
    pub fn should_show_children(&self) -> (b: bool)
        ensures
            b == shows_children(self.expand),
    {
        match self.expand {
            ExpandStatus::Closed => false,
            ExpandStatus::ShowChildren => true,
            ExpandStatus::Open => true,
        }
    }
}

} // verus!
