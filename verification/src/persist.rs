//! The persistence boundary: the forest is stored as a flat run of rows
//! (one item each) and rebuilt by folding every row into the bucket keyed
//! by its parent id. Rows may arrive in any order; sibling order inside
//! each parent is the row encounter order. A row whose parent never
//! arrives stays in its own bucket, unreachable from the root, and is
//! reported through the orphan count rather than dropped.

use vstd::prelude::*;

use crate::forest::{all_items, has_id, lemma_all_items_push, total_items, Bucket, Forest};
use crate::item::Item;
use crate::model::{insert_blocked, RutuduList};

verus! {

/// The rows of `rows` whose parent id is `k`, in row order: the child list
/// that rebuilding from `rows` gives parent `k`.
pub open spec fn rows_for(rows: Seq<Item>, k: u32) -> Seq<Item>
    decreases rows.len(),
{
    if rows.len() == 0 {
        Seq::<Item>::empty()
    } else {
        (if rows[0].parent_id == k {
            seq![rows[0]]
        } else {
            Seq::<Item>::empty()
        }) + rows_for(rows.drop_first(), k)
    }
}

/// Every row has a positive id and no two rows share one: the shape `store`
/// emits from a well-formed forest.
pub open spec fn rows_ok(rows: Seq<Item>) -> bool {
    &&& (forall|l: int| 0 <= l < rows.len() ==> (#[trigger] rows[l]).id != 0)
    &&& (forall|l1: int, l2: int| 0 <= l1 < l2 < rows.len() ==> rows[l1].id != rows[l2].id)
    &&& rows.len() < usize::MAX
}

/// Appending a row extends exactly its parent's run.
pub proof fn lemma_rows_for_push(rows: Seq<Item>, it: Item, k: u32)
    ensures
        rows_for(rows.push(it), k) == rows_for(rows, k) + (if it.parent_id == k {
            seq![it]
        } else {
            Seq::<Item>::empty()
        }),
    decreases rows.len(),
{
    if rows.len() == 0 {
        assert(rows.push(it).drop_first() =~= Seq::<Item>::empty());
        assert(rows.push(it)[0] == it);
        assert(rows_for(Seq::<Item>::empty(), k) == Seq::<Item>::empty());
        assert(rows_for(rows, k) == Seq::<Item>::empty());
        assert(rows_for(rows.push(it), k) =~= rows_for(rows, k) + (if it.parent_id == k {
            seq![it]
        } else {
            Seq::<Item>::empty()
        }));
    } else {
        lemma_rows_for_push(rows.drop_first(), it, k);
        assert(rows.push(it).drop_first() =~= rows.drop_first().push(it));
        assert(rows.push(it)[0] == rows[0]);
        assert(rows_for(rows.push(it), k) =~= rows_for(rows, k) + (if it.parent_id == k {
            seq![it]
        } else {
            Seq::<Item>::empty()
        }));
    }
}

impl Forest {
    /// Every item as one row, in bucket storage order and sibling order:
    /// what a full-snapshot store writes out.
    pub fn to_rows(&self) -> (r: Vec<Item>)
        ensures
            r@ == all_items(self.buckets@),
    {
        let mut r: Vec<Item> = Vec::new();
        let mut i: usize = 0;
        while i < self.buckets.len()
            invariant
                i <= self.buckets@.len(),
                r@ == all_items(self.buckets@.take(i as int)),
            decreases self.buckets@.len() - i,
        {
            let n = self.buckets[i].items.len();
            let mut j: usize = 0;
            while j < n
                invariant
                    i < self.buckets@.len(),
                    n == self.buckets@[i as int].items@.len(),
                    j <= n,
                    r@ == all_items(self.buckets@.take(i as int)) + self.buckets@[i as int].items@.take(j as int),
                decreases n - j,
            {
                r.push(self.buckets[i].items[j].clone());
                proof {
                    assert(self.buckets@[i as int].items@.take(j + 1)
                        =~= self.buckets@[i as int].items@.take(j as int).push(
                        self.buckets@[i as int].items@[j as int],
                    ));
                    assert(r@ =~= all_items(self.buckets@.take(i as int))
                        + self.buckets@[i as int].items@.take(j + 1));
                }
                j = j + 1;
            }
            proof {
                lemma_all_items_push(self.buckets@.take(i as int), self.buckets@[i as int]);
                assert(self.buckets@.take(i + 1) =~= self.buckets@.take(i as int).push(
                    self.buckets@[i as int],
                ));
                assert(self.buckets@[i as int].items@.take(n as int) =~= self.buckets@[i as int].items@);
            }
            i = i + 1;
        }
        proof {
            assert(self.buckets@.take(self.buckets@.len() as int) =~= self.buckets@);
        }
        r
    }

    /// How many items sit in a bucket whose key names no item and is not
    /// the root: rows whose parent never arrived.
    pub fn orphan_count(&self) -> (n: usize)
        requires
            self.wf(),
        ensures
            n == orphan_rows_in(self.buckets@, self.buckets@),
    {
        let ghost bs = self.buckets@;
        let mut acc: usize = 0;
        let mut i: usize = 0;
        while i < self.buckets.len()
            invariant
                bs == self.buckets@,
                self.wf(),
                i <= bs.len(),
                acc == orphan_rows_in(bs, bs.take(i as int)),
                acc <= total_items(bs.take(i as int)),
            decreases bs.len() - i,
        {
            proof {
                lemma_orphan_push(bs, bs.take(i as int), bs[i as int]);
                assert(bs.take(i + 1) =~= bs.take(i as int).push(bs[i as int]));
                lemma_all_items_push(bs.take(i as int), bs[i as int]);
                crate::forest::lemma_all_items_prefix_bound(bs, i as int);
                crate::forest::lemma_total_take_mono(bs, i + 1, bs.len() as int);
                assert(bs.take(bs.len() as int) =~= bs);
            }
            let key = self.buckets[i].key;
            if key != 0 && !self.has_item_id(key) {
                acc = acc + self.buckets[i].items.len();
            }
            i = i + 1;
        }
        proof {
            assert(bs.take(bs.len() as int) =~= bs);
        }
        acc
    }
}

/// The orphan rows of the buckets `part`, judged against the whole forest
/// `full`: items of buckets whose key is neither the root nor any item's
/// id.
pub open spec fn orphan_rows_in(full: Seq<Bucket>, part: Seq<Bucket>) -> nat
    decreases part.len(),
{
    if part.len() == 0 {
        0
    } else {
        (if part[0].key != 0 && !has_id(full, part[0].key) {
            part[0].items@.len()
        } else {
            0
        }) + orphan_rows_in(full, part.drop_first())
    }
}

/// Appending a bucket adds its own orphan contribution, bounded by its
/// size.
pub proof fn lemma_orphan_push(full: Seq<Bucket>, part: Seq<Bucket>, b: Bucket)
    ensures
        orphan_rows_in(full, part.push(b)) == orphan_rows_in(full, part) + (if b.key != 0
            && !has_id(full, b.key) {
            b.items@.len()
        } else {
            0nat
        }),
        orphan_rows_in(full, part) <= total_items(part),
    decreases part.len(),
{
    if part.len() == 0 {
        assert(part.push(b).drop_first() =~= Seq::<Bucket>::empty());
        assert(part.push(b)[0] == b);
        assert(orphan_rows_in(full, Seq::<Bucket>::empty()) == 0);
        assert(all_items(part) =~= Seq::<Item>::empty());
    } else {
        lemma_orphan_push(full, part.drop_first(), b);
        assert(part.push(b).drop_first() =~= part.drop_first().push(b));
        assert(part.push(b)[0] == part[0]);
        assert(all_items(part) == part[0].items@ + all_items(part.drop_first()));
    }
}

impl RutuduList {
    /// Fold one persisted row into the forest under its recorded parent id,
    /// keeping the id from the row (the bulk-load path, as against the
    /// interactive path that allocates ids). A row with id 0, a duplicate
    /// id, or a forest at the machine bound is refused.
    pub fn restore_item(&mut self, item: Item) -> (stored: bool)
        requires
            old(self).wf(),
        ensures
            final(self).wf(),
            stored == !insert_blocked(*old(self), item),
            final(self).input_mode == old(self).input_mode,
            final(self).unsaved == old(self).unsaved,
            final(self).items == old(self).items,
            !stored ==> *final(self) == *old(self),
            stored ==> {
                &&& final(self).dirty_list
                &&& final(self).item_tree.children(item.parent_id) == old(self).item_tree.children(
                    item.parent_id,
                ).push(item)
                &&& (forall|k: u32|
                    k != item.parent_id ==> final(self).item_tree.children(k) == old(
                        self,
                    ).item_tree.children(k))
                &&& final(self).item_tree.idc(item.id) == 1
                &&& (forall|x: u32|
                    x != item.id ==> final(self).item_tree.idc(x) == old(self).item_tree.idc(x))
                &&& final(self).item_tree.total() == old(self).item_tree.total() + 1
            },
    {
        if item.id == 0 || self.item_tree.has_item_id(item.id) {
            return false;
        }
        if self.item_tree.count_items() >= usize::MAX - 1 {
            return false;
        }
        let key = item.parent_id;
        let cnt = self.item_tree.child_count(key);
        self.item_tree.put_item(key, cnt, item);
        proof {
            assert(self.item_tree.children(key) =~= old(self).item_tree.children(key).push(item));
        }
        self.dirty_list = true;
        true
    }

    /// Replace the forest with one rebuilt from `rows`, each row folded
    /// into the bucket keyed by its parent id, in row order. Rows the fold
    /// refuses (id 0 or a duplicate) are skipped; for rows as a store
    /// emits them (`rows_ok`) nothing is skipped and every parent's child
    /// list is exactly its run in the rows. Returns the number of rows
    /// whose parent id names no loaded item: the orphan diagnostic.
    pub fn restore_list(&mut self, rows: Vec<Item>) -> (orphans: usize)
        requires
            old(self).wf(),
        ensures
            final(self).wf(),
            final(self).input_mode == old(self).input_mode,
            final(self).unsaved == old(self).unsaved,
            final(self).items == old(self).items,
            final(self).dirty_list,
            orphans == orphan_rows_in(final(self).item_tree.buckets@, final(self).item_tree.buckets@),
            rows_ok(rows@) ==> {
                &&& (forall|k: u32| final(self).item_tree.children(k) == rows_for(rows@, k))
                &&& final(self).item_tree.total() == rows@.len()
            },
    {
        self.item_tree = Forest::new();
        let n = rows.len();
        let mut idx: usize = 0;
        while idx < n
            invariant
                self.wf(),
                n == rows@.len(),
                idx <= n,
                self.input_mode == old(self).input_mode,
                self.unsaved == old(self).unsaved,
                self.items == old(self).items,
                rows_ok(rows@) ==> {
                    &&& (forall|k: u32| self.item_tree.children(k) == rows_for(
                        rows@.take(idx as int),
                        k,
                    ))
                    &&& self.item_tree.total() == idx
                    &&& (forall|l: int|
                        idx <= l < n ==> self.item_tree.idc((#[trigger] rows@[l]).id) == 0)
                },
            decreases n - idx,
        {
            let row = rows[idx].clone();
            let stored = self.restore_item(row);
            proof {
                if rows_ok(rows@) {
                    assert(stored);
                    assert forall|k: u32| self.item_tree.children(k) == rows_for(
                        rows@.take(idx + 1),
                        k,
                    ) by {
                        lemma_rows_for_push(rows@.take(idx as int), rows@[idx as int], k);
                        assert(rows@.take(idx + 1) =~= rows@.take(idx as int).push(
                            rows@[idx as int],
                        ));
                        if k == rows@[idx as int].parent_id {
                            assert(self.item_tree.children(k) =~= rows_for(
                                rows@.take(idx as int),
                                k,
                            ) + seq![rows@[idx as int]]);
                        } else {
                            assert(rows_for(rows@.take(idx + 1), k) =~= rows_for(
                                rows@.take(idx as int),
                                k,
                            ));
                        }
                    }
                    assert forall|l: int|
                        idx + 1 <= l < n implies self.item_tree.idc((#[trigger] rows@[l]).id)
                        == 0 by {
                        assert(rows@[idx as int].id != rows@[l].id);
                    }
                }
            }
            idx = idx + 1;
        }
        proof {
            if rows_ok(rows@) {
                assert(rows@.take(n as int) =~= rows@);
            }
        }
        self.dirty_list = true;
        self.item_tree.orphan_count()
    }
}

} // verus!
