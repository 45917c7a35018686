//! The general laws of the outline engine, each proved once and for all:
//! flattening is pure, the persistence round trip reproduces every child
//! list, the next allocated id collides with nothing, soft and hard delete
//! change the count in exactly their own way, and sibling moves wrap at the
//! bucket ends.

use vstd::prelude::*;

use crate::flatten::flat_display;
use crate::forest::{
    all_items, bucket_ok, child_seq, has_id, has_key, key_at, lemma_key_at, uniq_keys, Bucket,
    Forest,
};
use crate::item::Item;
use crate::model::{delete_outcome, erase_outcome, moved_down, moved_up};
use crate::persist::{rows_for, rows_ok};

verus! {

/// Flattening is idempotent: two flattens of one forest state, with no
/// mutation in between, are the same run. The display run is a function of
/// the forest alone.
pub proof fn lemma_flatten_idempotent(f: Forest, r1: Seq<Item>, r2: Seq<Item>)
    requires
        r1 == flat_display(f),
        r2 == flat_display(f),
    ensures
        r1 == r2,
{
}

/// `rows_for` distributes over concatenation of row runs.
proof fn lemma_rows_for_concat(a: Seq<Item>, b: Seq<Item>, k: u32)
    ensures
        rows_for(a + b, k) == rows_for(a, k) + rows_for(b, k),
    decreases a.len(),
{
    if a.len() == 0 {
        assert(a + b =~= b);
        assert(rows_for(a, k) == Seq::<Item>::empty());
        assert(rows_for(a + b, k) =~= rows_for(a, k) + rows_for(b, k));
    } else {
        lemma_rows_for_concat(a.drop_first(), b, k);
        assert((a + b).drop_first() =~= a.drop_first() + b);
        assert((a + b)[0] == a[0]);
        assert(rows_for(a + b, k) =~= rows_for(a, k) + rows_for(b, k));
    }
}

/// Rows that all name parent `k` filter to themselves.
proof fn lemma_rows_for_all(s: Seq<Item>, k: u32)
    requires
        forall|l: int| 0 <= l < s.len() ==> (#[trigger] s[l]).parent_id == k,
    ensures
        rows_for(s, k) == s,
    decreases s.len(),
{
    if s.len() > 0 {
        lemma_rows_for_all(s.drop_first(), k);
        assert(rows_for(s, k) =~= s);
    }
}

/// Rows that never name parent `k` filter to nothing.
proof fn lemma_rows_for_none(s: Seq<Item>, k: u32)
    requires
        forall|l: int| 0 <= l < s.len() ==> (#[trigger] s[l]).parent_id != k,
    ensures
        rows_for(s, k) == Seq::<Item>::empty(),
    decreases s.len(),
{
    if s.len() > 0 {
        lemma_rows_for_none(s.drop_first(), k);
        assert(rows_for(s, k) =~= Seq::<Item>::empty());
    }
}

/// Without a bucket keyed `k`, no item of consistent buckets names `k` as
/// its parent.
proof fn lemma_no_key_no_parent(bs: Seq<Bucket>, k: u32)
    requires
        !has_key(bs, k),
        forall|i: int| 0 <= i < bs.len() ==> bucket_ok(#[trigger] bs[i]),
    ensures
        forall|l: int| 0 <= l < all_items(bs).len() ==> (#[trigger] all_items(bs)[l]).parent_id
            != k,
    decreases bs.len(),
{
    if bs.len() > 0 {
        assert(!has_key(bs.drop_first(), k)) by {
            if has_key(bs.drop_first(), k) {
                let i = key_at(bs.drop_first(), k);
                assert(bs.drop_first()[i].key == k);
                assert(bs[i + 1].key == k);
            }
        }
        lemma_no_key_no_parent(bs.drop_first(), k);
        assert(bs[0].key != k);
        assert(bucket_ok(bs[0]));
        assert forall|l: int|
            0 <= l < all_items(bs).len() implies (#[trigger] all_items(bs)[l]).parent_id != k by {
            if l < bs[0].items@.len() {
                assert(all_items(bs)[l] == bs[0].items@[l]);
            } else {
                assert(all_items(bs)[l] == all_items(bs.drop_first())[l - bs[0].items@.len()]);
            }
        }
    }
}

/// Dropping the first bucket does not change the children of any other
/// key.
proof fn lemma_child_seq_tail(bs: Seq<Bucket>, k: u32)
    requires
        bs.len() > 0,
        uniq_keys(bs),
        k != bs[0].key,
    ensures
        child_seq(bs.drop_first(), k) == child_seq(bs, k),
        uniq_keys(bs.drop_first()),
{
    let t = bs.drop_first();
    assert(uniq_keys(t));
    if has_key(bs, k) {
        let i = key_at(bs, k);
        lemma_key_at(bs, k, i);
        assert(i != 0);
        assert(t[i - 1] == bs[i]);
        lemma_key_at(t, k, i - 1);
    } else {
        if has_key(t, k) {
            let i = key_at(t, k);
            assert(t[i] == bs[i + 1]);
            assert(has_key(bs, k));
        }
    }
}

/// In a forest with unique keys and consistent buckets, the rows a store
/// emits give back, for every parent key, exactly that parent's child
/// list.
proof fn lemma_rows_child(bs: Seq<Bucket>, k: u32)
    requires
        uniq_keys(bs),
        forall|i: int| 0 <= i < bs.len() ==> bucket_ok(#[trigger] bs[i]),
    ensures
        rows_for(all_items(bs), k) == child_seq(bs, k),
    decreases bs.len(),
{
    if bs.len() == 0 {
        assert(all_items(bs) =~= Seq::<Item>::empty());
        assert(!has_key(bs, k));
        assert(rows_for(all_items(bs), k) == Seq::<Item>::empty());
    } else {
        let t = bs.drop_first();
        let s0 = bs[0].items@;
        lemma_rows_for_concat(s0, all_items(t), k);
        assert(all_items(bs) == s0 + all_items(t));
        assert(bucket_ok(bs[0]));
        if bs[0].key == k {
            lemma_rows_for_all(s0, k);
            assert(!has_key(t, k)) by {
                if has_key(t, k) {
                    let i = key_at(t, k);
                    assert(t[i] == bs[i + 1]);
                    assert(bs[0].key != bs[i + 1].key);
                }
            }
            assert(forall|i: int| 0 <= i < t.len() ==> bucket_ok(#[trigger] t[i])) by {
                assert(forall|i: int| 0 <= i < t.len() ==> t[i] == bs[i + 1]);
            }
            lemma_no_key_no_parent(t, k);
            lemma_rows_for_none(all_items(t), k);
            lemma_key_at(bs, k, 0);
            assert(rows_for(all_items(bs), k) =~= child_seq(bs, k));
        } else {
            lemma_rows_for_none(s0, k);
            assert(forall|i: int| 0 <= i < t.len() ==> bucket_ok(#[trigger] t[i])) by {
                assert(forall|i: int| 0 <= i < t.len() ==> t[i] == bs[i + 1]);
            }
            lemma_rows_child(t, k);
            lemma_child_seq_tail(bs, k);
            assert(rows_for(all_items(bs), k) =~= child_seq(bs, k));
        }
    }
}

/// Every item of consistent buckets has a positive id.
proof fn lemma_all_items_ids_ok(bs: Seq<Bucket>)
    requires
        forall|i: int| 0 <= i < bs.len() ==> bucket_ok(#[trigger] bs[i]),
    ensures
        forall|l: int| 0 <= l < all_items(bs).len() ==> (#[trigger] all_items(bs)[l]).id != 0,
    decreases bs.len(),
{
    if bs.len() > 0 {
        let t = bs.drop_first();
        assert(forall|i: int| 0 <= i < t.len() ==> t[i] == bs[i + 1]);
        lemma_all_items_ids_ok(t);
        assert(bucket_ok(bs[0]));
        assert forall|l: int|
            0 <= l < all_items(bs).len() implies (#[trigger] all_items(bs)[l]).id != 0 by {
            if l < bs[0].items@.len() {
                assert(all_items(bs)[l] == bs[0].items@[l]);
            } else {
                assert(all_items(bs)[l] == all_items(t)[l - bs[0].items@.len()]);
            }
        }
    }
}

/// The persistence round trip: the rows a store emits from a well-formed
/// forest are well-shaped (positive, pairwise distinct ids), and rebuilding
/// from them reproduces, for every parent key, exactly that parent's child
/// list — items, links, flags and sibling order included.
pub proof fn lemma_round_trip(f: Forest)
    requires
        f.wf(),
    ensures
        rows_ok(all_items(f.buckets@)),
        forall|k: u32| rows_for(all_items(f.buckets@), k) == child_seq(f.buckets@, k),
{
    lemma_all_items_ids_ok(f.buckets@);
    assert forall|k: u32| rows_for(all_items(f.buckets@), k) == child_seq(f.buckets@, k) by {
        lemma_rows_child(f.buckets@, k);
    }
}

/// No orphan ids: one past any upper bound of the ids in use — in
/// particular `max_id() + 1` — is itself not in use, so sequential
/// insertion never collides.
pub proof fn lemma_next_id_fresh(f: Forest, m: u32)
    requires
        forall|x: u32| has_id(f.buckets@, x) ==> x <= m,
        m < u32::MAX,
    ensures
        !has_id(f.buckets@, (m + 1) as u32),
        forall|x: u32| has_id(f.buckets@, x) ==> x < (m + 1) as u32,
{
}

/// Soft delete keeps the children: deleting an item, however many children
/// it has, lowers the total count by exactly one.
pub proof fn lemma_delete_preserves_count(pre: Forest, post: Forest, g: u32, d: u32, j: int)
    requires
        delete_outcome(pre, post, g, d),
        0 <= j < pre.children(g).len(),
        pre.children(g)[j].id == d,
    ensures
        post.total() + 1 == pre.total(),
{
    let cs = pre.children(g);
    let csr = cs.remove(j);
    assert(cs[j].id == d);
    if g != d {
        assert(post.children(g) == csr + crate::model::reparented(pre.children(d), g));
    } else {
        assert(post.children(g) == csr);
    }
}

/// Hard delete takes the subtree bucket with it: erasing an item with `k`
/// direct children lowers the total count by exactly `k + 1`.
pub proof fn lemma_erase_drops_children(pre: Forest, post: Forest, g: u32, d: u32, j: int)
    requires
        erase_outcome(pre, post, g, d),
        g != d,
        0 <= j < pre.children(g).len(),
        pre.children(g)[j].id == d,
    ensures
        post.total() + pre.children(d).len() + 1 == pre.total(),
{
    let cs = pre.children(g);
    let csr = cs.remove(j);
    assert(cs[j].id == d);
    assert(post.children(g) == csr);
}

/// Moving the first sibling up wraps it to the last position of its
/// bucket.
pub proof fn lemma_move_up_wraps(pre: Forest, post: Forest, pid: u32)
    requires
        moved_up(pre, post, pid, 0),
        pre.children(pid).len() > 0,
    ensures
        post.children(pid)[pre.children(pid).len() - 1] == pre.children(pid)[0],
        post.children(pid).len() == pre.children(pid).len(),
{
}

/// Moving the last sibling down wraps it to the first position of its
/// bucket.
pub proof fn lemma_move_down_wraps(pre: Forest, post: Forest, pid: u32)
    requires
        pre.children(pid).len() > 0,
        moved_down(pre, post, pid, pre.children(pid).len() - 1),
    ensures
        post.children(pid)[0] == pre.children(pid)[pre.children(pid).len() - 1],
        post.children(pid).len() == pre.children(pid).len(),
{
}

} // verus!
