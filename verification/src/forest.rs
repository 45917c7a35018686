//! The outline forest: a mapping from a parent id to the ordered list of its
//! direct children. Key `0` is the synthetic root bucket holding the
//! top-level items. The map is kept as an association list of buckets whose
//! keys are unique; an absent key reads as an empty child list.

use vstd::prelude::*;
use vstd::multiset::Multiset;

use crate::item::Item;

verus! {

/// One bucket of the forest: the ordered children of the item whose id is
/// `key` (or the top-level items, for key `0`).
pub struct Bucket {
    pub key: u32,
    pub items: Vec<Item>,
}

/// The whole forest, as an association list of buckets with unique keys.
pub struct Forest {
    pub buckets: Vec<Bucket>,
}

/// No two buckets share a key.
pub open spec fn uniq_keys(bs: Seq<Bucket>) -> bool {
    forall|i: int, j: int| 0 <= i < j < bs.len() ==> bs[i].key != bs[j].key
}

/// Some bucket carries key `k`.
pub open spec fn has_key(bs: Seq<Bucket>, k: u32) -> bool {
    exists|i: int| 0 <= i < bs.len() && bs[i].key == k
}

/// The index of the bucket with key `k`; meaningful only under `has_key`
/// and `uniq_keys`.
pub open spec fn key_at(bs: Seq<Bucket>, k: u32) -> int {
    choose|i: int| 0 <= i < bs.len() && bs[i].key == k
}

/// The ordered children of parent `k`; an absent bucket reads as empty.
pub open spec fn child_seq(bs: Seq<Bucket>, k: u32) -> Seq<Item> {
    if has_key(bs, k) {
        bs[key_at(bs, k)].items@
    } else {
        Seq::<Item>::empty()
    }
}

/// Every item of the forest, in bucket storage order and in sibling order
/// inside each bucket.
pub open spec fn all_items(bs: Seq<Bucket>) -> Seq<Item>
    decreases bs.len(),
{
    if bs.len() == 0 {
        Seq::<Item>::empty()
    } else {
        bs[0].items@ + all_items(bs.drop_first())
    }
}

/// Total number of items over all buckets, hidden or not.
pub open spec fn total_items(bs: Seq<Bucket>) -> nat {
    all_items(bs).len()
}

/// The ids of a run of items, in order.
pub open spec fn item_ids(s: Seq<Item>) -> Seq<u32> {
    s.map_values(|it: Item| it.id)
}

/// How many items of the forest carry id `x`.
pub open spec fn id_count(bs: Seq<Bucket>, x: u32) -> nat {
    item_ids(all_items(bs)).to_multiset().count(x)
}

/// Some item of the forest carries id `x`.
pub open spec fn has_id(bs: Seq<Bucket>, x: u32) -> bool {
    id_count(bs, x) > 0
}

/// No two items of a run share an id.
pub open spec fn unique_ids(s: Seq<Item>) -> bool {
    forall|i: int, j: int| 0 <= i < j < s.len() ==> s[i].id != s[j].id
}

/// Every member of a bucket names the bucket's key as its parent and has a
/// positive id.
pub open spec fn bucket_ok(b: Bucket) -> bool {
    forall|i: int|
        0 <= i < b.items@.len() ==> (#[trigger] b.items@[i]).parent_id == b.key
            && b.items@[i].id != 0
}

/// Well-formedness of the forest: keys are unique, every item sits in the
/// bucket keyed by its own parent id, ids are positive and unique.
pub open spec fn forest_wf(bs: Seq<Bucket>) -> bool {
    &&& uniq_keys(bs)
    &&& forall|i: int| 0 <= i < bs.len() ==> bucket_ok(#[trigger] bs[i])
    &&& unique_ids(all_items(bs))
}

/// Under unique keys, the bucket seen at index `i` with key `k` is the one
/// that `child_seq` reads.
pub proof fn lemma_key_at(bs: Seq<Bucket>, k: u32, i: int)
    requires
        uniq_keys(bs),
        0 <= i < bs.len(),
        bs[i].key == k,
    ensures
        has_key(bs, k),
        key_at(bs, k) == i,
        child_seq(bs, k) == bs[i].items@,
{
    assert(has_key(bs, k));
    let j = key_at(bs, k);
    assert(0 <= j < bs.len() && bs[j].key == k);
    if i != j {
        if i < j {
            assert(bs[i].key != bs[j].key);
        } else {
            assert(bs[j].key != bs[i].key);
        }
    }
}

/// `all_items` splits around any bucket index.
pub proof fn lemma_all_items_split(bs: Seq<Bucket>, i: int)
    requires
        0 <= i < bs.len(),
    ensures
        all_items(bs) == all_items(bs.take(i)) + bs[i].items@ + all_items(bs.skip(i + 1)),
    decreases i,
{
    if i == 0 {
        assert(bs.take(0) =~= Seq::<Bucket>::empty());
        assert(all_items(bs.take(0)) =~= Seq::<Item>::empty());
        assert(bs.skip(1) =~= bs.drop_first());
        assert(all_items(bs) =~= all_items(bs.take(0)) + bs[0].items@ + all_items(bs.skip(1)));
    } else {
        let t = bs.drop_first();
        lemma_all_items_split(t, i - 1);
        assert(t.take(i - 1) =~= bs.take(i).drop_first());
        assert(t.skip(i) =~= bs.skip(i + 1));
        assert(t[i - 1] == bs[i]);
        assert(bs.take(i).len() > 0);
        assert(all_items(bs.take(i)) == bs.take(i)[0].items@ + all_items(bs.take(i).drop_first()));
        assert(bs.take(i)[0] == bs[0]);
        assert(all_items(bs) == bs[0].items@ + all_items(t));
        assert(all_items(bs) =~= all_items(bs.take(i)) + bs[i].items@ + all_items(bs.skip(i + 1)));
    }
}

/// Updating one bucket only rewrites the middle segment of `all_items`.
pub proof fn lemma_all_items_update(bs: Seq<Bucket>, i: int, b2: Bucket)
    requires
        0 <= i < bs.len(),
    ensures
        all_items(bs.update(i, b2)) == all_items(bs.take(i)) + b2.items@ + all_items(
            bs.skip(i + 1),
        ),
{
    let bs2 = bs.update(i, b2);
    lemma_all_items_split(bs2, i);
    assert(bs2.take(i) =~= bs.take(i));
    assert(bs2.skip(i + 1) =~= bs.skip(i + 1));
}

/// Appending a bucket appends its items to `all_items`.
pub proof fn lemma_all_items_push(bs: Seq<Bucket>, b: Bucket)
    ensures
        all_items(bs.push(b)) == all_items(bs) + b.items@,
    decreases bs.len(),
{
    if bs.len() == 0 {
        assert(bs.push(b).drop_first() =~= Seq::<Bucket>::empty());
        assert(bs.push(b)[0] == b);
        assert(all_items(bs.push(b)) == b.items@ + all_items(Seq::<Bucket>::empty()));
        assert(all_items(bs) =~= Seq::<Item>::empty());
        assert(all_items(bs.push(b)) =~= all_items(bs) + b.items@);
    } else {
        lemma_all_items_push(bs.drop_first(), b);
        assert(bs.push(b).drop_first() =~= bs.drop_first().push(b));
        assert(all_items(bs.push(b)) =~= all_items(bs) + b.items@);
    }
}

/// Removing one bucket removes exactly the middle segment of `all_items`.
pub proof fn lemma_all_items_remove(bs: Seq<Bucket>, i: int)
    requires
        0 <= i < bs.len(),
    ensures
        all_items(bs.remove(i)) == all_items(bs.take(i)) + all_items(bs.skip(i + 1)),
    decreases i,
{
    if i == 0 {
        assert(bs.remove(0) =~= bs.drop_first());
        assert(bs.take(0) =~= Seq::<Bucket>::empty());
        assert(bs.skip(1) =~= bs.drop_first());
        assert(all_items(bs.remove(0)) =~= all_items(bs.take(0)) + all_items(bs.skip(1)));
    } else {
        let t = bs.drop_first();
        lemma_all_items_remove(t, i - 1);
        assert(t.remove(i - 1) =~= bs.remove(i).drop_first());
        assert(t.take(i - 1) =~= bs.take(i).drop_first());
        assert(t.skip(i) =~= bs.skip(i + 1));
        assert(bs.remove(i)[0] == bs[0]);
        assert(all_items(bs.remove(i)) == bs[0].items@ + all_items(bs.remove(i).drop_first()));
        assert(all_items(bs.take(i)) == bs.take(i)[0].items@ + all_items(bs.take(i).drop_first()));
        assert(bs.take(i)[0] == bs[0]);
        assert(all_items(bs.remove(i)) =~= all_items(bs.take(i)) + all_items(bs.skip(i + 1)));
    }
}

/// `item_ids` distributes over concatenation.
pub proof fn lemma_item_ids_concat(a: Seq<Item>, b: Seq<Item>)
    ensures
        item_ids(a + b) == item_ids(a) + item_ids(b),
{
    assert(item_ids(a + b) =~= item_ids(a) + item_ids(b));
}

/// Ids of a run are pairwise distinct exactly when each id is counted at
/// most once.
pub proof fn lemma_unique_ids_multiset(s: Seq<Item>)
    ensures
        unique_ids(s) <==> forall|x: u32| item_ids(s).to_multiset().count(x) <= 1,
{
    broadcast use vstd::seq_lib::group_to_multiset_ensures;

    let ids = item_ids(s);
    if unique_ids(s) {
        assert(ids.no_duplicates()) by {
            assert forall|i: int, j: int|
                0 <= i < ids.len() && 0 <= j < ids.len() && i != j implies ids[i] != ids[j] by {
                if i < j {
                    assert(s[i].id != s[j].id);
                } else {
                    assert(s[j].id != s[i].id);
                }
            }
        }
        ids.lemma_multiset_has_no_duplicates();
        assert forall|x: u32| ids.to_multiset().count(x) <= 1 by {
            if ids.to_multiset().count(x) > 0 {
                assert(ids.to_multiset().contains(x));
            }
        }
    }
    if forall|x: u32| item_ids(s).to_multiset().count(x) <= 1 {
        assert forall|x: u32| ids.to_multiset().contains(x) implies ids.to_multiset().count(x)
            == 1 by {
            assert(ids.to_multiset().count(x) > 0);
        }
        ids.lemma_multiset_has_no_duplicates_conv();
        assert forall|i: int, j: int| 0 <= i < j < s.len() implies s[i].id != s[j].id by {
            assert(ids[i] == s[i].id && ids[j] == s[j].id);
        }
    }
}

/// An id found at a position of a run is counted in its multiset.
pub proof fn lemma_id_at_position(s: Seq<Item>, j: int)
    requires
        0 <= j < s.len(),
    ensures
        item_ids(s).to_multiset().count(s[j].id) >= 1,
{
    broadcast use vstd::seq_lib::group_to_multiset_ensures;

    let ids = item_ids(s);
    assert(ids[j] == s[j].id);
    assert(ids.contains(s[j].id));
}

/// Inserting into a sequence inserts into its multiset.
pub proof fn lemma_seq_insert_to_multiset<A>(s: Seq<A>, idx: int, x: A)
    requires
        0 <= idx <= s.len(),
    ensures
        s.insert(idx, x).to_multiset() =~= s.to_multiset().insert(x),
{
    broadcast use vstd::seq_lib::group_to_multiset_ensures;

    let pre = s.take(idx);
    let post = s.skip(idx);
    assert(s =~= pre + post);
    assert(s.insert(idx, x) =~= pre.push(x) + post);
    vstd::seq_lib::lemma_multiset_commutative(pre, post);
    vstd::seq_lib::lemma_multiset_commutative(pre.push(x), post);
    assert(pre.push(x).to_multiset() =~= pre.to_multiset().insert(x));
}

/// The id multiset of an insertion into a run of items.
pub proof fn lemma_ids_insert(s: Seq<Item>, idx: int, it: Item)
    requires
        0 <= idx <= s.len(),
    ensures
        item_ids(s.insert(idx, it)).to_multiset() =~= item_ids(s).to_multiset().insert(it.id),
{
    assert(item_ids(s.insert(idx, it)) =~= item_ids(s).insert(idx, it.id));
    lemma_seq_insert_to_multiset(item_ids(s), idx, it.id);
}

/// The id multiset of a removal from a run of items.
pub proof fn lemma_ids_remove(s: Seq<Item>, idx: int)
    requires
        0 <= idx < s.len(),
    ensures
        item_ids(s.remove(idx)).to_multiset() =~= item_ids(s).to_multiset().remove(s[idx].id),
{
    broadcast use vstd::seq_lib::group_to_multiset_ensures;

    assert(item_ids(s.remove(idx)) =~= item_ids(s).remove(idx));
    assert(item_ids(s)[idx] == s[idx].id);
}

/// The id multiset of an in-place update that keeps the item's id.
pub proof fn lemma_ids_update_same(s: Seq<Item>, idx: int, it: Item)
    requires
        0 <= idx < s.len(),
        it.id == s[idx].id,
    ensures
        item_ids(s.update(idx, it)).to_multiset() =~= item_ids(s).to_multiset(),
{
    assert(item_ids(s.update(idx, it)) =~= item_ids(s));
}

/// The id multiset of a swap of two positions.
pub proof fn lemma_ids_swap(s: Seq<Item>, i: int, j: int)
    requires
        0 <= i < s.len(),
        0 <= j < s.len(),
    ensures
        item_ids(s.update(i, s[j]).update(j, s[i])).to_multiset() =~= item_ids(s).to_multiset(),
{
    broadcast use vstd::seq_lib::group_to_multiset_ensures;

    let s2 = s.update(i, s[j]).update(j, s[i]);
    if i == j {
        assert(s2 =~= s);
    } else {
        assert(item_ids(s2) =~= item_ids(s).update(i, s[j].id).update(j, s[i].id));
        lemma_seq_update_to_multiset_swap(item_ids(s), i, j);
    }
}

/// Exchanging the values at two positions of a sequence keeps its multiset.
pub proof fn lemma_seq_update_to_multiset_swap<A>(s: Seq<A>, i: int, j: int)
    requires
        0 <= i < s.len(),
        0 <= j < s.len(),
        i != j,
    ensures
        s.update(i, s[j]).update(j, s[i]).to_multiset() =~= s.to_multiset(),
{
    broadcast use vstd::seq_lib::group_to_multiset_ensures;

    let s2 = s.update(i, s[j]).update(j, s[i]);
    let a = if i < j {
        i
    } else {
        j
    };
    let b = if i < j {
        j
    } else {
        i
    };
    let p1 = s.take(a);
    let p2 = s.subrange(a + 1, b);
    let p3 = s.skip(b + 1);
    assert(s =~= p1 + seq![s[a]] + p2 + seq![s[b]] + p3);
    assert(s2 =~= p1 + seq![s[b]] + p2 + seq![s[a]] + p3);
    lemma_multiset_of_five(p1, seq![s[a]], p2, seq![s[b]], p3);
    lemma_multiset_of_five(p1, seq![s[b]], p2, seq![s[a]], p3);
    assert(seq![s[a]].to_multiset() =~= Multiset::<A>::empty().insert(s[a])) by {
        assert(seq![s[a]] =~= Seq::<A>::empty().push(s[a]));
    }
    assert(seq![s[b]].to_multiset() =~= Multiset::<A>::empty().insert(s[b])) by {
        assert(seq![s[b]] =~= Seq::<A>::empty().push(s[b]));
    }
    assert(s2.to_multiset() =~= s.to_multiset());
}

/// The multiset of a five-way concatenation is the sum of the parts.
pub proof fn lemma_multiset_of_five<A>(p1: Seq<A>, p2: Seq<A>, p3: Seq<A>, p4: Seq<A>, p5: Seq<A>)
    ensures
        (p1 + p2 + p3 + p4 + p5).to_multiset() =~= p1.to_multiset().add(p2.to_multiset()).add(
            p3.to_multiset(),
        ).add(p4.to_multiset()).add(p5.to_multiset()),
{
    vstd::seq_lib::lemma_multiset_commutative(p1 + p2 + p3 + p4, p5);
    vstd::seq_lib::lemma_multiset_commutative(p1 + p2 + p3, p4);
    vstd::seq_lib::lemma_multiset_commutative(p1 + p2, p3);
    vstd::seq_lib::lemma_multiset_commutative(p1, p2);
}

/// Id counts and total size after rewriting the bucket at index `i`.
pub proof fn lemma_id_count_update(bs: Seq<Bucket>, i: int, b2: Bucket)
    requires
        0 <= i < bs.len(),
    ensures
        forall|x: u32|
            id_count(bs.update(i, b2), x) + item_ids(bs[i].items@).to_multiset().count(x)
                == id_count(bs, x) + item_ids(b2.items@).to_multiset().count(x),
        total_items(bs.update(i, b2)) + bs[i].items@.len() == total_items(bs) + b2.items@.len(),
{
    broadcast use vstd::seq_lib::group_to_multiset_ensures;

    let pre = all_items(bs.take(i));
    let post = all_items(bs.skip(i + 1));
    lemma_all_items_split(bs, i);
    lemma_all_items_update(bs, i, b2);
    lemma_item_ids_concat(pre + bs[i].items@, post);
    lemma_item_ids_concat(pre, bs[i].items@);
    lemma_item_ids_concat(pre + b2.items@, post);
    lemma_item_ids_concat(pre, b2.items@);
    vstd::seq_lib::lemma_multiset_commutative(item_ids(pre) + item_ids(bs[i].items@), item_ids(post));
    vstd::seq_lib::lemma_multiset_commutative(item_ids(pre), item_ids(bs[i].items@));
    vstd::seq_lib::lemma_multiset_commutative(item_ids(pre) + item_ids(b2.items@), item_ids(post));
    vstd::seq_lib::lemma_multiset_commutative(item_ids(pre), item_ids(b2.items@));
}

/// Id counts and total size after appending a fresh bucket.
pub proof fn lemma_id_count_push(bs: Seq<Bucket>, b: Bucket)
    ensures
        forall|x: u32|
            id_count(bs.push(b), x) == id_count(bs, x) + item_ids(b.items@).to_multiset().count(x),
        total_items(bs.push(b)) == total_items(bs) + b.items@.len(),
{
    broadcast use vstd::seq_lib::group_to_multiset_ensures;

    lemma_all_items_push(bs, b);
    lemma_item_ids_concat(all_items(bs), b.items@);
    vstd::seq_lib::lemma_multiset_commutative(item_ids(all_items(bs)), item_ids(b.items@));
}

/// Rewriting a bucket under its own key leaves every other key's children
/// unchanged.
pub proof fn lemma_frame_update(bs: Seq<Bucket>, i: int, b2: Bucket, k: u32)
    requires
        uniq_keys(bs),
        0 <= i < bs.len(),
        b2.key == bs[i].key,
        k != bs[i].key,
    ensures
        uniq_keys(bs.update(i, b2)),
        child_seq(bs.update(i, b2), k) == child_seq(bs, k),
        has_key(bs.update(i, b2), bs[i].key),
        key_at(bs.update(i, b2), bs[i].key) == i,
        child_seq(bs.update(i, b2), bs[i].key) == b2.items@,
{
    let bs2 = bs.update(i, b2);
    assert(uniq_keys(bs2));
    lemma_key_at(bs2, bs[i].key, i);
    if has_key(bs, k) {
        let j = key_at(bs, k);
        assert(0 <= j < bs.len() && bs[j].key == k);
        assert(j != i);
        lemma_key_at(bs2, k, j);
        lemma_key_at(bs, k, j);
    } else {
        if has_key(bs2, k) {
            let j = key_at(bs2, k);
            assert(0 <= j < bs.len() && bs2[j].key == k);
            assert(j != i);
            assert(bs[j].key == k);
        }
    }
}

/// Appending a bucket with a fresh key leaves every other key's children
/// unchanged.
pub proof fn lemma_frame_push(bs: Seq<Bucket>, b: Bucket, k: u32)
    requires
        uniq_keys(bs),
        !has_key(bs, b.key),
        k != b.key,
    ensures
        uniq_keys(bs.push(b)),
        child_seq(bs.push(b), k) == child_seq(bs, k),
        has_key(bs.push(b), b.key),
        key_at(bs.push(b), b.key) == bs.len(),
        child_seq(bs.push(b), b.key) == b.items@,
{
    let bs2 = bs.push(b);
    assert(uniq_keys(bs2)) by {
        assert forall|i: int, j: int| 0 <= i < j < bs2.len() implies bs2[i].key != bs2[j].key by {
            if j == bs.len() {
                assert(bs2[i] == bs[i]);
                if bs[i].key == b.key {
                    assert(has_key(bs, b.key));
                }
            }
        }
    }
    lemma_key_at(bs2, b.key, bs.len() as int);
    if has_key(bs, k) {
        let j = key_at(bs, k);
        lemma_key_at(bs, k, j);
        lemma_key_at(bs2, k, j);
    } else {
        if has_key(bs2, k) {
            let j = key_at(bs2, k);
            assert(0 <= j < bs2.len() && bs2[j].key == k);
            assert(j != bs.len());
            assert(bs[j].key == k);
        }
    }
}

/// Dropping a bucket leaves every other key's children unchanged.
pub proof fn lemma_frame_remove(bs: Seq<Bucket>, i: int, k: u32)
    requires
        uniq_keys(bs),
        0 <= i < bs.len(),
        k != bs[i].key,
    ensures
        uniq_keys(bs.remove(i)),
        child_seq(bs.remove(i), k) == child_seq(bs, k),
        !has_key(bs.remove(i), bs[i].key),
{
    let bs2 = bs.remove(i);
    assert(uniq_keys(bs2)) by {
        assert forall|p: int, q: int| 0 <= p < q < bs2.len() implies bs2[p].key != bs2[q].key by {
            let p0 = if p < i {
                p
            } else {
                p + 1
            };
            let q0 = if q < i {
                q
            } else {
                q + 1
            };
            assert(bs2[p] == bs[p0] && bs2[q] == bs[q0]);
        }
    }
    assert(!has_key(bs2, bs[i].key)) by {
        if has_key(bs2, bs[i].key) {
            let j = key_at(bs2, bs[i].key);
            let j0 = if j < i {
                j
            } else {
                j + 1
            };
            assert(bs2[j] == bs[j0]);
            assert(j0 != i);
            if j0 < i {
                assert(bs[j0].key != bs[i].key);
            } else {
                assert(bs[i].key != bs[j0].key);
            }
        }
    }
    if has_key(bs, k) {
        let j = key_at(bs, k);
        lemma_key_at(bs, k, j);
        assert(j != i);
        let j2 = if j < i {
            j
        } else {
            j - 1
        };
        assert(bs2[j2] == bs[j]);
        lemma_key_at(bs2, k, j2);
    } else {
        if has_key(bs2, k) {
            let j = key_at(bs2, k);
            let j0 = if j < i {
                j
            } else {
                j + 1
            };
            assert(bs2[j] == bs[j0]);
        }
    }
}

/// Id counts and total size after dropping the bucket at index `i`.
pub proof fn lemma_id_count_remove_bucket(bs: Seq<Bucket>, i: int)
    requires
        0 <= i < bs.len(),
    ensures
        forall|x: u32|
            id_count(bs.remove(i), x) + item_ids(bs[i].items@).to_multiset().count(x) == id_count(
                bs,
                x,
            ),
        total_items(bs.remove(i)) + bs[i].items@.len() == total_items(bs),
{
    broadcast use vstd::seq_lib::group_to_multiset_ensures;

    let pre = all_items(bs.take(i));
    let post = all_items(bs.skip(i + 1));
    lemma_all_items_split(bs, i);
    lemma_all_items_remove(bs, i);
    lemma_item_ids_concat(pre + bs[i].items@, post);
    lemma_item_ids_concat(pre, bs[i].items@);
    lemma_item_ids_concat(pre, post);
    vstd::seq_lib::lemma_multiset_commutative(item_ids(pre) + item_ids(bs[i].items@), item_ids(post));
    vstd::seq_lib::lemma_multiset_commutative(item_ids(pre), item_ids(bs[i].items@));
    vstd::seq_lib::lemma_multiset_commutative(item_ids(pre), item_ids(post));
}

/// An id is counted in the forest exactly when some bucket position holds
/// it.
pub proof fn lemma_has_id_iff(bs: Seq<Bucket>, x: u32)
    ensures
        has_id(bs, x) <==> exists|i: int, j: int|
            0 <= i < bs.len() && 0 <= j < bs[i].items@.len() && bs[i].items@[j].id == x,
    decreases bs.len(),
{
    broadcast use vstd::seq_lib::group_to_multiset_ensures;

    if bs.len() == 0 {
        assert(all_items(bs) =~= Seq::<Item>::empty());
        assert(item_ids(all_items(bs)) =~= Seq::<u32>::empty());
        assert(!item_ids(all_items(bs)).contains(x));
        if has_id(bs, x) {
            assert(item_ids(all_items(bs)).to_multiset().count(x) > 0);
            assert(item_ids(all_items(bs)).contains(x));
        }
    } else {
        let t = bs.drop_first();
        lemma_has_id_iff(t, x);
        let s0 = bs[0].items@;
        lemma_item_ids_concat(s0, all_items(t));
        vstd::seq_lib::lemma_multiset_commutative(item_ids(s0), item_ids(all_items(t)));
        assert(id_count(bs, x) == item_ids(s0).to_multiset().count(x) + id_count(t, x));
        if has_id(bs, x) {
            if item_ids(s0).to_multiset().count(x) > 0 {
                assert(item_ids(s0).contains(x));
                let j = choose|j: int| 0 <= j < item_ids(s0).len() && item_ids(s0)[j] == x;
                assert(bs[0].items@[j].id == x);
            } else {
                assert(has_id(t, x));
                let (i, j) = choose|i: int, j: int|
                    0 <= i < t.len() && 0 <= j < t[i].items@.len() && t[i].items@[j].id == x;
                assert(bs[i + 1].items@[j].id == x);
            }
        }
        if exists|i: int, j: int|
            0 <= i < bs.len() && 0 <= j < bs[i].items@.len() && bs[i].items@[j].id == x {
            let (i, j) = choose|i: int, j: int|
                0 <= i < bs.len() && 0 <= j < bs[i].items@.len() && bs[i].items@[j].id == x;
            if i == 0 {
                assert(item_ids(s0)[j] == x);
                assert(item_ids(s0).contains(x));
            } else {
                assert(t[i - 1].items@[j].id == x);
                assert(has_id(t, x));
            }
        }
    }
}

impl Forest {
    /// Well-formedness: the structural invariant together with the machine
    /// bound that makes sizes representable.
    pub open spec fn wf(&self) -> bool {
        &&& forest_wf(self.buckets@)
        &&& total_items(self.buckets@) < usize::MAX
    }

    /// The ordered children of parent `k`.
    pub open spec fn children(&self, k: u32) -> Seq<Item> {
        child_seq(self.buckets@, k)
    }

    /// Total number of items.
    pub open spec fn total(&self) -> nat {
        total_items(self.buckets@)
    }

    /// How many items carry id `x`; 0 or 1 under `wf`.
    pub open spec fn idc(&self, x: u32) -> nat {
        id_count(self.buckets@, x)
    }

    /// An empty forest.
    pub fn new() -> (f: Forest)
        ensures
            f.wf(),
            f.buckets@ == Seq::<Bucket>::empty(),
            f.total() == 0,
            forall|k: u32| f.children(k) == Seq::<Item>::empty(),
            forall|x: u32| f.idc(x) == 0,
    {
        let f = Forest { buckets: Vec::new() };
        proof {
            assert(all_items(f.buckets@) =~= Seq::<Item>::empty());
            assert(item_ids(all_items(f.buckets@)) =~= Seq::<u32>::empty());
            broadcast use vstd::seq_lib::group_to_multiset_ensures;

            assert forall|x: u32| f.idc(x) == 0 by {
                if f.idc(x) > 0 {
                    assert(item_ids(all_items(f.buckets@)).contains(x));
                }
            }
        }
        f
    }

    /// The index of the bucket keyed `key`, if one exists.
    pub fn find_bucket(&self, key: u32) -> (r: Option<usize>)
        ensures
            match r {
                Some(i) => i < self.buckets@.len() && self.buckets@[i as int].key == key,
                None => !has_key(self.buckets@, key),
            },
    {
        let mut i: usize = 0;
        while i < self.buckets.len()
            invariant
                i <= self.buckets@.len(),
                forall|j: int| 0 <= j < i ==> self.buckets@[j].key != key,
            decreases self.buckets@.len() - i,
        {
            if self.buckets[i].key == key {
                return Some(i);
            }
            i = i + 1;
        }
        None
    }

    /// The index of the bucket keyed `key`, which must exist.
    fn locate_bucket(&self, key: u32) -> (i: usize)
        requires
            has_key(self.buckets@, key),
        ensures
            i < self.buckets@.len(),
            self.buckets@[i as int].key == key,
    {
        match self.find_bucket(key) {
            Some(i) => i,
            None => {
                proof {
                    assert(false);
                }
                0
            },
        }
    }

    /// How many direct children parent `key` has.
    pub fn child_count(&self, key: u32) -> (n: usize)
        requires
            uniq_keys(self.buckets@),
        ensures
            n == self.children(key).len(),
    {
        match self.find_bucket(key) {
            Some(i) => {
                proof {
                    lemma_key_at(self.buckets@, key, i as int);
                }
                self.buckets[i].items.len()
            },
            None => 0,
        }
    }

    /// A copy of the child list of parent `key`; empty when the bucket is
    /// absent.
    pub fn children_of(&self, key: u32) -> (r: Vec<Item>)
        requires
            uniq_keys(self.buckets@),
        ensures
            r@ == self.children(key),
    {
        let mut r: Vec<Item> = Vec::new();
        match self.find_bucket(key) {
            Some(i) => {
                proof {
                    lemma_key_at(self.buckets@, key, i as int);
                }
                let n = self.buckets[i].items.len();
                let mut j: usize = 0;
                while j < n
                    invariant
                        n == self.buckets@[i as int].items@.len(),
                        i < self.buckets@.len(),
                        self.children(key) == self.buckets@[i as int].items@,
                        j <= n,
                        r@ == self.buckets@[i as int].items@.take(j as int),
                    decreases n - j,
                {
                    r.push(self.buckets[i].items[j].clone());
                    proof {
                        assert(r@ =~= self.buckets@[i as int].items@.take(j + 1));
                    }
                    j = j + 1;
                }
                proof {
                    assert(self.buckets@[i as int].items@.take(n as int) =~= self.buckets@[i as int].items@);
                }
            },
            None => {
                proof {
                    assert(self.children(key) =~= Seq::<Item>::empty());
                }
            },
        }
        r
    }

    /// A copy of the child of parent `key` at position `idx`.
    pub fn item_at(&self, key: u32, idx: usize) -> (r: Item)
        requires
            uniq_keys(self.buckets@),
            idx < self.children(key).len(),
        ensures
            r == self.children(key)[idx as int],
    {
        let i = self.locate_bucket(key);
        proof {
            lemma_key_at(self.buckets@, key, i as int);
        }
        self.buckets[i].items[idx].clone()
    }

    /// Whether some item of the forest carries id `x`.
    pub fn has_item_id(&self, x: u32) -> (r: bool)
        ensures
            r == has_id(self.buckets@, x),
    {
        let mut i: usize = 0;
        while i < self.buckets.len()
            invariant
                i <= self.buckets@.len(),
                forall|b: int, j: int|
                    0 <= b < i && 0 <= j < self.buckets@[b].items@.len()
                        ==> (#[trigger] self.buckets@[b].items@[j]).id != x,
            decreases self.buckets@.len() - i,
        {
            let n = self.buckets[i].items.len();
            let mut j: usize = 0;
            while j < n
                invariant
                    i < self.buckets@.len(),
                    n == self.buckets@[i as int].items@.len(),
                    j <= n,
                    forall|b: int, jj: int|
                        0 <= b < i && 0 <= jj < self.buckets@[b].items@.len()
                            ==> (#[trigger] self.buckets@[b].items@[jj]).id != x,
                    forall|jj: int|
                        0 <= jj < j ==> (#[trigger] self.buckets@[i as int].items@[jj]).id != x,
                decreases n - j,
            {
                if self.buckets[i].items[j].id == x {
                    proof {
                        lemma_has_id_iff(self.buckets@, x);
                    }
                    return true;
                }
                j = j + 1;
            }
            i = i + 1;
        }
        proof {
            lemma_has_id_iff(self.buckets@, x);
        }
        false
    }

    /// The greatest id present in the forest, or 0 when it is empty.
    pub fn max_id(&self) -> (m: u32)
        ensures
            forall|x: u32| has_id(self.buckets@, x) ==> x <= m,
            m != 0 ==> has_id(self.buckets@, m),
    {
        let mut m: u32 = 0;
        let mut i: usize = 0;
        while i < self.buckets.len()
            invariant
                i <= self.buckets@.len(),
                forall|b: int, j: int|
                    0 <= b < i && 0 <= j < self.buckets@[b].items@.len()
                        ==> (#[trigger] self.buckets@[b].items@[j]).id <= m,
                m != 0 ==> exists|b: int, j: int|
                    0 <= b < self.buckets@.len() && 0 <= j < self.buckets@[b].items@.len()
                        && (#[trigger] self.buckets@[b].items@[j]).id == m,
            decreases self.buckets@.len() - i,
        {
            let n = self.buckets[i].items.len();
            let mut j: usize = 0;
            while j < n
                invariant
                    i < self.buckets@.len(),
                    n == self.buckets@[i as int].items@.len(),
                    j <= n,
                    forall|b: int, jj: int|
                        0 <= b < i && 0 <= jj < self.buckets@[b].items@.len()
                            ==> (#[trigger] self.buckets@[b].items@[jj]).id <= m,
                    forall|jj: int|
                        0 <= jj < j ==> (#[trigger] self.buckets@[i as int].items@[jj]).id <= m,
                    m != 0 ==> exists|b: int, jj: int|
                        0 <= b < self.buckets@.len() && 0 <= jj < self.buckets@[b].items@.len()
                            && (#[trigger] self.buckets@[b].items@[jj]).id == m,
                decreases n - j,
            {
                let id = self.buckets[i].items[j].id;
                if id > m {
                    m = id;
                }
                j = j + 1;
            }
            i = i + 1;
        }
        proof {
            assert forall|x: u32| has_id(self.buckets@, x) implies x <= m by {
                lemma_has_id_iff(self.buckets@, x);
            }
            if m != 0 {
                lemma_has_id_iff(self.buckets@, m);
            }
        }
        m
    }

    /// Total number of items over all buckets, shown or hidden.
    pub fn count_items(&self) -> (n: usize)
        requires
            self.wf(),
        ensures
            n == self.total(),
    {
        let mut acc: usize = 0;
        let mut i: usize = 0;
        while i < self.buckets.len()
            invariant
                self.wf(),
                i <= self.buckets@.len(),
                acc == total_items(self.buckets@.take(i as int)),
                acc <= self.total(),
            decreases self.buckets@.len() - i,
        {
            proof {
                lemma_all_items_push(self.buckets@.take(i as int), self.buckets@[i as int]);
                assert(self.buckets@.take(i + 1) =~= self.buckets@.take(i as int).push(
                    self.buckets@[i as int],
                ));
                lemma_all_items_split(self.buckets@, i as int);
                assert(all_items(self.buckets@).len() == all_items(self.buckets@.take(i as int)).len()
                    + self.buckets@[i as int].items@.len() + all_items(
                    self.buckets@.skip(i + 1),
                ).len());
                assert(total_items(self.buckets@.take(i + 1)) <= self.total()) by {
                    lemma_all_items_prefix_bound(self.buckets@, i as int);
                }
            }
            acc = acc + self.buckets[i].items.len();
            i = i + 1;
        }
        proof {
            assert(self.buckets@.take(self.buckets@.len() as int) =~= self.buckets@);
        }
        acc
    }
}

/// A well-formed forest counts every id at most once.
pub proof fn lemma_counts_from_wf(bs: Seq<Bucket>)
    requires
        forest_wf(bs),
    ensures
        forall|x: u32| id_count(bs, x) <= 1,
{
    lemma_unique_ids_multiset(all_items(bs));
    assert forall|x: u32| id_count(bs, x) <= 1 by {
        assert(item_ids(all_items(bs)).to_multiset().count(x) <= 1);
    }
}

/// Unique keys, consistent buckets and single-counted ids make the forest
/// well-formed.
pub proof fn lemma_wf_from_counts(bs: Seq<Bucket>)
    requires
        uniq_keys(bs),
        forall|i: int| 0 <= i < bs.len() ==> bucket_ok(#[trigger] bs[i]),
        forall|x: u32| id_count(bs, x) <= 1,
    ensures
        forest_wf(bs),
{
    lemma_unique_ids_multiset(all_items(bs));
    assert forall|x: u32| item_ids(all_items(bs)).to_multiset().count(x) <= 1 by {
        assert(id_count(bs, x) <= 1);
    }
}

impl Forest {
    /// Remove and return the child of parent `key` at position `idx`.
    pub fn take_item(&mut self, key: u32, idx: usize) -> (r: Item)
        requires
            old(self).wf(),
            idx < old(self).children(key).len(),
        ensures
            final(self).wf(),
            r == old(self).children(key)[idx as int],
            r.parent_id == key && r.id != 0,
            final(self).children(key) == old(self).children(key).remove(idx as int),
            forall|k: u32| k != key ==> final(self).children(k) == old(self).children(k),
            forall|x: u32| x != r.id ==> final(self).idc(x) == old(self).idc(x),
            final(self).idc(r.id) + 1 == old(self).idc(r.id),
            final(self).total() + 1 == old(self).total(),
    {
        proof {
            assert(has_key(old(self).buckets@, key));
        }
        let i = self.locate_bucket(key);
        proof {
            lemma_key_at(self.buckets@, key, i as int);
        }
        let r = self.buckets[i].items.remove(idx);
        proof {
            let bs = old(self).buckets@;
            let s = bs[i as int].items@;
            let b2 = self.buckets@[i as int];
            assert(self.buckets@ == bs.update(i as int, b2));
            assert(b2.items@ == s.remove(idx as int));
            assert(bucket_ok(bs[i as int]));
            assert(r == s[idx as int]);
            assert forall|k: u32| k != key implies child_seq(self.buckets@, k) == child_seq(
                bs,
                k,
            ) by {
                lemma_frame_update(bs, i as int, b2, k);
            }
            let kk: u32 = if key == 0 {
                1
            } else {
                0
            };
            lemma_frame_update(bs, i as int, b2, kk);
            lemma_id_count_update(bs, i as int, b2);
            lemma_ids_remove(s, idx as int);
            lemma_id_at_position(s, idx as int);
            assert forall|x: u32| x != r.id implies id_count(self.buckets@, x) == id_count(
                bs,
                x,
            ) by {
                assert(item_ids(b2.items@).to_multiset().count(x) == item_ids(
                    s,
                ).to_multiset().count(x));
            }
            assert(id_count(self.buckets@, r.id) + 1 == id_count(bs, r.id));
            lemma_counts_from_wf(bs);
            assert forall|l: int|
                0 <= l < b2.items@.len() implies (#[trigger] b2.items@[l]).parent_id == key
                && b2.items@[l].id != 0 by {
                if l < idx {
                    assert(b2.items@[l] == s[l]);
                } else {
                    assert(b2.items@[l] == s[l + 1]);
                }
            }
            assert forall|p: int| 0 <= p < self.buckets@.len() implies bucket_ok(
                #[trigger] self.buckets@[p],
            ) by {
                if p != i {
                    assert(self.buckets@[p] == bs[p]);
                }
            }
            assert forall|x: u32| id_count(self.buckets@, x) <= 1 by {
                if x != r.id {
                    assert(id_count(self.buckets@, x) == id_count(bs, x));
                }
            }
            lemma_wf_from_counts(self.buckets@);
        }
        r
    }

    /// Insert `item` as the child of parent `key` at position `idx`,
    /// materializing the bucket if it is absent.
    pub fn put_item(&mut self, key: u32, idx: usize, item: Item)
        requires
            old(self).wf(),
            item.parent_id == key,
            item.id != 0,
            old(self).idc(item.id) == 0,
            idx <= old(self).children(key).len(),
            old(self).total() + 1 < usize::MAX,
        ensures
            final(self).wf(),
            final(self).children(key) == old(self).children(key).insert(idx as int, item),
            forall|k: u32| k != key ==> final(self).children(k) == old(self).children(k),
            forall|x: u32| x != item.id ==> final(self).idc(x) == old(self).idc(x),
            final(self).idc(item.id) == 1,
            final(self).total() == old(self).total() + 1,
    {
        let ghost bs = self.buckets@;
        match self.find_bucket(key) {
            Some(i) => {
                proof {
                    lemma_key_at(bs, key, i as int);
                }
                self.buckets[i].items.insert(idx, item);
                proof {
                    let s = bs[i as int].items@;
                    let b2 = self.buckets@[i as int];
                    assert(self.buckets@ == bs.update(i as int, b2));
                    assert(b2.items@ == s.insert(idx as int, item));
                    assert(bucket_ok(bs[i as int]));
                    assert forall|k: u32| k != key implies child_seq(self.buckets@, k) == child_seq(
                        bs,
                        k,
                    ) by {
                        lemma_frame_update(bs, i as int, b2, k);
                    }
                    let kk: u32 = if key == 0 {
                        1
                    } else {
                        0
                    };
                    lemma_frame_update(bs, i as int, b2, kk);
                    lemma_id_count_update(bs, i as int, b2);
                    lemma_ids_insert(s, idx as int, item);
                    assert forall|x: u32| x != item.id implies id_count(self.buckets@, x)
                        == id_count(bs, x) by {
                        assert(item_ids(b2.items@).to_multiset().count(x) == item_ids(
                            s,
                        ).to_multiset().count(x));
                    }
                    assert(id_count(self.buckets@, item.id) == id_count(bs, item.id) + 1);
                    lemma_counts_from_wf(bs);
                    assert forall|l: int|
                        0 <= l < b2.items@.len() implies (#[trigger] b2.items@[l]).parent_id == key
                        && b2.items@[l].id != 0 by {
                        if l < idx {
                            assert(b2.items@[l] == s[l]);
                        } else if l == idx {
                            assert(b2.items@[l] == item);
                        } else {
                            assert(b2.items@[l] == s[l - 1]);
                        }
                    }
                    assert forall|p: int| 0 <= p < self.buckets@.len() implies bucket_ok(
                        #[trigger] self.buckets@[p],
                    ) by {
                        if p != i {
                            assert(self.buckets@[p] == bs[p]);
                        }
                    }
                    assert forall|x: u32| id_count(self.buckets@, x) <= 1 by {
                        if x != item.id {
                            assert(id_count(self.buckets@, x) == id_count(bs, x));
                        }
                    }
                    lemma_wf_from_counts(self.buckets@);
                }
            },
            None => {
                let mut v: Vec<Item> = Vec::new();
                v.push(item);
                let b = Bucket { key, items: v };
                self.buckets.push(b);
                proof {
                    let b2 = self.buckets@[bs.len() as int];
                    assert(self.buckets@ == bs.push(b2));
                    assert(b2.items@ =~= Seq::<Item>::empty().push(item));
                    assert forall|k: u32| k != key implies child_seq(self.buckets@, k) == child_seq(
                        bs,
                        k,
                    ) by {
                        lemma_frame_push(bs, b2, k);
                    }
                    let kk: u32 = if key == 0 {
                        1
                    } else {
                        0
                    };
                    lemma_frame_push(bs, b2, kk);
                    assert(child_seq(bs, key) =~= Seq::<Item>::empty());
                    assert(child_seq(self.buckets@, key) =~= child_seq(bs, key).insert(
                        idx as int,
                        item,
                    ));
                    lemma_id_count_push(bs, b2);
                    broadcast use vstd::seq_lib::group_to_multiset_ensures;

                    assert(item_ids(b2.items@) =~= Seq::<u32>::empty().push(item.id));
                    assert forall|x: u32| x != item.id implies id_count(self.buckets@, x)
                        == id_count(bs, x) by {
                        assert(item_ids(b2.items@).to_multiset().count(x) == Seq::<
                            u32,
                        >::empty().to_multiset().insert(item.id).count(x));
                        if item_ids(b2.items@).to_multiset().count(x) != 0 {
                            assert(item_ids(b2.items@).contains(x));
                        }
                    }
                    assert(item_ids(b2.items@).to_multiset().count(item.id) == 1) by {
                        assert(item_ids(b2.items@).to_multiset() =~= Seq::<
                            u32,
                        >::empty().to_multiset().insert(item.id));
                    }
                    assert(id_count(self.buckets@, item.id) == 1);
                    lemma_counts_from_wf(bs);
                    assert forall|p: int| 0 <= p < self.buckets@.len() implies bucket_ok(
                        #[trigger] self.buckets@[p],
                    ) by {
                        if p < bs.len() {
                            assert(self.buckets@[p] == bs[p]);
                        } else {
                            assert(self.buckets@[p] == b2);
                            assert(forall|l: int|
                                0 <= l < b2.items@.len() ==> b2.items@[l] == item);
                        }
                    }
                    assert forall|x: u32| id_count(self.buckets@, x) <= 1 by {
                        if x != item.id {
                            assert(id_count(self.buckets@, x) == id_count(bs, x));
                        }
                    }
                    lemma_wf_from_counts(self.buckets@);
                }
            },
        }
    }

    /// Exchange the children of parent `key` at positions `i` and `j`.
    pub fn swap_items(&mut self, key: u32, i: usize, j: usize)
        requires
            old(self).wf(),
            i < old(self).children(key).len(),
            j < old(self).children(key).len(),
        ensures
            final(self).wf(),
            final(self).children(key) == old(self).children(key).update(
                i as int,
                old(self).children(key)[j as int],
            ).update(j as int, old(self).children(key)[i as int]),
            forall|k: u32| k != key ==> final(self).children(k) == old(self).children(k),
            forall|x: u32| final(self).idc(x) == old(self).idc(x),
            final(self).total() == old(self).total(),
    {
        proof {
            assert(has_key(old(self).buckets@, key));
        }
        let b = self.locate_bucket(key);
        proof {
            lemma_key_at(self.buckets@, key, b as int);
        }
        let ghost bs = self.buckets@;
        let ghost s = bs[b as int].items@;
        let vi = self.buckets[b].items[i].clone();
        let vj = self.buckets[b].items[j].clone();
        self.buckets[b].items[i] = vj;
        self.buckets[b].items[j] = vi;
        proof {
            let b2 = self.buckets@[b as int];
            assert(self.buckets@ == bs.update(b as int, b2));
            assert(b2.items@ == s.update(i as int, s[j as int]).update(j as int, s[i as int]));
            assert(bucket_ok(bs[b as int]));
            assert forall|k: u32| k != key implies child_seq(self.buckets@, k) == child_seq(
                bs,
                k,
            ) by {
                lemma_frame_update(bs, b as int, b2, k);
            }
            let kk: u32 = if key == 0 {
                1
            } else {
                0
            };
            lemma_frame_update(bs, b as int, b2, kk);
            lemma_id_count_update(bs, b as int, b2);
            lemma_ids_swap(s, i as int, j as int);
            assert forall|x: u32| id_count(self.buckets@, x) == id_count(bs, x) by {
                assert(item_ids(b2.items@).to_multiset().count(x) == item_ids(
                    s,
                ).to_multiset().count(x));
            }
            lemma_counts_from_wf(bs);
            assert forall|l: int|
                0 <= l < b2.items@.len() implies (#[trigger] b2.items@[l]).parent_id == key
                && b2.items@[l].id != 0 by {
                if l == i as int {
                    assert(b2.items@[l] == s[j as int] || b2.items@[l] == s[i as int]);
                } else if l == j as int {
                    assert(b2.items@[l] == s[i as int]);
                } else {
                    assert(b2.items@[l] == s[l]);
                }
            }
            assert forall|p: int| 0 <= p < self.buckets@.len() implies bucket_ok(
                #[trigger] self.buckets@[p],
            ) by {
                if p != b {
                    assert(self.buckets@[p] == bs[p]);
                }
            }
            assert forall|x: u32| id_count(self.buckets@, x) <= 1 by {
                assert(id_count(self.buckets@, x) == id_count(bs, x));
            }
            lemma_wf_from_counts(self.buckets@);
        }
    }

    /// Overwrite the child of parent `key` at position `idx` with an item
    /// that carries the same id.
    pub fn replace_item(&mut self, key: u32, idx: usize, item: Item)
        requires
            old(self).wf(),
            idx < old(self).children(key).len(),
            item.parent_id == key,
            item.id == old(self).children(key)[idx as int].id,
        ensures
            final(self).wf(),
            final(self).children(key) == old(self).children(key).update(idx as int, item),
            forall|k: u32| k != key ==> final(self).children(k) == old(self).children(k),
            forall|x: u32| final(self).idc(x) == old(self).idc(x),
            final(self).total() == old(self).total(),
    {
        proof {
            assert(has_key(old(self).buckets@, key));
        }
        let b = self.locate_bucket(key);
        proof {
            lemma_key_at(self.buckets@, key, b as int);
        }
        let ghost bs = self.buckets@;
        let ghost s = bs[b as int].items@;
        self.buckets[b].items[idx] = item;
        proof {
            let b2 = self.buckets@[b as int];
            assert(self.buckets@ == bs.update(b as int, b2));
            assert(b2.items@ == s.update(idx as int, item));
            assert(bucket_ok(bs[b as int]));
            assert forall|k: u32| k != key implies child_seq(self.buckets@, k) == child_seq(
                bs,
                k,
            ) by {
                lemma_frame_update(bs, b as int, b2, k);
            }
            let kk: u32 = if key == 0 {
                1
            } else {
                0
            };
            lemma_frame_update(bs, b as int, b2, kk);
            lemma_id_count_update(bs, b as int, b2);
            lemma_ids_update_same(s, idx as int, item);
            assert forall|x: u32| id_count(self.buckets@, x) == id_count(bs, x) by {
                assert(item_ids(b2.items@).to_multiset().count(x) == item_ids(
                    s,
                ).to_multiset().count(x));
            }
            lemma_counts_from_wf(bs);
            assert forall|l: int|
                0 <= l < b2.items@.len() implies (#[trigger] b2.items@[l]).parent_id == key
                && b2.items@[l].id != 0 by {
                if l != idx {
                    assert(b2.items@[l] == s[l]);
                }
            }
            assert forall|p: int| 0 <= p < self.buckets@.len() implies bucket_ok(
                #[trigger] self.buckets@[p],
            ) by {
                if p != b {
                    assert(self.buckets@[p] == bs[p]);
                }
            }
            assert forall|x: u32| id_count(self.buckets@, x) <= 1 by {
                assert(id_count(self.buckets@, x) == id_count(bs, x));
            }
            lemma_wf_from_counts(self.buckets@);
        }
    }

    /// Drop the whole bucket of parent `key`, if present: its direct
    /// children leave the forest.
    pub fn drop_bucket(&mut self, key: u32)
        requires
            old(self).wf(),
        ensures
            final(self).wf(),
            final(self).children(key) == Seq::<Item>::empty(),
            forall|k: u32| k != key ==> final(self).children(k) == old(self).children(k),
            forall|x: u32|
                final(self).idc(x) + item_ids(old(self).children(key)).to_multiset().count(x)
                    == old(self).idc(x),
            final(self).total() + old(self).children(key).len() == old(self).total(),
    {
        let ghost bs = self.buckets@;
        match self.find_bucket(key) {
            Some(i) => {
                proof {
                    lemma_key_at(bs, key, i as int);
                }
                self.buckets.remove(i);
                proof {
                    assert(self.buckets@ == bs.remove(i as int));
                    assert forall|k: u32| k != key implies child_seq(self.buckets@, k) == child_seq(
                        bs,
                        k,
                    ) by {
                        lemma_frame_remove(bs, i as int, k);
                    }
                    let kk: u32 = if key == 0 {
                        1
                    } else {
                        0
                    };
                    lemma_frame_remove(bs, i as int, kk);
                    assert(!has_key(self.buckets@, key));
                    lemma_id_count_remove_bucket(bs, i as int);
                    lemma_counts_from_wf(bs);
                    assert forall|p: int| 0 <= p < self.buckets@.len() implies bucket_ok(
                        #[trigger] self.buckets@[p],
                    ) by {
                        if p < i {
                            assert(self.buckets@[p] == bs[p]);
                        } else {
                            assert(self.buckets@[p] == bs[p + 1]);
                        }
                    }
                    assert forall|x: u32| id_count(self.buckets@, x) <= 1 by {
                        assert(id_count(self.buckets@, x) + item_ids(
                            bs[i as int].items@,
                        ).to_multiset().count(x) == id_count(bs, x));
                    }
                    lemma_wf_from_counts(self.buckets@);
                }
            },
            None => {
                proof {
                    assert(child_seq(bs, key) =~= Seq::<Item>::empty());
                    assert(item_ids(child_seq(bs, key)) =~= Seq::<u32>::empty());
                    broadcast use vstd::seq_lib::group_to_multiset_ensures;

                    assert forall|x: u32|
                        item_ids(child_seq(bs, key)).to_multiset().count(x) == 0 by {
                        if item_ids(child_seq(bs, key)).to_multiset().count(x) != 0 {
                            assert(item_ids(child_seq(bs, key)).contains(x));
                        }
                    }
                }
            },
        }
    }
}

/// The items of a strict prefix of the buckets, plus the items of the next
/// bucket, are no more than the whole.
pub proof fn lemma_all_items_prefix_bound(bs: Seq<Bucket>, i: int)
    requires
        0 <= i < bs.len(),
    ensures
        total_items(bs.take(i)) + bs[i].items@.len() <= total_items(bs),
{
    lemma_all_items_split(bs, i);
}

/// Where a bucket position lands inside `all_items`.
pub proof fn lemma_all_items_position(bs: Seq<Bucket>, b: int, j: int)
    requires
        0 <= b < bs.len(),
        0 <= j < bs[b].items@.len(),
    ensures
        total_items(bs.take(b)) + j < total_items(bs),
        all_items(bs)[total_items(bs.take(b)) + j] == bs[b].items@[j],
{
    lemma_all_items_split(bs, b);
}

/// Prefix sums of bucket sizes grow with the prefix.
pub proof fn lemma_total_take_mono(bs: Seq<Bucket>, a: int, c: int)
    requires
        0 <= a <= c <= bs.len(),
    ensures
        total_items(bs.take(a)) <= total_items(bs.take(c)),
    decreases c - a,
{
    if a < c {
        lemma_total_take_mono(bs, a, c - 1);
        lemma_all_items_push(bs.take(c - 1), bs[c - 1]);
        assert(bs.take(c) =~= bs.take(c - 1).push(bs[c - 1]));
    }
}

/// In a well-formed forest an id fixes its bucket position: no two
/// positions share an id.
pub proof fn lemma_position_unique(bs: Seq<Bucket>)
    requires
        forest_wf(bs),
    ensures
        forall|b1: int, j1: int, b2: int, j2: int|
            0 <= b1 < bs.len() && 0 <= j1 < bs[b1].items@.len() && 0 <= b2 < bs.len() && 0 <= j2
                < bs[b2].items@.len() && (b1 != b2 || j1 != j2) ==> (
            #[trigger] bs[b1].items@[j1]).id != (#[trigger] bs[b2].items@[j2]).id,
{
    assert forall|b1: int, j1: int, b2: int, j2: int|
        0 <= b1 < bs.len() && 0 <= j1 < bs[b1].items@.len() && 0 <= b2 < bs.len() && 0 <= j2
            < bs[b2].items@.len() && (b1 != b2 || j1 != j2) implies (
    #[trigger] bs[b1].items@[j1]).id != (#[trigger] bs[b2].items@[j2]).id by {
        lemma_all_items_position(bs, b1, j1);
        lemma_all_items_position(bs, b2, j2);
        let p1 = total_items(bs.take(b1)) + j1;
        let p2 = total_items(bs.take(b2)) + j2;
        if b1 < b2 {
            lemma_all_items_push(bs.take(b1), bs[b1]);
            assert(bs.take(b1 + 1) =~= bs.take(b1).push(bs[b1]));
            lemma_total_take_mono(bs, b1 + 1, b2);
            assert(p1 < p2);
        } else if b2 < b1 {
            lemma_all_items_push(bs.take(b2), bs[b2]);
            assert(bs.take(b2 + 1) =~= bs.take(b2).push(bs[b2]));
            lemma_total_take_mono(bs, b2 + 1, b1);
            assert(p2 < p1);
        }
        assert(p1 != p2);
        if p1 < p2 {
            assert(all_items(bs)[p1].id != all_items(bs)[p2].id);
        } else {
            assert(all_items(bs)[p2].id != all_items(bs)[p1].id);
        }
    }
}

/// In a well-formed forest the children of one parent carry pairwise
/// distinct ids.
pub proof fn lemma_children_unique(bs: Seq<Bucket>, k: u32)
    requires
        forest_wf(bs),
    ensures
        unique_ids(child_seq(bs, k)),
{
    lemma_position_unique(bs);
    if has_key(bs, k) {
        let b = key_at(bs, k);
        assert(0 <= b < bs.len() && bs[b].key == k);
        assert forall|i: int, j: int|
            0 <= i < j < child_seq(bs, k).len() implies child_seq(bs, k)[i].id != child_seq(
            bs,
            k,
        )[j].id by {
            assert(child_seq(bs, k)[i] == bs[b].items@[i]);
            assert(child_seq(bs, k)[j] == bs[b].items@[j]);
        }
    }
}

/// In a well-formed forest every child of parent `k` records `k` as its
/// parent and has a positive id.
pub proof fn lemma_child_parent(bs: Seq<Bucket>, k: u32)
    requires
        forest_wf(bs),
    ensures
        forall|j: int|
            0 <= j < child_seq(bs, k).len() ==> (#[trigger] child_seq(bs, k)[j]).parent_id == k
                && child_seq(bs, k)[j].id != 0,
{
    if has_key(bs, k) {
        let b = key_at(bs, k);
        assert(0 <= b < bs.len() && bs[b].key == k);
        assert(bucket_ok(bs[b]));
        assert forall|j: int|
            0 <= j < child_seq(bs, k).len() implies (#[trigger] child_seq(bs, k)[j]).parent_id == k
            && child_seq(bs, k)[j].id != 0 by {
            assert(child_seq(bs, k)[j] == bs[b].items@[j]);
        }
    }
}

impl Forest {
    /// The position of the child of parent `key` whose id is `id`: the
    /// first match, scanning in sibling order.
    pub fn index_of_id(&self, key: u32, id: u32) -> (r: Option<usize>)
        requires
            uniq_keys(self.buckets@),
        ensures
            match r {
                Some(j) => j < self.children(key).len() && self.children(key)[j as int].id == id
                    && forall|l: int| 0 <= l < j ==> self.children(key)[l].id != id,
                None => forall|l: int|
                    0 <= l < self.children(key).len() ==> self.children(key)[l].id != id,
            },
    {
        match self.find_bucket(key) {
            None => {
                proof {
                    assert(self.children(key) =~= Seq::<Item>::empty());
                }
                None
            },
            Some(b) => {
                proof {
                    lemma_key_at(self.buckets@, key, b as int);
                }
                let n = self.buckets[b].items.len();
                let mut j: usize = 0;
                while j < n
                    invariant
                        b < self.buckets@.len(),
                        self.children(key) == self.buckets@[b as int].items@,
                        n == self.children(key).len(),
                        j <= n,
                        forall|l: int| 0 <= l < j ==> self.children(key)[l].id != id,
                    decreases n - j,
                {
                    if self.buckets[b].items[j].id == id {
                        return Some(j);
                    }
                    j = j + 1;
                }
                None
            },
        }
    }

    /// The parent id recorded on the item whose id is `id`, or 0 when no
    /// such item exists.
    pub fn parent_of(&self, id: u32) -> (r: u32)
        requires
            forest_wf(self.buckets@),
        ensures
            !has_id(self.buckets@, id) ==> r == 0,
            forall|b: int, j: int|
                0 <= b < self.buckets@.len() && 0 <= j < self.buckets@[b].items@.len() && (
                #[trigger] self.buckets@[b].items@[j]).id == id ==> self.buckets@[b].items@[j].parent_id
                    == r,
    {
        let ghost bs = self.buckets@;
        let mut i: usize = 0;
        while i < self.buckets.len()
            invariant
                bs == self.buckets@,
                i <= bs.len(),
                forest_wf(bs),
                forall|b: int, j: int|
                    0 <= b < i && 0 <= j < bs[b].items@.len()
                        ==> (#[trigger] bs[b].items@[j]).id != id,
            decreases bs.len() - i,
        {
            let n = self.buckets[i].items.len();
            let mut j: usize = 0;
            while j < n
                invariant
                    bs == self.buckets@,
                    i < bs.len(),
                    n == bs[i as int].items@.len(),
                    j <= n,
                    forest_wf(bs),
                    forall|b: int, jj: int|
                        0 <= b < i && 0 <= jj < bs[b].items@.len()
                            ==> (#[trigger] bs[b].items@[jj]).id != id,
                    forall|jj: int|
                        0 <= jj < j ==> (#[trigger] bs[i as int].items@[jj]).id != id,
                decreases n - j,
            {
                if self.buckets[i].items[j].id == id {
                    let r = self.buckets[i].items[j].parent_id;
                    proof {
                        lemma_position_unique(bs);
                        lemma_has_id_iff(bs, id);
                        assert(bs[i as int].items@[j as int].id == id);
                        assert(has_id(bs, id));
                        assert forall|b: int, jj: int|
                            0 <= b < bs.len() && 0 <= jj < bs[b].items@.len() && (
                            #[trigger] bs[b].items@[jj]).id == id implies bs[b].items@[jj].parent_id
                            == r by {
                            assert(bs[i as int].items@[j as int].id == id);
                        }
                    }
                    return r;
                }
                j = j + 1;
            }
            i = i + 1;
        }
        proof {
            lemma_has_id_iff(bs, id);
        }
        0
    }
}

} // verus!
