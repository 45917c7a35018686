//! The flattener: a depth-first pre-order projection of the forest into the
//! ordered, render-ready run of items, descending into an item's children
//! exactly when its expansion level shows them. The recursion carries a fuel
//! bound; a fuel of one more than the item count is enough for any forest
//! whose parent links form a tree.

use vstd::prelude::*;

use crate::forest::{child_seq, has_key, uniq_keys, Bucket, Forest};
use crate::forest::lemma_key_at;
use crate::item::{shows_children, Item};

verus! {

/// `it` as the flattener emits it: the same entry at recomputed depth `d`.
pub open spec fn at_depth(it: Item, d: int) -> Item {
    Item { depth: d as usize, ..it }
}

/// The flattened run below parent `pid`, at depth `d`, descending at most
/// `fuel` levels.
pub open spec fn flatten_bucket(bs: Seq<Bucket>, pid: u32, d: int, fuel: nat) -> Seq<Item>
    decreases fuel, 0int, 0int,
{
    if fuel == 0 {
        Seq::<Item>::empty()
    } else {
        flatten_items(bs, child_seq(bs, pid), d, (fuel - 1) as nat)
    }
}

/// The flattened run of the items `items` (children of one parent, at depth
/// `d`) followed, for each, by its shown descendants.
pub open spec fn flatten_items(bs: Seq<Bucket>, items: Seq<Item>, d: int, fuel: nat) -> Seq<Item>
    decreases fuel, 1int, items.len(),
{
    if items.len() == 0 {
        Seq::<Item>::empty()
    } else {
        let it = items[0];
        let kids = if shows_children(it.expand) {
            flatten_bucket(bs, it.id, d + 1, fuel)
        } else {
            Seq::<Item>::empty()
        };
        seq![at_depth(it, d)] + kids + flatten_items(bs, items.drop_first(), d, fuel)
    }
}

/// The run the display shows: the flatten of the whole forest from the root
/// bucket, with enough fuel to exhaust any tree-shaped forest.
pub open spec fn flat_display(f: Forest) -> Seq<Item> {
    flatten_bucket(f.buckets@, 0, 0, f.total() + 1)
}

/// `flatten_items` distributes over concatenation of sibling runs.
pub proof fn lemma_flatten_items_concat(bs: Seq<Bucket>, a: Seq<Item>, b: Seq<Item>, d: int, fuel: nat)
    ensures
        flatten_items(bs, a + b, d, fuel) == flatten_items(bs, a, d, fuel) + flatten_items(
            bs,
            b,
            d,
            fuel,
        ),
    decreases a.len(),
{
    if a.len() == 0 {
        assert(a + b =~= b);
        assert(flatten_items(bs, a, d, fuel) =~= Seq::<Item>::empty());
        assert(flatten_items(bs, a + b, d, fuel) =~= flatten_items(bs, a, d, fuel)
            + flatten_items(bs, b, d, fuel));
    } else {
        lemma_flatten_items_concat(bs, a.drop_first(), b, d, fuel);
        assert((a + b).drop_first() =~= a.drop_first() + b);
        assert((a + b)[0] == a[0]);
        assert(flatten_items(bs, a + b, d, fuel) =~= flatten_items(bs, a, d, fuel)
            + flatten_items(bs, b, d, fuel));
    }
}

/// Flatten the subtree below `pid` at depth `depth`, descending at most
/// `fuel` levels.
pub fn flatten_from(f: &Forest, pid: u32, depth: usize, fuel: usize) -> (r: Vec<Item>)
    requires
        uniq_keys(f.buckets@),
        depth + fuel <= usize::MAX,
    ensures
        r@ == flatten_bucket(f.buckets@, pid, depth as int, fuel as nat),
    decreases fuel,
{
    let mut r: Vec<Item> = Vec::new();
    if fuel == 0 {
        return r;
    }
    let ghost bs = f.buckets@;
    let ghost fu = (fuel - 1) as nat;
    match f.find_bucket(pid) {
        None => {
            proof {
                assert(child_seq(bs, pid) =~= Seq::<Item>::empty());
                assert(flatten_bucket(bs, pid, depth as int, fuel as nat) =~= Seq::<Item>::empty());
            }
            r
        },
        Some(bi) => {
            proof {
                lemma_key_at(bs, pid, bi as int);
            }
            let ghost s = f.buckets@[bi as int].items@;
            let n = f.buckets[bi].items.len();
            let mut j: usize = 0;
            while j < n
                invariant
                    uniq_keys(f.buckets@),
                    bi < f.buckets@.len(),
                    f.buckets@ == bs,
                    s == bs[bi as int].items@,
                    child_seq(bs, pid) == s,
                    n == s.len(),
                    j <= n,
                    fu == (fuel - 1) as nat,
                    1 <= fuel,
                    depth + fuel <= usize::MAX,
                    r@ == flatten_items(bs, s.take(j as int), depth as int, fu),
                decreases n - j,
            {
                let base = f.buckets[bi].items[j].clone();
                let cid = base.id;
                let show = base.should_show_children();
                let mut it = base;
                it.depth = depth;
                proof {
                    assert(it == at_depth(s[j as int], depth as int));
                }
                r.push(it);
                if show {
                    let mut sub = flatten_from(f, cid, depth + 1, fuel - 1);
                    r.append(&mut sub);
                }
                proof {
                    let single = seq![s[j as int]];
                    assert(s.take(j + 1) =~= s.take(j as int) + single);
                    lemma_flatten_items_concat(bs, s.take(j as int), single, depth as int, fu);
                    assert(single.drop_first() =~= Seq::<Item>::empty());
                    assert(flatten_items(bs, single.drop_first(), depth as int, fu) =~= Seq::<
                        Item,
                    >::empty());
                    assert(single[0] == s[j as int]);
                    let kids = if shows_children(s[j as int].expand) {
                        flatten_bucket(bs, s[j as int].id, depth + 1, fu)
                    } else {
                        Seq::<Item>::empty()
                    };
                    assert(flatten_items(bs, single, depth as int, fu) =~= seq![
                        at_depth(s[j as int], depth as int),
                    ] + kids);
                    assert(r@ =~= flatten_items(bs, s.take(j + 1), depth as int, fu));
                }
                j = j + 1;
            }
            proof {
                assert(s.take(n as int) =~= s);
            }
            r
        },
    }
}

} // verus!
