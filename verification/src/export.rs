//! Plain-text export: the forest (or a subtree) rendered as an indented
//! outline, one line per item with a per-level number, children rendered
//! recursively beneath their parent. Used for markup export, not for
//! persistence; expansion state is ignored here.

use vstd::prelude::*;

use crate::forest::{child_seq, has_key, uniq_keys, Bucket, Forest};
use crate::forest::lemma_key_at;
use crate::item::Item;
use vstd::string::StringExecFns;

verus! {

/// The decimal digit `d` as a character; meaningful for `d < 10`.
pub open spec fn digit_char(d: nat) -> char {
    if d == 0 {
        '0'
    } else if d == 1 {
        '1'
    } else if d == 2 {
        '2'
    } else if d == 3 {
        '3'
    } else if d == 4 {
        '4'
    } else if d == 5 {
        '5'
    } else if d == 6 {
        '6'
    } else if d == 7 {
        '7'
    } else if d == 8 {
        '8'
    } else {
        '9'
    }
}

/// `n` written in decimal, most significant digit first.
pub open spec fn dec_digits(n: nat) -> Seq<char>
    decreases n,
{
    if n < 10 {
        seq![digit_char(n)]
    } else {
        dec_digits(n / 10).push(digit_char(n % 10))
    }
}

/// Four spaces of indent for every nesting level.
pub open spec fn indent_of(depth: nat) -> Seq<char>
    decreases depth,
{
    if depth == 0 {
        Seq::<char>::empty()
    } else {
        indent_of((depth - 1) as nat) + seq![' ', ' ', ' ', ' ']
    }
}

/// The exported text of the bucket keyed `key` at nesting level `depth`,
/// descending at most `fuel` levels.
pub open spec fn export_bucket(bs: Seq<Bucket>, key: u32, depth: nat, fuel: nat) -> Seq<char>
    decreases fuel, 0int, 0int,
{
    if fuel == 0 {
        Seq::<char>::empty()
    } else {
        export_items(bs, child_seq(bs, key), depth, 1, (fuel - 1) as nat)
    }
}

/// The exported lines of the items `items` at level `depth`, the first
/// numbered `num`, each followed by its own bucket's export when that
/// bucket exists.
pub open spec fn export_items(bs: Seq<Bucket>, items: Seq<Item>, depth: nat, num: nat, fuel: nat) -> Seq<char>
    decreases fuel, 1int, items.len(),
{
    if items.len() == 0 {
        Seq::<char>::empty()
    } else {
        let line = indent_of(depth) + dec_digits(num) + seq!['.', ' '] + items[0].title@
            + seq!['\n'];
        let sub = if has_key(bs, items[0].id) {
            export_bucket(bs, items[0].id, depth + 1, fuel)
        } else {
            Seq::<char>::empty()
        };
        line + sub + export_items(bs, items.drop_first(), depth, num + 1, fuel)
    }
}

/// `export_items` splits around a concatenation of sibling runs.
pub proof fn lemma_export_items_concat(
    bs: Seq<Bucket>,
    a: Seq<Item>,
    b: Seq<Item>,
    depth: nat,
    num: nat,
    fuel: nat,
)
    ensures
        export_items(bs, a + b, depth, num, fuel) == export_items(bs, a, depth, num, fuel)
            + export_items(bs, b, depth, num + a.len(), fuel),
    decreases a.len(),
{
    if a.len() == 0 {
        assert(a + b =~= b);
        assert(export_items(bs, a, depth, num, fuel) == Seq::<char>::empty());
        assert(export_items(bs, a + b, depth, num, fuel) =~= export_items(bs, a, depth, num, fuel)
            + export_items(bs, b, depth, num + a.len(), fuel));
    } else {
        lemma_export_items_concat(bs, a.drop_first(), b, depth, num + 1, fuel);
        assert((a + b).drop_first() =~= a.drop_first() + b);
        assert((a + b)[0] == a[0]);
        assert(export_items(bs, a + b, depth, num, fuel) =~= export_items(bs, a, depth, num, fuel)
            + export_items(bs, b, depth, num + a.len(), fuel));
    }
}

/// One decimal digit as a string slice.
fn digit_str(d: usize) -> (s: &'static str)
    requires
        d < 10,
    ensures
        s@ == seq![digit_char(d as nat)],
{
    let r: &'static str = if d == 0 {
        "0"
    } else if d == 1 {
        "1"
    } else if d == 2 {
        "2"
    } else if d == 3 {
        "3"
    } else if d == 4 {
        "4"
    } else if d == 5 {
        "5"
    } else if d == 6 {
        "6"
    } else if d == 7 {
        "7"
    } else if d == 8 {
        "8"
    } else {
        "9"
    };
    proof {
        reveal_strlit("0");
        reveal_strlit("1");
        reveal_strlit("2");
        reveal_strlit("3");
        reveal_strlit("4");
        reveal_strlit("5");
        reveal_strlit("6");
        reveal_strlit("7");
        reveal_strlit("8");
        reveal_strlit("9");
        assert(r@ =~= seq![digit_char(d as nat)]);
    }
    r
}

/// `n` written in decimal.
pub fn usize_to_string(n: usize) -> (s: String)
    ensures
        s@ == dec_digits(n as nat),
    decreases n,
{
    if n < 10 {
        let mut s = String::new();
        s.append(digit_str(n));
        proof {
            assert(s@ =~= dec_digits(n as nat));
        }
        s
    } else {
        let mut s = usize_to_string(n / 10);
        s.append(digit_str(n % 10));
        proof {
            assert(s@ =~= dec_digits(n as nat));
        }
        s
    }
}

/// Four spaces for every nesting level.
fn make_indent(depth: u16) -> (s: String)
    ensures
        s@ == indent_of(depth as nat),
{
    let mut s = String::new();
    let mut i: u16 = 0;
    proof {
        reveal_strlit("    ");
    }
    while i < depth
        invariant
            i <= depth,
            s@ == indent_of(i as nat),
            "    "@ =~= seq![' ', ' ', ' ', ' '],
        decreases depth - i,
    {
        s.append("    ");
        proof {
            assert(s@ =~= indent_of((i + 1) as nat));
        }
        i = i + 1;
    }
    s
}

/// Render the bucket keyed `list_idx` and, recursively, the buckets of its
/// items, as numbered, indented outline lines. Pure: two calls on one
/// forest return the same text.
pub fn list_into_string(list: &Forest, list_idx: u32, depth: u16) -> (s: String)
    requires
        list.wf(),
        depth + list.total() + 1 <= u16::MAX,
    ensures
        s@ == export_bucket(list.buckets@, list_idx, depth as nat, list.total() + 1),
{
    let fuel = self_fuel(list);
    export_from(list, list_idx, depth, fuel)
}

/// The fuel that exhausts any tree-shaped forest: one more than the item
/// count.
fn self_fuel(list: &Forest) -> (fuel: u16)
    requires
        list.wf(),
        list.total() + 1 <= u16::MAX,
    ensures
        fuel == list.total() + 1,
{
    let n = list.count_items();
    proof {
        assert(n + 1 <= u16::MAX);
    }
    #[verifier::truncate] ((n + 1) as u16)
}

/// Render the bucket keyed `key` at level `depth`, descending at most
/// `fuel` levels.
fn export_from(list: &Forest, key: u32, depth: u16, fuel: u16) -> (s: String)
    requires
        uniq_keys(list.buckets@),
        depth + fuel <= u16::MAX,
    ensures
        s@ == export_bucket(list.buckets@, key, depth as nat, fuel as nat),
    decreases fuel,
{
    let mut out = String::new();
    if fuel == 0 {
        return out;
    }
    let ghost bs = list.buckets@;
    let ghost fu = (fuel - 1) as nat;
    match list.find_bucket(key) {
        None => {
            proof {
                assert(child_seq(bs, key) =~= Seq::<Item>::empty());
                assert(export_bucket(bs, key, depth as nat, fuel as nat) =~= Seq::<char>::empty());
            }
            out
        },
        Some(bi) => {
            proof {
                lemma_key_at(bs, key, bi as int);
                reveal_strlit(". ");
                reveal_strlit("\n");
            }
            let ghost s0 = bs[bi as int].items@;
            let n = list.buckets[bi].items.len();
            let mut j: usize = 0;
            while j < n
                invariant
                    uniq_keys(list.buckets@),
                    list.buckets@ == bs,
                    bi < bs.len(),
                    s0 == bs[bi as int].items@,
                    child_seq(bs, key) == s0,
                    n == s0.len(),
                    j <= n,
                    fu == (fuel - 1) as nat,
                    1 <= fuel,
                    depth + fuel <= u16::MAX,
                    out@ == export_items(bs, s0.take(j as int), depth as nat, 1, fu),
                    ". "@ =~= seq!['.', ' '],
                    "\n"@ =~= seq!['\n'],
                decreases n - j,
            {
                let ind = make_indent(depth);
                out.append(ind.as_str());
                let num = usize_to_string(j + 1);
                out.append(num.as_str());
                out.append(". ");
                out.append(list.buckets[bi].items[j].title.as_str());
                out.append("\n");
                let cid = list.buckets[bi].items[j].id;
                match list.find_bucket(cid) {
                    Some(_) => {
                        let sub = export_from(list, cid, depth + 1, fuel - 1);
                        out.append(sub.as_str());
                    },
                    None => {
                        proof {
                            assert(!has_key(bs, cid));
                        }
                    },
                }
                proof {
                    let single = seq![s0[j as int]];
                    assert(s0.take(j + 1) =~= s0.take(j as int) + single);
                    lemma_export_items_concat(bs, s0.take(j as int), single, depth as nat, 1, fu);
                    assert(single.drop_first() =~= Seq::<Item>::empty());
                    assert(export_items(bs, single.drop_first(), depth as nat, (1 + j + 1) as nat, fu)
                        =~= Seq::<char>::empty());
                    assert(single[0] == s0[j as int]);
                    assert(out@ =~= export_items(bs, s0.take(j + 1), depth as nat, 1, fu));
                }
                j = j + 1;
            }
            proof {
                assert(s0.take(n as int) =~= s0);
            }
            out
        },
    }
}

} // verus!
