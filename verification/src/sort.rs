//! Sorting the strings of a packed blob: a merge sort over their positions,
//! by the byte-wise lexicographic order of the strings.

use crate::soa::{packed_at, packed_get, packed_ok};
use crate::util::{
    bytes_lt, lemma_lex_le_transitive, lemma_lex_lt_irreflexive, lemma_lex_lt_total, lex_le,
};
use vstd::prelude::*;
use vstd::seq_lib::{lemma_multiset_commutative, to_multiset_build};

verus! {

broadcast use {vstd::multiset::group_multiset_axioms, vstd::seq_lib::group_to_multiset_ensures};

/// String `a` of the packing comes no later than string `b`.
pub open spec fn key_le(offsets: Seq<u32>, blob: Seq<u8>, a: usize, b: usize) -> bool {
    lex_le(packed_at(offsets, blob, a as int), packed_at(offsets, blob, b as int))
}

/// The positions in `r` are in the order of their strings.
pub open spec fn sorted_idx(offsets: Seq<u32>, blob: Seq<u8>, r: Seq<usize>) -> bool {
    forall|i: int, j: int| 0 <= i < j < r.len() ==> key_le(offsets, blob, r[i], r[j])
}

/// Every position in `r` is below `n`.
pub open spec fn all_below(r: Seq<usize>, n: int) -> bool {
    forall|i: int| 0 <= i < r.len() ==> (#[trigger] r[i]) < n
}

/// The positions `0` to `n - 1`, in order.
pub open spec fn iota(n: nat) -> Seq<usize> {
    Seq::new(n, |i: int| i as usize)
}

/// Whether `r` holds each of the positions `0` to `n - 1` once, in the
/// order of their strings.
pub open spec fn is_sorted_order(offsets: Seq<u32>, blob: Seq<u8>, n: nat, r: Seq<usize>) -> bool {
    &&& r.to_multiset() == iota(n).to_multiset()
    &&& all_below(r, n as int)
    &&& sorted_idx(offsets, blob, r)
}

/// Whether string `a` of the packing comes no later than string `b`.
fn path_le(offsets: &[u32], blob: &[u8], a: usize, b: usize) -> (r: bool)
    requires
        packed_ok(offsets@, blob@),
        a < offsets@.len(),
        b < offsets@.len(),
    ensures
        r == key_le(offsets@, blob@, a, b),
{
    let ka = packed_get(offsets, blob, a);
    let kb = packed_get(offsets, blob, b);
    proof {
        lemma_lex_lt_total(ka@, kb@);
        lemma_lex_lt_irreflexive(ka@);
    }
    !bytes_lt(kb, ka)
}

/// Merges two sorted runs into one.
fn merge(offsets: &[u32], blob: &[u8], left: &Vec<usize>, right: &Vec<usize>) -> (out: Vec<usize>)
    requires
        packed_ok(offsets@, blob@),
        all_below(left@, offsets@.len() as int),
        all_below(right@, offsets@.len() as int),
        sorted_idx(offsets@, blob@, left@),
        sorted_idx(offsets@, blob@, right@),
    ensures
        out@.to_multiset() == left@.to_multiset().add(right@.to_multiset()),
        all_below(out@, offsets@.len() as int),
        sorted_idx(offsets@, blob@, out@),
{
    let mut out: Vec<usize> = Vec::new();
    let mut i: usize = 0;
    let mut j: usize = 0;
    let nl = left.len();
    let nr = right.len();
    proof {
        assert(left@.take(0) =~= Seq::<usize>::empty());
        assert(right@.take(0) =~= Seq::<usize>::empty());
        assert(out@.to_multiset() =~= left@.take(0).to_multiset().add(
            right@.take(0).to_multiset(),
        ));
    }
    while i < nl || j < nr
        invariant
            i <= nl,
            j <= nr,
            nl == left@.len(),
            nr == right@.len(),
            packed_ok(offsets@, blob@),
            all_below(left@, offsets@.len() as int),
            all_below(right@, offsets@.len() as int),
            sorted_idx(offsets@, blob@, left@),
            sorted_idx(offsets@, blob@, right@),
            out@.to_multiset() == left@.take(i as int).to_multiset().add(
                right@.take(j as int).to_multiset(),
            ),
            all_below(out@, offsets@.len() as int),
            sorted_idx(offsets@, blob@, out@),
            forall|k: int|
                0 <= k < out@.len() && i < nl ==> key_le(
                    offsets@,
                    blob@,
                    #[trigger] out@[k],
                    left@[i as int],
                ),
            forall|k: int|
                0 <= k < out@.len() && j < nr ==> key_le(
                    offsets@,
                    blob@,
                    #[trigger] out@[k],
                    right@[j as int],
                ),
        decreases (nl - i) + (nr - j),
    {
        let take_left = if i >= nl {
            false
        } else if j >= nr {
            true
        } else {
            path_le(offsets, blob, left[i], right[j])
        };
        let ghost prev = out@;
        if take_left {
            let x = left[i];
            out.push(x);
            proof {
                assert(left@.take(i + 1) =~= left@.take(i as int).push(x));
                to_multiset_build(left@.take(i as int), x);
                to_multiset_build(prev, x);
                assert(out@.to_multiset() =~= left@.take(i + 1).to_multiset().add(
                    right@.take(j as int).to_multiset(),
                ));
                assert forall|a: int, b: int| 0 <= a < b < out@.len() implies key_le(
                    offsets@,
                    blob@,
                    out@[a],
                    out@[b],
                ) by {
                    if b < prev.len() {
                        assert(key_le(offsets@, blob@, prev[a], prev[b]));
                    } else {
                        assert(key_le(offsets@, blob@, prev[a], left@[i as int]));
                    }
                }
                assert forall|k: int| 0 <= k < out@.len() && i + 1 < nl implies key_le(
                    offsets@,
                    blob@,
                    #[trigger] out@[k],
                    left@[i + 1],
                ) by {
                    assert(key_le(offsets@, blob@, left@[i as int], left@[i + 1]));
                    if k < prev.len() {
                        assert(key_le(offsets@, blob@, prev[k], left@[i as int]));
                        lemma_lex_le_transitive(
                            packed_at(offsets@, blob@, prev[k] as int),
                            packed_at(offsets@, blob@, left@[i as int] as int),
                            packed_at(offsets@, blob@, left@[i + 1] as int),
                        );
                    }
                }
                assert forall|k: int| 0 <= k < out@.len() && j < nr implies key_le(
                    offsets@,
                    blob@,
                    #[trigger] out@[k],
                    right@[j as int],
                ) by {
                    if k < prev.len() {
                        assert(key_le(offsets@, blob@, prev[k], right@[j as int]));
                    }
                }
            }
            i += 1;
        } else {
            let x = right[j];
            out.push(x);
            proof {
                assert(right@.take(j + 1) =~= right@.take(j as int).push(x));
                to_multiset_build(right@.take(j as int), x);
                to_multiset_build(prev, x);
                assert(out@.to_multiset() =~= left@.take(i as int).to_multiset().add(
                    right@.take(j + 1).to_multiset(),
                ));
                if i < nl {
                    lemma_lex_lt_total(
                        packed_at(offsets@, blob@, left@[i as int] as int),
                        packed_at(offsets@, blob@, right@[j as int] as int),
                    );
                }
                assert forall|a: int, b: int| 0 <= a < b < out@.len() implies key_le(
                    offsets@,
                    blob@,
                    out@[a],
                    out@[b],
                ) by {
                    if b < prev.len() {
                        assert(key_le(offsets@, blob@, prev[a], prev[b]));
                    } else {
                        assert(key_le(offsets@, blob@, prev[a], right@[j as int]));
                    }
                }
                assert forall|k: int| 0 <= k < out@.len() && j + 1 < nr implies key_le(
                    offsets@,
                    blob@,
                    #[trigger] out@[k],
                    right@[j + 1],
                ) by {
                    assert(key_le(offsets@, blob@, right@[j as int], right@[j + 1]));
                    if k < prev.len() {
                        assert(key_le(offsets@, blob@, prev[k], right@[j as int]));
                        lemma_lex_le_transitive(
                            packed_at(offsets@, blob@, prev[k] as int),
                            packed_at(offsets@, blob@, right@[j as int] as int),
                            packed_at(offsets@, blob@, right@[j + 1] as int),
                        );
                    }
                }
                assert forall|k: int| 0 <= k < out@.len() && i < nl implies key_le(
                    offsets@,
                    blob@,
                    #[trigger] out@[k],
                    left@[i as int],
                ) by {
                    if k < prev.len() {
                        assert(key_le(offsets@, blob@, prev[k], left@[i as int]));
                    }
                }
            }
            j += 1;
        }
    }
    proof {
        assert(left@.take(nl as int) =~= left@);
        assert(right@.take(nr as int) =~= right@);
    }
    out
}

/// Sorts positions by their strings.
fn merge_sort(offsets: &[u32], blob: &[u8], v: Vec<usize>) -> (out: Vec<usize>)
    requires
        packed_ok(offsets@, blob@),
        all_below(v@, offsets@.len() as int),
    ensures
        out@.to_multiset() == v@.to_multiset(),
        all_below(out@, offsets@.len() as int),
        sorted_idx(offsets@, blob@, out@),
    decreases v@.len(),
{
    let n = v.len();
    if n <= 1 {
        return v;
    }
    let mid = n / 2;
    let mut left = v;
    let ghost whole = left@;
    let right = left.split_off(mid);
    proof {
        assert(left@ + right@ =~= whole);
        lemma_multiset_commutative(left@, right@);
        assert forall|i: int| 0 <= i < left@.len() implies (#[trigger] left@[i]) < offsets@.len() by {
            assert(left@[i] == whole[i]);
        }
        assert forall|i: int| 0 <= i < right@.len() implies (#[trigger] right@[i])
            < offsets@.len() by {
            assert(right@[i] == whole[mid + i]);
        }
    }
    let sl = merge_sort(offsets, blob, left);
    let sr = merge_sort(offsets, blob, right);
    merge(offsets, blob, &sl, &sr)
}

/// The positions `0` to `n - 1` of a packing, in the order of their
/// strings.
pub fn sort_by_path(offsets: &[u32], blob: &[u8], n: usize) -> (order: Vec<usize>)
    requires
        packed_ok(offsets@, blob@),
        n <= offsets@.len(),
    ensures
        is_sorted_order(offsets@, blob@, n as nat, order@),
{
    let mut v: Vec<usize> = Vec::new();
    let mut i: usize = 0;
    while i < n
        invariant
            i <= n,
            n <= offsets@.len(),
            v@ == iota(i as nat),
        decreases n - i,
    {
        v.push(i);
        assert(v@ =~= iota((i + 1) as nat));
        i += 1;
    }
    let out = merge_sort(offsets, blob, v);
    proof {
        assert forall|k: int| 0 <= k < out@.len() implies (#[trigger] out@[k]) < n by {
            vstd::seq_lib::to_multiset_contains(out@, out@[k]);
            vstd::seq_lib::to_multiset_contains(iota(n as nat), out@[k]);
            assert(out@.contains(out@[k]));
            let w = choose|w: int| 0 <= w < iota(n as nat).len() && iota(n as nat)[w] == out@[k];
        }
    }
    out
}

/// A sorted order holds every position: each `i` below `n` stands
/// somewhere in it, and it has `n` places.
pub proof fn lemma_sorted_order_complete(
    offsets: Seq<u32>,
    blob: Seq<u8>,
    n: nat,
    r: Seq<usize>,
    i: usize,
)
    requires
        is_sorted_order(offsets, blob, n, r),
        i < n,
    ensures
        r.len() == n,
        exists|k: int| 0 <= k < r.len() && r[k] == i,
{
    vstd::seq_lib::to_multiset_len(r);
    vstd::seq_lib::to_multiset_len(iota(n));
    vstd::seq_lib::to_multiset_contains(r, i);
    vstd::seq_lib::to_multiset_contains(iota(n), i);
    assert(iota(n)[i as int] == i);
    assert(iota(n).contains(i));
    assert(r.contains(i));
    let k = choose|k: int| 0 <= k < r.len() && r[k] == i;
    assert(0 <= k < r.len() && r[k] == i);
}

/// A sequence taken in an order that holds every position once has the
/// elements of the sequence, each as often as the sequence has it.
pub proof fn lemma_permuted<A>(s: Seq<A>, order: Seq<usize>, t: Seq<A>)
    requires
        s.len() <= usize::MAX,
        order.to_multiset() == iota(s.len()).to_multiset(),
        all_below(order, s.len() as int),
        t.len() == order.len(),
        forall|k: int| 0 <= k < t.len() ==> t[k] == s[order[k] as int],
    ensures
        t.to_multiset() == s.to_multiset(),
    decreases s.len(),
{
    let n = s.len();
    vstd::seq_lib::to_multiset_len(order);
    vstd::seq_lib::to_multiset_len(iota(n));
    if n == 0 {
        assert(t =~= s);
    } else {
        let last = (n - 1) as usize;
        let fewer = iota((n - 1) as nat);
        assert(iota(n) =~= fewer.push(last));
        vstd::seq_lib::to_multiset_build(fewer, last);
        vstd::seq_lib::to_multiset_contains(order, last);
        vstd::seq_lib::to_multiset_contains(fewer, last);
        assert(!fewer.contains(last)) by {
            if fewer.contains(last) {
                let w = choose|w: int| 0 <= w < fewer.len() && fewer[w] == last;
                assert(fewer[w] == w as usize);
            }
        }
        assert(order.contains(last));
        let p = choose|p: int| 0 <= p < order.len() && order[p] == last;
        let order2 = order.remove(p);
        let s2 = s.drop_last();
        let t2 = t.remove(p);
        vstd::seq_lib::to_multiset_remove(order, p);
        vstd::seq_lib::to_multiset_remove(t, p);
        assert(order2.to_multiset() =~= fewer.to_multiset());
        vstd::seq_lib::to_multiset_contains(order2, last);
        assert forall|k: int| 0 <= k < order2.len() implies (#[trigger] order2[k]) < n - 1 by {
            let k0 = if k < p { k } else { k + 1 };
            assert(order2[k] == order[k0]);
            assert(order[k0] < n);
            if order2[k] == last {
                assert(order2.contains(last));
            }
        }
        assert forall|k: int| 0 <= k < t2.len() implies t2[k] == s2[order2[k] as int] by {
            let k0 = if k < p { k } else { k + 1 };
            assert(t2[k] == t[k0]);
            assert(order2[k] == order[k0]);
        }
        lemma_permuted(s2, order2, t2);
        assert(s =~= s2.push(s.last()));
        vstd::seq_lib::to_multiset_build(s2, s.last());
        vstd::seq_lib::to_multiset_contains(t, t[p]);
        assert(t.contains(t[p]));
        assert(t.to_multiset() =~= t2.to_multiset().insert(t[p]));
    }
}

} // verus!
