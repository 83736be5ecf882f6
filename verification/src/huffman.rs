//! Building the Huffman code table.
//!
//! A node of the merge is either a leaf — one character with its count —
//! or an interior node carrying the code map of its subtree. The builder
//! seeds a worklist with one leaf per frequency entry and repeatedly merges
//! the two least nodes, ordering nodes by count with the least contained
//! character as the deterministic tie-break, until a single node carries
//! the whole code table. Merging prepends `0` to the codes of the
//! first-popped node and `1` to those of the second.

use crate::assoc::{has_key, keys_sorted, spec_lookup, spec_put};
use crate::bits::{bit_vec_capacity, NewBitVec};
use crate::codes::{
    codes_view, is_prefix_of, lemma_has_key_iff, lemma_merge_maps, lemma_prefix_after_prepend,
    lemma_prepend_lookup, lemma_prepend_sorted, map_prefix_free, maps_disjoint, merge_maps,
    prepend,
};
use vstd::prelude::*;

verus! {

/// A node of the merge, abstractly: its count and its code map.
pub type SpecNode = (nat, Seq<(char, Seq<bool>)>);

/// The node a single frequency entry seeds: the character alone, coded by
/// the empty bit sequence.
pub open spec fn leaf_node(c: char, n: nat) -> SpecNode {
    (n, seq![(c, Seq::<bool>::empty())])
}

/// Shape of every node the merge handles: a sorted map, a lone character
/// coded by no bits, two or more characters coded prefix-free by at least
/// one bit each, and no code longer than the map allows.
pub open spec fn node_wf(n: SpecNode) -> bool {
    &&& keys_sorted(n.1)
    &&& n.1.len() >= 1
    &&& (n.1.len() == 1 ==> n.1[0].1 == Seq::<bool>::empty())
    &&& (n.1.len() >= 2 ==> (forall|i: int|
        #![trigger n.1[i]]
        0 <= i < n.1.len() ==> n.1[i].1.len() >= 1))
    &&& (n.1.len() >= 2 ==> map_prefix_free(n.1))
    &&& (forall|i: int| #![trigger n.1[i]] 0 <= i < n.1.len() ==> n.1[i].1.len() <= n.1.len() - 1)
}

/// Merges two nodes: counts add up; the first node's codes gain a leading
/// `0`, the second node's a leading `1`.
pub open spec fn spec_combine(l: SpecNode, r: SpecNode) -> SpecNode {
    ((l.0 + r.0) as nat, merge_maps(prepend(l.1, false), prepend(r.1, true)))
}

/// The merge order: by count, then by least contained character.
pub open spec fn node_lt(a: SpecNode, b: SpecNode) -> bool {
    a.0 < b.0 || (a.0 == b.0 && (a.1[0].0 as int) < (b.1[0].0 as int))
}

/// Puts a node behind every strictly lesser one.
pub open spec fn insert_node(ws: Seq<SpecNode>, n: SpecNode) -> Seq<SpecNode>
    decreases ws.len(),
{
    if ws.len() == 0 {
        seq![n]
    } else if node_lt(ws[0], n) {
        seq![ws[0]] + insert_node(ws.drop_first(), n)
    } else {
        seq![n] + ws
    }
}

/// The worklist the frequency table seeds: one leaf per entry, in merge
/// order.
pub open spec fn seed_nodes(freq: Seq<(char, nat)>) -> Seq<SpecNode>
    decreases freq.len(),
{
    if freq.len() == 0 {
        Seq::<SpecNode>::empty()
    } else {
        insert_node(seed_nodes(freq.drop_last()), leaf_node(freq.last().0, freq.last().1))
    }
}

/// Inserting grows the worklist by one.
pub proof fn lemma_insert_node_len(ws: Seq<SpecNode>, n: SpecNode)
    ensures
        insert_node(ws, n).len() == ws.len() + 1,
    decreases ws.len(),
{
    if ws.len() > 0 && node_lt(ws[0], n) {
        lemma_insert_node_len(ws.drop_first(), n);
    }
}

/// The node that remains when the worklist has merged down to one: its
/// map is the code table.
pub open spec fn spec_build(ws: Seq<SpecNode>) -> SpecNode
    decreases ws.len(),
    via spec_build_decreases
{
    if ws.len() == 0 {
        (0nat, Seq::<(char, Seq<bool>)>::empty())
    } else if ws.len() == 1 {
        ws[0]
    } else {
        spec_build(insert_node(ws.drop_first().drop_first(), spec_combine(ws[0], ws[1])))
    }
}

#[via_fn]
proof fn spec_build_decreases(ws: Seq<SpecNode>) {
    if ws.len() >= 2 {
        lemma_insert_node_len(ws.drop_first().drop_first(), spec_combine(ws[0], ws[1]));
    }
}

/// The code table a frequency table builds.
pub open spec fn spec_table_of(freq: Seq<(char, nat)>) -> Seq<(char, Seq<bool>)> {
    spec_build(seed_nodes(freq)).1
}

/// Every node is well formed and no character lives in two nodes.
pub open spec fn ws_wf(ws: Seq<SpecNode>) -> bool {
    &&& (forall|k: int| #![trigger ws[k]] 0 <= k < ws.len() ==> node_wf(ws[k]))
    &&& (forall|k1: int, k2: int, c: char|
        #![trigger has_key(ws[k1].1, c), has_key(ws[k2].1, c)]
        0 <= k1 < ws.len() && 0 <= k2 < ws.len() && k1 != k2 ==> !(has_key(ws[k1].1, c) && has_key(
            ws[k2].1,
            c,
        )))
}

/// Some node of the worklist holds the character.
pub open spec fn ws_has_char(ws: Seq<SpecNode>, c: char) -> bool {
    exists|k: int| 0 <= k < ws.len() && has_key((#[trigger] ws[k]).1, c)
}

/// The counts the worklist holds, in all.
pub open spec fn ws_sum(ws: Seq<SpecNode>) -> nat
    decreases ws.len(),
{
    if ws.len() == 0 {
        0
    } else {
        ws[0].0 + ws_sum(ws.drop_first())
    }
}

/// The map entries the worklist holds, in all.
pub open spec fn ws_entries(ws: Seq<SpecNode>) -> nat
    decreases ws.len(),
{
    if ws.len() == 0 {
        0
    } else {
        ws[0].1.len() + ws_entries(ws.drop_first())
    }
}

/// Sums split over concatenation.
proof fn lemma_ws_sum_concat(a: Seq<SpecNode>, b: Seq<SpecNode>)
    ensures
        ws_sum(a + b) == ws_sum(a) + ws_sum(b),
        ws_entries(a + b) == ws_entries(a) + ws_entries(b),
    decreases a.len(),
{
    if a.len() == 0 {
        assert(a + b =~= b);
    } else {
        assert((a + b).drop_first() =~= a.drop_first() + b);
        lemma_ws_sum_concat(a.drop_first(), b);
    }
}

/// Inserting splices the node in at some position, leaving the rest in
/// place.
pub proof fn lemma_insert_node_splice(ws: Seq<SpecNode>, n: SpecNode)
    ensures
        exists|i: int|
            0 <= i <= ws.len() && insert_node(ws, n) =~= ws.subrange(0, i) + seq![n] + ws.subrange(
                i,
                ws.len() as int,
            ),
    decreases ws.len(),
{
    if ws.len() == 0 {
        assert(insert_node(ws, n) =~= ws.subrange(0, 0) + seq![n] + ws.subrange(
            0,
            ws.len() as int,
        ));
    } else if node_lt(ws[0], n) {
        lemma_insert_node_splice(ws.drop_first(), n);
        let t = ws.drop_first();
        let i = choose|i: int|
            0 <= i <= t.len() && insert_node(t, n) =~= t.subrange(0, i) + seq![n] + t.subrange(
                i,
                t.len() as int,
            );
        assert(seq![ws[0]] + (t.subrange(0, i) + seq![n] + t.subrange(i, t.len() as int))
            =~= ws.subrange(0, i + 1) + seq![n] + ws.subrange(i + 1, ws.len() as int));
        assert(insert_node(ws, n) =~= ws.subrange(0, i + 1) + seq![n] + ws.subrange(
            i + 1,
            ws.len() as int,
        ));
    } else {
        assert(insert_node(ws, n) =~= ws.subrange(0, 0) + seq![n] + ws.subrange(
            0,
            ws.len() as int,
        ));
    }
}

/// What inserting a fresh, well-formed node leaves of the worklist's
/// shape: everything, with the node's characters added.
pub proof fn lemma_insert_ws(ws: Seq<SpecNode>, n: SpecNode)
    requires
        ws_wf(ws),
        node_wf(n),
        forall|k: int, c: char|
            #![trigger has_key(ws[k].1, c), has_key(n.1, c)]
            0 <= k < ws.len() ==> !(has_key(ws[k].1, c) && has_key(n.1, c)),
    ensures
        ws_wf(insert_node(ws, n)),
        insert_node(ws, n).len() == ws.len() + 1,
        ws_sum(insert_node(ws, n)) == ws_sum(ws) + n.0,
        ws_entries(insert_node(ws, n)) == ws_entries(ws) + n.1.len(),
        forall|c: char| #![trigger ws_has_char(insert_node(ws, n), c)]
            ws_has_char(insert_node(ws, n), c) <==> (ws_has_char(ws, c) || has_key(n.1, c)),
{
    lemma_insert_node_len(ws, n);
    lemma_insert_node_splice(ws, n);
    let r = insert_node(ws, n);
    let i = choose|i: int|
        0 <= i <= ws.len() && r =~= ws.subrange(0, i) + seq![n] + ws.subrange(i, ws.len() as int);
    lemma_ws_sum_concat(ws.subrange(0, i) + seq![n], ws.subrange(i, ws.len() as int));
    lemma_ws_sum_concat(ws.subrange(0, i), seq![n]);
    lemma_ws_sum_concat(ws.subrange(0, i), ws.subrange(i, ws.len() as int));
    assert(ws.subrange(0, i) + ws.subrange(i, ws.len() as int) =~= ws);
    assert(ws_sum(seq![n]) == n.0) by {
        assert(seq![n].drop_first() =~= Seq::<SpecNode>::empty());
        assert(ws_sum(Seq::<SpecNode>::empty()) == 0);
        assert(seq![n][0] == n);
    }
    assert(ws_entries(seq![n]) == n.1.len()) by {
        assert(seq![n].drop_first() =~= Seq::<SpecNode>::empty());
        assert(ws_entries(Seq::<SpecNode>::empty()) == 0);
        assert(seq![n][0] == n);
    }
    // positions of the splice map one-to-one onto the old list plus the node
    assert forall|k: int| #![trigger r[k]] 0 <= k < r.len() implies node_wf(r[k]) by {
        if k < i {
            assert(r[k] == ws[k]);
        } else if k == i {
            assert(r[k] == n);
        } else {
            assert(r[k] == ws[k - 1]);
        }
    }
    assert forall|k1: int, k2: int, c: char|
        #![trigger has_key(r[k1].1, c), has_key(r[k2].1, c)]
        0 <= k1 < r.len() && 0 <= k2 < r.len() && k1 != k2 implies !(has_key(r[k1].1, c)
        && has_key(r[k2].1, c)) by {
        let s1: int = if k1 < i {
            k1
        } else {
            k1 - 1
        };
        let s2: int = if k2 < i {
            k2
        } else {
            k2 - 1
        };
        if k1 == i {
            if k2 < i {
                assert(r[k2] == ws[k2]);
            } else {
                assert(r[k2] == ws[k2 - 1]);
            }
            assert(r[k1] == n);
        } else if k2 == i {
            if k1 < i {
                assert(r[k1] == ws[k1]);
            } else {
                assert(r[k1] == ws[k1 - 1]);
            }
            assert(r[k2] == n);
        } else {
            assert(r[k1] == ws[s1]);
            assert(r[k2] == ws[s2]);
            assert(s1 != s2);
        }
    }
    assert forall|c: char| #![trigger ws_has_char(r, c)] ws_has_char(r, c) <==> (ws_has_char(ws, c)
        || has_key(n.1, c)) by {
        if ws_has_char(r, c) {
            let k = choose|k: int| 0 <= k < r.len() && has_key((#[trigger] r[k]).1, c);
            if k < i {
                assert(r[k] == ws[k]);
                assert(has_key(ws[k].1, c));
            } else if k == i {
                assert(r[k] == n);
            } else {
                assert(r[k] == ws[k - 1]);
                assert(has_key(ws[k - 1].1, c));
            }
        }
        if ws_has_char(ws, c) {
            let k = choose|k: int| 0 <= k < ws.len() && has_key((#[trigger] ws[k]).1, c);
            if k < i {
                assert(r[k] == ws[k]);
                assert(has_key(r[k].1, c));
            } else {
                assert(r[k + 1] == ws[k]);
                assert(has_key(r[k + 1].1, c));
            }
        }
        if has_key(n.1, c) {
            assert(r[i] == n);
            assert(has_key(r[i].1, c));
        }
    }
}

/// Merging two disjoint well-formed nodes yields a well-formed node over
/// the union of their characters, all codes one bit longer than before.
pub proof fn lemma_combine_wf(l: SpecNode, r: SpecNode)
    requires
        node_wf(l),
        node_wf(r),
        maps_disjoint(l.1, r.1),
    ensures
        node_wf(spec_combine(l, r)),
        spec_combine(l, r).1.len() == l.1.len() + r.1.len(),
        forall|c: char| #![trigger has_key(spec_combine(l, r).1, c)]
            has_key(spec_combine(l, r).1, c) <==> (has_key(l.1, c) || has_key(r.1, c)),
{
    let a = prepend(l.1, false);
    let b = prepend(r.1, true);
    let m = merge_maps(a, b);
    lemma_prepend_sorted(l.1, false);
    lemma_prepend_sorted(r.1, true);
    assert(a.len() == l.1.len());
    assert(b.len() == r.1.len());
    assert forall|c: char| !(#[trigger] has_key(a, c) && #[trigger] has_key(b, c)) by {
        lemma_prepend_lookup(l.1, false, c);
        lemma_prepend_lookup(r.1, true, c);
        assert(has_key(a, c) == has_key(l.1, c));
        assert(has_key(b, c) == has_key(r.1, c));
    }
    lemma_merge_maps(a, b);
    assert forall|c: char| #![trigger has_key(m, c)] has_key(m, c) <==> (has_key(l.1, c)
        || has_key(r.1, c)) by {
        lemma_prepend_lookup(l.1, false, c);
        lemma_prepend_lookup(r.1, true, c);
        assert(spec_lookup(m, c) == (if has_key(a, c) {
            spec_lookup(a, c)
        } else {
            spec_lookup(b, c)
        }));
    }
    // every merged entry carries a code one bit longer than its source's
    assert forall|k: int| #![trigger m[k]] 0 <= k < m.len() implies (m[k].1.len() >= 1
        && m[k].1.len() <= m.len() - 1) by {
        if exists|i2: int| 0 <= i2 < a.len() && a[i2] == m[k] {
            let i2 = choose|i2: int| 0 <= i2 < a.len() && a[i2] == m[k];
            assert(a[i2] == (l.1[i2].0, seq![false] + l.1[i2].1));
            assert(l.1[i2].1.len() <= l.1.len() - 1);
        } else {
            let i2 = choose|i2: int| 0 <= i2 < b.len() && b[i2] == m[k];
            assert(b[i2] == (r.1[i2].0, seq![true] + r.1[i2].1));
            assert(r.1[i2].1.len() <= r.1.len() - 1);
        }
    }
    // prefix-freeness: within one side by that side's own freedom, across
    // sides by the leading bit
    assert forall|i: int, j: int|
        #![trigger m[i], m[j]]
        0 <= i < m.len() && 0 <= j < m.len() && i != j implies !is_prefix_of(m[i].1, m[j].1) by {
        assert(m[i].0 != m[j].0) by {
            if i < j {
            } else {
            }
        }
        let from_a_i = exists|i2: int| 0 <= i2 < a.len() && a[i2] == m[i];
        let from_a_j = exists|i2: int| 0 <= i2 < a.len() && a[i2] == m[j];
        if from_a_i && from_a_j {
            let i2 = choose|i2: int| 0 <= i2 < a.len() && a[i2] == m[i];
            let j2 = choose|j2: int| 0 <= j2 < a.len() && a[j2] == m[j];
            assert(a[i2] == (l.1[i2].0, seq![false] + l.1[i2].1));
            assert(a[j2] == (l.1[j2].0, seq![false] + l.1[j2].1));
            assert(i2 != j2);
            lemma_prefix_after_prepend(l.1[i2].1, l.1[j2].1, false, false);
            if l.1.len() >= 2 {
                assert(!is_prefix_of(l.1[i2].1, l.1[j2].1));
            } else {
                assert(false);
            }
        } else if !from_a_i && !from_a_j {
            let i2 = choose|i2: int| 0 <= i2 < b.len() && b[i2] == m[i];
            let j2 = choose|j2: int| 0 <= j2 < b.len() && b[j2] == m[j];
            assert(b[i2] == (r.1[i2].0, seq![true] + r.1[i2].1));
            assert(b[j2] == (r.1[j2].0, seq![true] + r.1[j2].1));
            assert(i2 != j2);
            lemma_prefix_after_prepend(r.1[i2].1, r.1[j2].1, true, true);
            if r.1.len() >= 2 {
                assert(!is_prefix_of(r.1[i2].1, r.1[j2].1));
            } else {
                assert(false);
            }
        } else if from_a_i {
            let i2 = choose|i2: int| 0 <= i2 < a.len() && a[i2] == m[i];
            let j2 = choose|j2: int| 0 <= j2 < b.len() && b[j2] == m[j];
            assert(a[i2] == (l.1[i2].0, seq![false] + l.1[i2].1));
            assert(b[j2] == (r.1[j2].0, seq![true] + r.1[j2].1));
            lemma_prefix_after_prepend(l.1[i2].1, r.1[j2].1, false, true);
        } else {
            let i2 = choose|i2: int| 0 <= i2 < b.len() && b[i2] == m[i];
            let j2 = choose|j2: int| 0 <= j2 < a.len() && a[j2] == m[j];
            assert(b[i2] == (r.1[i2].0, seq![true] + r.1[i2].1));
            assert(a[j2] == (l.1[j2].0, seq![false] + l.1[j2].1));
            lemma_prefix_after_prepend(r.1[i2].1, l.1[j2].1, true, false);
        }
    }
}

/// One merge step keeps the worklist well formed, its characters, its
/// count total and its entry total, and shortens it by one node.
pub proof fn lemma_ws_step(ws: Seq<SpecNode>)
    requires
        ws_wf(ws),
        ws.len() >= 2,
    ensures
        ws_wf(insert_node(ws.drop_first().drop_first(), spec_combine(ws[0], ws[1]))),
        insert_node(ws.drop_first().drop_first(), spec_combine(ws[0], ws[1])).len() == ws.len()
            - 1,
        ws_sum(insert_node(ws.drop_first().drop_first(), spec_combine(ws[0], ws[1]))) == ws_sum(
            ws,
        ),
        ws_entries(insert_node(ws.drop_first().drop_first(), spec_combine(ws[0], ws[1])))
            == ws_entries(ws),
        forall|c: char|
            #![trigger ws_has_char(insert_node(ws.drop_first().drop_first(), spec_combine(ws[0], ws[1])), c)]
            ws_has_char(insert_node(ws.drop_first().drop_first(), spec_combine(ws[0], ws[1])), c)
                <==> ws_has_char(ws, c),
{
    let rest = ws.drop_first().drop_first();
    let comb = spec_combine(ws[0], ws[1]);
    assert(maps_disjoint(ws[0].1, ws[1].1)) by {
        assert forall|c: char| !(#[trigger] has_key(ws[0].1, c) && #[trigger] has_key(
            ws[1].1,
            c,
        )) by {
            assert(ws[0] == ws[0]);
            assert(ws[1] == ws[1]);
        }
    }
    assert(node_wf(ws[0]));
    assert(node_wf(ws[1]));
    lemma_combine_wf(ws[0], ws[1]);
    assert(ws_wf(rest)) by {
        assert forall|k: int| #![trigger rest[k]] 0 <= k < rest.len() implies node_wf(rest[k]) by {
            assert(rest[k] == ws[k + 2]);
        }
        assert forall|k1: int, k2: int, c: char|
            #![trigger has_key(rest[k1].1, c), has_key(rest[k2].1, c)]
            0 <= k1 < rest.len() && 0 <= k2 < rest.len() && k1 != k2 implies !(has_key(
            rest[k1].1,
            c,
        ) && has_key(rest[k2].1, c)) by {
            assert(rest[k1] == ws[k1 + 2]);
            assert(rest[k2] == ws[k2 + 2]);
        }
    }
    assert forall|k: int, c: char|
        #![trigger has_key(rest[k].1, c), has_key(comb.1, c)]
        0 <= k < rest.len() implies !(has_key(rest[k].1, c) && has_key(comb.1, c)) by {
        assert(rest[k] == ws[k + 2]);
        if has_key(comb.1, c) {
            assert(has_key(ws[0].1, c) || has_key(ws[1].1, c));
        }
    }
    lemma_insert_ws(rest, comb);
    // totals and characters trace through the two popped nodes
    assert(ws_sum(ws) == ws[0].0 + ws_sum(ws.drop_first()));
    assert(ws_sum(ws.drop_first()) == ws.drop_first()[0].0 + ws_sum(rest));
    assert(ws.drop_first()[0] == ws[1]);
    assert(ws_entries(ws) == ws[0].1.len() + ws_entries(ws.drop_first()));
    assert(ws_entries(ws.drop_first()) == ws.drop_first()[0].1.len() + ws_entries(rest));
    assert forall|c: char|
        #![trigger ws_has_char(insert_node(rest, comb), c)]
        ws_has_char(insert_node(rest, comb), c) <==> ws_has_char(ws, c) by {
        if ws_has_char(ws, c) {
            let k = choose|k: int| 0 <= k < ws.len() && has_key((#[trigger] ws[k]).1, c);
            if k >= 2 {
                assert(rest[k - 2] == ws[k]);
                assert(ws_has_char(rest, c));
            }
        }
        if ws_has_char(rest, c) {
            let k = choose|k: int| 0 <= k < rest.len() && has_key((#[trigger] rest[k]).1, c);
            assert(ws[k + 2] == rest[k]);
        }
        if has_key(ws[0].1, c) {
            assert(ws_has_char(ws, c));
        }
        if has_key(ws[1].1, c) {
            assert(ws_has_char(ws, c));
        }
    }
}

/// What the merge leaves standing: one well-formed node holding exactly
/// the worklist's characters and totals.
pub proof fn lemma_build_props(ws: Seq<SpecNode>)
    requires
        ws_wf(ws),
        ws.len() >= 1,
    ensures
        node_wf(spec_build(ws)),
        spec_build(ws).0 == ws_sum(ws),
        spec_build(ws).1.len() == ws_entries(ws),
        forall|c: char| #![trigger has_key(spec_build(ws).1, c)]
            has_key(spec_build(ws).1, c) <==> ws_has_char(ws, c),
    decreases ws.len(),
{
    if ws.len() == 1 {
        assert(spec_build(ws) == ws[0]);
        assert(node_wf(ws[0]));
        assert(ws_sum(ws) == ws[0].0 + ws_sum(ws.drop_first()));
        assert(ws.drop_first().len() == 0);
        assert(ws_sum(ws.drop_first()) == 0);
        assert(ws_entries(ws) == ws[0].1.len() + ws_entries(ws.drop_first()));
        assert(ws_entries(ws.drop_first()) == 0);
        assert(ws_entries(ws) == ws[0].1.len());
        assert forall|c: char| #![trigger has_key(spec_build(ws).1, c)] has_key(spec_build(ws).1, c)
            <==> ws_has_char(ws, c) by {
            if has_key(ws[0].1, c) {
                assert(ws_has_char(ws, c));
            }
            if ws_has_char(ws, c) {
                let k = choose|k: int| 0 <= k < ws.len() && has_key((#[trigger] ws[k]).1, c);
                assert(k == 0);
            }
        }
    } else {
        lemma_ws_step(ws);
        lemma_build_props(insert_node(ws.drop_first().drop_first(), spec_combine(ws[0], ws[1])));
    }
}

/// Sortedness passes to all but the last entry.
proof fn lemma_sorted_drop_last<V>(s: Seq<(char, V)>)
    requires
        keys_sorted(s),
        s.len() > 0,
    ensures
        keys_sorted(s.drop_last()),
{
    let t = s.drop_last();
    assert forall|i: int, j: int|
        #![trigger t[i], t[j]]
        0 <= i < j < t.len() implies (t[i].0 as int) < (t[j].0 as int) by {
        assert(t[i] == s[i]);
        assert(t[j] == s[j]);
    }
}

/// The counts a frequency table holds, in all.
pub open spec fn sum_counts(freq: Seq<(char, nat)>) -> nat
    decreases freq.len(),
{
    if freq.len() == 0 {
        0
    } else {
        sum_counts(freq.drop_last()) + freq.last().1
    }
}

/// What seeding builds: a well-formed worklist holding exactly the
/// frequency table's characters, counts and entries.
pub proof fn lemma_seed_props(freq: Seq<(char, nat)>)
    requires
        keys_sorted(freq),
    ensures
        ws_wf(seed_nodes(freq)),
        seed_nodes(freq).len() == freq.len(),
        ws_sum(seed_nodes(freq)) == sum_counts(freq),
        ws_entries(seed_nodes(freq)) == freq.len(),
        forall|c: char| #![trigger ws_has_char(seed_nodes(freq), c)]
            ws_has_char(seed_nodes(freq), c) <==> has_key(freq, c),
    decreases freq.len(),
{
    if freq.len() == 0 {
        assert forall|c: char| #![trigger ws_has_char(seed_nodes(freq), c)] ws_has_char(
            seed_nodes(freq),
            c,
        ) <==> has_key(freq, c) by {
            if ws_has_char(seed_nodes(freq), c) {
                let k = choose|k: int|
                    0 <= k < seed_nodes(freq).len() && has_key((#[trigger] seed_nodes(freq)[k]).1, c);
            }
        }
    } else {
        let prev = freq.drop_last();
        let c0 = freq.last().0;
        let n0 = freq.last().1;
        let leaf = leaf_node(c0, n0);
        lemma_sorted_drop_last(freq);
        lemma_seed_props(prev);
        assert(node_wf(leaf)) by {
            assert(leaf.1.len() == 1);
            assert(leaf.1[0] == (c0, Seq::<bool>::empty()));
        }
        assert forall|c: char| #![trigger has_key(leaf.1, c)] has_key(leaf.1, c) <==> c == c0 by {
            lemma_has_key_iff(leaf.1, c);
            if c == c0 {
                assert(leaf.1[0].0 == c);
            }
        }
        assert(!has_key(prev, c0)) by {
            lemma_has_key_iff(prev, c0);
            if exists|k: int| 0 <= k < prev.len() && (#[trigger] prev[k]).0 == c0 {
                let k = choose|k: int| 0 <= k < prev.len() && (#[trigger] prev[k]).0 == c0;
                assert(prev[k] == freq[k]);
                assert((freq[k].0 as int) < (freq[freq.len() - 1].0 as int));
            }
        }
        assert forall|k: int, c: char|
            #![trigger has_key(seed_nodes(prev)[k].1, c), has_key(leaf.1, c)]
            0 <= k < seed_nodes(prev).len() implies !(has_key(seed_nodes(prev)[k].1, c) && has_key(
            leaf.1,
            c,
        )) by {
            if has_key(seed_nodes(prev)[k].1, c) && has_key(leaf.1, c) {
                assert(c == c0);
                assert(ws_has_char(seed_nodes(prev), c));
                assert(has_key(prev, c0));
            }
        }
        lemma_insert_ws(seed_nodes(prev), leaf);
        assert forall|c: char| #![trigger ws_has_char(seed_nodes(freq), c)] ws_has_char(
            seed_nodes(freq),
            c,
        ) <==> has_key(freq, c) by {
            lemma_has_key_iff(freq, c);
            lemma_has_key_iff(prev, c);
            if has_key(freq, c) {
                let k = choose|k: int| 0 <= k < freq.len() && (#[trigger] freq[k]).0 == c;
                if k < freq.len() - 1 {
                    assert(prev[k].0 == c);
                } else {
                    assert(c == c0);
                }
            }
            if has_key(prev, c) {
                let k = choose|k: int| 0 <= k < prev.len() && (#[trigger] prev[k]).0 == c;
                assert(freq[k].0 == c);
            }
        }
    }
}

/// The code table of a non-empty frequency table: sorted by character,
/// covering exactly the table's characters, prefix-free with at least one
/// bit per code as soon as two characters compete, the lone character of
/// a degenerate table coded by no bits, and no code as long as the
/// alphabet.
pub proof fn lemma_table_of_props(freq: Seq<(char, nat)>)
    requires
        keys_sorted(freq),
        freq.len() >= 1,
    ensures
        keys_sorted(spec_table_of(freq)),
        spec_table_of(freq).len() == freq.len(),
        forall|c: char| #![trigger has_key(spec_table_of(freq), c)]
            has_key(spec_table_of(freq), c) <==> has_key(freq, c),
        freq.len() == 1 ==> spec_table_of(freq) == seq![(freq[0].0, Seq::<bool>::empty())],
        freq.len() >= 2 ==> map_prefix_free(spec_table_of(freq)),
        freq.len() >= 2 ==> (forall|i: int|
            #![trigger spec_table_of(freq)[i]]
            0 <= i < spec_table_of(freq).len() ==> spec_table_of(freq)[i].1.len() >= 1),
        forall|i: int|
            #![trigger spec_table_of(freq)[i]]
            0 <= i < spec_table_of(freq).len() ==> spec_table_of(freq)[i].1.len() <= freq.len()
                - 1,
{
    lemma_seed_props(freq);
    lemma_build_props(seed_nodes(freq));
    if freq.len() == 1 {
        let t = spec_table_of(freq);
        assert(t.len() == 1);
        assert(has_key(t, freq[0].0)) by {
            lemma_has_key_iff(freq, freq[0].0);
        }
        lemma_has_key_iff(t, freq[0].0);
        assert(t[0].0 == freq[0].0);
        assert(t =~= seq![(freq[0].0, Seq::<bool>::empty())]);
    }
}

/// Inserting splices the node in at the first position whose node is not
/// strictly less.
pub proof fn lemma_insert_node_split(ws: Seq<SpecNode>, n: SpecNode, i: int)
    requires
        0 <= i <= ws.len(),
        forall|k: int| #![trigger ws[k]] 0 <= k < i ==> node_lt(ws[k], n),
        i < ws.len() ==> !node_lt(ws[i], n),
    ensures
        insert_node(ws, n) == ws.subrange(0, i) + seq![n] + ws.subrange(i, ws.len() as int),
    decreases ws.len(),
{
    if i == 0 {
        if ws.len() == 0 {
            assert(insert_node(ws, n) =~= ws.subrange(0, 0) + seq![n] + ws.subrange(
                0,
                ws.len() as int,
            ));
        } else {
            assert(!node_lt(ws[0], n));
            assert(insert_node(ws, n) =~= ws.subrange(0, 0) + seq![n] + ws.subrange(
                0,
                ws.len() as int,
            ));
        }
    } else {
        let t = ws.drop_first();
        assert(node_lt(ws[0], n));
        assert forall|k: int| #![trigger t[k]] 0 <= k < i - 1 implies node_lt(t[k], n) by {
            assert(t[k] == ws[k + 1]);
        }
        if i < ws.len() {
            assert(t[i - 1] == ws[i]);
        }
        lemma_insert_node_split(t, n, i - 1);
        assert(seq![ws[0]] + (t.subrange(0, i - 1) + seq![n] + t.subrange(i - 1, t.len() as int))
            =~= ws.subrange(0, i) + seq![n] + ws.subrange(i, ws.len() as int));
    }
}

/// In a sorted map the key at `j` is at least `j` above the first key.
proof fn lemma_sorted_char_gap<V>(s: Seq<(char, V)>, j: int)
    requires
        keys_sorted(s),
        0 <= j < s.len(),
    ensures
        (s[j].0 as int) >= (s[0].0 as int) + j,
    decreases j,
{
    if j > 0 {
        lemma_sorted_char_gap(s, j - 1);
        assert((s[j - 1].0 as int) < (s[j].0 as int));
    }
}

/// A node of the merge: a lone character with its count, or a merged
/// subtree carrying its count and the code map of its characters.
pub enum HuffmanNode {
    Leaf(u32, char),
    Interior(u32, Vec<(char, NewBitVec)>),
}

/// The count and code map a node stands for.
pub open spec fn node_view(n: HuffmanNode) -> SpecNode {
    match n {
        HuffmanNode::Leaf(c, ch) => (c as nat, seq![(ch, Seq::<bool>::empty())]),
        HuffmanNode::Interior(c, m) => (c as nat, codes_view(m@)),
    }
}

/// A whole worklist, seen abstractly.
pub open spec fn nodes_view(s: Seq<HuffmanNode>) -> Seq<SpecNode> {
    s.map(|i: int, n: HuffmanNode| node_view(n))
}

/// The count a node carries.
fn node_count(n: &HuffmanNode) -> (r: u32)
    ensures
        r as nat == node_view(*n).0,
{
    match n {
        HuffmanNode::Leaf(c, _) => *c,
        HuffmanNode::Interior(c, _) => *c,
    }
}

/// The merge key of a node: its count and its least character.
fn node_key(n: &HuffmanNode) -> (r: (u32, char))
    requires
        node_view(*n).1.len() >= 1,
    ensures
        r.0 as nat == node_view(*n).0,
        r.1 == node_view(*n).1[0].0,
{
    match n {
        HuffmanNode::Leaf(c, ch) => (*c, *ch),
        HuffmanNode::Interior(c, m) => (*c, m[0].0),
    }
}

/// Whether `a` merges strictly before `b`.
fn node_before(a: &HuffmanNode, b: &HuffmanNode) -> (r: bool)
    requires
        node_view(*a).1.len() >= 1,
        node_view(*b).1.len() >= 1,
    ensures
        r == node_lt(node_view(*a), node_view(*b)),
{
    let (ac, amin) = node_key(a);
    let (bc, bmin) = node_key(b);
    ac < bc || (ac == bc && amin < bmin)
}

/// Every character's code point lies in the Unicode scalar range.
pub proof fn lemma_char_range(c: char)
    ensures
        0 <= c as int <= 0x10FFFF,
{
}

/// Strictly ascending characters cap a map's size by the alphabet's.
pub proof fn lemma_sorted_char_len<V>(s: Seq<(char, V)>)
    requires
        keys_sorted(s),
    ensures
        s.len() <= 0x110000,
{
    if s.len() > 0x110000 {
        lemma_sorted_char_gap(s, 0x110000);
        lemma_char_range(s[0].0);
        lemma_char_range(s[0x110000].0);
    }
}

/// Prepends `bit` to every code of the map.
fn prepend_all(m: &mut Vec<(char, NewBitVec)>, bit: bool)
    requires
        forall|k: int|
            #![trigger old(m)@[k]]
            0 <= k < old(m)@.len() ==> old(m)@[k].1@.len() < bit_vec_capacity(),
    ensures
        codes_view(final(m)@) == prepend(codes_view(old(m)@), bit),
{
    let ghost orig = m@;
    let mut i: usize = 0;
    while i < m.len()
        invariant
            i <= m@.len(),
            m@.len() == orig.len(),
            forall|k: int| #![trigger orig[k]] 0 <= k < orig.len() ==> orig[k].1@.len()
                < bit_vec_capacity(),
            forall|k: int|
                #![trigger m@[k]]
                0 <= k < i ==> m@[k].0 == orig[k].0 && m@[k].1@ == seq![bit] + orig[k].1@,
            forall|k: int| #![trigger m@[k]] i <= k < orig.len() ==> m@[k] == orig[k],
        decreases m@.len() - i,
    {
        let (ch, mut code) = m.remove(i);
        code.insert(0, bit);
        m.insert(i, (ch, code));
        proof {
            assert(orig[i as int].1@.insert(0, bit) =~= seq![bit] + orig[i as int].1@);
        }
        i = i + 1;
    }
    proof {
        assert(codes_view(m@) =~= prepend(codes_view(orig), bit));
    }
}

/// The node's code map with `bit` in front of every code: a popped node's
/// share of a merge.
fn into_coded(n: HuffmanNode, bit: bool) -> (r: Vec<(char, NewBitVec)>)
    requires
        node_wf(node_view(n)),
    ensures
        codes_view(r@) == prepend(node_view(n).1, bit),
{
    match n {
        HuffmanNode::Leaf(_, ch) => {
            let mut code = NewBitVec::new();
            code.push(bit);
            let mut m: Vec<(char, NewBitVec)> = Vec::new();
            m.push((ch, code));
            proof {
                assert(code@ =~= seq![bit]);
                assert(seq![bit] + Seq::<bool>::empty() =~= seq![bit]);
                assert(codes_view(m@) =~= prepend(seq![(ch, Seq::<bool>::empty())], bit));
            }
            m
        },
        HuffmanNode::Interior(_, mut m) => {
            proof {
                assert(node_view(n).1 =~= codes_view(m@));
                lemma_sorted_char_len(codes_view(m@));
                assert forall|k: int| #![trigger m@[k]] 0 <= k < m@.len() implies m@[k].1@.len()
                    < bit_vec_capacity() by {
                    assert(codes_view(m@)[k] == (m@[k].0, m@[k].1@));
                    assert(node_view(n).1[k].1.len() <= node_view(n).1.len() - 1);
                    assert(usize::MAX >= 0xFFFFFFFF);
                }
            }
            prepend_all(&mut m, bit);
            m
        },
    }
}

/// Joins two maps sorted by character into one, copying the codes.
fn merge_code_maps(a: &Vec<(char, NewBitVec)>, b: &Vec<(char, NewBitVec)>) -> (r: Vec<
    (char, NewBitVec),
>)
    ensures
        codes_view(r@) == merge_maps(codes_view(a@), codes_view(b@)),
{
    let ghost av = codes_view(a@);
    let ghost bv = codes_view(b@);
    let mut out: Vec<(char, NewBitVec)> = Vec::new();
    let mut i: usize = 0;
    let mut j: usize = 0;
    proof {
        assert(av.skip(0) =~= av);
        assert(bv.skip(0) =~= bv);
        assert(codes_view(out@) =~= Seq::<(char, Seq<bool>)>::empty());
    }
    while i < a.len() || j < b.len()
        invariant
            i <= a@.len(),
            j <= b@.len(),
            av == codes_view(a@),
            bv == codes_view(b@),
            merge_maps(av, bv) == codes_view(out@) + merge_maps(
                av.skip(i as int),
                bv.skip(j as int),
            ),
        decreases a@.len() - i + b@.len() - j,
    {
        let ghost ra = av.skip(i as int);
        let ghost rb = bv.skip(j as int);
        let take_a = if j == b.len() {
            true
        } else if i == a.len() {
            false
        } else {
            a[i].0 < b[j].0
        };
        if take_a {
            let ghost out_before = codes_view(out@);
            let ch = a[i].0;
            let code = a[i].1.duplicate();
            out.push((ch, code));
            proof {
                assert(ra[0] == (a@[i as int].0, a@[i as int].1@));
                assert(ra.drop_first() =~= av.skip(i as int + 1));
                if rb.len() == 0 {
                    assert(merge_maps(ra, rb) == ra);
                    assert(ra =~= seq![ra[0]] + av.skip(i as int + 1));
                    assert(merge_maps(ra, rb) == seq![ra[0]] + merge_maps(
                        av.skip(i as int + 1),
                        rb,
                    )) by {
                        let t = av.skip(i as int + 1);
                        if t.len() == 0 {
                            assert(merge_maps(t, rb) =~= t);
                            assert(seq![ra[0]] + t =~= ra);
                        }
                    }
                } else {
                    assert((ra[0].0 as int) < (rb[0].0 as int));
                }
                assert(codes_view(out@) =~= out_before + seq![ra[0]]);
                assert(codes_view(out@) + merge_maps(av.skip(i as int + 1), rb) =~= (out_before
                    + seq![ra[0]]) + merge_maps(av.skip(i as int + 1), rb));
            }
            i = i + 1;
        } else {
            let ghost out_before = codes_view(out@);
            let ch = b[j].0;
            let code = b[j].1.duplicate();
            out.push((ch, code));
            proof {
                assert(rb[0] == (b@[j as int].0, b@[j as int].1@));
                assert(rb.drop_first() =~= bv.skip(j as int + 1));
                if ra.len() == 0 {
                    assert(merge_maps(ra, rb) == rb);
                    assert(rb =~= seq![rb[0]] + bv.skip(j as int + 1));
                    assert(merge_maps(ra, rb) == seq![rb[0]] + merge_maps(
                        ra,
                        bv.skip(j as int + 1),
                    )) by {
                        let t = bv.skip(j as int + 1);
                        if t.len() == 0 {
                            assert(merge_maps(ra, t) =~= t);
                            assert(seq![rb[0]] + t =~= rb);
                        }
                    }
                } else {
                    assert(!((ra[0].0 as int) < (rb[0].0 as int)));
                }
                assert(codes_view(out@) =~= out_before + seq![rb[0]]);
                assert(codes_view(out@) + merge_maps(ra, bv.skip(j as int + 1)) =~= (out_before
                    + seq![rb[0]]) + merge_maps(ra, bv.skip(j as int + 1)));
            }
            j = j + 1;
        }
    }
    proof {
        assert(av.skip(a@.len() as int) =~= Seq::<(char, Seq<bool>)>::empty());
        assert(bv.skip(b@.len() as int) =~= Seq::<(char, Seq<bool>)>::empty());
        assert(codes_view(out@) + merge_maps(
            av.skip(a@.len() as int),
            bv.skip(b@.len() as int),
        ) =~= codes_view(out@));
    }
    out
}

/// Merges two nodes: the first popped heads the zero branch, the second
/// the one branch, and their counts add up.
pub fn combine(left: HuffmanNode, right: HuffmanNode) -> (r: HuffmanNode)
    requires
        node_wf(node_view(left)),
        node_wf(node_view(right)),
        node_view(left).0 + node_view(right).0 <= u32::MAX,
    ensures
        node_view(r) == spec_combine(node_view(left), node_view(right)),
{
    let lcount = node_count(&left);
    let rcount = node_count(&right);
    let lm = into_coded(left, false);
    let rm = into_coded(right, true);
    let merged = merge_code_maps(&lm, &rm);
    HuffmanNode::Interior(lcount + rcount, merged)
}

/// Puts a node behind every strictly lesser one of the worklist.
fn insert_into(ws: &mut Vec<HuffmanNode>, n: HuffmanNode)
    requires
        forall|k: int|
            #![trigger old(ws)@[k]]
            0 <= k < old(ws)@.len() ==> node_view(old(ws)@[k]).1.len() >= 1,
        node_view(n).1.len() >= 1,
        old(ws)@.len() < usize::MAX,
    ensures
        nodes_view(final(ws)@) == insert_node(nodes_view(old(ws)@), node_view(n)),
{
    let ghost wv = nodes_view(ws@);
    let mut i: usize = 0;
    loop
        invariant_except_break
            i <= ws@.len(),
            ws@ == old(ws)@,
            wv == nodes_view(ws@),
            forall|k: int|
                #![trigger ws@[k]]
                0 <= k < ws@.len() ==> node_view(ws@[k]).1.len() >= 1,
            node_view(n).1.len() >= 1,
            forall|k: int| #![trigger wv[k]] 0 <= k < i ==> node_lt(wv[k], node_view(n)),
        ensures
            i <= ws@.len(),
            ws@ == old(ws)@,
            forall|k: int| #![trigger wv[k]] 0 <= k < i ==> node_lt(wv[k], node_view(n)),
            i < ws@.len() ==> !node_lt(wv[i as int], node_view(n)),
        decreases ws@.len() - i,
    {
        if i == ws.len() {
            break ;
        }
        proof {
            assert(wv[i as int] == node_view(ws@[i as int]));
        }
        if !node_before(&ws[i], &n) {
            break ;
        }
        i = i + 1;
    }
    proof {
        lemma_insert_node_split(wv, node_view(n), i as int);
    }
    ws.insert(i, n);
    proof {
        assert(nodes_view(ws@) =~= wv.subrange(0, i as int) + seq![node_view(n)] + wv.subrange(
            i as int,
            wv.len() as int,
        ));
    }
}

/// Builds the code table of a non-empty frequency table by greedy
/// least-count merging. A table of one entry degenerates to a single
/// zero-length code.
pub fn char_count_to_huffman_encoding(char_count: Vec<(char, u32)>) -> (r: Vec<(char, NewBitVec)>)
    requires
        keys_sorted(crate::freq::counts_view(char_count@)),
        char_count@.len() >= 1,
        sum_counts(crate::freq::counts_view(char_count@)) <= u32::MAX,
    ensures
        codes_view(r@) == spec_table_of(crate::freq::counts_view(char_count@)),
{
    let ghost fv = crate::freq::counts_view(char_count@);
    let mut ws: Vec<HuffmanNode> = Vec::new();
    proof {
        assert(fv.take(0) =~= Seq::<(char, nat)>::empty());
        assert(nodes_view(ws@) =~= Seq::<SpecNode>::empty());
        assert(nodes_view(ws@) =~= seed_nodes(fv.take(0)));
    }
    let mut k: usize = 0;
    while k < char_count.len()
        invariant
            k <= char_count@.len(),
            fv == crate::freq::counts_view(char_count@),
            keys_sorted(fv),
            nodes_view(ws@) == seed_nodes(fv.take(k as int)),
            ws@.len() == k,
        decreases char_count@.len() - k,
    {
        let (ch, cnt) = char_count[k];
        proof {
            assert(keys_sorted(fv.take(k as int))) by {
                let t = fv.take(k as int);
                assert forall|i: int, j: int|
                    #![trigger t[i], t[j]]
                    0 <= i < j < t.len() implies (t[i].0 as int) < (t[j].0 as int) by {
                    assert(t[i] == fv[i]);
                    assert(t[j] == fv[j]);
                }
            }
            lemma_seed_props(fv.take(k as int));
            assert forall|k2: int| #![trigger ws@[k2]] 0 <= k2 < ws@.len() implies node_view(
                ws@[k2],
            ).1.len() >= 1 by {
                assert(nodes_view(ws@)[k2] == node_view(ws@[k2]));
                assert(node_wf(nodes_view(ws@)[k2]));
            }
        }
        let leaf = HuffmanNode::Leaf(cnt, ch);
        proof {
            assert(node_view(leaf) == leaf_node(ch, cnt as nat));
            assert(fv[k as int] == (ch, cnt as nat));
        }
        insert_into(&mut ws, leaf);
        proof {
            lemma_insert_node_len(seed_nodes(fv.take(k as int)), leaf_node(ch, cnt as nat));
            assert(fv.take(k as int + 1).drop_last() =~= fv.take(k as int));
            assert(fv.take(k as int + 1).last() == fv[k as int]);
            assert(seed_nodes(fv.take(k as int + 1)) == insert_node(
                seed_nodes(fv.take(k as int)),
                leaf_node(ch, cnt as nat),
            ));
        }
        k = k + 1;
    }
    proof {
        assert(fv.take(char_count@.len() as int) =~= fv);
        lemma_seed_props(fv);
    }
    while ws.len() > 1
        invariant
            fv == crate::freq::counts_view(char_count@),
            ws@.len() >= 1,
            ws_wf(nodes_view(ws@)),
            ws_sum(nodes_view(ws@)) <= u32::MAX,
            spec_build(nodes_view(ws@)) == spec_build(seed_nodes(fv)),
        decreases ws@.len(),
    {
        let ghost ows = nodes_view(ws@);
        let n1 = ws.remove(0);
        let n2 = ws.remove(0);
        proof {
            assert(node_view(n1) == ows[0]);
            assert(node_view(n2) == ows[1]);
            assert(nodes_view(ws@) =~= ows.drop_first().drop_first());
            assert(ws_sum(ows) == ows[0].0 + ws_sum(ows.drop_first()));
            assert(ws_sum(ows.drop_first()) == ows.drop_first()[0].0 + ws_sum(
                ows.drop_first().drop_first(),
            ));
            assert(ows.drop_first()[0] == ows[1]);
            assert(node_wf(ows[0]));
            assert(node_wf(ows[1]));
            assert(maps_disjoint(ows[0].1, ows[1].1)) by {
                assert forall|c: char| !(#[trigger] has_key(ows[0].1, c) && #[trigger] has_key(
                    ows[1].1,
                    c,
                )) by {
                    assert(ows[0] == ows[0]);
                    assert(ows[1] == ows[1]);
                }
            }
            lemma_combine_wf(ows[0], ows[1]);
            lemma_ws_step(ows);
        }
        let merged = combine(n1, n2);
        proof {
            let rest = ows.drop_first().drop_first();
            assert forall|k2: int| #![trigger ws@[k2]] 0 <= k2 < ws@.len() implies node_view(
                ws@[k2],
            ).1.len() >= 1 by {
                assert(nodes_view(ws@)[k2] == node_view(ws@[k2]));
                assert(rest[k2] == ows[k2 + 2]);
                assert(node_wf(ows[k2 + 2]));
            }
            assert(node_view(merged).1.len() >= 1);
        }
        insert_into(&mut ws, merged);
        proof {
            assert(spec_build(ows) == spec_build(nodes_view(ws@)));
        }
    }
    let node = ws.remove(0);
    proof {
        assert(spec_build(seed_nodes(fv)) == node_view(node));
    }
    match node {
        HuffmanNode::Interior(_, m) => m,
        HuffmanNode::Leaf(_, ch) => {
            let empty_code = NewBitVec::new();
            let mut m: Vec<(char, NewBitVec)> = Vec::new();
            m.push((ch, empty_code));
            proof {
                assert(codes_view(m@) =~= seq![(ch, Seq::<bool>::empty())]);
            }
            m
        },
    }
}


/// Count totals add up over concatenation.
pub proof fn lemma_sum_counts_concat(a: Seq<(char, nat)>, b: Seq<(char, nat)>)
    ensures
        sum_counts(a + b) == sum_counts(a) + sum_counts(b),
    decreases b.len(),
{
    if b.len() == 0 {
        assert(a + b =~= a);
    } else {
        assert((a + b).drop_last() =~= a + b.drop_last());
        assert((a + b).last() == b.last());
        lemma_sum_counts_concat(a, b.drop_last());
    }
}

/// Writing a count changes the total by the difference it writes.
pub proof fn lemma_sum_put(s: Seq<(char, nat)>, c: char, v: nat)
    requires
        keys_sorted(s),
    ensures
        sum_counts(spec_put(s, c, v)) + (match spec_lookup(s, c) {
            Some(n) => n,
            None => 0nat,
        }) == sum_counts(s) + v,
    decreases s.len(),
{
    if s.len() == 0 {
        assert(spec_put(s, c, v) =~= seq![(c, v)]);
        assert(sum_counts(seq![(c, v)]) == v) by {
            assert(seq![(c, v)].drop_last() =~= Seq::<(char, nat)>::empty());
            assert(sum_counts(Seq::<(char, nat)>::empty()) == 0);
            assert(seq![(c, v)].last() == (c, v));
        }
    } else if s[0].0 == c {
        assert(spec_put(s, c, v) =~= seq![(c, v)] + s.drop_first());
        assert(s =~= seq![s[0]] + s.drop_first());
        lemma_sum_counts_concat(seq![(c, v)], s.drop_first());
        lemma_sum_counts_concat(seq![s[0]], s.drop_first());
        assert(sum_counts(seq![(c, v)]) == v) by {
            assert(seq![(c, v)].drop_last() =~= Seq::<(char, nat)>::empty());
            assert(sum_counts(Seq::<(char, nat)>::empty()) == 0);
            assert(seq![(c, v)].last() == (c, v));
        }
        assert(sum_counts(seq![s[0]]) == s[0].1) by {
            assert(seq![s[0]].drop_last() =~= Seq::<(char, nat)>::empty());
            assert(sum_counts(Seq::<(char, nat)>::empty()) == 0);
            assert(seq![s[0]].last() == s[0]);
        }
    } else if (c as int) < (s[0].0 as int) {
        crate::assoc::lemma_lookup_below_head(s, c);
        assert(spec_put(s, c, v) =~= seq![(c, v)] + s);
        lemma_sum_counts_concat(seq![(c, v)], s);
        assert(sum_counts(seq![(c, v)]) == v) by {
            assert(seq![(c, v)].drop_last() =~= Seq::<(char, nat)>::empty());
            assert(sum_counts(Seq::<(char, nat)>::empty()) == 0);
            assert(seq![(c, v)].last() == (c, v));
        }
    } else {
        crate::assoc::lemma_sorted_drop_first(s);
        lemma_sum_put(s.drop_first(), c, v);
        assert(spec_put(s, c, v) =~= seq![s[0]] + spec_put(s.drop_first(), c, v));
        assert(s =~= seq![s[0]] + s.drop_first());
        lemma_sum_counts_concat(seq![s[0]], spec_put(s.drop_first(), c, v));
        lemma_sum_counts_concat(seq![s[0]], s.drop_first());
        assert(sum_counts(seq![s[0]]) == s[0].1) by {
            assert(seq![s[0]].drop_last() =~= Seq::<(char, nat)>::empty());
            assert(sum_counts(Seq::<(char, nat)>::empty()) == 0);
            assert(seq![s[0]].last() == s[0]);
        }
        assert(s[0].0 != c);
    }
}

/// The counted text's counts total its length.
pub proof fn lemma_sum_count_text(text: Seq<char>)
    ensures
        sum_counts(crate::freq::spec_count_text(text)) == text.len(),
    decreases text.len(),
{
    if text.len() > 0 {
        let prev = crate::freq::spec_count_text(text.drop_last());
        let d = text.last();
        lemma_sum_count_text(text.drop_last());
        crate::freq::lemma_count_text_sorted(text.drop_last());
        match spec_lookup(prev, d) {
            Some(n) => lemma_sum_put(prev, d, (n + 1) as nat),
            None => lemma_sum_put(prev, d, 1nat),
        }
    }
}

} // verus!
