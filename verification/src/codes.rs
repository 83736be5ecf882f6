//! Code maps: characters mapped to bit codes.
//!
//! A code map associates each character of a subtree with its code, the bit
//! sequence that leads from the subtree's own root down to the character's
//! leaf. Merging two subtrees prepends a `0` to every code of the first and
//! a `1` to every code of the second and joins the two maps; this module
//! defines those operations and proves that they keep the maps sorted,
//! keyed as expected, and free of codes that are prefixes of one another.

use crate::assoc::{has_key, keys_sorted, lemma_sorted_drop_first, spec_lookup};
use crate::bits::NewBitVec;
use vstd::prelude::*;

verus! {

/// A concrete code map, seen as an association of bit sequences.
pub open spec fn codes_view(s: Seq<(char, NewBitVec)>) -> Seq<(char, Seq<bool>)> {
    s.map(|i: int, e: (char, NewBitVec)| (e.0, e.1@))
}

/// `a` is a prefix of `b`, equality included.
pub open spec fn is_prefix_of(a: Seq<bool>, b: Seq<bool>) -> bool {
    a.len() <= b.len() && a == b.subrange(0, a.len() as int)
}

/// No code of the map is a prefix of another entry's code; in particular
/// all codes are distinct.
pub open spec fn map_prefix_free(m: Seq<(char, Seq<bool>)>) -> bool {
    forall|i: int, j: int|
        #![trigger m[i], m[j]]
        0 <= i < m.len() && 0 <= j < m.len() && i != j ==> !is_prefix_of(m[i].1, m[j].1)
}

/// Two maps share no character.
pub open spec fn maps_disjoint(a: Seq<(char, Seq<bool>)>, b: Seq<(char, Seq<bool>)>) -> bool {
    forall|c: char| !(#[trigger] has_key(a, c) && #[trigger] has_key(b, c))
}

/// The map with `bit` prepended to every code.
pub open spec fn prepend(m: Seq<(char, Seq<bool>)>, bit: bool) -> Seq<(char, Seq<bool>)> {
    m.map(|i: int, e: (char, Seq<bool>)| (e.0, seq![bit] + e.1))
}

/// Joins two maps sorted by character into one.
pub open spec fn merge_maps(a: Seq<(char, Seq<bool>)>, b: Seq<(char, Seq<bool>)>) -> Seq<
    (char, Seq<bool>),
>
    decreases a.len() + b.len(),
{
    if a.len() == 0 {
        b
    } else if b.len() == 0 {
        a
    } else if (a[0].0 as int) < (b[0].0 as int) {
        seq![a[0]] + merge_maps(a.drop_first(), b)
    } else {
        seq![b[0]] + merge_maps(a, b.drop_first())
    }
}

/// A key is present somewhere exactly when an entry carries it.
pub proof fn lemma_has_key_iff<V>(s: Seq<(char, V)>, c: char)
    ensures
        has_key(s, c) <==> exists|k: int| 0 <= k < s.len() && (#[trigger] s[k]).0 == c,
    decreases s.len(),
{
    if s.len() > 0 {
        lemma_has_key_iff(s.drop_first(), c);
        if s[0].0 == c {
        } else if has_key(s.drop_first(), c) {
            let k = choose|k: int|
                0 <= k < s.drop_first().len() && (#[trigger] s.drop_first()[k]).0 == c;
            assert(s[k + 1].0 == c);
        } else if exists|k: int| 0 <= k < s.len() && (#[trigger] s[k]).0 == c {
            let k = choose|k: int| 0 <= k < s.len() && (#[trigger] s[k]).0 == c;
            assert(s.drop_first()[k - 1].0 == c);
        }
    }
}

/// Prepending keeps keys and sortedness, and maps each lookup.
pub proof fn lemma_prepend_lookup(m: Seq<(char, Seq<bool>)>, bit: bool, c: char)
    ensures
        spec_lookup(prepend(m, bit), c) == match spec_lookup(m, c) {
            Some(x) => Some(seq![bit] + x),
            None => None::<Seq<bool>>,
        },
    decreases m.len(),
{
    if m.len() > 0 {
        assert(prepend(m, bit)[0] == (m[0].0, seq![bit] + m[0].1));
        assert(prepend(m, bit).drop_first() =~= prepend(m.drop_first(), bit));
        lemma_prepend_lookup(m.drop_first(), bit, c);
    }
}

/// Prepending keeps the keys sorted.
pub proof fn lemma_prepend_sorted(m: Seq<(char, Seq<bool>)>, bit: bool)
    requires
        keys_sorted(m),
    ensures
        keys_sorted(prepend(m, bit)),
{
    let p = prepend(m, bit);
    assert forall|i: int, j: int|
        #![trigger p[i], p[j]]
        0 <= i < j < p.len() implies (p[i].0 as int) < (p[j].0 as int) by {
        assert(p[i].0 == m[i].0);
        assert(p[j].0 == m[j].0);
        assert(m[i] == m[i]);
        assert(m[j] == m[j]);
    }
}

/// One bit in front keeps distinct codes prefix-free, and tells the two
/// sides of a merge apart.
pub proof fn lemma_prefix_after_prepend(x: Seq<bool>, y: Seq<bool>, bx: bool, by: bool)
    ensures
        is_prefix_of(seq![bx] + x, seq![by] + y) <==> (bx == by && is_prefix_of(x, y)),
{
    let px = seq![bx] + x;
    let py = seq![by] + y;
    if px.len() <= py.len() {
        if bx == by && is_prefix_of(x, y) {
            assert(px =~= py.subrange(0, px.len() as int));
        }
        if is_prefix_of(px, py) {
            assert(px[0] == py.subrange(0, px.len() as int)[0]);
            assert(bx == by);
            assert(x =~= y.subrange(0, x.len() as int)) by {
                assert forall|k: int| 0 <= k < x.len() implies x[k] == y.subrange(
                    0,
                    x.len() as int,
                )[k] by {
                    assert(px[k + 1] == py.subrange(0, px.len() as int)[k + 1]);
                }
            }
        }
    }
}

/// What merging yields: sorted keys, the union of the entries, lookups
/// answered by whichever side holds the key.
pub proof fn lemma_merge_maps(a: Seq<(char, Seq<bool>)>, b: Seq<(char, Seq<bool>)>)
    requires
        keys_sorted(a),
        keys_sorted(b),
        maps_disjoint(a, b),
    ensures
        keys_sorted(merge_maps(a, b)),
        merge_maps(a, b).len() == a.len() + b.len(),
        forall|c: char| #![trigger spec_lookup(merge_maps(a, b), c)]
            spec_lookup(merge_maps(a, b), c) == (if has_key(a, c) {
                spec_lookup(a, c)
            } else {
                spec_lookup(b, c)
            }),
        forall|k: int|
            #![trigger merge_maps(a, b)[k]]
            0 <= k < merge_maps(a, b).len() ==> (exists|i: int|
                0 <= i < a.len() && a[i] == merge_maps(a, b)[k]) || (exists|i: int|
                0 <= i < b.len() && b[i] == merge_maps(a, b)[k]),
    decreases a.len() + b.len(),
{
    let r = merge_maps(a, b);
    if a.len() == 0 {
        assert forall|c: char| #![trigger spec_lookup(r, c)] spec_lookup(r, c) == (if has_key(
            a,
            c,
        ) {
            spec_lookup(a, c)
        } else {
            spec_lookup(b, c)
        }) by {
            if has_key(a, c) {
            }
        }
        assert forall|k: int| #![trigger r[k]] 0 <= k < r.len() implies (exists|i: int|
            0 <= i < a.len() && a[i] == r[k]) || (exists|i: int|
            0 <= i < b.len() && b[i] == r[k]) by {
            assert(b[k] == r[k]);
        }
    } else if b.len() == 0 {
        assert forall|k: int| #![trigger r[k]] 0 <= k < r.len() implies (exists|i: int|
            0 <= i < a.len() && a[i] == r[k]) || (exists|i: int|
            0 <= i < b.len() && b[i] == r[k]) by {
            assert(a[k] == r[k]);
        }
    } else if (a[0].0 as int) < (b[0].0 as int) {
        lemma_sorted_drop_first(a);
        assert(maps_disjoint(a.drop_first(), b)) by {
            assert forall|c: char| !(#[trigger] has_key(a.drop_first(), c) && #[trigger] has_key(
                b,
                c,
            )) by {
                if has_key(a.drop_first(), c) {
                    lemma_has_key_iff(a.drop_first(), c);
                    let k = choose|k: int|
                        0 <= k < a.drop_first().len() && (#[trigger] a.drop_first()[k]).0 == c;
                    assert(a[k + 1].0 == c);
                    lemma_has_key_iff(a, c);
                }
            }
        }
        lemma_merge_maps(a.drop_first(), b);
        let rt = merge_maps(a.drop_first(), b);
        assert(r == seq![a[0]] + rt);
        assert(r[0] == a[0]);
        assert(r.drop_first() =~= rt);
        // sortedness: a[0] is below every key of both tails
        assert forall|i: int, j: int|
            #![trigger r[i], r[j]]
            0 <= i < j < r.len() implies (r[i].0 as int) < (r[j].0 as int) by {
            if i > 0 {
                assert(r[i] == rt[i - 1]);
                assert(r[j] == rt[j - 1]);
            } else {
                assert(r[j] == rt[j - 1]);
                let e = rt[j - 1];
                assert((exists|i2: int| 0 <= i2 < a.drop_first().len() && a.drop_first()[i2] == e)
                    || (exists|i2: int| 0 <= i2 < b.len() && b[i2] == e));
                if exists|i2: int| 0 <= i2 < a.drop_first().len() && a.drop_first()[i2] == e {
                    let i2 = choose|i2: int|
                        0 <= i2 < a.drop_first().len() && a.drop_first()[i2] == e;
                    assert(a[i2 + 1] == e);
                } else {
                    let i2 = choose|i2: int| 0 <= i2 < b.len() && b[i2] == e;
                    assert((b[0].0 as int) <= (b[i2].0 as int));
                }
            }
        }
        // lookups
        assert forall|c: char| #![trigger spec_lookup(r, c)] spec_lookup(r, c) == (if has_key(
            a,
            c,
        ) {
            spec_lookup(a, c)
        } else {
            spec_lookup(b, c)
        }) by {
            if c == a[0].0 {
                assert(spec_lookup(r, c) == Some(a[0].1));
                assert(has_key(a, c));
            } else {
                assert(spec_lookup(r, c) == spec_lookup(rt, c));
                assert(spec_lookup(a, c) == spec_lookup(a.drop_first(), c));
            }
        }
        // provenance
        assert forall|k: int| #![trigger r[k]] 0 <= k < r.len() implies (exists|i: int|
            0 <= i < a.len() && a[i] == r[k]) || (exists|i: int|
            0 <= i < b.len() && b[i] == r[k]) by {
            if k == 0 {
                assert(a[0] == r[0]);
            } else {
                assert(r[k] == rt[k - 1]);
                if exists|i2: int| 0 <= i2 < a.drop_first().len() && a.drop_first()[i2] == rt[k
                    - 1] {
                    let i2 = choose|i2: int|
                        0 <= i2 < a.drop_first().len() && a.drop_first()[i2] == rt[k - 1];
                    assert(a[i2 + 1] == r[k]);
                }
            }
        }
    } else {
        lemma_sorted_drop_first(b);
        assert(maps_disjoint(a, b.drop_first())) by {
            assert forall|c: char| !(#[trigger] has_key(a, c) && #[trigger] has_key(
                b.drop_first(),
                c,
            )) by {
                if has_key(b.drop_first(), c) {
                    lemma_has_key_iff(b.drop_first(), c);
                    let k = choose|k: int|
                        0 <= k < b.drop_first().len() && (#[trigger] b.drop_first()[k]).0 == c;
                    assert(b[k + 1].0 == c);
                    lemma_has_key_iff(b, c);
                }
            }
        }
        lemma_merge_maps(a, b.drop_first());
        let rt = merge_maps(a, b.drop_first());
        assert(r == seq![b[0]] + rt);
        assert(r[0] == b[0]);
        assert(r.drop_first() =~= rt);
        // the two heads differ: disjointness rules out equal characters
        assert(a[0].0 != b[0].0) by {
            if a[0].0 == b[0].0 {
                lemma_has_key_iff(a, a[0].0);
                lemma_has_key_iff(b, b[0].0);
            }
        }
        assert((b[0].0 as int) < (a[0].0 as int));
        assert forall|i: int, j: int|
            #![trigger r[i], r[j]]
            0 <= i < j < r.len() implies (r[i].0 as int) < (r[j].0 as int) by {
            if i > 0 {
                assert(r[i] == rt[i - 1]);
                assert(r[j] == rt[j - 1]);
            } else {
                assert(r[j] == rt[j - 1]);
                let e = rt[j - 1];
                assert((exists|i2: int| 0 <= i2 < a.len() && a[i2] == e) || (exists|i2: int|
                    0 <= i2 < b.drop_first().len() && b.drop_first()[i2] == e));
                if exists|i2: int| 0 <= i2 < b.drop_first().len() && b.drop_first()[i2] == e {
                    let i2 = choose|i2: int|
                        0 <= i2 < b.drop_first().len() && b.drop_first()[i2] == e;
                    assert(b[i2 + 1] == e);
                } else {
                    let i2 = choose|i2: int| 0 <= i2 < a.len() && a[i2] == e;
                    assert((a[0].0 as int) <= (a[i2].0 as int));
                }
            }
        }
        assert forall|c: char| #![trigger spec_lookup(r, c)] spec_lookup(r, c) == (if has_key(
            a,
            c,
        ) {
            spec_lookup(a, c)
        } else {
            spec_lookup(b, c)
        }) by {
            if c == b[0].0 {
                assert(spec_lookup(r, c) == Some(b[0].1));
                assert(has_key(b, c)) by {
                    lemma_has_key_iff(b, c);
                    assert(b[0].0 == c);
                }
                assert(!has_key(a, c));
            } else {
                assert(spec_lookup(r, c) == spec_lookup(rt, c));
                assert(spec_lookup(b, c) == spec_lookup(b.drop_first(), c));
            }
        }
        assert forall|k: int| #![trigger r[k]] 0 <= k < r.len() implies (exists|i: int|
            0 <= i < a.len() && a[i] == r[k]) || (exists|i: int|
            0 <= i < b.len() && b[i] == r[k]) by {
            if k == 0 {
                assert(b[0] == r[0]);
            } else {
                assert(r[k] == rt[k - 1]);
                if exists|i2: int| 0 <= i2 < b.drop_first().len() && b.drop_first()[i2] == rt[k
                    - 1] {
                    let i2 = choose|i2: int|
                        0 <= i2 < b.drop_first().len() && b.drop_first()[i2] == rt[k - 1];
                    assert(b[i2 + 1] == r[k]);
                }
            }
        }
    }
}

} // verus!
