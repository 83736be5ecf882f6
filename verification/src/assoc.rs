//! Association sequences keyed by character.
//!
//! The frequency table and the code table are both kept as sequences of
//! pairs sorted by strictly ascending character code point, so lookups,
//! insertions and iteration order are all deterministic. This module defines
//! the sorted-association model those tables share and proves how lookup and
//! insert-or-replace interact.

use vstd::prelude::*;

verus! {

/// Keys strictly ascend by code point: each key occurs once and iteration
/// order is fixed.
pub open spec fn keys_sorted<V>(s: Seq<(char, V)>) -> bool {
    forall|i: int, j: int|
        #![trigger s[i], s[j]]
        0 <= i < j < s.len() ==> (s[i].0 as int) < (s[j].0 as int)
}

/// The value at key `c`, if the sequence holds one.
pub open spec fn spec_lookup<V>(s: Seq<(char, V)>, c: char) -> Option<V>
    decreases s.len(),
{
    if s.len() == 0 {
        None
    } else if s[0].0 == c {
        Some(s[0].1)
    } else {
        spec_lookup(s.drop_first(), c)
    }
}

/// True when the sequence holds key `c`.
pub open spec fn has_key<V>(s: Seq<(char, V)>, c: char) -> bool {
    spec_lookup(s, c) is Some
}

/// Writes `v` at key `c`, replacing an existing entry or inserting a new
/// one at its sorted position.
pub open spec fn spec_put<V>(s: Seq<(char, V)>, c: char, v: V) -> Seq<(char, V)>
    decreases s.len(),
{
    if s.len() == 0 {
        seq![(c, v)]
    } else if s[0].0 == c {
        seq![(c, v)] + s.drop_first()
    } else if (c as int) < (s[0].0 as int) {
        seq![(c, v)] + s
    } else {
        seq![s[0]] + spec_put(s.drop_first(), c, v)
    }
}

/// Sortedness passes to the tail.
pub proof fn lemma_sorted_drop_first<V>(s: Seq<(char, V)>)
    requires
        keys_sorted(s),
        s.len() > 0,
    ensures
        keys_sorted(s.drop_first()),
{
    let t = s.drop_first();
    assert forall|i: int, j: int|
        #![trigger t[i], t[j]]
        0 <= i < j < t.len() implies (t[i].0 as int) < (t[j].0 as int) by {
        assert(t[i] == s[i + 1]);
        assert(t[j] == s[j + 1]);
    }
}

/// A key below every key in the sequence is absent.
pub proof fn lemma_lookup_below_head<V>(s: Seq<(char, V)>, c: char)
    requires
        keys_sorted(s),
        s.len() > 0 ==> (c as int) < (s[0].0 as int),
    ensures
        spec_lookup(s, c) is None,
    decreases s.len(),
{
    if s.len() > 0 {
        lemma_sorted_drop_first(s);
        if s.len() > 1 {
            assert(s.drop_first()[0] == s[1]);
        }
        lemma_lookup_below_head(s.drop_first(), c);
    }
}

/// What lookup returns, read off from the first position whose key is not
/// below `c`.
pub proof fn lemma_lookup_split<V>(s: Seq<(char, V)>, c: char, i: int)
    requires
        keys_sorted(s),
        0 <= i <= s.len(),
        forall|k: int| #![trigger s[k]] 0 <= k < i ==> (s[k].0 as int) < (c as int),
        i < s.len() ==> (c as int) <= (s[i].0 as int),
    ensures
        spec_lookup(s, c) == (if i < s.len() && s[i].0 == c {
            Some(s[i].1)
        } else {
            None::<V>
        }),
    decreases s.len(),
{
    if i == 0 {
        if s.len() == 0 {
        } else if s[0].0 == c {
        } else {
            lemma_lookup_below_head(s, c);
        }
    } else {
        let t = s.drop_first();
        lemma_sorted_drop_first(s);
        assert forall|k: int| #![trigger t[k]] 0 <= k < i - 1 implies (t[k].0 as int)
            < (c as int) by {
            assert(t[k] == s[k + 1]);
        }
        if i < s.len() {
            assert(t[i - 1] == s[i]);
        }
        lemma_lookup_split(t, c, i - 1);
        assert(s[0].0 != c);
    }
}

/// What put builds, read off from the first position whose key is not
/// below `c`: an overwrite in place, or an insertion at `i`.
pub proof fn lemma_put_split<V>(s: Seq<(char, V)>, c: char, v: V, i: int)
    requires
        keys_sorted(s),
        0 <= i <= s.len(),
        forall|k: int| #![trigger s[k]] 0 <= k < i ==> (s[k].0 as int) < (c as int),
        i < s.len() ==> (c as int) <= (s[i].0 as int),
    ensures
        spec_put(s, c, v) == (if i < s.len() && s[i].0 == c {
            s.update(i, (c, v))
        } else {
            s.subrange(0, i) + seq![(c, v)] + s.subrange(i, s.len() as int)
        }),
    decreases s.len(),
{
    if i == 0 {
        if s.len() == 0 {
            assert(spec_put(s, c, v) =~= s.subrange(0, 0) + seq![(c, v)] + s.subrange(
                0,
                s.len() as int,
            ));
        } else if s[0].0 == c {
            assert(seq![(c, v)] + s.drop_first() =~= s.update(0, (c, v)));
        } else {
            assert((c as int) < (s[0].0 as int));
            assert(seq![(c, v)] + s =~= s.subrange(0, 0) + seq![(c, v)] + s.subrange(
                0,
                s.len() as int,
            ));
        }
    } else {
        let t = s.drop_first();
        lemma_sorted_drop_first(s);
        assert forall|k: int| #![trigger t[k]] 0 <= k < i - 1 implies (t[k].0 as int)
            < (c as int) by {
            assert(t[k] == s[k + 1]);
        }
        if i < s.len() {
            assert(t[i - 1] == s[i]);
        }
        lemma_put_split(t, c, v, i - 1);
        assert(s[0].0 != c);
        assert((s[0].0 as int) < (c as int));
        if i < s.len() && s[i].0 == c {
            assert(seq![s[0]] + t.update(i - 1, (c, v)) =~= s.update(i, (c, v)));
        } else {
            assert(seq![s[0]] + (t.subrange(0, i - 1) + seq![(c, v)] + t.subrange(
                i - 1,
                t.len() as int,
            )) =~= s.subrange(0, i) + seq![(c, v)] + s.subrange(i, s.len() as int));
        }
    }
}

/// Put keeps the keys sorted.
pub proof fn lemma_put_sorted<V>(s: Seq<(char, V)>, c: char, v: V)
    requires
        keys_sorted(s),
    ensures
        keys_sorted(spec_put(s, c, v)),
    decreases s.len(),
{
    let r = spec_put(s, c, v);
    if s.len() == 0 {
    } else if s[0].0 == c {
        assert forall|i: int, j: int|
            #![trigger r[i], r[j]]
            0 <= i < j < r.len() implies (r[i].0 as int) < (r[j].0 as int) by {
            assert(r[j] == s[j]);
            if i > 0 {
                assert(r[i] == s[i]);
            }
        }
    } else if (c as int) < (s[0].0 as int) {
        assert forall|i: int, j: int|
            #![trigger r[i], r[j]]
            0 <= i < j < r.len() implies (r[i].0 as int) < (r[j].0 as int) by {
            assert(r[j] == s[j - 1]);
            if i > 0 {
                assert(r[i] == s[i - 1]);
            }
        }
    } else {
        let t = s.drop_first();
        lemma_sorted_drop_first(s);
        lemma_put_sorted(t, c, v);
        lemma_put_keys(t, c, v);
        let rt = spec_put(t, c, v);
        assert forall|i: int, j: int|
            #![trigger r[i], r[j]]
            0 <= i < j < r.len() implies (r[i].0 as int) < (r[j].0 as int) by {
            assert(r[j] == rt[j - 1]);
            if i > 0 {
                assert(r[i] == rt[i - 1]);
            } else {
                assert(r[0] == s[0]);
                let k = rt[j - 1].0;
                assert((s[0].0 as int) < (k as int));
            }
        }
    }
}

/// Every key of a put comes from the sequence or is the key put.
pub proof fn lemma_put_keys<V>(s: Seq<(char, V)>, c: char, v: V)
    requires
        keys_sorted(s),
    ensures
        forall|m: int|
            #![trigger spec_put(s, c, v)[m]]
            0 <= m < spec_put(s, c, v).len() ==> (spec_put(s, c, v)[m].0 == c || exists|k: int|
                0 <= k < s.len() && #[trigger] s[k].0 == spec_put(s, c, v)[m].0),
    decreases s.len(),
{
    let r = spec_put(s, c, v);
    if s.len() == 0 {
    } else if s[0].0 == c {
        assert forall|m: int| #![trigger r[m]] 0 <= m < r.len() implies (r[m].0 == c || exists|
            k: int,
        |
            0 <= k < s.len() && #[trigger] s[k].0 == r[m].0) by {
            if m > 0 {
                assert(r[m] == s[m]);
            }
        }
    } else if (c as int) < (s[0].0 as int) {
        assert forall|m: int| #![trigger r[m]] 0 <= m < r.len() implies (r[m].0 == c || exists|
            k: int,
        |
            0 <= k < s.len() && #[trigger] s[k].0 == r[m].0) by {
            if m > 0 {
                assert(r[m] == s[m - 1]);
            }
        }
    } else {
        let t = s.drop_first();
        lemma_sorted_drop_first(s);
        lemma_put_keys(t, c, v);
        let rt = spec_put(t, c, v);
        assert forall|m: int| #![trigger r[m]] 0 <= m < r.len() implies (r[m].0 == c || exists|
            k: int,
        |
            0 <= k < s.len() && #[trigger] s[k].0 == r[m].0) by {
            if m == 0 {
                assert(r[0] == s[0]);
                assert(s[0].0 == r[0].0);
            } else {
                assert(r[m] == rt[m - 1]);
                if rt[m - 1].0 != c {
                    let k = choose|k: int| 0 <= k < t.len() && #[trigger] t[k].0 == rt[m - 1].0;
                    assert(t[k] == s[k + 1]);
                    assert(s[k + 1].0 == r[m].0);
                }
            }
        }
    }
}

/// A put grows the sequence by one entry exactly when the key was absent.
pub proof fn lemma_put_len<V>(s: Seq<(char, V)>, c: char, v: V)
    requires
        keys_sorted(s),
    ensures
        spec_put(s, c, v).len() == s.len() + (if has_key(s, c) {
            0int
        } else {
            1int
        }),
    decreases s.len(),
{
    if s.len() == 0 {
    } else if s[0].0 == c {
    } else if (c as int) < (s[0].0 as int) {
        assert(s[0].0 != c);
        lemma_lookup_below_head(s, c);
    } else {
        lemma_sorted_drop_first(s);
        lemma_put_len(s.drop_first(), c, v);
        assert(s[0].0 != c);
    }
}

/// How lookup reads a put: the key put holds the new value, every other
/// key is untouched.
pub proof fn lemma_put_lookup<V>(s: Seq<(char, V)>, c: char, v: V, d: char)
    requires
        keys_sorted(s),
    ensures
        spec_lookup(spec_put(s, c, v), d) == (if d == c {
            Some(v)
        } else {
            spec_lookup(s, d)
        }),
    decreases s.len(),
{
    let r = spec_put(s, c, v);
    if s.len() == 0 {
        assert(r[0] == (c, v));
        if d != c {
            assert(seq![(c, v)].drop_first() =~= Seq::<(char, V)>::empty());
        }
        assert(spec_lookup(r, d) == (if d == c {
            Some(v)
        } else {
            spec_lookup(s, d)
        }));
    } else if s[0].0 == c {
        assert(r[0] == (c, v));
        assert(r.drop_first() =~= s.drop_first());
        assert(spec_lookup(r, d) == (if d == c {
            Some(v)
        } else {
            spec_lookup(s, d)
        }));
    } else if (c as int) < (s[0].0 as int) {
        assert(r[0] == (c, v));
        assert(r.drop_first() =~= s);
        assert(spec_lookup(r, d) == (if d == c {
            Some(v)
        } else {
            spec_lookup(s, d)
        }));
    } else {
        let t = s.drop_first();
        lemma_sorted_drop_first(s);
        lemma_put_lookup(t, c, v, d);
        assert(r[0] == s[0]);
        assert(r.drop_first() =~= spec_put(t, c, v));
        assert(s[0].0 != c);
        assert(spec_lookup(r, d) == (if d == c {
            Some(v)
        } else {
            spec_lookup(s, d)
        }));
    }
}

} // verus!
