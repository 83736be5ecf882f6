//! The finished code table and its two lookups.
//!
//! Once built, the code table is immutable: the encoder looks codes up by
//! character, and the decoder matches accumulated bit patterns against the
//! codes. Because the table is prefix-free, a growing bit pattern matches
//! at most one code, and never before the code is complete.

use crate::assoc::{keys_sorted, lemma_lookup_split, spec_lookup};
use crate::bits::NewBitVec;
use crate::codes::{codes_view, is_prefix_of, map_prefix_free};
use crate::freq::find_key_pos;
use vstd::prelude::*;

verus! {

/// The character a bit pattern decodes to: the first entry whose code is
/// the pattern.
pub open spec fn spec_lookup_code(t: Seq<(char, Seq<bool>)>, bits: Seq<bool>) -> Option<char>
    decreases t.len(),
{
    if t.len() == 0 {
        None
    } else if t[0].1 == bits {
        Some(t[0].0)
    } else {
        spec_lookup_code(t.drop_first(), bits)
    }
}

/// What a code lookup answers: a hit names an entry carrying the exact
/// pattern, a miss means no entry carries it.
pub proof fn lemma_lookup_code_cases(t: Seq<(char, Seq<bool>)>, bits: Seq<bool>)
    ensures
        match spec_lookup_code(t, bits) {
            Some(c) => exists|j: int| 0 <= j < t.len() && #[trigger] t[j] == (c, bits),
            None => forall|j: int| #![trigger t[j]] 0 <= j < t.len() ==> t[j].1 != bits,
        },
    decreases t.len(),
{
    if t.len() > 0 {
        lemma_lookup_code_cases(t.drop_first(), bits);
        if t[0].1 == bits {
            assert(t[0] == (t[0].0, bits));
        } else {
            match spec_lookup_code(t.drop_first(), bits) {
                Some(c) => {
                    let j = choose|j: int|
                        0 <= j < t.drop_first().len() && #[trigger] t.drop_first()[j] == (c, bits);
                    assert(t[j + 1] == (c, bits));
                },
                None => {
                    assert forall|j: int| #![trigger t[j]] 0 <= j < t.len() implies t[j].1
                        != bits by {
                        if j > 0 {
                            assert(t.drop_first()[j - 1] == t[j]);
                        }
                    }
                },
            }
        }
    }
}

/// In a prefix-free table each code decodes to its own character.
pub proof fn lemma_lookup_code_at(t: Seq<(char, Seq<bool>)>, i: int)
    requires
        map_prefix_free(t),
        0 <= i < t.len(),
    ensures
        spec_lookup_code(t, t[i].1) == Some(t[i].0),
    decreases t.len(),
{
    if i == 0 {
    } else {
        assert(!is_prefix_of(t[0].1, t[i].1));
        assert(t[0].1 != t[i].1) by {
            if t[0].1 == t[i].1 {
                assert(t[i].1.subrange(0, t[0].1.len() as int) =~= t[0].1);
            }
        }
        let s = t.drop_first();
        assert forall|i2: int, j2: int|
            #![trigger s[i2], s[j2]]
            0 <= i2 < s.len() && 0 <= j2 < s.len() && i2 != j2 implies !is_prefix_of(
            s[i2].1,
            s[j2].1,
        ) by {
            assert(s[i2] == t[i2 + 1]);
            assert(s[j2] == t[j2 + 1]);
        }
        assert(s[i - 1] == t[i]);
        lemma_lookup_code_at(s, i - 1);
    }
}

/// In a prefix-free table no proper prefix of a code is itself a code.
pub proof fn lemma_prefix_not_code(t: Seq<(char, Seq<bool>)>, i: int, k: int)
    requires
        map_prefix_free(t),
        0 <= i < t.len(),
        0 <= k < t[i].1.len(),
    ensures
        spec_lookup_code(t, t[i].1.subrange(0, k)) is None,
{
    let p = t[i].1.subrange(0, k);
    lemma_lookup_code_cases(t, p);
    if spec_lookup_code(t, p) is Some {
        let c = spec_lookup_code(t, p)->Some_0;
        let j = choose|j: int| 0 <= j < t.len() && #[trigger] t[j] == (c, p);
        assert(is_prefix_of(t[j].1, t[i].1)) by {
            assert(t[j].1 =~= t[i].1.subrange(0, t[j].1.len() as int));
        }
        assert(j != i);
    }
}

/// Whether two bit vectors hold the same bits.
pub(crate) fn bits_eq(a: &NewBitVec, b: &NewBitVec) -> (r: bool)
    ensures
        r == (a@ == b@),
{
    let alen = a.len();
    if alen != b.len() {
        proof {
            assert(a@.len() != b@.len());
        }
        return false;
    }
    let mut i: usize = 0;
    while i < alen
        invariant
            i <= alen,
            alen == a@.len(),
            alen == b@.len(),
            forall|k: int| 0 <= k < i ==> a@[k] == #[trigger] b@[k],
        decreases alen - i,
    {
        if a.get(i) != b.get(i) {
            return false;
        }
        i = i + 1;
    }
    proof {
        assert(a@ =~= b@);
    }
    true
}

/// The position of the entry coding `c`, if the table holds one.
pub(crate) fn code_index(table: &Vec<(char, NewBitVec)>, c: char) -> (r: Option<usize>)
    requires
        keys_sorted(codes_view(table@)),
    ensures
        match r {
            Some(i) => i < table@.len() && table@[i as int].0 == c && spec_lookup(
                codes_view(table@),
                c,
            ) == Some(codes_view(table@)[i as int].1),
            None => spec_lookup(codes_view(table@), c) is None,
        },
{
    let i = find_key_pos(table, c);
    proof {
        lemma_lookup_split(codes_view(table@), c, i as int);
    }
    if i < table.len() && table[i].0 == c {
        Some(i)
    } else {
        None
    }
}

/// The character whose code is exactly the candidate pattern, if any.
pub(crate) fn match_code(table: &Vec<(char, NewBitVec)>, cand: &NewBitVec) -> (r: Option<char>)
    ensures
        r == spec_lookup_code(codes_view(table@), cand@),
{
    let ghost tv = codes_view(table@);
    proof {
        assert(tv.skip(0) =~= tv);
    }
    let mut i: usize = 0;
    while i < table.len()
        invariant
            i <= table@.len(),
            tv == codes_view(table@),
            spec_lookup_code(tv, cand@) == spec_lookup_code(tv.skip(i as int), cand@),
        decreases table@.len() - i,
    {
        let ghost rest = tv.skip(i as int);
        proof {
            assert(rest[0] == (table@[i as int].0, table@[i as int].1@));
            assert(rest.drop_first() =~= tv.skip(i as int + 1));
        }
        if bits_eq(&table[i].1, cand) {
            return Some(table[i].0);
        }
        i = i + 1;
    }
    proof {
        assert(tv.skip(table@.len() as int) =~= Seq::<(char, Seq<bool>)>::empty());
    }
    None
}

} // verus!
