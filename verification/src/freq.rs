//! Counting character frequencies.
//!
//! The frequency table maps every character that will appear in the body to
//! its occurrence count, plus exactly one entry for the line terminator.
//! The terminator's count is synthetic: one per line boundary, that is one
//! less than the number of lines read, and zero for empty input — line
//! splitting consumes the terminators before counting, so they are never
//! counted literally. The table is a `Vec<(char, u32)>` sorted by ascending
//! character, which fixes iteration order.

use crate::assoc::{
    keys_sorted, lemma_lookup_split, lemma_put_len, lemma_put_lookup, lemma_put_sorted,
    lemma_put_split, spec_lookup, spec_put,
};
use vstd::prelude::*;

verus! {

/// The line-terminator character the wire format is built around.
pub open spec fn terminator() -> char {
    '\n'
}

/// A concrete frequency table, seen as an association of counts.
pub open spec fn counts_view(s: Seq<(char, u32)>) -> Seq<(char, nat)> {
    s.map(|i: int, e: (char, u32)| (e.0, e.1 as nat))
}

/// A sequence of lines, seen abstractly.
pub open spec fn lines_view(ls: Seq<Vec<char>>) -> Seq<Seq<char>> {
    ls.map(|i: int, l: Vec<char>| l@)
}

/// The characters of all lines run together, without terminators.
pub open spec fn joined(lines: Seq<Seq<char>>) -> Seq<char>
    decreases lines.len(),
{
    if lines.len() == 0 {
        Seq::<char>::empty()
    } else {
        joined(lines.drop_last()) + lines.last()
    }
}

/// How many times `c` occurs in `text`.
pub open spec fn occurrences(text: Seq<char>, c: char) -> nat
    decreases text.len(),
{
    if text.len() == 0 {
        0
    } else {
        occurrences(text.drop_last(), c) + (if text.last() == c {
            1nat
        } else {
            0nat
        })
    }
}

/// Raises the count of `c` by one, starting it at one.
pub open spec fn spec_bump(s: Seq<(char, nat)>, c: char) -> Seq<(char, nat)> {
    match spec_lookup(s, c) {
        Some(n) => spec_put(s, c, (n + 1) as nat),
        None => spec_put(s, c, 1nat),
    }
}

/// The counts of every character of `text`, keyed and sorted by character.
pub open spec fn spec_count_text(text: Seq<char>) -> Seq<(char, nat)>
    decreases text.len(),
{
    if text.len() == 0 {
        Seq::<(char, nat)>::empty()
    } else {
        spec_bump(spec_count_text(text.drop_last()), text.last())
    }
}

/// The synthetic count of the line terminator: one per line boundary.
pub open spec fn terminator_count(lines: Seq<Seq<char>>) -> nat {
    if lines.len() == 0 {
        0
    } else {
        (lines.len() - 1) as nat
    }
}

/// The frequency table of an input: its character counts, with the
/// terminator's entry written last.
pub open spec fn spec_freq(lines: Seq<Seq<char>>) -> Seq<(char, nat)> {
    spec_put(spec_count_text(joined(lines)), terminator(), terminator_count(lines))
}

/// Counting keeps the keys sorted.
pub proof fn lemma_count_text_sorted(text: Seq<char>)
    ensures
        keys_sorted(spec_count_text(text)),
    decreases text.len(),
{
    if text.len() > 0 {
        lemma_count_text_sorted(text.drop_last());
        lemma_put_sorted(
            spec_count_text(text.drop_last()),
            text.last(),
            match spec_lookup(spec_count_text(text.drop_last()), text.last()) {
                Some(n) => (n + 1) as nat,
                None => 1nat,
            },
        );
    }
}

/// The frequency table is sorted.
pub proof fn lemma_freq_sorted(lines: Seq<Seq<char>>)
    ensures
        keys_sorted(spec_freq(lines)),
{
    lemma_count_text_sorted(joined(lines));
    lemma_put_sorted(spec_count_text(joined(lines)), terminator(), terminator_count(lines));
}

/// Counted counts are occurrence counts: a character is in the table
/// exactly when it occurs, with its number of occurrences.
pub proof fn lemma_count_text_lookup(text: Seq<char>, c: char)
    ensures
        spec_lookup(spec_count_text(text), c) == (if occurrences(text, c) == 0 {
            None::<nat>
        } else {
            Some(occurrences(text, c))
        }),
    decreases text.len(),
{
    if text.len() > 0 {
        let prev = spec_count_text(text.drop_last());
        let d = text.last();
        lemma_count_text_lookup(text.drop_last(), c);
        lemma_count_text_lookup(text.drop_last(), d);
        lemma_count_text_sorted(text.drop_last());
        match spec_lookup(prev, d) {
            Some(n) => lemma_put_lookup(prev, d, (n + 1) as nat, c),
            None => lemma_put_lookup(prev, d, 1nat, c),
        }
    }
}

/// A character occurs at most as often as the text is long.
pub proof fn lemma_occurrences_le_len(text: Seq<char>, c: char)
    ensures
        occurrences(text, c) <= text.len(),
    decreases text.len(),
{
    if text.len() > 0 {
        lemma_occurrences_le_len(text.drop_last(), c);
    }
}

/// The count table holds at most one entry per character of the text.
pub proof fn lemma_count_text_len(text: Seq<char>)
    ensures
        spec_count_text(text).len() <= text.len(),
    decreases text.len(),
{
    if text.len() > 0 {
        let prev = spec_count_text(text.drop_last());
        let d = text.last();
        lemma_count_text_len(text.drop_last());
        lemma_count_text_sorted(text.drop_last());
        match spec_lookup(prev, d) {
            Some(n) => lemma_put_len(prev, d, (n + 1) as nat),
            None => lemma_put_len(prev, d, 1nat),
        }
    }
}

/// Reading one more line joins its characters at the end.
pub proof fn lemma_joined_take_next(lines: Seq<Seq<char>>, k: int)
    requires
        0 <= k < lines.len(),
    ensures
        joined(lines.take(k + 1)) == joined(lines.take(k)) + lines[k],
{
    let t = lines.take(k + 1);
    assert(t.drop_last() =~= lines.take(k));
    assert(t.last() == lines[k]);
}

/// Joining more lines never shortens the text.
pub proof fn lemma_joined_take_len_mono(lines: Seq<Seq<char>>, k1: int, k2: int)
    requires
        0 <= k1 <= k2 <= lines.len(),
    ensures
        joined(lines.take(k1)).len() <= joined(lines.take(k2)).len(),
    decreases k2 - k1,
{
    if k1 < k2 {
        lemma_joined_take_len_mono(lines, k1, k2 - 1);
        lemma_joined_take_next(lines, k2 - 1);
    }
}

/// The position of `c` in the table, or of the first larger key.
pub(crate) fn find_key_pos<V>(table: &Vec<(char, V)>, c: char) -> (i: usize)
    ensures
        i <= table@.len(),
        forall|k: int| #![trigger table@[k]] 0 <= k < i ==> (table@[k].0 as int) < (c as int),
        i < table@.len() ==> (c as int) <= (table@[i as int].0 as int),
{
    let mut i: usize = 0;
    while i < table.len()
        invariant
            i <= table@.len(),
            forall|k: int| #![trigger table@[k]] 0 <= k < i ==> (table@[k].0 as int) < (c as int),
        decreases table@.len() - i,
    {
        let ch = table[i].0;
        if c <= ch {
            return i;
        }
        i = i + 1;
    }
    i
}

/// The count stored for `c`, if the table holds one.
pub(crate) fn get_count(table: &Vec<(char, u32)>, c: char) -> (r: Option<u32>)
    requires
        keys_sorted(counts_view(table@)),
    ensures
        match r {
            Some(v) => spec_lookup(counts_view(table@), c) == Some(v as nat),
            None => spec_lookup(counts_view(table@), c) is None,
        },
{
    let i = find_key_pos(table, c);
    proof {
        lemma_lookup_split(counts_view(table@), c, i as int);
    }
    if i < table.len() && table[i].0 == c {
        Some(table[i].1)
    } else {
        None
    }
}

/// Writes count `v` for `c`, replacing an entry or inserting one in key
/// order.
pub(crate) fn put_count(table: &mut Vec<(char, u32)>, c: char, v: u32)
    requires
        keys_sorted(counts_view(old(table)@)),
        old(table)@.len() < usize::MAX,
    ensures
        counts_view(final(table)@) == spec_put(counts_view(old(table)@), c, v as nat),
{
    let ghost s = counts_view(table@);
    let i = find_key_pos(table, c);
    proof {
        lemma_put_split(s, c, v as nat, i as int);
    }
    if i < table.len() && table[i].0 == c {
        table.set(i, (c, v));
        proof {
            assert(counts_view(table@) =~= s.update(i as int, (c, v as nat)));
        }
    } else {
        table.insert(i, (c, v));
        proof {
            assert(counts_view(table@) =~= s.subrange(0, i as int) + seq![(c, v as nat)]
                + s.subrange(i as int, s.len() as int));
        }
    }
}

/// Counts every character of every line, then writes the terminator's
/// synthetic count: the frequency table of the input.
pub fn count_chars(lines: &Vec<Vec<char>>) -> (r: Vec<(char, u32)>)
    requires
        joined(lines_view(lines@)).len() + lines@.len() <= u32::MAX,
    ensures
        counts_view(r@) == spec_freq(lines_view(lines@)),
        keys_sorted(counts_view(r@)),
{
    let ghost lv = lines_view(lines@);
    let ghost text = joined(lv);
    let mut table: Vec<(char, u32)> = Vec::new();
    proof {
        assert(counts_view(table@) =~= Seq::<(char, nat)>::empty());
        assert(lv.take(0) =~= Seq::<Seq<char>>::empty());
        assert(joined(lv.take(0)) =~= Seq::<char>::empty());
    }
    let mut li: usize = 0;
    while li < lines.len()
        invariant
            li <= lines@.len(),
            lv == lines_view(lines@),
            text == joined(lv),
            joined(lv).len() + lines@.len() <= u32::MAX,
            counts_view(table@) == spec_count_text(joined(lv.take(li as int))),
            keys_sorted(counts_view(table@)),
        decreases lines@.len() - li,
    {
        let line = &lines[li];
        proof {
            assert(lv[li as int] == line@);
        }
        let mut ci: usize = 0;
        while ci < line.len()
            invariant
                ci <= line@.len(),
                li < lines@.len(),
                lv == lines_view(lines@),
                text == joined(lv),
                lv[li as int] == line@,
                joined(lv).len() + lines@.len() <= u32::MAX,
                counts_view(table@) == spec_count_text(
                    joined(lv.take(li as int)) + line@.take(ci as int),
                ),
                keys_sorted(counts_view(table@)),
            decreases line@.len() - ci,
        {
            let c = line[ci];
            let ghost prefix = joined(lv.take(li as int)) + line@.take(ci as int);
            proof {
                // The prefix processed so far fits inside the whole text.
                lemma_joined_take_next(lv, li as int);
                lemma_joined_take_len_mono(lv, li as int + 1, lv.len() as int);
                assert(lv.take(lv.len() as int) =~= lv);
                assert(prefix.len() + (line@.len() - ci) <= joined(lv).len());
                // One more character extends the counted prefix.
                assert((prefix + seq![c]).drop_last() =~= prefix);
                assert((prefix + seq![c]).last() == c);
                assert(prefix + seq![c] =~= joined(lv.take(li as int)) + line@.take(ci as int + 1));
                lemma_count_text_sorted(prefix);
                lemma_count_text_lookup(prefix, c);
                lemma_occurrences_le_len(prefix, c);
                lemma_count_text_len(prefix);
            }
            match get_count(&table, c) {
                Some(n) => {
                    put_count(&mut table, c, n + 1);
                },
                None => {
                    put_count(&mut table, c, 1);
                },
            }
            proof {
                lemma_count_text_sorted(prefix + seq![c]);
            }
            ci = ci + 1;
        }
        proof {
            assert(line@.take(line@.len() as int) =~= line@);
            lemma_joined_take_next(lv, li as int);
            assert(joined(lv.take(li as int)) + line@ =~= joined(lv.take(li as int + 1)));
        }
        li = li + 1;
    }
    proof {
        assert(lv.take(lines@.len() as int) =~= lv);
        lemma_count_text_sorted(text);
        lemma_count_text_len(text);
    }
    let t: u32 = if lines.len() == 0 {
        0
    } else {
        (lines.len() - 1) as u32
    };
    proof {
        assert(t as nat == terminator_count(lv));
    }
    put_count(&mut table, '\n', t);
    proof {
        lemma_freq_sorted(lv);
    }
    table
}


/// Occurrences add up over concatenation.
pub proof fn lemma_occurrences_concat(a: Seq<char>, b: Seq<char>, c: char)
    ensures
        occurrences(a + b, c) == occurrences(a, c) + occurrences(b, c),
    decreases b.len(),
{
    if b.len() == 0 {
        assert(a + b =~= a);
    } else {
        assert((a + b).drop_last() =~= a + b.drop_last());
        assert((a + b).last() == b.last());
        lemma_occurrences_concat(a, b.drop_last(), c);
    }
}

/// Every character of a text occurs in it.
pub proof fn lemma_occurrences_at(s: Seq<char>, j: int)
    requires
        0 <= j < s.len(),
    ensures
        occurrences(s, s[j]) > 0,
    decreases s.len(),
{
    if j == s.len() - 1 {
        assert(s.last() == s[j]);
    } else {
        lemma_occurrences_at(s.drop_last(), j);
        assert(s.drop_last()[j] == s[j]);
    }
}

/// Joined text concatenates over line concatenation.
pub proof fn lemma_joined_concat(a: Seq<Seq<char>>, b: Seq<Seq<char>>)
    ensures
        joined(a + b) == joined(a) + joined(b),
    decreases b.len(),
{
    if b.len() == 0 {
        assert(a + b =~= a);
        assert(joined(a) + joined(b) =~= joined(a));
    } else {
        assert((a + b).drop_last() =~= a + b.drop_last());
        assert((a + b).last() == b.last());
        lemma_joined_concat(a, b.drop_last());
        assert(joined(a + b) =~= joined(a) + joined(b));
    }
}

/// Every character of every line occurs in the joined text.
pub proof fn lemma_char_in_joined(lines: Seq<Seq<char>>, i: int, j: int)
    requires
        0 <= i < lines.len(),
        0 <= j < lines[i].len(),
    ensures
        occurrences(joined(lines), lines[i][j]) > 0,
{
    let c = lines[i][j];
    assert(lines =~= lines.take(i + 1) + lines.skip(i + 1));
    lemma_joined_concat(lines.take(i + 1), lines.skip(i + 1));
    lemma_joined_take_next(lines, i);
    lemma_occurrences_at(lines[i], j);
    lemma_occurrences_concat(joined(lines.take(i)), lines[i], c);
    lemma_occurrences_concat(joined(lines.take(i + 1)), joined(lines.skip(i + 1)), c);
}

} // verus!
