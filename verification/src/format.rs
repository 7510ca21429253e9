//! The text form of a dictionary: one entry per line, a word and its weight,
//! parted by white space.
//!
//! A line ends at a line feed or at the end of the text. Its fields are the
//! longest runs of characters that are not white space. A line with at least
//! two fields gives an entry, made of the first two; any other line gives
//! nothing. Whether the second field is a weight is not decided here.
use vstd::prelude::*;
use crate::text::{char_is_space, chars_of, is_space, string_of};

verus! {

/// The place of the first line feed at or after `i`, or the end of the text.
pub open spec fn line_end(s: Seq<char>, i: int) -> int
    decreases s.len() - i,
{
    if 0 <= i < s.len() && s[i] != '\n' {
        line_end(s, i + 1)
    } else {
        i
    }
}

/// The first place at or after `i` and before `end` that holds no white space, or `end`.
pub open spec fn skip_spaces(s: Seq<char>, i: int, end: int) -> int
    decreases end - i,
{
    if 0 <= i < end <= s.len() && is_space(s[i]) {
        skip_spaces(s, i + 1, end)
    } else {
        i
    }
}

/// The first place at or after `i` and before `end` that holds white space, or `end`.
pub open spec fn skip_word(s: Seq<char>, i: int, end: int) -> int
    decreases end - i,
{
    if 0 <= i < end <= s.len() && !is_space(s[i]) {
        skip_word(s, i + 1, end)
    } else {
        i
    }
}

/// The entry that the line `s[start..end]` gives: its first two fields.
pub open spec fn line_entry(s: Seq<char>, start: int, end: int) -> Option<(Seq<char>, Seq<char>)> {
    let a0 = skip_spaces(s, start, end);
    let b0 = skip_word(s, a0, end);
    let a1 = skip_spaces(s, b0, end);
    let b1 = skip_word(s, a1, end);
    if a1 < end {
        Some((s.subrange(a0, b0), s.subrange(a1, b1)))
    } else {
        None
    }
}

/// The entries of the lines that begin at or after `i`, where a line begins at `i`.
pub open spec fn entries_from(s: Seq<char>, i: int) -> Seq<(Seq<char>, Seq<char>)>
    decreases s.len() - i,
    via entries_from_decreases
{
    if 0 <= i < s.len() {
        let end = line_end(s, i);
        let rest = if end < s.len() {
            entries_from(s, end + 1)
        } else {
            Seq::empty()
        };
        match line_entry(s, i, end) {
            Some(entry) => seq![entry] + rest,
            None => rest,
        }
    } else {
        Seq::empty()
    }
}

#[via_fn]
proof fn entries_from_decreases(s: Seq<char>, i: int) {
    if 0 <= i < s.len() {
        lemma_line_end_bounds(s, i);
    }
}

/// The entries of a dictionary text, in the order of their lines.
pub open spec fn dict_entries(s: Seq<char>) -> Seq<(Seq<char>, Seq<char>)> {
    entries_from(s, 0)
}

/// The views of a list of string pairs.
pub open spec fn pair_views(v: Seq<(String, String)>) -> Seq<(Seq<char>, Seq<char>)> {
    v.map_values(|p: (String, String)| (p.0@, p.1@))
}

/// A line that begins inside the text ends at or after its beginning, inside the text or at its end.
pub proof fn lemma_line_end_bounds(s: Seq<char>, i: int)
    requires
        0 <= i <= s.len(),
    ensures
        i <= line_end(s, i) <= s.len(),
    decreases s.len() - i,
{
    if i < s.len() && s[i] != '\n' {
        lemma_line_end_bounds(s, i + 1);
    }
}

fn find_line_end(chars: &Vec<char>, start: usize) -> (end: usize)
    requires
        start <= chars.len(),
    ensures
        end == line_end(chars@, start as int),
        start <= end <= chars.len(),
{
    let mut j: usize = start;
    while j < chars.len() && chars[j] != '\n'
        invariant
            start <= j <= chars.len(),
            line_end(chars@, start as int) == line_end(chars@, j as int),
        decreases chars.len() - j,
    {
        j += 1;
    }
    j
}

fn find_field_start(chars: &Vec<char>, start: usize, end: usize) -> (j: usize)
    requires
        start <= end <= chars.len(),
    ensures
        j == skip_spaces(chars@, start as int, end as int),
        start <= j <= end,
{
    let mut j: usize = start;
    while j < end && char_is_space(chars[j])
        invariant
            start <= j <= end <= chars.len(),
            skip_spaces(chars@, start as int, end as int) == skip_spaces(chars@, j as int, end as int),
        decreases end - j,
    {
        j += 1;
    }
    j
}

fn find_field_end(chars: &Vec<char>, start: usize, end: usize) -> (j: usize)
    requires
        start <= end <= chars.len(),
    ensures
        j == skip_word(chars@, start as int, end as int),
        start <= j <= end,
{
    let mut j: usize = start;
    while j < end && !char_is_space(chars[j])
        invariant
            start <= j <= end <= chars.len(),
            skip_word(chars@, start as int, end as int) == skip_word(chars@, j as int, end as int),
        decreases end - j,
    {
        j += 1;
    }
    j
}

/// Splits a dictionary text into its entries: for each line with at least two
/// fields, the first field and the second, in the order of the lines.
pub fn split_entries(text: &str) -> (out: Vec<(String, String)>)
    ensures
        pair_views(out@) == dict_entries(text@),
{
    let chars = chars_of(text);
    let n = chars.len();
    let mut out: Vec<(String, String)> = Vec::new();
    let mut i: usize = 0;
    while i < n
        invariant
            n == chars.len(),
            chars@ == text@,
            0 <= i <= n,
            pair_views(out@) + entries_from(chars@, i as int) == dict_entries(chars@),
        decreases n - i,
    {
        let end = find_line_end(&chars, i);
        let a0 = find_field_start(&chars, i, end);
        let b0 = find_field_end(&chars, a0, end);
        let a1 = find_field_start(&chars, b0, end);
        let b1 = find_field_end(&chars, a1, end);
        let ghost before = pair_views(out@);
        let ghost rest = if end < n {
            entries_from(chars@, end as int + 1)
        } else {
            Seq::empty()
        };
        if a1 < end {
            let word = string_of(&chars, a0, b0);
            let weight = string_of(&chars, a1, b1);
            out.push((word, weight));
            assert(pair_views(out@) =~= before.push((word@, weight@)));
            assert(before.push((word@, weight@)) + rest =~= before + (seq![(word@, weight@)] + rest));
        }
        if end < n {
            i = end + 1;
        } else {
            i = n;
        }
    }
    assert(pair_views(out@) + entries_from(chars@, n as int) =~= pair_views(out@));
    out
}

} // verus!
