//! Turning a line of text into its sequence of lowercased words: the line
//! is split on ASCII whitespace and every word is case-folded to ASCII
//! lowercase.

use vstd::prelude::*;

verus! {

/// The ASCII whitespace characters that lines are split on.
pub open spec fn is_ascii_ws(c: char) -> bool {
    c == ' ' || c == '\t' || c == '\n' || c == '\r' || c == '\x0C'
}

/// ASCII case folding of one character: `'A'..='Z'` move to `'a'..='z'`,
/// everything else stays as it is.
pub open spec fn lower_char(c: char) -> char {
    if 65 <= c as u32 && c as u32 <= 90 {
        ((c as u32 + 32) as u8) as char
    } else {
        c
    }
}

/// ASCII case folding of a whole character sequence.
pub open spec fn lower_seq(s: Seq<char>) -> Seq<char> {
    s.map_values(|c: char| lower_char(c))
}

/// The length of the word standing at the front of `s`: the number of
/// characters before the first ASCII whitespace.
pub open spec fn word_len(s: Seq<char>) -> nat
    decreases s.len(),
{
    if s.len() == 0 || is_ascii_ws(s[0]) {
        0
    } else {
        1 + word_len(s.drop_first())
    }
}

/// The word at the front never reaches past the end of the sequence.
pub proof fn lemma_word_len_le(s: Seq<char>)
    ensures
        word_len(s) <= s.len(),
    decreases s.len(),
{
    if s.len() != 0 && !is_ascii_ws(s[0]) {
        lemma_word_len_le(s.drop_first());
    }
}

/// The words of `s`: the maximal runs of non-whitespace characters, in
/// order; whitespace only separates and never appears in a word.
pub open spec fn split_ws(s: Seq<char>) -> Seq<Seq<char>>
    decreases s.len(),
    when s.len() >= 0
    via split_ws_decreases
{
    if s.len() == 0 {
        Seq::empty()
    } else if is_ascii_ws(s[0]) {
        split_ws(s.drop_first())
    } else {
        seq![s.take(word_len(s) as int)] + split_ws(s.skip(word_len(s) as int))
    }
}

#[via_fn]
proof fn split_ws_decreases(s: Seq<char>) {
    if s.len() != 0 && !is_ascii_ws(s[0]) {
        lemma_word_len_le(s);
        assert(word_len(s) >= 1);
    }
}

/// Splitting never produces an empty word.
pub proof fn lemma_split_ws_words_nonempty(s: Seq<char>)
    ensures
        forall|i: int| 0 <= i < split_ws(s).len() ==> (#[trigger] split_ws(s)[i]).len() >= 1,
    decreases s.len(),
{
    if s.len() == 0 {
        assert(split_ws(s).len() == 0);
    } else if is_ascii_ws(s[0]) {
        lemma_split_ws_words_nonempty(s.drop_first());
        assert(split_ws(s) == split_ws(s.drop_first()));
    } else {
        lemma_word_len_le(s);
        assert(word_len(s) >= 1);
        let k = word_len(s) as int;
        lemma_split_ws_words_nonempty(s.skip(k));
        let head = s.take(k);
        let rest = split_ws(s.skip(k));
        assert(split_ws(s) == seq![head] + rest);
        assert forall|i: int| 0 <= i < split_ws(s).len() implies (#[trigger] split_ws(
            s,
        )[i]).len() >= 1 by {
            if i == 0 {
                assert(split_ws(s)[i] == head);
            } else {
                assert(split_ws(s)[i] == rest[i - 1]);
            }
        }
    }
}

/// The lowercased words a line contributes to the model.
pub open spec fn tokens_of(line: Seq<char>) -> Seq<Seq<char>> {
    split_ws(lower_seq(line))
}

/// Whether `c` is one of the ASCII whitespace characters.
pub fn ws_char(c: char) -> (r: bool)
    ensures
        r == is_ascii_ws(c),
{
    c == ' ' || c == '\t' || c == '\n' || c == '\r' || c == '\x0C'
}

/// Relies on `str::to_ascii_lowercase`: each character in `'A'..='Z'` is
/// mapped to its ASCII lowercase equivalent and every other character is
/// returned unchanged.
#[verifier::external_body]
pub(crate) fn to_ascii_lower(s: &str) -> (r: String)
    ensures
        r@ == lower_seq(s@),
{
    s.to_ascii_lowercase()
}

/// The views of a vector of words.
pub open spec fn word_views(ws: Seq<String>) -> Seq<Seq<char>> {
    ws.map_values(|w: String| w@)
}

/// Split a string on ASCII whitespace into its words, in order.
pub fn split_words(line: &str) -> (words: Vec<String>)
    ensures
        word_views(words@) == split_ws(line@),
{
    let n = line.unicode_len();
    let mut words: Vec<String> = Vec::new();
    let mut i: usize = 0;
    proof {
        assert(line@.skip(0) =~= line@);
        assert(word_views(words@) + split_ws(line@) =~= split_ws(line@));
    }
    while i < n
        invariant
            n == line@.len(),
            0 <= i <= n,
            word_views(words@) + split_ws(line@.skip(i as int)) == split_ws(line@),
        decreases n - i,
    {
        let c = line.get_char(i);
        if ws_char(c) {
            proof {
                assert(line@.skip(i as int).drop_first() =~= line@.skip(i as int + 1));
                assert(split_ws(line@.skip(i as int)) == split_ws(line@.skip(i as int + 1)));
            }
            i += 1;
        } else {
            let start = i;
            let mut j = i + 1;
            proof {
                assert(line@.skip(start as int).drop_first() =~= line@.skip(start as int + 1));
                assert(word_len(line@.skip(start as int)) == 1 + word_len(
                    line@.skip(start as int + 1),
                ));
            }
            while j < n && !ws_char(line.get_char(j))
                invariant
                    n == line@.len(),
                    start < j <= n,
                    word_len(line@.skip(start as int)) == (j - start) + word_len(
                        line@.skip(j as int),
                    ),
                decreases n - j,
            {
                proof {
                    assert(line@.skip(j as int)[0] == line@[j as int]);
                    assert(line@.skip(j as int).drop_first() =~= line@.skip(j as int + 1));
                    assert(word_len(line@.skip(j as int)) == 1 + word_len(
                        line@.skip(j as int + 1),
                    ));
                }
                j += 1;
            }
            proof {
                if j < n {
                    assert(line@.skip(j as int)[0] == line@[j as int]);
                }
                assert(word_len(line@.skip(j as int)) == 0);
                assert(word_len(line@.skip(start as int)) == j - start);
            }
            let word = line.substring_char(start, j).to_owned();
            let ghost before = words@;
            words.push(word);
            proof {
                let rest = line@.skip(start as int);
                assert(split_ws(rest) == seq![rest.take((j - start) as int)] + split_ws(
                    rest.skip((j - start) as int),
                ));
                assert(rest.take((j - start) as int) =~= line@.subrange(start as int, j as int));
                assert(rest.skip((j - start) as int) =~= line@.skip(j as int));
                assert(word_views(words@) =~= word_views(before).push(word@));
                assert(word_views(words@) + split_ws(line@.skip(j as int)) =~= word_views(before)
                    + split_ws(line@.skip(start as int)));
            }
            i = j;
        }
    }
    proof {
        assert(line@.skip(i as int) =~= Seq::<char>::empty());
        assert(split_ws(line@.skip(i as int)) =~= Seq::<Seq<char>>::empty());
        assert(word_views(words@) =~= word_views(words@) + split_ws(line@.skip(i as int)));
    }
    words
}

} // verus!
