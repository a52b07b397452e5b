//! Tier 2 fallback: the deterministic token pruner that drops low-information
//! stop words while keeping indentation and short lines intact.
use vstd::hash_map::StringHashMap;
use vstd::prelude::*;

use crate::text::{
    char_is_ws, chars_of, count_ws_lead, indentation, is_ws, lemma_ws_lead_bound, lines_of,
    push_chars, push_str, slice_chars, split_lines, string_of, trim, trim_chars,
};

verus! {

/// What `str::to_lowercase` returns for `s` (full Unicode lowercase mapping).
pub uninterp spec fn unicode_lowercase(s: Seq<char>) -> Seq<char>;

/// What `char::is_alphanumeric` returns for `c` (Unicode `Alphabetic` or
/// `Numeric`).
pub uninterp spec fn unicode_alphanumeric(c: char) -> bool;

/// Calls `str::to_lowercase`. Trusted: the result is the value named
/// `unicode_lowercase` for the argument.
#[verifier::external_body]
fn to_lowercase(s: &str) -> (r: String)
    ensures
        r@ == unicode_lowercase(s@),
{
    s.to_lowercase()
}

/// Calls `char::is_alphanumeric`. Trusted: the result is the value named
/// `unicode_alphanumeric` for the argument.
#[verifier::external_body]
fn is_alphanumeric(c: char) -> (b: bool)
    ensures
        b == unicode_alphanumeric(c),
{
    c.is_alphanumeric()
}

/// The stop words that the pruner may drop, English and Russian.
pub open spec fn stopwords() -> Seq<Seq<char>> {
    seq![
        "the"@, "a"@, "an"@, "is"@, "are"@, "was"@, "were"@, "to"@, "of"@, "and"@, "in"@,
        "that"@, "it"@, "for"@, "on"@, "with"@, "as"@, "this"@, "by"@, "at"@, "from"@, "be"@,
        "or"@, "which"@, "и"@, "в"@, "на"@, "с"@, "по"@, "для"@, "к"@, "о"@, "из"@, "что"@,
        "это"@, "как"@,
    ]
}

fn stopword(i: usize) -> (w: &'static str)
    requires
        i < 36,
    ensures
        w@ == stopwords()[i as int],
{
    let words: [&'static str; 36] = [
        "the", "a", "an", "is", "are", "was", "were", "to", "of", "and", "in", "that", "it",
        "for", "on", "with", "as", "this", "by", "at", "from", "be", "or", "which", "и", "в",
        "на", "с", "по", "для", "к", "о", "из", "что", "это", "как",
    ];
    words[i]
}

// ---------------------------------------------------------------------------
// Words
// ---------------------------------------------------------------------------

/// The words of `s`: its maximal runs of non-whitespace characters
/// (`str::split_whitespace`).
pub open spec fn split_ws(s: Seq<char>) -> Seq<Seq<char>>
    decreases s.len(),
{
    if s.len() == 0 {
        Seq::empty()
    } else {
        let prev = split_ws(s.drop_last());
        if is_ws(s.last()) {
            prev
        } else if s.len() >= 2 && !is_ws(s[s.len() - 2]) {
            prev.update(prev.len() - 1, prev.last().push(s.last()))
        } else {
            prev.push(seq![s.last()])
        }
    }
}

/// The words joined by single spaces.
pub open spec fn join_words(ws: Seq<Seq<char>>) -> Seq<char>
    decreases ws.len(),
{
    if ws.len() == 0 {
        Seq::empty()
    } else if ws.len() == 1 {
        ws[0]
    } else {
        join_words(ws.drop_last()) + " "@ + ws.last()
    }
}

/// Number of characters at the start of `s` that are not alphanumeric.
pub open spec fn non_alnum_lead(s: Seq<char>) -> nat
    decreases s.len(),
{
    if s.len() > 0 && !unicode_alphanumeric(s[0]) {
        1 + non_alnum_lead(s.drop_first())
    } else {
        0
    }
}

/// Number of characters at the end of `s` that are not alphanumeric.
pub open spec fn non_alnum_trail(s: Seq<char>) -> nat
    decreases s.len(),
{
    if s.len() > 0 && !unicode_alphanumeric(s.last()) {
        1 + non_alnum_trail(s.drop_last())
    } else {
        0
    }
}

/// `s` without the non-alphanumeric characters at either end
/// (`trim_matches(|c| !c.is_alphanumeric())`).
pub open spec fn trim_non_alnum(s: Seq<char>) -> Seq<char> {
    let a = s.skip(non_alnum_lead(s) as int);
    a.take(a.len() - non_alnum_trail(a))
}

/// The form of a word that is looked up among the stop words.
pub open spec fn clean_word(w: Seq<char>) -> Seq<char> {
    trim_non_alnum(unicode_lowercase(w))
}

/// Word `i` of a line is dropped when pruning is on, `i` is even and the
/// word is a stop word.
pub open spec fn drops_word(w: Seq<char>, i: int, prune: bool) -> bool {
    prune && i % 2 == 0 && stopwords().contains(clean_word(w))
}

/// The words that survive pruning, in order.
pub open spec fn kept_words(ws: Seq<Seq<char>>, prune: bool) -> Seq<Seq<char>>
    decreases ws.len(),
{
    if ws.len() == 0 {
        Seq::empty()
    } else if drops_word(ws.last(), ws.len() - 1, prune) {
        kept_words(ws.drop_last(), prune)
    } else {
        kept_words(ws.drop_last(), prune).push(ws.last())
    }
}

/// How one input line is rendered: a blank line as an empty line; a line of
/// at most three words as its indentation and trimmed text; a longer line as
/// its indentation and its surviving words (or its trimmed text when none
/// survives).
pub open spec fn pruned_line(line: Seq<char>, prune: bool) -> Seq<char> {
    let t = trim(line);
    if t.len() == 0 {
        "\n"@
    } else {
        let words = split_ws(t);
        if words.len() <= 3 {
            indentation(line) + t + "\n"@
        } else {
            let kept = kept_words(words, prune);
            indentation(line) + (if kept.len() == 0 {
                t
            } else {
                join_words(kept)
            }) + "\n"@
        }
    }
}

/// The pruned lines one after another.
pub open spec fn pruned_lines(lines: Seq<Seq<char>>, prune: bool) -> Seq<char>
    decreases lines.len(),
{
    if lines.len() == 0 {
        Seq::empty()
    } else {
        pruned_lines(lines.drop_last(), prune) + pruned_line(lines.last(), prune)
    }
}

proof fn lemma_split_ws_nonempty(s: Seq<char>)
    requires
        s.len() > 0,
        !is_ws(s.last()),
    ensures
        split_ws(s).len() > 0,
    decreases s.len(),
{
    if s.len() >= 2 && !is_ws(s[s.len() - 2]) {
        assert(s.drop_last().last() == s[s.len() - 2]);
        lemma_split_ws_nonempty(s.drop_last());
    }
}

/// The words of `s` (see `split_ws`).
fn split_words(s: &[char]) -> (words: Vec<Vec<char>>)
    ensures
        words@.map_values(|w: Vec<char>| w@) == split_ws(s@),
{
    let mut words: Vec<Vec<char>> = Vec::new();
    let mut in_word = false;
    let mut i: usize = 0;
    while i < s.len()
        invariant
            i <= s@.len(),
            words@.map_values(|w: Vec<char>| w@) == split_ws(s@.take(i as int)),
            in_word == (i > 0 && !is_ws(s@[i - 1])),
        decreases s.len() - i,
    {
        let c = s[i];
        let ghost prev = s@.take(i as int);
        let ghost before = words@.map_values(|w: Vec<char>| w@);
        proof {
            assert(s@.take(i + 1).drop_last() =~= prev);
            assert(s@.take(i + 1).last() == c);
            if i >= 1 {
                assert(s@.take(i + 1)[i - 1] == s@[i - 1]);
            }
        }
        if char_is_ws(c) {
            in_word = false;
        } else if in_word {
            proof {
                lemma_split_ws_nonempty(prev);
            }
            let last = words.len() - 1;
            let mut w = words.remove(last);
            w.push(c);
            words.push(w);
            proof {
                assert(words@.map_values(|w: Vec<char>| w@) =~= before.update(
                    before.len() - 1,
                    before.last().push(c),
                ));
            }
        } else {
            let mut w: Vec<char> = Vec::new();
            w.push(c);
            words.push(w);
            in_word = true;
            proof {
                assert(w@ =~= seq![c]);
                assert(words@.map_values(|w: Vec<char>| w@) =~= before.push(seq![c]));
            }
        }
        i = i + 1;
    }
    proof {
        assert(s@.take(s@.len() as int) =~= s@);
    }
    words
}

/// `trim_non_alnum` on characters.
fn trim_non_alnum_chars(s: &[char]) -> (v: Vec<char>)
    ensures
        v@ == trim_non_alnum(s@),
{
    let mut a: usize = 0;
    proof {
        assert(s@.skip(0) =~= s@);
    }
    while a < s.len() && !is_alphanumeric(s[a])
        invariant
            a <= s@.len(),
            non_alnum_lead(s@) == a + non_alnum_lead(s@.skip(a as int)),
        decreases s.len() - a,
    {
        proof {
            assert(s@.skip(a as int).drop_first() =~= s@.skip(a + 1));
        }
        a = a + 1;
    }
    let rest = slice_chars(s, a, s.len());
    proof {
        assert(rest@ =~= s@.skip(a as int));
        assert(non_alnum_lead(rest@) == 0);
    }
    let mut b: usize = 0;
    proof {
        assert(rest@.take(rest@.len() as int) =~= rest@);
    }
    while b < rest.len() && !is_alphanumeric(rest[rest.len() - 1 - b])
        invariant
            b <= rest@.len(),
            non_alnum_trail(rest@) == b + non_alnum_trail(rest@.take(rest@.len() - b)),
        decreases rest.len() - b,
    {
        proof {
            let t = rest@.take(rest@.len() - b);
            assert(t.drop_last() =~= rest@.take(rest@.len() - b - 1));
            assert(t.last() == rest@[rest@.len() - 1 - b]);
        }
        b = b + 1;
    }
    proof {
        let t = rest@.take(rest@.len() - b);
        if t.len() > 0 {
            assert(t.last() == rest@[rest@.len() - 1 - b]);
        }
        assert(non_alnum_trail(t) == 0);
        assert(rest@.take(rest@.len() as int) =~= rest@);
    }
    slice_chars(rest.as_slice(), 0, rest.len() - b)
}

/// The stop words keyed in a map, as the pruner looks them up.
fn stopword_table() -> (t: StringHashMap<()>)
    ensures
        forall|w: Seq<char>| #[trigger] t@.contains_key(w) <==> stopwords().contains(w),
{
    let mut t: StringHashMap<()> = StringHashMap::new();
    let mut i: usize = 0;
    while i < 36
        invariant
            i <= 36,
            stopwords().len() == 36,
            forall|w: Seq<char>| #[trigger] t@.contains_key(w) <==> stopwords().take(i as int).contains(w),
        decreases 36 - i,
    {
        let sw = stopword(i);
        t.insert(String::from_str(sw), ());
        proof {
            let before = stopwords().take(i as int);
            let after = stopwords().take(i + 1);
            assert(after =~= before.push(sw@));
            assert forall|w: Seq<char>| #[trigger] t@.contains_key(w) <==> after.contains(w) by {
                if w == sw@ {
                    assert(after[i as int] == w);
                } else if after.contains(w) {
                    let k = choose|k: int| 0 <= k < after.len() && after[k] == w;
                    assert(before[k] == w);
                } else if before.contains(w) {
                    let k = choose|k: int| 0 <= k < before.len() && before[k] == w;
                    assert(after[k] == w);
                }
            }
        }
        i = i + 1;
    }
    proof {
        assert(stopwords().take(36) =~= stopwords());
    }
    t
}

/// Whether word `i` of a line is dropped (see `drops_word`).
fn word_dropped(table: &StringHashMap<()>, w: &Vec<char>, i: usize, prune: bool) -> (r: bool)
    requires
        forall|s: Seq<char>| #[trigger] table@.contains_key(s) <==> stopwords().contains(s),
    ensures
        r == drops_word(w@, i as int, prune),
{
    if !prune || i % 2 != 0 {
        return false;
    }
    let ws = string_of(w.as_slice());
    let lower = to_lowercase(ws.as_str());
    let lower_chars = chars_of(lower.as_str());
    let clean = trim_non_alnum_chars(lower_chars.as_slice());
    let key = string_of(clean.as_slice());
    table.contains_key(key.as_str())
}

/// Appends the words joined by single spaces.
fn push_joined(out: &mut Vec<char>, ws: &Vec<Vec<char>>)
    ensures
        final(out)@ == old(out)@ + join_words(ws@.map_values(|w: Vec<char>| w@)),
{
    let ghost start = out@;
    let ghost m = ws@.map_values(|w: Vec<char>| w@);
    let mut i: usize = 0;
    proof {
        assert(m.take(0) =~= Seq::<Seq<char>>::empty());
        assert(start + join_words(m.take(0)) =~= start);
    }
    while i < ws.len()
        invariant
            i <= ws@.len(),
            m == ws@.map_values(|w: Vec<char>| w@),
            out@ == start + join_words(m.take(i as int)),
        decreases ws.len() - i,
    {
        if i > 0 {
            push_str(out, " ");
        }
        push_chars(out, ws[i].as_slice());
        proof {
            assert(m.take(i + 1).drop_last() =~= m.take(i as int));
            assert(m.take(i + 1).last() == ws@[i as int]@);
            if i == 0 {
                assert(m.take(1)[0] == ws@[0]@);
            }
            assert(out@ =~= start + join_words(m.take(i + 1)));
        }
        i = i + 1;
    }
    proof {
        assert(m.take(ws@.len() as int) =~= m);
    }
}

/// Appends one pruned line (see `pruned_line`).
fn push_pruned_line(table: &StringHashMap<()>, out: &mut Vec<char>, line: &[char], prune: bool)
    requires
        forall|s: Seq<char>| #[trigger] table@.contains_key(s) <==> stopwords().contains(s),
    ensures
        final(out)@ == old(out)@ + pruned_line(line@, prune),
{
    let ghost start = out@;
    let trimmed = trim_chars(line);
    if trimmed.len() == 0 {
        push_str(out, "\n");
        return;
    }
    let n = count_ws_lead(line);
    proof {
        lemma_ws_lead_bound(line@);
    }
    let indent = slice_chars(line, 0, n);
    push_chars(out, indent.as_slice());
    let words = split_words(trimmed.as_slice());
    let ghost wm = words@.map_values(|w: Vec<char>| w@);
    if words.len() <= 3 {
        push_chars(out, trimmed.as_slice());
        push_str(out, "\n");
        proof {
            assert(out@ =~= start + pruned_line(line@, prune));
        }
        return;
    }
    let mut kept: Vec<Vec<char>> = Vec::new();
    let mut i: usize = 0;
    proof {
        assert(wm.take(0) =~= Seq::<Seq<char>>::empty());
        assert(kept@.map_values(|w: Vec<char>| w@) =~= Seq::<Seq<char>>::empty());
    }
    while i < words.len()
        invariant
            i <= words@.len(),
            wm == words@.map_values(|w: Vec<char>| w@),
            kept@.map_values(|w: Vec<char>| w@) == kept_words(wm.take(i as int), prune),
            forall|s: Seq<char>| #[trigger] table@.contains_key(s) <==> stopwords().contains(s),
        decreases words.len() - i,
    {
        let ghost before = kept@.map_values(|w: Vec<char>| w@);
        proof {
            assert(wm.take(i + 1).drop_last() =~= wm.take(i as int));
            assert(wm.take(i + 1).last() == words@[i as int]@);
        }
        if !word_dropped(table, &words[i], i, prune) {
            let w = slice_chars(words[i].as_slice(), 0, words[i].len());
            proof {
                assert(w@ =~= words@[i as int]@);
            }
            kept.push(w);
            proof {
                assert(kept@.map_values(|w: Vec<char>| w@) =~= before.push(words@[i as int]@));
            }
        }
        i = i + 1;
    }
    proof {
        assert(wm.take(words@.len() as int) =~= wm);
    }
    if kept.len() == 0 {
        push_chars(out, trimmed.as_slice());
    } else {
        push_joined(out, &kept);
    }
    push_str(out, "\n");
    proof {
        assert(out@ =~= start + pruned_line(line@, prune));
    }
}

/// Fallback deterministic token pruner for environments without Python or
/// PyTorch installed. Removes low-information stop words and redundant
/// tokens while preserving indentation and essential syntax characters across
/// English and Russian text. Stop words are only dropped when
/// `prune_stopwords` holds (a target retention rate below 0.8).
pub fn run_builtin_token_pruner(input: &str, prune_stopwords: bool) -> (res: String)
    ensures
        res@ == pruned_lines(split_lines(input@), prune_stopwords),
{
    let chars = chars_of(input);
    let lines = lines_of(chars.as_slice());
    let ghost lm = split_lines(input@);
    let table = stopword_table();
    let mut out: Vec<char> = Vec::new();
    let mut i: usize = 0;
    proof {
        assert(lm.take(0) =~= Seq::<Seq<char>>::empty());
    }
    while i < lines.len()
        invariant
            i <= lines@.len(),
            lines@.len() == lm.len(),
            forall|k: int| 0 <= k < lines@.len() ==> #[trigger] lines@[k]@ == lm[k],
            out@ == pruned_lines(lm.take(i as int), prune_stopwords),
            forall|s: Seq<char>| #[trigger] table@.contains_key(s) <==> stopwords().contains(s),
        decreases lines.len() - i,
    {
        push_pruned_line(&table, &mut out, lines[i].as_slice(), prune_stopwords);
        proof {
            assert(lm.take(i + 1).drop_last() =~= lm.take(i as int));
            assert(lm.take(i + 1).last() == lines@[i as int]@);
        }
        i = i + 1;
    }
    proof {
        assert(lm.take(lm.len() as int) =~= lm);
    }
    string_of(out.as_slice())
}

} // verus!
