//! Character-level text model shared by the whole library: whitespace,
//! trimming, substring search, line splitting and decimal rendering.
//!
//! Text is modelled as `Seq<char>`, the view of `str` and `String`.
use vstd::prelude::*;

verus! {

// ---------------------------------------------------------------------------
// Whitespace and trimming
// ---------------------------------------------------------------------------

/// The Unicode `White_Space` property, which is what `char::is_whitespace`
/// (and therefore `str::trim`, `str::trim_start` and `str::split_whitespace`)
/// tests for.
pub open spec fn is_ws(c: char) -> bool {
    ||| ('\u{9}' <= c && c <= '\u{d}')
    ||| c == ' '
    ||| c == '\u{85}'
    ||| c == '\u{a0}'
    ||| c == '\u{1680}'
    ||| ('\u{2000}' <= c && c <= '\u{200a}')
    ||| c == '\u{2028}'
    ||| c == '\u{2029}'
    ||| c == '\u{202f}'
    ||| c == '\u{205f}'
    ||| c == '\u{3000}'
}

/// Number of whitespace characters at the start of `s`.
pub open spec fn ws_lead(s: Seq<char>) -> nat
    decreases s.len(),
{
    if s.len() > 0 && is_ws(s[0]) {
        1 + ws_lead(s.drop_first())
    } else {
        0
    }
}

/// Number of whitespace characters at the end of `s`.
pub open spec fn ws_trail(s: Seq<char>) -> nat
    decreases s.len(),
{
    if s.len() > 0 && is_ws(s.last()) {
        1 + ws_trail(s.drop_last())
    } else {
        0
    }
}

/// `s` without its leading whitespace (`str::trim_start`).
pub open spec fn trim_start(s: Seq<char>) -> Seq<char> {
    s.skip(ws_lead(s) as int)
}

/// `s` without its trailing whitespace (`str::trim_end`).
pub open spec fn trim_end(s: Seq<char>) -> Seq<char> {
    s.take(s.len() - ws_trail(s))
}

/// `s` without leading and trailing whitespace (`str::trim`).
pub open spec fn trim(s: Seq<char>) -> Seq<char> {
    trim_end(trim_start(s))
}

/// The leading whitespace of `s` itself (its indentation).
pub open spec fn indentation(s: Seq<char>) -> Seq<char> {
    s.take(ws_lead(s) as int)
}

/// Every character of `s` is whitespace.
pub open spec fn all_ws(s: Seq<char>) -> bool {
    forall|i: int| 0 <= i < s.len() ==> is_ws(#[trigger] s[i])
}

pub proof fn lemma_ws_lead_bound(s: Seq<char>)
    ensures
        ws_lead(s) <= s.len(),
        forall|i: int| 0 <= i < ws_lead(s) ==> is_ws(#[trigger] s[i]),
        ws_lead(s) < s.len() ==> !is_ws(s[ws_lead(s) as int]),
    decreases s.len(),
{
    if s.len() > 0 && is_ws(s[0]) {
        lemma_ws_lead_bound(s.drop_first());
        assert forall|i: int| 0 <= i < ws_lead(s) implies is_ws(#[trigger] s[i]) by {
            if i > 0 {
                assert(s[i] == s.drop_first()[i - 1]);
            }
        }
    }
}

pub proof fn lemma_ws_trail_bound(s: Seq<char>)
    ensures
        ws_trail(s) <= s.len(),
        forall|i: int| s.len() - ws_trail(s) <= i < s.len() ==> is_ws(#[trigger] s[i]),
        ws_trail(s) < s.len() ==> !is_ws(s[s.len() - ws_trail(s) - 1]),
    decreases s.len(),
{
    if s.len() > 0 && is_ws(s.last()) {
        lemma_ws_trail_bound(s.drop_last());
        assert forall|i: int| s.len() - ws_trail(s) <= i < s.len() implies is_ws(
            #[trigger] s[i],
        ) by {
            if i < s.len() - 1 {
                assert(s[i] == s.drop_last()[i]);
            }
        }
    }
}

/// `ws_lead` is determined by where the first non-whitespace character stands.
pub proof fn lemma_ws_lead_is(s: Seq<char>, k: int)
    requires
        0 <= k <= s.len(),
        forall|i: int| 0 <= i < k ==> is_ws(#[trigger] s[i]),
        k < s.len() ==> !is_ws(s[k]),
    ensures
        ws_lead(s) == k,
    decreases s.len(),
{
    if k > 0 {
        assert(is_ws(s[0]));
        let t = s.drop_first();
        assert forall|i: int| 0 <= i < k - 1 implies is_ws(#[trigger] t[i]) by {
            assert(t[i] == s[i + 1]);
        }
        if k - 1 < t.len() {
            assert(t[k - 1] == s[k]);
        }
        lemma_ws_lead_is(t, k - 1);
    }
}

/// `ws_trail` is determined by where the last non-whitespace character stands.
pub proof fn lemma_ws_trail_is(s: Seq<char>, k: int)
    requires
        0 <= k <= s.len(),
        forall|i: int| s.len() - k <= i < s.len() ==> is_ws(#[trigger] s[i]),
        k < s.len() ==> !is_ws(s[s.len() - k - 1]),
    ensures
        ws_trail(s) == k,
    decreases s.len(),
{
    if k > 0 {
        assert(is_ws(s[s.len() - 1]));
        let t = s.drop_last();
        assert forall|i: int| t.len() - (k - 1) <= i < t.len() implies is_ws(#[trigger] t[i]) by {
            assert(t[i] == s[i]);
        }
        if k - 1 < t.len() {
            assert(t[t.len() - (k - 1) - 1] == s[s.len() - k - 1]);
        }
        lemma_ws_trail_is(t, k - 1);
    }
}

/// `trim(s)` is empty exactly when `s` is all whitespace.
pub proof fn lemma_trim_empty(s: Seq<char>)
    ensures
        trim(s).len() == 0 <==> all_ws(s),
{
    lemma_ws_lead_bound(s);
    let t = trim_start(s);
    lemma_ws_trail_bound(t);
    if all_ws(s) {
        lemma_ws_lead_is(s, s.len() as int);
    }
    if trim(s).len() == 0 {
        assert forall|i: int| 0 <= i < s.len() implies is_ws(#[trigger] s[i]) by {
            if i >= ws_lead(s) {
                assert(t[i - ws_lead(s)] == s[i]);
            }
        }
    }
}

/// Whether `c` is whitespace (`char::is_whitespace`).
pub fn char_is_ws(c: char) -> (b: bool)
    ensures
        b == is_ws(c),
{
    ('\u{9}' <= c && c <= '\u{d}') || c == ' ' || c == '\u{85}' || c == '\u{a0}' || c
        == '\u{1680}' || ('\u{2000}' <= c && c <= '\u{200a}') || c == '\u{2028}' || c
        == '\u{2029}' || c == '\u{202f}' || c == '\u{205f}' || c == '\u{3000}'
}

/// The number of leading whitespace characters of `s`.
pub fn count_ws_lead(s: &[char]) -> (n: usize)
    ensures
        n == ws_lead(s@),
{
    let mut i: usize = 0;
    while i < s.len() && char_is_ws(s[i])
        invariant
            i <= s@.len(),
            forall|j: int| 0 <= j < i ==> is_ws(#[trigger] s@[j]),
        decreases s.len() - i,
    {
        i = i + 1;
    }
    proof {
        lemma_ws_lead_is(s@, i as int);
    }
    i
}

/// The number of trailing whitespace characters of `s`.
pub fn count_ws_trail(s: &[char]) -> (n: usize)
    ensures
        n == ws_trail(s@),
{
    let mut k: usize = 0;
    while k < s.len() && char_is_ws(s[s.len() - 1 - k])
        invariant
            k <= s@.len(),
            forall|j: int| s@.len() - k <= j < s@.len() ==> is_ws(#[trigger] s@[j]),
        decreases s.len() - k,
    {
        k = k + 1;
    }
    proof {
        lemma_ws_trail_is(s@, k as int);
    }
    k
}

/// The elements `s[from..to]` as a new vector.
pub fn slice_chars(s: &[char], from: usize, to: usize) -> (v: Vec<char>)
    requires
        from <= to <= s@.len(),
    ensures
        v@ == s@.subrange(from as int, to as int),
{
    let mut v: Vec<char> = Vec::new();
    let mut i = from;
    while i < to
        invariant
            from <= i <= to <= s@.len(),
            v@ == s@.subrange(from as int, i as int),
        decreases to - i,
    {
        v.push(s[i]);
        i = i + 1;
    }
    v
}

/// `str::trim` on a character vector.
pub fn trim_chars(s: &[char]) -> (v: Vec<char>)
    ensures
        v@ == trim(s@),
{
    let a = count_ws_lead(s);
    proof {
        lemma_ws_lead_bound(s@);
    }
    let rest = slice_chars(s, a, s.len());
    assert(rest@ == trim_start(s@));
    let b = count_ws_trail(rest.as_slice());
    proof {
        lemma_ws_trail_bound(rest@);
    }
    slice_chars(rest.as_slice(), 0, rest.len() - b)
}

/// `str::trim_start` on a character vector.
pub fn trim_start_chars(s: &[char]) -> (v: Vec<char>)
    ensures
        v@ == trim_start(s@),
{
    let a = count_ws_lead(s);
    proof {
        lemma_ws_lead_bound(s@);
    }
    slice_chars(s, a, s.len())
}

/// Whether `s` holds nothing but whitespace (`s.trim().is_empty()`).
pub fn is_blank(s: &[char]) -> (b: bool)
    ensures
        b == (trim(s@).len() == 0),
        b == all_ws(s@),
{
    proof {
        lemma_trim_empty(s@);
        lemma_ws_lead_bound(s@);
    }
    let n = count_ws_lead(s);
    if n == s.len() {
        proof {
            assert(trim_start(s@).len() == 0);
            assert(trim(s@).len() == 0);
        }
        true
    } else {
        proof {
            assert(!is_ws(s@[n as int]));
        }
        false
    }
}

// ---------------------------------------------------------------------------
// Case, prefixes and substrings
// ---------------------------------------------------------------------------

/// `char::to_ascii_lowercase`: `A`..`Z` become `a`..`z`, all else stays.
pub open spec fn ascii_lower_char(c: char) -> char {
    if 'A' <= c && c <= 'Z' {
        ((c as u8) + 32) as u8 as char
    } else {
        c
    }
}

/// `str::to_ascii_lowercase`.
pub open spec fn ascii_lower(s: Seq<char>) -> Seq<char> {
    s.map_values(|c: char| ascii_lower_char(c))
}

pub fn lower_ascii_char(c: char) -> (r: char)
    ensures
        r == ascii_lower_char(c),
{
    if 'A' <= c && c <= 'Z' {
        ((c as u8) + 32) as char
    } else {
        c
    }
}

/// `str::to_ascii_lowercase` on a character vector.
pub fn lower_ascii(s: &[char]) -> (v: Vec<char>)
    ensures
        v@ == ascii_lower(s@),
{
    let mut v: Vec<char> = Vec::new();
    let mut i: usize = 0;
    while i < s.len()
        invariant
            i <= s@.len(),
            v@ == ascii_lower(s@.take(i as int)),
        decreases s.len() - i,
    {
        let l = lower_ascii_char(s[i]);
        v.push(l);
        proof {
            assert(ascii_lower(s@.take(i + 1)) =~= ascii_lower(s@.take(i as int)).push(
                ascii_lower_char(s@[i as int]),
            ));
        }
        i = i + 1;
    }
    proof {
        assert(s@.take(s@.len() as int) =~= s@);
    }
    v
}

/// `p` occurs in `s` at position `i`.
pub open spec fn occurs_at(s: Seq<char>, p: Seq<char>, i: int) -> bool {
    0 <= i && i + p.len() <= s.len() && s.subrange(i, i + p.len()) == p
}

/// `str::contains` with a string pattern.
pub open spec fn contains(s: Seq<char>, p: Seq<char>) -> bool {
    exists|i: int| occurs_at(s, p, i)
}

/// `str::starts_with` with a string pattern.
pub open spec fn starts_with(s: Seq<char>, p: Seq<char>) -> bool {
    occurs_at(s, p, 0)
}

/// Whether `p` occurs in `s` at `i`, compared character by character.
pub fn matches_at(s: &[char], p: &[char], i: usize) -> (b: bool)
    ensures
        b == occurs_at(s@, p@, i as int),
{
    if i > s.len() || s.len() - i < p.len() {
        return false;
    }
    let mut j: usize = 0;
    while j < p.len()
        invariant
            i + p@.len() <= s@.len(),
            s@.len() == s.len(),
            j <= p@.len(),
            forall|k: int| 0 <= k < j ==> s@[i + k] == p@[k],
        decreases p.len() - j,
    {
        if s[i + j] != p[j] {
            proof {
                assert(s@.subrange(i as int, i + p@.len())[j as int] != p@[j as int]);
            }
            return false;
        }
        j = j + 1;
    }
    proof {
        assert(s@.subrange(i as int, i + p@.len()) =~= p@);
    }
    true
}

/// `str::contains` on character vectors.
pub fn contains_chars(s: &[char], p: &[char]) -> (b: bool)
    ensures
        b == contains(s@, p@),
{
    if p.len() > s.len() {
        return false;
    }
    let limit = s.len() - p.len();
    let mut i: usize = 0;
    loop
        invariant
            p@.len() <= s@.len(),
            limit == s@.len() - p@.len(),
            i <= limit,
            forall|k: int| 0 <= k < i ==> !occurs_at(s@, p@, k),
        decreases limit - i,
    {
        if matches_at(s, p, i) {
            return true;
        }
        if i == limit {
            proof {
                assert forall|k: int| !occurs_at(s@, p@, k) by {
                    if 0 <= k < i {
                    }
                }
            }
            return false;
        }
        i = i + 1;
    }
}

/// `str::starts_with` on character vectors.
pub fn starts_with_chars(s: &[char], p: &[char]) -> (b: bool)
    ensures
        b == starts_with(s@, p@),
{
    matches_at(s, p, 0)
}

/// Whether two character sequences are equal.
pub fn same_chars(a: &[char], b: &[char]) -> (r: bool)
    ensures
        r == (a@ == b@),
{
    if a.len() != b.len() {
        return false;
    }
    let mut i: usize = 0;
    while i < a.len()
        invariant
            a@.len() == b@.len(),
            i <= a@.len(),
            forall|k: int| 0 <= k < i ==> a@[k] == b@[k],
        decreases a.len() - i,
    {
        if a[i] != b[i] {
            return false;
        }
        i = i + 1;
    }
    proof {
        assert(a@ =~= b@);
    }
    true
}

// ---------------------------------------------------------------------------
// Lines
// ---------------------------------------------------------------------------

/// `s` cut at every `'\n'`; the separators are dropped, so there is one more
/// part than there are newlines.
pub open spec fn split_nl(s: Seq<char>) -> Seq<Seq<char>>
    decreases s.len(),
{
    if s.len() == 0 {
        seq![Seq::<char>::empty()]
    } else {
        let parts = split_nl(s.drop_last());
        if s.last() == '\n' {
            parts.push(Seq::<char>::empty())
        } else {
            parts.update(parts.len() - 1, parts.last().push(s.last()))
        }
    }
}

/// A line that was ended by `"\n"` loses a `'\r'` standing just before it.
pub open spec fn strip_cr(l: Seq<char>) -> Seq<char> {
    if l.len() > 0 && l.last() == '\r' {
        l.drop_last()
    } else {
        l
    }
}

/// The lines of `s` as `str::lines` and `BufRead::lines` yield them: split at
/// `"\n"` or `"\r\n"`, a final line ending is optional, and no empty line is
/// produced after a final line ending.
pub open spec fn split_lines(s: Seq<char>) -> Seq<Seq<char>> {
    let parts = split_nl(s);
    let ended = parts.drop_last().map_values(|l: Seq<char>| strip_cr(l));
    if parts.last().len() == 0 {
        ended
    } else {
        ended.push(parts.last())
    }
}

pub proof fn lemma_split_nl_len(s: Seq<char>)
    ensures
        split_nl(s).len() >= 1,
    decreases s.len(),
{
    if s.len() > 0 {
        lemma_split_nl_len(s.drop_last());
    }
}

/// No line is longer than its input, and there are no more lines than
/// characters.
pub proof fn lemma_split_lines_len(s: Seq<char>)
    ensures
        split_lines(s).len() <= s.len(),
{
    lemma_split_nl_count(s);
}

/// The number of parts is one more than the number of newlines, and the
/// parts and newlines together make up the whole input.
proof fn lemma_split_nl_count(s: Seq<char>)
    ensures
        split_nl(s).len() >= 1,
        split_nl(s).last().len() == 0 ==> split_nl(s).len() - 1 <= s.len(),
        split_nl(s).last().len() > 0 ==> split_nl(s).len() <= s.len(),
    decreases s.len(),
{
    if s.len() > 0 {
        lemma_split_nl_count(s.drop_last());
    }
}

/// Splits `s` into its lines (see `split_lines`).
pub fn lines_of(s: &[char]) -> (lines: Vec<Vec<char>>)
    ensures
        lines@.len() == split_lines(s@).len(),
        forall|i: int| 0 <= i < lines@.len() ==> #[trigger] lines@[i]@ == split_lines(s@)[i],
{
    let mut lines: Vec<Vec<char>> = Vec::new();
    let mut cur: Vec<char> = Vec::new();
    let mut i: usize = 0;
    while i < s.len()
        invariant
            i <= s@.len(),
            split_nl(s@.take(i as int)).len() >= 1,
            cur@ == split_nl(s@.take(i as int)).last(),
            lines@.len() == split_nl(s@.take(i as int)).len() - 1,
            forall|k: int|
                0 <= k < lines@.len() ==> #[trigger] lines@[k]@ == strip_cr(
                    split_nl(s@.take(i as int))[k],
                ),
        decreases s.len() - i,
    {
        let c = s[i];
        let ghost prev = s@.take(i as int);
        proof {
            assert(s@.take(i + 1).drop_last() =~= prev);
            assert(s@.take(i + 1).last() == c);
        }
        if c == '\n' {
            let n = cur.len();
            let line = if n > 0 && cur[n - 1] == '\r' {
                slice_chars(cur.as_slice(), 0, n - 1)
            } else {
                slice_chars(cur.as_slice(), 0, n)
            };
            proof {
                assert(cur@.subrange(0, n as int) =~= cur@);
                assert(n > 0 ==> cur@.subrange(0, n - 1) =~= cur@.drop_last());
            }
            lines.push(line);
            cur = Vec::new();
        } else {
            cur.push(c);
        }
        i = i + 1;
    }
    proof {
        assert(s@.take(s@.len() as int) =~= s@);
        lemma_split_nl_len(s@);
    }
    if cur.len() > 0 {
        lines.push(cur);
    }
    proof {
        let parts = split_nl(s@);
        let ended = parts.drop_last().map_values(|l: Seq<char>| strip_cr(l));
        assert forall|k: int| 0 <= k < lines@.len() implies #[trigger] lines@[k]@ == split_lines(
            s@,
        )[k] by {
            if k < ended.len() {
                assert(ended[k] == strip_cr(parts[k]));
            }
        }
    }
    lines
}

// ---------------------------------------------------------------------------
// Decimal numbers and padding
// ---------------------------------------------------------------------------

/// The ASCII digit for `d < 10`.
pub open spec fn digit(d: nat) -> char {
    if d == 0 { '0' }
    else if d == 1 { '1' }
    else if d == 2 { '2' }
    else if d == 3 { '3' }
    else if d == 4 { '4' }
    else if d == 5 { '5' }
    else if d == 6 { '6' }
    else if d == 7 { '7' }
    else if d == 8 { '8' }
    else { '9' }
}

/// The decimal representation of `n`, as `{}` formats an unsigned integer.
pub open spec fn decimal(n: nat) -> Seq<char>
    decreases n,
{
    if n < 10 {
        seq![digit(n)]
    } else {
        decimal(n / 10).push(digit(n % 10))
    }
}

/// `s` right-aligned in a field of `width` characters, as `{:>width}` does.
pub open spec fn pad_left(s: Seq<char>, width: nat) -> Seq<char> {
    if s.len() >= width {
        s
    } else {
        Seq::new((width - s.len()) as nat, |i: int| ' ') + s
    }
}

fn digit_char(d: usize) -> (c: char)
    requires
        d < 10,
    ensures
        c == digit(d as nat),
{
    if d == 0 { '0' }
    else if d == 1 { '1' }
    else if d == 2 { '2' }
    else if d == 3 { '3' }
    else if d == 4 { '4' }
    else if d == 5 { '5' }
    else if d == 6 { '6' }
    else if d == 7 { '7' }
    else if d == 8 { '8' }
    else { '9' }
}

/// Appends the decimal representation of `n`.
pub fn push_decimal(out: &mut Vec<char>, n: usize)
    ensures
        final(out)@ == old(out)@ + decimal(n as nat),
    decreases n,
{
    if n >= 10 {
        push_decimal(out, n / 10);
    }
    let c = digit_char(n % 10);
    out.push(c);
    proof {
        if n >= 10 {
            assert(decimal(n as nat) == decimal((n / 10) as nat).push(digit((n % 10) as nat)));
        }
    }
}

/// Appends `s`.
pub fn push_chars(out: &mut Vec<char>, s: &[char])
    ensures
        final(out)@ == old(out)@ + s@,
{
    let mut i: usize = 0;
    while i < s.len()
        invariant
            i <= s@.len(),
            out@ == old(out)@ + s@.take(i as int),
        decreases s.len() - i,
    {
        out.push(s[i]);
        proof {
            assert(s@.take(i + 1) =~= s@.take(i as int).push(s@[i as int]));
        }
        i = i + 1;
    }
    proof {
        assert(s@.take(s@.len() as int) =~= s@);
    }
}

/// Appends the characters of `s`.
pub fn push_str(out: &mut Vec<char>, s: &str)
    ensures
        final(out)@ == old(out)@ + s@,
{
    let v = chars_of(s);
    push_chars(out, v.as_slice());
}

/// Appends `s` right-aligned in a field of `width` characters.
pub fn push_padded(out: &mut Vec<char>, s: &[char], width: usize)
    ensures
        final(out)@ == old(out)@ + pad_left(s@, width as nat),
{
    let ghost start = out@;
    if s.len() < width {
        let pad = width - s.len();
        let mut k: usize = 0;
        while k < pad
            invariant
                k <= pad,
                pad == width - s@.len(),
                out@ == start + Seq::new(k as nat, |i: int| ' '),
            decreases pad - k,
        {
            out.push(' ');
            proof {
                assert(Seq::new((k + 1) as nat, |i: int| ' ') =~= Seq::new(
                    k as nat,
                    |i: int| ' ',
                ).push(' '));
            }
            k = k + 1;
        }
    }
    push_chars(out, s);
    proof {
        if s@.len() < width {
            assert(start + Seq::new((width - s@.len()) as nat, |i: int| ' ') + s@ =~= start
                + pad_left(s@, width as nat));
        } else {
            assert(pad_left(s@, width as nat) == s@);
        }
    }
}

// ---------------------------------------------------------------------------
// Conversions between `str` and characters
// ---------------------------------------------------------------------------

/// The characters of `s`, one by one.
pub fn chars_of(s: &str) -> (v: Vec<char>)
    ensures
        v@ == s@,
{
    let mut v: Vec<char> = Vec::new();
    for c in it: s.chars()
        invariant
            v@ == it.seq().take(it.index() as int),
            it.seq() == s@,
    {
        v.push(c);
    }
    v
}

/// Collects characters into a `String` (`FromIterator<&char> for String`).
#[verifier::external_body]
pub(crate) fn string_of(v: &[char]) -> (s: String)
    ensures
        s@ == v@,
{
    v.iter().collect()
}

} // verus!
