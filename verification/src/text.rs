//! Character classes and sequence searching shared by the analyzers.

use vstd::prelude::*;

verus! {

// ---------------------------------------------------------------------------
// Character classes (ASCII, which is all the suppression rules look at)
// ---------------------------------------------------------------------------

pub open spec fn is_ws_char(c: char) -> bool {
    c == ' ' || c == '\t' || c == '\n' || c == '\r'
}

pub open spec fn is_lower_char(c: char) -> bool {
    'a' <= c && c <= 'z'
}

pub open spec fn is_upper_char(c: char) -> bool {
    'A' <= c && c <= 'Z'
}

pub open spec fn is_digit_char(c: char) -> bool {
    '0' <= c && c <= '9'
}

pub open spec fn is_alpha_char(c: char) -> bool {
    is_lower_char(c) || is_upper_char(c)
}

pub open spec fn is_alnum_char(c: char) -> bool {
    is_alpha_char(c) || is_digit_char(c)
}

/// Lowercasing of a single character, restricted to the ASCII letters.
pub open spec fn lower_char(c: char) -> char {
    if is_upper_char(c) {
        (((c as u8) + 32) as char)
    } else {
        c
    }
}

/// Lowercasing of a whole sequence of characters.
pub open spec fn lower_seq(s: Seq<char>) -> Seq<char> {
    s.map_values(|c: char| lower_char(c))
}

pub fn lower_char_exec(c: char) -> (r: char)
    ensures
        r == lower_char(c),
{
    if 'A' <= c && c <= 'Z' {
        ((c as u8) + 32) as char
    } else {
        c
    }
}

// ---------------------------------------------------------------------------
// Conversions between `&str` and `Vec<char>`
// ---------------------------------------------------------------------------

/// The characters of `s`, as an indexable vector.
pub fn chars_of(s: &str) -> (r: Vec<char>)
    ensures
        r@ == s@,
{
    let n = s.unicode_len();
    let mut r: Vec<char> = Vec::new();
    let mut i: usize = 0;
    while i < n
        invariant
            n == s@.len(),
            i <= n,
            r@ == s@.subrange(0, i as int),
        decreases n - i,
    {
        r.push(s.get_char(i));
        assert(r@ =~= s@.subrange(0, i + 1 as int));
        i = i + 1;
    }
    assert(r@ =~= s@);
    r
}

/// Equality of two string slices, by their characters.
pub fn str_eq(a: &str, b: &str) -> (r: bool)
    ensures
        r == (a@ == b@),
{
    let na = a.unicode_len();
    let nb = b.unicode_len();
    if na != nb {
        assert(a@ != b@);
        return false;
    }
    let mut i: usize = 0;
    while i < na
        invariant
            na == a@.len(),
            na == b@.len(),
            i <= na,
            forall|j: int| 0 <= j < i ==> a@[j] == b@[j],
        decreases na - i,
    {
        if a.get_char(i) != b.get_char(i) {
            assert(a@ != b@);
            return false;
        }
        i = i + 1;
    }
    assert(a@ =~= b@);
    true
}

// ---------------------------------------------------------------------------
// Substring search
// ---------------------------------------------------------------------------

/// `t` occurs in `s` starting at offset `i`.
pub open spec fn occurs_at(s: Seq<char>, t: Seq<char>, i: int) -> bool {
    0 <= i && i + t.len() <= s.len() && s.subrange(i, i + t.len()) == t
}

/// `t` occurs somewhere in `s`.
pub open spec fn contains_seq(s: Seq<char>, t: Seq<char>) -> bool {
    exists|i: int| occurs_at(s, t, i)
}

/// `s` begins with `p`.
pub open spec fn starts_with(s: Seq<char>, p: Seq<char>) -> bool {
    p.len() <= s.len() && s.subrange(0, p.len() as int) == p
}

/// `s` ends with `p`.
pub open spec fn ends_with(s: Seq<char>, p: Seq<char>) -> bool {
    p.len() <= s.len() && s.subrange(s.len() - p.len(), s.len() as int) == p
}

/// Whether `needle` occurs at offset `i` of `hay`, by direct comparison.
pub fn occurs_at_exec(hay: &Vec<char>, needle: &Vec<char>, i: usize) -> (r: bool)
    requires
        i + needle@.len() <= hay@.len(),
    ensures
        r == occurs_at(hay@, needle@, i as int),
{
    let n = hay.len();
    let m = needle.len();
    let mut j: usize = 0;
    while j < m
        invariant
            n == hay@.len(),
            m == needle@.len(),
            i + m <= n,
            j <= m,
            forall|k: int| 0 <= k < j ==> hay@[i + k] == needle@[k],
        decreases m - j,
    {
        if hay[i + j] != needle[j] {
            assert(hay@.subrange(i as int, i + m) != needle@) by {
                assert(hay@.subrange(i as int, i + m)[j as int] == hay@[i + j]);
            }
            return false;
        }
        j = j + 1;
    }
    assert(hay@.subrange(i as int, i + m) =~= needle@);
    true
}

/// Whether `needle` occurs anywhere in `hay`.
pub fn contains_chars(hay: &Vec<char>, needle: &Vec<char>) -> (r: bool)
    ensures
        r == contains_seq(hay@, needle@),
{
    let n = hay.len();
    let m = needle.len();
    if m > n {
        assert(!contains_seq(hay@, needle@));
        return false;
    }
    if m == 0 {
        assert(occurs_at(hay@, needle@, 0)) by {
            assert(hay@.subrange(0, 0) =~= needle@);
        }
        return true;
    }
    let mut i: usize = 0;
    while i <= n - m
        invariant
            n == hay@.len(),
            m == needle@.len(),
            1 <= m <= n,
            i <= n - m + 1,
            forall|k: int| 0 <= k < i ==> !occurs_at(hay@, needle@, k),
        decreases n - m + 1 - i,
    {
        if occurs_at_exec(hay, needle, i) {
            return true;
        }
        i = i + 1;
    }
    assert(forall|k: int| occurs_at(hay@, needle@, k) ==> 0 <= k <= n - m);
    false
}

// ---------------------------------------------------------------------------
// Building strings
// ---------------------------------------------------------------------------

/// Relies on `alloc::string::String::push`: it appends the given character
/// to the end of the string.
pub assume_specification[ String::push ](s: &mut String, c: char)
    ensures
        final(s)@ == old(s)@.push(c),
;

/// The string holding exactly the characters of `v`.
pub fn string_of_chars(v: &Vec<char>) -> (r: String)
    ensures
        r@ == v@,
{
    let n = v.len();
    let mut r = String::new();
    let mut i: usize = 0;
    while i < n
        invariant
            n == v@.len(),
            i <= n,
            r@ == v@.subrange(0, i as int),
        decreases n - i,
    {
        r.push(v[i]);
        assert(r@ =~= v@.subrange(0, i + 1 as int));
        i = i + 1;
    }
    assert(r@ =~= v@);
    r
}

/// The views of a sequence of strings.
pub open spec fn views_of(v: Seq<String>) -> Seq<Seq<char>> {
    v.map_values(|s: String| s@)
}

/// Equality of two character vectors.
pub fn vec_chars_eq(a: &Vec<char>, b: &Vec<char>) -> (r: bool)
    ensures
        r == (a@ == b@),
{
    let na = a.len();
    let nb = b.len();
    if na != nb {
        assert(a@ != b@);
        return false;
    }
    let mut i: usize = 0;
    while i < na
        invariant
            na == a@.len(),
            na == b@.len(),
            i <= na,
            forall|j: int| 0 <= j < i ==> a@[j] == b@[j],
        decreases na - i,
    {
        if a[i] != b[i] {
            return false;
        }
        i = i + 1;
    }
    assert(a@ =~= b@);
    true
}

/// Whether `hay` contains `needle`, both given as string slices.
pub fn text_contains(hay: &str, needle: &str) -> (r: bool)
    ensures
        r == contains_seq(hay@, needle@),
{
    let h = chars_of(hay);
    let n = chars_of(needle);
    contains_chars(&h, &n)
}

// ---------------------------------------------------------------------------
// Whitespace trimming
// ---------------------------------------------------------------------------

/// All characters of `s` are whitespace (so `s` trims to the empty string).
pub open spec fn all_ws(s: Seq<char>) -> bool {
    forall|i: int| 0 <= i < s.len() ==> is_ws_char(#[trigger] s[i])
}

/// `s` with its leading whitespace removed.
pub open spec fn trim_start_spec(s: Seq<char>) -> Seq<char>
    decreases s.len(),
{
    if s.len() == 0 {
        s
    } else if is_ws_char(s[0]) {
        trim_start_spec(s.drop_first())
    } else {
        s
    }
}

pub proof fn lemma_trim_start_at(s: Seq<char>, i: int)
    requires
        0 <= i <= s.len(),
        forall|k: int| 0 <= k < i ==> is_ws_char(#[trigger] s[k]),
        i == s.len() || !is_ws_char(s[i]),
    ensures
        trim_start_spec(s) == s.subrange(i, s.len() as int),
    decreases i,
{
    if i == 0 {
        if s.len() == 0 || !is_ws_char(s[0]) {
            assert(trim_start_spec(s) =~= s.subrange(0, s.len() as int));
        }
    } else {
        lemma_trim_start_at(s.drop_first(), i - 1);
        assert(s.drop_first().subrange(i - 1, s.drop_first().len() as int) =~= s.subrange(
            i,
            s.len() as int,
        ));
    }
}

/// The index of the first non-whitespace character of `hay` (its length if none).
pub fn first_non_ws(hay: &Vec<char>) -> (r: usize)
    ensures
        r <= hay@.len(),
        forall|k: int| 0 <= k < r ==> is_ws_char(#[trigger] hay@[k]),
        r == hay@.len() || !is_ws_char(hay@[r as int]),
        trim_start_spec(hay@) == hay@.subrange(r as int, hay@.len() as int),
{
    let n = hay.len();
    let mut i: usize = 0;
    while i < n
        invariant
            n == hay@.len(),
            i <= n,
            forall|k: int| 0 <= k < i ==> is_ws_char(#[trigger] hay@[k]),
        decreases n - i,
    {
        let c = hay[i];
        if !(c == ' ' || c == '\t' || c == '\n' || c == '\r') {
            proof {
                lemma_trim_start_at(hay@, i as int);
            }
            return i;
        }
        i = i + 1;
    }
    proof {
        lemma_trim_start_at(hay@, n as int);
    }
    n
}

// ---------------------------------------------------------------------------
// String-literal state: unescaped quote toggling, as in the classifier
// ---------------------------------------------------------------------------

/// One step of the quote scan: `(in_string, in_char, escaped)` after reading `c`.
pub open spec fn quote_step(st: (bool, bool, bool), c: char) -> (bool, bool, bool) {
    if c == '"' && !st.2 {
        (!st.0, st.1, false)
    } else if c == '\'' && !st.2 {
        (st.0, !st.1, false)
    } else if c == '\\' {
        (st.0, st.1, !st.2)
    } else {
        (st.0, st.1, false)
    }
}

/// The quote state after scanning all of `s`, starting outside any literal.
pub open spec fn quote_state(s: Seq<char>) -> (bool, bool, bool)
    decreases s.len(),
{
    if s.len() == 0 {
        (false, false, false)
    } else {
        quote_step(quote_state(s.drop_last()), s.last())
    }
}

/// A double- or single-quoted literal is open at the end of `s`.
pub open spec fn in_quote(s: Seq<char>) -> bool {
    quote_state(s).0 || quote_state(s).1
}

/// Runs the quote scan over `hay`, returning whether a quote is open at its end.
pub fn in_quote_exec(hay: &Vec<char>) -> (r: bool)
    ensures
        r == in_quote(hay@),
{
    let n = hay.len();
    let mut in_string = false;
    let mut in_char = false;
    let mut escaped = false;
    let mut i: usize = 0;
    while i < n
        invariant
            n == hay@.len(),
            i <= n,
            (in_string, in_char, escaped) == quote_state(hay@.subrange(0, i as int)),
        decreases n - i,
    {
        let c = hay[i];
        proof {
            let pre = hay@.subrange(0, i as int);
            let post = hay@.subrange(0, i + 1 as int);
            assert(post.drop_last() =~= pre);
            assert(post.last() == hay@[i as int]);
        }
        if c == '"' && !escaped {
            in_string = !in_string;
            escaped = false;
        } else if c == '\'' && !escaped {
            in_char = !in_char;
            escaped = false;
        } else if c == '\\' {
            escaped = !escaped;
        } else {
            escaped = false;
        }
        i = i + 1;
    }
    assert(hay@.subrange(0, n as int) =~= hay@);
    in_string || in_char
}

// ---------------------------------------------------------------------------
// Splitting a line into whitespace-delimited words with their offsets
// ---------------------------------------------------------------------------

/// The end of the run of non-whitespace characters beginning at `i`.
pub open spec fn run_end(line: Seq<char>, i: int) -> int
    decreases line.len() - i,
{
    if i < 0 || i >= line.len() || is_ws_char(line[i]) {
        i
    } else {
        run_end(line, i + 1)
    }
}

pub proof fn lemma_run_end(line: Seq<char>, i: int)
    requires
        0 <= i <= line.len(),
    ensures
        i <= run_end(line, i) <= line.len(),
        forall|k: int| i <= k < run_end(line, i) ==> !is_ws_char(#[trigger] line[k]),
        run_end(line, i) == line.len() || is_ws_char(line[run_end(line, i)]),
    decreases line.len() - i,
{
    if i < line.len() && !is_ws_char(line[i]) {
        lemma_run_end(line, i + 1);
    }
}

/// The words of `line` from offset `i` on: maximal non-whitespace runs,
/// each paired with its starting offset.
pub open spec fn tokens_from(line: Seq<char>, i: int) -> Seq<(int, Seq<char>)>
    decreases line.len() - i,
    via tokens_from_decreases
{
    if i < 0 || i >= line.len() {
        Seq::empty()
    } else if is_ws_char(line[i]) {
        tokens_from(line, i + 1)
    } else {
        seq![(i, line.subrange(i, run_end(line, i)))] + tokens_from(line, run_end(line, i))
    }
}

#[via_fn]
proof fn tokens_from_decreases(line: Seq<char>, i: int) {
    if 0 <= i < line.len() && !is_ws_char(line[i]) {
        lemma_run_end(line, i);
        assert(run_end(line, i) > i);
    }
}

/// The words of `line` with their starting offsets.
pub open spec fn line_tokens(line: Seq<char>) -> Seq<(int, Seq<char>)> {
    tokens_from(line, 0)
}

/// Whether the character at offset `j` is whitespace.
fn ws_at(chars: &Vec<char>, j: usize) -> (r: bool)
    requires
        j < chars@.len(),
    ensures
        r == is_ws_char(chars@[j as int]),
{
    let c = chars[j];
    c == ' ' || c == '\t' || c == '\n' || c == '\r'
}

/// Splits `line` into its whitespace-delimited words, returning each word
/// together with its character offset in the line.
pub fn split_words(line: &str) -> (r: Vec<(usize, String)>)
    ensures
        r@.len() == line_tokens(line@).len(),
        forall|k: int|
            0 <= k < r@.len() ==> (r@[k].0 as int, r@[k].1@) == #[trigger] line_tokens(line@)[k],
{
    let n = line.unicode_len();
    let chars = chars_of(line);
    let mut r: Vec<(usize, String)> = Vec::new();
    let mut i: usize = 0;
    while i < n
        invariant
            n == line@.len(),
            chars@ == line@,
            i <= n,
            line_tokens(line@) == r@.map_values(|p: (usize, String)| (p.0 as int, p.1@))
                + tokens_from(line@, i as int),
        decreases n - i,
    {
        let c = chars[i];
        if c == ' ' || c == '\t' || c == '\n' || c == '\r' {
            i = i + 1;
        } else {
            let mut j: usize = i + 1;
            while j < n && !ws_at(&chars, j)
                invariant
                    n == line@.len(),
                    chars@ == line@,
                    i < j <= n,
                    forall|k: int| i <= k < j ==> !is_ws_char(#[trigger] line@[k]),
                decreases n - j,
            {
                j = j + 1;
            }
            assert(j == n || is_ws_char(line@[j as int]));
            proof {
                lemma_run_end_at(line@, i as int, j as int);
            }
            let word = line.substring_char(i, j);
            let ghost old_r = r@;
            r.push((i, String::from_str(word)));
            proof {
                assert(r@.map_values(|p: (usize, String)| (p.0 as int, p.1@)) =~= old_r.map_values(
                    |p: (usize, String)| (p.0 as int, p.1@),
                ).push((i as int, line@.subrange(i as int, j as int))));
            }
            i = j;
        }
    }
    assert(tokens_from(line@, n as int) =~= Seq::<(int, Seq<char>)>::empty());
    assert(line_tokens(line@) =~= r@.map_values(|p: (usize, String)| (p.0 as int, p.1@)));
    proof {
        assert forall|k: int| 0 <= k < r@.len() implies (r@[k].0 as int, r@[k].1@)
            == #[trigger] line_tokens(line@)[k] by {
            assert(line_tokens(line@)[k] == r@.map_values(|p: (usize, String)| (p.0 as int, p.1@))[
                k
            ]);
        }
    }
    r
}

/// Identifies `j` as the run end for a run beginning at `i`.
pub proof fn lemma_run_end_at(line: Seq<char>, i: int, j: int)
    requires
        0 <= i <= j <= line.len(),
        forall|k: int| i <= k < j ==> !is_ws_char(#[trigger] line[k]),
        j == line.len() || is_ws_char(line[j]),
    ensures
        run_end(line, i) == j,
    decreases j - i,
{
    if i < j {
        lemma_run_end_at(line, i + 1, j);
    }
}

/// Whether the suffix of `v` beginning at `t` starts with `needle`.
pub fn suffix_starts_with(v: &Vec<char>, t: usize, needle: &Vec<char>) -> (r: bool)
    requires
        t <= v@.len(),
    ensures
        r == starts_with(v@.subrange(t as int, v@.len() as int), needle@),
{
    let n = v.len();
    let m = needle.len();
    if m > n - t {
        assert(!starts_with(v@.subrange(t as int, n as int), needle@));
        return false;
    }
    let r = occurs_at_exec(v, needle, t);
    proof {
        let suf = v@.subrange(t as int, n as int);
        assert(suf.subrange(0, m as int) =~= v@.subrange(t as int, t + m));
    }
    r
}

/// Whether `v` starts with `needle`.
pub fn starts_with_exec(v: &Vec<char>, needle: &Vec<char>) -> (r: bool)
    ensures
        r == starts_with(v@, needle@),
{
    let r = suffix_starts_with(v, 0, needle);
    proof {
        assert(v@.subrange(0, v@.len() as int) =~= v@);
    }
    r
}

/// Whether `v` ends with `needle`.
pub fn ends_with_exec(v: &Vec<char>, needle: &Vec<char>) -> (r: bool)
    ensures
        r == ends_with(v@, needle@),
{
    let n = v.len();
    let m = needle.len();
    if m > n {
        assert(!ends_with(v@, needle@));
        return false;
    }
    occurs_at_exec(v, needle, n - m)
}

// ---------------------------------------------------------------------------
// Splitting text into lines, as the dictionary loader reads word lists
// ---------------------------------------------------------------------------

/// The offset of the first newline at or after `i` (the length if none).
pub open spec fn nl_end(s: Seq<char>, i: int) -> int
    decreases s.len() - i,
{
    if i < 0 || i >= s.len() || s[i] == '\n' {
        i
    } else {
        nl_end(s, i + 1)
    }
}

pub proof fn lemma_nl_end(s: Seq<char>, i: int)
    requires
        0 <= i <= s.len(),
    ensures
        i <= nl_end(s, i) <= s.len(),
        forall|k: int| i <= k < nl_end(s, i) ==> #[trigger] s[k] != '\n',
        nl_end(s, i) == s.len() || s[nl_end(s, i)] == '\n',
    decreases s.len() - i,
{
    if i < s.len() && s[i] != '\n' {
        lemma_nl_end(s, i + 1);
    }
}

/// Identifies `j` as the next newline position for a segment beginning at `i`.
pub proof fn lemma_nl_end_at(s: Seq<char>, i: int, j: int)
    requires
        0 <= i <= j <= s.len(),
        forall|k: int| i <= k < j ==> #[trigger] s[k] != '\n',
        j == s.len() || s[j] == '\n',
    ensures
        nl_end(s, i) == j,
    decreases j - i,
{
    if i < j {
        lemma_nl_end_at(s, i + 1, j);
    }
}

/// A line segment with one trailing carriage return removed.
pub open spec fn strip_cr(s: Seq<char>) -> Seq<char> {
    if s.len() > 0 && s.last() == '\r' {
        s.drop_last()
    } else {
        s
    }
}

/// The lines of `s` from offset `i` on: segments delimited by newlines,
/// each with a trailing carriage return removed, a trailing final newline
/// producing no extra empty line.
pub open spec fn lines_from(s: Seq<char>, i: int) -> Seq<Seq<char>>
    decreases s.len() - i,
    via lines_from_decreases
{
    if i < 0 || i >= s.len() {
        Seq::empty()
    } else {
        let j = nl_end(s, i);
        if j == s.len() {
            seq![strip_cr(s.subrange(i, j))]
        } else {
            seq![strip_cr(s.subrange(i, j))] + lines_from(s, j + 1)
        }
    }
}

#[via_fn]
proof fn lines_from_decreases(s: Seq<char>, i: int) {
    if 0 <= i < s.len() {
        lemma_nl_end(s, i);
    }
}

/// The lines of `s`, as `str::lines` yields them.
pub open spec fn split_lines_spec(s: Seq<char>) -> Seq<Seq<char>> {
    lines_from(s, 0)
}

/// Splits `text` into its lines: segments delimited by newlines, each with
/// a trailing carriage return removed.
pub fn split_lines(text: &str) -> (r: Vec<String>)
    ensures
        views_of(r@) == split_lines_spec(text@),
{
    let n = text.unicode_len();
    let chars = chars_of(text);
    let mut r: Vec<String> = Vec::new();
    let mut i: usize = 0;
    while i < n
        invariant
            n == text@.len(),
            chars@ == text@,
            i <= n,
            split_lines_spec(text@) == views_of(r@) + lines_from(text@, i as int),
        decreases n - i,
    {
        let mut j: usize = i;
        while j < n && !nl_at(&chars, j)
            invariant
                n == text@.len(),
                chars@ == text@,
                i <= j <= n,
                forall|k: int| i <= k < j ==> #[trigger] text@[k] != '\n',
            decreases n - j,
        {
            j = j + 1;
        }
        proof {
            lemma_nl_end_at(text@, i as int, j as int);
        }
        let jj: usize = if j > i && chars[j - 1] == '\r' {
            j - 1
        } else {
            j
        };
        let seg = text.substring_char(i, jj);
        let ghost old_r = r@;
        r.push(String::from_str(seg));
        proof {
            let raw = text@.subrange(i as int, j as int);
            if j > i && text@[j - 1] == '\r' {
                assert(raw.len() > 0 && raw.last() == '\r');
                assert(strip_cr(raw) =~= text@.subrange(i as int, jj as int));
            } else {
                assert(strip_cr(raw) =~= text@.subrange(i as int, jj as int));
            }
            assert(views_of(r@) =~= views_of(old_r).push(strip_cr(raw)));
            assert(views_of(old_r) + lines_from(text@, i as int) == views_of(r@) + (if j
                == n {
                Seq::<Seq<char>>::empty()
            } else {
                lines_from(text@, j + 1)
            }));
        }
        if j == n {
            i = n;
            assert(lines_from(text@, n as int) =~= Seq::<Seq<char>>::empty());
        } else {
            i = j + 1;
        }
    }
    assert(lines_from(text@, i as int) =~= Seq::<Seq<char>>::empty());
    assert(views_of(r@) =~= split_lines_spec(text@));
    r
}

/// Whether the character at offset `j` is a newline.
fn nl_at(chars: &Vec<char>, j: usize) -> (r: bool)
    requires
        j < chars@.len(),
    ensures
        r == (chars@[j as int] == '\n'),
{
    chars[j] == '\n'
}

/// The offset of the last occurrence of `needle` in `hay`, if any.
pub fn find_last(hay: &Vec<char>, needle: &Vec<char>) -> (r: Option<usize>)
    ensures
        match r {
            Some(i) => occurs_at(hay@, needle@, i as int) && forall|k: int|
                k > i ==> !occurs_at(hay@, needle@, k),
            None => forall|k: int| !occurs_at(hay@, needle@, k),
        },
{
    let n = hay.len();
    let m = needle.len();
    if m > n {
        return None;
    }
    if m == 0 {
        assert(occurs_at(hay@, needle@, n as int)) by {
            assert(hay@.subrange(n as int, n as int) =~= needle@);
        }
        return Some(n);
    }
    let mut best: Option<usize> = None;
    let mut i: usize = 0;
    while i <= n - m
        invariant
            n == hay@.len(),
            m == needle@.len(),
            1 <= m <= n,
            i <= n - m + 1,
            match best {
                Some(b) => occurs_at(hay@, needle@, b as int) && b < i && forall|k: int|
                    b < k < i ==> !occurs_at(hay@, needle@, k),
                None => forall|k: int| k < i ==> !occurs_at(hay@, needle@, k),
            },
        decreases n - m + 1 - i,
    {
        if occurs_at_exec(hay, needle, i) {
            best = Some(i);
        }
        i = i + 1;
    }
    assert(forall|k: int| occurs_at(hay@, needle@, k) ==> 0 <= k <= n - m);
    best
}

/// Whether `needle` occurs in `hay` at or after offset `from`.
pub fn contains_from(hay: &Vec<char>, needle: &Vec<char>, from: usize) -> (r: bool)
    ensures
        r == exists|j: int| j >= from && occurs_at(hay@, needle@, j),
{
    let n = hay.len();
    let m = needle.len();
    if m > n || from > n - m {
        assert(forall|j: int| j >= from ==> !occurs_at(hay@, needle@, j));
        return false;
    }
    if m == 0 {
        assert(occurs_at(hay@, needle@, from as int)) by {
            assert(hay@.subrange(from as int, from as int) =~= needle@);
        }
        return true;
    }
    let mut i: usize = from;
    while i <= n - m
        invariant
            n == hay@.len(),
            m == needle@.len(),
            1 <= m <= n,
            from <= i <= n - m + 1,
            forall|k: int| from <= k < i ==> !occurs_at(hay@, needle@, k),
        decreases n - m + 1 - i,
    {
        if occurs_at_exec(hay, needle, i) {
            return true;
        }
        i = i + 1;
    }
    assert(forall|k: int| occurs_at(hay@, needle@, k) ==> 0 <= k <= n - m);
    false
}

/// Whether the single character `c` occurs in `hay`.
pub fn contains_char(hay: &Vec<char>, c: char) -> (r: bool)
    ensures
        r == hay@.contains(c),
{
    let n = hay.len();
    let mut i: usize = 0;
    while i < n
        invariant
            n == hay@.len(),
            i <= n,
            forall|k: int| 0 <= k < i ==> hay@[k] != c,
        decreases n - i,
    {
        if hay[i] == c {
            return true;
        }
        i = i + 1;
    }
    false
}

} // verus!
