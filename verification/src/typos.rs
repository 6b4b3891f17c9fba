//! The context-aware typo engine: lexical-context classification,
//! structural suppression, normalization, dictionary lookup, and the
//! per-line scan with comment carry and deduplication.

use vstd::prelude::*;

use crate::text::chars_of;
use crate::text::contains_char;
use crate::text::contains_chars;
use crate::text::contains_seq;
use crate::text::ends_with;
use crate::text::ends_with_exec;
use crate::text::first_non_ws;
use crate::text::in_quote;
use crate::text::in_quote_exec;
use crate::text::is_alnum_char;
use crate::text::is_alpha_char;
use crate::text::is_digit_char;
use crate::text::is_lower_char;
use crate::text::is_upper_char;
use crate::text::is_ws_char;
use crate::text::contains_from;
use crate::text::find_last;
use crate::text::lemma_run_end;
use crate::text::line_tokens;
use crate::text::run_end;
use crate::text::lower_char_exec;
use crate::text::lower_seq;
use crate::text::occurs_at;
use crate::text::split_lines;
use crate::text::split_lines_spec;
use crate::text::split_words;
use crate::text::starts_with;
use crate::text::starts_with_exec;
use crate::text::str_eq;
use crate::text::string_of_chars;
use crate::text::suffix_starts_with;
use crate::text::tokens_from;
use crate::text::trim_start_spec;
use crate::text::views_of;
use crate::text::all_ws;

verus! {

/// The lexical role a token plays at the place it occurs.
#[derive(Clone, Copy, Debug, PartialEq, Eq, Hash, Structural)]
pub enum WordContext {
    Code,
    Comment,
    Attribute,
    Path,
    Literal,
}

// ---------------------------------------------------------------------------
// Stage A: structural suppression
// ---------------------------------------------------------------------------

/// A token of snake_case shape: every character lowercase or an underscore.
pub open spec fn all_lower_us(w: Seq<char>) -> bool {
    forall|i: int| 0 <= i < w.len() ==> is_lower_char(#[trigger] w[i]) || w[i] == '_'
}

/// A token of SCREAMING_SNAKE_CASE shape.
pub open spec fn all_upper_us(w: Seq<char>) -> bool {
    forall|i: int| 0 <= i < w.len() ==> is_upper_char(#[trigger] w[i]) || w[i] == '_'
}

/// Every character is alphanumeric.
pub open spec fn all_alnum(w: Seq<char>) -> bool {
    forall|i: int| 0 <= i < w.len() ==> is_alnum_char(#[trigger] w[i])
}

/// Every character is alphabetic.
pub open spec fn all_alpha(w: Seq<char>) -> bool {
    forall|i: int| 0 <= i < w.len() ==> is_alpha_char(#[trigger] w[i])
}

/// Every character is alphabetic or whitespace.
pub open spec fn all_alpha_ws(w: Seq<char>) -> bool {
    forall|i: int| 0 <= i < w.len() ==> is_alpha_char(#[trigger] w[i]) || is_ws_char(w[i])
}

/// Some character is a digit.
pub open spec fn has_digit(w: Seq<char>) -> bool {
    exists|i: int| 0 <= i < w.len() && is_digit_char(#[trigger] w[i])
}

/// Stage A of normalization: the token carries no spelling signal and is
/// never looked up or reported.  The tests are applied in a fixed order;
/// the PascalCase exception (an uppercase-initial, fully alphanumeric
/// token is a candidate identifier) cuts off every later rule.
pub open spec fn should_ignore_spec(w: Seq<char>) -> bool {
    if w.len() <= 2 {
        true
    } else if w[0] == '\'' && w[w.len() - 1] == '\'' && w.len() == 3 {
        true
    } else if has_digit(w) {
        true
    } else if w.contains('/') || w.contains('\\') || contains_seq(w, "::"@) {
        true
    } else if contains_seq(w, "->"@) || contains_seq(w, "=>"@) || w[0] == '<' || w[w.len() - 1]
        == '>' || w[0] == '(' || w[w.len() - 1] == ')' || w[0] == '[' || w[w.len() - 1] == ']'
        || w[0] == '{' || w[w.len() - 1] == '}' {
        true
    } else if w.contains('_') && (all_lower_us(w) || all_upper_us(w)) {
        true
    } else if is_upper_char(w[0]) && !w.contains(' ') && all_alnum(w) {
        false
    } else if w[0] == '_' || starts_with(w, "r#"@) {
        true
    } else if starts_with(w, "0x"@) || starts_with(w, "0b"@) || starts_with(w, "0o"@)
        || ends_with(w, "px"@) || ends_with(w, "em"@) || ends_with(w, "rem"@) {
        true
    } else if w.contains('@') || w.contains('.') {
        true
    } else if w[0] == '#' || w[0] == '<' || w[0] == '`' || w[0] == '*' {
        true
    } else {
        false
    }
}

fn any_digit(v: &Vec<char>) -> (r: bool)
    ensures
        r == has_digit(v@),
{
    let n = v.len();
    let mut i: usize = 0;
    while i < n
        invariant
            n == v@.len(),
            i <= n,
            forall|k: int| 0 <= k < i ==> !is_digit_char(#[trigger] v@[k]),
        decreases n - i,
    {
        let c = v[i];
        if '0' <= c && c <= '9' {
            return true;
        }
        i = i + 1;
    }
    false
}

fn all_lower_us_exec(v: &Vec<char>) -> (r: bool)
    ensures
        r == all_lower_us(v@),
{
    let n = v.len();
    let mut i: usize = 0;
    while i < n
        invariant
            n == v@.len(),
            i <= n,
            forall|k: int| 0 <= k < i ==> is_lower_char(#[trigger] v@[k]) || v@[k] == '_',
        decreases n - i,
    {
        let c = v[i];
        if !(('a' <= c && c <= 'z') || c == '_') {
            return false;
        }
        i = i + 1;
    }
    true
}

fn all_upper_us_exec(v: &Vec<char>) -> (r: bool)
    ensures
        r == all_upper_us(v@),
{
    let n = v.len();
    let mut i: usize = 0;
    while i < n
        invariant
            n == v@.len(),
            i <= n,
            forall|k: int| 0 <= k < i ==> is_upper_char(#[trigger] v@[k]) || v@[k] == '_',
        decreases n - i,
    {
        let c = v[i];
        if !(('A' <= c && c <= 'Z') || c == '_') {
            return false;
        }
        i = i + 1;
    }
    true
}

fn all_alnum_exec(v: &Vec<char>) -> (r: bool)
    ensures
        r == all_alnum(v@),
{
    let n = v.len();
    let mut i: usize = 0;
    while i < n
        invariant
            n == v@.len(),
            i <= n,
            forall|k: int| 0 <= k < i ==> is_alnum_char(#[trigger] v@[k]),
        decreases n - i,
    {
        let c = v[i];
        if !(('a' <= c && c <= 'z') || ('A' <= c && c <= 'Z') || ('0' <= c && c <= '9')) {
            return false;
        }
        i = i + 1;
    }
    true
}

fn all_alpha_exec(v: &Vec<char>) -> (r: bool)
    ensures
        r == all_alpha(v@),
{
    let n = v.len();
    let mut i: usize = 0;
    while i < n
        invariant
            n == v@.len(),
            i <= n,
            forall|k: int| 0 <= k < i ==> is_alpha_char(#[trigger] v@[k]),
        decreases n - i,
    {
        let c = v[i];
        if !(('a' <= c && c <= 'z') || ('A' <= c && c <= 'Z')) {
            return false;
        }
        i = i + 1;
    }
    true
}

fn all_alpha_ws_exec(v: &Vec<char>) -> (r: bool)
    ensures
        r == all_alpha_ws(v@),
{
    let n = v.len();
    let mut i: usize = 0;
    while i < n
        invariant
            n == v@.len(),
            i <= n,
            forall|k: int| 0 <= k < i ==> is_alpha_char(#[trigger] v@[k]) || is_ws_char(v@[k]),
        decreases n - i,
    {
        let c = v[i];
        if !(('a' <= c && c <= 'z') || ('A' <= c && c <= 'Z') || c == ' ' || c == '\t' || c == '\n'
            || c == '\r') {
            return false;
        }
        i = i + 1;
    }
    true
}

// ---------------------------------------------------------------------------
// Stage B: normalization
// ---------------------------------------------------------------------------

/// `s` with leading quote characters removed.
pub open spec fn trim_quote_start(s: Seq<char>) -> Seq<char>
    decreases s.len(),
{
    if s.len() > 0 && (s[0] == '"' || s[0] == '\'') {
        trim_quote_start(s.drop_first())
    } else {
        s
    }
}

/// `s` with trailing quote characters removed.
pub open spec fn trim_quote_end(s: Seq<char>) -> Seq<char>
    decreases s.len(),
{
    if s.len() > 0 && (s.last() == '"' || s.last() == '\'') {
        trim_quote_end(s.drop_last())
    } else {
        s
    }
}

/// `s` with quote characters removed from both ends.
pub open spec fn trim_quotes(s: Seq<char>) -> Seq<char> {
    trim_quote_end(trim_quote_start(s))
}

/// Stage B of normalization: the comparable lowercase form of a token in a
/// given context, or the empty sequence if the token is to be ignored.
/// Path and attribute content is not natural language and is discarded;
/// literal content loses its surrounding quotes and may keep embedded
/// whitespace; everything else must be purely alphabetic.
pub open spec fn clean_word_spec(w: Seq<char>, ctx: WordContext) -> Seq<char> {
    match ctx {
        WordContext::Path => Seq::empty(),
        WordContext::Attribute => Seq::empty(),
        WordContext::Literal => {
            let t = trim_quotes(w);
            if all_alpha_ws(t) {
                lower_seq(t)
            } else {
                Seq::empty()
            }
        },
        WordContext::Comment => if all_alpha(w) {
            lower_seq(w)
        } else {
            Seq::empty()
        },
        WordContext::Code => if all_alpha(w) {
            lower_seq(w)
        } else {
            Seq::empty()
        },
    }
}

proof fn lemma_trim_quote_start_at(s: Seq<char>, i: int)
    requires
        0 <= i <= s.len(),
        forall|k: int| 0 <= k < i ==> #[trigger] s[k] == '"' || s[k] == '\'',
        i == s.len() || !(s[i] == '"' || s[i] == '\''),
    ensures
        trim_quote_start(s) == s.subrange(i, s.len() as int),
    decreases i,
{
    if i == 0 {
        if s.len() == 0 || !(s[0] == '"' || s[0] == '\'') {
            assert(trim_quote_start(s) =~= s.subrange(0, s.len() as int));
        }
    } else {
        lemma_trim_quote_start_at(s.drop_first(), i - 1);
        assert(s.drop_first().subrange(i - 1, s.drop_first().len() as int) =~= s.subrange(
            i,
            s.len() as int,
        ));
    }
}

proof fn lemma_trim_quote_end_at(s: Seq<char>, j: int)
    requires
        0 <= j <= s.len(),
        forall|k: int| j <= k < s.len() ==> #[trigger] s[k] == '"' || s[k] == '\'',
        j == 0 || !(s[j - 1] == '"' || s[j - 1] == '\''),
    ensures
        trim_quote_end(s) == s.subrange(0, j),
    decreases s.len() - j,
{
    if j == s.len() {
        if s.len() == 0 || !(s.last() == '"' || s.last() == '\'') {
            assert(trim_quote_end(s) =~= s.subrange(0, j));
        }
    } else {
        assert(s.last() == '"' || s.last() == '\'');
        lemma_trim_quote_end_at(s.drop_last(), j);
        assert(s.drop_last().subrange(0, j) =~= s.subrange(0, j));
    }
}

/// The bounds of `w@` once quote characters are trimmed from both ends.
fn trim_quote_bounds(v: &Vec<char>) -> (r: (usize, usize))
    ensures
        r.0 <= r.1 <= v@.len(),
        trim_quotes(v@) == v@.subrange(r.0 as int, r.1 as int),
{
    let n = v.len();
    let mut a: usize = 0;
    while a < n && quote_at(v, a)
        invariant
            n == v@.len(),
            a <= n,
            forall|k: int| 0 <= k < a ==> #[trigger] v@[k] == '"' || v@[k] == '\'',
        decreases n - a,
    {
        a = a + 1;
    }
    proof {
        lemma_trim_quote_start_at(v@, a as int);
    }
    let ghost t = trim_quote_start(v@);
    let mut b: usize = n;
    while b > a && quote_at(v, b - 1)
        invariant
            n == v@.len(),
            a <= b <= n,
            forall|k: int| b <= k < n ==> #[trigger] v@[k] == '"' || v@[k] == '\'',
        decreases b,
    {
        b = b - 1;
    }
    proof {
        assert(t == v@.subrange(a as int, n as int));
        assert forall|k: int| b - a <= k < t.len() implies #[trigger] t[k] == '"' || t[k]
            == '\'' by {
            assert(t[k] == v@[k + a]);
        }
        if b > a {
            assert(t[b - a - 1] == v@[b - 1 as int]);
        }
        lemma_trim_quote_end_at(t, b - a as int);
        assert(t.subrange(0, b - a as int) =~= v@.subrange(a as int, b as int));
    }
    (a, b)
}

/// Whether the character at offset `j` is a quote.
fn quote_at(v: &Vec<char>, j: usize) -> (r: bool)
    requires
        j < v@.len(),
    ensures
        r == (v@[j as int] == '"' || v@[j as int] == '\''),
{
    let c = v[j];
    c == '"' || c == '\''
}

/// Lowercases every character of `v`.
fn lower_chars(v: &Vec<char>) -> (r: Vec<char>)
    ensures
        r@ == lower_seq(v@),
{
    let n = v.len();
    let mut r: Vec<char> = Vec::new();
    let mut i: usize = 0;
    while i < n
        invariant
            n == v@.len(),
            i <= n,
            r@ =~= lower_seq(v@.subrange(0, i as int)),
        decreases n - i,
    {
        r.push(lower_char_exec(v[i]));
        assert(r@ =~= lower_seq(v@.subrange(0, i + 1 as int))) by {
            assert(v@.subrange(0, i + 1 as int).drop_last() =~= v@.subrange(0, i as int));
            assert(lower_seq(v@.subrange(0, i + 1 as int)).drop_last() =~= lower_seq(
                v@.subrange(0, i as int),
            ));
        }
        i = i + 1;
    }
    assert(v@.subrange(0, n as int) =~= v@);
    r
}

// ---------------------------------------------------------------------------
// The classifier
// ---------------------------------------------------------------------------

/// The context of a word beginning at offset `start` of `line`, following
/// the ordered decision chain: a carried-over block comment wins over
/// everything; then attribute markers, then comment markers, then path
/// markers, then an open string or character literal; otherwise plain code.
/// The order is part of the contract: reordering changes behavior.
pub open spec fn classify_spec(line: Seq<char>, start: int, carry_in_comment: bool) -> WordContext {
    if carry_in_comment {
        WordContext::Comment
    } else {
        let before = line.subrange(0, start);
        let trimmed = trim_start_spec(before);
        if starts_with(trimmed, "#"@) || contains_seq(line, "derive"@) || contains_seq(
            line,
            "cfg"@,
        ) {
            WordContext::Attribute
        } else if starts_with(trimmed, "//"@) || starts_with(trimmed, "/*"@) || (contains_seq(
            before,
            "/*"@,
        ) && !contains_seq(before, "*/"@)) {
            WordContext::Comment
        } else if contains_seq(before, "use "@) || contains_seq(before, "mod "@) || contains_seq(
            before,
            "crate::"@,
        ) || contains_seq(before, "super::"@) || contains_seq(before, "self::"@) || contains_seq(
            line,
            "::"@,
        ) {
            WordContext::Path
        } else if in_quote(before) {
            WordContext::Literal
        } else {
            WordContext::Code
        }
    }
}

// ---------------------------------------------------------------------------
// The analyzer: dictionary sets plus the per-token checks
// ---------------------------------------------------------------------------

/// Which technical-terms lines the dictionary loader keeps: lines that are
/// neither comments nor blank after trimming.
pub open spec fn code_line_kept(l: Seq<char>) -> bool {
    !starts_with(l, "//"@) && !all_ws(l)
}

/// The kept technical-terms lines, in order.
pub open spec fn kept_code_lines(ls: Seq<Seq<char>>) -> Seq<Seq<char>>
    decreases ls.len(),
{
    if ls.len() == 0 {
        Seq::empty()
    } else {
        let pre = kept_code_lines(ls.drop_last());
        if code_line_kept(ls.last()) {
            pre.push(ls.last())
        } else {
            pre
        }
    }
}

/// The typo analyzer: a set of natural-language words and a set of
/// code/technical terms, immutable once constructed.
pub struct TypoAnalyzer {
    dictionary: Vec<String>,
    code_words: Vec<String>,
}

impl TypoAnalyzer {
    /// The natural-language word set.
    pub closed spec fn dict_words(self) -> Seq<Seq<char>> {
        views_of(self.dictionary@)
    }

    /// The code/technical-terms set.
    pub closed spec fn code_terms(self) -> Seq<Seq<char>> {
        views_of(self.code_words@)
    }

    /// A word is accepted when either set holds it; the two sets have no
    /// precedence between them.
    pub open spec fn spec_in_dict(self, w: Seq<char>) -> bool {
        self.dict_words().contains(w) || self.code_terms().contains(w)
    }

    /// Builds the analyzer from two newline-delimited word lists: every
    /// line of `words_text` enters the natural-language set; lines of
    /// `code_words_text` that are comments or blank after trimming are
    /// skipped, the rest enter the technical-terms set.
    pub fn new(words_text: &str, code_words_text: &str) -> (r: TypoAnalyzer)
        ensures
            r.dict_words() == split_lines_spec(words_text@),
            r.code_terms() == kept_code_lines(split_lines_spec(code_words_text@)),
    {
        let dictionary = split_lines(words_text);
        let raw = split_lines(code_words_text);
        let n = raw.len();
        let mut code_words: Vec<String> = Vec::new();
        let mut i: usize = 0;
        while i < n
            invariant
                n == raw@.len(),
                i <= n,
                views_of(code_words@) == kept_code_lines(views_of(raw@).subrange(0, i as int)),
            decreases n - i,
        {
            let lv = chars_of(raw[i].as_str());
            let slashes = chars_of("//");
            let is_comment = starts_with_exec(&lv, &slashes);
            let t = first_non_ws(&lv);
            let blank = t == lv.len();
            proof {
                if blank {
                    assert(all_ws(lv@));
                } else {
                    assert(!is_ws_char(lv@[t as int]));
                    assert(!all_ws(lv@));
                }
            }
            let ghost old_cw = code_words@;
            if !is_comment && !blank {
                code_words.push(raw[i].clone());
                assert(views_of(code_words@) =~= views_of(old_cw).push(raw@[i as int]@));
            }
            proof {
                let pre = views_of(raw@).subrange(0, i as int);
                let cur = views_of(raw@).subrange(0, i + 1 as int);
                assert(cur.drop_last() =~= pre);
                assert(cur.last() == raw@[i as int]@);
            }
            i = i + 1;
        }
        assert(views_of(raw@).subrange(0, n as int) =~= views_of(raw@));
        TypoAnalyzer { dictionary, code_words }
    }

    /// Stage A suppression on a raw token.
    pub fn should_ignore_word(word: &str) -> (r: bool)
        ensures
            r == should_ignore_spec(word@),
    {
        let v = chars_of(word);
        let n = v.len();
        if n <= 2 {
            return true;
        }
        let first = v[0];
        let last = v[n - 1];
        if first == '\'' && last == '\'' && n == 3 {
            return true;
        }
        if any_digit(&v) {
            return true;
        }
        if contains_char(&v, '/') || contains_char(&v, '\\') || contains_chars(&v, &chars_of("::"))
        {
            return true;
        }
        if contains_chars(&v, &chars_of("->")) || contains_chars(&v, &chars_of("=>")) || first
            == '<' || last == '>' || first == '(' || last == ')' || first == '[' || last == ']'
            || first == '{' || last == '}' {
            return true;
        }
        if contains_char(&v, '_') && (all_lower_us_exec(&v) || all_upper_us_exec(&v)) {
            return true;
        }
        if ('A' <= first && first <= 'Z') && !contains_char(&v, ' ') && all_alnum_exec(&v) {
            return false;
        }
        if first == '_' || starts_with_exec(&v, &chars_of("r#")) {
            return true;
        }
        if starts_with_exec(&v, &chars_of("0x")) || starts_with_exec(
            &v,
            &chars_of("0b"),
        ) || starts_with_exec(&v, &chars_of("0o")) || ends_with_exec(&v, &chars_of("px"))
            || ends_with_exec(&v, &chars_of("em")) || ends_with_exec(&v, &chars_of("rem")) {
            return true;
        }
        if contains_char(&v, '@') || contains_char(&v, '.') {
            return true;
        }
        if first == '#' || first == '<' || first == '`' || first == '*' {
            return true;
        }
        false
    }

    /// Stage B normalization of a raw token in its context.
    pub fn clean_word(word: &str, context: &WordContext) -> (r: String)
        ensures
            r@ == clean_word_spec(word@, *context),
    {
        match context {
            WordContext::Path => String::new(),
            WordContext::Attribute => String::new(),
            WordContext::Literal => {
                let v = chars_of(word);
                let (a, b) = trim_quote_bounds(&v);
                let t = word.substring_char(a, b);
                let tv = chars_of(t);
                if all_alpha_ws_exec(&tv) {
                    let low = lower_chars(&tv);
                    string_of_chars(&low)
                } else {
                    String::new()
                }
            },
            WordContext::Comment => {
                let v = chars_of(word);
                if all_alpha_exec(&v) {
                    let low = lower_chars(&v);
                    string_of_chars(&low)
                } else {
                    String::new()
                }
            },
            WordContext::Code => {
                let v = chars_of(word);
                if all_alpha_exec(&v) {
                    let low = lower_chars(&v);
                    string_of_chars(&low)
                } else {
                    String::new()
                }
            },
        }
    }

    /// Classifies the word beginning at `word_start` of `line`.
    pub fn get_word_context(line: &str, word_start: usize, carry_in_comment: bool) -> (r:
        WordContext)
        requires
            word_start <= line@.len(),
        ensures
            r == classify_spec(line@, word_start as int, carry_in_comment),
    {
        if carry_in_comment {
            return WordContext::Comment;
        }
        let chars = chars_of(line);
        let before_str = line.substring_char(0, word_start);
        let before = chars_of(before_str);
        let t = first_non_ws(&before);
        if suffix_starts_with(&before, t, &chars_of("#")) || contains_chars(
            &chars,
            &chars_of("derive"),
        ) || contains_chars(&chars, &chars_of("cfg")) {
            return WordContext::Attribute;
        }
        if suffix_starts_with(&before, t, &chars_of("//")) || suffix_starts_with(
            &before,
            t,
            &chars_of("/*"),
        ) || (contains_chars(&before, &chars_of("/*")) && !contains_chars(
            &before,
            &chars_of("*/"),
        )) {
            return WordContext::Comment;
        }
        if contains_chars(&before, &chars_of("use ")) || contains_chars(&before, &chars_of("mod "))
            || contains_chars(&before, &chars_of("crate::")) || contains_chars(
            &before,
            &chars_of("super::"),
        ) || contains_chars(&before, &chars_of("self::")) || contains_chars(
            &chars,
            &chars_of("::"),
        ) {
            return WordContext::Path;
        }
        if in_quote_exec(&before) {
            WordContext::Literal
        } else {
            WordContext::Code
        }
    }

    /// Whether `w` is in either dictionary set.
    fn in_dict(&self, w: &str) -> (r: bool)
        ensures
            r == self.spec_in_dict(w@),
    {
        let n = self.dictionary.len();
        let mut i: usize = 0;
        while i < n
            invariant
                n == self.dictionary@.len(),
                i <= n,
                forall|k: int| 0 <= k < i ==> #[trigger] self.dict_words()[k] != w@,
            decreases n - i,
        {
            if str_eq(self.dictionary[i].as_str(), w) {
                assert(self.dict_words()[i as int] == w@);
                return true;
            }
            i = i + 1;
        }
        let m = self.code_words.len();
        let mut j: usize = 0;
        while j < m
            invariant
                m == self.code_words@.len(),
                j <= m,
                forall|k: int| 0 <= k < j ==> #[trigger] self.code_terms()[k] != w@,
            decreases m - j,
        {
            if str_eq(self.code_words[j].as_str(), w) {
                assert(self.code_terms()[j as int] == w@);
                return true;
            }
            j = j + 1;
        }
        assert(!self.dict_words().contains(w@));
        assert(!self.code_terms().contains(w@));
        false
    }

    /// Whether a raw token passes in its context: suppressed tokens and
    /// tokens that normalize to nothing pass; comment and literal forms
    /// may hold several words, and every one must be in a dictionary set;
    /// other forms are looked up whole.
    pub open spec fn check_word_spec(self, w: Seq<char>, ctx: WordContext) -> bool {
        if should_ignore_spec(w) {
            true
        } else {
            let c = clean_word_spec(w, ctx);
            if c.len() == 0 {
                true
            } else {
                match ctx {
                    WordContext::Comment => all_words_in_dict(self, c),
                    WordContext::Literal => all_words_in_dict(self, c),
                    _ => self.spec_in_dict(c),
                }
            }
        }
    }

    /// Checks a raw token in its context against the dictionary sets.
    pub fn check_word(&self, word: &str, context: &WordContext) -> (r: bool)
        ensures
            r == self.check_word_spec(word@, *context),
    {
        if Self::should_ignore_word(word) {
            return true;
        }
        let cleaned = Self::clean_word(word, context);
        if cleaned.as_str().is_empty() {
            return true;
        }
        match context {
            WordContext::Comment | WordContext::Literal => self.words_all_in_dict(
                cleaned.as_str(),
            ),
            _ => self.in_dict(cleaned.as_str()),
        }
    }

    /// Whether every whitespace-delimited word of `s` is in a dictionary set.
    fn words_all_in_dict(&self, s: &str) -> (r: bool)
        ensures
            r == all_words_in_dict(*self, s@),
    {
        let parts = split_words(s);
        let n = parts.len();
        proof {
            assert(n == split_ws_words(s@).len());
            assert forall|k: int| 0 <= k < n implies parts@[k].1@ == #[trigger] split_ws_words(
                s@,
            )[k] by {
                assert((parts@[k].0 as int, parts@[k].1@) == line_tokens(s@)[k]);
                assert(split_ws_words(s@)[k] == line_tokens(s@)[k].1);
            }
        }
        let mut i: usize = 0;
        while i < n
            invariant
                n == parts@.len(),
                n == split_ws_words(s@).len(),
                forall|k: int|
                    0 <= k < n ==> parts@[k].1@ == #[trigger] split_ws_words(s@)[k],
                i <= n,
                forall|k: int| 0 <= k < i ==> self.spec_in_dict(#[trigger] split_ws_words(s@)[k]),
            decreases n - i,
        {
            if !self.in_dict(parts[i].1.as_str()) {
                assert(!self.spec_in_dict(split_ws_words(s@)[i as int]));
                return false;
            }
            i = i + 1;
        }
        true
    }
}

// ---------------------------------------------------------------------------
// The per-file scan
// ---------------------------------------------------------------------------

/// The engine state while a file is scanned: the dedup keys already
/// reported, and the findings so far as (token, 1-based line, context).
pub struct ScanState {
    pub seen: Set<(Seq<char>, WordContext)>,
    pub findings: Seq<(Seq<char>, int, WordContext)>,
}

/// The state before any line is scanned.
pub open spec fn scan_init() -> ScanState {
    ScanState { seen: Set::empty(), findings: Seq::empty() }
}

/// A line whose trimmed start is a comment marker makes every word on it
/// a comment, whatever the classifier would say of it.
pub open spec fn line_override(line: Seq<char>) -> bool {
    starts_with(trim_start_spec(line), "//"@) || starts_with(trim_start_spec(line), "/*"@)
}

/// The line holds a block-comment opener with no closer at or after it.
pub open spec fn open_unclosed(line: Seq<char>) -> bool {
    exists|i: int|
        occurs_at(line, "/*"@, i) && !(exists|j: int| j >= i + 2 && occurs_at(line, "*/"@, j))
}

/// The comment state carried into the next line: an open state persists
/// until a line holds a closer, and an unclosed opener starts one.
pub open spec fn carry_next(line: Seq<char>, carry: bool) -> bool {
    (carry && !contains_seq(line, "*/"@)) || open_unclosed(line)
}

/// The comment state carried into line `i` (0-based) of a file.
pub open spec fn carry_before(lines: Seq<Seq<char>>, i: int) -> bool
    decreases i,
{
    if i <= 0 {
        false
    } else {
        carry_next(lines[i - 1], carry_before(lines, i - 1))
    }
}

/// The dedup keys held in the seen-list.
pub open spec fn seen_set_of(v: Seq<(String, WordContext)>) -> Set<(Seq<char>, WordContext)>
    decreases v.len(),
{
    if v.len() == 0 {
        Set::empty()
    } else {
        seen_set_of(v.drop_last()).insert((v.last().0@, v.last().1))
    }
}

/// The entry at `idx` of the seen-list carries the key `key`.
pub open spec fn seen_at(v: Seq<(String, WordContext)>, idx: int, key: (Seq<char>, WordContext)) -> bool {
    0 <= idx < v.len() && v[idx].0@ == key.0 && v[idx].1 == key.1
}

proof fn lemma_seen_set(v: Seq<(String, WordContext)>, key: (Seq<char>, WordContext))
    ensures
        seen_set_of(v).contains(key) <==> exists|idx: int| #[trigger] seen_at(v, idx, key),
    decreases v.len(),
{
    if v.len() > 0 {
        lemma_seen_set(v.drop_last(), key);
        let last = (v.last().0@, v.last().1);
        if seen_set_of(v).contains(key) {
            if key == last {
                assert(seen_at(v, v.len() - 1, key));
            } else {
                let idx = choose|idx: int| #[trigger] seen_at(v.drop_last(), idx, key);
                assert(v.drop_last()[idx] == v[idx]);
                assert(seen_at(v, idx, key));
            }
        }
        if exists|idx: int| #[trigger] seen_at(v, idx, key) {
            let idx = choose|idx: int| #[trigger] seen_at(v, idx, key);
            if idx == v.len() - 1 {
                assert(key.0 == v.last().0@ && key.1 == v.last().1);
                assert(key == last);
                assert(seen_set_of(v).contains(key));
            } else {
                assert(v.drop_last()[idx] == v[idx]);
                assert(seen_at(v.drop_last(), idx, key));
            }
        }
    }
}

/// Whether the key `(w, ctx)` is already in the seen-list.
#[verifier::loop_isolation(false)]
fn seen_contains(seen: &Vec<(String, WordContext)>, w: &str, ctx: WordContext) -> (r: bool)
    ensures
        r == seen_set_of(seen@).contains((w@, ctx)),
{
    proof {
        lemma_seen_set(seen@, (w@, ctx));
    }
    let n = seen.len();
    let mut i: usize = 0;
    while i < n
        invariant
            n == seen@.len(),
            i <= n,
            forall|k: int| 0 <= k < i ==> !(#[trigger] seen_at(seen@, k, (w@, ctx))),
        decreases n - i,
    {
        let p = &seen[i];
        if str_eq(p.0.as_str(), w) && p.1 == ctx {
            assert(seen_at(seen@, i as int, (w@, ctx)));
            return true;
        }
        i = i + 1;
    }
    assert(forall|idx: int| !(#[trigger] seen_at(seen@, idx, (w@, ctx))));
    false
}

/// Every word start yielded by the tokenizer lies within the line.
proof fn lemma_tokens_bounds(line: Seq<char>, i: int)
    requires
        0 <= i <= line.len(),
    ensures
        forall|k: int|
            0 <= k < tokens_from(line, i).len() ==> i <= (#[trigger] tokens_from(line, i)[k]).0
                <= line.len(),
    decreases line.len() - i,
{
    if i < line.len() {
        if is_ws_char(line[i]) {
            lemma_tokens_bounds(line, i + 1);
            assert forall|k: int| 0 <= k < tokens_from(line, i).len() implies i <= (
            #[trigger] tokens_from(line, i)[k]).0 <= line.len() by {
                assert(tokens_from(line, i)[k] == tokens_from(line, i + 1)[k]);
            }
        } else {
            lemma_run_end(line, i);
            let re = run_end(line, i);
            lemma_tokens_bounds(line, re);
            assert forall|k: int| 0 <= k < tokens_from(line, i).len() implies i <= (
            #[trigger] tokens_from(line, i)[k]).0 <= line.len() by {
                if k > 0 {
                    assert(tokens_from(line, i)[k] == tokens_from(line, re)[k - 1]);
                }
            }
        }
    }
}

/// Whether `line` holds a block-comment opener with no closer after it.
fn open_unclosed_exec(v: &Vec<char>) -> (r: bool)
    ensures
        r == open_unclosed(v@),
{
    let opener = chars_of("/*");
    let closer = chars_of("*/");
    proof {
        reveal_strlit("/*");
        reveal_strlit("*/");
    }
    match find_last(v, &opener) {
        Option::None => {
            assert(!open_unclosed(v@));
            false
        },
        Option::Some(last) => {
            let n = v.len();
            assert(last + 2 <= n);
            if contains_from(v, &closer, last + 2) {
                proof {
                    let j0 = choose|j: int| j >= last + 2 && occurs_at(v@, "*/"@, j);
                    assert forall|i: int| occurs_at(v@, "/*"@, i) implies exists|j: int|
                        j >= i + 2 && occurs_at(v@, "*/"@, j) by {
                        assert(i <= last);
                        assert(j0 >= i + 2 && occurs_at(v@, "*/"@, j0));
                    }
                }
                false
            } else {
                assert(occurs_at(v@, "/*"@, last as int) && !(exists|j: int|
                    j >= last + 2 && occurs_at(v@, "*/"@, j)));
                true
            }
        },
    }
}

impl TypoAnalyzer {
    /// The engine state after one word is evaluated: a fresh key that
    /// fails the check is recorded as a finding and marked seen.
    pub open spec fn step_word(
        self,
        w: Seq<char>,
        ctx: WordContext,
        line_no: int,
        st: ScanState,
    ) -> ScanState {
        if !st.seen.contains((w, ctx)) && !self.check_word_spec(w, ctx) {
            ScanState {
                seen: st.seen.insert((w, ctx)),
                findings: st.findings.push((w, line_no, ctx)),
            }
        } else {
            st
        }
    }

    /// The engine state after the given words of a line are evaluated in
    /// order, each in its context.
    pub open spec fn step_tokens(
        self,
        line: Seq<char>,
        line_no: int,
        carry: bool,
        over: bool,
        toks: Seq<(int, Seq<char>)>,
        st: ScanState,
    ) -> ScanState
        decreases toks.len(),
    {
        if toks.len() == 0 {
            st
        } else {
            let ctx = if over {
                WordContext::Comment
            } else {
                classify_spec(line, toks[0].0, carry)
            };
            self.step_tokens(
                line,
                line_no,
                carry,
                over,
                toks.drop_first(),
                self.step_word(toks[0].1, ctx, line_no, st),
            )
        }
    }

    /// The engine state after a whole line is evaluated.
    pub open spec fn step_line(self, line: Seq<char>, line_no: int, carry: bool, st: ScanState) -> ScanState {
        self.step_tokens(line, line_no, carry, line_override(line), line_tokens(line), st)
    }

    /// The engine state after lines `i..` are evaluated.
    pub open spec fn scan_from(
        self,
        lines: Seq<Seq<char>>,
        i: int,
        carry: bool,
        st: ScanState,
    ) -> ScanState
        decreases lines.len() - i,
    {
        if i < 0 || i >= lines.len() {
            st
        } else {
            self.scan_from(
                lines,
                i + 1,
                carry_next(lines[i], carry),
                self.step_line(lines[i], i + 1, carry, st),
            )
        }
    }

    /// The findings of a whole file: each a (token, 1-based line, context)
    /// triple, in the order the scan meets them.
    pub open spec fn scan_spec(self, lines: Seq<Seq<char>>) -> Seq<(Seq<char>, int, WordContext)> {
        self.scan_from(lines, 0, false, scan_init()).findings
    }

    /// Scans the lines of one file: words are located by a monotonic
    /// forward scan, classified with the comment state carried over from
    /// earlier lines, and reported at most once per (token, context) key.
    #[verifier::loop_isolation(false)]
    pub fn scan_lines(&self, lines: &Vec<String>) -> (findings: Vec<(String, usize)>)
        ensures
            findings@.len() == self.scan_spec(views_of(lines@)).len(),
            forall|k: int|
                0 <= k < findings@.len() ==> (#[trigger] findings@[k]).0@ == self.scan_spec(
                    views_of(lines@),
                )[k].0 && findings@[k].1 as int == self.scan_spec(views_of(lines@))[k].1,
    {
        let ghost lviews = views_of(lines@);
        let n = lines.len();
        let mut findings: Vec<(String, usize)> = Vec::new();
        let mut seen: Vec<(String, WordContext)> = Vec::new();
        let mut carry: bool = false;
        let ghost mut st = scan_init();
        let mut i: usize = 0;
        while i < n
            invariant
                n == lines@.len(),
                lviews == views_of(lines@),
                i <= n,
                self.scan_from(lviews, 0, false, scan_init()) == self.scan_from(
                    lviews,
                    i as int,
                    carry,
                    st,
                ),
                st.seen == seen_set_of(seen@),
                st.findings.len() == findings@.len(),
                forall|k: int|
                    0 <= k < findings@.len() ==> (#[trigger] findings@[k]).0@ == st.findings[k].0
                        && findings@[k].1 as int == st.findings[k].1,
            decreases n - i,
        {
            let line = &lines[i];
            let ghost lv = lviews[i as int];
            proof {
                assert(lv == lines@[i as int]@);
            }
            let line_str = line.as_str();
            proof {
                assert(line_str@ == lv);
            }
            let chars = chars_of(line_str);
            let t0 = first_non_ws(&chars);
            let over = suffix_starts_with(&chars, t0, &chars_of("//")) || suffix_starts_with(
                &chars,
                t0,
                &chars_of("/*"),
            );
            proof {
                assert(over == line_override(lv));
            }
            let line_no: usize = i + 1;
            let toks = split_words(line_str);
            proof {
                lemma_tokens_bounds(lv, 0);
            }
            let ghost st_line = st;
            let m = toks.len();
            proof {
                assert(line_tokens(lv).subrange(0, m as int) =~= line_tokens(lv));
            }
            let mut tix: usize = 0;
            while tix < m
                invariant
                    m == toks@.len(),
                    m == line_tokens(lv).len(),
                    forall|k: int|
                        0 <= k < m ==> (toks@[k].0 as int, toks@[k].1@) == #[trigger] line_tokens(
                            lv,
                        )[k],
                    forall|k: int|
                        0 <= k < line_tokens(lv).len() ==> 0 <= (#[trigger] line_tokens(lv)[k]).0
                            <= lv.len(),
                    tix <= m,
                    line_no == i + 1,
                    i < n,
                    n == lines@.len(),
                    lviews == views_of(lines@),
                    lv == lviews[i as int],
                    lines@[i as int]@ == lv,
                    self.step_line(lv, line_no as int, carry, st_line) == self.step_tokens(
                        lv,
                        line_no as int,
                        carry,
                        over,
                        line_tokens(lv).subrange(tix as int, m as int),
                        st,
                    ),
                    st.seen == seen_set_of(seen@),
                    st.findings.len() == findings@.len(),
                    forall|k: int|
                        0 <= k < findings@.len() ==> (#[trigger] findings@[k]).0@
                            == st.findings[k].0 && findings@[k].1 as int == st.findings[k].1,
                decreases m - tix,
            {
                let pair = &toks[tix];
                let start = pair.0;
                let w = &pair.1;
                proof {
                    assert((start as int, w@) == line_tokens(lv)[tix as int]);
                }
                let ctx = if over {
                    WordContext::Comment
                } else {
                    Self::get_word_context(line_str, start, carry)
                };
                let ghost key = (w@, ctx);
                let already = seen_contains(&seen, w.as_str(), ctx);
                let ghost old_st = st;
                let ghost old_seen = seen@;
                let ghost old_findings = findings@;
                if !already && !self.check_word(w.as_str(), &ctx) {
                    findings.push((w.clone(), line_no));
                    seen.push((w.clone(), ctx));
                    proof {
                        st = ScanState {
                            seen: st.seen.insert(key),
                            findings: st.findings.push((w@, line_no as int, ctx)),
                        };
                        assert(seen@.drop_last() =~= old_seen);
                        assert(seen_set_of(seen@) == seen_set_of(old_seen).insert(key));
                        assert(st == self.step_word(w@, ctx, line_no as int, old_st));
                    }
                } else {
                    proof {
                        assert(st == self.step_word(w@, ctx, line_no as int, old_st));
                    }
                }
                proof {
                    let all = line_tokens(lv);
                    let rest = all.subrange(tix as int, m as int);
                    assert(rest.len() > 0);
                    assert(rest[0] == all[tix as int]);
                    assert(rest.drop_first() =~= all.subrange(tix + 1, m as int));
                    let ctx0 = if over {
                        WordContext::Comment
                    } else {
                        classify_spec(lv, rest[0].0, carry)
                    };
                    assert(ctx == ctx0);
                    assert(self.step_word(rest[0].1, ctx0, line_no as int, old_st) == st);
                    assert(self.step_tokens(
                        lv,
                        line_no as int,
                        carry,
                        over,
                        rest,
                        old_st,
                    ) == self.step_tokens(
                        lv,
                        line_no as int,
                        carry,
                        over,
                        rest.drop_first(),
                        st,
                    ));
                }
                tix = tix + 1;
            }
            proof {
                assert(line_tokens(lv).subrange(m as int, m as int) =~= Seq::<(
                    int,
                    Seq<char>,
                )>::empty());
                assert(st == self.step_line(lv, line_no as int, carry, st_line));
            }
            let new_carry = (carry && !contains_chars(&chars, &chars_of("*/")))
                || open_unclosed_exec(&chars);
            proof {
                assert(new_carry == carry_next(lv, carry));
                assert(self.scan_from(lviews, i as int, carry, st_line) == self.scan_from(
                    lviews,
                    i + 1,
                    carry_next(lv, carry),
                    self.step_line(lv, i + 1, carry, st_line),
                ));
            }
            carry = new_carry;
            i = i + 1;
        }
        proof {
            assert(self.scan_from(lviews, n as int, carry, st) == st);
        }
        findings
    }
}

/// The whitespace-delimited words of `s`.
pub open spec fn split_ws_words(s: Seq<char>) -> Seq<Seq<char>> {
    line_tokens(s).map_values(|t: (int, Seq<char>)| t.1)
}

/// Every word of the normalized form `c` is in one of the dictionary sets.
pub open spec fn all_words_in_dict(a: TypoAnalyzer, c: Seq<char>) -> bool {
    forall|k: int| 0 <= k < split_ws_words(c).len() ==> a.spec_in_dict(#[trigger] split_ws_words(c)[k])
}

} // verus!
