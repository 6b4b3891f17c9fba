//! Properties of the suppression rules and of the scan engine, stated
//! and proved once for all inputs.

use vstd::prelude::*;

use crate::naming::is_snake_case;
use crate::text::contains_seq;
use crate::text::is_alpha_char;
use crate::text::is_digit_char;
use crate::text::is_lower_char;
use crate::text::is_upper_char;
use crate::text::occurs_at;
use crate::typos::all_alnum;
use crate::typos::all_alpha;
use crate::typos::all_lower_us;
use crate::typos::all_upper_us;
use crate::typos::carry_before;
use crate::typos::carry_next;
use crate::typos::classify_spec;
use crate::typos::has_digit;
use crate::typos::open_unclosed;
use crate::typos::scan_init;
use crate::typos::should_ignore_spec;
use crate::typos::ScanState;
use crate::typos::TypoAnalyzer;
use crate::typos::WordContext;

verus! {

/// A name of SCREAMING_SNAKE_CASE shape: nonempty, every character an
/// ASCII uppercase letter, digit or underscore.
pub open spec fn is_screaming_case(s: Seq<char>) -> bool {
    s.len() > 0 && forall|i: int|
        0 <= i < s.len() ==> is_upper_char(#[trigger] s[i]) || is_digit_char(s[i]) || s[i] == '_'
}

/// No token over the snake_case or SCREAMING_SNAKE_CASE alphabet whose
/// shape marks it as an identifier — it is short, or holds a digit or an
/// underscore — reaches dictionary lookup.  (A token of three or more
/// letters alone is a dictionary candidate instead, as `thex` must be
/// reportable.)
pub proof fn lemma_case_convention_suppressed(w: Seq<char>)
    requires
        is_snake_case(w) || is_screaming_case(w),
        w.len() <= 2 || has_digit(w) || w.contains('_'),
    ensures
        should_ignore_spec(w),
{
    if w.len() <= 2 {
    } else {
        assert(w[0] != '\'');
        if has_digit(w) {
        } else {
            assert(w.contains('_'));
            lemma_class_has_no_seps(w);
            assert(all_lower_us(w) || all_upper_us(w));
        }
    }
}

/// A token over either identifier alphabet holds no separator or arrow.
proof fn lemma_class_has_no_seps(w: Seq<char>)
    requires
        is_snake_case(w) || is_screaming_case(w),
    ensures
        !w.contains('/'),
        !w.contains('\\'),
        !contains_seq(w, "::"@),
        !contains_seq(w, "->"@),
        !contains_seq(w, "=>"@),
{
    reveal_strlit("::");
    reveal_strlit("->");
    reveal_strlit("=>");
    assert forall|i: int| !occurs_at(w, "::"@, i) by {
        if occurs_at(w, "::"@, i) {
            assert(w.subrange(i, i + 2)[0] == w[i]);
            assert(w[i] == ':');
        }
    }
    assert forall|i: int| !occurs_at(w, "->"@, i) by {
        if occurs_at(w, "->"@, i) {
            assert(w.subrange(i, i + 2)[0] == w[i]);
            assert(w[i] == '-');
        }
    }
    assert forall|i: int| !occurs_at(w, "=>"@, i) by {
        if occurs_at(w, "=>"@, i) {
            assert(w.subrange(i, i + 2)[0] == w[i]);
            assert(w[i] == '=');
        }
    }
}

/// Every token of at most two characters is suppressed.
pub proof fn lemma_short_token_suppressed(w: Seq<char>)
    requires
        w.len() <= 2,
    ensures
        should_ignore_spec(w),
{
}

/// A PascalCase token — uppercase-initial and purely alphabetic, with at
/// least three letters — is not suppressed: it reaches dictionary
/// lookup.  (A digit or a length of two would trigger an earlier rule,
/// so those tokens are left out here.)
pub proof fn lemma_pascal_case_reaches_lookup(w: Seq<char>)
    requires
        w.len() >= 3,
        is_upper_char(w[0]),
        all_alpha(w),
    ensures
        !should_ignore_spec(w),
{
    assert(w[0] != '\'');
    assert(!has_digit(w));
    reveal_strlit("::");
    reveal_strlit("->");
    reveal_strlit("=>");
    assert forall|i: int| !occurs_at(w, "::"@, i) by {
        if occurs_at(w, "::"@, i) {
            assert(w.subrange(i, i + 2)[0] == w[i]);
            assert(w[i] == ':');
        }
    }
    assert forall|i: int| !occurs_at(w, "->"@, i) by {
        if occurs_at(w, "->"@, i) {
            assert(w.subrange(i, i + 2)[0] == w[i]);
            assert(w[i] == '-');
        }
    }
    assert forall|i: int| !occurs_at(w, "=>"@, i) by {
        if occurs_at(w, "=>"@, i) {
            assert(w.subrange(i, i + 2)[0] == w[i]);
            assert(w[i] == '=');
        }
    }
    assert(!w.contains('_'));
    assert(!w.contains(' '));
    assert(all_alnum(w));
}

// ---------------------------------------------------------------------------
// Deduplication of findings
// ---------------------------------------------------------------------------

/// The engine state is well formed: no two findings share a (token,
/// context) key, and every finding's key is marked seen.
pub open spec fn state_deduped(st: ScanState) -> bool {
    &&& forall|a: int, b: int|
        0 <= a < b < st.findings.len() ==> !((#[trigger] st.findings[a]).0
            == (#[trigger] st.findings[b]).0 && st.findings[a].2 == st.findings[b].2)
    &&& forall|a: int|
        0 <= a < st.findings.len() ==> st.seen.contains(
            ((#[trigger] st.findings[a]).0, st.findings[a].2),
        )
}

proof fn lemma_step_word_deduped(
    an: TypoAnalyzer,
    w: Seq<char>,
    ctx: WordContext,
    line_no: int,
    st: ScanState,
)
    requires
        state_deduped(st),
    ensures
        state_deduped(an.step_word(w, ctx, line_no, st)),
        an.step_word(w, ctx, line_no, st).seen.subset_of(st.seen.insert((w, ctx))),
        st.seen.subset_of(an.step_word(w, ctx, line_no, st).seen),
{
    let post = an.step_word(w, ctx, line_no, st);
    if !st.seen.contains((w, ctx)) && !an.check_word_spec(w, ctx) {
        assert forall|a: int, b: int|
            0 <= a < b < post.findings.len() implies !((#[trigger] post.findings[a]).0
            == (#[trigger] post.findings[b]).0 && post.findings[a].2 == post.findings[b].2) by {
            if b == post.findings.len() - 1 {
                assert(post.findings[a] == st.findings[a]);
                assert(st.seen.contains((st.findings[a].0, st.findings[a].2)));
            } else {
                assert(post.findings[a] == st.findings[a]);
                assert(post.findings[b] == st.findings[b]);
            }
        }
        assert forall|a: int| 0 <= a < post.findings.len() implies post.seen.contains(
            ((#[trigger] post.findings[a]).0, post.findings[a].2),
        ) by {
            if a < post.findings.len() - 1 {
                assert(post.findings[a] == st.findings[a]);
            }
        }
    }
}

proof fn lemma_step_tokens_deduped(
    an: TypoAnalyzer,
    line: Seq<char>,
    line_no: int,
    carry: bool,
    over: bool,
    toks: Seq<(int, Seq<char>)>,
    st: ScanState,
)
    requires
        state_deduped(st),
    ensures
        state_deduped(an.step_tokens(line, line_no, carry, over, toks, st)),
    decreases toks.len(),
{
    if toks.len() > 0 {
        let ctx = if over {
            WordContext::Comment
        } else {
            classify_spec(line, toks[0].0, carry)
        };
        lemma_step_word_deduped(an, toks[0].1, ctx, line_no, st);
        lemma_step_tokens_deduped(
            an,
            line,
            line_no,
            carry,
            over,
            toks.drop_first(),
            an.step_word(toks[0].1, ctx, line_no, st),
        );
    }
}

proof fn lemma_scan_from_deduped(
    an: TypoAnalyzer,
    lines: Seq<Seq<char>>,
    i: int,
    carry: bool,
    st: ScanState,
)
    requires
        state_deduped(st),
    ensures
        state_deduped(an.scan_from(lines, i, carry, st)),
    decreases lines.len() - i,
{
    if 0 <= i < lines.len() {
        lemma_step_tokens_deduped(
            an,
            lines[i],
            i + 1,
            carry,
            crate::typos::line_override(lines[i]),
            crate::text::line_tokens(lines[i]),
            st,
        );
        lemma_scan_from_deduped(
            an,
            lines,
            i + 1,
            carry_next(lines[i], carry),
            an.step_line(lines[i], i + 1, carry, st),
        );
    }
}

/// A file never yields two findings for the same token in the same
/// lexical context: the engine reports each (token, context) key at most
/// once, however often it recurs.
pub proof fn lemma_scan_deduplicates(an: TypoAnalyzer, lines: Seq<Seq<char>>)
    ensures
        forall|a: int, b: int|
            0 <= a < b < an.scan_spec(lines).len() ==> !((#[trigger] an.scan_spec(lines)[a]).0
                == (#[trigger] an.scan_spec(lines)[b]).0 && an.scan_spec(lines)[a].2
                == an.scan_spec(lines)[b].2),
{
    lemma_scan_from_deduped(an, lines, 0, false, scan_init());
}

// ---------------------------------------------------------------------------
// Multi-line comment carry
// ---------------------------------------------------------------------------

/// A block comment left open on an earlier line forces every word of the
/// current line into comment context, and stays open across lines that
/// hold no closer; an unclosed opener starts that state.
/// The scan threads the comment state sequentially: from any line on,
/// scanning with the state carried into it folds that line under it and
/// continues with the state carried into the next line.
pub proof fn lemma_scan_threads_carry(
    an: TypoAnalyzer,
    lines: Seq<Seq<char>>,
    i: int,
    st: ScanState,
)
    requires
        0 <= i < lines.len(),
    ensures
        an.scan_from(lines, i, carry_before(lines, i), st) == an.scan_from(
            lines,
            i + 1,
            carry_before(lines, i + 1),
            an.step_line(lines[i], i + 1, carry_before(lines, i), st),
        ),
{
}

pub proof fn lemma_comment_carry(lines: Seq<Seq<char>>, i: int)
    requires
        0 <= i < lines.len(),
    ensures
        carry_before(lines, i) ==> forall|start: int|
            classify_spec(lines[i], start, true) == WordContext::Comment,
        (carry_before(lines, i) && !contains_seq(lines[i], "*/"@)) ==> carry_before(lines, i + 1),
        open_unclosed(lines[i]) ==> carry_before(lines, i + 1),
{
}

} // verus!
