//! The file-name convention check and the traversal filters: which
//! directory entries a scan skips, which files count as text, and which
//! names break the snake_case convention.

use vstd::prelude::*;

use crate::text::chars_of;
use crate::text::contains_chars;
use crate::text::contains_seq;
use crate::text::is_digit_char;
use crate::text::is_lower_char;
use crate::text::lower_seq;
use crate::text::lower_char_exec;
use crate::text::vec_chars_eq;
use crate::text::views_of;

verus! {

/// A name of snake_case shape: nonempty, every character an ASCII
/// lowercase letter, digit or underscore.
pub open spec fn is_snake_case(s: Seq<char>) -> bool {
    s.len() > 0 && forall|i: int|
        0 <= i < s.len() ==> is_lower_char(#[trigger] s[i]) || is_digit_char(s[i]) || s[i] == '_'
}

/// Relies on `regex::Regex::new` and `regex::Regex::is_match`: the
/// anchored pattern `^[a-z0-9_]+$` is valid, so compiling it succeeds,
/// and it matches a string exactly when the whole string is a nonempty
/// run of ASCII lowercase letters, digits and underscores.
#[verifier::external_body]
fn snake_case_match(name: &str) -> (r: bool)
    ensures
        r == is_snake_case(name@),
{
    regex::Regex::new("^[a-z0-9_]+$").unwrap().is_match(name)
}

/// Whether `name` follows the snake_case file-naming convention.
pub fn matches_naming(name: &str) -> (r: bool)
    ensures
        r == is_snake_case(name@),
{
    snake_case_match(name)
}

/// The entry names of `names` that break the naming convention, in order.
pub open spec fn bad_names(ns: Seq<Seq<char>>) -> Seq<Seq<char>>
    decreases ns.len(),
{
    if ns.len() == 0 {
        Seq::empty()
    } else {
        let pre = bad_names(ns.drop_last());
        if !is_snake_case(ns.last()) {
            pre.push(ns.last())
        } else {
            pre
        }
    }
}

/// Filters a directory's entry names down to those that break the
/// snake_case convention.
pub fn scan_names(names: &Vec<String>) -> (issues: Vec<String>)
    ensures
        views_of(issues@) == bad_names(views_of(names@)),
{
    let n = names.len();
    let mut issues: Vec<String> = Vec::new();
    let mut i: usize = 0;
    while i < n
        invariant
            n == names@.len(),
            i <= n,
            views_of(issues@) == bad_names(views_of(names@).subrange(0, i as int)),
        decreases n - i,
    {
        let ghost old_issues = issues@;
        if !matches_naming(names[i].as_str()) {
            issues.push(names[i].clone());
            assert(views_of(issues@) =~= views_of(old_issues).push(names@[i as int]@));
        }
        proof {
            let pre = views_of(names@).subrange(0, i as int);
            let cur = views_of(names@).subrange(0, i + 1 as int);
            assert(cur.drop_last() =~= pre);
            assert(cur.last() == names@[i as int]@);
        }
        i = i + 1;
    }
    assert(views_of(names@).subrange(0, n as int) =~= views_of(names@));
    issues
}

/// Whether a path is skipped by the traversal: it mentions one of the
/// conventional build or VCS directory names.
pub open spec fn ignored_path(p: Seq<char>) -> bool {
    contains_seq(p, "target"@) || contains_seq(p, "node_modules"@) || contains_seq(p, ".git"@)
        || contains_seq(p, ".idea"@) || contains_seq(p, ".vscode"@) || contains_seq(p, "dist"@)
        || contains_seq(p, "build"@)
}

/// Whether the traversal skips the entry at `path`.
pub fn should_ignore(path: &str) -> (r: bool)
    ensures
        r == ignored_path(path@),
{
    let v = chars_of(path);
    contains_chars(&v, &chars_of("target")) || contains_chars(&v, &chars_of("node_modules"))
        || contains_chars(&v, &chars_of(".git")) || contains_chars(&v, &chars_of(".idea"))
        || contains_chars(&v, &chars_of(".vscode")) || contains_chars(&v, &chars_of("dist"))
        || contains_chars(&v, &chars_of("build"))
}

/// The extensions of files the typo scan reads.
pub open spec fn text_extensions() -> Seq<Seq<char>> {
    seq![
        "txt"@,
        "md"@,
        "markdown"@,
        "rst"@,
        "adoc"@,
        "html"@,
        "htm"@,
        "css"@,
        "js"@,
        "ts"@,
        "jsx"@,
        "tsx"@,
        "json"@,
        "yaml"@,
        "yml"@,
        "toml"@,
        "ini"@,
        "cfg"@,
        "conf"@,
        "rs"@,
        "py"@,
        "java"@,
        "c"@,
        "cpp"@,
        "h"@,
        "hpp"@,
        "go"@,
        "rb"@,
        "php"@,
        "cs"@,
        "swift"@,
    ]
}

/// A file counts as text when its extension, lowercased, is on the list.
pub open spec fn text_extension(e: Seq<char>) -> bool {
    text_extensions().contains(lower_seq(e))
}

/// Whether a file with extension `ext` is scanned for typos.
pub fn is_text_file(ext: &str) -> (r: bool)
    ensures
        r == text_extension(ext@),
{
    let v = chars_of(ext);
    let n = v.len();
    let mut low: Vec<char> = Vec::new();
    let mut i: usize = 0;
    while i < n
        invariant
            n == v@.len(),
            i <= n,
            low@ =~= lower_seq(v@.subrange(0, i as int)),
        decreases n - i,
    {
        low.push(lower_char_exec(v[i]));
        assert(low@ =~= lower_seq(v@.subrange(0, i + 1 as int))) by {
            assert(v@.subrange(0, i + 1 as int).drop_last() =~= v@.subrange(0, i as int));
            assert(lower_seq(v@.subrange(0, i + 1 as int)).drop_last() =~= lower_seq(
                v@.subrange(0, i as int),
            ));
        }
        i = i + 1;
    }
    assert(v@.subrange(0, n as int) =~= v@);
    let exts: Vec<&str> = make_extension_list();
    let m = exts.len();
    let mut j: usize = 0;
    while j < m
        invariant
            m == exts@.len(),
            m == text_extensions().len(),
            forall|k: int| 0 <= k < m ==> (#[trigger] exts@[k])@ == text_extensions()[k],
            j <= m,
            low@ == lower_seq(ext@),
            forall|k: int| 0 <= k < j ==> #[trigger] text_extensions()[k] != low@,
        decreases m - j,
    {
        let lit = chars_of(exts[j]);
        if vec_chars_eq(&low, &lit) {
            assert(text_extensions()[j as int] == low@);
            return true;
        }
        j = j + 1;
    }
    assert(!text_extensions().contains(lower_seq(ext@)));
    false
}

/// The extension allow-list as string slices, in the order of
/// `text_extensions`.
fn make_extension_list() -> (r: Vec<&'static str>)
    ensures
        r@.len() == text_extensions().len(),
        forall|k: int| 0 <= k < r@.len() ==> (#[trigger] r@[k])@ == text_extensions()[k],
{
    let mut r: Vec<&'static str> = Vec::new();
    r.push("txt");
    r.push("md");
    r.push("markdown");
    r.push("rst");
    r.push("adoc");
    r.push("html");
    r.push("htm");
    r.push("css");
    r.push("js");
    r.push("ts");
    r.push("jsx");
    r.push("tsx");
    r.push("json");
    r.push("yaml");
    r.push("yml");
    r.push("toml");
    r.push("ini");
    r.push("cfg");
    r.push("conf");
    r.push("rs");
    r.push("py");
    r.push("java");
    r.push("c");
    r.push("cpp");
    r.push("h");
    r.push("hpp");
    r.push("go");
    r.push("rb");
    r.push("php");
    r.push("cs");
    r.push("swift");
    assert forall|k: int| 0 <= k < r@.len() implies (#[trigger] r@[k])@ == text_extensions()[k] by {
        assert(text_extensions()[k] == r@[k]@);
    }
    r
}

} // verus!
