//! Node identifiers from pattern matches: the text a pattern captures, with
//! `#` removed unless that is switched off, then rewritten by an optional
//! second pattern.

use vstd::prelude::*;

verus! {

#[verifier::external_type_specification]
#[verifier::external_body]
pub struct ExRegex(regex::Regex);

#[verifier::external_type_specification]
#[verifier::external_body]
pub struct ExRegexError(regex::Error);

/// Whether `pattern` is accepted by `regex::Regex::new`.
pub uninterp spec fn regex_compiles(pattern: Seq<char>) -> bool;

/// The number of capture groups of `pattern`, the whole match included.
pub uninterp spec fn capture_groups(pattern: Seq<char>) -> nat;

/// For each successive non-overlapping match of `pattern` in `text`, the text
/// of capture group `group`, or `None` where that group took no part.
pub uninterp spec fn group_texts(pattern: Seq<char>, text: Seq<char>, group: nat) -> Seq<
    Option<Seq<char>>,
>;

/// Whether `pattern` matches somewhere in `text`.
pub uninterp spec fn regex_is_match(pattern: Seq<char>, text: Seq<char>) -> bool;

/// `text` with every non-overlapping match of `pattern` replaced by the
/// expansion of `rep`.
pub uninterp spec fn regex_replace_all(pattern: Seq<char>, text: Seq<char>, rep: Seq<char>) -> Seq<
    char,
>;

/// A compiled pattern together with the text it was compiled from.
pub struct Pattern {
    source: String,
    re: regex::Regex,
}

impl View for Pattern {
    type V = Seq<char>;

    closed spec fn view(&self) -> Seq<char> {
        self.source@
    }
}

pub open spec fn option_text(o: Option<String>) -> Option<Seq<char>> {
    match o {
        Some(s) => Some(s@),
        None => None,
    }
}

pub open spec fn option_pattern(o: Option<&Pattern>) -> Option<Seq<char>> {
    match o {
        Some(p) => Some(p@),
        None => None,
    }
}

/// Relies on `regex::Regex::new`: it fails exactly on the patterns it does
/// not accept.
#[verifier::external_body]
pub(crate) fn compile_pattern(source: &str) -> (r: Result<Pattern, regex::Error>)
    ensures
        r is Ok <==> regex_compiles(source@),
        r is Ok ==> r->Ok_0@ == source@,
{
    regex::Regex::new(source).map(|re| Pattern { source: source.to_string(), re })
}

/// Relies on `regex::Regex::captures_len`.
#[verifier::external_body]
pub(crate) fn group_count(p: &Pattern) -> (r: usize)
    ensures
        r as nat == capture_groups(p@),
{
    p.re.captures_len()
}

/// Relies on `regex::Regex::captures_iter` and `regex::Captures::get`: the
/// matches in order, and for each the text of group `group` if it took part.
#[verifier::external_body]
pub(crate) fn captures_of(p: &Pattern, text: &str, group: usize) -> (r: Vec<Option<String>>)
    ensures
        r@.len() == group_texts(p@, text@, group as nat).len(),
        forall|i: int|
            0 <= i < r@.len() ==> option_text(#[trigger] r@[i]) == group_texts(
                p@,
                text@,
                group as nat,
            )[i],
{
    p.re.captures_iter(text).map(|c| c.get(group).map(|m| m.as_str().to_string())).collect()
}

/// Relies on `regex::Regex::is_match`.
#[verifier::external_body]
pub(crate) fn is_match(p: &Pattern, text: &str) -> (r: bool)
    ensures
        r == regex_is_match(p@, text@),
{
    p.re.is_match(text)
}

/// Relies on `regex::Regex::replace_all` with a `&str` replacement.
#[verifier::external_body]
fn replace_all(p: &Pattern, text: &str, rep: &str) -> (r: String)
    ensures
        r@ == regex_replace_all(p@, text@, rep@),
{
    p.re.replace_all(text, rep).into_owned()
}

/// `s` with every `#` removed.
pub open spec fn without_hashes(s: Seq<char>) -> Seq<char> {
    s.filter(|c: char| c != '#')
}

/// Relies on `str::replace` with pattern `"#"` and replacement `""`: every
/// occurrence of `#` is replaced by nothing.
#[verifier::external_body]
fn strip_hashes(s: &str) -> (r: String)
    ensures
        r@ == without_hashes(s@),
{
    s.replace("#", "")
}

/// Compiles `option` where it is given.
pub fn compile_optional_regex(option: Option<String>) -> (r: Result<Option<Pattern>, regex::Error>)
    ensures
        option is None ==> r == Ok::<Option<Pattern>, regex::Error>(None),
        option is Some ==> (r is Ok <==> regex_compiles(option->Some_0@)),
        option is Some && r is Ok ==> (r->Ok_0 is Some && r->Ok_0->Some_0@ == option->Some_0@),
{
    match option {
        Some(source) => match compile_pattern(source.as_str()) {
            Ok(p) => Ok(Some(p)),
            Err(e) => Err(e),
        },
        None => Ok(None),
    }
}

/// The empty string, the default replacement.
pub fn make_empty_string() -> (r: String)
    ensures
        r@ == Seq::<char>::empty(),
{
    String::new()
}

/// The identifier made of captured text: `#` removed unless
/// `disable_hash_removal`, then every match of `replace` replaced by `rep`.
pub open spec fn resolved(
    text: Seq<char>,
    replace: Option<Seq<char>>,
    rep: Seq<char>,
    disable_hash_removal: bool,
) -> Seq<char> {
    let cleaned = if disable_hash_removal {
        text
    } else {
        without_hashes(text)
    };
    match replace {
        Some(p) => regex_replace_all(p, cleaned, rep),
        None => cleaned,
    }
}

/// Turns captured text into a node identifier.
pub fn extract_then_replace(
    capture: &str,
    replace_regex: Option<&Pattern>,
    replace_string: &str,
    disable_hash_removal: bool,
) -> (r: String)
    ensures
        r@ == resolved(capture@, option_pattern(replace_regex), replace_string@, disable_hash_removal),
{
    let output: String = if disable_hash_removal {
        capture.to_owned()
    } else {
        strip_hashes(capture)
    };
    match replace_regex {
        Some(replace) => replace_all(replace, output.as_str(), replace_string),
        None => output,
    }
}

} // verus!
