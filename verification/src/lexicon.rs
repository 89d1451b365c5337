//! What a single word tells the segmenter: its closing punctuation, whether
//! it opens a numbered list item, and whether it is a break word.

use crate::text::{chars_of, same_text, strs};
use vstd::prelude::*;

verus! {

/// The pattern of a numbered list item: digits, optionally after an opening
/// parenthesis, closed by `.`, `)` or `:`, with an optional trailing comma.
pub const NUMBERED_ITEM_PATTERN: &'static str = r"^\(?[0-9]+[.\)\:],?$";

/// What compiling `pattern` as a regular expression and searching `haystack`
/// for a match gives: `None` where the pattern does not compile.
pub uninterp spec fn regex_match(pattern: Seq<char>, haystack: Seq<char>) -> Option<bool>;

/// The lower-case form of `s` as Unicode defines it.
pub uninterp spec fn lowercase_of(s: Seq<char>) -> Seq<char>;

/// `str::to_lowercase` of the standard library. Its result depends on the
/// text alone and is known here only by its name, `lowercase_of`.
pub assume_specification[ str::to_lowercase ](s: &str) -> (r: String)
    ensures
        r@ == lowercase_of(s@),
;

/// Calls `regex::Regex::new` on `pattern` and, where that succeeds,
/// `regex::Regex::is_match` on `haystack`. Both depend on their arguments
/// alone; the outcome is known here only by its name, `regex_match`, with
/// `None` standing for a pattern that the crate refuses.
#[verifier::external_body]
fn regex_is_match(pattern: &str, haystack: &str) -> (r: Option<bool>)
    ensures
        r == regex_match(pattern@, haystack@),
{
    match regex::Regex::new(pattern) {
        Ok(re) => Some(re.is_match(haystack)),
        Err(_) => None,
    }
}

/// `w` ends with the characters of `suffix`.
pub open spec fn has_suffix(w: Seq<char>, suffix: Seq<char>) -> bool {
    &&& suffix.len() <= w.len()
    &&& w.subrange(w.len() - suffix.len(), w.len() as int) == suffix
}

/// `w` ends with one of `suffixes`.
pub open spec fn has_any_suffix(w: Seq<char>, suffixes: Seq<Seq<char>>) -> bool {
    exists|k: int| 0 <= k < suffixes.len() && has_suffix(w, #[trigger] suffixes[k])
}

/// `w` closes a sentence or clause: it ends in `.`, `!`, `?`, `:` or `;`.
pub open spec fn ends_clause(w: Seq<char>) -> bool {
    w.len() > 0 && (w.last() == '.' || w.last() == '!' || w.last() == '?' || w.last() == ':'
        || w.last() == ';')
}

/// `w` ends in a comma.
pub open spec fn ends_comma(w: Seq<char>) -> bool {
    w.len() > 0 && w.last() == ','
}

/// `w` opens a numbered list item, such as `1.`, `(2)` or `3:`.
pub open spec fn is_numbered_item(w: Seq<char>) -> bool {
    regex_match(NUMBERED_ITEM_PATTERN@, w) == Some(true)
}

/// The conjunctions and transition words at which a long chunk may be cut.
pub open spec fn break_word_list() -> Seq<Seq<char>> {
    seq![
        "and"@,
        "or"@,
        "but"@,
        "&"@,
        "because"@,
        "if"@,
        "since"@,
        "though"@,
        "although"@,
        "however"@,
        "which"@,
    ]
}

/// `w`, in lower case, is one of `lexicon`.
pub open spec fn is_break_word_in(w: Seq<char>, lexicon: Seq<Seq<char>>) -> bool {
    lexicon.contains(lowercase_of(w))
}

/// `w` is a break word of the fixed lexicon, whatever its case.
pub open spec fn is_break_word(w: Seq<char>) -> bool {
    is_break_word_in(w, break_word_list())
}

/// The last character of `word`, if it has one.
pub fn last_char(word: &str) -> (r: Option<char>)
    ensures
        r == (if word@.len() == 0 {
            None
        } else {
            Some(word@.last())
        }),
{
    let chars = chars_of(word);
    if chars.len() == 0 {
        None
    } else {
        Some(chars[chars.len() - 1])
    }
}

/// Whether `word` closes a sentence or clause.
pub fn word_ends_clause(word: &str) -> (r: bool)
    ensures
        r == ends_clause(word@),
{
    match last_char(word) {
        Some(c) => c == '.' || c == '!' || c == '?' || c == ':' || c == ';',
        None => false,
    }
}

/// Whether `word` ends in a comma.
pub fn word_ends_comma(word: &str) -> (r: bool)
    ensures
        r == ends_comma(word@),
{
    match last_char(word) {
        Some(c) => c == ',',
        None => false,
    }
}

/// Whether `word` ends with `suffix`.
pub fn ends_with(word: &str, suffix: &str) -> (r: bool)
    ensures
        r == has_suffix(word@, suffix@),
{
    let w = chars_of(word);
    let p = chars_of(suffix);
    if p.len() > w.len() {
        return false;
    }
    let off = w.len() - p.len();
    let mut i: usize = 0;
    while i < p.len()
        invariant
            i <= p.len(),
            off + p.len() == w.len(),
            w@ == word@,
            p@ == suffix@,
            forall|k: int| 0 <= k < i ==> w@[off + k] == p@[k],
        decreases p.len() - i,
    {
        if w[off + i] != p[i] {
            assert(w@.subrange(w@.len() - p@.len(), w@.len() as int)[i as int] != p@[i as int]);
            return false;
        }
        i += 1;
    }
    assert(w@.subrange(w@.len() - p@.len(), w@.len() as int) =~= p@);
    true
}

/// Whether `word` ends with one of `suffixes`.
pub fn ends_with_any(word: &str, suffixes: &[&str]) -> (r: bool)
    ensures
        r == has_any_suffix(word@, strs(suffixes@)),
{
    let mut k: usize = 0;
    while k < suffixes.len()
        invariant
            k <= suffixes.len(),
            forall|j: int| 0 <= j < k ==> !has_suffix(word@, #[trigger] strs(suffixes@)[j]),
        decreases suffixes.len() - k,
    {
        if ends_with(word, suffixes[k]) {
            assert(has_suffix(word@, strs(suffixes@)[k as int]));
            return true;
        }
        k += 1;
    }
    false
}

/// Whether `word` opens a numbered list item.
pub fn is_numbered_list_item(word: &str) -> (r: bool)
    ensures
        r == is_numbered_item(word@),
{
    match regex_is_match(NUMBERED_ITEM_PATTERN, word) {
        Some(found) => found,
        None => false,
    }
}

/// The fixed lexicon of break words.
pub fn break_words() -> (r: [&'static str; 11])
    ensures
        strs(r@) == break_word_list(),
{
    let r = [
        "and",
        "or",
        "but",
        "&",
        "because",
        "if",
        "since",
        "though",
        "although",
        "however",
        "which",
    ];
    assert(strs(r@) =~= break_word_list());
    r
}

/// Whether `word`, in lower case, is one of `lexicon`.
pub fn word_is_break_word(word: &str, lexicon: &[&str]) -> (r: bool)
    ensures
        r == is_break_word_in(word@, strs(lexicon@)),
{
    let lower = word.to_lowercase();
    let mut k: usize = 0;
    while k < lexicon.len()
        invariant
            k <= lexicon.len(),
            lower@ == lowercase_of(word@),
            forall|j: int| 0 <= j < k ==> #[trigger] strs(lexicon@)[j] != lower@,
        decreases lexicon.len() - k,
    {
        if same_text(lexicon[k], lower.as_str()) {
            assert(strs(lexicon@)[k as int] == lower@);
            return true;
        }
        k += 1;
    }
    false
}

} // verus!
