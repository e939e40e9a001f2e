//! Text as sequences of characters: substrings, joining, and the character
//! classes that the standard library decides.

use vstd::prelude::*;

verus! {

/// `pattern` stands in `text` at position `at`.
pub open spec fn matches_at(pattern: Seq<char>, text: Seq<char>, at: int) -> bool {
    0 <= at && at + pattern.len() <= text.len() && text.subrange(at, at + pattern.len()) == pattern
}

/// `pattern` occurs somewhere in `text` as a contiguous run of characters.
pub open spec fn occurs_in(pattern: Seq<char>, text: Seq<char>) -> bool {
    exists|at: int| matches_at(pattern, text, at)
}

/// `text` with every occurrence of `pattern` taken out, scanning from the
/// left; an empty pattern takes nothing out.
pub open spec fn without(text: Seq<char>, pattern: Seq<char>) -> Seq<char>
    decreases text.len(),
{
    if pattern.len() == 0 || text.len() < pattern.len() {
        text
    } else if matches_at(pattern, text, 0) {
        without(text.subrange(pattern.len() as int, text.len() as int), pattern)
    } else {
        seq![text[0]] + without(text.drop_first(), pattern)
    }
}

/// The words joined into one text, a single space between neighbours.
pub open spec fn joined(words: Seq<Seq<char>>) -> Seq<char>
    decreases words.len(),
{
    if words.len() == 0 {
        Seq::empty()
    } else if words.len() == 1 {
        words[0]
    } else {
        joined(words.drop_last()) + seq![' '] + words.last()
    }
}

/// What `str::to_lowercase` returns for a text: its lowercase form by the
/// Unicode case mapping that the standard library carries.
pub uninterp spec fn lowercase_of(text: Seq<char>) -> Seq<char>;

/// What `char::is_uppercase` returns for a character: whether it has the
/// Unicode property `Uppercase`.
pub uninterp spec fn is_uppercase_char(c: char) -> bool;

/// `char::is_uppercase`. The contract only names the result.
pub assume_specification[ char::is_uppercase ](c: char) -> (upper: bool)
    ensures
        upper == is_uppercase_char(c),
;

/// `str::to_lowercase`. The contract only names the result.
pub assume_specification[ str::to_lowercase ](text: &str) -> (lowered: String)
    ensures
        lowered@ == lowercase_of(text@),
;

/// `str::contains` with a string as the pattern: true exactly if the
/// pattern equals some contiguous part of the text.
#[verifier::external_body]
pub(crate) fn contains(text: &str, pattern: &str) -> (found: bool)
    ensures
        found == occurs_in(pattern@, text@),
{
    text.contains(pattern)
}

/// A text in which a pattern does not occur is left as it is by taking the
/// pattern out.
pub proof fn lemma_without_absent(text: Seq<char>, pattern: Seq<char>)
    requires
        !occurs_in(pattern, text),
    ensures
        without(text, pattern) == text,
    decreases text.len(),
{
    if pattern.len() == 0 || text.len() < pattern.len() {
    } else {
        assert(!matches_at(pattern, text, 0));
        let rest = text.drop_first();
        assert forall|at: int| !matches_at(pattern, rest, at) by {
            if matches_at(pattern, rest, at) {
                assert(rest.subrange(at, at + pattern.len()) =~= text.subrange(
                    at + 1,
                    at + 1 + pattern.len(),
                ));
                assert(matches_at(pattern, text, at + 1));
            }
        }
        lemma_without_absent(rest, pattern);
        assert(seq![text[0]] + rest =~= text);
    }
}

/// Every text occurs in itself.
pub proof fn lemma_occurs_in_itself(text: Seq<char>)
    ensures
        occurs_in(text, text),
{
    assert(text.subrange(0, text.len() as int) =~= text);
    assert(matches_at(text, text, 0));
}

/// A pattern that does not hold a separator occurs in two texts joined by
/// that separator exactly if it occurs in one of the two.
pub proof fn lemma_occurs_beside(pattern: Seq<char>, before: Seq<char>, separator: char, after: Seq<char>)
    requires
        forall|i: int| 0 <= i < pattern.len() ==> pattern[i] != separator,
    ensures
        occurs_in(pattern, before + seq![separator] + after) <==> occurs_in(pattern, before)
            || occurs_in(pattern, after),
{
    let whole = before + seq![separator] + after;
    let n = pattern.len() as int;
    let gap = before.len() as int;
    if occurs_in(pattern, before) {
        let at = choose|at: int| matches_at(pattern, before, at);
        assert(whole.subrange(at, at + n) =~= before.subrange(at, at + n));
        assert(matches_at(pattern, whole, at));
    }
    if occurs_in(pattern, after) {
        let at = choose|at: int| matches_at(pattern, after, at);
        assert(whole.subrange(gap + 1 + at, gap + 1 + at + n) =~= after.subrange(at, at + n));
        assert(matches_at(pattern, whole, gap + 1 + at));
    }
    if occurs_in(pattern, whole) {
        let at = choose|at: int| matches_at(pattern, whole, at);
        if at + n <= gap {
            assert(before.subrange(at, at + n) =~= whole.subrange(at, at + n));
            assert(matches_at(pattern, before, at));
        } else if at > gap {
            assert(after.subrange(at - gap - 1, at - gap - 1 + n) =~= whole.subrange(at, at + n));
            assert(matches_at(pattern, after, at - gap - 1));
        } else {
            assert(whole.subrange(at, at + n)[gap - at] == whole[gap]);
            assert(pattern[gap - at] == separator);
        }
    }
}

} // verus!
