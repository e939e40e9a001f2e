//! The candidate filter: from recognized text lines to plausible creature
//! names.

use crate::text::{
    contains, is_uppercase_char, joined, lemma_occurs_beside, lemma_occurs_in_itself,
    lemma_without_absent, lowercase_of, occurs_in, without,
};
use regex::Regex;
use vstd::prelude::*;
use vstd::string::StringExecFns;

verus! {

/// A recognized line of text: its words, in reading order.
#[derive(Debug)]
pub struct TextLine {
    pub words: Vec<String>,
}

impl DeepView for TextLine {
    type V = Seq<Seq<char>>;

    open spec fn deep_view(&self) -> Seq<Seq<char>> {
        self.words.deep_view()
    }
}

/// The level badge that stands beside a creature's name.
pub open spec fn marker() -> Seq<char> {
    "Lv."@
}

/// The pattern of what a name never holds: a digit or white space.
pub open spec fn noise_pattern() -> Seq<char> {
    "[0-9\\s]"@
}

/// The remains of a misread level badge, taken out of a name.
pub open spec fn badge_remains() -> Seq<char> {
    "llv."@
}

/// The lowercased word holds a banned part.
pub open spec fn banned(lowered: Seq<char>) -> bool {
    occurs_in("lv."@, lowered) || occurs_in("llv."@, lowered) || occurs_in("alpha"@, lowered)
}

/// The line shows a level badge somewhere in its full text.
pub open spec fn has_marker(words: Seq<Seq<char>>) -> bool {
    occurs_in(marker(), joined(words))
}

/// The type of an error of `regex::Regex::new`.
#[verifier::external_type_specification]
#[verifier::external_body]
pub struct ExRegexError(regex::Error);

/// The type of a compiled regular expression.
#[verifier::external_type_specification]
#[verifier::external_body]
pub struct ExRegex(regex::Regex);

/// Whether `regex::Regex::new` accepts a pattern.
pub uninterp spec fn regex_compiles(pattern: Seq<char>) -> bool;

/// The pattern of an expression that `regex::Regex::new` compiled, which
/// `regex::Regex::as_str` returns; `None` for an expression that was made
/// in another way, with options of its own.
pub uninterp spec fn plain_pattern(regex: Regex) -> Option<Seq<char>>;

/// What `regex::Regex::is_match` returns: whether the expression made from
/// `pattern` matches anywhere in `text`.
pub uninterp spec fn regex_matches(pattern: Seq<char>, text: Seq<char>) -> bool;

/// `regex::Regex::new`: compiles a pattern. The expression that comes back
/// is the one of that pattern; which patterns are accepted is only named.
#[verifier::external_body]
fn regex_new(pattern: &str) -> (compiled: Result<Regex, regex::Error>)
    ensures
        compiled is Ok <==> regex_compiles(pattern@),
        compiled matches Ok(regex) ==> plain_pattern(regex) == Some(pattern@),
{
    Regex::new(pattern)
}

/// `regex::Regex::is_match`: whether the expression matches anywhere in
/// the text. For an expression that `regex::Regex::new` compiled this
/// rests on the pattern and the text alone; the contract only names it.
#[verifier::external_body]
fn regex_is_match(regex: &Regex, text: &str) -> (matched: bool)
    requires
        plain_pattern(*regex) is Some,
    ensures
        matched == regex_matches(plain_pattern(*regex)->0, text@),
{
    regex.is_match(text)
}

/// The word starts with an uppercase character.
pub open spec fn capitalised(word: Seq<char>) -> bool {
    word.len() > 0 && is_uppercase_char(word[0])
}

/// The token that a word gives, once it is known whether the word starts
/// in uppercase and whether its lowercase form holds a digit or white
/// space: the lowercase form with the badge remains taken out, if the
/// word is capitalised, longer than three characters, free of noise and of
/// banned parts.
pub open spec fn screened(lowered: Seq<char>, capitalised: bool, noisy: bool) -> Option<Seq<char>> {
    if capitalised && lowered.len() > 3 && !noisy && !banned(lowered) {
        Some(without(lowered, badge_remains()))
    } else {
        None
    }
}

/// The token that a word gives, if any.
pub open spec fn token_of(word: Seq<char>) -> Option<Seq<char>> {
    screened(
        lowercase_of(word),
        capitalised(word),
        regex_matches(noise_pattern(), lowercase_of(word)),
    )
}

/// The tokens of the words, in order; a word that occurs twice gives its
/// token twice.
pub open spec fn tokens(words: Seq<Seq<char>>) -> Seq<Seq<char>>
    decreases words.len(),
{
    if words.len() == 0 {
        Seq::empty()
    } else {
        match token_of(words.last()) {
            Some(token) => tokens(words.drop_last()).push(token),
            None => tokens(words.drop_last()),
        }
    }
}

/// The candidate names of the lines: the tokens of every line that shows
/// the level badge, line after line.
pub open spec fn candidates(lines: Seq<Seq<Seq<char>>>) -> Seq<Seq<char>>
    decreases lines.len(),
{
    if lines.len() == 0 {
        Seq::empty()
    } else if has_marker(lines.last()) {
        candidates(lines.drop_last()) + tokens(lines.last())
    } else {
        candidates(lines.drop_last())
    }
}

/// The pattern of the filter was not accepted by the expression compiler.
#[derive(Clone, Copy, Debug, PartialEq, Eq)]
pub struct PatternError;

/// The candidate filter, holding its compiled noise pattern.
pub struct CandidateFilter {
    noise: Regex,
}

impl TextLine {
    /// The full text of the line.
    pub fn text(&self) -> (text: String)
        ensures
            text@ == joined(self.deep_view()),
    {
        let ghost words = self.deep_view();
        let mut text = String::new();
        let mut at: usize = 0;
        while at < self.words.len()
            invariant
                at <= self.words.len(),
                words == self.deep_view(),
                text@ == joined(words.take(at as int)),
            decreases self.words.len() - at,
        {
            proof {
                reveal_strlit(" ");
                assert(words.take(at + 1).drop_last() =~= words.take(at as int));
                assert(" "@ =~= seq![' ']);
            }
            if at > 0 {
                text.append(" ");
            }
            text.append(self.words[at].as_str());
            at += 1;
        }
        proof {
            assert(words.take(at as int) =~= words);
        }
        text
    }

    /// Whether the line shows a level badge.
    pub fn shows_badge(&self) -> (shown: bool)
        ensures
            shown == has_marker(self.deep_view()),
    {
        let text = self.text();
        contains(text.as_str(), "Lv.")
    }
}

/// Decides on a lowercased word, given what the character classes said of
/// it, and hands out its token.
pub fn screen_token(lowered: String, capitalised: bool, noisy: bool) -> (token: Option<String>)
    ensures
        token.deep_view() == screened(lowered@, capitalised, noisy),
{
    if !capitalised || noisy {
        return None;
    }
    if lowered.as_str().unicode_len() <= 3 {
        return None;
    }
    if contains(lowered.as_str(), "lv.") || contains(lowered.as_str(), "llv.") || contains(
        lowered.as_str(),
        "alpha",
    ) {
        return None;
    }
    // Nothing is left to take out: a word that holds the badge remains
    // holds a banned part and was dropped above.
    proof {
        lemma_without_absent(lowered@, badge_remains());
    }
    Some(lowered)
}

impl CandidateFilter {
    #[verifier::type_invariant]
    spec fn well_formed(self) -> bool {
        plain_pattern(self.noise) == Some(noise_pattern())
    }

    /// Makes the filter. Fails exactly where the expression compiler does
    /// not accept the noise pattern.
    pub fn new() -> (made: Result<CandidateFilter, PatternError>)
        ensures
            made is Ok <==> regex_compiles(noise_pattern()),
    {
        match regex_new("[0-9\\s]") {
            Ok(noise) => Ok(CandidateFilter { noise }),
            Err(_) => Err(PatternError),
        }
    }

    /// The token that a word gives, if any.
    pub fn token(&self, word: &str) -> (token: Option<String>)
        ensures
            token.deep_view() == token_of(word@),
    {
        proof {
            use_type_invariant(self);
        }
        if word.unicode_len() == 0 {
            return None;
        }
        if !word.get_char(0).is_uppercase() {
            return None;
        }
        let lowered = word.to_lowercase();
        let noisy = regex_is_match(&self.noise, lowered.as_str());
        screen_token(lowered, true, noisy)
    }
}

/// The candidate names of the lines, in the order in which they stand.
pub fn get_mons(filter: &CandidateFilter, lines: &Vec<TextLine>) -> (mons: Vec<String>)
    ensures
        mons.deep_view() == candidates(lines.deep_view()),
{
    let ghost all = lines.deep_view();
    let mut mons: Vec<String> = Vec::new();
    let mut at: usize = 0;
    assert(mons.deep_view() =~= candidates(all.take(0)));
    while at < lines.len()
        invariant
            at <= lines.len(),
            all == lines.deep_view(),
            mons.deep_view() == candidates(all.take(at as int)),
        decreases lines.len() - at,
    {
        let line = &lines[at];
        let ghost words = line.deep_view();
        proof {
            assert(all.take(at + 1).drop_last() =~= all.take(at as int));
            assert(all.take(at + 1).last() == words);
        }
        if line.shows_badge() {
            let ghost before = mons.deep_view();
            let mut next: usize = 0;
            assert(mons.deep_view() =~= before + tokens(words.take(0)));
            while next < line.words.len()
                invariant
                    next <= line.words.len(),
                    words == line.deep_view(),
                    mons.deep_view() == before + tokens(words.take(next as int)),
                decreases line.words.len() - next,
            {
                proof {
                    assert(words.take(next + 1).drop_last() =~= words.take(next as int));
                    assert(words.take(next + 1).last() == line.words[next as int]@);
                }
                let ghost sofar = mons.deep_view();
                match filter.token(line.words[next].as_str()) {
                    Some(token) => {
                        mons.push(token);
                        assert(mons.deep_view() =~= sofar.push(token@));
                        assert(mons.deep_view() =~= before + tokens(words.take(next + 1)));
                    },
                    None => {},
                }
                next += 1;
            }
            proof {
                assert(words.take(next as int) =~= words);
            }
        }
        at += 1;
    }
    proof {
        assert(all.take(at as int) =~= all);
    }
    mons
}

/// The badge holds no space, so it never stands across two words: a line
/// shows the badge exactly if one of its words holds it.
pub proof fn lemma_badge_stands_in_a_word(words: Seq<Seq<char>>)
    ensures
        has_marker(words) <==> exists|i: int|
            0 <= i < words.len() && occurs_in(marker(), #[trigger] words[i]),
    decreases words.len(),
{
    reveal_strlit("Lv.");
    let badge = marker();
    assert(badge.len() == 3);
    if words.len() == 0 {
        if occurs_in(badge, joined(words)) {
            let at = choose|at: int| crate::text::matches_at(badge, joined(words), at);
            assert(false);
        }
    } else if words.len() == 1 {
        if exists|i: int| 0 <= i < words.len() && occurs_in(badge, #[trigger] words[i]) {
            let i = choose|i: int| 0 <= i < words.len() && occurs_in(badge, #[trigger] words[i]);
            assert(words[i] == words[0]);
        }
        if has_marker(words) {
            assert(occurs_in(badge, words[0]));
        }
    } else {
        let front = words.drop_last();
        let top = words.len() - 1;
        lemma_badge_stands_in_a_word(front);
        lemma_occurs_beside(badge, joined(front), ' ', words.last());
        if has_marker(words) {
            if occurs_in(badge, joined(front)) {
                let i = choose|i: int| 0 <= i < front.len() && occurs_in(badge, #[trigger] front[i]);
                assert(occurs_in(badge, words[i]));
            } else {
                assert(occurs_in(badge, words[top]));
            }
        }
        if exists|i: int| 0 <= i < words.len() && occurs_in(badge, #[trigger] words[i]) {
            let i = choose|i: int| 0 <= i < words.len() && occurs_in(badge, #[trigger] words[i]);
            if i < top {
                assert(occurs_in(badge, front[i]));
            }
        }
    }
}

/// Lines that show no level badge give no candidate at all.
pub proof fn lemma_no_badge_no_candidates(lines: Seq<Seq<Seq<char>>>)
    requires
        forall|i: int| 0 <= i < lines.len() ==> !has_marker(#[trigger] lines[i]),
    ensures
        candidates(lines) == Seq::<Seq<char>>::empty(),
    decreases lines.len(),
{
    if lines.len() > 0 {
        assert(!has_marker(lines[lines.len() - 1]));
        lemma_no_badge_no_candidates(lines.drop_last());
    }
}

/// A word whose lowercase form holds a banned part gives no token, however
/// long it is; so does a word whose lowercase form is `alpha`.
pub proof fn lemma_banned_is_dropped(word: Seq<char>)
    ensures
        banned(lowercase_of(word)) ==> token_of(word) is None,
        lowercase_of(word) == "alpha"@ ==> token_of(word) is None,
{
    lemma_occurs_in_itself("alpha"@);
}

/// A token is the lowercase form of its word: longer than three characters,
/// free of banned parts, and with nothing left to take out of it.
pub proof fn lemma_token_is_lowercase(word: Seq<char>)
    requires
        token_of(word) is Some,
    ensures
        token_of(word) == Some(lowercase_of(word)),
        capitalised(word),
        lowercase_of(word).len() > 3,
        !banned(lowercase_of(word)),
        !regex_matches(noise_pattern(), lowercase_of(word)),
{
    lemma_without_absent(lowercase_of(word), badge_remains());
}

/// Every token of a line is the token of one of its words, and a line
/// gives no more tokens than it has words.
pub proof fn lemma_tokens_bounded(words: Seq<Seq<char>>)
    ensures
        tokens(words).len() <= words.len(),
        forall|i: int|
            0 <= i < tokens(words).len() ==> exists|j: int|
                0 <= j < words.len() && token_of(#[trigger] words[j]) == Some(
                    #[trigger] tokens(words)[i],
                ),
    decreases words.len(),
{
    if words.len() > 0 {
        let front = words.drop_last();
        lemma_tokens_bounded(front);
        assert forall|i: int| 0 <= i < tokens(words).len() implies exists|j: int|
            0 <= j < words.len() && token_of(#[trigger] words[j]) == Some(
                #[trigger] tokens(words)[i],
            ) by {
            if i < tokens(front).len() {
                let j = choose|j: int|
                    0 <= j < front.len() && token_of(#[trigger] front[j]) == Some(
                        tokens(front)[i],
                    );
                assert(token_of(words[j]) == Some(tokens(words)[i]));
            } else {
                assert(token_of(words[words.len() - 1]) == Some(tokens(words)[i]));
            }
        }
    }
}

/// `token` is the token of a word of a line that shows the badge.
pub open spec fn from_badge_line(lines: Seq<Seq<Seq<char>>>, token: Seq<char>) -> bool {
    exists|line: int, word: int|
        0 <= line < lines.len() && 0 <= word < lines[line].len() && has_marker(lines[line])
            && #[trigger] token_of(lines[line][word]) == Some(token)
}

/// Every candidate is the token of a word of a line that shows the badge.
pub proof fn lemma_candidates_come_from_badge_lines(lines: Seq<Seq<Seq<char>>>)
    ensures
        forall|i: int|
            0 <= i < candidates(lines).len() ==> from_badge_line(
                lines,
                #[trigger] candidates(lines)[i],
            ),
    decreases lines.len(),
{
    if lines.len() > 0 {
        let front = lines.drop_last();
        let last = lines.last();
        let top = lines.len() - 1;
        lemma_candidates_come_from_badge_lines(front);
        lemma_tokens_bounded(last);
        assert forall|i: int| 0 <= i < candidates(lines).len() implies from_badge_line(
            lines,
            #[trigger] candidates(lines)[i],
        ) by {
            let token = candidates(lines)[i];
            if i < candidates(front).len() {
                assert(token == candidates(front)[i]);
                let (line, word) = choose|line: int, word: int|
                    0 <= line < front.len() && 0 <= word < front[line].len() && has_marker(
                        front[line],
                    ) && #[trigger] token_of(front[line][word]) == Some(token);
                assert(front[line] == lines[line]);
                assert(token_of(lines[line][word]) == Some(token));
            } else {
                let at = i - candidates(front).len();
                assert(has_marker(last));
                assert(token == tokens(last)[at]);
                let word = choose|word: int|
                    0 <= word < last.len() && token_of(#[trigger] last[word]) == Some(
                        tokens(last)[at],
                    );
                assert(token_of(lines[top][word]) == Some(token));
            }
        }
    }
}

} // verus!
