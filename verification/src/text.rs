//! Preference stores written as text: one participant per line, its name,
//! a comma, and its preferences separated by commas.
//!
//! Whether a line has that shape, and where its name ends, is decided by a
//! regular expression; cutting the text into lines, the preferences into
//! tokens and the white space off each token is done here.

use vstd::prelude::*;
use vstd::std_specs::iter::IteratorSpec;
use regex::Regex;
use crate::models::{RankingError, Rankings, entry_lists, entry_names};
use crate::preferences::{Name, Prefs, first_repeat_at};

verus! {

/// `regex::Error`, the reason why a pattern did not compile. It is handed
/// on and never looked into.
#[verifier::external_type_specification]
#[verifier::external_body]
pub struct ExRegexError(regex::Error);

/// The first and the second group of the leftmost match of `pattern` in
/// `line`; `None` where the pattern matches nowhere in the line, or one of
/// the two groups took no part in the match.
pub uninterp spec fn captured(pattern: Seq<char>, line: Seq<char>) -> Option<
    (Seq<char>, Seq<char>),
>;

/// Whether the pattern matcher takes `pattern`: it is well-formed and not
/// beyond the matcher's size limit.
pub uninterp spec fn compiles(pattern: Seq<char>) -> bool;

/// Whether `c` has the Unicode property White_Space.
pub uninterp spec fn white_space_property(c: char) -> bool;

/// Whether `c` is white space in the sense of Unicode. The space, the line
/// feed and the no-break space are; the letter U+8D8A is not; of any other
/// character its Unicode property decides.
pub open spec fn white_space(c: char) -> bool {
    if c == ' ' || c == '\n' || c == '\u{a0}' {
        true
    } else if c == '\u{8d8a}' {
        false
    } else {
        white_space_property(c)
    }
}

/// `regex::Regex::new`, then `regex::Regex::captures` and
/// `regex::Captures::get` for the groups 1 and 2: compiles `pattern` and
/// gives the text of both groups of its leftmost match in `line`. Whether
/// the pattern compiles depends on the pattern alone, and nothing is claimed
/// about which patterns do; the error comes exactly where it does not.
/// Where it compiles, the answer depends on the pattern and the line alone.
#[verifier::external_body]
fn capture_pair(pattern: &str, line: &str) -> (found: Result<
    Option<(String, String)>,
    regex::Error,
>)
    ensures
        found is Err <==> !compiles(pattern@),
        match found {
            Ok(Some(pair)) => captured(pattern@, line@) == Some((pair.0@, pair.1@)),
            Ok(None) => captured(pattern@, line@).is_none(),
            Err(_) => true,
        },
{
    let expression = Regex::new(pattern)?;
    let groups = match expression.captures(line) {
        Some(groups) => groups,
        None => return Ok(None),
    };
    match (groups.get(1), groups.get(2)) {
        (Some(first), Some(second)) => Ok(
            Some((first.as_str().to_string(), second.as_str().to_string())),
        ),
        _ => Ok(None),
    }
}

/// `char::is_whitespace`: whether `c` has the Unicode property White_Space.
/// Its documentation shows the answer for four characters: yes for the
/// space, the line feed and the no-break space, no for the letter U+8D8A.
#[verifier::external_body]
fn is_space(c: char) -> (space: bool)
    ensures
        space == white_space_property(c),
        space == white_space(c),
{
    c.is_whitespace()
}

/// `String::push` appends one character.
pub assume_specification[ String::push ](text: &mut String, c: char)
    ensures
        final(text)@ == old(text)@.push(c),
;

/// The shape of a line: a name of at least one character, a comma, and at
/// least one more character up to the end of the line.
pub open spec fn line_pattern() -> Seq<char> {
    "(?m)^(.+?),(.+)$"@
}

/// The pieces of `text` between the occurrences of `sep`. There is always
/// one piece more than there are separators; a piece may be empty.
pub open spec fn split_on(text: Seq<char>, sep: char) -> Seq<Seq<char>>
    decreases text.len(),
{
    if text.len() == 0 {
        seq![Seq::empty()]
    } else {
        let before = split_on(text.drop_last(), sep);
        if text.last() == sep {
            before.push(Seq::empty())
        } else {
            before.drop_last().push(before.last().push(text.last()))
        }
    }
}

/// The lines of `text`: its pieces between line feeds. What follows the last
/// line feed is a line only if it is not empty.
pub open spec fn lines_of(text: Seq<char>) -> Seq<Seq<char>> {
    let pieces = split_on(text, '\n');
    if pieces.last().len() == 0 {
        pieces.drop_last()
    } else {
        pieces
    }
}

/// `text` without the white space at its start.
pub open spec fn trim_start(text: Seq<char>) -> Seq<char>
    decreases text.len(),
{
    if text.len() > 0 && white_space(text.first()) {
        trim_start(text.drop_first())
    } else {
        text
    }
}

/// `text` without the white space at its end.
pub open spec fn trim_end(text: Seq<char>) -> Seq<char>
    decreases text.len(),
{
    if text.len() > 0 && white_space(text.last()) {
        trim_end(text.drop_last())
    } else {
        text
    }
}

/// `text` without the white space at its start and at its end.
pub open spec fn trimmed(text: Seq<char>) -> Seq<char> {
    trim_end(trim_start(text))
}

/// The preferences that a line lists after its name: the tokens between the
/// commas, each without the white space around it.
pub open spec fn preferences_of(rest: Seq<char>) -> Seq<Name> {
    split_on(rest, ',').map_values(|token: Seq<char>| trimmed(token))
}

/// The side that the pairs of name and listed preferences describe.
pub open spec fn side_of(pairs: Seq<(Seq<char>, Seq<char>)>) -> Prefs {
    Prefs {
        names: Seq::new(pairs.len(), |i: int| pairs[i].0),
        lists: Seq::new(pairs.len(), |i: int| preferences_of(pairs[i].1)),
    }
}

/// The line at `i` is the first that does not have the shape of a line.
pub open spec fn malformed_at(lines: Seq<Seq<char>>, i: int) -> bool {
    &&& 0 <= i < lines.len()
    &&& captured(line_pattern(), lines[i]).is_none()
    &&& forall|k: int| 0 <= k < i ==> captured(line_pattern(), #[trigger] lines[k]).is_some()
}

/// Every line has the shape of a line.
pub open spec fn all_captured(lines: Seq<Seq<char>>) -> bool {
    forall|k: int| 0 <= k < lines.len() ==> captured(line_pattern(), #[trigger] lines[k]).is_some()
}

/// Of each line its name and the text that lists its preferences.
pub open spec fn captures_of(lines: Seq<Seq<char>>) -> Seq<(Seq<char>, Seq<char>)> {
    Seq::new(lines.len(), |i: int| captured(line_pattern(), lines[i]).unwrap())
}

/// What reading `text` gives. Where there is a line to match and the pattern
/// matcher does not take the line pattern, that is the error. Otherwise the
/// first line without the shape of a line is an error; else the first name
/// that repeats an earlier one is an error; else the store holds the lines'
/// participants in their order.
pub open spec fn reading_fits(made: Result<Rankings, RankingError>, text: Seq<char>) -> bool {
    match made {
        Ok(rankings) => {
            &&& lines_of(text).len() > 0 ==> compiles(line_pattern())
            &&& all_captured(lines_of(text))
            &&& side_of(captures_of(lines_of(text))).names.no_duplicates()
            &&& rankings.wf()
            &&& rankings@ == side_of(captures_of(lines_of(text)))
        },
        Err(RankingError::MalformedLine(line)) => {
            &&& compiles(line_pattern())
            &&& exists|i: int|
                malformed_at(lines_of(text), i) && line@ == #[trigger] lines_of(text)[i]
        },
        Err(RankingError::DuplicateKey(name)) => {
            &&& lines_of(text).len() > 0 ==> compiles(line_pattern())
            &&& all_captured(lines_of(text))
            &&& exists|j: int|
                first_repeat_at(side_of(captures_of(lines_of(text))).names, j) && name@
                    == #[trigger] side_of(captures_of(lines_of(text))).names[j]
        },
        Err(RankingError::Pattern) => lines_of(text).len() > 0 && !compiles(line_pattern()),
    }
}

/// The characters of `text`, in their order.
pub fn chars_of(text: &str) -> (chars: Vec<char>)
    ensures
        chars@ == text@,
{
    broadcast use vstd::string::group_string_axioms;

    let mut chars: Vec<char> = Vec::new();
    let mut rest = text.chars();
    loop
        invariant
            chars@ + rest.remaining() == text@,
            rest.decrease() is Some,
        decreases rest.decrease()->0,
    {
        match rest.next() {
            Some(c) => {
                chars.push(c);
                assert(chars@ + rest.remaining() =~= text@);
            },
            None => {
                assert(chars@ =~= text@);
                return chars;
            },
        }
    }
}

/// The text made of the characters of `chars` from `from` up to `to`.
pub fn text_of(chars: &Vec<char>, from: usize, to: usize) -> (text: String)
    requires
        from <= to <= chars@.len(),
    ensures
        text@ == chars@.subrange(from as int, to as int),
{
    let mut text = String::new();
    let mut i: usize = from;
    while i < to
        invariant
            from <= i <= to <= chars@.len(),
            text@ == chars@.subrange(from as int, i as int),
        decreases to - i,
    {
        text.push(chars[i]);
        i += 1;
        assert(text@ =~= chars@.subrange(from as int, i as int));
    }
    text
}

/// Cuts `chars` at every `sep`.
pub fn split(chars: &Vec<char>, sep: char) -> (pieces: Vec<Vec<char>>)
    ensures
        pieces@.len() == split_on(chars@, sep).len(),
        forall|i: int|
            0 <= i < pieces@.len() ==> (#[trigger] pieces@[i])@ == split_on(chars@, sep)[i],
{
    let mut pieces: Vec<Vec<char>> = Vec::new();
    let mut piece: Vec<char> = Vec::new();
    let mut i: usize = 0;
    assert(chars@.subrange(0, 0) =~= Seq::<char>::empty());
    while i < chars.len()
        invariant
            i <= chars@.len(),
            split_on(chars@.subrange(0, i as int), sep).len() == pieces@.len() + 1,
            split_on(chars@.subrange(0, i as int), sep).last() == piece@,
            forall|k: int|
                0 <= k < pieces@.len() ==> (#[trigger] pieces@[k])@ == split_on(
                    chars@.subrange(0, i as int),
                    sep,
                )[k],
        decreases chars@.len() - i,
    {
        let c = chars[i];
        proof {
            let upto = chars@.subrange(0, i as int + 1);
            assert(upto.drop_last() =~= chars@.subrange(0, i as int));
            assert(upto.last() == c);
        }
        if c == sep {
            pieces.push(piece);
            piece = Vec::new();
        } else {
            piece.push(c);
        }
        i += 1;
    }
    assert(chars@.subrange(0, i as int) =~= chars@);
    pieces.push(piece);
    pieces
}

/// Cutting white space off the start leaves the part from the first position
/// that holds none.
pub proof fn lemma_trim_start(text: Seq<char>, from: int)
    requires
        0 <= from <= text.len(),
        forall|j: int| 0 <= j < from ==> white_space(#[trigger] text[j]),
        from < text.len() ==> !white_space(text[from]),
    ensures
        trim_start(text) == text.subrange(from, text.len() as int),
    decreases from,
{
    if from == 0 {
        assert(text.subrange(0, text.len() as int) =~= text);
    } else {
        let rest = text.drop_first();
        assert forall|j: int| 0 <= j < from - 1 implies white_space(#[trigger] rest[j]) by {
            assert(rest[j] == text[j + 1]);
        }
        lemma_trim_start(rest, from - 1);
        assert(rest.subrange(from - 1, rest.len() as int) =~= text.subrange(
            from,
            text.len() as int,
        ));
    }
}

/// Cutting white space off the end leaves the part up to the last position
/// that holds none.
pub proof fn lemma_trim_end(text: Seq<char>, to: int)
    requires
        0 <= to <= text.len(),
        forall|j: int| to <= j < text.len() ==> white_space(#[trigger] text[j]),
        0 < to ==> !white_space(text[to - 1]),
    ensures
        trim_end(text) == text.subrange(0, to),
    decreases text.len() - to,
{
    if to == text.len() {
        assert(text.subrange(0, to) =~= text);
    } else {
        let rest = text.drop_last();
        lemma_trim_end(rest, to);
        assert(rest.subrange(0, to) =~= text.subrange(0, to));
    }
}

/// The token `chars` without the white space around it.
pub fn trim(chars: &Vec<char>) -> (token: String)
    ensures
        token@ == trimmed(chars@),
{
    let mut from: usize = 0;
    while from < chars.len() && is_space(chars[from])
        invariant
            from <= chars@.len(),
            forall|j: int| 0 <= j < from ==> white_space(#[trigger] chars@[j]),
        decreases chars@.len() - from,
    {
        from += 1;
    }
    let mut to: usize = chars.len();
    while from < to && is_space(chars[to - 1])
        invariant
            from <= to <= chars@.len(),
            forall|j: int| to <= j < chars@.len() ==> white_space(#[trigger] chars@[j]),
        decreases to - from,
    {
        to -= 1;
    }
    proof {
        lemma_trim_start(chars@, from as int);
        let tail = chars@.subrange(from as int, chars@.len() as int);
        lemma_trim_end(tail, to - from);
        assert(tail.subrange(0, to - from) =~= chars@.subrange(from as int, to as int));
    }
    text_of(chars, from, to)
}

/// The preferences listed in `rest`, the part of a line after its name.
pub fn parse_preferences(rest: &str) -> (list: Vec<String>)
    ensures
        list.deep_view() == preferences_of(rest@),
{
    let chars = chars_of(rest);
    let tokens = split(&chars, ',');
    let mut list: Vec<String> = Vec::new();
    let mut i: usize = 0;
    while i < tokens.len()
        invariant
            i <= tokens@.len(),
            list@.len() == i,
            tokens@.len() == split_on(rest@, ',').len(),
            forall|k: int|
                0 <= k < tokens@.len() ==> (#[trigger] tokens@[k])@ == split_on(rest@, ',')[k],
            forall|k: int| 0 <= k < i ==> (#[trigger] list@[k])@ == preferences_of(rest@)[k],
        decreases tokens@.len() - i,
    {
        list.push(trim(&tokens[i]));
        i += 1;
    }
    assert(list.deep_view() =~= preferences_of(rest@));
    list
}

impl Rankings {
    /// Reads a store from text, one participant per line: its name, a comma,
    /// and its preferences separated by commas, white space around a
    /// preference not counting. A line of another shape is an error, and so
    /// is a name that comes twice.
    pub fn from_str(input: &str) -> (made: Result<Rankings, RankingError>)
        ensures
            reading_fits(made, input@),
    {
        let chars = chars_of(input);
        let pieces = split(&chars, '\n');
        let count = if pieces[pieces.len() - 1].len() == 0 {
            pieces.len() - 1
        } else {
            pieces.len()
        };
        let ghost lines = lines_of(input@);
        let mut pairs: Vec<(String, String)> = Vec::new();
        let mut i: usize = 0;
        while i < count
            invariant
                i <= count <= pieces@.len(),
                count == lines.len(),
                lines == lines_of(input@),
                i > 0 ==> compiles(line_pattern()),
                forall|k: int| 0 <= k < count ==> (#[trigger] pieces@[k])@ == lines[k],
                pairs@.len() == i,
                forall|k: int|
                    0 <= k < i ==> captured(line_pattern(), #[trigger] lines[k]) == Some(
                        (pairs@[k].0@, pairs@[k].1@),
                    ),
            decreases count - i,
        {
            let line = text_of(&pieces[i], 0, pieces[i].len());
            assert(line@ =~= lines[i as int]);
            match capture_pair("(?m)^(.+?),(.+)$", line.as_str()) {
                Ok(Some(pair)) => {
                    pairs.push(pair);
                },
                Ok(None) => {
                    assert(malformed_at(lines, i as int));
                    return Err(RankingError::MalformedLine(line));
                },
                Err(_) => {
                    return Err(RankingError::Pattern);
                },
            }
            i += 1;
        }
        assert(pairs.deep_view() =~= captures_of(lines));
        Rankings::from_captures(pairs)
    }

    /// The store that the given pairs describe: each pair is a participant's
    /// name and the text that lists its preferences. Refused where a name
    /// comes twice; the error holds the first name that repeats an earlier
    /// one.
    pub fn from_captures(pairs: Vec<(String, String)>) -> (made: Result<Rankings, RankingError>)
        ensures
            match made {
                Ok(rankings) => {
                    &&& side_of(pairs.deep_view()).names.no_duplicates()
                    &&& rankings.wf()
                    &&& rankings@ == side_of(pairs.deep_view())
                },
                Err(RankingError::DuplicateKey(name)) => exists|j: int|
                    first_repeat_at(side_of(pairs.deep_view()).names, j) && name@
                        == #[trigger] side_of(pairs.deep_view()).names[j],
                Err(_) => false,
            },
    {
        let mut entries: Vec<(String, Vec<String>)> = Vec::new();
        let mut i: usize = 0;
        while i < pairs.len()
            invariant
                i <= pairs@.len(),
                entries@.len() == i,
                forall|k: int| 0 <= k < i ==> (#[trigger] entries@[k]).0@ == pairs@[k].0@,
                forall|k: int|
                    0 <= k < i ==> (#[trigger] entries@[k]).1.deep_view() == preferences_of(
                        pairs@[k].1@,
                    ),
            decreases pairs@.len() - i,
        {
            let name = pairs[i].0.clone();
            let list = parse_preferences(pairs[i].1.as_str());
            entries.push((name, list));
            i += 1;
        }
        proof {
            assert(entry_names(entries@) =~= side_of(pairs.deep_view()).names);
            assert(entry_lists(entries@) =~= side_of(pairs.deep_view()).lists);
        }
        match Rankings::from_entries(entries) {
            Ok(rankings) => {
                proof {
                    rankings.lemma_view(side_of(pairs.deep_view()));
                }
                Ok(rankings)
            },
            Err(error) => Err(error),
        }
    }
}

} // verus!
