//! The heading recognizer: a line opening with one to three `#`
//! characters followed by at least one space.  Longer marker runs never
//! match, because only the three shortest are tried and each demands a
//! space right after the run it consumed.

use vstd::prelude::*;

use crate::parser::parser::{
    result_models, spec_space, spec_split_first, space, split_first_pattern, Md, MdModel,
    ParsedResult,
};
use crate::parser::scan::{consume, lemma_find_first, spec_find, spec_starts_with};
use crate::parser::sentence::{spec_words, words};

verus! {

/// The heading content after one marker attempt: the line must start
/// with the marker, then one space; further leading whitespace is
/// trimmed off the content.
pub open spec fn spec_heading_body(line: Seq<char>, marker: Seq<char>) -> Option<Seq<char>> {
    if spec_starts_with(line, marker) {
        spec_space(line.skip(marker.len() as int))
    } else {
        None
    }
}

/// What the heading recognizer yields: the first of the markers `#`,
/// `##`, `###` that fits the first line gives the level, the rest of
/// the line is tokenized as the heading's inline content, and the text
/// after the line break is left unconsumed.
pub open spec fn spec_heading(s: Seq<char>) -> Option<(MdModel, Seq<char>)> {
    let line = spec_split_first(s, seq!['\n']).0;
    let rest = spec_split_first(s, seq!['\n']).1;
    if spec_heading_body(line, seq!['#']) is Some {
        Some((MdModel::Heading(1, spec_words(spec_heading_body(line, seq!['#']).unwrap())), rest))
    } else if spec_heading_body(line, seq!['#', '#']) is Some {
        Some(
            (
                MdModel::Heading(2, spec_words(spec_heading_body(line, seq!['#', '#']).unwrap())),
                rest,
            ),
        )
    } else if spec_heading_body(line, seq!['#', '#', '#']) is Some {
        Some(
            (
                MdModel::Heading(
                    3,
                    spec_words(spec_heading_body(line, seq!['#', '#', '#']).unwrap()),
                ),
                rest,
            ),
        )
    } else {
        None
    }
}

/// Headings recognize only levels one to three.
pub proof fn lemma_heading_levels(s: Seq<char>)
    ensures
        spec_heading(s) matches Some(pr) ==> pr.0 matches MdModel::Heading(lvl, ws) && 1 <= lvl
            <= 3,
{
}

/// A marker run of four or more `#` characters never matches: each
/// tried marker is followed by another `#`, never by the demanded
/// space.
pub proof fn lemma_four_marks_no_heading(s: Seq<char>)
    requires
        s.len() >= 4,
        s[0] == '#',
        s[1] == '#',
        s[2] == '#',
        s[3] == '#',
    ensures
        spec_heading(s) is None,
{
    lemma_find_first(s, seq!['\n']);
    let line = spec_split_first(s, seq!['\n']).0;
    match spec_find(s, seq!['\n']) {
        Some(n) => {
            assert(s.subrange(n, n + 1)[0] == s[n]);
            assert(n >= 4);
            assert(line[0] == '#' && line[1] == '#' && line[2] == '#' && line[3] == '#');
        },
        None => {
            assert(line == s);
        },
    }
    assert(line.skip(1)[0] == '#');
    assert(line.skip(2)[0] == '#');
    assert(line.skip(3)[0] == '#');
    assert(!spec_starts_with(line.skip(1), seq![' '])) by {
        assert(line.skip(1).subrange(0, 1)[0] == line.skip(1)[0]);
    }
    assert(!spec_starts_with(line.skip(2), seq![' '])) by {
        assert(line.skip(2).subrange(0, 1)[0] == line.skip(2)[0]);
    }
    assert(!spec_starts_with(line.skip(3), seq![' '])) by {
        assert(line.skip(3).subrange(0, 1)[0] == line.skip(3)[0]);
    }
}

/// The heading recognizer.
pub fn heading(texts: &str) -> (r: Option<ParsedResult<Md>>)
    ensures
        result_models(r, spec_heading(texts@)),
{
    proof {
        reveal_strlit("\n");
        reveal_strlit("#");
        reveal_strlit("##");
        reveal_strlit("###");
        assert("\n"@ =~= seq!['\n']);
        assert("#"@ =~= seq!['#']);
        assert("##"@ =~= seq!['#', '#']);
        assert("###"@ =~= seq!['#', '#', '#']);
    }
    let (text, rest) = split_first_pattern(texts, "\n");
    if let Some(t) = consume(text, "#") {
        if let Some(content) = space(t) {
            let tokens = words(content);
            return Some(ParsedResult::new(Md::Heading(1, tokens), rest));
        }
    }
    if let Some(t) = consume(text, "##") {
        if let Some(content) = space(t) {
            let tokens = words(content);
            return Some(ParsedResult::new(Md::Heading(2, tokens), rest));
        }
    }
    if let Some(t) = consume(text, "###") {
        if let Some(content) = space(t) {
            let tokens = words(content);
            return Some(ParsedResult::new(Md::Heading(3, tokens), rest));
        }
    }
    None
}

} // verus!
