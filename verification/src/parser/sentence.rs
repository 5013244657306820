//! The inline word tokenizer and the sentence recognizer.
//!
//! A line is cut into words by repeatedly taking, at the current
//! position, the first emphasis match in the fixed priority order
//! underline, strikethrough, bold, italic, or else a literal run.  An
//! emphasis match needs its delimiter as a prefix, a later reoccurrence
//! of the delimiter, and a non-empty span between the two; the span is
//! itself tokenized recursively.  Unmatched or empty delimiters fall
//! through to the literal run, so tokenizing never fails.

use vstd::prelude::*;

use crate::parser::parser::{
    lemma_word_seq_model_push, result_models, spec_split_first, split_first_pattern,
    word_seq_model, Md, MdModel, ParsedResult, Word, WordModel, Words,
};
use crate::parser::scan::{
    consume, find_pat, lemma_find_first, lemma_starts_with_is_match_at_zero, match_at, spec_find,
    spec_starts_with,
};

verus! {

/// The italic delimiter `*`.
pub open spec fn pat_italic() -> Seq<char> {
    seq!['*']
}

/// The bold delimiter `**`.
pub open spec fn pat_bold() -> Seq<char> {
    seq!['*', '*']
}

/// The underline delimiter `__`.
pub open spec fn pat_underline() -> Seq<char> {
    seq!['_', '_']
}

/// The strikethrough delimiter `~~`.
pub open spec fn pat_strike() -> Seq<char> {
    seq!['~', '~']
}

/// The four emphasis kinds.
pub enum EmKind {
    Italic,
    Bold,
    StrikeThough,
    Underline,
}

/// The delimiter of an emphasis kind.
pub open spec fn em_pat(k: EmKind) -> Seq<char> {
    match k {
        EmKind::Italic => pat_italic(),
        EmKind::Bold => pat_bold(),
        EmKind::StrikeThough => pat_strike(),
        EmKind::Underline => pat_underline(),
    }
}

/// The emphasis node of a kind over already tokenized children.
pub open spec fn apply_emphasis(k: EmKind, ws: Seq<WordModel>) -> WordModel {
    match k {
        EmKind::Italic => WordModel::Italic(ws),
        EmKind::Bold => WordModel::Bold(ws),
        EmKind::StrikeThough => WordModel::StrikeThough(ws),
        EmKind::Underline => WordModel::Underline(ws),
    }
}

/// What one emphasis attempt yields: the text must begin with the
/// delimiter, the delimiter must reoccur, and the span between the two
/// occurrences must be non-empty.  The result is the raw span and the
/// text after the closing delimiter.
pub open spec fn spec_emphasis(s: Seq<char>, p: Seq<char>) -> Option<(Seq<char>, Seq<char>)> {
    if spec_starts_with(s, p) {
        let t = s.skip(p.len() as int);
        match spec_find(t, p) {
            Some(i) => if i == 0 {
                None
            } else {
                Some((t.take(i), t.skip(i + p.len())))
            },
            None => None,
        }
    } else {
        None
    }
}

/// The first of the four delimiters that is a prefix of `s`, in the
/// fixed order strikethrough, underline, bold, italic.
pub open spec fn normal_prefix(s: Seq<char>) -> Option<Seq<char>> {
    if spec_starts_with(s, pat_strike()) {
        Some(pat_strike())
    } else if spec_starts_with(s, pat_underline()) {
        Some(pat_underline())
    } else if spec_starts_with(s, pat_bold()) {
        Some(pat_bold())
    } else if spec_starts_with(s, pat_italic()) {
        Some(pat_italic())
    } else {
        None
    }
}

/// The smaller of two optional positions.
pub open spec fn min_opt(a: Option<int>, b: Option<int>) -> Option<int> {
    match (a, b) {
        (Some(x), Some(y)) => if x <= y {
            Some(x)
        } else {
            Some(y)
        },
        (Some(x), None) => Some(x),
        (None, y) => y,
    }
}

/// The position of the nearest occurrence of any of the four
/// delimiters in `s`.
pub open spec fn nearest_delim(s: Seq<char>) -> Option<int> {
    min_opt(
        min_opt(spec_find(s, pat_strike()), spec_find(s, pat_underline())),
        min_opt(spec_find(s, pat_bold()), spec_find(s, pat_italic())),
    )
}

/// What the literal fallback yields: a delimiter standing at the front
/// is emitted alone, otherwise the run up to the nearest delimiter, or
/// the whole text when no delimiter occurs.  The fallback never fails.
pub open spec fn spec_normal(s: Seq<char>) -> (Seq<char>, Seq<char>) {
    match normal_prefix(s) {
        Some(p) => (p, s.skip(p.len() as int)),
        None => match nearest_delim(s) {
            Some(n) => (s.take(n), s.skip(n)),
            None => (s, Seq::empty()),
        },
    }
}

/// How one token is cut from the front of `s`: an emphasis node with
/// its raw span and rest, or a literal run with its rest.
pub enum InlineCut {
    Emphasis(EmKind, Seq<char>, Seq<char>),
    Literal(Seq<char>, Seq<char>),
}

/// Cuts one token from the front of `s`: the first emphasis match in
/// the priority order underline, strikethrough, bold, italic, or else
/// the literal fallback.
pub open spec fn word_cut(s: Seq<char>) -> InlineCut {
    if let Some((span, rest)) = spec_emphasis(s, pat_underline()) {
        InlineCut::Emphasis(EmKind::Underline, span, rest)
    } else if let Some((span, rest)) = spec_emphasis(s, pat_strike()) {
        InlineCut::Emphasis(EmKind::StrikeThough, span, rest)
    } else if let Some((span, rest)) = spec_emphasis(s, pat_bold()) {
        InlineCut::Emphasis(EmKind::Bold, span, rest)
    } else if let Some((span, rest)) = spec_emphasis(s, pat_italic()) {
        InlineCut::Emphasis(EmKind::Italic, span, rest)
    } else {
        let (t, rest) = spec_normal(s);
        InlineCut::Literal(t, rest)
    }
}

/// The unconsumed rest after cutting one token from `s`.
pub open spec fn cut_rest(s: Seq<char>) -> Seq<char> {
    match word_cut(s) {
        InlineCut::Emphasis(k, span, rest) => rest,
        InlineCut::Literal(t, rest) => rest,
    }
}

/// An emphasis match removes both delimiters: its span and its rest
/// are strictly shorter than the input.
pub proof fn lemma_emphasis_shrinks(s: Seq<char>, p: Seq<char>)
    requires
        p.len() >= 1,
    ensures
        match spec_emphasis(s, p) {
            Some((span, rest)) => 1 <= span.len() && span.len() < s.len() && rest.len() < s.len(),
            None => true,
        },
{
    if spec_starts_with(s, p) {
        let t = s.skip(p.len() as int);
        lemma_find_first(t, p);
    }
}

/// Cutting one token from a non-empty text consumes at least one
/// character, and an emphasis span is strictly shorter than the text.
pub proof fn lemma_word_cut_shrinks(s: Seq<char>)
    ensures
        match word_cut(s) {
            InlineCut::Emphasis(k, span, rest) => 1 <= span.len() && span.len() < s.len()
                && rest.len() < s.len(),
            InlineCut::Literal(t, rest) => s.len() > 0 ==> rest.len() < s.len(),
        },
{
    lemma_emphasis_shrinks(s, pat_underline());
    lemma_emphasis_shrinks(s, pat_strike());
    lemma_emphasis_shrinks(s, pat_bold());
    lemma_emphasis_shrinks(s, pat_italic());
    if word_cut(s) is Literal && s.len() > 0 && normal_prefix(s) is None {
        lemma_find_first(s, pat_strike());
        lemma_find_first(s, pat_underline());
        lemma_find_first(s, pat_bold());
        lemma_find_first(s, pat_italic());
        lemma_starts_with_is_match_at_zero(s, pat_strike());
        lemma_starts_with_is_match_at_zero(s, pat_underline());
        lemma_starts_with_is_match_at_zero(s, pat_bold());
        lemma_starts_with_is_match_at_zero(s, pat_italic());
    }
}

/// The model of one word cut from the front of `s`, with the rest of
/// the text: the emphasis node over its recursively tokenized span, or
/// the literal run.
pub open spec fn spec_word(s: Seq<char>) -> (WordModel, Seq<char>)
    decreases s.len(), 0int,
    via spec_word_decreases
{
    match word_cut(s) {
        InlineCut::Emphasis(k, span, rest) => (apply_emphasis(k, spec_words(span)), rest),
        InlineCut::Literal(t, rest) => (WordModel::Normal(t), rest),
    }
}

#[via_fn]
proof fn spec_word_decreases(s: Seq<char>) {
    lemma_word_cut_shrinks(s);
}

/// The model of a whole line tokenized into words: an empty line is
/// one empty literal, otherwise one word is cut and the rest follows,
/// until the rest is empty.
pub open spec fn spec_words(s: Seq<char>) -> Seq<WordModel>
    decreases s.len(), 1int,
    via spec_words_decreases
{
    if s.len() == 0 {
        seq![WordModel::Normal(Seq::empty())]
    } else {
        let w = spec_word(s).0;
        let rest = cut_rest(s);
        if rest.len() == 0 {
            seq![w]
        } else {
            seq![w] + spec_words(rest)
        }
    }
}

#[via_fn]
proof fn spec_words_decreases(s: Seq<char>) {
    if s.len() > 0 {
        lemma_word_cut_shrinks(s);
    }
}

/// For a well-formed delimiter pair, nesting is structurally
/// faithful: a delimiter of any kind, a non-empty body whose first
/// closing occurrence stands right after it, and a tail tokenize to
/// the emphasis node of that kind over the body's own recursively
/// tokenized words, with the tail left unconsumed.
pub proof fn lemma_delimiter_pair_nests(k: EmKind, body: Seq<char>, tail: Seq<char>)
    requires
        body.len() >= 1,
        spec_find(body + em_pat(k) + tail, em_pat(k)) == Some(body.len() as int),
    ensures
        spec_word(em_pat(k) + body + em_pat(k) + tail) == (
            apply_emphasis(k, spec_words(body)),
            tail,
        ),
{
    let p = em_pat(k);
    let s = p + body + p + tail;
    let t = body + p + tail;
    assert(s.skip(p.len() as int) =~= t);
    assert(s.subrange(0, p.len() as int) =~= p);
    assert(spec_starts_with(s, p));
    assert(t.take(body.len() as int) =~= body);
    assert(t.skip(body.len() + p.len() as int) =~= tail);
    assert(spec_emphasis(s, p) == Some((body, tail)));
    lemma_find_first(t, p);
    match k {
        EmKind::Underline => {
        },
        EmKind::StrikeThough => {
            assert(s[0] == '~');
            assert(!spec_starts_with(s, pat_underline())) by {
                if spec_starts_with(s, pat_underline()) {
                    assert(s.subrange(0, 2)[0] == s[0]);
                }
            }
        },
        EmKind::Bold => {
            assert(s[0] == '*');
            assert(!spec_starts_with(s, pat_underline())) by {
                if spec_starts_with(s, pat_underline()) {
                    assert(s.subrange(0, 2)[0] == s[0]);
                }
            }
            assert(!spec_starts_with(s, pat_strike())) by {
                if spec_starts_with(s, pat_strike()) {
                    assert(s.subrange(0, 2)[0] == s[0]);
                }
            }
        },
        EmKind::Italic => {
            assert(s[0] == '*');
            assert(s[1] == body[0]);
            assert(!match_at(t, p, 0));
            assert(body[0] != '*') by {
                if body[0] == '*' {
                    assert(t[0] == body[0]);
                    assert(t.subrange(0, 1) =~= p);
                }
            }
            assert(!spec_starts_with(s, pat_underline())) by {
                if spec_starts_with(s, pat_underline()) {
                    assert(s.subrange(0, 2)[0] == s[0]);
                }
            }
            assert(!spec_starts_with(s, pat_strike())) by {
                if spec_starts_with(s, pat_strike()) {
                    assert(s.subrange(0, 2)[0] == s[0]);
                }
            }
            assert(!spec_starts_with(s, pat_bold())) by {
                if spec_starts_with(s, pat_bold()) {
                    assert(s.subrange(0, 2)[1] == s[1]);
                }
            }
        },
    }
}

/// A delimiter with no closing partner in the remaining text degrades
/// to a literal token equal to the delimiter itself, and scanning
/// continues right after it: it is never dropped and never an error.
pub proof fn lemma_unmatched_delimiter(s: Seq<char>)
    requires
        normal_prefix(s) is Some,
        spec_find(
            s.skip(normal_prefix(s).unwrap().len() as int),
            normal_prefix(s).unwrap(),
        ) is None,
    ensures
        spec_word(s) == (
            WordModel::Normal(normal_prefix(s).unwrap()),
            s.skip(normal_prefix(s).unwrap().len() as int),
        ),
{
    let p = normal_prefix(s).unwrap();
    if spec_starts_with(s, pat_strike()) {
        assert(s.subrange(0, 2)[0] == s[0]);
        assert(s[0] == '~');
        assert(!spec_starts_with(s, pat_underline())) by {
            if spec_starts_with(s, pat_underline()) {
                assert(s.subrange(0, 2)[0] == s[0]);
            }
        }
        assert(!spec_starts_with(s, pat_bold())) by {
            if spec_starts_with(s, pat_bold()) {
                assert(s.subrange(0, 2)[0] == s[0]);
            }
        }
        assert(!spec_starts_with(s, pat_italic())) by {
            if spec_starts_with(s, pat_italic()) {
                assert(s.subrange(0, 1)[0] == s[0]);
            }
        }
    } else if spec_starts_with(s, pat_underline()) {
        assert(s.subrange(0, 2)[0] == s[0]);
        assert(s[0] == '_');
        assert(!spec_starts_with(s, pat_bold())) by {
            if spec_starts_with(s, pat_bold()) {
                assert(s.subrange(0, 2)[0] == s[0]);
            }
        }
        assert(!spec_starts_with(s, pat_italic())) by {
            if spec_starts_with(s, pat_italic()) {
                assert(s.subrange(0, 1)[0] == s[0]);
            }
        }
    } else if spec_starts_with(s, pat_bold()) {
        assert(s.subrange(0, 2)[0] == s[0]);
        assert(s.subrange(0, 2)[1] == s[1]);
        assert(s[0] == '*' && s[1] == '*');
        assert(s.subrange(0, 1) =~= pat_italic());
        assert(spec_starts_with(s, pat_italic()));
        let t1 = s.skip(1);
        assert(t1[0] == s[1]);
        assert(match_at(t1, pat_italic(), 0)) by {
            assert(t1.subrange(0, 1) =~= pat_italic());
        }
        lemma_find_first(t1, pat_italic());
        assert(spec_find(t1, pat_italic()) == Some(0int));
    } else {
        assert(spec_starts_with(s, pat_italic()));
        assert(s.subrange(0, 1)[0] == s[0]);
        assert(s[0] == '*');
    }
}

/// What the sentence recognizer yields: nothing on empty input, else
/// one line tokenized into words, with the text after the line break.
pub open spec fn spec_sentence(s: Seq<char>) -> Option<(MdModel, Seq<char>)> {
    if s.len() == 0 {
        None
    } else {
        let (line, rest) = spec_split_first(s, seq!['\n']);
        Some((MdModel::Sentence(spec_words(line)), rest))
    }
}

/// One emphasis attempt: the tokenized span and the text after the
/// closing delimiter, exactly when `spec_emphasis` matches.
fn emphasis<'a>(text: &'a str, pattern: &'a str) -> (r: Option<(Words, &'a str)>)
    ensures
        match (r, spec_emphasis(text@, pattern@)) {
            (Some(pr), Some(se)) => pr.0@ == spec_words(se.0) && pr.1@ == se.1,
            (None, None) => true,
            _ => false,
        },
    decreases text@.len(), 0int,
{
    let t = match consume(text, pattern) {
        Some(t) => t,
        None => {
            return None;
        },
    };
    let index = match find_pat(t, pattern) {
        Some(i) => i,
        None => {
            return None;
        },
    };
    if index == 0 {
        return None;
    }
    proof {
        lemma_find_first(t@, pattern@);
    }
    let len = pattern.unicode_len();
    let tlen = t.unicode_len();
    let span = t.substring_char(0, index);
    let rest = t.substring_char(index + len, tlen);
    proof {
        assert(span@ =~= t@.take(index as int));
        assert(rest@ =~= t@.skip(index + len));
        assert(span@.len() < text@.len());
    }
    let tokens = words(span);
    Some((tokens, rest))
}

/// The italic recognizer: an emphasis attempt with `*`.
fn italic(text: &str) -> (r: Option<ParsedResult<Word>>)
    ensures
        result_models(r, spec_emphasis_word(text@, EmKind::Italic)),
    decreases text@.len(), 1int,
{
    proof {
        reveal_strlit("*");
        assert("*"@ =~= pat_italic());
    }
    match emphasis(text, "*") {
        Some((tokens, rest)) => Some(ParsedResult::new(Word::Italic(tokens), rest)),
        None => None,
    }
}

/// The bold recognizer: an emphasis attempt with `**`.
fn bold(text: &str) -> (r: Option<ParsedResult<Word>>)
    ensures
        result_models(r, spec_emphasis_word(text@, EmKind::Bold)),
    decreases text@.len(), 1int,
{
    proof {
        reveal_strlit("**");
        assert("**"@ =~= pat_bold());
    }
    match emphasis(text, "**") {
        Some((tokens, rest)) => Some(ParsedResult::new(Word::Bold(tokens), rest)),
        None => None,
    }
}

/// The underline recognizer: an emphasis attempt with `__`.
fn underline(text: &str) -> (r: Option<ParsedResult<Word>>)
    ensures
        result_models(r, spec_emphasis_word(text@, EmKind::Underline)),
    decreases text@.len(), 1int,
{
    proof {
        reveal_strlit("__");
        assert("__"@ =~= pat_underline());
    }
    match emphasis(text, "__") {
        Some((tokens, rest)) => Some(ParsedResult::new(Word::Underline(tokens), rest)),
        None => None,
    }
}

/// The strikethrough recognizer: an emphasis attempt with `~~`.
fn strike_though(text: &str) -> (r: Option<ParsedResult<Word>>)
    ensures
        result_models(r, spec_emphasis_word(text@, EmKind::StrikeThough)),
    decreases text@.len(), 1int,
{
    proof {
        reveal_strlit("~~");
        assert("~~"@ =~= pat_strike());
    }
    match emphasis(text, "~~") {
        Some((tokens, rest)) => Some(ParsedResult::new(Word::StrikeThough(tokens), rest)),
        None => None,
    }
}

/// The model of one emphasis recognizer's result for a kind.
pub open spec fn spec_emphasis_word(s: Seq<char>, k: EmKind) -> Option<(WordModel, Seq<char>)> {
    match spec_emphasis(s, em_pat(k)) {
        Some((span, rest)) => Some((apply_emphasis(k, spec_words(span)), rest)),
        None => None,
    }
}

/// The smaller of two optional positions, agreeing with `min_opt`.
fn min_position(a: Option<usize>, b: Option<usize>) -> (r: Option<usize>)
    ensures
        as_int_pos(r) == min_opt(as_int_pos(a), as_int_pos(b)),
{
    match (a, b) {
        (Some(x), Some(y)) => if x <= y {
            Some(x)
        } else {
            Some(y)
        },
        (Some(x), None) => Some(x),
        (None, y) => y,
    }
}

/// An optional machine-word position as an optional integer.
pub open spec fn as_int_pos(o: Option<usize>) -> Option<int> {
    match o {
        Some(x) => Some(x as int),
        None => None,
    }
}

/// The literal fallback: always succeeds, with the run `spec_normal`
/// describes.
fn normal(text: &str) -> (r: Option<ParsedResult<Word>>)
    ensures
        r is Some,
        r.unwrap().token@ == WordModel::Normal(spec_normal(text@).0),
        r.unwrap().rest@ == spec_normal(text@).1,
{
    proof {
        reveal_strlit("~~");
        reveal_strlit("__");
        reveal_strlit("**");
        reveal_strlit("*");
        assert("~~"@ =~= pat_strike());
        assert("__"@ =~= pat_underline());
        assert("**"@ =~= pat_bold());
        assert("*"@ =~= pat_italic());
    }
    if let Some(rest) = consume(text, "~~") {
        return Some(ParsedResult::new(Word::Normal("~~".to_string()), rest));
    }
    if let Some(rest) = consume(text, "__") {
        return Some(ParsedResult::new(Word::Normal("__".to_string()), rest));
    }
    if let Some(rest) = consume(text, "**") {
        return Some(ParsedResult::new(Word::Normal("**".to_string()), rest));
    }
    if let Some(rest) = consume(text, "*") {
        return Some(ParsedResult::new(Word::Normal("*".to_string()), rest));
    }
    let near = min_position(
        min_position(find_pat(text, "~~"), find_pat(text, "__")),
        min_position(find_pat(text, "**"), find_pat(text, "*")),
    );
    match near {
        Some(n) => {
            proof {
                lemma_find_first(text@, pat_strike());
                lemma_find_first(text@, pat_underline());
                lemma_find_first(text@, pat_bold());
                lemma_find_first(text@, pat_italic());
            }
            let m = text.unicode_len();
            let run = text.substring_char(0, n);
            let rest = text.substring_char(n, m);
            proof {
                assert(run@ =~= text@.take(n as int));
                assert(rest@ =~= text@.skip(n as int));
            }
            Some(ParsedResult::new(Word::Normal(run.to_string()), rest))
        },
        None => {
            proof {
                reveal_strlit("");
                assert(""@ =~= Seq::<char>::empty());
            }
            Some(ParsedResult::new(Word::Normal(text.to_string()), ""))
        },
    }
}

/// Cuts one word from the front of the text: the first emphasis match
/// in priority order, or the literal fallback, which always matches.
fn word(text: &str) -> (r: ParsedResult<Word>)
    ensures
        r.token@ == spec_word(text@).0,
        r.rest@ == spec_word(text@).1,
    decreases text@.len(), 2int,
{
    if let Some(r) = underline(text) {
        return r;
    }
    if let Some(r) = strike_though(text) {
        return r;
    }
    if let Some(r) = bold(text) {
        return r;
    }
    if let Some(r) = italic(text) {
        return r;
    }
    match normal(text) {
        Some(r) => r,
        None => {
            // The literal fallback never declines; this arm is the
            // defensive dead branch and is proved unreachable.
            ParsedResult::new(Word::Normal(String::new()), text)
        },
    }
}

/// Tokenizes a whole line into words; never fails.  An empty line
/// yields one empty literal.
pub fn words(text: &str) -> (r: Words)
    ensures
        r@ == spec_words(text@),
    decreases text@.len(), 3int,
{
    if text.is_empty() {
        let mut ws: Vec<Word> = Vec::new();
        ws.push(Word::Normal(String::new()));
        proof {
            reveal_with_fuel(word_seq_model, 2);
            assert(ws@.drop_first() =~= Seq::<Word>::empty());
            assert(word_seq_model(ws@) =~= spec_words(text@));
        }
        return Words(ws);
    }
    let mut tokens: Vec<Word> = Vec::new();
    let mut cur: &str = text;
    proof {
        assert(word_seq_model(tokens@) + spec_words(cur@) =~= spec_words(text@));
    }
    while !cur.is_empty()
        invariant
            cur@.len() <= text@.len(),
            cur@.len() > 0 ==> spec_words(text@) == word_seq_model(tokens@) + spec_words(cur@),
            cur@.len() == 0 ==> spec_words(text@) == word_seq_model(tokens@),
        decreases cur@.len(),
    {
        let result = word(cur);
        proof {
            lemma_word_cut_shrinks(cur@);
            lemma_word_seq_model_push(tokens@, result.token);
            let w = spec_word(cur@).0;
            let rest = cut_rest(cur@);
            if rest.len() == 0 {
                assert(word_seq_model(tokens@.push(result.token)) =~= word_seq_model(tokens@)
                    + seq![w]);
                assert(word_seq_model(tokens@) + spec_words(cur@) =~= word_seq_model(
                    tokens@.push(result.token),
                ));
            } else {
                assert(word_seq_model(tokens@) + spec_words(cur@) =~= word_seq_model(
                    tokens@.push(result.token),
                ) + spec_words(rest));
            }
        }
        tokens.push(result.token);
        cur = result.rest;
    }
    Words(tokens)
}

/// The sentence recognizer: the catch-all that takes one line of any
/// non-empty text as inline content.
pub fn sentence(texts: &str) -> (r: Option<ParsedResult<Md>>)
    ensures
        result_models(r, spec_sentence(texts@)),
{
    if texts.is_empty() {
        return None;
    }
    proof {
        reveal_strlit("\n");
        assert("\n"@ =~= seq!['\n']);
    }
    let (text, rest) = split_first_pattern(texts, "\n");
    let tokens = words(text);
    Some(ParsedResult::new(Md::Sentence(tokens), rest))
}

} // verus!
