//! The document tree, its spec-level model, and the block dispatcher.
//!
//! Each executable type has a mathematical model: `Word` is modelled by
//! `WordModel` (literal text as a `Seq<char>`, emphasis nodes owning the
//! models of their children), and so on up to `MdModel` for whole
//! document nodes.  The dispatcher `parse` is proved to return exactly
//! `spec_parse` of its input.

use vstd::prelude::*;

pub use crate::parser::scan::consume;

use crate::parser::heading::{heading, spec_heading};
use crate::parser::list::{lemma_list_consumes, list, spec_list};
use crate::parser::scan::{
    find_pat, is_suffix_of, lemma_empty_suffix, lemma_find_first, lemma_skip_suffix, spec_find,
    spec_starts_with, spec_trim_start, trim_start,
};
use crate::parser::sentence::{sentence, spec_sentence};
use crate::parser::table::{lemma_table_consumes, spec_table, table};

verus! {

/// One inline token: a literal run of text, or an emphasis node that
/// owns the tokens of its delimited span.
#[derive(Debug, PartialEq)]
pub enum Word {
    Normal(String),
    Italic(Words),
    Bold(Words),
    StrikeThough(Words),
    Underline(Words),
}

/// An ordered run of inline tokens, in reading order.
#[derive(Debug, PartialEq)]
pub struct Words(pub Vec<Word>);

/// One list item: its own inline content and its nested child items.
#[derive(Debug, PartialEq)]
pub struct Item(pub Words, pub Items);

/// One list level: an ordered sequence of items.
#[derive(Debug, PartialEq)]
pub struct Items(pub Vec<Item>);

/// One table row: the inline content of each cell.
#[derive(Debug, PartialEq)]
pub struct Record(pub Vec<Words>);

/// A table whose alignment row and data rows agree with the header on
/// the number of columns; the recognizer only constructs such tables.
#[derive(Debug, PartialEq)]
pub struct Table {
    pub header: Record,
    pub align: Vec<Align>,
    pub records: Vec<Record>,
}

/// A table column's horizontal alignment directive.
#[derive(Debug, PartialEq)]
pub enum Align {
    Right,
    Center,
    Left,
}

/// One document node.
#[derive(Debug, PartialEq)]
pub enum Md {
    Heading(usize, Words),
    Sentence(Words),
    Table(Box<Table>),
    List(Items),
}

/// A recognizer's result: the constructed token and the exact
/// unconsumed suffix of the input.
#[derive(Debug, PartialEq, Clone)]
pub struct ParsedResult<'a, T> {
    pub token: T,
    pub rest: &'a str,
}

impl<'a, T> ParsedResult<'a, T> {
    pub fn new(token: T, rest: &'a str) -> (r: ParsedResult<'a, T>)
        ensures
            r.token == token,
            r.rest == rest,
    {
        ParsedResult { token: token, rest: rest }
    }
}

/// Model of a `Word`: literal text as a character sequence, emphasis
/// nodes as the models of their children.
pub enum WordModel {
    Normal(Seq<char>),
    Italic(Seq<WordModel>),
    Bold(Seq<WordModel>),
    StrikeThough(Seq<WordModel>),
    Underline(Seq<WordModel>),
}

/// Model of an `Item`: inline content plus nested children.
pub struct ItemModel {
    pub words: Seq<WordModel>,
    pub children: Seq<ItemModel>,
}

/// Model of a `Table`: one cell model per column and row.
pub struct TableModel {
    pub header: Seq<Seq<WordModel>>,
    pub align: Seq<Align>,
    pub records: Seq<Seq<Seq<WordModel>>>,
}

/// Model of a document node.
pub enum MdModel {
    Heading(int, Seq<WordModel>),
    Sentence(Seq<WordModel>),
    Table(TableModel),
    List(Seq<ItemModel>),
}

/// The model of one inline token.
pub open spec fn word_model(w: Word) -> WordModel
    decreases w,
{
    match w {
        Word::Normal(s) => WordModel::Normal(s@),
        Word::Italic(ws) => WordModel::Italic(words_model(ws)),
        Word::Bold(ws) => WordModel::Bold(words_model(ws)),
        Word::StrikeThough(ws) => WordModel::StrikeThough(words_model(ws)),
        Word::Underline(ws) => WordModel::Underline(words_model(ws)),
    }
}

/// The model of a run of inline tokens.
pub open spec fn words_model(ws: Words) -> Seq<WordModel>
    decreases ws,
{
    word_seq_model(ws.0@)
}

/// The models of a sequence of inline tokens, in order.
pub open spec fn word_seq_model(s: Seq<Word>) -> Seq<WordModel>
    decreases s,
{
    if s.len() == 0 {
        Seq::empty()
    } else {
        seq![word_model(s[0])] + word_seq_model(s.drop_first())
    }
}

impl View for Word {
    type V = WordModel;

    open spec fn view(&self) -> WordModel {
        word_model(*self)
    }
}

impl View for Words {
    type V = Seq<WordModel>;

    open spec fn view(&self) -> Seq<WordModel> {
        words_model(*self)
    }
}

/// The model of one list item.
pub open spec fn item_model(it: Item) -> ItemModel
    decreases it,
{
    ItemModel { words: words_model(it.0), children: items_model(it.1) }
}

/// The model of one list level.
pub open spec fn items_model(its: Items) -> Seq<ItemModel>
    decreases its,
{
    item_seq_model(its.0@)
}

/// The models of a sequence of list items, in order.
pub open spec fn item_seq_model(s: Seq<Item>) -> Seq<ItemModel>
    decreases s,
{
    if s.len() == 0 {
        Seq::empty()
    } else {
        seq![item_model(s[0])] + item_seq_model(s.drop_first())
    }
}

impl View for Item {
    type V = ItemModel;

    open spec fn view(&self) -> ItemModel {
        item_model(*self)
    }
}

impl View for Items {
    type V = Seq<ItemModel>;

    open spec fn view(&self) -> Seq<ItemModel> {
        items_model(*self)
    }
}

/// The model of one table row: its cells' tokens.
pub open spec fn record_model(r: Record) -> Seq<Seq<WordModel>> {
    Seq::new(r.0@.len(), |i: int| words_model(r.0@[i]))
}

/// The models of a sequence of table rows, in order.
pub open spec fn record_seq_model(s: Seq<Record>) -> Seq<Seq<Seq<WordModel>>> {
    Seq::new(s.len(), |i: int| record_model(s[i]))
}

impl View for Record {
    type V = Seq<Seq<WordModel>>;

    open spec fn view(&self) -> Seq<Seq<WordModel>> {
        record_model(*self)
    }
}

impl View for Table {
    type V = TableModel;

    open spec fn view(&self) -> TableModel {
        TableModel {
            header: record_model(self.header),
            align: self.align@,
            records: record_seq_model(self.records@),
        }
    }
}

impl View for Md {
    type V = MdModel;

    open spec fn view(&self) -> MdModel {
        match self {
            Md::Heading(level, ws) => MdModel::Heading(*level as int, ws@),
            Md::Sentence(ws) => MdModel::Sentence(ws@),
            Md::Table(t) => MdModel::Table((**t)@),
            Md::List(items) => MdModel::List(items@),
        }
    }
}

/// How an `Option` of a recognizer result relates to its model: both
/// sides fail together, or succeed with the modelled token and the
/// same unconsumed rest.
pub open spec fn result_models<T: View>(
    r: Option<ParsedResult<T>>,
    s: Option<(<T as View>::V, Seq<char>)>,
) -> bool {
    match (r, s) {
        (Some(pr), Some((tok, rest))) => pr.token@ == tok && pr.rest@ == rest,
        (None, None) => true,
        _ => false,
    }
}

/// Appending one word extends the modelled sequence by its model.
pub proof fn lemma_word_seq_model_push(s: Seq<Word>, w: Word)
    ensures
        word_seq_model(s.push(w)) == word_seq_model(s) + seq![word_model(w)],
    decreases s.len(),
{
    reveal_with_fuel(word_seq_model, 3);
    let e = s.push(w);
    if s.len() == 0 {
        assert(e[0] == w);
        assert(e.drop_first() =~= Seq::<Word>::empty());
        assert(word_seq_model(e) =~= word_seq_model(s) + seq![word_model(w)]);
    } else {
        assert(e[0] == s[0]);
        assert(e.drop_first() =~= s.drop_first().push(w));
        lemma_word_seq_model_push(s.drop_first(), w);
        assert(word_seq_model(e) =~= word_seq_model(s) + seq![word_model(w)]);
    }
}

/// The model of a word sequence keeps its length and order.
pub proof fn lemma_word_seq_model_index(s: Seq<Word>)
    ensures
        word_seq_model(s).len() == s.len(),
        forall|i: int| 0 <= i < s.len() ==> word_seq_model(s)[i] == word_model(s[i]),
    decreases s.len(),
{
    if s.len() > 0 {
        lemma_word_seq_model_index(s.drop_first());
        assert forall|i: int| 0 <= i < s.len() implies word_seq_model(s)[i] == word_model(s[i]) by {
            if i >= 1 {
                assert(s.drop_first()[i - 1] == s[i]);
            }
        }
    }
}

/// The model of an item sequence keeps its length.
pub proof fn lemma_item_seq_model_len(s: Seq<Item>)
    ensures
        item_seq_model(s).len() == s.len(),
    decreases s.len(),
{
    if s.len() > 0 {
        lemma_item_seq_model_len(s.drop_first());
    }
}

/// The model of an item sequence keeps its order.
pub proof fn lemma_item_seq_model_index(s: Seq<Item>)
    ensures
        item_seq_model(s).len() == s.len(),
        forall|i: int| 0 <= i < s.len() ==> item_seq_model(s)[i] == item_model(s[i]),
    decreases s.len(),
{
    if s.len() > 0 {
        lemma_item_seq_model_index(s.drop_first());
        assert forall|i: int| 0 <= i < s.len() implies item_seq_model(s)[i] == item_model(s[i]) by {
            if i >= 1 {
                assert(s.drop_first()[i - 1] == s[i]);
            }
        }
    }
}

/// Appending one item extends the modelled sequence by its model.
pub proof fn lemma_item_seq_model_push(s: Seq<Item>, it: Item)
    ensures
        item_seq_model(s.push(it)) == item_seq_model(s) + seq![item_model(it)],
    decreases s.len(),
{
    reveal_with_fuel(item_seq_model, 3);
    let e = s.push(it);
    if s.len() == 0 {
        assert(e[0] == it);
        assert(e.drop_first() =~= Seq::<Item>::empty());
        assert(item_seq_model(e) =~= item_seq_model(s) + seq![item_model(it)]);
    } else {
        assert(e[0] == s[0]);
        assert(e.drop_first() =~= s.drop_first().push(it));
        lemma_item_seq_model_push(s.drop_first(), it);
        assert(item_seq_model(e) =~= item_seq_model(s) + seq![item_model(it)]);
    }
}

/// What `space` recognizes: one blank, then any further leading
/// whitespace is dropped.
pub open spec fn spec_space(s: Seq<char>) -> Option<Seq<char>> {
    if spec_starts_with(s, seq![' ']) {
        Some(spec_trim_start(s.skip(1)))
    } else {
        None
    }
}

/// Consumes one space, then all further leading whitespace.
pub fn space(text: &str) -> (r: Option<&str>)
    ensures
        r is Some <==> spec_space(text@) is Some,
        r is Some ==> r.unwrap()@ == spec_space(text@).unwrap(),
{
    proof {
        reveal_strlit(" ");
        assert(" "@ =~= seq![' ']);
    }
    match consume(text, " ") {
        Some(rest) => Some(trim_start(rest)),
        None => None,
    }
}

/// What `split_first_pattern` returns: the text before the first
/// occurrence of the pattern and the text after it, or the whole text
/// and an empty rest when the pattern does not occur.
pub open spec fn spec_split_first(s: Seq<char>, p: Seq<char>) -> (Seq<char>, Seq<char>) {
    match spec_find(s, p) {
        Some(n) => (s.take(n), s.skip(n + p.len())),
        None => (s, Seq::empty()),
    }
}

/// The rest of a split is a suffix, and a strict one on non-empty
/// text when the pattern is non-empty.
pub proof fn lemma_split_rest(s: Seq<char>, p: Seq<char>)
    requires
        p.len() >= 1,
    ensures
        is_suffix_of(spec_split_first(s, p).1, s),
        s.len() > 0 ==> spec_split_first(s, p).1.len() < s.len(),
{
    lemma_find_first(s, p);
    match spec_find(s, p) {
        Some(n) => {
            lemma_skip_suffix(s, n + p.len());
        },
        None => {
            lemma_empty_suffix(s);
        },
    }
}

/// One dispatcher step: the recognizers are tried in the fixed
/// priority table, list, heading, sentence, and the first success
/// wins.  The sentence recognizer accepts any non-empty text, so a
/// step fails only on empty input.
pub open spec fn spec_block(s: Seq<char>) -> Option<(MdModel, Seq<char>)> {
    if spec_table(s) is Some {
        spec_table(s)
    } else if spec_list(s) is Some {
        spec_list(s)
    } else if spec_heading(s) is Some {
        spec_heading(s)
    } else {
        spec_sentence(s)
    }
}

/// A dispatcher step succeeds exactly on non-empty input, consumes at
/// least one character, and leaves a suffix of its input.
pub proof fn lemma_block_consumes(s: Seq<char>)
    ensures
        spec_block(s) is Some <==> s.len() > 0,
        spec_block(s) matches Some(pr) ==> pr.1.len() < s.len() && is_suffix_of(pr.1, s),
{
    lemma_table_consumes(s);
    lemma_list_consumes(s);
    lemma_split_rest(s, seq!['\n']);
    if s.len() == 0 {
        lemma_find_first(s, seq!['\n']);
    }
}

/// The model of a whole document: dispatcher steps are taken until
/// the input is exhausted.
pub open spec fn spec_parse(s: Seq<char>) -> Seq<MdModel>
    decreases s.len(),
    via spec_parse_decreases
{
    match spec_block(s) {
        None => Seq::empty(),
        Some((m, rest)) => seq![m] + spec_parse(rest),
    }
}

#[via_fn]
proof fn spec_parse_decreases(s: Seq<char>) {
    lemma_block_consumes(s);
}

/// The models of a sequence of document nodes, in order.
pub open spec fn md_seq_model(s: Seq<Md>) -> Seq<MdModel>
    decreases s,
{
    if s.len() == 0 {
        Seq::empty()
    } else {
        seq![s[0]@] + md_seq_model(s.drop_first())
    }
}

/// Appending one node extends the modelled sequence by its model.
pub proof fn lemma_md_seq_model_push(s: Seq<Md>, m: Md)
    ensures
        md_seq_model(s.push(m)) == md_seq_model(s) + seq![m@],
    decreases s.len(),
{
    reveal_with_fuel(md_seq_model, 3);
    let e = s.push(m);
    if s.len() == 0 {
        assert(e[0] == m);
        assert(e.drop_first() =~= Seq::<Md>::empty());
        assert(md_seq_model(e) =~= md_seq_model(s) + seq![m@]);
    } else {
        assert(e[0] == s[0]);
        assert(e.drop_first() =~= s.drop_first().push(m));
        lemma_md_seq_model_push(s.drop_first(), m);
        assert(md_seq_model(e) =~= md_seq_model(s) + seq![m@]);
    }
}

/// The model of a node sequence keeps its length and order.
pub proof fn lemma_md_seq_model_index(s: Seq<Md>)
    ensures
        md_seq_model(s).len() == s.len(),
        forall|i: int| 0 <= i < s.len() ==> md_seq_model(s)[i] == s[i]@,
    decreases s.len(),
{
    if s.len() > 0 {
        lemma_md_seq_model_index(s.drop_first());
        assert forall|i: int| 0 <= i < s.len() implies md_seq_model(s)[i] == s[i]@ by {
            if i >= 1 {
                assert(s.drop_first()[i - 1] == s[i]);
            }
        }
    }
}

/// The block dispatcher: recognizers are applied in fixed priority to
/// the remaining text until no recognizer matches, which happens
/// exactly when the text is exhausted.
pub fn parse(text: &str) -> (r: Vec<Md>)
    ensures
        md_seq_model(r@) == spec_parse(text@),
{
    let mut md: Vec<Md> = Vec::new();
    let mut cur: &str = text;
    proof {
        assert(md_seq_model(md@) + spec_parse(cur@) =~= spec_parse(text@));
    }
    loop
        invariant_except_break
            spec_parse(text@) == md_seq_model(md@) + spec_parse(cur@),
        ensures
            md_seq_model(md@) == spec_parse(text@),
        decreases cur@.len(),
    {
        let step = match table(cur) {
            Some(r) => Some(r),
            None => match list(cur) {
                Some(r) => Some(r),
                None => match heading(cur) {
                    Some(r) => Some(r),
                    None => sentence(cur),
                },
            },
        };
        match step {
            None => {
                proof {
                    assert(md_seq_model(md@) + spec_parse(cur@) =~= md_seq_model(md@));
                }
                break ;
            },
            Some(pr) => {
                proof {
                    lemma_block_consumes(cur@);
                    lemma_md_seq_model_push(md@, pr.token);
                    assert(md_seq_model(md@.push(pr.token)) + spec_parse(pr.rest@)
                        =~= md_seq_model(md@) + spec_parse(cur@));
                }
                md.push(pr.token);
                cur = pr.rest;
            },
        }
    }
    md
}

/// The source segment each dispatcher step consumed, in order.
pub open spec fn spec_segments(s: Seq<char>) -> Seq<Seq<char>>
    decreases s.len(),
    via spec_segments_decreases
{
    match spec_block(s) {
        None => Seq::empty(),
        Some((m, rest)) => seq![s.take(s.len() - rest.len())] + spec_segments(rest),
    }
}

#[via_fn]
proof fn spec_segments_decreases(s: Seq<char>) {
    lemma_block_consumes(s);
}

/// The concatenation of a sequence of segments.
pub open spec fn concat_segs(segs: Seq<Seq<char>>) -> Seq<char>
    decreases segs.len(),
{
    if segs.len() == 0 {
        Seq::empty()
    } else {
        segs[0] + concat_segs(segs.drop_first())
    }
}

/// Parsing accounts for the whole input, each part exactly once: the
/// source segments the dispatcher steps consumed, concatenated back
/// in order, are the input, and there is one document node per
/// segment.
pub proof fn lemma_parse_covers_input(s: Seq<char>)
    ensures
        concat_segs(spec_segments(s)) == s,
        spec_segments(s).len() == spec_parse(s).len(),
    decreases s.len(),
{
    lemma_block_consumes(s);
    match spec_block(s) {
        None => {
            assert(concat_segs(spec_segments(s)) =~= s);
        },
        Some((m, rest)) => {
            lemma_parse_covers_input(rest);
            let seg = s.take(s.len() - rest.len());
            assert(spec_segments(s).drop_first() =~= spec_segments(rest));
            assert(spec_parse(s).drop_first() =~= spec_parse(rest));
            assert(seg + rest =~= s);
            assert(concat_segs(spec_segments(s)) =~= seg + concat_segs(spec_segments(rest)));
        },
    }
}

/// Parsing is deterministic: equal inputs give equal document trees,
/// with no ordering nondeterminism.
pub proof fn lemma_parse_deterministic(s1: Seq<char>, s2: Seq<char>)
    requires
        s1 == s2,
    ensures
        spec_parse(s1) == spec_parse(s2),
{
}

/// Splits the text at the first occurrence of the pattern.
pub fn split_first_pattern<'a>(texts: &'a str, pattern: &str) -> (r: (&'a str, &'a str))
    ensures
        r.0@ == spec_split_first(texts@, pattern@).0,
        r.1@ == spec_split_first(texts@, pattern@).1,
{
    proof {
        lemma_find_first(texts@, pattern@);
    }
    match find_pat(texts, pattern) {
        Some(n) => {
            let len = pattern.unicode_len();
            let m = texts.unicode_len();
            let head = texts.substring_char(0, n);
            let tail = texts.substring_char(n + len, m);
            proof {
                assert(head@ =~= texts@.take(n as int));
                assert(tail@ =~= texts@.skip(n + len));
            }
            (head, tail)
        },
        None => {
            proof {
                reveal_strlit("");
                assert(""@ =~= Seq::<char>::empty());
            }
            (texts, "")
        },
    }
}

} // verus!
