//! Renders the document tree to HTML.
//!
//! Every executable renderer is proved to produce exactly the
//! character sequence its spec-level counterpart describes: emphasis
//! nodes wrap their children in the matching tag pair, tables build a
//! header row and one aligned row per record, list items nest a child
//! list when they have children, and document nodes are joined by
//! line breaks.

use vstd::prelude::*;

use crate::parser::parser::{
    lemma_item_seq_model_index, lemma_md_seq_model_index, md_seq_model, record_model,
    record_seq_model, words_model, Align, Item, ItemModel, Items, Md, MdModel, Record, Table,
    TableModel, Word, WordModel, Words,
};

verus! {

/// The HTML of one inline token.
pub open spec fn spec_word_html(w: WordModel) -> Seq<char>
    decreases w,
{
    match w {
        WordModel::Normal(s) => s,
        WordModel::Italic(ws) => seq!['<', 'i', '>'] + spec_words_html(ws) + seq![
            '<',
            '/',
            'i',
            '>',
        ],
        WordModel::Bold(ws) => seq!['<', 'b', '>'] + spec_words_html(ws) + seq![
            '<',
            '/',
            'b',
            '>',
        ],
        WordModel::StrikeThough(ws) => seq!['<', 's', '>'] + spec_words_html(ws) + seq![
            '<',
            '/',
            's',
            '>',
        ],
        WordModel::Underline(ws) => seq!['<', 'u', '>'] + spec_words_html(ws) + seq![
            '<',
            '/',
            'u',
            '>',
        ],
    }
}

/// The HTML of a run of inline tokens, concatenated in order.
pub open spec fn spec_words_html(ws: Seq<WordModel>) -> Seq<char>
    decreases ws,
{
    if ws.len() == 0 {
        Seq::empty()
    } else {
        spec_word_html(ws[0]) + spec_words_html(ws.drop_first())
    }
}

/// The HTML of the header row's cells: each wrapped in `<th>`.
pub open spec fn spec_header_html(cells: Seq<Seq<WordModel>>) -> Seq<char>
    decreases cells,
{
    if cells.len() == 0 {
        Seq::empty()
    } else {
        seq!['<', 't', 'h', '>'] + spec_words_html(cells[0]) + seq!['<', '/', 't', 'h', '>']
            + spec_header_html(cells.drop_first())
    }
}

/// The name of an alignment directive.
pub open spec fn spec_align_name(a: Align) -> Seq<char> {
    match a {
        Align::Right => seq!['r', 'i', 'g', 'h', 't'],
        Align::Center => seq!['c', 'e', 'n', 't', 'e', 'r'],
        Align::Left => seq!['l', 'e', 'f', 't'],
    }
}

/// The HTML of one data row: cells paired with alignment directives,
/// stopping at the shorter of the two.
pub open spec fn spec_record_html(cells: Seq<Seq<WordModel>>, aligns: Seq<Align>) -> Seq<char>
    decreases cells,
{
    if cells.len() == 0 || aligns.len() == 0 {
        Seq::empty()
    } else {
        seq!['<', 't', 'd', ' ', 'a', 'l', 'i', 'g', 'n', '=', '"'] + spec_align_name(aligns[0])
            + seq!['"', '>'] + spec_words_html(cells[0]) + seq!['<', '/', 't', 'd', '>']
            + spec_record_html(cells.drop_first(), aligns.drop_first())
    }
}

/// The HTML of the data rows: each wrapped in `<tr>` with a trailing
/// line break.
pub open spec fn spec_records_html(records: Seq<Seq<Seq<WordModel>>>, aligns: Seq<Align>) -> Seq<
    char,
>
    decreases records,
{
    if records.len() == 0 {
        Seq::empty()
    } else {
        seq!['<', 't', 'r', '>'] + spec_record_html(records[0], aligns) + seq![
            '<',
            '/',
            't',
            'r',
            '>',
            '\n',
        ] + spec_records_html(records.drop_first(), aligns)
    }
}

/// The HTML of a whole table.
pub open spec fn spec_table_html(t: TableModel) -> Seq<char> {
    seq!['<', 't', 'a', 'b', 'l', 'e', '>', '\n', '<', 't', 'r', '>'] + spec_header_html(t.header)
        + seq!['<', '/', 't', 'r', '>', '\n'] + spec_records_html(t.records, t.align) + seq![
        '<',
        '/',
        't',
        'a',
        'b',
        'l',
        'e',
        '>',
        '\n',
    ]
}

/// The HTML of one list item: its inline content, then its child list
/// on a new line when it has children.
pub open spec fn spec_item_html(it: ItemModel) -> Seq<char>
    decreases it, 0int,
{
    seq!['<', 'l', 'i', '>'] + spec_words_html(it.words) + (if it.children.len() == 0 {
        Seq::<char>::empty()
    } else {
        seq!['\n'] + spec_items_html(it.children)
    }) + seq!['<', '/', 'l', 'i', '>']
}

/// The items' HTML joined by line breaks.
pub open spec fn spec_items_join(items: Seq<ItemModel>) -> Seq<char>
    decreases items, 0int,
{
    if items.len() == 0 {
        Seq::empty()
    } else if items.len() == 1 {
        spec_item_html(items[0])
    } else {
        spec_item_html(items[0]) + seq!['\n'] + spec_items_join(items.drop_first())
    }
}

/// The HTML of one list level, wrapped in `<ul>`.
pub open spec fn spec_items_html(items: Seq<ItemModel>) -> Seq<char>
    decreases items, 1int,
{
    seq!['<', 'u', 'l', '>', '\n'] + spec_items_join(items) + seq!['\n', '<', '/', 'u', 'l', '>', '\n']
}

/// The decimal digit character of a value below ten.
pub open spec fn spec_digit(n: int) -> char {
    if n == 0 {
        '0'
    } else if n == 1 {
        '1'
    } else if n == 2 {
        '2'
    } else if n == 3 {
        '3'
    } else if n == 4 {
        '4'
    } else if n == 5 {
        '5'
    } else if n == 6 {
        '6'
    } else if n == 7 {
        '7'
    } else if n == 8 {
        '8'
    } else {
        '9'
    }
}

/// The decimal digits of a non-negative value.
pub open spec fn spec_digits(n: int) -> Seq<char>
    decreases n,
{
    if n < 10 {
        seq![spec_digit(n)]
    } else {
        spec_digits(n / 10) + seq![spec_digit(n % 10)]
    }
}

/// The HTML of a heading of a level.
pub open spec fn spec_heading_html(level: int, ws: Seq<WordModel>) -> Seq<char> {
    seq!['<', 'h'] + spec_digits(level) + seq!['>'] + spec_words_html(ws) + seq!['<', '/', 'h']
        + spec_digits(level) + seq!['>']
}

/// The HTML of a sentence: its inline content and a line-break tag.
pub open spec fn spec_sentence_html(ws: Seq<WordModel>) -> Seq<char> {
    spec_words_html(ws) + seq!['<', 'b', 'r', ' ', '/', '>']
}

/// The HTML of one document node.
pub open spec fn spec_md_html(m: MdModel) -> Seq<char> {
    match m {
        MdModel::Heading(level, ws) => spec_heading_html(level, ws),
        MdModel::Sentence(ws) => spec_sentence_html(ws),
        MdModel::Table(t) => spec_table_html(t),
        MdModel::List(items) => spec_items_html(items),
    }
}

/// The nodes' HTML joined by line breaks.
pub open spec fn spec_mds_html(mds: Seq<MdModel>) -> Seq<char>
    decreases mds,
{
    if mds.len() == 0 {
        Seq::empty()
    } else if mds.len() == 1 {
        spec_md_html(mds[0])
    } else {
        spec_md_html(mds[0]) + seq!['\n'] + spec_mds_html(mds.drop_first())
    }
}

/// Renders one inline token.
pub fn word_to_html(word: &Word) -> (r: String)
    ensures
        r@ == spec_word_html(word@),
    decreases word,
{
    match word {
        Word::Normal(val) => val.clone(),
        Word::Italic(ws) => {
            proof {
                reveal_strlit("<i>");
                reveal_strlit("</i>");
                assert("<i>"@ =~= seq!['<', 'i', '>']);
                assert("</i>"@ =~= seq!['<', '/', 'i', '>']);
            }
            let mut s = "<i>".to_string();
            let inner = words_to_html(ws);
            s.append(inner.as_str());
            s.append("</i>");
            s
        },
        Word::Bold(ws) => {
            proof {
                reveal_strlit("<b>");
                reveal_strlit("</b>");
                assert("<b>"@ =~= seq!['<', 'b', '>']);
                assert("</b>"@ =~= seq!['<', '/', 'b', '>']);
            }
            let mut s = "<b>".to_string();
            let inner = words_to_html(ws);
            s.append(inner.as_str());
            s.append("</b>");
            s
        },
        Word::StrikeThough(ws) => {
            proof {
                reveal_strlit("<s>");
                reveal_strlit("</s>");
                assert("<s>"@ =~= seq!['<', 's', '>']);
                assert("</s>"@ =~= seq!['<', '/', 's', '>']);
            }
            let mut s = "<s>".to_string();
            let inner = words_to_html(ws);
            s.append(inner.as_str());
            s.append("</s>");
            s
        },
        Word::Underline(ws) => {
            proof {
                reveal_strlit("<u>");
                reveal_strlit("</u>");
                assert("<u>"@ =~= seq!['<', 'u', '>']);
                assert("</u>"@ =~= seq!['<', '/', 'u', '>']);
            }
            let mut s = "<u>".to_string();
            let inner = words_to_html(ws);
            s.append(inner.as_str());
            s.append("</u>");
            s
        },
    }
}

/// Renders a run of inline tokens in order.
pub fn words_to_html(words: &Words) -> (r: String)
    ensures
        r@ == spec_words_html(words@),
    decreases words,
{
    let ghost m = words@;
    let mut out = String::new();
    let mut idx: usize = 0;
    proof {
        crate::parser::parser::lemma_word_seq_model_index(words.0@);
        assert(m.skip(0) =~= m);
    }
    while idx < words.0.len()
        invariant
            m == words@,
            m.len() == words.0@.len(),
            forall|i: int| 0 <= i < m.len() ==> m[i] == crate::parser::parser::word_model(
                words.0@[i],
            ),
            0 <= idx <= m.len(),
            out@ + spec_words_html(m.skip(idx as int)) == spec_words_html(m),
        decreases m.len() - idx,
    {
        let piece = word_to_html(&words.0[idx]);
        proof {
            assert(m.skip(idx as int)[0] == m[idx as int]);
            assert(m.skip(idx as int).drop_first() =~= m.skip(idx + 1));
        }
        out.append(piece.as_str());
        idx += 1;
    }
    proof {
        assert(spec_words_html(m.skip(idx as int)) =~= Seq::<char>::empty());
        assert(out@ =~= spec_words_html(m));
    }
    out
}

/// Renders the header row's cells.
pub fn header_to_html(record: &Record) -> (r: String)
    ensures
        r@ == spec_header_html(record@),
    decreases record,
{
    let ghost m = record@;
    let mut out = String::new();
    let mut idx: usize = 0;
    proof {
        assert(m.skip(0) =~= m);
    }
    while idx < record.0.len()
        invariant
            m == record@,
            m.len() == record.0@.len(),
            0 <= idx <= m.len(),
            out@ + spec_header_html(m.skip(idx as int)) == spec_header_html(m),
        decreases m.len() - idx,
    {
        proof {
            reveal_strlit("<th>");
            reveal_strlit("</th>");
            assert("<th>"@ =~= seq!['<', 't', 'h', '>']);
            assert("</th>"@ =~= seq!['<', '/', 't', 'h', '>']);
            assert(m.skip(idx as int)[0] == m[idx as int]);
            assert(m[idx as int] == words_model(record.0@[idx as int]));
            assert(m.skip(idx as int).drop_first() =~= m.skip(idx + 1));
        }
        let piece = words_to_html(&record.0[idx]);
        out.append("<th>");
        out.append(piece.as_str());
        out.append("</th>");
        idx += 1;
    }
    proof {
        assert(spec_header_html(m.skip(idx as int)) =~= Seq::<char>::empty());
        assert(out@ =~= spec_header_html(m));
    }
    out
}

/// The name of an alignment directive.
fn align_to_string<'a>(align: &Align) -> (r: &'a str)
    ensures
        r@ == spec_align_name(*align),
{
    match align {
        Align::Right => {
            proof {
                reveal_strlit("right");
                assert("right"@ =~= seq!['r', 'i', 'g', 'h', 't']);
            }
            "right"
        },
        Align::Center => {
            proof {
                reveal_strlit("center");
                assert("center"@ =~= seq!['c', 'e', 'n', 't', 'e', 'r']);
            }
            "center"
        },
        Align::Left => {
            proof {
                reveal_strlit("left");
                assert("left"@ =~= seq!['l', 'e', 'f', 't']);
            }
            "left"
        },
    }
}

/// Renders one data row: cells paired with alignment directives.
pub fn record_to_html(record: &Record, aligns: &Vec<Align>) -> (r: String)
    ensures
        r@ == spec_record_html(record@, aligns@),
    decreases record,
{
    let ghost m = record@;
    let ghost al = aligns@;
    let mut out = String::new();
    let mut idx: usize = 0;
    proof {
        assert(m.skip(0) =~= m);
        assert(al.skip(0) =~= al);
    }
    while idx < record.0.len() && idx < aligns.len()
        invariant
            m == record@,
            al == aligns@,
            m.len() == record.0@.len(),
            0 <= idx <= m.len(),
            0 <= idx <= al.len(),
            out@ + spec_record_html(m.skip(idx as int), al.skip(idx as int)) == spec_record_html(
                m,
                al,
            ),
        decreases m.len() - idx,
    {
        proof {
            reveal_strlit("<td align=\"");
            reveal_strlit("\">");
            reveal_strlit("</td>");
            assert("<td align=\""@ =~= seq!['<', 't', 'd', ' ', 'a', 'l', 'i', 'g', 'n', '=', '"']);
            assert("\">"@ =~= seq!['"', '>']);
            assert("</td>"@ =~= seq!['<', '/', 't', 'd', '>']);
            assert(m.skip(idx as int)[0] == m[idx as int]);
            assert(m[idx as int] == words_model(record.0@[idx as int]));
            assert(al.skip(idx as int)[0] == al[idx as int]);
            assert(m.skip(idx as int).drop_first() =~= m.skip(idx + 1));
            assert(al.skip(idx as int).drop_first() =~= al.skip(idx + 1));
        }
        let name = align_to_string(&aligns[idx]);
        let piece = words_to_html(&record.0[idx]);
        out.append("<td align=\"");
        out.append(name);
        out.append("\">");
        out.append(piece.as_str());
        out.append("</td>");
        idx += 1;
    }
    proof {
        assert(spec_record_html(m.skip(idx as int), al.skip(idx as int)) =~= Seq::<char>::empty());
        assert(out@ =~= spec_record_html(m, al));
    }
    out
}

/// Renders the data rows, one `<tr>` line per record.
pub fn records_to_html(records: &Vec<Record>, aligns: &Vec<Align>) -> (r: String)
    ensures
        r@ == spec_records_html(record_seq_model(records@), aligns@),
{
    let ghost m = record_seq_model(records@);
    let mut out = String::new();
    let mut idx: usize = 0;
    proof {
        assert(m.skip(0) =~= m);
    }
    while idx < records.len()
        invariant
            m == record_seq_model(records@),
            m.len() == records@.len(),
            0 <= idx <= m.len(),
            out@ + spec_records_html(m.skip(idx as int), aligns@) == spec_records_html(
                m,
                aligns@,
            ),
        decreases m.len() - idx,
    {
        proof {
            reveal_strlit("<tr>");
            reveal_strlit("</tr>\n");
            assert("<tr>"@ =~= seq!['<', 't', 'r', '>']);
            assert("</tr>\n"@ =~= seq!['<', '/', 't', 'r', '>', '\n']);
            assert(m.skip(idx as int)[0] == m[idx as int]);
            assert(m[idx as int] == record_model(records@[idx as int]));
            assert(m.skip(idx as int).drop_first() =~= m.skip(idx + 1));
        }
        let piece = record_to_html(&records[idx], aligns);
        out.append("<tr>");
        out.append(piece.as_str());
        out.append("</tr>\n");
        idx += 1;
    }
    proof {
        assert(spec_records_html(m.skip(idx as int), aligns@) =~= Seq::<char>::empty());
        assert(out@ =~= spec_records_html(m, aligns@));
    }
    out
}

/// Renders a whole table.
pub fn table_to_html(table: &Box<Table>) -> (r: String)
    ensures
        r@ == spec_table_html((**table)@),
{
    proof {
        reveal_strlit("<table>\n<tr>");
        reveal_strlit("</tr>\n");
        reveal_strlit("</table>\n");
        assert("<table>\n<tr>"@ =~= seq![
            '<',
            't',
            'a',
            'b',
            'l',
            'e',
            '>',
            '\n',
            '<',
            't',
            'r',
            '>',
        ]);
        assert("</tr>\n"@ =~= seq!['<', '/', 't', 'r', '>', '\n']);
        assert("</table>\n"@ =~= seq!['<', '/', 't', 'a', 'b', 'l', 'e', '>', '\n']);
    }
    let mut out = "<table>\n<tr>".to_string();
    let header = header_to_html(&table.header);
    out.append(header.as_str());
    out.append("</tr>\n");
    let records = records_to_html(&table.records, &table.align);
    out.append(records.as_str());
    out.append("</table>\n");
    out
}

/// Renders one list item, nesting a child list when it has children.
pub fn item_to_html(item: &Item) -> (r: String)
    ensures
        r@ == spec_item_html(item@),
    decreases item, 1int,
{
    proof {
        reveal_strlit("<li>");
        reveal_strlit("</li>");
        reveal_strlit("\n");
        assert("<li>"@ =~= seq!['<', 'l', 'i', '>']);
        assert("</li>"@ =~= seq!['<', '/', 'l', 'i', '>']);
        assert("\n"@ =~= seq!['\n']);
        crate::parser::parser::lemma_item_seq_model_len(item.1.0@);
    }
    let mut out = "<li>".to_string();
    let ws = words_to_html(&item.0);
    out.append(ws.as_str());
    if item.1.0.len() > 0 {
        out.append("\n");
        let children = items_to_html(&item.1);
        out.append(children.as_str());
    }
    out.append("</li>");
    out
}

/// Renders one list level, wrapped in `<ul>`.
pub fn items_to_html(items: &Items) -> (r: String)
    ensures
        r@ == spec_items_html(items@),
    decreases items, 0int,
{
    proof {
        reveal_strlit("<ul>\n");
        reveal_strlit("\n</ul>\n");
        reveal_strlit("\n");
        assert("<ul>\n"@ =~= seq!['<', 'u', 'l', '>', '\n']);
        assert("\n</ul>\n"@ =~= seq!['\n', '<', '/', 'u', 'l', '>', '\n']);
        assert("\n"@ =~= seq!['\n']);
    }
    let ghost m = items@;
    let mut out = "<ul>\n".to_string();
    let mut idx: usize = 0;
    proof {
        lemma_item_seq_model_index(items.0@);
        assert(m.skip(0) =~= m);
        assert(out@ =~= seq!['<', 'u', 'l', '>', '\n'] + Seq::<char>::empty());
    }
    while idx < items.0.len()
        invariant
            m == items@,
            m.len() == items.0@.len(),
            forall|i: int| 0 <= i < m.len() ==> m[i] == crate::parser::parser::item_model(
                items.0@[i],
            ),
            0 <= idx <= m.len(),
            idx == 0 ==> out@ == seq!['<', 'u', 'l', '>', '\n'],
            idx > 0 ==> out@ + (if idx < m.len() {
                seq!['\n'] + spec_items_join(m.skip(idx as int))
            } else {
                Seq::<char>::empty()
            }) == seq!['<', 'u', 'l', '>', '\n'] + spec_items_join(m),
        decreases m.len() - idx,
    {
        proof {
            reveal_strlit("\n");
            assert("\n"@ =~= seq!['\n']);
            assert(m.skip(idx as int)[0] == m[idx as int]);
            assert(m.skip(idx as int).drop_first() =~= m.skip(idx + 1));
        }
        if idx > 0 {
            out.append("\n");
        }
        let piece = item_to_html(&items.0[idx]);
        out.append(piece.as_str());
        idx += 1;
    }
    proof {
        reveal_strlit("\n</ul>\n");
        assert("\n</ul>\n"@ =~= seq!['\n', '<', '/', 'u', 'l', '>', '\n']);
        if m.len() == 0 {
            assert(spec_items_join(m) =~= Seq::<char>::empty());
            assert(out@ =~= seq!['<', 'u', 'l', '>', '\n'] + spec_items_join(m));
        }
    }
    out.append("\n</ul>\n");
    proof {
        assert(out@ =~= spec_items_html(m));
    }
    out
}

/// The decimal digit string of a value below ten.
fn digit_string(d: usize) -> (r: &'static str)
    requires
        d < 10,
    ensures
        r@ == seq![spec_digit(d as int)],
{
    if d == 0 {
        proof {
            reveal_strlit("0");
            assert("0"@ =~= seq!['0']);
        }
        "0"
    } else if d == 1 {
        proof {
            reveal_strlit("1");
            assert("1"@ =~= seq!['1']);
        }
        "1"
    } else if d == 2 {
        proof {
            reveal_strlit("2");
            assert("2"@ =~= seq!['2']);
        }
        "2"
    } else if d == 3 {
        proof {
            reveal_strlit("3");
            assert("3"@ =~= seq!['3']);
        }
        "3"
    } else if d == 4 {
        proof {
            reveal_strlit("4");
            assert("4"@ =~= seq!['4']);
        }
        "4"
    } else if d == 5 {
        proof {
            reveal_strlit("5");
            assert("5"@ =~= seq!['5']);
        }
        "5"
    } else if d == 6 {
        proof {
            reveal_strlit("6");
            assert("6"@ =~= seq!['6']);
        }
        "6"
    } else if d == 7 {
        proof {
            reveal_strlit("7");
            assert("7"@ =~= seq!['7']);
        }
        "7"
    } else if d == 8 {
        proof {
            reveal_strlit("8");
            assert("8"@ =~= seq!['8']);
        }
        "8"
    } else {
        proof {
            reveal_strlit("9");
            assert("9"@ =~= seq!['9']);
        }
        "9"
    }
}

/// The decimal digits of a value.
fn usize_to_string(n: usize) -> (r: String)
    ensures
        r@ == spec_digits(n as int),
    decreases n,
{
    if n < 10 {
        digit_string(n).to_string()
    } else {
        let mut s = usize_to_string(n / 10);
        s.append(digit_string(n % 10));
        s
    }
}

/// Renders a heading of a level.
fn heading_to_html(size: &usize, words: &Words) -> (r: String)
    ensures
        r@ == spec_heading_html(*size as int, words@),
{
    proof {
        reveal_strlit("<h");
        reveal_strlit(">");
        reveal_strlit("</h");
        assert("<h"@ =~= seq!['<', 'h']);
        assert(">"@ =~= seq!['>']);
        assert("</h"@ =~= seq!['<', '/', 'h']);
    }
    let digits = usize_to_string(*size);
    let mut out = "<h".to_string();
    out.append(digits.as_str());
    out.append(">");
    let ws = words_to_html(words);
    out.append(ws.as_str());
    out.append("</h");
    out.append(digits.as_str());
    out.append(">");
    out
}

/// Renders a sentence: its inline content and a line-break tag.
fn sentence_to_html(words: &Words) -> (r: String)
    ensures
        r@ == spec_sentence_html(words@),
{
    proof {
        reveal_strlit("<br />");
        assert("<br />"@ =~= seq!['<', 'b', 'r', ' ', '/', '>']);
    }
    let mut out = words_to_html(words);
    out.append("<br />");
    out
}

/// Renders one document node.
pub fn md_to_html(md: &Md) -> (r: String)
    ensures
        r@ == spec_md_html(md@),
{
    match md {
        Md::Heading(size, words) => heading_to_html(size, words),
        Md::Sentence(words) => sentence_to_html(words),
        Md::Table(table) => table_to_html(table),
        Md::List(items) => items_to_html(items),
    }
}

/// Renders a whole document: each node's HTML, joined by line breaks.
pub fn mds_to_html(mds: &Vec<Md>) -> (r: String)
    ensures
        r@ == spec_mds_html(md_seq_model(mds@)),
{
    let ghost m = md_seq_model(mds@);
    let mut out = String::new();
    let mut idx: usize = 0;
    proof {
        lemma_md_seq_model_index(mds@);
        assert(m.skip(0) =~= m);
        assert(out@ =~= Seq::<char>::empty());
    }
    while idx < mds.len()
        invariant
            m == md_seq_model(mds@),
            m.len() == mds@.len(),
            forall|i: int| 0 <= i < m.len() ==> m[i] == mds@[i]@,
            0 <= idx <= m.len(),
            idx == 0 ==> out@ == Seq::<char>::empty(),
            idx > 0 ==> out@ + (if idx < m.len() {
                seq!['\n'] + spec_mds_html(m.skip(idx as int))
            } else {
                Seq::<char>::empty()
            }) == spec_mds_html(m),
        decreases m.len() - idx,
    {
        proof {
            reveal_strlit("\n");
            assert("\n"@ =~= seq!['\n']);
            assert(m.skip(idx as int)[0] == m[idx as int]);
            assert(m.skip(idx as int).drop_first() =~= m.skip(idx + 1));
        }
        if idx > 0 {
            out.append("\n");
        }
        let piece = md_to_html(&mds[idx]);
        out.append(piece.as_str());
        idx += 1;
    }
    proof {
        if m.len() == 0 {
            assert(spec_mds_html(m) =~= Seq::<char>::empty());
        }
    }
    out
}

} // verus!
