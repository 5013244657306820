//! The table recognizer: header row, alignment row, then data rows,
//! all validated against the column count the header established.
//!
//! A row is one line, trailing-trimmed, bounded by `|` at both ends;
//! its inside is split on `|` and each cell is trimmed.  An alignment
//! cell is a run of hyphens, optionally carrying a `:` at either end.
//! Data rows are taken greedily while their cell count matches the
//! header; the first differing row is left unconsumed.  Any failing
//! stage fails the whole table, a soft no-match for the dispatcher.

use vstd::prelude::*;

use crate::parser::parser::{
    record_model, record_seq_model, result_models, words_model, Align, Md, MdModel, ParsedResult,
    Record, Table, TableModel, WordModel, Words,
};
use crate::parser::scan::{
    find_pat, is_suffix_of, lemma_find_first, lemma_skip_suffix, lemma_suffix_refl,
    lemma_suffix_trans, spec_find, spec_trim, spec_trim_end, trim, trim_end,
};
use crate::parser::sentence::{spec_words, words};

verus! {

/// The inside of a row split on `|`, each cell trimmed.
pub open spec fn spec_split_cells(s: Seq<char>) -> Seq<Seq<char>>
    decreases s.len(),
    via spec_split_cells_decreases
{
    match spec_find(s, seq!['|']) {
        Some(n) => seq![spec_trim(s.take(n))] + spec_split_cells(s.skip(n + 1)),
        None => seq![spec_trim(s)],
    }
}

#[via_fn]
proof fn spec_split_cells_decreases(s: Seq<char>) {
    lemma_find_first(s, seq!['|']);
}

/// What one row yields: the line up to a required line break,
/// trailing-trimmed, must be `|`-bounded on both sides; the result is
/// its trimmed cell texts and the text after the line break.
pub open spec fn spec_record(s: Seq<char>) -> Option<(Seq<Seq<char>>, Seq<char>)> {
    match spec_find(s, seq!['\n']) {
        None => None,
        Some(n) => {
            let line = spec_trim_end(s.take(n));
            let rest = s.skip(n + 1);
            if line.len() >= 2 && line[0] == '|' && line[line.len() - 1] == '|' {
                Some((spec_split_cells(line.subrange(1, line.len() - 1)), rest))
            } else {
                None
            }
        },
    }
}

/// The tokenized cells of one row.
pub open spec fn cells_words(cells: Seq<Seq<char>>) -> Seq<Seq<WordModel>> {
    Seq::new(cells.len(), |i: int| spec_words(cells[i]))
}

/// A non-empty run of hyphens and nothing else.
pub open spec fn is_only_hyphen(s: Seq<char>) -> bool {
    s.len() >= 1 && forall|i: int| 0 <= i < s.len() ==> s[i] == '-'
}

/// What one alignment cell means: hyphens with a `:` at both ends are
/// centered, only in front is left, only at the back is right, and a
/// bare run is left; anything else is no alignment cell.
pub open spec fn spec_align_cell(c: Seq<char>) -> Option<Align> {
    let l = c.len() >= 1 && c[0] == ':';
    let r = c.len() >= 1 && c[c.len() - 1] == ':';
    if l && r {
        if c.len() >= 2 && is_only_hyphen(c.subrange(1, c.len() - 1)) {
            Some(Align::Center)
        } else {
            None
        }
    } else if l {
        if is_only_hyphen(c.skip(1)) {
            Some(Align::Left)
        } else {
            None
        }
    } else if r {
        if is_only_hyphen(c.take(c.len() - 1)) {
            Some(Align::Right)
        } else {
            None
        }
    } else {
        if is_only_hyphen(c) {
            Some(Align::Left)
        } else {
            None
        }
    }
}

/// What the alignment row's cells yield: every cell must be a valid
/// alignment cell and their number must equal the header's column
/// count, or the row fails.
pub open spec fn spec_align_row(cells: Seq<Seq<char>>, num: int) -> Option<Seq<Align>> {
    if cells.len() == num && (forall|i: int|
        0 <= i < cells.len() ==> spec_align_cell(cells[i]) is Some) {
        Some(Seq::new(cells.len(), |i: int| spec_align_cell(cells[i]).unwrap()))
    } else {
        None
    }
}

/// What the alignment stage yields: one row parsed as alignment cells.
pub open spec fn spec_align(s: Seq<char>, num: int) -> Option<(Seq<Align>, Seq<char>)> {
    match spec_record(s) {
        None => None,
        Some((cells, rest)) => match spec_align_row(cells, num) {
            Some(a) => Some((a, rest)),
            None => None,
        },
    }
}

/// What the header stage yields: one row with its cells tokenized.
pub open spec fn spec_header(s: Seq<char>) -> Option<(Seq<Seq<WordModel>>, Seq<char>)> {
    match spec_record(s) {
        None => None,
        Some((cells, rest)) => Some((cells_words(cells), rest)),
    }
}

/// The greedy data-row scan: rows are taken while they parse and
/// their cell count equals `num`; the rest starts at the first line
/// that ends the scan.
pub open spec fn spec_record_rows(s: Seq<char>, num: int) -> (Seq<Seq<Seq<WordModel>>>, Seq<char>)
    decreases s.len(),
    via spec_record_rows_decreases
{
    match spec_record(s) {
        None => (Seq::empty(), s),
        Some((cells, rest)) => if cells.len() != num {
            (Seq::empty(), s)
        } else {
            let more = spec_record_rows(rest, num);
            (seq![cells_words(cells)] + more.0, more.1)
        },
    }
}

#[via_fn]
proof fn spec_record_rows_decreases(s: Seq<char>, num: int) {
    lemma_find_first(s, seq!['\n']);
}

/// What the data stage yields: the greedy scan, failing when it took
/// no row at all.
pub open spec fn spec_records(s: Seq<char>, num: int) -> Option<
    (Seq<Seq<Seq<WordModel>>>, Seq<char>),
> {
    let rows = spec_record_rows(s, num);
    if rows.0.len() == 0 {
        None
    } else {
        Some(rows)
    }
}

/// What the table recognizer yields: header, alignment and data rows
/// in sequence, all sharing the header's column count.
pub open spec fn spec_table(s: Seq<char>) -> Option<(MdModel, Seq<char>)> {
    match spec_header(s) {
        None => None,
        Some((h, after_header)) => match spec_align(after_header, h.len() as int) {
            None => None,
            Some((a, after_align)) => match spec_records(after_align, h.len() as int) {
                None => None,
                Some((rs, rest)) => Some(
                    (MdModel::Table(TableModel { header: h, align: a, records: rs }), rest),
                ),
            },
        },
    }
}

/// A matched row consumes its line: the rest is a strict suffix.
pub proof fn lemma_record_consumes(s: Seq<char>)
    ensures
        spec_record(s) matches Some(pr) ==> pr.1.len() < s.len() && is_suffix_of(pr.1, s),
{
    lemma_find_first(s, seq!['\n']);
    if let Some(n) = spec_find(s, seq!['\n']) {
        lemma_skip_suffix(s, n + 1);
    }
}

/// The data-row scan never consumes past its input: its rest is a
/// suffix.
pub proof fn lemma_record_rows_consume(s: Seq<char>, num: int)
    ensures
        spec_record_rows(s, num).1.len() <= s.len(),
        is_suffix_of(spec_record_rows(s, num).1, s),
    decreases s.len(),
{
    lemma_suffix_refl(s);
    lemma_record_consumes(s);
    if spec_record(s) is Some {
        let cells = spec_record(s).unwrap().0;
        let rest = spec_record(s).unwrap().1;
        if cells.len() == num {
            lemma_record_rows_consume(rest, num);
            lemma_suffix_trans(spec_record_rows(rest, num).1, rest, s);
        }
    }
}

/// A matched table consumes at least its header line: the rest is a
/// strict suffix of the input.
pub proof fn lemma_table_consumes(s: Seq<char>)
    ensures
        spec_table(s) matches Some(pr) ==> pr.1.len() < s.len() && is_suffix_of(pr.1, s),
{
    if spec_table(s) is Some {
        lemma_record_consumes(s);
        let after_header = spec_record(s).unwrap().1;
        let num = spec_record(s).unwrap().0.len() as int;
        lemma_record_consumes(after_header);
        let after_align = spec_record(after_header).unwrap().1;
        lemma_record_rows_consume(after_align, num);
        lemma_suffix_trans(spec_record_rows(after_align, num).1, after_align, after_header);
        lemma_suffix_trans(spec_record_rows(after_align, num).1, after_header, s);
    }
}

/// A table model is well formed when its alignment row and every
/// data row agree with the header on the number of columns.
pub open spec fn table_wf(t: TableModel) -> bool {
    t.align.len() == t.header.len() && (forall|i: int|
        0 <= i < t.records.len() ==> #[trigger] t.records[i].len() == t.header.len())
}

/// Every data row the greedy scan takes has exactly `num` cells.
pub proof fn lemma_record_rows_widths(s: Seq<char>, num: int)
    ensures
        forall|i: int|
            0 <= i < spec_record_rows(s, num).0.len() ==> #[trigger] spec_record_rows(
                s,
                num,
            ).0[i].len() == num,
    decreases s.len(),
{
    lemma_record_consumes(s);
    if spec_record(s) is Some {
        let cells = spec_record(s).unwrap().0;
        let rest = spec_record(s).unwrap().1;
        if cells.len() == num {
            lemma_record_rows_widths(rest, num);
            let rows = spec_record_rows(s, num).0;
            assert forall|i: int| 0 <= i < rows.len() implies #[trigger] rows[i].len() == num by {
                if i == 0 {
                    assert(rows[0] == cells_words(cells));
                } else {
                    assert(rows[i] == spec_record_rows(rest, num).0[i - 1]);
                }
            }
        }
    }
}

/// Table acceptance requires column-count agreement: a recognized
/// table's alignment row and every consumed data row have exactly as
/// many columns as its header.
pub proof fn lemma_table_well_formed(s: Seq<char>)
    ensures
        spec_table(s) matches Some(pr) ==> pr.0 matches MdModel::Table(t) && table_wf(t),
{
    if spec_table(s) is Some {
        let h = spec_header(s).unwrap().0;
        let after_header = spec_header(s).unwrap().1;
        lemma_record_rows_widths(spec_align(after_header, h.len() as int).unwrap().1, h.len() as int);
    }
}

/// The character views of a sequence of borrowed cell texts.
pub open spec fn views_of(v: Seq<&str>) -> Seq<Seq<char>> {
    Seq::new(v.len(), |i: int| v[i]@)
}

/// Splits a row's inside on `|`, trimming each cell.
fn split_cells<'a>(text: &'a str) -> (r: Vec<&'a str>)
    ensures
        views_of(r@) == spec_split_cells(text@),
{
    let mut cells: Vec<&str> = Vec::new();
    let mut cur: &str = text;
    proof {
        assert(views_of(cells@) + spec_split_cells(cur@) =~= spec_split_cells(text@));
    }
    loop
        invariant_except_break
            spec_split_cells(text@) == views_of(cells@) + spec_split_cells(cur@),
        ensures
            views_of(cells@) == spec_split_cells(text@),
        decreases cur@.len(),
    {
        proof {
            reveal_strlit("|");
            assert("|"@ =~= seq!['|']);
            lemma_find_first(cur@, seq!['|']);
        }
        match find_pat(cur, "|") {
            Some(n) => {
                let m = cur.unicode_len();
                let cell = trim(cur.substring_char(0, n));
                let next = cur.substring_char(n + 1, m);
                proof {
                    assert(cur@.subrange(0, n as int) =~= cur@.take(n as int));
                    assert(next@ =~= cur@.skip(n + 1));
                    assert(views_of(cells@.push(cell)) + spec_split_cells(next@) =~= views_of(
                        cells@,
                    ) + spec_split_cells(cur@));
                }
                cells.push(cell);
                cur = next;
            },
            None => {
                let cell = trim(cur);
                proof {
                    assert(views_of(cells@.push(cell)) =~= views_of(cells@) + spec_split_cells(
                        cur@,
                    ));
                }
                cells.push(cell);
                proof {
                    assert(views_of(cells@) =~= spec_split_cells(text@));
                }
                break ;
            },
        }
    }
    cells
}

/// One `|`-bounded row: its trimmed cell texts and the text after the
/// line break, exactly when `spec_record` matches.
fn record<'a>(texts: &'a str) -> (r: Option<(Vec<&'a str>, &'a str)>)
    ensures
        match (r, spec_record(texts@)) {
            (Some(pr), Some(sr)) => views_of(pr.0@) == sr.0 && pr.1@ == sr.1,
            (None, None) => true,
            _ => false,
        },
{
    proof {
        reveal_strlit("\n");
        assert("\n"@ =~= seq!['\n']);
        lemma_find_first(texts@, seq!['\n']);
    }
    let n = match find_pat(texts, "\n") {
        Some(n) => n,
        None => {
            return None;
        },
    };
    let m = texts.unicode_len();
    let raw = texts.substring_char(0, n);
    proof {
        assert(raw@ =~= texts@.take(n as int));
    }
    let line = trim_end(raw);
    let rest = texts.substring_char(n + 1, m);
    proof {
        assert(rest@ =~= texts@.skip(n + 1));
    }
    let llen = line.unicode_len();
    if llen < 2 {
        return None;
    }
    if line.get_char(0) != '|' || line.get_char(llen - 1) != '|' {
        return None;
    }
    let inner = line.substring_char(1, llen - 1);
    let cells = split_cells(inner);
    Some((cells, rest))
}

/// Whether the text is a non-empty run of hyphens.
fn only_hyphens(text: &str) -> (r: bool)
    ensures
        r == is_only_hyphen(text@),
{
    let m = text.unicode_len();
    if m == 0 {
        return false;
    }
    let mut i: usize = 0;
    while i < m
        invariant
            m == text@.len(),
            0 <= i <= m,
            forall|j: int| 0 <= j < i ==> text@[j] == '-',
        decreases m - i,
    {
        if text.get_char(i) != '-' {
            return false;
        }
        i += 1;
    }
    true
}

/// One alignment cell, exactly as `spec_align_cell` says.
fn align_parse(text: &str) -> (r: Option<Align>)
    ensures
        r == spec_align_cell(text@),
{
    let m = text.unicode_len();
    let l = m >= 1 && text.get_char(0) == ':';
    let endc = m >= 1 && text.get_char(m - 1) == ':';
    if l && endc {
        if m >= 2 && only_hyphens(text.substring_char(1, m - 1)) {
            Some(Align::Center)
        } else {
            None
        }
    } else if l {
        if only_hyphens(text.substring_char(1, m)) {
            Some(Align::Left)
        } else {
            None
        }
    } else if endc {
        if only_hyphens(text.substring_char(0, m - 1)) {
            Some(Align::Right)
        } else {
            None
        }
    } else {
        if only_hyphens(text) {
            Some(Align::Left)
        } else {
            None
        }
    }
}

/// The header row: its cells tokenized into a `Record`.
pub fn header<'a>(texts: &'a str) -> (r: Option<ParsedResult<'a, Record>>)
    ensures
        result_models(r, spec_header(texts@)),
{
    let (cells, rest) = match record(texts) {
        Some(c) => c,
        None => {
            return None;
        },
    };
    let mut ws: Vec<Words> = Vec::new();
    let mut idx: usize = 0;
    while idx < cells.len()
        invariant
            0 <= idx <= cells@.len(),
            ws@.len() == idx,
            forall|j: int| 0 <= j < idx ==> words_model(ws@[j]) == spec_words(cells@[j]@),
        decreases cells@.len() - idx,
    {
        ws.push(words(cells[idx]));
        idx += 1;
    }
    proof {
        assert(record_model(Record(ws)) =~= cells_words(views_of(cells@)));
    }
    Some(ParsedResult::new(Record(ws), rest))
}

/// The alignment row, validated against the header's column count.
pub fn align<'a>(texts: &'a str, num: usize) -> (r: Option<ParsedResult<'a, Vec<Align>>>)
    ensures
        result_models(r, spec_align(texts@, num as int)),
{
    let (cells, rest) = match record(texts) {
        Some(c) => c,
        None => {
            return None;
        },
    };
    if cells.len() != num {
        return None;
    }
    let mut aligns: Vec<Align> = Vec::new();
    let mut idx: usize = 0;
    while idx < cells.len()
        invariant
            0 <= idx <= cells@.len(),
            aligns@.len() == idx,
            cells@.len() == num,
            spec_record(texts@) == Some((views_of(cells@), rest@)),
            forall|j: int| 0 <= j < idx ==> spec_align_cell(cells@[j]@) == Some(aligns@[j]),
        decreases cells@.len() - idx,
    {
        match align_parse(cells[idx]) {
            Some(a) => {
                aligns.push(a);
            },
            None => {
                proof {
                    assert(views_of(cells@)[idx as int] == cells@[idx as int]@);
                    assert(spec_align_cell(views_of(cells@)[idx as int]) is None);
                }
                return None;
            },
        }
        idx += 1;
    }
    proof {
        assert forall|i: int| 0 <= i < views_of(cells@).len() implies spec_align_cell(
            views_of(cells@)[i],
        ) is Some by {
            assert(views_of(cells@)[i] == cells@[i]@);
            assert(spec_align_cell(cells@[i]@) == Some(aligns@[i]));
        }
        assert(aligns@ =~= spec_align_row(views_of(cells@), num as int).unwrap());
    }
    Some(ParsedResult::new(aligns, rest))
}

/// The number of cells of a record.
fn len(record: &Record) -> (r: usize)
    ensures
        r == record.0@.len(),
{
    record.0.len()
}

/// The greedy data-row scan, as `spec_records` says: rows while the
/// cell count matches, failing when no row was taken.
pub fn records<'a>(texts: &'a str, n: usize) -> (r: Option<ParsedResult<'a, Vec<Record>>>)
    ensures
        match (r, spec_records(texts@, n as int)) {
            (Some(pr), Some(sr)) => record_seq_model(pr.token@) == sr.0 && pr.rest@ == sr.1,
            (None, None) => true,
            _ => false,
        },
{
    let mut record_list: Vec<Record> = Vec::new();
    let mut cur: &str = texts;
    proof {
        assert(record_seq_model(record_list@) + spec_record_rows(cur@, n as int).0
            =~= spec_record_rows(texts@, n as int).0);
    }
    loop
        invariant
            spec_record_rows(texts@, n as int).0 == record_seq_model(record_list@)
                + spec_record_rows(cur@, n as int).0,
            spec_record_rows(texts@, n as int).1 == spec_record_rows(cur@, n as int).1,
        ensures
            record_seq_model(record_list@) == spec_record_rows(texts@, n as int).0,
            cur@ == spec_record_rows(texts@, n as int).1,
        decreases cur@.len(),
    {
        proof {
            lemma_find_first(cur@, seq!['\n']);
        }
        let (cells, rest) = match record(cur) {
            Some(c) => c,
            None => {
                proof {
                    assert(record_seq_model(record_list@) + spec_record_rows(cur@, n as int).0
                        =~= record_seq_model(record_list@));
                }
                break ;
            },
        };
        if cells.len() != n {
            proof {
                assert(record_seq_model(record_list@) + spec_record_rows(cur@, n as int).0
                    =~= record_seq_model(record_list@));
            }
            break ;
        }
        let mut ws: Vec<Words> = Vec::new();
        let mut idx: usize = 0;
        while idx < cells.len()
            invariant
                0 <= idx <= cells@.len(),
                ws@.len() == idx,
                forall|j: int| 0 <= j < idx ==> words_model(ws@[j]) == spec_words(cells@[j]@),
            decreases cells@.len() - idx,
        {
            ws.push(words(cells[idx]));
            idx += 1;
        }
        proof {
            assert(record_model(Record(ws)) =~= cells_words(views_of(cells@)));
            assert(record_seq_model(record_list@.push(Record(ws))) =~= record_seq_model(
                record_list@,
            ) + seq![record_model(Record(ws))]);
            assert(record_seq_model(record_list@.push(Record(ws))) + spec_record_rows(
                rest@,
                n as int,
            ).0 =~= record_seq_model(record_list@) + spec_record_rows(cur@, n as int).0);
        }
        record_list.push(Record(ws));
        cur = rest;
    }
    if record_list.len() == 0 {
        None
    } else {
        Some(ParsedResult::new(record_list, cur))
    }
}

/// The table recognizer.
pub fn table(texts: &str) -> (r: Option<ParsedResult<Md>>)
    ensures
        result_models(r, spec_table(texts@)),
{
    let h = match header(texts) {
        Some(h) => h,
        None => {
            return None;
        },
    };
    let num = len(&h.token);
    let a = match align(h.rest, num) {
        Some(a) => a,
        None => {
            return None;
        },
    };
    let rc = match records(a.rest, num) {
        Some(rc) => rc,
        None => {
            return None;
        },
    };
    let rest = rc.rest;
    let t = Table { header: h.token, align: a.token, records: rc.token };
    Some(ParsedResult::new(Md::Table(Box::new(t)), rest))
}

} // verus!
