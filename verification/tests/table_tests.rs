use md2html::parser::parser::{parse, Align, Md, ParsedResult, Record, Table, Word, Words};
use md2html::parser::table::{align, header, records, table};

#[test]
fn test_header() {
    let h = "| A | B | C | \n";
    let a = Words(vec![Word::Normal("A".to_string())]);
    let b = Words(vec![Word::Normal("B".to_string())]);
    let c = Words(vec![Word::Normal("C".to_string())]);
    let token = Record(vec![a, b, c]);
    let rest = "";
    assert_eq!(header(&h), Some(ParsedResult { token, rest }));

    let h = "| A | B | C \n";
    assert_eq!(header(&h), None);

    let h = "|  | B | C |\n";
    let a = Words(vec![Word::Normal("".to_string())]);
    let b = Words(vec![Word::Normal("B".to_string())]);
    let c = Words(vec![Word::Normal("C".to_string())]);
    let token = Record(vec![a, b, c]);
    let rest = "";
    assert_eq!(header(&h), Some(ParsedResult { token, rest }));
}

#[test]
fn test_align() {
    let h = "| -: | :-: | :- | --- |\n";
    let token = vec![Align::Right, Align::Center, Align::Left, Align::Left];
    let rest = "";
    assert_eq!(align(&h, 4), Some(ParsedResult { token, rest }));

    let h = "| -: | :-b: | :- | - |\n";
    assert_eq!(align(&h, 4), None);

    let h = "|  | :-: | :- | - |\n";
    assert_eq!(align(&h, 4), None);
}

#[test]
fn test_records() {
    let h = "| A | B | C |\n| a | b | c |\n| j | k | l |\n";
    let a = Words(vec![Word::Normal("A".to_string())]);
    let b = Words(vec![Word::Normal("B".to_string())]);
    let c = Words(vec![Word::Normal("C".to_string())]);
    let r0 = Record(vec![a, b, c]);
    let a = Words(vec![Word::Normal("a".to_string())]);
    let b = Words(vec![Word::Normal("b".to_string())]);
    let c = Words(vec![Word::Normal("c".to_string())]);
    let r1 = Record(vec![a, b, c]);
    let j = Words(vec![Word::Normal("j".to_string())]);
    let k = Words(vec![Word::Normal("k".to_string())]);
    let l = Words(vec![Word::Normal("l".to_string())]);
    let r2 = Record(vec![j, k, l]);
    let record = vec![r0, r1, r2];
    let rest = "";
    assert_eq!(records(&h, 3), Some(ParsedResult { token: record, rest }));
}

#[test]
fn table_test_table() {
    let test = "| A | B | C | \n|-:|--|:-:|\n| a | b | c |\n| j | k | l |\n";
    let a = Words(vec![Word::Normal("A".to_string())]);
    let b = Words(vec![Word::Normal("B".to_string())]);
    let c = Words(vec![Word::Normal("C".to_string())]);
    let he = Record(vec![a, b, c]);

    let al = vec![Align::Right, Align::Left, Align::Center];

    let a = Words(vec![Word::Normal("a".to_string())]);
    let b = Words(vec![Word::Normal("b".to_string())]);
    let c = Words(vec![Word::Normal("c".to_string())]);
    let r1 = Record(vec![a, b, c]);
    let j = Words(vec![Word::Normal("j".to_string())]);
    let k = Words(vec![Word::Normal("k".to_string())]);
    let l = Words(vec![Word::Normal("l".to_string())]);
    let r2 = Record(vec![j, k, l]);
    let re = vec![r1, r2];

    let t = Table { header: he, align: al, records: re };
    let t = Md::Table(Box::new(t));

    assert_eq!(table(&test), Some(ParsedResult { token: t, rest: "" }));
}

#[test]
fn table_accepts_only_agreeing_column_counts() {
    let test = "| A | B | C |\n|-:|--|:-:|\n| a | b | c |\n| j | k | l |\n";
    let a = Words(vec![Word::Normal("A".to_string())]);
    let b = Words(vec![Word::Normal("B".to_string())]);
    let c = Words(vec![Word::Normal("C".to_string())]);
    let he = Record(vec![a, b, c]);

    let al = vec![Align::Right, Align::Left, Align::Center];

    let a = Words(vec![Word::Normal("a".to_string())]);
    let b = Words(vec![Word::Normal("b".to_string())]);
    let c = Words(vec![Word::Normal("c".to_string())]);
    let r1 = Record(vec![a, b, c]);
    let j = Words(vec![Word::Normal("j".to_string())]);
    let k = Words(vec![Word::Normal("k".to_string())]);
    let l = Words(vec![Word::Normal("l".to_string())]);
    let r2 = Record(vec![j, k, l]);
    let re = vec![r1, r2];

    let t = Table { header: he, align: al, records: re };
    let expected = vec![Md::Table(Box::new(t))];
    assert_eq!(parse(&test), expected);
}

#[test]
fn misaligned_alignment_row_fails_table() {
    // Two alignment cells under a three-column header: no table.
    assert_eq!(table(&"| A | B | C |\n|-:|--|\n| a | b | c |\n"), None);
}

#[test]
fn data_row_with_differing_count_is_left_unconsumed() {
    let test = "| A |\n|-|\n| a |\n| b | c |\n";
    let r = table(&test).unwrap();
    assert_eq!(r.rest, "| b | c |\n");
    match r.token {
        Md::Table(t) => {
            assert_eq!(t.records.len(), 1);
        },
        _ => panic!("expected a table node"),
    }
}

#[test]
fn table_without_data_row_fails() {
    assert_eq!(table(&"| A | B |\n|-|-|\n"), None);
}

#[test]
fn malformed_header_line_parses_as_sentence() {
    let test = "| A | B \nrest";
    let sentence0 = Md::Sentence(Words(vec![Word::Normal("| A | B ".to_string())]));
    let sentence1 = Md::Sentence(Words(vec![Word::Normal("rest".to_string())]));
    assert_eq!(parse(&test), vec![sentence0, sentence1]);
}
