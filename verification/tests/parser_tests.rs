use md2html::parser::parser::{parse, Align, Item, Items, Md, Record, Table, Word, Words};

#[test]
fn test_parser() {
    let normal = Words(vec![Word::Normal("Hello World!".to_string())]);
    let bold = Words(vec![Word::Bold(normal)]);
    let bold_line = Word::Underline(bold);
    let words = Words(vec![bold_line]);
    let md = Md::Sentence(words);
    assert_eq!(parse(&"__**Hello World!**__"), vec![md]);

    let normal = Words(vec![Word::Normal("Hello World!".to_string())]);
    let line = Words(vec![Word::Underline(normal)]);
    let line_bold = Word::Bold(line);
    let words = Words(vec![line_bold]);
    let md = Md::Sentence(words);
    assert_eq!(parse(&"**__Hello World!__**"), vec![md]);

    let normal = Words(vec![Word::Normal("Hello World!".to_string())]);
    let line_normal = Words(vec![Word::Underline(normal)]);
    let bold_line_normal = Words(vec![Word::Bold(line_normal)]);
    let strike_bold_line_normal = Words(vec![Word::StrikeThough(bold_line_normal)]);
    let md = Md::Sentence(strike_bold_line_normal);
    assert_eq!(parse(&"~~**__Hello World!__**~~"), vec![md]);

    let hello = Word::Normal("Hello ".to_string());
    let world = Word::Bold(Words(vec![Word::Normal("World!".to_string())]));
    let word = Words(vec![hello, world]);
    let md = Md::Sentence(word);
    assert_eq!(parse(&"Hello **World!**"), vec![md]);

    let normal = Words(vec![Word::Normal("Hello World!".to_string())]);
    let md = Md::Heading(1, normal);
    assert_eq!(parse(&"# Hello World!"), vec![md]);
}

#[test]
fn test_parsing_multiline() {
    let hello_world = Words(vec![Word::Normal("Hello World!".to_string())]);
    let head: Md = Md::Heading(1, hello_world);

    let words = Words(vec![Word::Normal("rust parser".to_string())]);
    let sentence = Md::Sentence(words);

    let bold = Words(vec![Word::Bold(Words(vec![Word::Normal("lines".to_string())]))]);
    let bold_sentence = Md::Sentence(bold);

    let mds = vec![head, sentence, bold_sentence];
    assert_eq!(parse(&"# Hello World!\nrust parser\n**lines**"), mds);
}

#[test]
fn parser_tests_test_table() {
    let a = Words(vec![Word::Normal("A".to_string())]);
    let b = Words(vec![Word::Normal("B".to_string())]);
    let c = Words(vec![Word::Normal("C".to_string())]);
    let header = Record(vec![a, b, c]);
    let align = vec![Align::Right, Align::Left, Align::Center];
    let d = Words(vec![Word::Normal("d".to_string())]);
    let e = Words(vec![Word::Normal("e".to_string())]);
    let f = Words(vec![Word::Normal("f".to_string())]);
    let record0 = Record(vec![d, e, f]);
    let j = Words(vec![Word::Normal("j".to_string())]);
    let k = Words(vec![Word::Normal("k".to_string())]);
    let l = Words(vec![Word::Normal("l".to_string())]);
    let record1 = Record(vec![j, k, l]);
    let records = vec![record0, record1];
    let md = Md::Table(Box::new(Table { header, align, records }));
    let test_word = "| A | B | C | \n|-:|--|:-:|\n| d | e | f |\n| j | k | l |\n";
    assert_eq!(parse(&test_word), vec![md]);
}

#[test]
fn parser_tests_test_list() {
    let world = Words(vec![Word::Normal("World".to_string())]);
    let item0 = Item(world, Items(vec![]));
    let children = Items(vec![item0]);
    let hello = Words(vec![Word::Normal("Hello".to_string())]);
    let item = Item(hello, children);
    let md = Md::List(Items(vec![item]));
    assert_eq!(parse(&"- Hello\n  - World"), vec![md]);
}

#[test]
fn parse_of_empty_input_is_empty() {
    assert_eq!(parse(&""), Vec::<Md>::new());
}

#[test]
fn parse_is_deterministic() {
    let text = "# Title\n- a\n  - b\n| A | B |\n|-|-:|\n| c | d |\nplain **bold** tail";
    let first = parse(&text);
    let second = parse(&text);
    assert_eq!(first, second);
}

#[test]
fn parse_consumes_every_line_in_order() {
    let text = "# Title\nplain line\n- a\n  - b\nlast";
    let mds = parse(&text);
    assert_eq!(mds.len(), 4);
    assert!(matches!(mds[0], Md::Heading(1, _)));
    assert!(matches!(mds[1], Md::Sentence(_)));
    assert!(matches!(mds[2], Md::List(_)));
    assert!(matches!(mds[3], Md::Sentence(_)));
}
