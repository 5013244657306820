use md2html::convert::convert::{
    header_to_html, item_to_html, items_to_html, md_to_html, mds_to_html, record_to_html,
    records_to_html, table_to_html, word_to_html, words_to_html,
};
use md2html::parser::parser::{Align, Item, Items, Md, Record, Table, Word, Words};

#[test]
fn test_mds_to_html() {
    let words = Words(vec![Word::Normal("Heading".to_string())]);
    let heading = Md::Heading(1, words);
    let words = Words(vec![Word::Normal("Hello".to_string())]);
    let hello_sentence = Md::Sentence(words);
    let words = Words(vec![Word::Normal("World".to_string())]);
    let world_sentence = Md::Sentence(words);

    let mds = vec![heading, hello_sentence, world_sentence];
    assert_eq!(mds_to_html(&mds), "<h1>Heading</h1>\nHello<br />\nWorld<br />".to_string());
}

#[test]
fn test_to_html() {
    let words = Words(vec![Word::Normal("Hello".to_string())]);
    let md = Md::Heading(1, words);
    assert_eq!(md_to_html(&md), "<h1>Hello</h1>".to_string());

    let words = Words(vec![Word::Normal("Hello".to_string())]);
    let md = Md::Sentence(words);
    assert_eq!(md_to_html(&md), "Hello<br />".to_string());

    let words = Words(vec![Word::Normal("item".to_string())]);
    let items = Items(vec![]);
    let item = Item(words, items);
    let items = Items(vec![item]);
    let md = Md::List(items);
    assert_eq!(md_to_html(&md), "<ul>\n<li>item</li>\n</ul>\n".to_string());
}

#[test]
fn test_word() {
    let word = Word::Normal("Hello".to_string());
    assert_eq!(word_to_html(&word), "Hello".to_string());

    let word = Word::Normal("Hello".to_string());
    let italic = Word::Italic(Words(vec![word]));
    assert_eq!(word_to_html(&italic), "<i>Hello</i>".to_string());

    let word = Word::Normal("Hello".to_string());
    let bold = Word::Bold(Words(vec![word]));
    assert_eq!(word_to_html(&bold), "<b>Hello</b>".to_string());

    let word = Word::Normal("Hello".to_string());
    let strike = Word::StrikeThough(Words(vec![word]));
    assert_eq!(word_to_html(&strike), "<s>Hello</s>".to_string());

    let word = Word::Normal("Hello".to_string());
    let line = Word::Underline(Words(vec![word]));
    assert_eq!(word_to_html(&line), "<u>Hello</u>".to_string());
}

#[test]
fn test_words_to_html() {
    let word = Word::Normal("Hello".to_string());
    let word1 = Word::Normal("World!".to_string());
    let bold = Word::Bold(Words(vec![word1]));
    let words = Words(vec![word, bold]);
    assert_eq!(words_to_html(&words), "Hello<b>World!</b>".to_string());
}

#[test]
fn test_header_to_html() {
    let hello = Words(vec![Word::Normal("hello".to_string())]);
    let world = Words(vec![Word::Normal("world".to_string())]);
    let header = Record(vec![hello, world]);
    assert_eq!(header_to_html(&header), "<th>hello</th><th>world</th>".to_string());
}

#[test]
fn test_record_to_html() {
    let hello = Words(vec![Word::Normal("hello".to_string())]);
    let world = Words(vec![Word::Normal("world".to_string())]);
    let record = Record(vec![hello, world]);
    let align = vec![Align::Left, Align::Left];
    assert_eq!(
        record_to_html(&record, &align),
        "<td align=\"left\">hello</td><td align=\"left\">world</td>".to_string()
    );

    let hello = Words(vec![Word::Normal("hello".to_string())]);
    let world = Words(vec![Word::Normal("world".to_string())]);
    let record = Record(vec![hello, world]);
    let align = vec![Align::Center, Align::Right];
    assert_eq!(
        record_to_html(&record, &align),
        "<td align=\"center\">hello</td><td align=\"right\">world</td>".to_string()
    );
}

#[test]
fn test_records_to_html() {
    let hello = Words(vec![Word::Normal("hello".to_string())]);
    let record0 = Record(vec![hello]);
    let world = Words(vec![Word::Normal("world".to_string())]);
    let record1 = Record(vec![world]);
    let records = vec![record0, record1];
    let aligns = vec![Align::Left];
    assert_eq!(
        records_to_html(&records, &aligns),
        "<tr><td align=\"left\">hello</td></tr>\n<tr><td align=\"left\">world</td></tr>\n"
            .to_string()
    );
}

#[test]
fn test_table_to_html() {
    let hello = Words(vec![Word::Normal("hello".to_string())]);
    let header = Record(vec![hello]);
    let world = Words(vec![Word::Normal("world".to_string())]);
    let record = Record(vec![world]);
    let records = vec![record];
    let aligns = vec![Align::Left];
    let table = Box::new(Table { header, align: aligns, records });
    assert_eq!(
        table_to_html(&table),
        "<table>\n<tr><th>hello</th></tr>\n<tr><td align=\"left\">world</td></tr>\n</table>\n"
            .to_string()
    );
}

#[test]
fn test_item_to_html() {
    let words = Words(vec![Word::Normal("item".to_string())]);
    let items = Items(vec![]);
    let item = Item(words, items);
    assert_eq!(item_to_html(&item), "<li>item</li>".to_string());

    let words = Words(vec![Word::Normal("parent".to_string())]);
    let words0 = Words(vec![Word::Normal("item".to_string())]);
    let item0 = Item(words0, Items(vec![]));
    let words1 = Words(vec![Word::Normal("item1".to_string())]);
    let item1 = Item(words1, Items(vec![]));
    let items = Items(vec![item0, item1]);
    let item = Item(words, items);
    let expect = "<li>parent\n<ul>\n<li>item</li>\n<li>item1</li>\n</ul>\n</li>".to_string();
    assert_eq!(item_to_html(&item), expect);
}

#[test]
fn test_items_to_html() {
    let words0 = Words(vec![Word::Normal("item".to_string())]);
    let item0 = Item(words0, Items(vec![]));
    let words1 = Words(vec![Word::Normal("item1".to_string())]);
    let item1 = Item(words1, Items(vec![]));
    let items = Items(vec![item0, item1]);
    assert_eq!(items_to_html(&items), "<ul>\n<li>item</li>\n<li>item1</li>\n</ul>\n".to_string());

    let words = Words(vec![Word::Normal("parent".to_string())]);
    let words0 = Words(vec![Word::Normal("item".to_string())]);
    let item0 = Item(words0, Items(vec![]));
    let words1 = Words(vec![Word::Normal("item1".to_string())]);
    let item1 = Item(words1, Items(vec![]));
    let items = Items(vec![item0, item1]);
    let item0 = Item(words, items);

    let words = Words(vec![Word::Normal("parent".to_string())]);
    let words0 = Words(vec![Word::Normal("item".to_string())]);
    let item2 = Item(words0, Items(vec![]));
    let words1 = Words(vec![Word::Normal("item1".to_string())]);
    let item3 = Item(words1, Items(vec![]));
    let items = Items(vec![item2, item3]);
    let item1 = Item(words, items);
    let items = Items(vec![item0, item1]);
    let expect =
        "<ul>\n<li>parent\n<ul>\n<li>item</li>\n<li>item1</li>\n</ul>\n</li>\n<li>parent\n<ul>\n<li>item</li>\n<li>item1</li>\n</ul>\n</li>\n</ul>\n"
            .to_string();
    assert_eq!(items_to_html(&items), expect);
}

#[test]
fn test_heading_levels_above_nine_render_all_digits() {
    let words = Words(vec![Word::Normal("deep".to_string())]);
    let md = Md::Heading(12, words);
    assert_eq!(md_to_html(&md), "<h12>deep</h12>".to_string());
}
