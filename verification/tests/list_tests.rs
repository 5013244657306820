use md2html::parser::list::{count_tab, item, items, list};
use md2html::parser::parser::{Item, Items, Md, ParsedResult, Word, Words};

#[test]
fn test_item() {
    let words = Words(vec![Word::Normal("Hello World!".to_string())]);
    let token = Item(words, Items(vec![]));
    let rest = "";
    assert_eq!(item(&"- Hello World!\n", 0), Some(ParsedResult { token, rest }));

    let words = Words(vec![Word::Normal("Hello World!".to_string())]);
    let token = Item(words, Items(vec![]));
    let rest = "";
    assert_eq!(item(&"- Hello World!", 0), Some(ParsedResult { token, rest }));
    assert_eq!(item(&"Hello World!", 0), None);
    assert_eq!(item(&"-Hello World!", 0), None);
}

#[test]
fn test_items() {
    let words = Words(vec![Word::Normal("Hello".to_string())]);
    let item0 = Item(words, Items(vec![]));
    let words = Words(vec![Word::Normal("World".to_string())]);
    let item1 = Item(words, Items(vec![]));
    let words = Words(vec![Word::Normal("Rust".to_string())]);
    let item2 = Item(words, Items(vec![]));
    let token = Items(vec![item0, item1, item2]);
    let rest = "";
    assert_eq!(items(&"- Hello\n- World\n- Rust", 0), ParsedResult { token, rest });
    assert_eq!(items(&"Rust", 0), ParsedResult { token: Items(vec![]), rest: "Rust" });
}

#[test]
fn test_nest_items() {
    let words = Words(vec![Word::Normal("World".to_string())]);
    let children = Items(vec![Item(words, Items(vec![]))]);
    let words = Words(vec![Word::Normal("Hello".to_string())]);
    let token = Items(vec![Item(words, children)]);
    let rest = "";
    assert_eq!(items(&"- Hello\n  - World", 0), ParsedResult { token, rest });

    let world = Words(vec![Word::Normal("World".to_string())]);
    let item0 = Item(world, Items(vec![]));
    let world = Words(vec![Word::Normal("End".to_string())]);
    let item1 = Item(world, Items(vec![]));
    let children = Items(vec![item0, item1]);
    let words = Words(vec![Word::Normal("Hello".to_string())]);
    let token = Items(vec![Item(words, children)]);
    let rest = "";
    assert_eq!(items(&"- Hello\n  - World\n  - End", 0), ParsedResult { token, rest });

    let words = Words(vec![Word::Normal("World".to_string())]);
    let children = Items(vec![Item(words, Items(vec![]))]);
    let words = Words(vec![Word::Normal("Hello".to_string())]);
    let item0 = Item(words, children);
    let end = Words(vec![Word::Normal("End".to_string())]);
    let item1 = Item(end, Items(vec![]));
    let token = Items(vec![item0, item1]);
    let rest = "";
    assert_eq!(items(&"- Hello\n  - World\n- End", 0), ParsedResult { token, rest });

    let words = Words(vec![Word::Normal("World".to_string())]);
    let item0 = Item(words, Items(vec![]));
    let words = Words(vec![Word::Normal("End".to_string())]);
    let item1 = Item(words, Items(vec![]));
    let children = Items(vec![item0, item1]);

    let words = Words(vec![Word::Normal("Hello".to_string())]);
    let item0 = Item(words, children);
    let words = Words(vec![Word::Normal("Reboot".to_string())]);
    let item1 = Item(words, Items(vec![]));
    let token = Items(vec![item0, item1]);
    let rest = "";
    assert_eq!(items(&"- Hello\n  - World\n  - End\n- Reboot", 0), ParsedResult { token, rest });

    let words = Words(vec![Word::Normal("End".to_string())]);
    let children = Items(vec![Item(words, Items(vec![]))]);

    let words = Words(vec![Word::Normal("World".to_string())]);
    let children = Items(vec![Item(words, children)]);

    let words = Words(vec![Word::Normal("Hello".to_string())]);
    let item0 = Item(words, children);

    let words = Words(vec![Word::Normal("Reboot".to_string())]);
    let item1 = Item(words, Items(vec![]));

    let token = Items(vec![item0, item1]);
    let rest = "";
    assert_eq!(
        items(&"- Hello\n  - World\n    - End\n- Reboot", 0),
        ParsedResult { token, rest }
    );
}

#[test]
fn test_tab() {
    assert_eq!(count_tab("  hello"), 1);
    assert_eq!(count_tab("hello"), 0);
    assert_eq!(count_tab("     hello"), 2);
}

#[test]
fn list_test_list() {
    let words = Words(vec![Word::Normal("World".to_string())]);
    let children = Items(vec![Item(words, Items(vec![]))]);
    let words = Words(vec![Word::Normal("Hello".to_string())]);
    let item = Item(words, children);
    let token = Md::List(Items(vec![item]));
    let rest = "";
    assert_eq!(list(&"- Hello\n  - World"), Some(ParsedResult { token, rest }));
}

#[test]
fn skipped_indent_level_still_nests_once() {
    let words = Words(vec![Word::Normal("World".to_string())]);
    let children = Items(vec![Item(words, Items(vec![]))]);
    let words = Words(vec![Word::Normal("Hello".to_string())]);
    let token = Items(vec![Item(words, children)]);
    let rest = "";
    assert_eq!(items(&"- Hello\n    - World", 0), ParsedResult { token, rest });
}

#[test]
fn list_declines_plain_text() {
    assert_eq!(list(&"Hello\n- World"), None);
}
