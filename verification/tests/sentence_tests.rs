use md2html::parser::parser::{Md, ParsedResult, Word, Words};
use md2html::parser::sentence::sentence;

#[test]
fn sentence_test_sentence() {
    let words = Words(vec![Word::Normal("Hello World!".to_string())]);
    let token = Md::Sentence(words);
    let rest = "";
    assert_eq!(sentence(&"Hello World!"), Some(ParsedResult { token, rest }));
}

#[test]
fn sentence_test_text() {
    let words = Words(vec![Word::Normal("Hello World!".to_string())]);
    let token = Md::Sentence(words);
    let rest = "";
    assert_eq!(sentence(&"Hello World!"), Some(ParsedResult { token, rest }));
}

#[test]
fn sentence_test_italic() {
    let words = Words(vec![Word::Normal("Hello World!".to_string())]);
    let words = Words(vec![Word::Italic(words)]);
    let token = Md::Sentence(words);
    let rest = "";
    assert_eq!(sentence(&"*Hello World!*"), Some(ParsedResult { token, rest }));
}

#[test]
fn sentence_test_bold() {
    let words = Words(vec![Word::Normal("Hello World!".to_string())]);
    let words = Words(vec![Word::Bold(words)]);
    let token = Md::Sentence(words);
    let rest = "";
    assert_eq!(sentence(&"**Hello World!**"), Some(ParsedResult { token, rest }));
}

#[test]
fn sentence_test_strike_though() {
    let words = Words(vec![Word::Normal("Hello World!".to_string())]);
    let words = Words(vec![Word::StrikeThough(words)]);
    let token = Md::Sentence(words);
    let rest = "";
    assert_eq!(sentence(&"~~Hello World!~~"), Some(ParsedResult { token, rest }));
}

#[test]
fn sentence_test_underline() {
    let words = Words(vec![Word::Normal("Hello World!".to_string())]);
    let words = Words(vec![Word::Underline(words)]);
    let token = Md::Sentence(words);
    let rest = "";
    assert_eq!(sentence(&"__Hello World!__"), Some(ParsedResult { token, rest }));
}

#[test]
fn sentence_test_mix() {
    let words = Words(vec![Word::Normal("Hello World!".to_string())]);
    let words = Words(vec![Word::Bold(words)]);
    let words = Words(vec![Word::Underline(words)]);
    let token = Md::Sentence(words);
    let rest = "";
    assert_eq!(sentence(&"__**Hello World!**__"), Some(ParsedResult { token, rest }));

    let words = Words(vec![Word::Normal("Hello World!".to_string())]);
    let words = Words(vec![Word::Underline(words)]);
    let words = Words(vec![Word::Bold(words)]);
    let token = Md::Sentence(words);
    let rest = "";
    assert_eq!(sentence(&"**__Hello World!__**"), Some(ParsedResult { token, rest }));

    let words = Words(vec![Word::Normal("Hello World!".to_string())]);
    let words = Words(vec![Word::Underline(words)]);
    let words = Words(vec![Word::Bold(words)]);
    let words = Words(vec![Word::StrikeThough(words)]);
    let token = Md::Sentence(words);
    let rest = "";
    assert_eq!(sentence(&"~~**__Hello World!__**~~"), Some(ParsedResult { token, rest }));
}

#[test]
fn sentence_test_text_vec() {
    let word0 = Word::Normal("Hello ".to_string());
    let word1 = Word::Bold(Words(vec![Word::Normal("World!".to_string())]));
    let words = Words(vec![word0, word1]);
    let token = Md::Sentence(words);
    let rest = "";
    assert_eq!(sentence(&"Hello **World!**"), Some(ParsedResult { token, rest }));

    let word0 = Word::Normal("Hello ".to_string());
    let word1 = Word::Normal("**".to_string());
    let word2 = Word::Normal("World!".to_string());
    let words = Words(vec![word0, word1, word2]);
    let token = Md::Sentence(words);
    let rest = "";
    assert_eq!(sentence(&"Hello **World!"), Some(ParsedResult { token, rest }));
}

#[test]
fn sentence_test_text_abnormal() {
    let word0 = Word::Normal("Hello ".to_string());
    let word1 = Word::Normal("**".to_string());
    let word2 = Word::Normal("**".to_string());
    let word3 = Word::Normal("World!".to_string());
    let words = Words(vec![word0, word1, word2, word3]);
    let token = Md::Sentence(words);
    let rest = "";
    assert_eq!(sentence(&"Hello ****World!"), Some(ParsedResult { token, rest }));

    let word0 = Word::Normal("Hello ".to_string());
    let word1 = Word::Normal("**".to_string());
    let word2 = Word::Normal("~~".to_string());
    let word3 = Word::Normal("World!".to_string());
    let words = Words(vec![word0, word1, word2, word3]);
    let token = Md::Sentence(words);
    let rest = "";
    assert_eq!(sentence(&"Hello **~~World!"), Some(ParsedResult { token, rest }));

    let word0 = Word::Normal("~~".to_string());
    let word1 = Word::Normal("World!".to_string());
    let bold = Word::Bold(Words(vec![word0, word1]));
    let normal = Word::Normal("Hello ".to_string());
    let words = Words(vec![normal, bold]);
    let token = Md::Sentence(words);
    let rest = "";
    assert_eq!(sentence(&"Hello **~~World!**"), Some(ParsedResult { token, rest }));

    let strike = Word::Normal("~~".to_string());
    let wor = Word::Normal("Wor".to_string());
    let ld = Word::Normal("ld!".to_string());
    let un = Word::Underline(Words(vec![ld]));
    let bold = Word::Bold(Words(vec![strike, wor, un]));
    let hello = Word::Normal("Hello ".to_string());
    let token = Words(vec![hello, bold]);
    let token = Md::Sentence(token);
    let rest = "";
    assert_eq!(sentence(&"Hello **~~Wor__ld!__**"), Some(ParsedResult { token, rest }));
}

#[test]
fn test_text_multiline() {
    let test_word = "Hello\n World!";
    let token = Word::Normal("Hello".to_string());
    let token = Words(vec![token]);
    let token = Md::Sentence(token);
    let rest = " World!";
    assert_eq!(sentence(&test_word), Some(ParsedResult { token, rest }));

    let test_word = "**Hello**\n World!";
    let token = Word::Normal("Hello".to_string());
    let token = Word::Bold(Words(vec![token]));
    let token = Words(vec![token]);
    let token = Md::Sentence(token);
    let rest = " World!";
    assert_eq!(sentence(&test_word), Some(ParsedResult { token, rest }));
}

#[test]
fn sentence_declines_empty_input() {
    assert_eq!(sentence(&""), None);
}

#[test]
fn empty_delimiter_pair_degrades_to_literals() {
    let ast0 = Word::Normal("**".to_string());
    let ast1 = Word::Normal("**".to_string());
    let words = Words(vec![ast0, ast1]);
    let token = Md::Sentence(words);
    let rest = "";
    assert_eq!(sentence(&"****"), Some(ParsedResult { token, rest }));
}
