//! The list recognizer: an indentation-driven recursive parser.
//!
//! A line belongs to an item scan when, after trimming leading
//! whitespace, it starts with `-` and a space.  The nesting depth of a
//! line is its count of leading spaces divided by two.  After an item's
//! own line, a strictly deeper next line opens a child level, parsed
//! recursively at that deeper depth; a scan stops at a line that is
//! shallower than its level or that is no item at all.

use vstd::prelude::*;

use crate::parser::parser::{
    item_seq_model, lemma_item_seq_model_len, lemma_item_seq_model_push, result_models,
    spec_space, spec_split_first, space, split_first_pattern, Item, ItemModel, Items, Md,
    MdModel, ParsedResult,
};
use crate::parser::scan::{
    consume, is_suffix_of, leading_spaces, lemma_find_first, lemma_suffix_refl,
    lemma_suffix_trans, lemma_trim_start_skips, spec_starts_with, spec_trim_start, trim_start,
};
use crate::parser::sentence::{spec_words, words};

verus! {

/// The nesting depth of a line: its leading spaces, two per level.
pub open spec fn spec_count_tab(s: Seq<char>) -> int {
    leading_spaces(s) / 2
}

/// The executable depth count, agreeing with `spec_count_tab`.
pub fn count_tab(texts: &str) -> (r: usize)
    ensures
        r as int == spec_count_tab(texts@),
{
    let m = texts.unicode_len();
    let mut i: usize = 0;
    proof {
        assert(texts@.skip(0) =~= texts@);
    }
    while i < m && texts.get_char(i) == ' '
        invariant
            m == texts@.len(),
            0 <= i <= m,
            leading_spaces(texts@) == i + leading_spaces(texts@.skip(i as int)),
        decreases m - i,
    {
        proof {
            assert(texts@.skip(i as int)[0] == texts@[i as int]);
            assert(texts@.skip(i as int).drop_first() =~= texts@.skip(i + 1));
        }
        i += 1;
    }
    proof {
        if i < m {
            assert(texts@.skip(i as int)[0] == texts@[i as int]);
        }
        assert(leading_spaces(texts@.skip(i as int)) == 0);
    }
    i / 2
}

/// What one item yields: the first line must, after trimming, carry
/// the `-` marker and a space; its remainder is the item's inline
/// content.  If the following line is strictly deeper than `tab`, a
/// child level is parsed there, and the item ends where its children
/// end.
pub open spec fn spec_item(s: Seq<char>, tab: int) -> Option<(ItemModel, Seq<char>)>
    decreases s.len(), 0int,
    via spec_item_decreases
{
    let line = spec_split_first(s, seq!['\n']).0;
    let rest0 = spec_split_first(s, seq!['\n']).1;
    let t = spec_trim_start(line);
    if spec_starts_with(t, seq!['-']) {
        match spec_space(t.skip(1)) {
            Some(content) => {
                let ws = spec_words(content);
                let d = spec_count_tab(rest0);
                if d <= tab {
                    Some((ItemModel { words: ws, children: Seq::empty() }, rest0))
                } else {
                    let child = spec_items(rest0, d);
                    Some((ItemModel { words: ws, children: child.0 }, child.1))
                }
            },
            None => None,
        }
    } else {
        None
    }
}

#[via_fn]
proof fn spec_item_decreases(s: Seq<char>, tab: int) {
    lemma_find_first(s, seq!['\n']);
    let line = spec_split_first(s, seq!['\n']).0;
    lemma_trim_start_skips(line);
}

/// What one level yields: items are taken as long as the item pattern
/// matches and the line is not shallower than `tab`; the rest starts
/// at the first line that ends the scan.  The recursion is kept
/// well-founded by falling back to an empty rest where an item would
/// not have consumed anything; `lemma_item_consumes` shows that a
/// matched item always consumes, so the fallback never alters the
/// result.
pub open spec fn spec_items(s: Seq<char>, tab: int) -> (Seq<ItemModel>, Seq<char>)
    decreases s.len(), 1int,
{
    if s.len() == 0 {
        (Seq::empty(), s)
    } else {
        match spec_item(s, tab) {
            None => (Seq::empty(), s),
            Some((it, rest)) => if spec_count_tab(s) < tab {
                (Seq::empty(), s)
            } else {
                let next = if rest.len() < s.len() {
                    rest
                } else {
                    Seq::empty()
                };
                let more = spec_items(next, tab);
                (seq![it] + more.0, more.1)
            },
        }
    }
}

/// A matched item consumes at least one character, and a level scan
/// never consumes past its input.
pub proof fn lemma_item_consumes(s: Seq<char>, tab: int)
    ensures
        spec_item(s, tab) matches Some(pr) ==> pr.1.len() < s.len() && is_suffix_of(pr.1, s),
        spec_items(s, tab).1.len() <= s.len(),
        is_suffix_of(spec_items(s, tab).1, s),
    decreases s.len(), 1int,
{
    lemma_find_first(s, seq!['\n']);
    let line = spec_split_first(s, seq!['\n']).0;
    let rest0 = spec_split_first(s, seq!['\n']).1;
    lemma_trim_start_skips(line);
    crate::parser::parser::lemma_split_rest(s, seq!['\n']);
    if spec_item(s, tab) is Some {
        let d = spec_count_tab(rest0);
        if d > tab {
            lemma_items_consume(rest0, d);
            lemma_suffix_trans(spec_items(rest0, d).1, rest0, s);
        }
    }
    lemma_suffix_refl(s);
    if s.len() > 0 && spec_item(s, tab) is Some && spec_count_tab(s) >= tab {
        let rest = spec_item(s, tab).unwrap().1;
        lemma_items_consume(rest, tab);
        lemma_suffix_trans(spec_items(rest, tab).1, rest, s);
    }
}

/// A level scan never consumes past its input: its rest is a suffix.
pub proof fn lemma_items_consume(s: Seq<char>, tab: int)
    ensures
        spec_items(s, tab).1.len() <= s.len(),
        is_suffix_of(spec_items(s, tab).1, s),
    decreases s.len(), 2int,
{
    lemma_suffix_refl(s);
    if s.len() > 0 && spec_item(s, tab) is Some && spec_count_tab(s) >= tab {
        lemma_item_consumes(s, tab);
        let rest = spec_item(s, tab).unwrap().1;
        lemma_items_consume(rest, tab);
        lemma_suffix_trans(spec_items(rest, tab).1, rest, s);
    }
}

/// A matched list consumes at least one character, and its rest is a
/// suffix of the input.
pub proof fn lemma_list_consumes(s: Seq<char>)
    ensures
        spec_list(s) matches Some(pr) ==> pr.1.len() < s.len() && is_suffix_of(pr.1, s),
{
    if spec_list(s) is Some {
        lemma_item_consumes(s, 0);
        let rest = spec_item(s, 0).unwrap().1;
        lemma_items_consume(rest, 0);
        lemma_suffix_trans(spec_items(rest, 0).1, rest, s);
    }
}

/// A level scan never takes a line shallower than its level: below
/// the threshold it produces nothing and leaves the text untouched.
pub proof fn lemma_items_below_level(s: Seq<char>, tab: int)
    requires
        spec_count_tab(s) < tab,
    ensures
        spec_items(s, tab) == (Seq::<ItemModel>::empty(), s),
{
}

/// What the list recognizer yields: the level scan at depth zero, as
/// one `List` node, unless it produced no item at all.
pub open spec fn spec_list(s: Seq<char>) -> Option<(MdModel, Seq<char>)> {
    let scan = spec_items(s, 0);
    if scan.0.len() == 0 {
        None
    } else {
        Some((MdModel::List(scan.0), scan.1))
    }
}

/// One item and the text after it, exactly when `spec_item` matches.
pub fn item<'a>(texts: &'a str, tab_num: usize) -> (r: Option<ParsedResult<'a, Item>>)
    ensures
        match (r, spec_item(texts@, tab_num as int)) {
            (Some(pr), Some(si)) => pr.token@ == si.0 && pr.rest@ == si.1,
            (None, None) => true,
            _ => false,
        },
    decreases texts@.len(), 0int,
{
    proof {
        reveal_strlit("\n");
        reveal_strlit("-");
        assert("\n"@ =~= seq!['\n']);
        assert("-"@ =~= seq!['-']);
        lemma_find_first(texts@, seq!['\n']);
        lemma_trim_start_skips(spec_split_first(texts@, seq!['\n']).0);
    }
    let (line, rest0) = split_first_pattern(texts, "\n");
    let t = trim_start(line);
    let t = match consume(t, "-") {
        Some(t) => t,
        None => {
            return None;
        },
    };
    let content = match space(t) {
        Some(c) => c,
        None => {
            return None;
        },
    };
    let ws = words(content);
    let space_num = count_tab(rest0);
    if space_num <= tab_num {
        let mut none: Vec<Item> = Vec::new();
        proof {
            assert(item_seq_model(none@) =~= Seq::<ItemModel>::empty());
        }
        Some(ParsedResult::new(Item(ws, Items(none)), rest0))
    } else {
        let child = items(rest0, space_num);
        Some(ParsedResult::new(Item(ws, child.token), child.rest))
    }
}

/// One level of items and the text after it, as `spec_items` says.
pub fn items<'a>(texts: &'a str, tab_num: usize) -> (r: ParsedResult<'a, Items>)
    ensures
        r.token@ == spec_items(texts@, tab_num as int).0,
        r.rest@ == spec_items(texts@, tab_num as int).1,
    decreases texts@.len(), 1int,
{
    let mut acc: Vec<Item> = Vec::new();
    let mut cur: &str = texts;
    proof {
        assert(item_seq_model(acc@) =~= Seq::<ItemModel>::empty());
        assert(Seq::<ItemModel>::empty() + spec_items(cur@, tab_num as int).0 =~= spec_items(
            texts@,
            tab_num as int,
        ).0);
    }
    loop
        invariant
            cur@.len() <= texts@.len(),
            spec_items(texts@, tab_num as int).0 == item_seq_model(acc@) + spec_items(
                cur@,
                tab_num as int,
            ).0,
            spec_items(texts@, tab_num as int).1 == spec_items(cur@, tab_num as int).1,
        ensures
            item_seq_model(acc@) == spec_items(texts@, tab_num as int).0,
            cur@ == spec_items(texts@, tab_num as int).1,
        decreases cur@.len(),
    {
        let i = match item(cur, tab_num) {
            Some(i) => i,
            None => {
                proof {
                    assert(item_seq_model(acc@) + spec_items(cur@, tab_num as int).0
                        =~= item_seq_model(acc@));
                }
                break ;
            },
        };
        if count_tab(cur) < tab_num {
            proof {
                assert(item_seq_model(acc@) + spec_items(cur@, tab_num as int).0
                    =~= item_seq_model(acc@));
            }
            break ;
        }
        proof {
            lemma_item_consumes(cur@, tab_num as int);
            lemma_item_seq_model_push(acc@, i.token);
            assert(item_seq_model(acc@.push(i.token)) + spec_items(i.rest@, tab_num as int).0
                =~= item_seq_model(acc@) + spec_items(cur@, tab_num as int).0);
        }
        acc.push(i.token);
        cur = i.rest;
    }
    ParsedResult::new(Items(acc), cur)
}

/// The list recognizer.
pub fn list(texts: &str) -> (r: Option<ParsedResult<Md>>)
    ensures
        result_models(r, spec_list(texts@)),
{
    let l = items(texts, 0);
    proof {
        lemma_item_seq_model_len(l.token.0@);
    }
    if l.token.0.len() == 0 {
        None
    } else {
        Some(ParsedResult::new(Md::List(l.token), l.rest))
    }
}

} // verus!
