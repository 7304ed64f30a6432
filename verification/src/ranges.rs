//! Range text: hand classes separated by commas (`AA, AKs, 72o`).

use vstd::prelude::*;

verus! {

/// The state of reading range text: the items finished so far and the
/// characters of the item being read.
pub struct Reading {
    pub items: Seq<Seq<char>>,
    pub current: Seq<char>,
}

/// Closes the item being read; an empty item is dropped.
pub open spec fn close_item(r: Reading) -> Reading {
    if r.current.len() > 0 {
        Reading { items: r.items.push(r.current), current: Seq::empty() }
    } else {
        r
    }
}

/// The state after the first `n` characters of the text: a comma closes an
/// item, a blank is skipped, any other character joins the current item.
pub open spec fn read_prefix(text: Seq<char>, n: nat) -> Reading
    decreases n,
{
    if n == 0 {
        Reading { items: Seq::empty(), current: Seq::empty() }
    } else {
        let before = read_prefix(text, (n - 1) as nat);
        let c = text[n - 1];
        if c == ',' {
            close_item(before)
        } else if c == ' ' {
            before
        } else {
            Reading { items: before.items, current: before.current.push(c) }
        }
    }
}

/// The items of a range text, in order: the runs of characters between
/// commas, without blanks, leaving out the empty ones.
pub open spec fn range_items(text: Seq<char>) -> Seq<Seq<char>> {
    close_item(read_prefix(text, text.len())).items
}

/// The texts that a vector of strings holds.
pub open spec fn texts_of(items: Seq<String>) -> Seq<Seq<char>> {
    Seq::new(items.len(), |i: int| items[i]@)
}

/// Splits a range text into its hand classes.
pub fn parse_range(text: &str) -> (items: Vec<String>)
    ensures
        texts_of(items@) == range_items(text@),
{
    let n: usize = text.unicode_len();
    let mut items: Vec<String> = Vec::new();
    let mut current: String = String::new();
    let mut i: usize = 0;
    assert(texts_of(items@) =~= Seq::<Seq<char>>::empty());
    while i < n
        invariant
            i <= n,
            n == text@.len(),
            texts_of(items@) == read_prefix(text@, i as nat).items,
            current@ == read_prefix(text@, i as nat).current,
        decreases n - i,
    {
        let c: char = text.get_char(i);
        let ghost before = texts_of(items@);
        if c == ',' {
            if current.as_str().unicode_len() > 0 {
                items.push(current);
                assert(texts_of(items@) =~= before.push(current@));
                current = String::new();
            }
        } else if c != ' ' {
            current.push(c);
        }
        i += 1;
    }
    let ghost before = texts_of(items@);
    if current.as_str().unicode_len() > 0 {
        items.push(current);
        assert(texts_of(items@) =~= before.push(current@));
    }
    items
}

} // verus!
