//! Building text: appending characters and writing numbers in decimal.

use vstd::prelude::*;

verus! {

/// `String::push` appends one character to the text.
pub assume_specification[ String::push ](s: &mut String, ch: char)
    ensures
        final(s)@ == old(s)@.push(ch),
;

/// The character of a decimal digit (`9` for anything above 8).
pub open spec fn digit_char(d: int) -> char {
    if d <= 0 {
        '0'
    } else if d == 1 {
        '1'
    } else if d == 2 {
        '2'
    } else if d == 3 {
        '3'
    } else if d == 4 {
        '4'
    } else if d == 5 {
        '5'
    } else if d == 6 {
        '6'
    } else if d == 7 {
        '7'
    } else if d == 8 {
        '8'
    } else {
        '9'
    }
}

/// A natural number in decimal, without leading zeros.
pub open spec fn decimal(n: nat) -> Seq<char>
    decreases n,
{
    if n < 10 {
        seq![digit_char(n as int)]
    } else {
        decimal(n / 10).push(digit_char((n % 10) as int))
    }
}

/// An amount of thousandths written in units with one decimal, rounded to
/// the nearest tenth, halves up: 3300 is `3.3`, 5000 is `5.0`, 1250 `1.3`.
pub open spec fn one_decimal(thousandths: nat) -> Seq<char> {
    let tenths = (thousandths + 50) / 100;
    decimal(tenths / 10) + seq!['.', digit_char((tenths % 10) as int)]
}

/// The character of a digit below 10.
pub fn digit_to_char(d: u8) -> (c: char)
    requires
        d < 10,
    ensures
        c == digit_char(d as int),
{
    if d == 0 {
        '0'
    } else if d == 1 {
        '1'
    } else if d == 2 {
        '2'
    } else if d == 3 {
        '3'
    } else if d == 4 {
        '4'
    } else if d == 5 {
        '5'
    } else if d == 6 {
        '6'
    } else if d == 7 {
        '7'
    } else if d == 8 {
        '8'
    } else {
        '9'
    }
}

/// Appends a number in decimal to the text.
pub fn push_decimal(text: &mut String, n: u64)
    ensures
        final(text)@ == old(text)@ + decimal(n as nat),
{
    // Collect the digits lowest first, then append them highest first.
    let mut low_first: Vec<u8> = Vec::new();
    let mut rest: u64 = n;
    while rest >= 10
        invariant
            forall|i: int| 0 <= i < low_first@.len() ==> (#[trigger] low_first@[i]) < 10,
            decimal(n as nat) == decimal(rest as nat) + tail_text(low_first@, low_first@.len()),
        decreases rest,
    {
        let d: u8 = (rest % 10) as u8;
        let ghost before = low_first@;
        low_first.push(d);
        proof {
            lemma_tail_text_push(before, d);
            assert(decimal(rest as nat) == decimal((rest / 10) as nat).push(digit_char(d as int)));
            assert(decimal((rest / 10) as nat).push(digit_char(d as int)) + tail_text(
                before,
                before.len(),
            ) =~= decimal((rest / 10) as nat) + tail_text(low_first@, low_first@.len()));
        }
        rest = rest / 10;
    }
    text.push(digit_to_char(rest as u8));
    assert(decimal(rest as nat) =~= seq![digit_char(rest as int)]);
    let mut k: usize = low_first.len();
    while k > 0
        invariant
            k <= low_first@.len(),
            forall|i: int| 0 <= i < low_first@.len() ==> (#[trigger] low_first@[i]) < 10,
            text@ + tail_text(low_first@, k as nat) == old(text)@ + decimal(rest as nat) + tail_text(
                low_first@,
                low_first@.len(),
            ),
        decreases k,
    {
        let ghost before = text@;
        text.push(digit_to_char(low_first[k - 1]));
        assert(before + tail_text(low_first@, k as nat) =~= text@ + tail_text(
            low_first@,
            (k - 1) as nat,
        ));
        k -= 1;
    }
    assert(text@ + tail_text(low_first@, 0) =~= text@);
}

/// The text of the first `k` digits of a list that holds them lowest
/// first: the `k`-th comes first, the lowest last.
pub open spec fn tail_text(low_first: Seq<u8>, k: nat) -> Seq<char>
    decreases k,
{
    if k == 0 || k > low_first.len() {
        Seq::empty()
    } else {
        seq![digit_char(low_first[k - 1] as int)] + tail_text(low_first, (k - 1) as nat)
    }
}

proof fn lemma_tail_text_same(a: Seq<u8>, b: Seq<u8>, k: nat)
    requires
        k <= a.len(),
        k <= b.len(),
        forall|i: int| 0 <= i < k ==> a[i] == b[i],
    ensures
        tail_text(a, k) == tail_text(b, k),
    decreases k,
{
    if k > 0 {
        lemma_tail_text_same(a, b, (k - 1) as nat);
    }
}

proof fn lemma_tail_text_push(low_first: Seq<u8>, d: u8)
    ensures
        tail_text(low_first.push(d), low_first.len() + 1) == seq![digit_char(d as int)] + tail_text(
            low_first,
            low_first.len(),
        ),
{
    lemma_tail_text_same(low_first, low_first.push(d), low_first.len());
}

/// Appends an amount of thousandths, written with one decimal.
pub fn push_one_decimal(text: &mut String, thousandths: u64)
    ensures
        final(text)@ == old(text)@ + one_decimal(thousandths as nat),
{
    let hundredths_up: u64 = if thousandths % 100 >= 50 {
        1
    } else {
        0
    };
    let tenths: u64 = thousandths / 100 + hundredths_up;
    assert(tenths == (thousandths + 50) / 100);
    push_decimal(text, tenths / 10);
    let ghost before = text@;
    text.push('.');
    text.push(digit_to_char((tenths % 10) as u8));
    assert(text@ =~= old(text)@ + one_decimal(thousandths as nat));
}

} // verus!
