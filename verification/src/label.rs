//! The labels of the bookmarks that a merge makes: `Page_` and a number in decimal.
use vstd::prelude::*;

verus! {

/// The character of a decimal digit.
pub open spec fn digit(d: nat) -> char {
    if d == 0 {
        '0'
    } else if d == 1 {
        '1'
    } else if d == 2 {
        '2'
    } else if d == 3 {
        '3'
    } else if d == 4 {
        '4'
    } else if d == 5 {
        '5'
    } else if d == 6 {
        '6'
    } else if d == 7 {
        '7'
    } else if d == 8 {
        '8'
    } else {
        '9'
    }
}

/// A number in decimal, without leading zeros.
pub open spec fn decimal(n: nat) -> Seq<char>
    decreases n,
{
    if n < 10 {
        seq![digit(n)]
    } else {
        decimal(n / 10).push(digit(n % 10))
    }
}

/// The label of the bookmark with the given number.
pub open spec fn label_text(n: nat) -> Seq<char> {
    "Page_"@ + decimal(n)
}

fn digit_str(d: u32) -> (s: &'static str)
    requires
        d < 10,
    ensures
        s@ == seq![digit(d as nat)],
{
    proof {
        reveal_strlit("0");
        reveal_strlit("1");
        reveal_strlit("2");
        reveal_strlit("3");
        reveal_strlit("4");
        reveal_strlit("5");
        reveal_strlit("6");
        reveal_strlit("7");
        reveal_strlit("8");
        reveal_strlit("9");
    }
    let s = if d == 0 {
        "0"
    } else if d == 1 {
        "1"
    } else if d == 2 {
        "2"
    } else if d == 3 {
        "3"
    } else if d == 4 {
        "4"
    } else if d == 5 {
        "5"
    } else if d == 6 {
        "6"
    } else if d == 7 {
        "7"
    } else if d == 8 {
        "8"
    } else {
        "9"
    };
    assert(s@ =~= seq![digit(d as nat)]);
    s
}

/// Appends `n` in decimal to `text`.
pub fn push_decimal(text: &mut String, n: u32)
    ensures
        final(text)@ == old(text)@ + decimal(n as nat),
    decreases n,
{
    if n >= 10 {
        push_decimal(text, n / 10);
    }
    text.append(digit_str(n % 10));
    proof {
        if n >= 10 {
            assert(text@ =~= old(text)@ + decimal(n as nat));
        } else {
            assert(text@ =~= old(text)@ + decimal(n as nat));
        }
    }
}

/// The label of the bookmark with the given number: `Page_1`, `Page_2`, and so on.
pub fn page_label(n: u32) -> (label: String)
    ensures
        label@ == label_text(n as nat),
{
    let mut label = String::from_str("Page_");
    push_decimal(&mut label, n);
    label
}

/// The labels of 1, 2 and 10, written out.
pub proof fn lemma_labels_written_out()
    ensures
        label_text(1) == "Page_1"@,
        label_text(2) == "Page_2"@,
        label_text(10) == "Page_10"@,
{
    reveal_strlit("Page_");
    reveal_strlit("Page_1");
    reveal_strlit("Page_2");
    reveal_strlit("Page_10");
    reveal_with_fuel(decimal, 3);
    assert(label_text(1) =~= "Page_1"@);
    assert(label_text(2) =~= "Page_2"@);
    assert(label_text(10) =~= "Page_10"@);
}

} // verus!
