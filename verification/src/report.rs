//! The report: the differences of one pair of files as text.

use crate::config::key_text;
use crate::diff::Difference;
use vstd::prelude::*;

verus! {

/// The character that stands for a digit.
pub open spec fn digit(d: int) -> char {
    if d == 0 {
        '0'
    } else if d == 1 {
        '1'
    } else if d == 2 {
        '2'
    } else if d == 3 {
        '3'
    } else if d == 4 {
        '4'
    } else if d == 5 {
        '5'
    } else if d == 6 {
        '6'
    } else if d == 7 {
        '7'
    } else if d == 8 {
        '8'
    } else {
        '9'
    }
}

/// A number in decimal notation, without leading zeros.
pub open spec fn decimal(n: nat) -> Seq<char>
    decreases n,
{
    if n < 10 {
        seq![digit(n as int)]
    } else {
        decimal(n / 10).push(digit((n % 10) as int))
    }
}

/// The lines that show one difference: the key, then the two values, each
/// on a line of its own.
pub open spec fn entry_text(difference: Difference) -> Seq<char> {
    "  "@ + key_text(difference.key@) + "\n    "@ + difference.left@ + "\n    "@
        + difference.right@ + "\n"@
}

/// The lines that show the differences, in their order.
pub open spec fn entries_text(differences: Seq<Difference>) -> Seq<char>
    decreases differences.len(),
{
    if differences.len() == 0 {
        Seq::empty()
    } else {
        entries_text(differences.drop_last()) + entry_text(differences.last())
    }
}

/// The report on one pair of files: a line with the file's name and the
/// number of differences, then the differences. Without differences there
/// is no report.
pub open spec fn report_text(file: Seq<char>, differences: Seq<Difference>) -> Seq<char> {
    if differences.len() == 0 {
        Seq::empty()
    } else {
        "# "@ + file + " ("@ + decimal(differences.len()) + ")\n"@ + entries_text(differences)
    }
}

fn digit_char(d: usize) -> (c: char)
    requires
        d < 10,
    ensures
        c == digit(d as int),
{
    if d == 0 {
        '0'
    } else if d == 1 {
        '1'
    } else if d == 2 {
        '2'
    } else if d == 3 {
        '3'
    } else if d == 4 {
        '4'
    } else if d == 5 {
        '5'
    } else if d == 6 {
        '6'
    } else if d == 7 {
        '7'
    } else if d == 8 {
        '8'
    } else {
        '9'
    }
}

/// Appends `n` in decimal notation.
pub fn push_decimal(text: &mut String, n: usize)
    ensures
        final(text)@ == old(text)@ + decimal(n as nat),
    decreases n,
{
    if n >= 10 {
        push_decimal(text, n / 10);
    }
    text.push(digit_char(n % 10));
    proof {
        assert(text@ =~= old(text)@ + decimal(n as nat));
    }
}

/// The report on one pair of files, ready to be printed.
pub fn report(file: &str, differences: &Vec<Difference>) -> (text: String)
    ensures
        text@ == report_text(file@, differences@),
{
    let mut text = String::new();
    if differences.len() == 0 {
        return text;
    }
    text.append("# ");
    text.append(file);
    text.append(" (");
    push_decimal(&mut text, differences.len());
    text.append(")\n");
    let ghost head = text@;
    proof {
        assert(head =~= "# "@ + file@ + " ("@ + decimal(differences@.len()) + ")\n"@);
        assert(differences@.take(0) =~= Seq::<Difference>::empty());
        assert(head + entries_text(differences@.take(0)) =~= head);
    }
    let mut i: usize = 0;
    while i < differences.len()
        invariant
            i <= differences.len(),
            text@ == head + entries_text(differences@.take(i as int)),
        decreases differences.len() - i,
    {
        let difference = &differences[i];
        let ghost before = text@;
        text.append("  ");
        text.append(difference.key.to_string().as_str());
        text.append("\n    ");
        text.append(difference.left.as_str());
        text.append("\n    ");
        text.append(difference.right.as_str());
        text.append("\n");
        proof {
            let upto = differences@.take(i + 1);
            assert(upto.drop_last() =~= differences@.take(i as int));
            assert(upto.last() == *difference);
            assert(text@ =~= before + entry_text(*difference));
            assert(text@ =~= head + entries_text(upto));
        }
        i += 1;
    }
    proof {
        assert(differences@.take(i as int) =~= differences@);
    }
    text
}

} // verus!
