//! Where the input of a day is looked for.

use vstd::prelude::*;
use vstd::string::StringExecFns;
use crate::digits::{decimal_digits, digits_of};

verus! {

/// The character of a decimal digit.
pub open spec fn digit_char(d: u8) -> char {
    if d == 0 {
        '0'
    } else if d == 1 {
        '1'
    } else if d == 2 {
        '2'
    } else if d == 3 {
        '3'
    } else if d == 4 {
        '4'
    } else if d == 5 {
        '5'
    } else if d == 6 {
        '6'
    } else if d == 7 {
        '7'
    } else if d == 8 {
        '8'
    } else {
        '9'
    }
}

/// The characters that write the number `n`.
pub open spec fn decimal_text(n: nat) -> Seq<char> {
    Seq::new(digits_of(n).len(), |i: int| digit_char(digits_of(n)[i]))
}

/// The characters that write the number `n` with two digits at least.
pub open spec fn two_digits(n: nat) -> Seq<char> {
    if n < 10 {
        seq!['0'] + decimal_text(n)
    } else {
        decimal_text(n)
    }
}

/// The name of the day's input file, of its example file, or of the file
/// with the example of one part.
pub open spec fn input_path(day: nat, example: bool, part: Option<u8>) -> Seq<char> {
    "inputs/"@ + two_digits(day) + (if example {
        "-example"@
    } else {
        Seq::empty()
    }) + (match part {
        Some(p) => "-"@ + decimal_text(p as nat),
        None => Seq::empty(),
    }) + ".txt"@
}

/// The files where the input may be, the first that exists being the one
/// to read: for an example the example of the part, then the example of the
/// day; in any case the file of the day.
pub open spec fn possible_paths(day: nat, example: bool, part: u8) -> Seq<Seq<char>> {
    if example {
        seq![
            input_path(day, true, Some(part)),
            input_path(day, true, None),
            input_path(day, false, None),
        ]
    } else {
        seq![input_path(day, false, None)]
    }
}

/// The views of a list of strings.
pub open spec fn texts(paths: Seq<String>) -> Seq<Seq<char>> {
    Seq::new(paths.len(), |i: int| paths[i]@)
}

/// Appends the number `n` to `text`.
pub fn push_number(text: &mut String, n: u64)
    ensures
        final(text)@ == old(text)@ + decimal_text(n as nat),
{
    let digits = decimal_digits(n);
    let ghost start = text@;
    let mut i: usize = 0;
    while i < digits.len()
        invariant
            i <= digits.len(),
            digits@ == digits_of(n as nat),
            text@ == start + decimal_text(n as nat).take(i as int),
        decreases digits.len() - i,
    {
        let d: u8 = digits[i];
        let ghost before = text@;
        proof {
            reveal_strlit("0");
            reveal_strlit("1");
            reveal_strlit("2");
            reveal_strlit("3");
            reveal_strlit("4");
            reveal_strlit("5");
            reveal_strlit("6");
            reveal_strlit("7");
            reveal_strlit("8");
            reveal_strlit("9");
        }
        if d == 0 {
            text.append("0");
        } else if d == 1 {
            text.append("1");
        } else if d == 2 {
            text.append("2");
        } else if d == 3 {
            text.append("3");
        } else if d == 4 {
            text.append("4");
        } else if d == 5 {
            text.append("5");
        } else if d == 6 {
            text.append("6");
        } else if d == 7 {
            text.append("7");
        } else if d == 8 {
            text.append("8");
        } else {
            text.append("9");
        }
        proof {
            let all = decimal_text(n as nat);
            assert(text@ =~= before.push(digit_char(d)));
            assert(all.take(i + 1) =~= all.take(i as int).push(all[i as int]));
            assert(start + all.take(i + 1) =~= (start + all.take(i as int)).push(all[i as int]));
        }
        i = i + 1;
    }
    proof {
        assert(decimal_text(n as nat).take(digits.len() as int) == decimal_text(n as nat));
    }
}

/// The name of one input file.
pub fn path_of(day: usize, example: bool, part: Option<u8>) -> (path: String)
    ensures
        path@ == input_path(day as nat, example, part),
{
    let mut path = String::from_str("inputs/");
    if day < 10 {
        proof {
            reveal_strlit("0");
        }
        let ghost before = path@;
        path.append("0");
        proof {
            assert(path@ =~= before + seq!['0']);
        }
    }
    push_number(&mut path, day as u64);
    proof {
        assert(path@ =~= "inputs/"@ + two_digits(day as nat));
    }
    if example {
        path.append("-example");
    }
    match part {
        Some(p) => {
            path.append("-");
            push_number(&mut path, p as u64);
        },
        None => {},
    }
    path.append(".txt");
    proof {
        assert(path@ =~= input_path(day as nat, example, part));
    }
    path
}

/// The files where the input of a day may be, the first to look for
/// first.
pub fn get_possible_paths(day: usize, example: bool, part: u8) -> (paths: Vec<String>)
    ensures
        texts(paths@) == possible_paths(day as nat, example, part),
{
    let mut paths: Vec<String> = Vec::new();
    if example {
        paths.push(path_of(day, true, Some(part)));
        paths.push(path_of(day, true, None));
    }
    paths.push(path_of(day, false, None));
    proof {
        assert(texts(paths@) =~= possible_paths(day as nat, example, part));
    }
    paths
}

} // verus!
