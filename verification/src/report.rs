use vstd::prelude::*;
use vstd::string::StringExecFns;

use crate::reader::ReadResult;

verus! {

/// The character for one decimal digit.
pub open spec fn digit_char(d: nat) -> char
    recommends
        d < 10,
{
    ((d + 48) as char)
}

/// The decimal digits of `n`, most significant first, with no sign and no
/// leading zeros.
pub open spec fn decimal_digits(n: nat) -> Seq<char>
    decreases n,
{
    if n < 10 {
        seq![digit_char(n)]
    } else {
        decimal_digits(n / 10) + seq![digit_char(n % 10)]
    }
}

/// One decimal digit as text.
fn digit_text(d: usize) -> (r: &'static str)
    requires
        d < 10,
    ensures
        r@ == seq![digit_char(d as nat)],
{
    let r = match d {
        0 => "0",
        1 => "1",
        2 => "2",
        3 => "3",
        4 => "4",
        5 => "5",
        6 => "6",
        7 => "7",
        8 => "8",
        _ => "9",
    };
    proof {
        reveal_strlit("0");
        reveal_strlit("1");
        reveal_strlit("2");
        reveal_strlit("3");
        reveal_strlit("4");
        reveal_strlit("5");
        reveal_strlit("6");
        reveal_strlit("7");
        reveal_strlit("8");
        reveal_strlit("9");
        assert(r@ =~= seq![digit_char(d as nat)]);
    }
    r
}

/// Renders a line number in decimal.
pub fn line_number_text(n: usize) -> (r: String)
    ensures
        r@ == decimal_digits(n as nat),
    decreases n,
{
    if n < 10 {
        digit_text(n).to_owned()
    } else {
        let mut r = line_number_text(n / 10);
        r.append(digit_text(n % 10));
        r
    }
}

/// One reported match as a line of output: the originating path, the line
/// number in parentheses, and the line's content.
pub fn format_match_line(path: &str, rec: &ReadResult) -> (r: String)
    ensures
        r@ == path@ + " ("@ + decimal_digits(rec.line_number as nat) + "): "@
            + rec.line_content@,
{
    let mut r = path.to_owned();
    r.append(" (");
    let number = line_number_text(rec.line_number);
    r.append(number.as_str());
    r.append("): ");
    r.append(rec.line_content.as_str());
    r
}

} // verus!
