use vstd::prelude::*;
use vstd::string::StringExecFns;

use crate::cell::Cell;
use crate::region::Region;

verus! {

/// The glyph for one decimal digit.
pub open spec fn digit_char(d: int) -> char {
    if d == 0 {
        '0'
    } else if d == 1 {
        '1'
    } else if d == 2 {
        '2'
    } else if d == 3 {
        '3'
    } else if d == 4 {
        '4'
    } else if d == 5 {
        '5'
    } else if d == 6 {
        '6'
    } else if d == 7 {
        '7'
    } else if d == 8 {
        '8'
    } else {
        '9'
    }
}

/// The three-character glyph one cell renders as.
pub open spec fn glyph(c: Cell) -> Seq<char> {
    match c {
        Cell::Vacant => seq![' ', '.', ' '],
        Cell::Number(n) => seq![' ', digit_char(n as int), ' '],
        Cell::Shaded => seq![' ', '#', ' '],
    }
}

/// Decimal representation of a non-negative number, most significant digit
/// first.
pub open spec fn dec_rep(n: int) -> Seq<char>
    decreases n,
{
    if n < 10 {
        seq![digit_char(n)]
    } else {
        dec_rep(n / 10).push(digit_char(n % 10))
    }
}

/// One coordinate, rendered as `(row, col)`.
pub open spec fn render_coord(c: (usize, usize)) -> Seq<char> {
    seq!['('] + dec_rep(c.0 as int) + seq![',', ' '] + dec_rep(c.1 as int) + seq![')']
}

/// A comma-separated coordinate list.
pub open spec fn render_coord_list(s: Seq<(usize, usize)>) -> Seq<char>
    decreases s.len(),
{
    if s.len() == 0 {
        Seq::empty()
    } else if s.len() == 1 {
        render_coord(s[0])
    } else {
        render_coord_list(s.drop_last()) + seq![',', ' '] + render_coord(s.last())
    }
}

/// One region's line: its identifier and its bracketed coordinate list.
pub open spec fn render_region(reg: Region) -> Seq<char> {
    seq!['R', 'e', 'g', 'i', 'o', 'n', ' '] + dec_rep(reg.id as int) + seq![':', ' ', '[']
        + render_coord_list(reg.cells@) + seq![']', '\n']
}

/// The one-character string for a decimal digit.
pub fn digit_str(d: u8) -> (r: &'static str)
    requires
        d <= 9,
    ensures
        r@ =~= seq![digit_char(d as int)],
{
    if d == 0 {
        proof {
            reveal_strlit("0");
        }
        "0"
    } else if d == 1 {
        proof {
            reveal_strlit("1");
        }
        "1"
    } else if d == 2 {
        proof {
            reveal_strlit("2");
        }
        "2"
    } else if d == 3 {
        proof {
            reveal_strlit("3");
        }
        "3"
    } else if d == 4 {
        proof {
            reveal_strlit("4");
        }
        "4"
    } else if d == 5 {
        proof {
            reveal_strlit("5");
        }
        "5"
    } else if d == 6 {
        proof {
            reveal_strlit("6");
        }
        "6"
    } else if d == 7 {
        proof {
            reveal_strlit("7");
        }
        "7"
    } else if d == 8 {
        proof {
            reveal_strlit("8");
        }
        "8"
    } else {
        proof {
            reveal_strlit("9");
        }
        "9"
    }
}

/// Appends the decimal representation of `n`.
pub fn push_dec(out: &mut String, n: usize)
    ensures
        final(out)@ == old(out)@ + dec_rep(n as int),
    decreases n,
{
    if n >= 10 {
        push_dec(out, n / 10);
        out.append(digit_str((n % 10) as u8));
        proof {
            assert(out@ =~= old(out)@ + dec_rep(n as int));
        }
    } else {
        out.append(digit_str(n as u8));
        proof {
            assert(out@ =~= old(out)@ + dec_rep(n as int));
        }
    }
}

/// Appends one rendered coordinate.
pub fn push_coord(out: &mut String, c: (usize, usize))
    ensures
        final(out)@ == old(out)@ + render_coord(c),
{
    out.append("(");
    push_dec(out, c.0);
    out.append(", ");
    push_dec(out, c.1);
    out.append(")");
    proof {
        reveal_strlit("(");
        reveal_strlit(", ");
        reveal_strlit(")");
        assert("("@ =~= seq!['(']);
        assert(", "@ =~= seq![',', ' ']);
        assert(")"@ =~= seq![')']);
        assert(out@ =~= old(out)@ + render_coord(c));
    }
}

} // verus!
