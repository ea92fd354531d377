use crate::value::{decimal, decimal_text, digits};
use vstd::prelude::*;
use vstd::string::{StrSliceExecFns, StringExecFns};

verus! {

/// `n` times the character `0`.
pub open spec fn zeros(n: nat) -> Seq<char> {
    Seq::new(n, |i: int| '0')
}

/// The numeral of `n`, filled up with zeros to `width` characters; the sign of
/// a negative number stands before the zeros and counts as one of them.
pub open spec fn padded(n: int, width: nat) -> Seq<char> {
    let magnitude = if n < 0 {
        (-n) as nat
    } else {
        n as nat
    };
    let sign = if n < 0 {
        seq!['-']
    } else {
        Seq::empty()
    };
    let fill = if sign.len() + digits(magnitude).len() < width {
        (width - sign.len() - digits(magnitude).len()) as nat
    } else {
        0nat
    };
    sign + zeros(fill) + digits(magnitude)
}

/// What the clock shows: the time of day, two line breaks, and the date.
pub open spec fn clock_face(
    hour: u32,
    minute: u32,
    second: u32,
    year: i32,
    month: u32,
    day: u32,
) -> Seq<char> {
    padded(hour as int, 2) + seq![':'] + padded(minute as int, 2) + seq![':'] + padded(
        second as int,
        2,
    ) + seq!['\r', '\r'] + padded(year as int, 4) + seq!['-'] + padded(month as int, 2) + seq![
        '-',
    ] + padded(day as int, 2)
}

/// Appends to `text` the numeral of `n`, filled up with zeros to `width` characters.
fn append_padded(text: &mut String, n: i64, width: usize)
    requires
        n > i64::MIN,
    ensures
        final(text)@ == old(text)@ + padded(n as int, width as nat),
{
    let magnitude: i64 = if n < 0 {
        -n
    } else {
        n
    };
    let numeral = decimal_text(magnitude);
    let length = numeral.as_str().unicode_len();
    let fill: usize = if n < 0 {
        if width > length && width - length > 1 {
            width - length - 1
        } else {
            0
        }
    } else {
        if width > length {
            width - length
        } else {
            0
        }
    };
    if n < 0 {
        proof {
            reveal_strlit("-");
        }
        text.append("-");
    }
    let ghost sign = if n < 0 {
        seq!['-']
    } else {
        Seq::<char>::empty()
    };
    let ghost start = text@;
    proof {
        assert(start =~= old(text)@ + sign);
        assert(start + zeros(0) =~= start);
    }
    let mut filled: usize = 0;
    while filled < fill
        invariant
            filled <= fill,
            text@ == start + zeros(filled as nat),
        decreases fill - filled,
    {
        proof {
            reveal_strlit("0");
        }
        let ghost had = text@;
        text.append("0");
        proof {
            assert(had + "0"@ =~= start + zeros((filled + 1) as nat));
        }
        filled += 1;
    }
    text.append(numeral.as_str());
    proof {
        assert(decimal(magnitude as int) == digits(magnitude as nat));
        assert(text@ =~= old(text)@ + (sign + zeros(fill as nat) + digits(magnitude as nat)));
    }
}

/// What the clock shows for a time and a date: hour, minute and second with
/// two digits each and colons between them, two line breaks, and the year with
/// four digits, the month and the day with two, with hyphens between them.
pub fn clock_text(hour: u32, minute: u32, second: u32, year: i32, month: u32, day: u32) -> (text:
    String)
    ensures
        text@ == clock_face(hour, minute, second, year, month, day),
{
    proof {
        reveal_strlit(":");
        reveal_strlit("-");
        reveal_strlit("\r\r");
    }
    let mut text = String::new();
    append_padded(&mut text, hour as i64, 2);
    text.append(":");
    append_padded(&mut text, minute as i64, 2);
    text.append(":");
    append_padded(&mut text, second as i64, 2);
    text.append("\r\r");
    append_padded(&mut text, year as i64, 4);
    text.append("-");
    append_padded(&mut text, month as i64, 2);
    text.append("-");
    append_padded(&mut text, day as i64, 2);
    proof {
        assert(":"@ =~= seq![':']);
        assert("-"@ =~= seq!['-']);
        assert("\r\r"@ =~= seq!['\r', '\r']);
        assert(text@ =~= clock_face(hour, minute, second, year, month, day));
    }
    text
}

} // verus!
