//! Numbers, days and minutes written out as text.

use vstd::prelude::*;
use vstd::string::*;
use crate::calendar::{CalendarDate, Slot};

verus! {

/// The character for a decimal digit.
pub open spec fn digit_char(d: int) -> char {
    if d == 0 {
        '0'
    } else if d == 1 {
        '1'
    } else if d == 2 {
        '2'
    } else if d == 3 {
        '3'
    } else if d == 4 {
        '4'
    } else if d == 5 {
        '5'
    } else if d == 6 {
        '6'
    } else if d == 7 {
        '7'
    } else if d == 8 {
        '8'
    } else {
        '9'
    }
}

/// `n` in decimal, without leading zeros.
pub open spec fn decimal(n: nat) -> Seq<char>
    decreases n,
{
    if n < 10 {
        seq![digit_char(n as int)]
    } else {
        decimal(n / 10).push(digit_char((n % 10) as int))
    }
}

/// `count` zeros.
pub open spec fn zeros(count: int) -> Seq<char> {
    Seq::new(if count > 0 { count as nat } else { 0 }, |i: int| '0')
}

/// `n` in decimal, with zeros in front where it has fewer than `width`
/// digits.
pub open spec fn zero_padded(n: nat, width: nat) -> Seq<char> {
    zeros(width - decimal(n).len()) + decimal(n)
}

/// A year as a date shows it: four digits from 0 to 9999, and otherwise a
/// sign and at least four digits.
pub open spec fn year_text(y: int) -> Seq<char> {
    if 0 <= y <= 9999 {
        zero_padded(y as nat, 4)
    } else if y < 0 {
        seq!['-'] + zero_padded((-y) as nat, 4)
    } else {
        seq!['+'] + zero_padded(y as nat, 4)
    }
}

/// A day as `YYYY-MM-DD`.
pub open spec fn date_text(d: CalendarDate) -> Seq<char> {
    year_text(d.year as int) + seq!['-'] + zero_padded(d.month as nat, 2) + seq!['-']
        + zero_padded(d.day as nat, 2)
}

/// The time of a slot as `HH:MM`.
pub open spec fn minute_text(s: Slot) -> Seq<char> {
    zero_padded(s.hour as nat, 2) + seq![':'] + zero_padded(s.minute as nat, 2)
}

/// How many digits `n` has, as far as four.
pub proof fn lemma_decimal_len(n: nat)
    ensures
        n < 10 ==> decimal(n).len() == 1,
        10 <= n < 100 ==> decimal(n).len() == 2,
        100 <= n < 1000 ==> decimal(n).len() == 3,
        1000 <= n ==> decimal(n).len() >= 4,
    decreases n,
{
    if n >= 10 {
        lemma_decimal_len(n / 10);
    }
}

fn digit_str(d: u64) -> (s: &'static str)
    requires
        d < 10,
    ensures
        s@ == seq![digit_char(d as int)],
{
    proof {
        reveal_strlit("0");
        reveal_strlit("1");
        reveal_strlit("2");
        reveal_strlit("3");
        reveal_strlit("4");
        reveal_strlit("5");
        reveal_strlit("6");
        reveal_strlit("7");
        reveal_strlit("8");
        reveal_strlit("9");
    }
    let s = if d == 0 {
        "0"
    } else if d == 1 {
        "1"
    } else if d == 2 {
        "2"
    } else if d == 3 {
        "3"
    } else if d == 4 {
        "4"
    } else if d == 5 {
        "5"
    } else if d == 6 {
        "6"
    } else if d == 7 {
        "7"
    } else if d == 8 {
        "8"
    } else {
        "9"
    };
    assert(s@ =~= seq![digit_char(d as int)]);
    s
}

/// Appends `n` in decimal.
pub fn push_decimal(out: &mut String, n: u64)
    ensures
        final(out)@ == old(out)@ + decimal(n as nat),
    decreases n,
{
    if n >= 10 {
        push_decimal(out, n / 10);
    }
    out.append(digit_str(n % 10));
}

/// Appends `n` in decimal, zero-padded to `width` digits.
fn push_padded(out: &mut String, n: u64, width: usize)
    requires
        width <= 4,
    ensures
        final(out)@ == old(out)@ + zero_padded(n as nat, width as nat),
{
    let digits: usize = if n < 10 {
        1
    } else if n < 100 {
        2
    } else if n < 1000 {
        3
    } else {
        4
    };
    proof {
        lemma_decimal_len(n as nat);
    }
    let mut i: usize = digits;
    while i < width
        invariant
            digits <= i,
            i <= width || i == digits,
            out@ == old(out)@ + zeros(i - digits),
        decreases width - i,
    {
        proof {
            reveal_strlit("0");
        }
        out.append("0");
        i = i + 1;
        assert(zeros(i - digits) =~= zeros(i - digits - 1) + seq!['0']);
    }
    assert(zeros(i - digits) =~= zeros(width - decimal(n as nat).len()));
    push_decimal(out, n);
    assert(out@ =~= old(out)@ + zero_padded(n as nat, width as nat));
}

/// Appends a day as `YYYY-MM-DD`.
pub fn push_date(out: &mut String, d: &CalendarDate)
    ensures
        final(out)@ == old(out)@ + date_text(*d),
{
    proof {
        reveal_strlit("-");
        reveal_strlit("+");
    }
    let year: i64 = d.year as i64;
    if year < 0 {
        out.append("-");
        push_padded(out, (-year) as u64, 4);
    } else if year > 9999 {
        out.append("+");
        push_padded(out, year as u64, 4);
    } else {
        push_padded(out, year as u64, 4);
    }
    assert(out@ =~= old(out)@ + year_text(d.year as int));
    out.append("-");
    push_padded(out, d.month as u64, 2);
    out.append("-");
    push_padded(out, d.day as u64, 2);
    assert(out@ =~= old(out)@ + date_text(*d));
}

/// Appends the time of a slot as `HH:MM`.
pub fn push_minute(out: &mut String, s: &Slot)
    ensures
        final(out)@ == old(out)@ + minute_text(*s),
{
    proof {
        reveal_strlit(":");
    }
    push_padded(out, s.hour as u64, 2);
    out.append(":");
    push_padded(out, s.minute as u64, 2);
    assert(out@ =~= old(out)@ + minute_text(*s));
}

/// Whether `c` is white space, as Unicode counts it: tab to carriage
/// return, the space, next line, the no-break space, the ogham space mark,
/// the en quad to the hair space, the line and paragraph separators, the
/// narrow no-break space, the medium mathematical space and the ideographic
/// space.
pub open spec fn is_white_space(c: char) -> bool {
    let code = c as u32;
    ||| 0x09 <= code <= 0x0D
    ||| code == 0x20
    ||| code == 0x85
    ||| code == 0xA0
    ||| code == 0x1680
    ||| 0x2000 <= code <= 0x200A
    ||| code == 0x2028
    ||| code == 0x2029
    ||| code == 0x202F
    ||| code == 0x205F
    ||| code == 0x3000
}

/// `s` without the white space at its start and at its end.
pub open spec fn trimmed(s: Seq<char>) -> Seq<char>
    decreases s.len(),
{
    if s.len() > 0 && is_white_space(s.first()) {
        trimmed(s.drop_first())
    } else if s.len() > 0 && is_white_space(s.last()) {
        trimmed(s.drop_last())
    } else {
        s
    }
}

/// What is left of `s` between its white ends: where all before `from` and
/// all from `to` on is white space, and the characters at both ends of what
/// lies between are not, that is `s` trimmed.
pub proof fn lemma_trimmed(s: Seq<char>, from: int, to: int)
    requires
        0 <= from <= to <= s.len(),
        forall|i: int| 0 <= i < from ==> is_white_space(#[trigger] s[i]),
        forall|i: int| to <= i < s.len() ==> is_white_space(#[trigger] s[i]),
        from < to ==> !is_white_space(s[from]) && !is_white_space(s[to - 1]),
    ensures
        trimmed(s) == s.subrange(from, to),
    decreases s.len(),
{
    if s.len() > 0 && is_white_space(s.first()) {
        let rest = s.drop_first();
        if from == 0 {
            assert(to == 0);
            assert forall|i: int| 0 <= i < rest.len() implies is_white_space(
                #[trigger] rest[i],
            ) by {
                assert(rest[i] == s[i + 1]);
            }
            lemma_trimmed(rest, 0, 0);
            assert(rest.subrange(0, 0) =~= s.subrange(0, 0));
        } else {
            assert forall|i: int| 0 <= i < from - 1 implies is_white_space(#[trigger] rest[i]) by {
                assert(rest[i] == s[i + 1]);
            }
            assert forall|i: int| to - 1 <= i < rest.len() implies is_white_space(
                #[trigger] rest[i],
            ) by {
                assert(rest[i] == s[i + 1]);
            }
            if from < to {
                assert(rest[from - 1] == s[from]);
                assert(rest[to - 2] == s[to - 1]);
            }
            lemma_trimmed(rest, from - 1, to - 1);
            assert(rest.subrange(from - 1, to - 1) =~= s.subrange(from, to));
        }
    } else if s.len() > 0 && is_white_space(s.last()) {
        let rest = s.drop_last();
        assert(from == 0) by {
            if from > 0 {
                assert(is_white_space(s[0]));
            }
        }
        assert(to < s.len()) by {
            if to == s.len() {
                assert(!is_white_space(s[to - 1]));
            }
        }
        assert forall|i: int| to <= i < rest.len() implies is_white_space(#[trigger] rest[i]) by {
            assert(rest[i] == s[i]);
        }
        if from < to {
            assert(rest[from] == s[from]);
            assert(rest[to - 1] == s[to - 1]);
        }
        lemma_trimmed(rest, 0, to);
        assert(rest.subrange(0, to) =~= s.subrange(0, to));
    } else {
        if s.len() > 0 {
            assert(from == 0) by {
                if from > 0 {
                    assert(is_white_space(s[0]));
                }
            }
            assert(to == s.len()) by {
                if to < s.len() {
                    assert(is_white_space(s[s.len() - 1]));
                }
            }
        }
        assert(s.subrange(from, to) =~= s);
    }
}

/// Tells whether `c` is white space.
pub fn is_space(c: char) -> (space: bool)
    ensures
        space == is_white_space(c),
{
    let code: u32 = c as u32;
    (0x09 <= code && code <= 0x0D) || code == 0x20 || code == 0x85 || code == 0xA0 || code
        == 0x1680 || (0x2000 <= code && code <= 0x200A) || code == 0x2028 || code == 0x2029
        || code == 0x202F || code == 0x205F || code == 0x3000
}

/// The text without the white space at its start and at its end.
pub fn trim_text(text: &str) -> (out: String)
    ensures
        out@ == trimmed(text@),
{
    let len: usize = text.unicode_len();
    let mut from: usize = 0;
    while from < len && is_space(text.get_char(from))
        invariant
            from <= len,
            len == text@.len(),
            forall|i: int| 0 <= i < from ==> is_white_space(#[trigger] text@[i]),
        decreases len - from,
    {
        from = from + 1;
    }
    let mut to: usize = len;
    while to > from && is_space(text.get_char(to - 1))
        invariant
            from <= to <= len,
            len == text@.len(),
            forall|i: int| to <= i < len ==> is_white_space(#[trigger] text@[i]),
        decreases to,
    {
        to = to - 1;
    }
    proof {
        lemma_trimmed(text@, from as int, to as int);
    }
    String::from_str(text.substring_char(from, to))
}

} // verus!
