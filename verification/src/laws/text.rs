//! Laws of text: decimal digits, time stamps and UTF-16.

use crate::text::{decimal, digit, padded, utf16, utf16_units};
use crate::win::{stamp, utf16_nul, Clock};
use vstd::prelude::*;

verus! {

/// The number that a row of decimal digits stands for.
pub open spec fn number(s: Seq<char>) -> int
    decreases s.len(),
{
    if s.len() == 0 {
        0
    } else {
        10 * number(s.drop_last()) + (s.last() as u32 - 0x30)
    }
}

/// Nothing but decimal digits.
pub open spec fn all_digits(s: Seq<char>) -> bool {
    forall|i: int| 0 <= i < s.len() ==> 0x30 <= (#[trigger] s[i]) as u32 <= 0x39
}

proof fn lemma_digit(d: nat)
    requires
        d < 10,
    ensures
        digit(d) as u32 == 0x30 + d,
{
}

/// The decimal digits of a number are read back as it, and begin with no zero unless the
/// number is zero.
pub proof fn a_number_is_read_back(n: nat)
    ensures
        number(decimal(n)) == n,
        all_digits(decimal(n)),
        decimal(n).len() >= 1,
        n > 0 ==> decimal(n)[0] as u32 != 0x30,
    decreases n,
{
    let s = decimal(n);
    lemma_digit(n % 10);
    if n < 10 {
        assert(s.drop_last() =~= Seq::<char>::empty());
        assert(number(s.drop_last()) == 0);
        assert(s.last() == digit(n));
    } else {
        let front = decimal(n / 10);
        a_number_is_read_back(n / 10);
        assert(s.drop_last() =~= front);
        assert(s.last() == digit(n % 10));
        assert(s[0] == front[0]);
        assert forall|i: int| 0 <= i < s.len() implies 0x30 <= (#[trigger] s[i]) as u32 <= 0x39 by {
            if i < front.len() {
                assert(s[i] == front[i]);
            }
        }
    }
}

/// Zeros at the front count for nothing.
proof fn lemma_leading_zeros(k: nat, s: Seq<char>)
    ensures
        number(Seq::new(k, |i: int| '0') + s) == number(s),
    decreases k + s.len(),
{
    let z = Seq::new(k, |i: int| '0');
    let t = z + s;
    if s.len() > 0 {
        lemma_leading_zeros(k, s.drop_last());
        assert(t.drop_last() =~= z + s.drop_last());
        assert(t.last() == s.last());
    } else if k > 0 {
        lemma_leading_zeros((k - 1) as nat, s);
        assert(t.drop_last() =~= Seq::new((k - 1) as nat, |i: int| '0') + s);
        assert(t.last() == '0');
    } else {
        assert(t =~= s);
    }
}

/// A number filled up with zeros is read back as it, and is as long as asked, or as long as
/// its digits need.
pub proof fn a_padded_number_is_read_back(n: nat, width: nat)
    ensures
        number(padded(n, width)) == n,
        all_digits(padded(n, width)),
        padded(n, width).len() >= width,
        padded(n, width).len() == width || padded(n, width) == decimal(n),
{
    a_number_is_read_back(n);
    if decimal(n).len() < width {
        let k = (width - decimal(n).len()) as nat;
        lemma_leading_zeros(k, decimal(n));
        let z = Seq::new(k, |i: int| '0');
        assert forall|i: int| 0 <= i < padded(n, width).len() implies 0x30 <= (#[trigger] padded(
            n,
            width,
        )[i]) as u32 <= 0x39 by {
            if i < k {
                assert(padded(n, width)[i] == z[i]);
            } else {
                assert(padded(n, width)[i] == decimal(n)[i - k]);
            }
        }
    }
}

proof fn lemma_short(n: nat)
    ensures
        n < 100 ==> padded(n, 2).len() == 2,
        n < 10_000 ==> padded(n, 4).len() == 4,
{
    if n >= 10 {
        if n / 10 >= 10 && n / 100 >= 10 {
            assert(decimal(n / 1000).len() == 1 || n >= 10_000);
        }
        reveal_with_fuel(decimal, 5);
    }
}

/// A local time stamp names the year, month, day, hour and minute, each in its place.
pub proof fn a_local_stamp_is_read_back(
    year: u16,
    month: u16,
    day: u16,
    hour: u16,
    minute: u16,
)
    requires
        year <= 9999,
        month <= 99,
        day <= 99,
        hour <= 99,
        minute <= 99,
    ensures
        ({
            let s = stamp(Clock::Local { year, month, day, hour, minute });
            &&& s.len() == 16
            &&& number(s.subrange(0, 4)) == year
            &&& number(s.subrange(5, 7)) == month
            &&& number(s.subrange(8, 10)) == day
            &&& number(s.subrange(11, 13)) == hour
            &&& number(s.subrange(14, 16)) == minute
        }),
{
    let s = stamp(Clock::Local { year, month, day, hour, minute });
    let a = padded(year as nat, 4);
    let b = padded(month as nat, 2);
    let c = padded(day as nat, 2);
    let d = padded(hour as nat, 2);
    let e = padded(minute as nat, 2);
    lemma_short(year as nat);
    lemma_short(month as nat);
    lemma_short(day as nat);
    lemma_short(hour as nat);
    lemma_short(minute as nat);
    a_padded_number_is_read_back(year as nat, 4);
    a_padded_number_is_read_back(month as nat, 2);
    a_padded_number_is_read_back(day as nat, 2);
    a_padded_number_is_read_back(hour as nat, 2);
    a_padded_number_is_read_back(minute as nat, 2);
    assert(s.subrange(0, 4) =~= a);
    assert(s.subrange(5, 7) =~= b);
    assert(s.subrange(8, 10) =~= c);
    assert(s.subrange(11, 13) =~= d);
    assert(s.subrange(14, 16) =~= e);
}

/// A stamp in seconds is read back as them.
pub proof fn a_stamp_in_seconds_is_read_back(seconds: u64)
    ensures
        number(stamp(Clock::Unix { seconds })) == seconds,
        all_digits(stamp(Clock::Unix { seconds })),
        seconds > 0 ==> stamp(Clock::Unix { seconds })[0] as u32 != 0x30,
{
    a_number_is_read_back(seconds as nat);
}

/// A character below 0x10000 is its own unit; any other is read back from its two halves.
pub proof fn a_character_is_read_back_from_its_units(c: char)
    ensures
        ({
            let n = c as u32;
            let u = utf16_units(c);
            if n < 0x1_0000 {
                u.len() == 1 && u[0] == n
            } else {
                &&& u.len() == 2
                &&& 0xd800 <= u[0] <= 0xdbff
                &&& 0xdc00 <= u[1] <= 0xdfff
                &&& 0x1_0000 + (u[0] - 0xd800) * 0x400 + (u[1] - 0xdc00) == n
            }
        }),
{
    let n = c as u32;
    assert(n <= 0x10_ffff);
    if n >= 0x1_0000 {
        let m = (n - 0x1_0000) as int;
        assert(m / 0x400 <= 0x3ff);
    }
}

/// The units of a text are those of its parts, one behind the other.
pub proof fn utf16_goes_part_by_part(s: Seq<char>, t: Seq<char>)
    ensures
        utf16(s + t) == utf16(s) + utf16(t),
        forall|c: char| #[trigger] utf16(seq![c]) == utf16_units(c),
    decreases t.len(),
{
    if t.len() == 0 {
        assert(s + t =~= s);
        assert(utf16(s) + utf16(t) =~= utf16(s));
    } else {
        utf16_goes_part_by_part(s, t.drop_last());
        assert((s + t).drop_last() =~= s + t.drop_last());
        assert((s + t).last() == t.last());
        assert(utf16(s + t) =~= utf16(s) + utf16(t));
    }
    assert forall|c: char| #[trigger] utf16(seq![c]) == utf16_units(c) by {
        assert(seq![c].drop_last() =~= Seq::<char>::empty());
        assert(utf16(Seq::<char>::empty()).len() == 0);
        assert(utf16(seq![c]) =~= utf16_units(c));
    }
}

/// A text is handed to Windows as its units, in order, with one NUL behind them.
pub proof fn what_windows_gets_of_a_text(s: Seq<char>)
    ensures
        utf16_nul(s).len() == utf16(s).len() + 1,
        forall|i: int| 0 <= i < utf16(s).len() ==> #[trigger] utf16_nul(s)[i] == utf16(s)[i],
        utf16_nul(s)[utf16(s).len() as int] == 0,
{
}

} // verus!
