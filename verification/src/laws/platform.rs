//! Laws of what is written to disk and handed to the system.

use crate::json::{escaped, escaped_text, hex_digit, lemma_escaped_printable, pair_object, quoted};
use crate::storage::{done_record, following, name_of, SaveStep, StoreFile};
use crate::text::{decimal, padded, utf16, utf16_units};
use crate::win::{stamp, utf16_nul, Clock};
use vstd::prelude::*;

verus! {

/// A text without NUL characters is handed over whole: its one NUL unit is the last.
pub proof fn a_text_ends_at_its_only_nul(s: Seq<char>)
    requires
        forall|i: int| 0 <= i < s.len() ==> (#[trigger] s[i]) as u32 != 0,
    ensures
        utf16_nul(s).last() == 0,
        forall|i: int| 0 <= i < utf16_nul(s).len() - 1 ==> #[trigger] utf16_nul(s)[i] != 0,
{
    lemma_no_nul(s);
}

/// The units of a character, as numbers.
proof fn lemma_units(c: char)
    ensures
        ({
            let n = c as u32 as int;
            let u = utf16_units(c);
            if n < 0x1_0000 {
                u.len() == 1 && u[0] == n && !(0xd800 <= n <= 0xdfff)
            } else {
                &&& u.len() == 2
                &&& u[0] == 0xd800 + (n - 0x1_0000) / 0x400
                &&& u[1] == 0xdc00 + (n - 0x1_0000) % 0x400
                &&& 0xd800 <= u[0] <= 0xdbff
                &&& 0xdc00 <= u[1] <= 0xdfff
            }
        }),
{
    let n = c as u32;
    assert(n <= 0x10_ffff);
    if n >= 0x1_0000 {
        let m = (n - 0x1_0000) as int;
        assert(m / 0x400 <= 0x3ff);
    }
}

proof fn lemma_no_nul(s: Seq<char>)
    requires
        forall|i: int| 0 <= i < s.len() ==> (#[trigger] s[i]) as u32 != 0,
    ensures
        forall|i: int| 0 <= i < utf16(s).len() ==> #[trigger] utf16(s)[i] != 0,
    decreases s.len(),
{
    if s.len() > 0 {
        let front = s.drop_last();
        assert forall|i: int| 0 <= i < front.len() implies (#[trigger] front[i]) as u32 != 0 by {
            assert(front[i] == s[i]);
        }
        lemma_no_nul(front);
        assert(s[s.len() - 1] as u32 != 0);
        let a = utf16(front);
        let b = utf16_units(s.last());
        lemma_units(s.last());
        assert forall|i: int| 0 <= i < utf16(s).len() implies #[trigger] utf16(s)[i] != 0 by {
            if i < a.len() {
                assert(utf16(s)[i] == a[i]);
            } else {
                assert(utf16(s)[i] == b[i - a.len()]);
            }
        }
    }
}

/// A character is its number.
proof fn lemma_same_char(a: char, b: char)
    requires
        a as u32 == b as u32,
    ensures
        a == b,
{
}

/// Different texts are handed over as different units.
pub proof fn utf16_tells_texts_apart(s: Seq<char>, t: Seq<char>)
    requires
        utf16(s) == utf16(t),
    ensures
        s == t,
    decreases s.len(),
{
    let u = utf16(s);
    if s.len() == 0 {
        if t.len() > 0 {
            assert(utf16(t).len() > 0);
        }
    } else if t.len() == 0 {
        assert(utf16(s).len() > 0);
    } else {
        let a = s.last();
        let b = t.last();
        let x = utf16_units(a);
        let y = utf16_units(b);
        let fa = utf16(s.drop_last());
        let fb = utf16(t.drop_last());
        lemma_units(a);
        lemma_units(b);
        assert(u.last() == x.last());
        assert(u.last() == y.last());
        // The low half of a surrogate pair is no character of its own.
        assert(x.len() == y.len());
        if x.len() == 2 {
            assert(u[u.len() - 2] == x[0]);
            assert(u[u.len() - 2] == y[0]);
            let m = a as u32 - 0x1_0000;
            let k = b as u32 - 0x1_0000;
            assert(m / 0x400 == k / 0x400);
            assert(m % 0x400 == k % 0x400);
            assert(m == k);
        }
        lemma_same_char(a, b);
        assert(fa =~= u.take(u.len() - x.len()));
        assert(fb =~= u.take(u.len() - x.len()));
        utf16_tells_texts_apart(s.drop_last(), t.drop_last());
        assert(s =~= s.drop_last().push(a));
        assert(t =~= t.drop_last().push(b));
    }
}

proof fn lemma_decimal_len(n: nat)
    ensures
        decimal(n).len() >= 1,
        n < 10 ==> decimal(n).len() == 1,
        n < 100 ==> decimal(n).len() <= 2,
        n < 1_000 ==> decimal(n).len() <= 3,
        n < 10_000 ==> decimal(n).len() <= 4,
    decreases n,
{
    if n >= 10 {
        lemma_decimal_len(n / 10);
    }
}

/// A time stamp of an ordinary date has sixteen characters: `YYYY-MM-DD HH:MM`.
pub proof fn a_local_stamp_has_sixteen_characters(
    year: u16,
    month: u16,
    day: u16,
    hour: u16,
    minute: u16,
)
    requires
        year <= 9999,
        month <= 99,
        day <= 99,
        hour <= 99,
        minute <= 99,
    ensures
        ({
            let s = stamp(Clock::Local { year, month, day, hour, minute });
            s.len() == 16 && s[4] == '-' && s[7] == '-' && s[10] == ' ' && s[13] == ':'
        }),
{
    lemma_decimal_len(year as nat);
    lemma_decimal_len(month as nat);
    lemma_decimal_len(day as nat);
    lemma_decimal_len(hour as nat);
    lemma_decimal_len(minute as nat);
    let a = padded(year as nat, 4);
    let b = padded(month as nat, 2);
    let c = padded(day as nat, 2);
    let d = padded(hour as nat, 2);
    let e = padded(minute as nat, 2);
    assert(a.len() == 4 && b.len() == 2 && c.len() == 2 && d.len() == 2 && e.len() == 2);
}

/// A record is one line: its only line break is its last character.
pub proof fn a_record_is_one_line(done_at: Seq<char>, text: Seq<char>)
    ensures
        done_record(done_at, text).last() == '\n',
        forall|i: int|
            0 <= i < done_record(done_at, text).len() - 1 ==> #[trigger] done_record(
                done_at,
                text,
            )[i] != '\n',
{
    reveal_strlit("done_at");
    reveal_strlit("text");
    lemma_quoted_printable("done_at"@);
    lemma_quoted_printable(done_at);
    lemma_quoted_printable("text"@);
    lemma_quoted_printable(text);
    let r = pair_object("done_at"@, done_at, "text"@, text);
    let a = seq!['{'] + quoted("done_at"@) + seq![':'];
    let b = a + quoted(done_at) + seq![','];
    let c = b + quoted("text"@) + seq![':'];
    assert(r == c + quoted(text) + seq!['}']);
    assert forall|i: int| 0 <= i < r.len() implies (#[trigger] r[i]) as u32 >= 0x20 by {
        assert(forall|k: int| 0 <= k < a.len() ==> (#[trigger] a[k]) as u32 >= 0x20);
        assert(forall|k: int| 0 <= k < b.len() ==> (#[trigger] b[k]) as u32 >= 0x20);
        assert(forall|k: int| 0 <= k < c.len() ==> (#[trigger] c[k]) as u32 >= 0x20);
    }
    assert forall|i: int| 0 <= i < done_record(done_at, text).len() - 1 implies
        #[trigger] done_record(done_at, text)[i] != '\n' by {
        assert(done_record(done_at, text)[i] == r[i]);
        assert(r[i] as u32 >= 0x20);
    }
}

proof fn lemma_quoted_printable(s: Seq<char>)
    ensures
        forall|i: int| 0 <= i < quoted(s).len() ==> (#[trigger] quoted(s)[i]) as u32 >= 0x20,
{
    lemma_escaped_printable(s);
    assert forall|i: int| 0 <= i < quoted(s).len() implies (#[trigger] quoted(s)[i]) as u32
        >= 0x20 by {
        if 0 < i < quoted(s).len() - 1 {
            assert(quoted(s)[i] == escaped_text(s)[i - 1]);
        }
    }
}

/// The number that a hexadecimal digit stands for.
pub open spec fn hex_value(c: char) -> int {
    if c as u32 >= 0x61 {
        c as u32 - 0x57
    } else {
        c as u32 - 0x30
    }
}

/// Reads a JSON string from behind its opening quote: the text, and what follows the
/// closing quote.
pub open spec fn read_string(s: Seq<char>) -> Option<(Seq<char>, Seq<char>)>
    decreases s.len(),
{
    if s.len() == 0 {
        None
    } else if s[0] == '"' {
        Some((Seq::empty(), s.skip(1)))
    } else if s[0] != '\\' {
        match read_string(s.skip(1)) {
            Some((text, rest)) => Some((seq![s[0]] + text, rest)),
            None => None,
        }
    } else if s.len() >= 6 && s[1] == 'u' {
        let c = (hex_value(s[4]) * 16 + hex_value(s[5])) as char;
        match read_string(s.skip(6)) {
            Some((text, rest)) => Some((seq![c] + text, rest)),
            None => None,
        }
    } else if s.len() >= 2 {
        let c = if s[1] == 'b' {
            '\u{8}'
        } else if s[1] == 't' {
            '\t'
        } else if s[1] == 'n' {
            '\n'
        } else if s[1] == 'f' {
            '\u{c}'
        } else if s[1] == 'r' {
            '\r'
        } else {
            s[1]
        };
        match read_string(s.skip(2)) {
            Some((text, rest)) => Some((seq![c] + text, rest)),
            None => None,
        }
    } else {
        None
    }
}

/// Escaping goes character by character from the front too.
proof fn lemma_escaped_front(s: Seq<char>)
    requires
        s.len() > 0,
    ensures
        escaped_text(s) == escaped(s[0]) + escaped_text(s.drop_first()),
    decreases s.len(),
{
    let front = s.drop_last();
    if s.len() == 1 {
        assert(front =~= Seq::<char>::empty());
        assert(s.drop_first() =~= Seq::<char>::empty());
        let none = escaped_text(Seq::<char>::empty());
        assert(none.len() == 0);
        assert(s.last() == s[0]);
        assert(escaped_text(s) == none + escaped(s[0]));
        assert(none + escaped(s[0]) =~= escaped(s[0]) + none);
    } else {
        lemma_escaped_front(front);
        assert(front.drop_first() =~= s.drop_first().drop_last());
        assert(s.drop_first().last() == s.last());
        assert(escaped_text(s) =~= escaped(s[0]) + escaped_text(s.drop_first()));
    }
}

/// One escaped character is read back as it was.
proof fn lemma_read_char(c: char, tail: Seq<char>)
    ensures
        read_string(escaped(c) + tail) == match read_string(tail) {
            Some((text, rest)) => Some((seq![c] + text, rest)),
            None => None,
        },
{
    let n = c as u32;
    let e = escaped(c);
    let s = e + tail;
    assert(s.skip(e.len() as int) =~= tail);
    if c != '"' && c != '\\' && n < 0x20 && n != 0x8 && n != 0x9 && n != 0xa && n != 0xc && n
        != 0xd {
        let hi = (n / 16) as nat;
        let lo = (n % 16) as nat;
        assert(hi <= 1 && lo <= 15 && hi * 16 + lo == n);
        assert(e.len() == 6);
        assert(s[4] == hex_digit(hi));
        assert(s[5] == hex_digit(lo));
        lemma_hex(hi);
        lemma_hex(lo);
        assert(hex_value(s[4]) * 16 + hex_value(s[5]) == n);
        lemma_char_of(c);
    } else if n == 0x8 {
        lemma_same_char(c, '\u{8}');
    } else if n == 0x9 {
        lemma_same_char(c, '\t');
    } else if n == 0xa {
        lemma_same_char(c, '\n');
    } else if n == 0xc {
        lemma_same_char(c, '\u{c}');
    } else if n == 0xd {
        lemma_same_char(c, '\r');
    }
}

proof fn lemma_hex(d: nat)
    requires
        d < 16,
    ensures
        hex_value(hex_digit(d)) == d,
{
}

proof fn lemma_char_of(c: char)
    ensures
        (c as u32 as int) as char == c,
{
}

/// A text that was written as a JSON string is read back as it was.
pub proof fn a_written_string_is_read_back(text: Seq<char>, rest: Seq<char>)
    ensures
        read_string(escaped_text(text) + seq!['"'] + rest) == Some((text, rest)),
    decreases text.len(),
{
    let s = escaped_text(text) + seq!['"'] + rest;
    if text.len() == 0 {
        assert(s[0] == '"');
        assert(s.skip(1) =~= rest);
        assert(text =~= Seq::<char>::empty());
    } else {
        let next = text.drop_first();
        lemma_escaped_front(text);
        a_written_string_is_read_back(next, rest);
        let tail = escaped_text(next) + seq!['"'] + rest;
        assert(s =~= escaped(text[0]) + tail);
        lemma_read_char(text[0], tail);
        assert(seq![text[0]] + next =~= text);
    }
}

/// What stands in a record before the time.
pub open spec fn record_head() -> Seq<char> {
    seq!['{'] + quoted("done_at"@) + seq![':', '"']
}

/// What stands in a record between the time and the text.
pub open spec fn record_middle() -> Seq<char> {
    seq![','] + quoted("text"@) + seq![':', '"']
}

/// Reads a record: the time and the text.
pub open spec fn read_record(line: Seq<char>) -> Option<(Seq<char>, Seq<char>)> {
    if !record_head().is_prefix_of(line) {
        None
    } else {
        match read_string(line.skip(record_head().len() as int)) {
            Some((done_at, rest)) => if !record_middle().is_prefix_of(rest) {
                None
            } else {
                match read_string(rest.skip(record_middle().len() as int)) {
                    Some((text, end)) => if end == seq!['}', '\n'] {
                        Some((done_at, text))
                    } else {
                        None
                    },
                    None => None,
                }
            },
            None => None,
        }
    }
}

/// A record of a finished task is read back as it was written.
pub proof fn a_record_is_read_back(done_at: Seq<char>, text: Seq<char>)
    ensures
        read_record(done_record(done_at, text)) == Some((done_at, text)),
{
    let line = done_record(done_at, text);
    let end = seq!['}', '\n'];
    let last = escaped_text(text) + seq!['"'] + end;
    let rest = record_middle() + last;
    let first = escaped_text(done_at) + seq!['"'] + rest;
    assert(line =~= record_head() + first);
    assert(line.skip(record_head().len() as int) =~= first);
    assert(rest.skip(record_middle().len() as int) =~= last);
    a_written_string_is_read_back(done_at, rest);
    a_written_string_is_read_back(text, end);
}

/// The files have four different names: neither the draft nor the record of finished
/// tasks, nor setting a broken state aside, can touch another file.
pub proof fn the_files_have_different_names(a: StoreFile, b: StoreFile)
    requires
        a != b,
    ensures
        name_of(a) != name_of(b),
{
    reveal_strlit("state.json");
    reveal_strlit("state.json.tmp");
    reveal_strlit("state.json.broken");
    reveal_strlit("done.jsonl");
    assert("state.json"@.len() == 10 && "state.json.tmp"@.len() == 14);
    assert("state.json.broken"@.len() == 17 && "done.jsonl"@.len() == 10);
    assert("state.json"@[0] == 's' && "done.jsonl"@[0] == 'd');
}

/// A save goes through exactly if all its steps do, and the state file is replaced only
/// once the whole draft is written.
pub proof fn a_save_replaces_only_with_a_whole_draft(directory: bool, draft: bool, renamed: bool)
    ensures
        ({
            let first = SaveStep::MakeDirectory;
            let second = following(first, directory);
            let third = following(second, draft);
            let last = following(third, renamed);
            &&& first != SaveStep::Replace && second != SaveStep::Replace
            &&& third == SaveStep::Replace <==> directory && draft
            &&& last == SaveStep::Saved <==> directory && draft && renamed
            &&& last == SaveStep::Failed <==> !(directory && draft && renamed)
        }),
{
}

} // verus!
