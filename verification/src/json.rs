//! JSON text of the records of finished tasks.

use crate::text::digit;
use vstd::prelude::*;

verus! {

/// The hexadecimal digit `d`, in lower case.
pub open spec fn hex_digit(d: nat) -> char {
    if d < 10 {
        digit(d)
    } else {
        (0x57 + d) as char
    }
}

/// One character as it stands inside a JSON string.
pub open spec fn escaped(c: char) -> Seq<char> {
    let n = c as u32;
    if c == '"' {
        seq!['\\', '"']
    } else if c == '\\' {
        seq!['\\', '\\']
    } else if n == 0x8 {
        seq!['\\', 'b']
    } else if n == 0x9 {
        seq!['\\', 't']
    } else if n == 0xa {
        seq!['\\', 'n']
    } else if n == 0xc {
        seq!['\\', 'f']
    } else if n == 0xd {
        seq!['\\', 'r']
    } else if n < 0x20 {
        seq!['\\', 'u', '0', '0', hex_digit((n / 16) as nat), hex_digit((n % 16) as nat)]
    } else {
        seq![c]
    }
}

/// A text as it stands inside a JSON string.
pub open spec fn escaped_text(s: Seq<char>) -> Seq<char>
    decreases s.len(),
{
    if s.len() == 0 {
        seq![]
    } else {
        escaped_text(s.drop_last()) + escaped(s.last())
    }
}

/// A text as a JSON string.
pub open spec fn quoted(s: Seq<char>) -> Seq<char> {
    seq!['"'] + escaped_text(s) + seq!['"']
}

/// A JSON object of two texts, without white space.
pub open spec fn pair_object(
    key0: Seq<char>,
    value0: Seq<char>,
    key1: Seq<char>,
    value1: Seq<char>,
) -> Seq<char> {
    seq!['{'] + quoted(key0) + seq![':'] + quoted(value0) + seq![','] + quoted(key1) + seq![':']
        + quoted(value1) + seq!['}']
}

/// `serde_json::Value`'s `Display` for an object of two string members, put in by
/// `serde_json::Map::insert`: the compact text, with the members in the order of their
/// keys.
#[verifier::external_body]
pub(crate) fn object_text(key0: &str, value0: &str, key1: &str, value1: &str) -> (r: String)
    requires
        key0@.len() > 0,
        key1@.len() > 0,
        (key0@[0] as u32) < (key1@[0] as u32),
    ensures
        r@ == pair_object(key0@, value0@, key1@, value1@),
{
    let mut members = serde_json::Map::new();
    members.insert(key0.to_owned(), serde_json::Value::String(value0.to_owned()));
    members.insert(key1.to_owned(), serde_json::Value::String(value1.to_owned()));
    serde_json::Value::Object(members).to_string()
}

/// Escaping leaves no control character behind, line breaks included.
pub(crate) proof fn lemma_escaped_printable(s: Seq<char>)
    ensures
        forall|i: int| 0 <= i < escaped_text(s).len() ==> #[trigger] (escaped_text(s)[i]) as u32
            >= 0x20,
    decreases s.len(),
{
    if s.len() > 0 {
        lemma_escaped_printable(s.drop_last());
        let front = escaped_text(s.drop_last());
        let back = escaped(s.last());
        assert forall|i: int| 0 <= i < escaped_text(s).len() implies #[trigger] (escaped_text(
            s,
        )[i]) as u32 >= 0x20 by {
            if i < front.len() {
                assert(escaped_text(s)[i] == front[i]);
            } else {
                assert(escaped_text(s)[i] == back[i - front.len()]);
            }
        }
    }
}

} // verus!
