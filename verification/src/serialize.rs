//! The writer: a value as compact text, without any whitespace between the
//! tokens. The members of an object are written in the order in which the
//! object holds them, which is no part of its value.
use vstd::prelude::*;
use crate::chars::hex_digit_char;
use crate::stack::pending::{false_text, null_text, true_text};
use crate::strings::{push_char, push_chars};
use crate::value::{JsonObject, JsonValue};

verus! {

/// The escape of a character by its code: a backslash, `u`, and the code in
/// lower-case hexadecimal digits, filled with zeros on the left to four digits.
pub open spec fn unicode_escape_text(c: char) -> Seq<char> {
    let n = c as nat;
    seq!['\\', 'u'] + (if n >= 0x100000 {
        seq![hex_digit_char(n / 0x100000 % 16)]
    } else {
        Seq::<char>::empty()
    }) + (if n >= 0x10000 {
        seq![hex_digit_char(n / 0x10000 % 16)]
    } else {
        Seq::<char>::empty()
    }) + seq![
        hex_digit_char(n / 0x1000 % 16),
        hex_digit_char(n / 0x100 % 16),
        hex_digit_char(n / 0x10 % 16),
        hex_digit_char(n % 16),
    ]
}

/// How one character of a string is written.
pub open spec fn escaped_char(c: char) -> Seq<char> {
    if c == '\n' {
        seq!['\\', 'n']
    } else if c == '\t' {
        seq!['\\', 't']
    } else if c == '\r' {
        seq!['\\', 'r']
    } else if c == '\x08' {
        seq!['\\', 'b']
    } else if c == '\x0C' {
        seq!['\\', 'f']
    } else if c == '\\' {
        seq!['\\', '\\']
    } else if c == '"' {
        seq!['\\', '"']
    } else if (c as u32) < 0x20 {
        unicode_escape_text(c)
    } else {
        seq![c]
    }
}

/// How the characters of a string are written, one after the other.
pub open spec fn escaped_body(s: Seq<char>) -> Seq<char>
    decreases s.len(),
{
    if s.len() == 0 {
        Seq::empty()
    } else {
        escaped_body(s.drop_last()) + escaped_char(s.last())
    }
}

/// How a string is written: its characters between two quotes.
pub open spec fn escaped(s: Seq<char>) -> Seq<char> {
    seq!['"'] + escaped_body(s) + seq!['"']
}

/// How a member of an object is written: the key, a colon, the value.
pub open spec fn member_text(m: (String, JsonValue)) -> Seq<char>
    decreases m,
{
    escaped(m.0@) + seq![':'] + stringify(m.1)
}

/// The texts of the values with a comma between each two.
pub open spec fn joined_items(vs: Seq<JsonValue>) -> Seq<char>
    decreases vs,
{
    if vs.len() == 0 {
        Seq::empty()
    } else if vs.len() == 1 {
        stringify(vs[0])
    } else {
        joined_items(vs.drop_last()) + seq![','] + stringify(vs.last())
    }
}

/// The texts of the members with a comma between each two.
pub open spec fn joined_members(ms: Seq<(String, JsonValue)>) -> Seq<char>
    decreases ms,
{
    if ms.len() == 0 {
        Seq::empty()
    } else if ms.len() == 1 {
        member_text(ms[0])
    } else {
        joined_members(ms.drop_last()) + seq![','] + member_text(ms.last())
    }
}

/// The text of a value.
pub open spec fn stringify(v: JsonValue) -> Seq<char>
    decreases v,
{
    match v {
        JsonValue::Text(s) => escaped(s@),
        JsonValue::Number(n) => n@.text(),
        JsonValue::Boolean(b) => if b {
            true_text()
        } else {
            false_text()
        },
        JsonValue::Null => null_text(),
        JsonValue::Array(a) => seq!['['] + joined_items(a@) + seq![']'],
        JsonValue::Object(o) => seq!['{'] + joined_members(o.members@) + seq!['}'],
    }
}

/// The lower-case hexadecimal digit of a value below sixteen.
fn hex_char(d: u32) -> (c: char)
    requires
        d < 16,
    ensures
        c == hex_digit_char(d as nat),
{
    if d < 10 {
        match char::from_u32(d + 0x30) {
            Some(c) => c,
            None => '0',
        }
    } else {
        match char::from_u32(d - 10 + 0x61) {
            Some(c) => c,
            None => '0',
        }
    }
}

/// Writes a character as the escape of its code.
pub fn unicode_escape(c: char) -> (s: String)
    ensures
        s@ == unicode_escape_text(c),
{
    let n: u32 = c as u32;
    let mut s = String::new();
    push_char(&mut s, '\\');
    push_char(&mut s, 'u');
    if n >= 0x100000 {
        push_char(&mut s, hex_char(n / 0x100000 % 16));
    }
    if n >= 0x10000 {
        push_char(&mut s, hex_char(n / 0x10000 % 16));
    }
    push_char(&mut s, hex_char(n / 0x1000 % 16));
    push_char(&mut s, hex_char(n / 0x100 % 16));
    push_char(&mut s, hex_char(n / 0x10 % 16));
    push_char(&mut s, hex_char(n % 16));
    proof {
        assert(s@ =~= unicode_escape_text(c));
    }
    s
}

/// Appends one character of a string as it is written.
fn push_escaped(out: &mut String, c: char)
    ensures
        final(out)@ == old(out)@ + escaped_char(c),
{
    if c == '\n' {
        push_char(out, '\\');
        push_char(out, 'n');
    } else if c == '\t' {
        push_char(out, '\\');
        push_char(out, 't');
    } else if c == '\r' {
        push_char(out, '\\');
        push_char(out, 'r');
    } else if c == '\x08' {
        push_char(out, '\\');
        push_char(out, 'b');
    } else if c == '\x0C' {
        push_char(out, '\\');
        push_char(out, 'f');
    } else if c == '\\' {
        push_char(out, '\\');
        push_char(out, '\\');
    } else if c == '"' {
        push_char(out, '\\');
        push_char(out, '"');
    } else if (c as u32) < 0x20 {
        let e = unicode_escape(c);
        push_chars(out, e.as_str());
    } else {
        push_char(out, c);
    }
    proof {
        assert(out@ =~= old(out)@ + escaped_char(c));
    }
}

/// Writes a string: between quotes, with a short escape for the quote, the
/// backslash and five control characters, and the escape by code for the other
/// characters below the space.
pub fn escape_str(text: &str) -> (s: String)
    ensures
        s@ == escaped(text@),
{
    let mut s = String::new();
    push_char(&mut s, '"');
    for c in it: text.chars()
        invariant
            it.seq() == text@,
            s@ == seq!['"'] + escaped_body(text@.take(it.index() as int)),
    {
        let ghost k = it.index() as int;
        proof {
            assert(text@.take(k + 1).drop_last() =~= text@.take(k));
        }
        push_escaped(&mut s, c);
        proof {
            assert(s@ =~= seq!['"'] + escaped_body(text@.take(k + 1)));
        }
    }
    proof {
        assert(text@.take(text@.len() as int) =~= text@);
    }
    push_char(&mut s, '"');
    s
}

impl JsonObject {
    /// Serializes the object.
    pub fn to_string(&self) -> (s: String)
        ensures
            s@ == seq!['{'] + joined_members(self.members@) + seq!['}'],
        decreases self,
    {
        let mut s = String::new();
        push_char(&mut s, '{');
        let mut i: usize = 0;
        while i < self.members.len()
            invariant
                i <= self.members@.len(),
                s@ == seq!['{'] + joined_members(self.members@.take(i as int)),
            decreases self.members@.len() - i,
        {
            let ghost before = s@;
            if i > 0 {
                push_char(&mut s, ',');
            }
            let key = escape_str(self.members[i].0.as_str());
            push_chars(&mut s, key.as_str());
            push_char(&mut s, ':');
            let value = self.members[i].1.to_string();
            push_chars(&mut s, value.as_str());
            proof {
                reveal_with_fuel(joined_members, 2);
                reveal_with_fuel(member_text, 2);
                let ms = self.members@.take(i + 1);
                assert(ms.drop_last() =~= self.members@.take(i as int));
                assert(ms.last() == self.members@[i as int]);
                assert(s@ =~= seq!['{'] + joined_members(ms));
            }
            i += 1;
        }
        proof {
            assert(self.members@.take(self.members@.len() as int) =~= self.members@);
        }
        push_char(&mut s, '}');
        s
    }
}

impl JsonValue {
    /// Serializes a JsonValue
    pub fn to_string(&self) -> (s: String)
        ensures
            s@ == stringify(*self),
        decreases self,
    {
        match self {
            JsonValue::Text(text) => escape_str(text.as_str()),
            JsonValue::Null => {
                let mut s = String::new();
                push_char(&mut s, 'n');
                push_char(&mut s, 'u');
                push_char(&mut s, 'l');
                push_char(&mut s, 'l');
                proof {
                    assert(s@ =~= null_text());
                }
                s
            },
            JsonValue::Boolean(b) => {
                let mut s = String::new();
                if *b {
                    push_char(&mut s, 't');
                    push_char(&mut s, 'r');
                    push_char(&mut s, 'u');
                    push_char(&mut s, 'e');
                    proof {
                        assert(s@ =~= true_text());
                    }
                } else {
                    push_char(&mut s, 'f');
                    push_char(&mut s, 'a');
                    push_char(&mut s, 'l');
                    push_char(&mut s, 's');
                    push_char(&mut s, 'e');
                    proof {
                        assert(s@ =~= false_text());
                    }
                }
                s
            },
            JsonValue::Number(n) => n.to_string(),
            JsonValue::Array(array) => {
                let mut s = String::new();
                push_char(&mut s, '[');
                let mut i: usize = 0;
                while i < array.len()
                    invariant
                        i <= array@.len(),
                        self is Array && self->Array_0 == *array,
                        s@ == seq!['['] + joined_items(array@.take(i as int)),
                    decreases array@.len() - i,
                {
                    if i > 0 {
                        push_char(&mut s, ',');
                    }
                    let item = array[i].to_string();
                    push_chars(&mut s, item.as_str());
                    proof {
                        reveal_with_fuel(joined_items, 2);
                        let vs = array@.take(i + 1);
                        assert(vs.drop_last() =~= array@.take(i as int));
                        assert(vs.last() == array@[i as int]);
                        assert(s@ =~= seq!['['] + joined_items(vs));
                    }
                    i += 1;
                }
                proof {
                    assert(array@.take(array@.len() as int) =~= array@);
                }
                push_char(&mut s, ']');
                s
            },
            JsonValue::Object(o) => o.to_string(),
        }
    }
}

} // verus!
