//! How the text of a value passes the depth and quote tracker of a container
//! that holds it: no character of it is taken for a delimiter of the container
//! or for its closing bracket, and the tracker is left as it was found.
use vstd::prelude::*;
use crate::chars::{digit, hex_digit_char};
use crate::number::{exponent_digits, sign, Numeral};
use crate::serialize::{
    escaped, escaped_body, escaped_char, joined_items, joined_members, member_text, stringify,
};
use crate::stack::{closes, opens, CounterState};
use crate::value::JsonValue;

verus! {

/// Whether a tracker in state `k`, inside a container at depth `floor`, takes
/// `c` without an error, stays at depth `floor` or deeper, and does not show
/// `c` as a comma or a colon of that container.
pub open spec fn passes(floor: nat, k: CounterState, c: char) -> bool {
    let after = k.fed(c);
    &&& k.accepts(c)
    &&& after.stack.len() >= floor
    &&& (after.in_string || after.stack.len() > floor || (c != ',' && c != ':'))
}

/// The state of the tracker after all of `s`, where every character passes.
pub open spec fn pass_all(floor: nat, k: CounterState, s: Seq<char>) -> Option<CounterState>
    decreases s.len(),
{
    if s.len() == 0 {
        Some(k)
    } else if passes(floor, k, s[0]) {
        pass_all(floor, k.fed(s[0]), s.skip(1))
    } else {
        None
    }
}

/// Whether the tracker is outside any string, at depth `floor` or deeper.
pub open spec fn outside(floor: nat, k: CounterState) -> bool {
    !k.in_string && !k.escape && floor <= k.stack.len()
}

/// Whether the tracker is inside a string with no backslash pending, at
/// depth `floor` or deeper.
pub open spec fn inside(floor: nat, k: CounterState) -> bool {
    k.in_string && !k.escape && floor <= k.stack.len()
}

/// A character that means nothing to the tracker or to a container.
pub open spec fn inert(c: char) -> bool {
    !opens(c) && !closes(c) && c != '"' && c != '\\' && c != ',' && c != ':'
}

/// Whether every character of `s` is inert.
pub open spec fn all_inert(s: Seq<char>) -> bool {
    forall|i: int| 0 <= i < s.len() ==> inert(#[trigger] s[i])
}

/// Passing two texts one after the other is passing their concatenation.
pub proof fn lemma_pass_concat(floor: nat, k: CounterState, a: Seq<char>, b: Seq<char>)
    ensures
        pass_all(floor, k, a + b) == match pass_all(floor, k, a) {
            Some(k1) => pass_all(floor, k1, b),
            None => None,
        },
    decreases a.len(),
{
    if a.len() == 0 {
        assert(a + b =~= b);
    } else {
        assert((a + b)[0] == a[0]);
        assert((a + b).skip(1) =~= a.skip(1) + b);
        if passes(floor, k, a[0]) {
            lemma_pass_concat(floor, k.fed(a[0]), a.skip(1), b);
        }
    }
}

/// Passing a single character.
pub proof fn lemma_pass_one(floor: nat, k: CounterState, c: char)
    ensures
        pass_all(floor, k, seq![c]) == if passes(floor, k, c) {
            Some(k.fed(c))
        } else {
            None
        },
{
    reveal_with_fuel(pass_all, 2);
    assert(seq![c].skip(1).len() == 0);
}

/// Inert characters outside a string pass and change nothing.
pub proof fn lemma_pass_inert(floor: nat, k: CounterState, s: Seq<char>)
    requires
        outside(floor, k),
        all_inert(s),
    ensures
        pass_all(floor, k, s) == Some(k),
    decreases s.len(),
{
    if s.len() > 0 {
        assert(inert(s[0]));
        assert(k.fed(s[0]) == k);
        assert forall|i: int| 0 <= i < s.skip(1).len() implies inert(#[trigger] s.skip(1)[i]) by {
            assert(s.skip(1)[i] == s[i + 1]);
        }
        lemma_pass_inert(floor, k, s.skip(1));
    }
}

/// The digit for a value below sixteen is a hexadecimal digit in lower case.
pub proof fn lemma_hex_digit_char(d: nat)
    requires
        d < 16,
    ensures
        inert(hex_digit_char(d)),
        crate::chars::hex_digit(hex_digit_char(d)),
        crate::chars::hex_digit_value(hex_digit_char(d)) == d,
        d < 10 ==> digit(hex_digit_char(d)),
{
}

/// Inside a string, the written form of a character passes and leaves the
/// tracker inside the string.
pub proof fn lemma_pass_escaped_char(floor: nat, k: CounterState, c: char)
    requires
        inside(floor, k),
    ensures
        pass_all(floor, k, escaped_char(c)) == Some(k),
{
    let e = escaped_char(c);
    let esc = CounterState { escape: true, ..k };
    if e.len() == 1 {
        assert(e[0] == c);
        lemma_pass_one(floor, k, c);
        assert(e =~= seq![c]);
    } else if e.len() == 2 {
        assert(e =~= seq![e[0]] + seq![e[1]]);
        lemma_pass_concat(floor, k, seq![e[0]], seq![e[1]]);
        lemma_pass_one(floor, k, e[0]);
        lemma_pass_one(floor, esc, e[1]);
    } else {
        let n = c as nat;
        let d3 = hex_digit_char(n / 0x1000 % 16);
        let d2 = hex_digit_char(n / 0x100 % 16);
        let d1 = hex_digit_char(n / 0x10 % 16);
        let d0 = hex_digit_char(n % 16);
        lemma_hex_digit_char(n / 0x1000 % 16);
        lemma_hex_digit_char(n / 0x100 % 16);
        lemma_hex_digit_char(n / 0x10 % 16);
        lemma_hex_digit_char(n % 16);
        assert(e =~= seq!['\\'] + seq!['u'] + seq![d3, d2, d1, d0]);
        lemma_pass_concat(floor, k, seq!['\\'] + seq!['u'], seq![d3, d2, d1, d0]);
        lemma_pass_concat(floor, k, seq!['\\'], seq!['u']);
        lemma_pass_one(floor, k, '\\');
        lemma_pass_one(floor, esc, 'u');
        reveal_with_fuel(pass_all, 5);
        let t = seq![d3, d2, d1, d0];
        assert(t.skip(1) =~= seq![d2, d1, d0]);
        assert(t.skip(1).skip(1) =~= seq![d1, d0]);
        assert(t.skip(1).skip(1).skip(1) =~= seq![d0]);
        assert(t.skip(1).skip(1).skip(1).skip(1).len() == 0);
    }
}

/// Inside a string, the written form of its characters passes and leaves the
/// tracker inside the string.
pub proof fn lemma_pass_escaped_body(floor: nat, k: CounterState, s: Seq<char>)
    requires
        inside(floor, k),
    ensures
        pass_all(floor, k, escaped_body(s)) == Some(k),
    decreases s.len(),
{
    if s.len() > 0 {
        lemma_pass_escaped_body(floor, k, s.drop_last());
        lemma_pass_escaped_char(floor, k, s.last());
        lemma_pass_concat(floor, k, escaped_body(s.drop_last()), escaped_char(s.last()));
    }
}

/// A written string passes: whatever it holds stands between its quotes.
pub proof fn lemma_pass_escaped(floor: nat, k: CounterState, s: Seq<char>)
    requires
        outside(floor, k),
    ensures
        pass_all(floor, k, escaped(s)) == Some(k),
{
    let within = CounterState { in_string: true, ..k };
    lemma_pass_one(floor, k, '"');
    lemma_pass_escaped_body(floor, within, s);
    lemma_pass_one(floor, within, '"');
    lemma_pass_concat(floor, k, seq!['"'], escaped_body(s));
    lemma_pass_concat(floor, k, seq!['"'] + escaped_body(s), seq!['"']);
}

/// The characters of a numeral of the grammar are inert.
pub proof fn lemma_numeral_inert(n: Numeral)
    requires
        n.wf(),
    ensures
        all_inert(n.text()),
{
    let t = n.text();
    let head = if n.negative {
        seq!['-']
    } else {
        Seq::<char>::empty()
    };
    let mid = if n.decimal.len() > 0 {
        seq!['.'] + n.decimal
    } else {
        Seq::<char>::empty()
    };
    let tail = if n.exponent.len() > 0 {
        seq!['e'] + n.exponent
    } else {
        Seq::<char>::empty()
    };
    assert(t == head + n.whole + mid + tail);
    assert forall|i: int| 0 <= i < n.exponent.len() implies inert(#[trigger] n.exponent[i]) by {
        if i == 0 && sign(n.exponent[0]) {
        } else if sign(n.exponent[0]) {
            assert(exponent_digits(n.exponent)[i - 1] == n.exponent[i]);
            assert(digit(exponent_digits(n.exponent)[i - 1]));
        } else {
            assert(exponent_digits(n.exponent)[i] == n.exponent[i]);
            assert(digit(exponent_digits(n.exponent)[i]));
        }
    }
    assert forall|i: int| 0 <= i < t.len() implies inert(#[trigger] t[i]) by {
        let a = head.len();
        let b = a + n.whole.len();
        let c = b + mid.len();
        if i < a {
        } else if i < b {
            assert(t[i] == n.whole[i - a]);
            assert(digit(n.whole[i - a]));
        } else if i < c {
            if i > b {
                assert(t[i] == n.decimal[i - b - 1]);
                assert(digit(n.decimal[i - b - 1]));
            }
        } else {
            if i > c {
                assert(t[i] == n.exponent[i - c - 1]);
            }
        }
    }
}

/// The text of a value passes the tracker of any container around it and
/// leaves it as it was.
pub proof fn lemma_pass_value(floor: nat, k: CounterState, v: JsonValue)
    requires
        outside(floor, k),
        v.wf(),
    ensures
        pass_all(floor, k, stringify(v)) == Some(k),
    decreases v,
{
    match v {
        JsonValue::Text(s) => {
            lemma_pass_escaped(floor, k, s@);
        },
        JsonValue::Number(n) => {
            lemma_numeral_inert(n@);
            lemma_pass_inert(floor, k, n@.text());
        },
        JsonValue::Boolean(b) => {
            lemma_pass_inert(floor, k, stringify(v));
        },
        JsonValue::Null => {
            lemma_pass_inert(floor, k, stringify(v));
        },
        JsonValue::Array(a) => {
            let k1 = k.fed('[');
            lemma_pass_one(floor, k, '[');
            lemma_pass_items(floor, k1, a@);
            lemma_pass_one(floor, k1, ']');
            assert(k1.stack.drop_last() =~= k.stack);
            lemma_pass_concat(floor, k, seq!['['], joined_items(a@));
            lemma_pass_concat(floor, k, seq!['['] + joined_items(a@), seq![']']);
        },
        JsonValue::Object(o) => {
            let k1 = k.fed('{');
            assert(o.wf()) by {
                reveal_with_fuel(JsonValue::wf, 2);
            }
            lemma_pass_one(floor, k, '{');
            lemma_pass_members(floor, k1, o.members@);
            lemma_pass_one(floor, k1, '}');
            assert(k1.stack.drop_last() =~= k.stack);
            lemma_pass_concat(floor, k, seq!['{'], joined_members(o.members@));
            lemma_pass_concat(floor, k, seq!['{'] + joined_members(o.members@), seq!['}']);
        },
    }
}

/// The items of an array pass the tracker of a container around the array.
pub proof fn lemma_pass_items(floor: nat, k: CounterState, vs: Seq<JsonValue>)
    requires
        outside(floor, k),
        floor < k.stack.len(),
        forall|i: int| 0 <= i < vs.len() ==> (#[trigger] vs[i]).wf(),
    ensures
        pass_all(floor, k, joined_items(vs)) == Some(k),
    decreases vs,
{
    reveal_with_fuel(joined_items, 2);
    if vs.len() == 1 {
        lemma_pass_value(floor, k, vs[0]);
    } else if vs.len() > 1 {
        assert forall|i: int| 0 <= i < vs.drop_last().len() implies (#[trigger] vs.drop_last()[i]).wf() by {
            assert(vs[i].wf());
        }
        lemma_pass_items(floor, k, vs.drop_last());
        lemma_pass_one(floor, k, ',');
        lemma_pass_value(floor, k, vs.last());
        lemma_pass_concat(floor, k, joined_items(vs.drop_last()), seq![',']);
        lemma_pass_concat(
            floor,
            k,
            joined_items(vs.drop_last()) + seq![','],
            stringify(vs.last()),
        );
    }
}

/// A member of an object passes the tracker of a container around the object.
pub proof fn lemma_pass_member(floor: nat, k: CounterState, m: (String, JsonValue))
    requires
        outside(floor, k),
        floor < k.stack.len(),
        m.1.wf(),
    ensures
        pass_all(floor, k, member_text(m)) == Some(k),
    decreases m, 0int,
{
    reveal_with_fuel(member_text, 2);
    lemma_pass_escaped(floor, k, m.0@);
    lemma_pass_one(floor, k, ':');
    lemma_pass_value(floor, k, m.1);
    lemma_pass_concat(floor, k, escaped(m.0@), seq![':']);
    lemma_pass_concat(floor, k, escaped(m.0@) + seq![':'], stringify(m.1));
}

/// The members of an object pass the tracker of a container around the object.
pub proof fn lemma_pass_members(floor: nat, k: CounterState, ms: Seq<(String, JsonValue)>)
    requires
        outside(floor, k),
        floor < k.stack.len(),
        forall|i: int| 0 <= i < ms.len() ==> (#[trigger] ms[i]).1.wf(),
    ensures
        pass_all(floor, k, joined_members(ms)) == Some(k),
    decreases ms,
{
    reveal_with_fuel(joined_members, 2);
    if ms.len() == 1 {
        lemma_pass_member(floor, k, ms[0]);
    } else if ms.len() > 1 {
        assert forall|i: int| 0 <= i < ms.drop_last().len() implies (#[trigger] ms.drop_last()[i]).1.wf() by {
            assert(ms[i].1.wf());
        }
        lemma_pass_members(floor, k, ms.drop_last());
        lemma_pass_one(floor, k, ',');
        lemma_pass_member(floor, k, ms.last());
        lemma_pass_concat(floor, k, joined_members(ms.drop_last()), seq![',']);
        lemma_pass_concat(
            floor,
            k,
            joined_members(ms.drop_last()) + seq![','],
            member_text(ms.last()),
        );
    }
}

} // verus!
