//! Whitespace between the tokens of a text is insignificant: a value is read
//! from its text with whitespace put around every token outside the strings.
use vstd::prelude::*;
use crate::chars::{blank, whitespace};
use crate::containers::{
    joined_from, lemma_blank_is_inert, lemma_reread_array, lemma_reread_empty,
    lemma_reread_object, members_from, reads_as,
};
use crate::error::JsonError;
use crate::margins::{lemma_leading_whitespace, lemma_trailing_whitespace, whitespace_around};
use crate::parser::{parse_at, parse_spec};
use crate::passage::{
    lemma_pass_concat, lemma_pass_escaped, lemma_pass_inert, lemma_pass_one, lemma_pass_value,
    outside, pass_all,
};
use crate::rereading::{lemma_quote_found, plain_text, quote_ok};
use crate::roundtrip::{
    keys_of, lemma_map_of_members, lemma_reread_at, lemma_reread_text, lemma_starts, values_of,
};
use crate::serialize::{escaped, stringify};
use crate::stack::{ContainerKind, CounterState};
use crate::value::{items_seq, lemma_items_seq, JsonModel, JsonValue};

verus! {

/// The text of a value with `pad` before and after every token: around each
/// item of an array, around each key and each value of an object, and between
/// the brackets of an empty container.
pub open spec fn spaced(v: JsonValue, pad: Seq<char>) -> Seq<char>
    decreases v,
{
    match v {
        JsonValue::Array(a) => seq!['['] + (if a@.len() == 0 {
            pad
        } else {
            joined_from(spaced_items(a@, pad), 0)
        }) + seq![']'],
        JsonValue::Object(o) => seq!['{'] + (if o.members@.len() == 0 {
            pad
        } else {
            members_from(spaced_keys(o.members@, pad), spaced_values(o.members@, pad), 0)
        }) + seq!['}'],
        _ => stringify(v),
    }
}

/// The texts of the items of an array, each between two pads.
pub open spec fn spaced_items(vs: Seq<JsonValue>, pad: Seq<char>) -> Seq<Seq<char>>
    decreases vs,
{
    Seq::new(
        vs.len(),
        |i: int|
            if 0 <= i < vs.len() {
                pad + spaced(vs[i], pad) + pad
            } else {
                Seq::empty()
            },
    )
}

/// The texts of the keys of an object, each between two pads.
pub open spec fn spaced_keys(ms: Seq<(String, JsonValue)>, pad: Seq<char>) -> Seq<Seq<char>> {
    Seq::new(ms.len(), |j: int| pad + escaped(ms[j].0@) + pad)
}

/// The texts of the values of an object, each between two pads.
pub open spec fn spaced_values(ms: Seq<(String, JsonValue)>, pad: Seq<char>) -> Seq<Seq<char>>
    decreases ms,
{
    Seq::new(
        ms.len(),
        |j: int|
            if 0 <= j < ms.len() {
                pad + spaced(ms[j].1, pad) + pad
            } else {
                Seq::empty()
            },
    )
}

/// A spaced text is not empty and does not begin with whitespace.
pub proof fn lemma_spaced_starts(v: JsonValue, pad: Seq<char>)
    requires
        v.wf(),
    ensures
        spaced(v, pad).len() > 0,
        !whitespace(spaced(v, pad)[0]),
{
    match v {
        JsonValue::Array(_) => {
            assert(spaced(v, pad)[0] == '[');
        },
        JsonValue::Object(_) => {
            assert(spaced(v, pad)[0] == '{');
        },
        _ => {
            lemma_starts(v);
        },
    }
}

/// A text that passes the tracker passes it between two pads.
pub proof fn lemma_pass_padded(floor: nat, k: CounterState, pad: Seq<char>, s: Seq<char>)
    requires
        outside(floor, k),
        blank(pad),
        pass_all(floor, k, s) == Some(k),
    ensures
        pass_all(floor, k, pad + s + pad) == Some(k),
{
    lemma_blank_is_inert(pad);
    lemma_pass_inert(floor, k, pad);
    lemma_pass_concat(floor, k, pad, s);
    lemma_pass_concat(floor, k, pad + s, pad);
}

/// Texts that pass the tracker inside a container pass it with commas
/// between them.
pub proof fn lemma_pass_joined(floor: nat, k: CounterState, es: Seq<Seq<char>>, i: int)
    requires
        outside(floor, k),
        floor < k.stack.len(),
        0 <= i <= es.len(),
        forall|t: int| 0 <= t < es.len() ==> pass_all(floor, k, #[trigger] es[t]) == Some(k),
    ensures
        pass_all(floor, k, joined_from(es, i)) == Some(k),
    decreases es.len() - i,
{
    if i < es.len() {
        assert(pass_all(floor, k, es[i]) == Some(k));
        if i < es.len() - 1 {
            lemma_pass_joined(floor, k, es, i + 1);
            lemma_pass_one(floor, k, ',');
            lemma_pass_concat(floor, k, es[i], seq![',']);
            lemma_pass_concat(floor, k, es[i] + seq![','], joined_from(es, i + 1));
        }
    }
}

/// Keys and values that pass the tracker inside an object pass it with colons
/// and commas between them.
pub proof fn lemma_pass_members_from(
    floor: nat,
    k: CounterState,
    kts: Seq<Seq<char>>,
    vts: Seq<Seq<char>>,
    j: int,
)
    requires
        outside(floor, k),
        floor < k.stack.len(),
        kts.len() == vts.len(),
        0 <= j <= kts.len(),
        forall|t: int| 0 <= t < kts.len() ==> pass_all(floor, k, #[trigger] kts[t]) == Some(k),
        forall|t: int| 0 <= t < vts.len() ==> pass_all(floor, k, #[trigger] vts[t]) == Some(k),
    ensures
        pass_all(floor, k, members_from(kts, vts, j)) == Some(k),
    decreases kts.len() - j,
{
    if j < kts.len() {
        assert(pass_all(floor, k, kts[j]) == Some(k));
        assert(pass_all(floor, k, vts[j]) == Some(k));
        lemma_pass_one(floor, k, ':');
        lemma_pass_concat(floor, k, kts[j], seq![':']);
        lemma_pass_concat(floor, k, kts[j] + seq![':'], vts[j]);
        if j < kts.len() - 1 {
            lemma_pass_members_from(floor, k, kts, vts, j + 1);
            lemma_pass_one(floor, k, ',');
            lemma_pass_concat(floor, k, kts[j] + seq![':'] + vts[j], seq![',']);
            lemma_pass_concat(
                floor,
                k,
                kts[j] + seq![':'] + vts[j] + seq![','],
                members_from(kts, vts, j + 1),
            );
        }
    }
}

/// A spaced text passes the tracker of any container around it and leaves it
/// as it was.
pub proof fn lemma_pass_spaced(floor: nat, k: CounterState, v: JsonValue, pad: Seq<char>)
    requires
        outside(floor, k),
        v.wf(),
        blank(pad),
    ensures
        pass_all(floor, k, spaced(v, pad)) == Some(k),
    decreases v,
{
    match v {
        JsonValue::Array(a) => {
            let k1 = k.fed('[');
            let body = if a@.len() == 0 {
                pad
            } else {
                joined_from(spaced_items(a@, pad), 0)
            };
            assert(spaced(v, pad) == seq!['['] + body + seq![']']);
            if a@.len() == 0 {
                lemma_blank_is_inert(pad);
                lemma_pass_inert(floor, k1, pad);
            } else {
                let es = spaced_items(a@, pad);
                assert forall|t: int| 0 <= t < es.len() implies pass_all(
                    floor,
                    k1,
                    #[trigger] es[t],
                ) == Some(k1) by {
                    assert(a@[t].wf());
                    lemma_pass_spaced(floor, k1, a@[t], pad);
                    lemma_pass_padded(floor, k1, pad, spaced(a@[t], pad));
                }
                lemma_pass_joined(floor, k1, es, 0);
            }
            lemma_pass_one(floor, k, '[');
            lemma_pass_one(floor, k1, ']');
            assert(k1.stack.drop_last() =~= k.stack);
            lemma_pass_concat(floor, k, seq!['['], body);
            lemma_pass_concat(floor, k, seq!['['] + body, seq![']']);
        },
        JsonValue::Object(o) => {
            let ms = o.members@;
            let k1 = k.fed('{');
            assert(o.wf()) by {
                reveal_with_fuel(JsonValue::wf, 2);
            }
            let body = if ms.len() == 0 {
                pad
            } else {
                members_from(spaced_keys(ms, pad), spaced_values(ms, pad), 0)
            };
            assert(spaced(v, pad) == seq!['{'] + body + seq!['}']);
            if ms.len() == 0 {
                lemma_blank_is_inert(pad);
                lemma_pass_inert(floor, k1, pad);
            } else {
                let kts = spaced_keys(ms, pad);
                let vts = spaced_values(ms, pad);
                assert forall|t: int| 0 <= t < kts.len() implies pass_all(
                    floor,
                    k1,
                    #[trigger] kts[t],
                ) == Some(k1) by {
                    lemma_pass_escaped(floor, k1, ms[t].0@);
                    lemma_pass_padded(floor, k1, pad, escaped(ms[t].0@));
                }
                assert forall|t: int| 0 <= t < vts.len() implies pass_all(
                    floor,
                    k1,
                    #[trigger] vts[t],
                ) == Some(k1) by {
                    assert(ms[t].1.wf());
                    lemma_pass_spaced(floor, k1, ms[t].1, pad);
                    lemma_pass_padded(floor, k1, pad, spaced(ms[t].1, pad));
                }
                lemma_pass_members_from(floor, k1, kts, vts, 0);
            }
            lemma_pass_one(floor, k, '{');
            lemma_pass_one(floor, k1, '}');
            assert(k1.stack.drop_last() =~= k.stack);
            lemma_pass_concat(floor, k, seq!['{'], body);
            lemma_pass_concat(floor, k, seq!['{'] + body, seq!['}']);
        },
        _ => {
            lemma_pass_value(floor, k, v);
        },
    }
}

/// A text that is read as a value and passes the tracker stands for the
/// value inside a container, also between two pads.
pub proof fn lemma_padded_reads(pad: Seq<char>, s: Seq<char>, val: JsonModel)
    requires
        blank(pad),
        s.len() > 0,
        !whitespace(s[0]),
        forall|b: int| #[trigger] parse_at(s, b) == Ok::<JsonModel, JsonError>(val),
        forall|k: CounterState| outside(1, k) ==> #[trigger] pass_all(1, k, s) == Some(k),
    ensures
        reads_as(pad + s + pad, val),
{
    let e = pad + s + pad;
    assert(!blank(e)) by {
        assert(e[pad.len() as int] == s[0]);
    }
    assert forall|b: int| #[trigger] parse_at(e, b) == Ok::<JsonModel, JsonError>(val) by {
        let inner = b + pad.len();
        assert(parse_at(s, inner) == Ok::<JsonModel, JsonError>(val));
        lemma_trailing_whitespace(s, pad, inner);
        lemma_leading_whitespace(pad, s + pad, b);
        assert(e =~= pad + (s + pad));
    }
    assert forall|k: CounterState| outside(1, k) implies #[trigger] pass_all(1, k, e) == Some(
        k,
    ) by {
        assert(pass_all(1, k, s) == Some(k));
        lemma_pass_padded(1, k, pad, s);
    }
}

/// The spaced text of a value, between two pads, stands for the value
/// inside a container.
pub proof fn lemma_spaced_item(v: JsonValue, pad: Seq<char>)
    requires
        v.wf(),
        v.plain(),
        blank(pad),
    ensures
        reads_as(pad + spaced(v, pad) + pad, v@),
    decreases v, 1int,
{
    let s = spaced(v, pad);
    lemma_spaced_starts(v, pad);
    assert forall|b: int| #[trigger] parse_at(s, b) == Ok::<JsonModel, JsonError>(v@) by {
        lemma_reread_spaced(v, pad, b);
    }
    assert forall|k: CounterState| outside(1, k) implies #[trigger] pass_all(1, k, s) == Some(
        k,
    ) by {
        lemma_pass_spaced(1, k, v, pad);
    }
    lemma_padded_reads(pad, s, v@);
}

/// A written key, between two pads, stands for the key inside an object.
pub proof fn lemma_spaced_key(key: Seq<char>, pad: Seq<char>)
    requires
        plain_text(key),
        blank(pad),
    ensures
        reads_as(pad + escaped(key) + pad, JsonModel::Text(key)),
        quote_ok(true, pad + escaped(key) + pad),
{
    let e = escaped(key);
    assert(e[0] == '"');
    assert forall|b: int| #[trigger] parse_at(e, b) == Ok::<JsonModel, JsonError>(
        JsonModel::Text(key),
    ) by {
        lemma_reread_text(key, b);
    }
    assert forall|k: CounterState| outside(1, k) implies #[trigger] pass_all(1, k, e) == Some(
        k,
    ) by {
        lemma_pass_escaped(1, k, key);
    }
    lemma_padded_reads(pad, e, JsonModel::Text(key));
    lemma_quote_found(pad, e + pad);
    assert(pad + e + pad =~= pad + (e + pad));
}

/// A value is read from its spaced text, wherever the text stands.
pub proof fn lemma_reread_spaced(v: JsonValue, pad: Seq<char>, base: int)
    requires
        v.wf(),
        v.plain(),
        blank(pad),
    ensures
        parse_at(spaced(v, pad), base) == Ok::<JsonModel, JsonError>(v@),
    decreases v, 0int,
{
    match v {
        JsonValue::Array(a) => {
            let vs = a@;
            let vals = items_seq(vs);
            lemma_items_seq(vs);
            if vs.len() == 0 {
                assert(vals =~= Seq::<JsonModel>::empty());
                lemma_reread_empty(ContainerKind::Array, pad, base);
            } else {
                let es = spaced_items(vs, pad);
                assert forall|i: int| 0 <= i < es.len() implies reads_as(
                    #[trigger] es[i],
                    vals[i],
                ) by {
                    assert(vs[i].wf());
                    assert(vs[i].plain());
                    lemma_spaced_item(vs[i], pad);
                }
                lemma_reread_array(es, vals, base);
            }
        },
        JsonValue::Object(o) => {
            let ms = o.members@;
            assert(o.wf()) by {
                reveal_with_fuel(JsonValue::wf, 2);
            }
            lemma_map_of_members(ms);
            if ms.len() == 0 {
                assert(v@ == JsonModel::Object(Map::<Seq<char>, JsonModel>::empty())) by {
                    reveal_with_fuel(crate::value::members_map, 2);
                }
                lemma_reread_empty(ContainerKind::Object, pad, base);
            } else {
                let kts = spaced_keys(ms, pad);
                let keys = keys_of(ms);
                let vts = spaced_values(ms, pad);
                let vals = values_of(ms);
                assert forall|j: int| 0 <= j < kts.len() implies reads_as(
                    #[trigger] kts[j],
                    JsonModel::Text(keys[j]),
                ) && quote_ok(true, kts[j]) by {
                    assert(plain_text(ms[j].0@));
                    lemma_spaced_key(ms[j].0@, pad);
                }
                assert forall|j: int| 0 <= j < vts.len() implies reads_as(
                    #[trigger] vts[j],
                    vals[j],
                ) by {
                    assert(ms[j].1.wf());
                    assert(ms[j].1.plain());
                    lemma_spaced_item(ms[j].1, pad);
                }
                lemma_reread_object(kts, keys, vts, vals, base);
            }
        },
        _ => {
            lemma_reread_at(v, base);
        },
    }
}

/// Whitespace outside strings is insignificant: a valid value whose strings
/// hold no delete character and no C1 control character is read from its text
/// with any whitespace put before and after every token.
pub proof fn parse_of_spaced(v: JsonValue, pad: Seq<char>)
    requires
        v.wf(),
        v.plain(),
        blank(pad),
    ensures
        parse_spec(pad + spaced(v, pad) + pad) == Ok::<JsonModel, JsonError>(v@),
{
    lemma_reread_spaced(v, pad, 0);
    whitespace_around(pad, spaced(v, pad), pad);
}

} // verus!
