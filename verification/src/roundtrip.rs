//! Reading what was written gives the value back.
use vstd::prelude::*;
use crate::chars::{blank, digit, whitespace};
use crate::containers::{
    inserted_from, joined_from, lemma_reread_array, lemma_reread_empty, lemma_reread_object,
    map_of, members_from, reads_as,
};
use crate::error::JsonError;
use crate::numerals::lemma_number_after_text;
use crate::parser::{finish, parse_at, parse_spec, peek, run, settle_number, start_value, step, ReaderState};
use crate::passage::{
    all_inert, inert, lemma_numeral_inert, lemma_pass_escaped, lemma_pass_escaped_body,
    lemma_pass_inert, lemma_pass_value, outside, pass_all,
};
use crate::rereading::{
    lemma_quote_found, lemma_scalar_after_one, lemma_scalar_run, lemma_text_escaped_body,
    open_text, plain_text, quote_ok, scalar_after,
};
use crate::serialize::{
    escaped, escaped_body, joined_items, joined_members, member_text, stringify,
};
use crate::stack::pending::{
    false_text, is_prefix, lemma_number_after_concat, null_text, number_after, true_text,
    MatcherState, NumberState,
};
use crate::stack::{ContainerKind, CounterState, PendingModel, ScalarModel};
use crate::value::{items_seq, lemma_items_seq, members_map, JsonModel, JsonValue};

verus! {

impl JsonValue {
    /// Whether every string and every key in the value is read back as it is
    /// written: none holds the delete character or a C1 control character,
    /// which are written as they are and refused when read.
    pub open spec fn plain(&self) -> bool
        decreases self,
    {
        match self {
            JsonValue::Text(s) => plain_text(s@),
            JsonValue::Array(a) => forall|i: int| 0 <= i < a@.len() ==> (#[trigger] a@[i]).plain(),
            JsonValue::Object(o) => forall|i: int|
                0 <= i < o.members@.len() ==> plain_text((#[trigger] o.members@[i]).0@)
                    && o.members@[i].1.plain(),
            _ => true,
        }
    }
}

/// The reader after a value was read to its end.
pub open spec fn finalized(v: JsonModel) -> ReaderState {
    ReaderState { processing: Some(PendingModel::Finalized(v)), ..ReaderState::initial() }
}

/// A scalar that ends with a character of its own is read from its text:
/// the first character begins its automaton, the last one completes it.
pub proof fn lemma_closed_scalar(
    text: Seq<char>,
    base: int,
    s0: ScalarModel,
    s1: ScalarModel,
    k2: CounterState,
    val: JsonModel,
)
    requires
        text.len() >= 2,
        CounterState::initial().accepts(text[0]),
        start_value(text[0], peek(text, 0), base) == Ok::<Option<PendingModel>, JsonError>(
            Some(PendingModel::Simple(s0)),
        ),
        pass_all(0, CounterState::initial().fed(text[0]), text.subrange(1, text.len() - 1))
            == Some(k2),
        scalar_after(s0, text.subrange(1, text.len() - 1)) == Some(s1),
        k2.accepts(text.last()),
        k2.fed(text.last()) == CounterState::initial(),
        s1.verdict(text.last()) == Ok::<bool, char>(true),
        s1.pushed(text.last()).json() == Some(val),
    ensures
        parse_at(text, base) == Ok::<JsonModel, JsonError>(val),
{
    reveal_with_fuel(run, 3);
    reveal_with_fuel(step, 2);
    reveal_with_fuel(finish, 2);
    reveal_with_fuel(parse_at, 2);
    let n = text.len() as int;
    let st0 = ReaderState::initial();
    let st1 = ReaderState {
        processing: Some(PendingModel::Simple(s0)),
        counter: st0.counter.fed(text[0]),
        ..st0
    };
    assert(step(st0, text[0], peek(text, 0), base) == Ok::<ReaderState, JsonError>(st1));
    assert(run(text, 0, base, st0) == run(text, 1, base, st1));
    let seg = text.subrange(1, n - 1);
    lemma_scalar_run(text, 1, base, st1, s0, seg);
    let st2 = ReaderState { processing: Some(PendingModel::Simple(s1)), counter: k2, ..st1 };
    assert(run(text, 1, base, st1) == run(text, n - 1, base, st2));
    let st3 = finalized(val);
    assert(step(st2, text[n - 1], peek(text, n - 1), base + n - 1) == Ok::<
        ReaderState,
        JsonError,
    >(st3));
    assert(run(text, n - 1, base, st2) == run(text, n, base, st3));
    assert(run(text, n, base, st3) == Ok::<JsonModel, JsonError>(val));
}

/// A written string is read as the string.
pub proof fn lemma_reread_text(s: Seq<char>, base: int)
    requires
        plain_text(s),
    ensures
        parse_at(escaped(s), base) == Ok::<JsonModel, JsonError>(JsonModel::Text(s)),
{
    let text = escaped(s);
    let body = escaped_body(s);
    let k1 = CounterState::initial().fed('"');
    assert(text.subrange(1, text.len() - 1) =~= body);
    lemma_pass_escaped_body(0, k1, s);
    lemma_text_escaped_body(Seq::empty(), s);
    assert(Seq::<char>::empty() + s =~= s);
    assert(text[0] == '"');
    assert(text.last() == '"');
    lemma_closed_scalar(
        text,
        base,
        open_text(Seq::empty()),
        open_text(s),
        k1,
        JsonModel::Text(s),
    );
}

/// The matcher of a literal, begun with the literal's first characters.
pub open spec fn matching_literal(null: bool, inner: Seq<char>) -> ScalarModel {
    if null {
        ScalarModel::Null(MatcherState::null(inner))
    } else {
        ScalarModel::Bool(MatcherState::boolean(inner))
    }
}

/// The literals that a matcher knows.
pub open spec fn literals(null: bool) -> Seq<Seq<char>> {
    if null {
        seq![null_text()]
    } else {
        seq![true_text(), false_text()]
    }
}

/// Whether `lit` is a literal none of whose proper beginnings is a literal.
pub open spec fn is_literal(null: bool, lit: Seq<char>) -> bool {
    &&& literals(null).contains(lit)
    &&& lit.len() >= 2
    &&& forall|y: int| 0 <= y < lit.len() ==> !literals(null).contains(#[trigger] lit.take(y))
    &&& all_inert(lit)
}

/// A matcher takes the characters of its literal, one by one, up to the last.
pub proof fn lemma_literal_middle(null: bool, lit: Seq<char>, j: int)
    requires
        is_literal(null, lit),
        1 <= j < lit.len(),
    ensures
        scalar_after(matching_literal(null, lit.take(1)), lit.subrange(1, j)) == Some(
            matching_literal(null, lit.take(j)),
        ),
    decreases j,
{
    if j == 1 {
        assert(lit.subrange(1, 1).len() == 0);
    } else {
        lemma_literal_middle(null, lit, j - 1);
        let before = matching_literal(null, lit.take(j - 1));
        let c = lit[j - 1];
        assert(lit.subrange(1, j) =~= lit.subrange(1, j - 1) + seq![c]);
        crate::rereading::lemma_scalar_after_concat(
            matching_literal(null, lit.take(1)),
            lit.subrange(1, j - 1),
            seq![c],
        );
        lemma_scalar_after_one(before, c);
        lemma_literal_step(null, lit, j - 1);
    }
}

/// What a matcher that took the first `j` characters of its literal says of
/// the next one.
pub proof fn lemma_literal_step(null: bool, lit: Seq<char>, j: int)
    requires
        is_literal(null, lit),
        1 <= j < lit.len(),
    ensures
        matching_literal(null, lit.take(j)).verdict(lit[j]) == Ok::<bool, char>(
            j + 1 == lit.len(),
        ),
        matching_literal(null, lit.take(j)).pushed(lit[j]) == matching_literal(
            null,
            lit.take(j + 1),
        ),
{
    let m = MatcherState { inner: lit.take(j), matchers: literals(null) };
    assert(lit.take(j).push(lit[j]) =~= lit.take(j + 1));
    let w = choose|w: int| 0 <= w < literals(null).len() && literals(null)[w] == lit;
    assert(lit.take(lit.take(j + 1).len() as int) =~= lit.take(j + 1));
    assert(is_prefix(lit.take(j + 1), literals(null)[w]));
    assert(m.viable(lit.take(j + 1)));
    if j + 1 == lit.len() {
        assert(lit.take(j + 1) =~= lit);
    }
}

/// A literal is read as its value.
pub proof fn lemma_reread_literal(null: bool, lit: Seq<char>, val: JsonModel, base: int)
    requires
        is_literal(null, lit),
        matching_literal(null, lit).json() == Some(val),
        null ==> lit[0] == 'n',
        !null ==> lit[0] == 't' || lit[0] == 'f',
    ensures
        parse_at(lit, base) == Ok::<JsonModel, JsonError>(val),
{
    let n = lit.len() as int;
    let k0 = CounterState::initial();
    assert(inert(lit[0]));
    assert(inert(lit[n - 1]));
    assert(lit.take(1) =~= seq![lit[0]]);
    lemma_literal_middle(null, lit, n - 1);
    lemma_literal_step(null, lit, n - 1);
    assert(lit.take(n) =~= lit);
    assert forall|i: int| 0 <= i < lit.subrange(1, n - 1).len() implies inert(
        #[trigger] lit.subrange(1, n - 1)[i],
    ) by {
        assert(lit.subrange(1, n - 1)[i] == lit[i + 1]);
    }
    lemma_pass_inert(0, k0, lit.subrange(1, n - 1));
    lemma_closed_scalar(
        lit,
        base,
        matching_literal(null, lit.take(1)),
        matching_literal(null, lit.take(n - 1)),
        k0,
        val,
    );
}

/// The three literals are read as their values.
pub proof fn lemma_reread_literals(base: int)
    ensures
        parse_at(true_text(), base) == Ok::<JsonModel, JsonError>(JsonModel::Boolean(true)),
        parse_at(false_text(), base) == Ok::<JsonModel, JsonError>(JsonModel::Boolean(false)),
        parse_at(null_text(), base) == Ok::<JsonModel, JsonError>(JsonModel::Null),
{
    let t = true_text();
    let f = false_text();
    let n = null_text();
    assert(literals(false)[0] == t);
    assert(literals(false)[1] == f);
    assert(literals(true)[0] == n);
    assert forall|y: int| 0 <= y < t.len() implies !literals(false).contains(
        #[trigger] t.take(y),
    ) by {
        assert(t.take(y).len() == y);
    }
    assert forall|y: int| 0 <= y < f.len() implies !literals(false).contains(
        #[trigger] f.take(y),
    ) by {
        assert(f.take(y).len() == y);
        if y == 4 {
            assert(f.take(y)[0] == 'f');
            assert(t[0] == 't');
        }
    }
    assert forall|y: int| 0 <= y < n.len() implies !literals(true).contains(
        #[trigger] n.take(y),
    ) by {
        assert(n.take(y).len() == y);
    }
    assert(t != f) by {
        assert(t.len() != f.len());
    }
    lemma_reread_literal(false, t, JsonModel::Boolean(true), base);
    lemma_reread_literal(false, f, JsonModel::Boolean(false), base);
    lemma_reread_literal(true, n, JsonModel::Null, base);
}

/// The number automaton after the first `i` characters of a text that it takes
/// to the end.
pub proof fn lemma_number_prefix(text: Seq<char>, i: int)
    requires
        number_after(NumberState::initial(), text) is Some,
        0 <= i < text.len(),
    ensures
        number_after(NumberState::initial(), text.take(i)) is Some,
        number_after(NumberState::initial(), text.take(i))->0.can_push(text[i]),
        number_after(NumberState::initial(), text.take(i + 1)) == Some(
            number_after(NumberState::initial(), text.take(i))->0.pushed(text[i]),
        ),
{
    let s0 = NumberState::initial();
    assert(text =~= text.take(i + 1) + text.skip(i + 1));
    lemma_number_after_concat(s0, text.take(i + 1), text.skip(i + 1));
    assert(text.take(i + 1) =~= text.take(i).push(text[i]));
    crate::stack::pending::lemma_number_after_push(s0, text.take(i), text[i]);
}

/// The reader while it reads a number that makes up the whole text: after `j`
/// characters it holds the automaton that took them, and after the last one
/// the number.
pub open spec fn reading_number(text: Seq<char>, j: int, val: JsonModel) -> ReaderState {
    ReaderState {
        processing: Some(
            if j < text.len() {
                PendingModel::Number(number_after(NumberState::initial(), text.take(j))->0)
            } else {
                PendingModel::Finalized(val)
            },
        ),
        ..ReaderState::initial()
    }
}

/// The reader goes through the characters of a number.
pub proof fn lemma_number_run(text: Seq<char>, base: int, j: int, val: JsonModel)
    requires
        1 <= j <= text.len(),
        all_inert(text),
        number_after(NumberState::initial(), text) is Some,
        number_after(NumberState::initial(), text)->0.json() == Some(val),
    ensures
        run(text, 0, base, ReaderState::initial()) == run(
            text,
            j,
            base,
            reading_number(text, j, val),
        ),
    decreases j,
{
    reveal_with_fuel(run, 2);
    reveal_with_fuel(step, 2);
    let s0 = NumberState::initial();
    let k0 = CounterState::initial();
    let i = j - 1;
    let c = text[i];
    assert(inert(c));
    assert(k0.fed(c) == k0);
    lemma_number_prefix(text, i);
    if j < text.len() {
        lemma_number_prefix(text, j);
        assert(inert(text[j]));
    } else {
        assert(text.take(j) =~= text);
    }
    let next = number_after(s0, text.take(j))->0;
    let settled = settle_number(next, peek(text, i), base + i);
    assert(settled == Ok::<PendingModel, JsonError>(reading_number(text, j, val).processing->0));
    if j == 1 {
        assert(text.take(0).len() == 0);
        assert(number_after(s0, text.take(0)) == Some(s0));
        assert(c == '-' || digit(c));
        assert(step(ReaderState::initial(), c, peek(text, 0), base) == Ok::<
            ReaderState,
            JsonError,
        >(reading_number(text, 1, val)));
    } else {
        lemma_number_run(text, base, j - 1, val);
        let before = reading_number(text, j - 1, val);
        assert(step(before, c, peek(text, i), base + i) == Ok::<ReaderState, JsonError>(
            reading_number(text, j, val),
        ));
    }
}

/// The text of a numeral of the grammar is read as the numeral.
pub proof fn lemma_reread_number(n: crate::number::Numeral, base: int)
    requires
        n.wf(),
    ensures
        parse_at(n.text(), base) == Ok::<JsonModel, JsonError>(JsonModel::Number(n)),
{
    reveal_with_fuel(run, 2);
    reveal_with_fuel(finish, 2);
    reveal_with_fuel(parse_at, 2);
    let text = n.text();
    lemma_number_after_text(n);
    lemma_numeral_inert(n);
    assert(text.len() >= 1);
    lemma_number_run(text, base, text.len() as int, JsonModel::Number(n));
}

/// The text of a value is not empty and does not begin with whitespace.
pub proof fn lemma_starts(v: JsonValue)
    requires
        v.wf(),
    ensures
        stringify(v).len() > 0,
        !whitespace(stringify(v)[0]),
        !blank(stringify(v)),
        v is Text ==> stringify(v)[0] == '"',
{
    match v {
        JsonValue::Number(n) => {
            let t = n@.text();
            assert(digit(n@.whole[0]));
            if n@.negative {
                assert(t[0] == '-');
            } else {
                assert(t[0] == n@.whole[0]);
            }
        },
        _ => {},
    }
    assert(!whitespace(stringify(v)[0]));
}

/// The texts of the values of a list.
pub open spec fn item_texts(vs: Seq<JsonValue>) -> Seq<Seq<char>> {
    Seq::new(vs.len(), |i: int| stringify(vs[i]))
}

/// Joining two lists of values joins their texts with a comma.
pub proof fn lemma_joined_items_concat(a: Seq<JsonValue>, b: Seq<JsonValue>)
    requires
        a.len() > 0,
        b.len() > 0,
    ensures
        joined_items(a + b) == joined_items(a) + seq![','] + joined_items(b),
    decreases b.len(),
{
    reveal_with_fuel(joined_items, 2);
    assert((a + b).last() == b.last());
    if b.len() == 1 {
        assert((a + b).drop_last() =~= a);
        assert(b[0] == b.last());
    } else {
        assert((a + b).drop_last() =~= a + b.drop_last());
        lemma_joined_items_concat(a, b.drop_last());
        assert(joined_items(a + b) =~= joined_items(a) + seq![','] + joined_items(b));
    }
}

/// The joined texts of a list of values, read from the left.
pub proof fn lemma_items_from(vs: Seq<JsonValue>, k: int)
    requires
        0 <= k <= vs.len(),
    ensures
        joined_from(item_texts(vs), k) == joined_items(vs.skip(k)),
    decreases vs.len() - k,
{
    reveal_with_fuel(joined_items, 2);
    if k == vs.len() {
    } else if k == vs.len() - 1 {
        assert(vs.skip(k)[0] == vs[k]);
    } else {
        lemma_items_from(vs, k + 1);
        assert(vs.skip(k) =~= seq![vs[k]] + vs.skip(k + 1));
        lemma_joined_items_concat(seq![vs[k]], vs.skip(k + 1));
        assert(seq![vs[k]][0] == vs[k]);
    }
}

/// The texts of the keys of a list of members.
pub open spec fn key_texts(ms: Seq<(String, JsonValue)>) -> Seq<Seq<char>> {
    Seq::new(ms.len(), |j: int| escaped(ms[j].0@))
}

/// The keys of a list of members.
pub open spec fn keys_of(ms: Seq<(String, JsonValue)>) -> Seq<Seq<char>> {
    Seq::new(ms.len(), |j: int| ms[j].0@)
}

/// The texts of the values of a list of members.
pub open spec fn value_texts(ms: Seq<(String, JsonValue)>) -> Seq<Seq<char>> {
    Seq::new(ms.len(), |j: int| stringify(ms[j].1))
}

/// The values of a list of members.
pub open spec fn values_of(ms: Seq<(String, JsonValue)>) -> Seq<JsonModel> {
    Seq::new(ms.len(), |j: int| ms[j].1@)
}

/// Joining two lists of members joins their texts with a comma.
pub proof fn lemma_joined_members_concat(a: Seq<(String, JsonValue)>, b: Seq<(String, JsonValue)>)
    requires
        a.len() > 0,
        b.len() > 0,
    ensures
        joined_members(a + b) == joined_members(a) + seq![','] + joined_members(b),
    decreases b.len(),
{
    reveal_with_fuel(joined_members, 2);
    assert((a + b).last() == b.last());
    if b.len() == 1 {
        assert((a + b).drop_last() =~= a);
        assert(b[0] == b.last());
    } else {
        assert((a + b).drop_last() =~= a + b.drop_last());
        lemma_joined_members_concat(a, b.drop_last());
        assert(joined_members(a + b) =~= joined_members(a) + seq![','] + joined_members(b));
    }
}

/// The joined texts of a list of members, read from the left.
pub proof fn lemma_members_from(ms: Seq<(String, JsonValue)>, j: int)
    requires
        0 <= j <= ms.len(),
    ensures
        members_from(key_texts(ms), value_texts(ms), j) == joined_members(ms.skip(j)),
    decreases ms.len() - j,
{
    reveal_with_fuel(joined_members, 2);
    reveal_with_fuel(member_text, 2);
    if j == ms.len() {
    } else if j == ms.len() - 1 {
        assert(ms.skip(j)[0] == ms[j]);
    } else {
        lemma_members_from(ms, j + 1);
        assert(ms.skip(j) =~= seq![ms[j]] + ms.skip(j + 1));
        lemma_joined_members_concat(seq![ms[j]], ms.skip(j + 1));
        assert(seq![ms[j]][0] == ms[j]);
        assert(members_from(key_texts(ms), value_texts(ms), j) =~= joined_members(ms.skip(j)));
    }
}

/// Inserting the members in order gives the map that they stand for.
pub proof fn lemma_inserted(ms: Seq<(String, JsonValue)>, j: int)
    requires
        0 <= j <= ms.len(),
    ensures
        inserted_from(members_map(ms.take(j)), keys_of(ms), values_of(ms), j) == members_map(ms),
    decreases ms.len() - j,
{
    reveal_with_fuel(members_map, 2);
    if j == ms.len() {
        assert(ms.take(j) =~= ms);
    } else {
        assert(ms.take(j + 1).drop_last() =~= ms.take(j));
        assert(ms.take(j + 1).last() == ms[j]);
        lemma_inserted(ms, j + 1);
    }
}

/// The members of a list stand for the map of the list.
pub proof fn lemma_map_of_members(ms: Seq<(String, JsonValue)>)
    ensures
        map_of(keys_of(ms), values_of(ms)) == members_map(ms),
{
    reveal_with_fuel(members_map, 2);
    assert(ms.take(0) =~= Seq::<(String, JsonValue)>::empty());
    lemma_inserted(ms, 0);
}

/// The text of a value that is read from it stands for the value inside a
/// container.
pub proof fn lemma_reads_as_value(v: JsonValue)
    requires
        v.wf(),
        forall|b: int| #[trigger] parse_at(stringify(v), b) == Ok::<JsonModel, JsonError>(v@),
    ensures
        reads_as(stringify(v), v@),
{
    lemma_starts(v);
    assert forall|k: CounterState| outside(1, k) implies #[trigger] pass_all(
        1,
        k,
        stringify(v),
    ) == Some(k) by {
        lemma_pass_value(1, k, v);
    }
}

/// A written key stands for the key inside an object.
pub proof fn lemma_reads_as_key(key: Seq<char>)
    requires
        plain_text(key),
    ensures
        reads_as(escaped(key), JsonModel::Text(key)),
        quote_ok(true, escaped(key)),
{
    let e = escaped(key);
    assert(e[0] == '"');
    assert(!whitespace(e[0]));
    assert forall|b: int| #[trigger] parse_at(e, b) == Ok::<JsonModel, JsonError>(
        JsonModel::Text(key),
    ) by {
        lemma_reread_text(key, b);
    }
    assert forall|k: CounterState| outside(1, k) implies #[trigger] pass_all(1, k, e) == Some(
        k,
    ) by {
        lemma_pass_escaped(1, k, key);
    }
    assert(Seq::<char>::empty() + e =~= e);
    lemma_quote_found(Seq::empty(), e);
}

/// A value is read from its text, wherever the text stands.
pub proof fn lemma_reread_at(v: JsonValue, base: int)
    requires
        v.wf(),
        v.plain(),
    ensures
        parse_at(stringify(v), base) == Ok::<JsonModel, JsonError>(v@),
    decreases v,
{
    match v {
        JsonValue::Text(s) => {
            lemma_reread_text(s@, base);
        },
        JsonValue::Number(n) => {
            lemma_reread_number(n@, base);
        },
        JsonValue::Boolean(b) => {
            lemma_reread_literals(base);
        },
        JsonValue::Null => {
            lemma_reread_literals(base);
        },
        JsonValue::Array(a) => {
            let vs = a@;
            let es = item_texts(vs);
            let vals = items_seq(vs);
            lemma_items_seq(vs);
            if vs.len() == 0 {
                reveal_with_fuel(joined_items, 2);
                assert(vals =~= Seq::<JsonModel>::empty());
                assert(stringify(v) =~= seq!['['] + Seq::<char>::empty() + seq![']']);
                lemma_reread_empty(ContainerKind::Array, Seq::empty(), base);
            } else {
                assert forall|i: int| 0 <= i < es.len() implies reads_as(
                    #[trigger] es[i],
                    vals[i],
                ) by {
                    assert(vs[i].wf());
                    assert(vs[i].plain());
                    assert forall|b: int| #[trigger] parse_at(stringify(vs[i]), b) == Ok::<
                        JsonModel,
                        JsonError,
                    >(vs[i]@) by {
                        lemma_reread_at(vs[i], b);
                    }
                    lemma_reads_as_value(vs[i]);
                }
                lemma_items_from(vs, 0);
                assert(vs.skip(0) =~= vs);
                lemma_reread_array(es, vals, base);
            }
        },
        JsonValue::Object(o) => {
            let ms = o.members@;
            assert(o.wf()) by {
                reveal_with_fuel(JsonValue::wf, 2);
            }
            lemma_map_of_members(ms);
            if ms.len() == 0 {
                reveal_with_fuel(joined_members, 2);
                reveal_with_fuel(members_map, 2);
                assert(stringify(v) =~= seq!['{'] + Seq::<char>::empty() + seq!['}']);
                lemma_reread_empty(ContainerKind::Object, Seq::empty(), base);
            } else {
                let kts = key_texts(ms);
                let keys = keys_of(ms);
                let vts = value_texts(ms);
                let vals = values_of(ms);
                assert forall|j: int| 0 <= j < kts.len() implies reads_as(
                    #[trigger] kts[j],
                    JsonModel::Text(keys[j]),
                ) && quote_ok(true, kts[j]) by {
                    assert(plain_text(ms[j].0@));
                    lemma_reads_as_key(ms[j].0@);
                }
                assert forall|j: int| 0 <= j < vts.len() implies reads_as(
                    #[trigger] vts[j],
                    vals[j],
                ) by {
                    assert(ms[j].1.wf());
                    assert(ms[j].1.plain());
                    assert forall|b: int| #[trigger] parse_at(stringify(ms[j].1), b) == Ok::<
                        JsonModel,
                        JsonError,
                    >(ms[j].1@) by {
                        lemma_reread_at(ms[j].1, b);
                    }
                    lemma_reads_as_value(ms[j].1);
                }
                lemma_members_from(ms, 0);
                assert(ms.skip(0) =~= ms);
                lemma_reread_object(kts, keys, vts, vals, base);
            }
        },
    }
}

/// Reading what was written gives the value back: the text of a valid value
/// whose strings hold no delete character and no C1 control character is read
/// as that value. The order in which an object holds its members shows in
/// the text and not in what is read.
pub proof fn parse_of_stringify(v: JsonValue)
    requires
        v.wf(),
        v.plain(),
    ensures
        parse_spec(stringify(v)) == Ok::<JsonModel, JsonError>(v@),
{
    lemma_reread_at(v, 0);
}

/// Writing what was read and reading it again changes nothing: where a text
/// is read as the value `v`, the text of `v` is read as the same value, though
/// the two texts may differ in whitespace, in how a character is escaped and in
/// the order of the members.
pub proof fn stringify_of_parse_is_stable(text: Seq<char>, v: JsonValue)
    requires
        parse_spec(text) == Ok::<JsonModel, JsonError>(v@),
        v.wf(),
        v.plain(),
    ensures
        parse_spec(stringify(v)) == parse_spec(text),
{
    lemma_reread_at(v, 0);
}

/// Reading the text of a numeral of the grammar gives the numeral back.
pub proof fn number_of_text(n: crate::number::Numeral)
    requires
        n.wf(),
    ensures
        crate::stack::pending::numeral_of_text(n.text()) == Some(n),
{
    lemma_number_after_text(n);
}

} // verus!
