//! How the reader goes through a container: item by item, reading each as a
//! text of its own where the delimiter after it arrives.
use vstd::prelude::*;
use crate::chars::{blank, whitespace};
use crate::error::JsonError;
use crate::parser::{
    feed_container, finish, nested_value, own_delimiter, own_end, parse_at, peek, run, step,
    ReaderState,
};
use crate::passage::{all_inert, inert, lemma_pass_inert, outside, pass_all};
use crate::rereading::{
    after_buffering, lemma_buffer, lemma_quote_blank, lemma_quote_free, quote_ok,
};
use crate::stack::array::{array_admits, array_json};
use crate::stack::object::{collect_members, object_admitted, object_json};
use crate::stack::{
    at_item_start, token_items, ContainerKind, ContainerModel, CounterState, PendingModel, Token,
};
use crate::value::JsonModel;

verus! {

/// A text that is split at `q` into `a` and what follows it.
pub proof fn lemma_piece(chars: Seq<char>, q: int, a: Seq<char>, rest: Seq<char>)
    requires
        0 <= q <= chars.len(),
        chars.skip(q) == a + rest,
    ensures
        q + a.len() + rest.len() == chars.len(),
        chars.subrange(q, q + a.len()) == a,
        chars.skip(q + a.len()) == rest,
        a.len() > 0 ==> chars[q] == a[0],
{
    assert(chars.skip(q).len() == a.len() + rest.len());
    let tail = chars.skip(q);
    assert forall|i: int| 0 <= i < a.len() implies chars[q + i] == a[i] by {
        assert(tail[i] == chars[q + i]);
        assert(tail[i] == (a + rest)[i]);
        assert((a + rest)[i] == a[i]);
    }
    assert forall|i: int| 0 <= i < rest.len() implies chars[q + a.len() + i] == rest[i] by {
        assert(tail[a.len() + i] == chars[q + a.len() + i]);
        assert(tail[a.len() + i] == (a + rest)[a.len() + i]);
        assert((a + rest)[a.len() + i] == rest[i]);
    }
    assert(chars.subrange(q, q + a.len()) =~= a);
    assert(chars.skip(q + a.len()) =~= rest);
}

/// The bracket that opens a container of a kind.
pub open spec fn opening(kind: ContainerKind) -> char {
    match kind {
        ContainerKind::Array => '[',
        ContainerKind::Object => '{',
    }
}

/// The tracker right after the opening bracket of a container.
pub open spec fn tracker_in(kind: ContainerKind) -> CounterState {
    CounterState { stack: seq![opening(kind)], in_string: false, escape: false }
}

/// The reader right after the opening bracket of a container, or after one of
/// its delimiters: it holds `tokens` and has nothing buffered.
pub open spec fn in_container(kind: ContainerKind, tokens: Seq<Token>) -> ReaderState {
    ReaderState {
        processing: Some(PendingModel::ObjArr(ContainerModel { kind, tokens })),
        counter: tracker_in(kind),
        error_ind: None,
        content: Seq::empty(),
        next_must_be_quote: false,
    }
}

/// Whether `e` stands for `val` inside a container: it is read as `val`
/// wherever it stands, holds more than whitespace, and passes the tracker of
/// the container.
pub open spec fn reads_as(e: Seq<char>, val: JsonModel) -> bool {
    &&& !blank(e)
    &&& forall|b: int| #[trigger] parse_at(e, b) == Ok::<JsonModel, JsonError>(val)
    &&& forall|k: CounterState| outside(1, k) ==> #[trigger] pass_all(1, k, e) == Some(k)
}

/// Whether each of the texts stands for the value at its place.
pub open spec fn all_read_as(es: Seq<Seq<char>>, vals: Seq<JsonModel>) -> bool {
    &&& es.len() == vals.len()
    &&& forall|i: int| 0 <= i < es.len() ==> reads_as(#[trigger] es[i], vals[i])
}

/// The texts from the `k`-th on, with a comma between each two.
pub open spec fn joined_from(es: Seq<Seq<char>>, k: int) -> Seq<char>
    decreases es.len() - k,
{
    if k < 0 || k >= es.len() {
        Seq::empty()
    } else if k == es.len() - 1 {
        es[k]
    } else {
        es[k] + seq![','] + joined_from(es, k + 1)
    }
}

/// Inside a container the reader buffers the text of an item up to the
/// character that ends it.
pub proof fn lemma_item(
    chars: Seq<char>,
    base: int,
    q: int,
    kind: ContainerKind,
    tokens: Seq<Token>,
    e: Seq<char>,
    val: JsonModel,
    rest: Seq<char>,
)
    requires
        1 <= q <= chars.len(),
        chars.skip(q) == e + rest,
        rest.len() > 0,
        reads_as(e, val),
        quote_ok(ContainerModel { kind, tokens }.expects_key(), e),
    ensures
        q + e.len() + rest.len() == chars.len(),
        chars.skip(q + e.len()) == rest,
        chars[q + e.len()] == rest[0],
        run(chars, q, base, in_container(kind, tokens)) == run(
            chars,
            q + e.len(),
            base,
            ReaderState {
                content: e,
                error_ind: Some(base + q),
                ..in_container(kind, tokens)
            },
        ),
        nested_value(e, base + q, rest[0], base + q + e.len()) == Ok::<JsonModel, JsonError>(val),
{
    reveal_with_fuel(nested_value, 2);
    let st = in_container(kind, tokens);
    let model = ContainerModel { kind, tokens };
    lemma_piece(chars, q, e, rest);
    assert(rest =~= seq![rest[0]] + rest.skip(1));
    lemma_piece(chars, q + e.len(), seq![rest[0]], rest.skip(1));
    assert(outside(1, st.counter));
    assert(pass_all(1, st.counter, e) == Some(st.counter));
    assert(e.len() > 0);
    lemma_buffer(chars, q, base, st, model, e);
    let stb = after_buffering(st, model, e, base + q, st.counter);
    assert(stb.content =~= e);
    assert(stb == ReaderState { content: e, error_ind: Some(base + q), ..st });
    assert(parse_at(e, base + q) == Ok::<JsonModel, JsonError>(val));
}

/// Inside an array the reader reads the items from the `k`-th on and then
/// finishes the array.
pub proof fn lemma_array_rest(
    chars: Seq<char>,
    base: int,
    q: int,
    es: Seq<Seq<char>>,
    vals: Seq<JsonModel>,
    k: int,
    tokens: Seq<Token>,
)
    requires
        0 <= k < es.len(),
        1 <= q <= chars.len(),
        chars.skip(q) == joined_from(es, k) + seq![']'],
        at_item_start(tokens),
        token_items(tokens) == vals.take(k),
        all_read_as(es, vals),
    ensures
        run(chars, q, base, in_container(ContainerKind::Array, tokens)) == Ok::<
            JsonModel,
            JsonError,
        >(JsonModel::Array(vals)),
    decreases es.len() - k,
{
    reveal_with_fuel(run, 3);
    reveal_with_fuel(step, 2);
    reveal_with_fuel(feed_container, 2);
    reveal_with_fuel(finish, 2);
    let n = es.len() as int;
    let kind = ContainerKind::Array;
    let model = ContainerModel { kind, tokens };
    let c1 = tracker_in(kind);
    let e = es[k];
    let val = vals[k];
    assert(reads_as(es[k], vals[k]));
    let last = k == n - 1;
    let sep: char = if last {
        ']'
    } else {
        ','
    };
    let after = if last {
        Seq::<char>::empty()
    } else {
        joined_from(es, k + 1) + seq![']']
    };
    assert(chars.skip(q) =~= e + (seq![sep] + after));
    lemma_quote_free(e);
    lemma_item(chars, base, q, kind, tokens, e, val, seq![sep] + after);
    let p = q + e.len();
    lemma_piece(chars, p, seq![sep], after);
    let stb = ReaderState { content: e, error_ind: Some(base + q), ..in_container(kind, tokens) };
    let with_item = tokens.push(Token::Item(val));
    assert(array_admits(tokens, Token::Item(val)));
    assert(token_items(with_item) == vals.take(k + 1)) by {
        assert(with_item.drop_last() =~= tokens);
        assert(vals.take(k + 1) =~= vals.take(k).push(val));
    }
    if last {
        assert(c1.stack.drop_last() =~= Seq::<char>::empty());
        let fed = ReaderState { counter: c1.fed(sep), ..stb };
        assert(!own_delimiter(model, fed.counter, sep));
        assert(own_end(model, fed.counter, sep));
        assert(vals.take(k + 1) =~= vals);
        let whole = JsonModel::Array(vals);
        assert(array_json(with_item) == Some(whole));
        let done = fed.cleared(PendingModel::Finalized(whole));
        assert(step(stb, sep, peek(chars, p), base + p) == Ok::<ReaderState, JsonError>(done));
        assert(p + 1 == chars.len());
        assert(run(chars, p + 1, base, done) == Ok::<JsonModel, JsonError>(whole));
    } else {
        let fed = ReaderState { counter: c1.fed(sep), ..stb };
        assert(fed.counter == c1);
        assert(own_delimiter(model, fed.counter, sep));
        let with_comma = with_item.push(Token::Comma);
        assert(array_admits(with_item, Token::Comma));
        assert(token_items(with_comma) == vals.take(k + 1)) by {
            assert(with_comma.drop_last() =~= with_item);
        }
        let next = in_container(kind, with_comma);
        assert(fed.cleared(
            PendingModel::ObjArr(ContainerModel { kind, tokens: with_comma }),
        ) == next);
        assert(step(stb, sep, peek(chars, p), base + p) == Ok::<ReaderState, JsonError>(next));
        lemma_array_rest(chars, base, p + 1, es, vals, k + 1, with_comma);
    }
}

/// The reader takes the opening bracket of a container.
pub proof fn lemma_open(text: Seq<char>, base: int, kind: ContainerKind)
    requires
        text.len() > 0,
        text[0] == opening(kind),
    ensures
        parse_at(text, base) == run(text, 1, base, in_container(kind, Seq::empty())),
{
    reveal_with_fuel(run, 2);
    reveal_with_fuel(step, 2);
    reveal_with_fuel(parse_at, 2);
    let st0 = ReaderState::initial();
    assert(st0.counter.stack.push(opening(kind)) =~= seq![opening(kind)]);
    assert(step(st0, text[0], peek(text, 0), base) == Ok::<ReaderState, JsonError>(
        in_container(kind, Seq::empty()),
    ));
}

/// Whitespace means nothing to the tracker.
pub proof fn lemma_blank_is_inert(pad: Seq<char>)
    requires
        blank(pad),
    ensures
        all_inert(pad),
{
    assert forall|i: int| 0 <= i < pad.len() implies inert(#[trigger] pad[i]) by {
        assert(whitespace(pad[i]));
    }
}

/// The value of a container without items.
pub open spec fn empty_of(kind: ContainerKind) -> JsonModel {
    match kind {
        ContainerKind::Array => JsonModel::Array(Seq::empty()),
        ContainerKind::Object => JsonModel::Object(Map::empty()),
    }
}

/// The bracket that closes a container of a kind.
pub open spec fn closing(kind: ContainerKind) -> char {
    match kind {
        ContainerKind::Array => ']',
        ContainerKind::Object => '}',
    }
}

/// Two brackets with nothing but whitespace between them are read as the
/// empty container.
pub proof fn lemma_reread_empty(kind: ContainerKind, pad: Seq<char>, base: int)
    requires
        blank(pad),
    ensures
        parse_at(seq![opening(kind)] + pad + seq![closing(kind)], base) == Ok::<
            JsonModel,
            JsonError,
        >(empty_of(kind)),
{
    reveal_with_fuel(run, 3);
    reveal_with_fuel(step, 2);
    reveal_with_fuel(feed_container, 2);
    reveal_with_fuel(finish, 2);
    reveal_with_fuel(collect_members, 2);
    let text = seq![opening(kind)] + pad + seq![closing(kind)];
    let st1 = in_container(kind, Seq::empty());
    let model = ContainerModel { kind, tokens: Seq::<Token>::empty() };
    let close = closing(kind);
    let p = 1 + pad.len() as int;
    assert(text[0] == opening(kind));
    assert(text[p] == close);
    lemma_open(text, base, kind);
    let stb = if pad.len() > 0 {
        after_buffering(st1, model, pad, base + 1, st1.counter)
    } else {
        st1
    };
    if pad.len() > 0 {
        assert(text.subrange(1, p) =~= pad);
        lemma_blank_is_inert(pad);
        lemma_pass_inert(1, st1.counter, pad);
        lemma_quote_blank(model.expects_key(), pad);
        lemma_buffer(text, 1, base, st1, model, pad);
        assert(stb.content =~= pad);
    }
    assert(blank(stb.content));
    assert(st1.counter.stack.drop_last() =~= Seq::<char>::empty());
    let fed = ReaderState { counter: st1.counter.fed(close), ..stb };
    assert(!own_delimiter(model, fed.counter, close));
    assert(own_end(model, fed.counter, close));
    let whole = empty_of(kind);
    assert(model.json() == Some(whole)) by {
        assert(token_items(Seq::<Token>::empty()) =~= Seq::<JsonModel>::empty());
    }
    let done = fed.cleared(PendingModel::Finalized(whole));
    assert(step(stb, close, peek(text, p), base + p) == Ok::<ReaderState, JsonError>(done));
    assert(run(text, p + 1, base, done) == Ok::<JsonModel, JsonError>(whole));
}

/// An array of texts that stand for values is read as the array of the values.
pub proof fn lemma_reread_array(es: Seq<Seq<char>>, vals: Seq<JsonModel>, base: int)
    requires
        es.len() > 0,
        all_read_as(es, vals),
    ensures
        parse_at(seq!['['] + joined_from(es, 0) + seq![']'], base) == Ok::<JsonModel, JsonError>(
            JsonModel::Array(vals),
        ),
{
    let text = seq!['['] + joined_from(es, 0) + seq![']'];
    assert(text[0] == '[');
    lemma_open(text, base, ContainerKind::Array);
    assert(text.skip(1) =~= joined_from(es, 0) + seq![']']);
    assert(vals.take(0) =~= Seq::<JsonModel>::empty());
    assert(token_items(Seq::<Token>::empty()) =~= Seq::<JsonModel>::empty());
    lemma_array_rest(text, base, 1, es, vals, 0, Seq::empty());
}

/// The texts of the members from the `j`-th on: key, colon and value, with a
/// comma between each two members.
pub open spec fn members_from(kts: Seq<Seq<char>>, vts: Seq<Seq<char>>, j: int) -> Seq<char>
    decreases kts.len() - j,
{
    if j < 0 || j >= kts.len() {
        Seq::empty()
    } else if j == kts.len() - 1 {
        kts[j] + seq![':'] + vts[j]
    } else {
        kts[j] + seq![':'] + vts[j] + seq![','] + members_from(kts, vts, j + 1)
    }
}

/// The tokens that the members from the `j`-th on are read as.
pub open spec fn tokens_from(keys: Seq<Seq<char>>, vals: Seq<JsonModel>, j: int) -> Seq<Token>
    decreases keys.len() - j,
{
    if j < 0 || j >= keys.len() {
        Seq::empty()
    } else if j == keys.len() - 1 {
        seq![Token::Key(keys[j]), Token::Colon, Token::Item(vals[j])]
    } else {
        seq![Token::Key(keys[j]), Token::Colon, Token::Item(vals[j]), Token::Comma] + tokens_from(
            keys,
            vals,
            j + 1,
        )
    }
}

/// The map `acc` after the members from the `j`-th on were inserted in order.
pub open spec fn inserted_from(
    acc: Map<Seq<char>, JsonModel>,
    keys: Seq<Seq<char>>,
    vals: Seq<JsonModel>,
    j: int,
) -> Map<Seq<char>, JsonModel>
    decreases keys.len() - j,
{
    if j < 0 || j >= keys.len() {
        acc
    } else {
        inserted_from(acc.insert(keys[j], vals[j]), keys, vals, j + 1)
    }
}

/// The map that keys and values stand for, a later member replacing an
/// earlier one of the same key.
pub open spec fn map_of(keys: Seq<Seq<char>>, vals: Seq<JsonModel>) -> Map<Seq<char>, JsonModel> {
    inserted_from(Map::empty(), keys, vals, 0)
}

/// The tokens of a list of members are collected into the members.
pub proof fn lemma_collect(
    keys: Seq<Seq<char>>,
    vals: Seq<JsonModel>,
    j: int,
    acc: Map<Seq<char>, JsonModel>,
)
    requires
        0 <= j <= keys.len(),
    ensures
        collect_members(tokens_from(keys, vals, j), acc) == Some(
            inserted_from(acc, keys, vals, j),
        ),
    decreases keys.len() - j,
{
    reveal_with_fuel(collect_members, 2);
    let toks = tokens_from(keys, vals, j);
    let next = acc.insert(keys[j], vals[j]);
    if j == keys.len() {
    } else if j == keys.len() - 1 {
        assert(toks.take(3) =~= toks);
        assert(toks.skip(3).len() == 0);
        assert(inserted_from(next, keys, vals, j + 1) == next);
    } else {
        let group = seq![Token::Key(keys[j]), Token::Colon, Token::Item(vals[j]), Token::Comma];
        assert(toks.take(4) =~= group);
        assert(toks.skip(4) =~= tokens_from(keys, vals, j + 1));
        lemma_collect(keys, vals, j + 1, next);
    }
}

/// Whether each key text stands for its key, with the quote that a key has to
/// begin with, and each value text for its value.
pub open spec fn members_read_as(
    kts: Seq<Seq<char>>,
    keys: Seq<Seq<char>>,
    vts: Seq<Seq<char>>,
    vals: Seq<JsonModel>,
) -> bool {
    &&& kts.len() == keys.len()
    &&& kts.len() == vts.len()
    &&& kts.len() == vals.len()
    &&& forall|j: int|
        0 <= j < kts.len() ==> reads_as(#[trigger] kts[j], JsonModel::Text(keys[j])) && quote_ok(
            true,
            kts[j],
        )
    &&& forall|j: int| 0 <= j < vts.len() ==> reads_as(#[trigger] vts[j], vals[j])
}

/// Inside an object the reader reads a key and the colon after it.
pub proof fn lemma_object_key(
    chars: Seq<char>,
    base: int,
    q: int,
    kt: Seq<char>,
    key: Seq<char>,
    tokens: Seq<Token>,
    rest: Seq<char>,
)
    requires
        1 <= q <= chars.len(),
        chars.skip(q) == kt + (seq![':'] + rest),
        at_item_start(tokens),
        reads_as(kt, JsonModel::Text(key)),
        quote_ok(true, kt),
    ensures
        q + kt.len() + 1 + rest.len() == chars.len(),
        chars.skip(q + kt.len() + 1) == rest,
        run(chars, q, base, in_container(ContainerKind::Object, tokens)) == run(
            chars,
            q + kt.len() + 1,
            base,
            in_container(
                ContainerKind::Object,
                tokens.push(Token::Key(key)).push(Token::Colon),
            ),
        ),
{
    reveal_with_fuel(run, 2);
    reveal_with_fuel(step, 2);
    reveal_with_fuel(feed_container, 2);
    let kind = ContainerKind::Object;
    let model = ContainerModel { kind, tokens };
    let c1 = tracker_in(kind);
    lemma_item(chars, base, q, kind, tokens, kt, JsonModel::Text(key), seq![':'] + rest);
    let p = q + kt.len();
    lemma_piece(chars, p, seq![':'], rest);
    let stk = ReaderState { content: kt, error_ind: Some(base + q), ..in_container(kind, tokens) };
    let with_key = tokens.push(Token::Key(key));
    let with_colon = with_key.push(Token::Colon);
    assert(object_admitted(tokens, Token::Item(JsonModel::Text(key))) == Some(Token::Key(key)));
    assert(object_admitted(with_key, Token::Colon) == Some(Token::Colon));
    let fed = ReaderState { counter: c1.fed(':'), ..stk };
    assert(fed.counter == c1);
    assert(own_delimiter(model, fed.counter, ':'));
    let next = in_container(kind, with_colon);
    assert(fed.cleared(PendingModel::ObjArr(ContainerModel { kind, tokens: with_colon })) == next);
    assert(step(stk, ':', peek(chars, p), base + p) == Ok::<ReaderState, JsonError>(next));
}

/// Inside an object the reader reads a value after a colon and the comma
/// after the value.
pub proof fn lemma_object_value(
    chars: Seq<char>,
    base: int,
    q: int,
    vt: Seq<char>,
    val: JsonModel,
    tokens: Seq<Token>,
    rest: Seq<char>,
)
    requires
        1 <= q <= chars.len(),
        chars.skip(q) == vt + (seq![','] + rest),
        tokens.len() > 0,
        tokens.last() is Colon,
        reads_as(vt, val),
    ensures
        q + vt.len() + 1 + rest.len() == chars.len(),
        chars.skip(q + vt.len() + 1) == rest,
        run(chars, q, base, in_container(ContainerKind::Object, tokens)) == run(
            chars,
            q + vt.len() + 1,
            base,
            in_container(
                ContainerKind::Object,
                tokens.push(Token::Item(val)).push(Token::Comma),
            ),
        ),
{
    reveal_with_fuel(run, 2);
    reveal_with_fuel(step, 2);
    reveal_with_fuel(feed_container, 2);
    let kind = ContainerKind::Object;
    let model = ContainerModel { kind, tokens };
    let c1 = tracker_in(kind);
    assert(!model.expects_key());
    lemma_quote_free(vt);
    lemma_item(chars, base, q, kind, tokens, vt, val, seq![','] + rest);
    let p = q + vt.len();
    lemma_piece(chars, p, seq![','], rest);
    let stv = ReaderState { content: vt, error_ind: Some(base + q), ..in_container(kind, tokens) };
    let with_item = tokens.push(Token::Item(val));
    let with_comma = with_item.push(Token::Comma);
    assert(object_admitted(tokens, Token::Item(val)) == Some(Token::Item(val)));
    assert(object_admitted(with_item, Token::Comma) == Some(Token::Comma));
    let fed = ReaderState { counter: c1.fed(','), ..stv };
    assert(fed.counter == c1);
    assert(own_delimiter(model, fed.counter, ','));
    let next = in_container(kind, with_comma);
    assert(fed.cleared(PendingModel::ObjArr(ContainerModel { kind, tokens: with_comma })) == next);
    assert(step(stv, ',', peek(chars, p), base + p) == Ok::<ReaderState, JsonError>(next));
}

/// Inside an object the reader reads the last value and finishes the object
/// at the closing bracket.
pub proof fn lemma_object_end(
    chars: Seq<char>,
    base: int,
    q: int,
    vt: Seq<char>,
    val: JsonModel,
    tokens: Seq<Token>,
    whole: JsonModel,
)
    requires
        1 <= q <= chars.len(),
        chars.skip(q) == vt + seq!['}'],
        tokens.len() > 0,
        tokens.last() is Colon,
        reads_as(vt, val),
        object_json(tokens.push(Token::Item(val))) == Some(whole),
    ensures
        run(chars, q, base, in_container(ContainerKind::Object, tokens)) == Ok::<
            JsonModel,
            JsonError,
        >(whole),
{
    reveal_with_fuel(run, 3);
    reveal_with_fuel(step, 2);
    reveal_with_fuel(feed_container, 2);
    reveal_with_fuel(finish, 2);
    let kind = ContainerKind::Object;
    let model = ContainerModel { kind, tokens };
    let c1 = tracker_in(kind);
    assert(!model.expects_key());
    lemma_quote_free(vt);
    lemma_item(chars, base, q, kind, tokens, vt, val, seq!['}']);
    let p = q + vt.len();
    let stv = ReaderState { content: vt, error_ind: Some(base + q), ..in_container(kind, tokens) };
    assert(object_admitted(tokens, Token::Item(val)) == Some(Token::Item(val)));
    assert(c1.stack.drop_last() =~= Seq::<char>::empty());
    let fed = ReaderState { counter: c1.fed('}'), ..stv };
    assert(!own_delimiter(model, fed.counter, '}'));
    assert(own_end(model, fed.counter, '}'));
    let done = fed.cleared(PendingModel::Finalized(whole));
    assert(step(stv, '}', peek(chars, p), base + p) == Ok::<ReaderState, JsonError>(done));
    assert(p + 1 == chars.len());
    assert(run(chars, p + 1, base, done) == Ok::<JsonModel, JsonError>(whole));
}

/// Inside an object the reader reads the members from the `j`-th on and then
/// finishes the object.
pub proof fn lemma_object_rest(
    chars: Seq<char>,
    base: int,
    q: int,
    kts: Seq<Seq<char>>,
    keys: Seq<Seq<char>>,
    vts: Seq<Seq<char>>,
    vals: Seq<JsonModel>,
    j: int,
    tokens: Seq<Token>,
)
    requires
        0 <= j < kts.len(),
        1 <= q <= chars.len(),
        chars.skip(q) == members_from(kts, vts, j) + seq!['}'],
        at_item_start(tokens),
        tokens + tokens_from(keys, vals, j) == tokens_from(keys, vals, 0),
        members_read_as(kts, keys, vts, vals),
    ensures
        run(chars, q, base, in_container(ContainerKind::Object, tokens)) == Ok::<
            JsonModel,
            JsonError,
        >(JsonModel::Object(map_of(keys, vals))),
    decreases kts.len() - j,
{
    let n = kts.len() as int;
    let kt = kts[j];
    let vt = vts[j];
    let key = keys[j];
    let val = vals[j];
    assert(reads_as(kts[j], JsonModel::Text(keys[j])) && quote_ok(true, kts[j]));
    assert(reads_as(vts[j], vals[j]));
    let with_colon = tokens.push(Token::Key(key)).push(Token::Colon);
    let with_item = with_colon.push(Token::Item(val));
    let whole = JsonModel::Object(map_of(keys, vals));
    if j == n - 1 {
        assert(chars.skip(q) =~= kt + (seq![':'] + (vt + seq!['}'])));
        lemma_object_key(chars, base, q, kt, key, tokens, vt + seq!['}']);
        assert(with_item =~= tokens + tokens_from(keys, vals, j));
        lemma_collect(keys, vals, 0, Map::empty());
        assert(object_json(with_item) == Some(whole));
        lemma_object_end(chars, base, q + kt.len() + 1, vt, val, with_colon, whole);
    } else {
        let after = members_from(kts, vts, j + 1) + seq!['}'];
        assert(chars.skip(q) =~= kt + (seq![':'] + (vt + (seq![','] + after))));
        lemma_object_key(chars, base, q, kt, key, tokens, vt + (seq![','] + after));
        let value_at = q + kt.len() + 1;
        lemma_object_value(chars, base, value_at, vt, val, with_colon, after);
        let with_comma = with_item.push(Token::Comma);
        assert(with_comma + tokens_from(keys, vals, j + 1) =~= tokens + tokens_from(keys, vals, j));
        lemma_object_rest(
            chars,
            base,
            value_at + vt.len() + 1,
            kts,
            keys,
            vts,
            vals,
            j + 1,
            with_comma,
        );
    }
}

/// An object of texts that stand for keys and values is read as the object
/// of the keys and values.
pub proof fn lemma_reread_object(
    kts: Seq<Seq<char>>,
    keys: Seq<Seq<char>>,
    vts: Seq<Seq<char>>,
    vals: Seq<JsonModel>,
    base: int,
)
    requires
        kts.len() > 0,
        members_read_as(kts, keys, vts, vals),
    ensures
        parse_at(seq!['{'] + members_from(kts, vts, 0) + seq!['}'], base) == Ok::<
            JsonModel,
            JsonError,
        >(JsonModel::Object(map_of(keys, vals))),
{
    let text = seq!['{'] + members_from(kts, vts, 0) + seq!['}'];
    assert(text[0] == '{');
    lemma_open(text, base, ContainerKind::Object);
    assert(text.skip(1) =~= members_from(kts, vts, 0) + seq!['}']);
    assert(Seq::<Token>::empty() + tokens_from(keys, vals, 0) =~= tokens_from(keys, vals, 0));
    lemma_object_rest(text, base, 1, kts, keys, vts, vals, 0, Seq::empty());
}

} // verus!
