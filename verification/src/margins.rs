//! Whitespace before and after a text does not change its value.
use vstd::prelude::*;
use crate::chars::{blank, whitespace};
use crate::error::JsonError;
use crate::parser::{
    feed_container, finish, nested_value, parse_at, parse_spec, peek, run, start_value, step,
    ReaderState,
};
use crate::stack::pending::NumberState;
use crate::stack::PendingModel;
use crate::value::JsonModel;

verus! {

/// Whether the reader, before character `i`, has buffered fewer characters
/// than it has read, and only inside a container.
pub open spec fn tight(st: ReaderState, i: int) -> bool {
    &&& st.processing is Some ==> i >= 1
    &&& match st.error_ind {
        Some(_) => st.processing matches Some(PendingModel::ObjArr(_)) && st.content.len() < i,
        None => st.content.len() == 0,
    }
}

/// A step keeps the buffer shorter than what was read.
pub proof fn lemma_step_tight(st: ReaderState, c: char, next: Option<char>, pos: int, i: int)
    requires
        0 <= i,
        tight(st, i),
    ensures
        step(st, c, next, pos) matches Ok(after) ==> tight(after, i + 1),
{
    reveal_with_fuel(step, 2);
    reveal_with_fuel(feed_container, 2);
}

/// Whitespace means nothing to the tracker, begins no value, and continues
/// no number.
pub proof fn lemma_whitespace_is_idle(c: char, n: NumberState)
    requires
        whitespace(c),
    ensures
        !crate::stack::opens(c),
        !crate::stack::closes(c),
        c != '"' && c != '\\',
        !n.can_push(c),
        forall|next: Option<char>, pos: int| #[trigger]
            start_value(c, next, pos) == Ok::<Option<PendingModel>, JsonError>(None),
{
}

/// Reading from character `n + i` on is reading what follows character `n`
/// as a text of its own that stands `n` characters further on.
pub proof fn lemma_run_suffix(chars: Seq<char>, n: int, i: int, base: int, st: ReaderState)
    requires
        0 <= n,
        0 <= i,
        n + i <= chars.len(),
        tight(st, i),
    ensures
        run(chars, n + i, base, st) == run(chars.skip(n), i, base + n, st),
    decreases chars.len() - n - i,
{
    reveal_with_fuel(run, 2);
    reveal_with_fuel(finish, 2);
    let rest = chars.skip(n);
    if rest.len() > 0 && i < rest.len() {
        assert(rest[i] == chars[n + i]);
        assert(peek(rest, i) == peek(chars, n + i)) by {
            if i + 1 < rest.len() {
                assert(rest[i + 1] == chars[n + i + 1]);
            }
        }
        lemma_step_tight(st, rest[i], peek(rest, i), base + n + i, i);
        match step(st, rest[i], peek(rest, i), base + n + i) {
            Ok(after) => {
                lemma_run_suffix(chars, n, i + 1, base, after);
            },
            Err(_) => {},
        }
    }
}

/// Whitespace at the start of a text is passed over.
pub proof fn lemma_leading_run(chars: Seq<char>, j: int, base: int)
    requires
        0 <= j <= chars.len(),
        chars.len() > 0,
        blank(chars.take(j)),
    ensures
        run(chars, 0, base, ReaderState::initial()) == run(
            chars,
            j,
            base,
            ReaderState::initial(),
        ),
    decreases j,
{
    if j > 0 {
        reveal_with_fuel(run, 2);
        reveal_with_fuel(step, 2);
        assert forall|t: int| 0 <= t < chars.take(j - 1).len() implies whitespace(
            #[trigger] chars.take(j - 1)[t],
        ) by {
            assert(chars.take(j)[t] == chars[t]);
            assert(whitespace(chars.take(j)[t]));
        }
        lemma_leading_run(chars, j - 1, base);
        let c = chars[j - 1];
        assert(chars.take(j)[j - 1] == c);
        assert(whitespace(chars.take(j)[j - 1]));
        lemma_whitespace_is_idle(c, NumberState::initial());
        assert(start_value(c, peek(chars, j - 1), base + j - 1) == Ok::<
            Option<PendingModel>,
            JsonError,
        >(None));
        assert(step(ReaderState::initial(), c, peek(chars, j - 1), base + j - 1) == Ok::<
            ReaderState,
            JsonError,
        >(ReaderState::initial()));
    }
}

/// Whitespace before a text only moves the text: what follows the whitespace
/// is read as if it stood alone at the offset at which it begins.
pub proof fn lemma_leading_whitespace(ws: Seq<char>, text: Seq<char>, base: int)
    requires
        blank(ws),
    ensures
        parse_at(ws + text, base) == parse_at(text, base + ws.len()),
{
    reveal_with_fuel(parse_at, 2);
    reveal_with_fuel(run, 2);
    reveal_with_fuel(finish, 2);
    let chars = ws + text;
    let n = ws.len() as int;
    assert(chars.skip(n) =~= text);
    assert(chars.take(n) =~= ws);
    if chars.len() > 0 {
        lemma_leading_run(chars, n, base);
        lemma_run_suffix(chars, n, 0, base, ReaderState::initial());
    }
}

/// Whether two states differ at most in the offset at which the buffer began.
pub open spec fn alike(a: ReaderState, b: ReaderState) -> bool {
    &&& a.processing == b.processing
    &&& a.counter == b.counter
    &&& a.content == b.content
    &&& a.next_must_be_quote == b.next_must_be_quote
    &&& a.error_ind is Some <==> b.error_ind is Some
}

/// The value of a text does not depend on where the text stands.
pub proof fn lemma_value_any_base(chars: Seq<char>, base1: int, base2: int)
    requires
        parse_at(chars, base1) is Ok,
    ensures
        parse_at(chars, base2) == parse_at(chars, base1),
    decreases chars.len(), 2int, 0int,
{
    reveal_with_fuel(parse_at, 2);
    lemma_run_any_base(chars, 0, base1, base2, ReaderState::initial(), ReaderState::initial());
}

/// A step that succeeds succeeds wherever the text stands.
pub proof fn lemma_step_any_base(
    limit: nat,
    a: ReaderState,
    b: ReaderState,
    c: char,
    next: Option<char>,
    pos1: int,
    pos2: int,
)
    requires
        alike(a, b),
        a.content.len() < limit,
        step(a, c, next, pos1) is Ok,
    ensures
        step(b, c, next, pos2) is Ok,
        alike(step(a, c, next, pos1)->Ok_0, step(b, c, next, pos2)->Ok_0),
    decreases limit, 0int, 0int,
{
    reveal_with_fuel(step, 2);
    reveal_with_fuel(feed_container, 2);
    reveal_with_fuel(nested_value, 2);
    if a.error_ind is Some {
        let r1 = parse_at(a.content, a.error_ind->0);
        if r1 is Ok {
            lemma_value_any_base(a.content, a.error_ind->0, b.error_ind->0);
        }
    }
}

/// A reading that succeeds succeeds wherever the text stands, with the same
/// value.
pub proof fn lemma_run_any_base(
    chars: Seq<char>,
    i: int,
    base1: int,
    base2: int,
    a: ReaderState,
    b: ReaderState,
)
    requires
        0 <= i <= chars.len(),
        alike(a, b),
        run(chars, i, base1, a) is Ok,
    ensures
        run(chars, i, base2, b) == run(chars, i, base1, a),
    decreases chars.len(), 1int, chars.len() - i,
{
    reveal_with_fuel(run, 2);
    reveal_with_fuel(finish, 2);
    if a.content.len() >= chars.len() {
    } else if i >= chars.len() {
    } else {
        lemma_step_any_base(
            chars.len(),
            a,
            b,
            chars[i],
            peek(chars, i),
            base1 + i,
            base2 + i,
        );
        lemma_run_any_base(
            chars,
            i + 1,
            base1,
            base2,
            step(a, chars[i], peek(chars, i), base1 + i)->Ok_0,
            step(b, chars[i], peek(chars, i), base2 + i)->Ok_0,
        );
    }
}

/// After a value was read to its end, whitespace changes nothing.
pub proof fn lemma_trailing_run(chars: Seq<char>, j: int, base: int, st: ReaderState, v: JsonModel)
    requires
        0 <= j <= chars.len(),
        chars.len() > 0,
        st.processing == Some(PendingModel::Finalized(v)),
        st.content.len() == 0,
        blank(chars.skip(j)),
    ensures
        run(chars, j, base, st) == Ok::<JsonModel, JsonError>(v),
    decreases chars.len() - j,
{
    reveal_with_fuel(run, 2);
    reveal_with_fuel(step, 2);
    reveal_with_fuel(finish, 2);
    if j < chars.len() {
        let c = chars[j];
        assert(chars.skip(j)[0] == c);
        assert(whitespace(chars.skip(j)[0]));
        lemma_whitespace_is_idle(c, NumberState::initial());
        let after = ReaderState { counter: st.counter.fed(c), ..st };
        assert(step(st, c, peek(chars, j), base + j) == Ok::<ReaderState, JsonError>(after));
        assert forall|t: int| 0 <= t < chars.skip(j + 1).len() implies whitespace(
            #[trigger] chars.skip(j + 1)[t],
        ) by {
            assert(chars.skip(j + 1)[t] == chars.skip(j)[t + 1]);
        }
        lemma_trailing_run(chars, j + 1, base, after, v);
    }
}

/// A step of a text that is read to a value is the same step where whitespace
/// follows the text.
pub proof fn lemma_step_before_whitespace(
    st: ReaderState,
    c: char,
    pos: int,
    w: char,
    text_next: Option<char>,
)
    requires
        whitespace(w),
        text_next is None,
        step(st, c, text_next, pos) is Ok,
    ensures
        step(st, c, Some(w), pos) == step(st, c, text_next, pos),
{
    reveal_with_fuel(step, 2);
    if st.counter.accepts(c) {
        match st.processing {
            None => {
                lemma_whitespace_is_idle(w, NumberState::initial().pushed(c));
            },
            Some(PendingModel::Number(n)) => {
                lemma_whitespace_is_idle(w, n.pushed(c));
            },
            _ => {},
        }
    }
}

/// A text that is read to a value is read to the same value where
/// whitespace follows it.
pub proof fn lemma_run_before_whitespace(
    text: Seq<char>,
    ws: Seq<char>,
    i: int,
    base: int,
    st: ReaderState,
)
    requires
        0 <= i <= text.len(),
        blank(ws),
        tight(st, i),
        run(text, i, base, st) is Ok,
    ensures
        run(text + ws, i, base, st) == run(text, i, base, st),
    decreases text.len() - i,
{
    reveal_with_fuel(run, 2);
    reveal_with_fuel(finish, 2);
    let chars = text + ws;
    if st.content.len() >= text.len() {
    } else if i >= text.len() {
        let v = run(text, i, base, st)->Ok_0;
        assert(chars.skip(i) =~= ws);
        lemma_trailing_run(chars, i, base, st, v);
    } else {
        let c = text[i];
        assert(chars[i] == c);
        if i + 1 < text.len() {
            assert(chars[i + 1] == text[i + 1]);
        } else if ws.len() > 0 {
            assert(chars[i + 1] == ws[0]);
            lemma_step_before_whitespace(st, c, base + i, ws[0], peek(text, i));
        }
        assert(step(st, c, peek(chars, i), base + i) == step(st, c, peek(text, i), base + i));
        lemma_step_tight(st, c, peek(text, i), base + i, i);
        lemma_run_before_whitespace(
            text,
            ws,
            i + 1,
            base,
            step(st, c, peek(text, i), base + i)->Ok_0,
        );
    }
}

/// Whitespace after a text that has a value leaves the value as it is.
pub proof fn lemma_trailing_whitespace(text: Seq<char>, ws: Seq<char>, base: int)
    requires
        blank(ws),
        parse_at(text, base) is Ok,
    ensures
        parse_at(text + ws, base) == parse_at(text, base),
{
    reveal_with_fuel(parse_at, 2);
    lemma_run_before_whitespace(text, ws, 0, base, ReaderState::initial());
}

/// Whitespace around a text is insignificant: a text that has a value has
/// the same value with whitespace before it and after it.
pub proof fn whitespace_around(before: Seq<char>, text: Seq<char>, after: Seq<char>)
    requires
        blank(before),
        blank(after),
        parse_spec(text) is Ok,
    ensures
        parse_spec(before + text + after) == parse_spec(text),
{
    let n = before.len() as int;
    lemma_value_any_base(text, 0, n);
    lemma_trailing_whitespace(text, after, n);
    lemma_leading_whitespace(before, text + after, 0);
    assert(before + text + after =~= before + (text + after));
}

} // verus!
