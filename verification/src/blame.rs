//! Where an error points: at a character of the text that was read, by the
//! offset at which that character stands.
use vstd::prelude::*;
use crate::error::JsonError;
use crate::parser::{
    feed_container, finish, nested_value, parse_at, parse_spec, peek, run, step, ReaderState,
};
use crate::stack::{ContainerModel, PendingModel, ScalarModel};

verus! {

/// Whether an error, if it names a character, names one of `chars`, which
/// stand at offset `base`: the character at the offset that it gives.
pub open spec fn points_into(e: JsonError, chars: Seq<char>, base: int) -> bool {
    match e {
        JsonError::UnexpectedToken { character, location } => {
            &&& base <= location < base + chars.len()
            &&& chars[location - base] == character
        },
        JsonError::UnexpectedEOF => true,
    }
}

/// Whether what the reader has buffered before character `i` is the part of
/// the text that ends there and begins at the offset that the reader holds.
/// Only inside a container is anything buffered.
pub open spec fn buffer_in_text(st: ReaderState, chars: Seq<char>, i: int, base: int) -> bool {
    match st.error_ind {
        Some(ind) => {
            &&& st.processing matches Some(PendingModel::ObjArr(_))
            &&& base <= ind
            &&& ind - base + st.content.len() == i
            &&& st.content == chars.subrange(ind - base, i)
        },
        None => st.content.len() == 0,
    }
}

/// A scalar automaton that refuses a character hands that character back.
pub proof fn lemma_refusal(s: ScalarModel, c: char)
    ensures
        s.verdict(c) matches Err(e) ==> e == c,
{
}

/// An error in what was buffered points into the text around it.
pub proof fn lemma_points_through(
    e: JsonError,
    content: Seq<char>,
    ind: int,
    chars: Seq<char>,
    i: int,
    base: int,
)
    requires
        points_into(e, content, ind),
        0 <= i <= chars.len(),
        base <= ind,
        ind - base + content.len() == i,
        content == chars.subrange(ind - base, i),
    ensures
        points_into(e, chars, base),
{
    match e {
        JsonError::UnexpectedToken { character, location } => {
            assert(content[location - ind] == chars[(ind - base) + (location - ind)]);
        },
        JsonError::UnexpectedEOF => {},
    }
}

/// Every error of reading a text points into the text.
pub proof fn lemma_parse_blames(chars: Seq<char>, base: int)
    requires
        0 <= base,
        base + chars.len() <= usize::MAX,
    ensures
        parse_at(chars, base) matches Err(e) ==> points_into(e, chars, base),
    decreases chars.len(), 2int, 0int,
{
    reveal_with_fuel(parse_at, 2);
    lemma_run_blames(chars, 0, base, ReaderState::initial());
}

/// Every error of reading what was buffered points into the text around it.
pub proof fn lemma_nested_blames(st: ReaderState, chars: Seq<char>, i: int, base: int, c: char)
    requires
        0 <= base,
        base + chars.len() <= usize::MAX,
        0 <= i < chars.len(),
        c == chars[i],
        st.error_ind is Some,
        buffer_in_text(st, chars, i, base),
        st.content.len() < chars.len(),
    ensures
        nested_value(st.content, st.error_ind->0, c, base + i) matches Err(e) ==> points_into(
            e,
            chars,
            base,
        ),
    decreases chars.len(), 0int, 0int,
{
    reveal_with_fuel(nested_value, 2);
    let ind = st.error_ind->0;
    lemma_parse_blames(st.content, ind);
    match parse_at(st.content, ind) {
        Err(JsonError::UnexpectedEOF) => {},
        Err(e) => {
            lemma_points_through(e, st.content, ind, chars, i, base);
        },
        Ok(_) => {},
    }
}

/// Inside a container, every error of a step points into the text, and the
/// buffer stays a part of the text.
pub proof fn lemma_container_blames(
    st: ReaderState,
    k: ContainerModel,
    chars: Seq<char>,
    i: int,
    base: int,
)
    requires
        0 <= base,
        base + chars.len() <= usize::MAX,
        0 <= i < chars.len(),
        st.processing == Some(PendingModel::ObjArr(k)),
        buffer_in_text(st, chars, i, base),
        st.content.len() < chars.len(),
    ensures
        match feed_container(st, k, chars[i], base + i) {
            Ok(next) => buffer_in_text(next, chars, i + 1, base),
            Err(e) => points_into(e, chars, base),
        },
    decreases chars.len(), 0int, 1int,
{
    reveal_with_fuel(feed_container, 2);
    let c = chars[i];
    if st.error_ind is Some {
        lemma_nested_blames(st, chars, i, base, c);
    }
    match feed_container(st, k, c, base + i) {
        Ok(next) => {
            if next.content.len() > 0 {
                assert(next.content =~= st.content.push(c));
                let ind = next.error_ind->0;
                assert(st.content.push(c) =~= chars.subrange(ind - base, i + 1));
            }
        },
        Err(e) => {},
    }
}

/// Every error of a step points into the text, and the buffer stays a part
/// of the text.
pub proof fn lemma_step_blames(st: ReaderState, chars: Seq<char>, i: int, base: int)
    requires
        0 <= base,
        base + chars.len() <= usize::MAX,
        0 <= i < chars.len(),
        buffer_in_text(st, chars, i, base),
        st.content.len() < chars.len(),
    ensures
        match step(st, chars[i], peek(chars, i), base + i) {
            Ok(next) => buffer_in_text(next, chars, i + 1, base),
            Err(e) => points_into(e, chars, base),
        },
    decreases chars.len(), 0int, 2int,
{
    reveal_with_fuel(step, 2);
    let c = chars[i];
    if st.counter.accepts(c) {
        let fed = ReaderState { counter: st.counter.fed(c), ..st };
        match fed.processing {
            Some(PendingModel::ObjArr(k)) => {
                lemma_container_blames(fed, k, chars, i, base);
            },
            Some(PendingModel::Simple(s)) => {
                lemma_refusal(s, c);
            },
            _ => {},
        }
    }
}

/// Every error of reading a text from some character on points into the
/// text.
pub proof fn lemma_run_blames(chars: Seq<char>, i: int, base: int, st: ReaderState)
    requires
        0 <= base,
        base + chars.len() <= usize::MAX,
        0 <= i <= chars.len(),
        buffer_in_text(st, chars, i, base),
    ensures
        run(chars, i, base, st) matches Err(e) ==> points_into(e, chars, base),
    decreases chars.len(), 1int, chars.len() - i,
{
    reveal_with_fuel(run, 2);
    reveal_with_fuel(finish, 2);
    if st.content.len() >= chars.len() {
    } else if i >= chars.len() {
        if st.error_ind is Some && st.content.len() > 0 {
            let ind = st.error_ind->0;
            lemma_parse_blames(st.content, ind);
            match parse_at(st.content, ind) {
                Err(e) => {
                    lemma_points_through(e, st.content, ind, chars, i, base);
                },
                Ok(_) => {},
            }
        }
    } else {
        lemma_step_blames(st, chars, i, base);
        match step(st, chars[i], peek(chars, i), base + i) {
            Ok(next) => {
                lemma_run_blames(chars, i + 1, base, next);
            },
            Err(e) => {},
        }
    }
}

/// An error that names a character names a character of the text: the one at
/// the offset that the error gives, counted from the start of the text.
pub proof fn error_names_a_character(text: Seq<char>)
    requires
        text.len() <= usize::MAX,
    ensures
        parse_spec(text) matches Err(JsonError::UnexpectedToken { character, location })
            ==> location < text.len() && text[location as int] == character,
{
    lemma_parse_blames(text, 0);
}

} // verus!
