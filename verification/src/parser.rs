//! The reader: it takes a text one character at a time, hands each character
//! to the automaton of the value that is being read, and reads what stands
//! between the delimiters of a container as a text of its own.
//!
//! Reading the parts of a container again from their first character makes the
//! work grow with the depth of nesting: each character is read once for every
//! container around it.
use vstd::prelude::*;
use crate::chars::{blank, digit, is_blank, is_digit, is_whitespace, whitespace};
use crate::error::{tok_err, token_error, JsonError};
use crate::stack::array::ArrayStack;
use crate::stack::object::ObjectStack;
use crate::stack::pending::{
    BoolStack, MatcherState, NullStack, NumberStack, NumberState, PendingStack, TextStack,
    TextState,
};
use crate::stack::{
    Container, ContainerKind, ContainerModel, CounterState, IntoJson, ObjArrItem, PendingItem,
    PendingModel, Scalar, ScalarModel, StackCounter, Token,
};
use crate::strings::to_chars;
use crate::value::{JsonModel, JsonValue};

verus! {

/// What the reader knows between two characters.
pub struct ReaderState {
    /// What is being read, if anything was begun.
    pub processing: Option<PendingModel>,
    /// The depth and quote tracker, fed every character so far.
    pub counter: CounterState,
    /// The offset of the first character of `content`, if there is one.
    pub error_ind: Option<int>,
    /// Inside a container: the characters since its last delimiter.
    pub content: Seq<char>,
    /// Whether the next character of `content` that is no whitespace has to be
    /// a quote.
    pub next_must_be_quote: bool,
}

impl ReaderState {
    /// Before the first character.
    pub open spec fn initial() -> ReaderState {
        ReaderState {
            processing: None,
            counter: CounterState::initial(),
            error_ind: None,
            content: Seq::empty(),
            next_must_be_quote: false,
        }
    }

    /// The state with `p` as what is being read.
    pub open spec fn with(self, p: PendingModel) -> ReaderState {
        ReaderState { processing: Some(p), ..self }
    }

    /// The state for a container after one of its own delimiters or its closing
    /// bracket: nothing is buffered.
    pub open spec fn cleared(self, p: PendingModel) -> ReaderState {
        ReaderState { processing: Some(p), content: Seq::empty(), error_ind: None, ..self }
    }
}

/// What becomes of a number that has taken its last character so far. Where
/// the character that follows still belongs to it, it goes on. Otherwise it is
/// finished; where it cannot be, the character that follows is blamed, and the
/// end of the text where none follows.
pub open spec fn settle_number(n: NumberState, next: Option<char>, pos: int) -> Result<
    PendingModel,
    JsonError,
> {
    if next is Some && n.can_push(next->0) {
        Ok(PendingModel::Number(n))
    } else {
        match n.json() {
            Some(v) => Ok(PendingModel::Finalized(v)),
            None => Err(
                match next {
                    Some(c) => token_error(c, pos + 1),
                    None => JsonError::UnexpectedEOF,
                },
            ),
        }
    }
}

/// What the character `c` at offset `pos` begins where nothing is being read:
/// the automaton of the value that starts with `c`, or nothing where `c` is
/// whitespace.
pub open spec fn start_value(c: char, next: Option<char>, pos: int) -> Result<
    Option<PendingModel>,
    JsonError,
> {
    if c == '"' {
        Ok(Some(PendingModel::Simple(ScalarModel::Text(TextState::initial()))))
    } else if c == '[' {
        Ok(
            Some(
                PendingModel::ObjArr(
                    ContainerModel { kind: ContainerKind::Array, tokens: Seq::empty() },
                ),
            ),
        )
    } else if c == '{' {
        Ok(
            Some(
                PendingModel::ObjArr(
                    ContainerModel { kind: ContainerKind::Object, tokens: Seq::empty() },
                ),
            ),
        )
    } else if c == 't' || c == 'f' {
        Ok(Some(PendingModel::Simple(ScalarModel::Bool(MatcherState::boolean(seq![c])))))
    } else if c == 'n' {
        Ok(Some(PendingModel::Simple(ScalarModel::Null(MatcherState::null(seq![c])))))
    } else if c == '-' || digit(c) {
        match settle_number(NumberState::initial().pushed(c), next, pos) {
            Ok(p) => Ok(Some(p)),
            Err(e) => Err(e),
        }
    } else if whitespace(c) {
        Ok(None)
    } else {
        Err(token_error(c, pos))
    }
}

/// What becomes of a scalar automaton that is fed `c` at offset `pos`.
pub open spec fn feed_scalar(s: ScalarModel, c: char, pos: int) -> Result<PendingModel, JsonError> {
    match s.verdict(c) {
        Err(e) => Err(token_error(e, pos)),
        Ok(true) => match s.pushed(c).json() {
            Some(v) => Ok(PendingModel::Finalized(v)),
            None => Err(token_error(c, pos)),
        },
        Ok(false) => Ok(PendingModel::Simple(s.pushed(c))),
    }
}

/// Whether `c`, after the tracker took it, is a delimiter of the container
/// itself: one that the container knows, at the container's own depth and
/// outside any string.
pub open spec fn own_delimiter(k: ContainerModel, counter: CounterState, c: char) -> bool {
    k.delimiter(c) is Some && counter.level() == 1 && !counter.in_string
}

/// Whether `c`, after the tracker took it, is the closing bracket of the
/// container itself.
pub open spec fn own_end(k: ContainerModel, counter: CounterState, c: char) -> bool {
    c == k.end_char() && counter.level() == 0 && !counter.in_string
}

/// The value of a text that stands at offset `base` of what was given, or
/// the reason why it has none. `Err(UnexpectedToken)` names the first
/// character that cannot stand where it stands, by its offset in the text
/// plus `base`; `Err(UnexpectedEOF)` says that the text ends too early.
pub open spec fn parse_at(chars: Seq<char>, base: int) -> Result<JsonModel, JsonError>
    decreases chars.len(), 2int, 0int,
{
    run(chars, 0, base, ReaderState::initial())
}

/// The value of what was buffered inside a container, read as a text of its
/// own when the character `c` at offset `pos` ends it. Where the buffered text
/// ends too early, `c` came too soon and is blamed.
pub open spec fn nested_value(content: Seq<char>, ind: int, c: char, pos: int) -> Result<
    JsonModel,
    JsonError,
>
    decreases content.len(), 3int, 0int,
{
    match parse_at(content, ind) {
        Err(JsonError::UnexpectedEOF) => Err(token_error(c, pos)),
        r => r,
    }
}

/// What becomes of the reader inside the container `k` when it is fed `c` at
/// offset `pos`, the tracker of `st` having taken `c` already.
///
/// At a delimiter of the container itself, what was buffered is read as a value
/// and pushed as an item, and the delimiter after it; nothing buffered, or only
/// whitespace, is an error there. At the closing bracket of the container
/// itself, what was buffered is pushed likewise, unless it is empty or
/// whitespace, and the container is finished. Any other character is buffered;
/// where a key has to come, the first buffered character that is no whitespace
/// has to be a quote.
pub open spec fn feed_container(st: ReaderState, k: ContainerModel, c: char, pos: int) -> Result<
    ReaderState,
    JsonError,
>
    decreases st.content.len(), 4int, 0int,
{
    if own_delimiter(k, st.counter, c) {
        if st.error_ind is None || blank(st.content) {
            Err(token_error(c, pos))
        } else {
            match nested_value(st.content, st.error_ind->0, c, pos) {
                Err(e) => Err(e),
                Ok(v) => match k.pushed(Token::Item(v)) {
                    None => Err(token_error(c, pos)),
                    Some(k1) => match k1.pushed(k.delimiter(c)->0) {
                        None => Err(token_error(c, pos)),
                        Some(k2) => Ok(st.cleared(PendingModel::ObjArr(k2))),
                    },
                },
            }
        }
    } else if own_end(k, st.counter, c) {
        if st.error_ind is Some && !blank(st.content) {
            match nested_value(st.content, st.error_ind->0, c, pos) {
                Err(e) => Err(e),
                Ok(v) => match k.pushed(Token::Item(v)) {
                    None => Err(token_error(c, pos)),
                    Some(k1) => match k1.json() {
                        None => Err(token_error(c, pos)),
                        Some(whole) => Ok(st.cleared(PendingModel::Finalized(whole))),
                    },
                },
            }
        } else {
            match k.json() {
                None => Err(token_error(c, pos)),
                Some(whole) => Ok(st.cleared(PendingModel::Finalized(whole))),
            }
        }
    } else {
        let quote = if st.error_ind is None {
            k.expects_key()
        } else {
            st.next_must_be_quote
        };
        if quote && !whitespace(c) && c != '"' {
            Err(token_error(c, pos))
        } else {
            Ok(
                ReaderState {
                    content: st.content.push(c),
                    error_ind: if st.error_ind is None {
                        Some(pos)
                    } else {
                        st.error_ind
                    },
                    next_must_be_quote: quote && whitespace(c),
                    ..st
                },
            )
        }
    }
}

/// The state after the character `c` at offset `pos`, which `next` follows, or
/// the error that `c` brings. The tracker takes every character first, whatever
/// is being read.
pub open spec fn step(st: ReaderState, c: char, next: Option<char>, pos: int) -> Result<
    ReaderState,
    JsonError,
>
    decreases st.content.len(), 5int, 0int,
{
    if !st.counter.accepts(c) {
        Err(token_error(c, pos))
    } else {
        let st = ReaderState { counter: st.counter.fed(c), ..st };
        match st.processing {
            None => match start_value(c, next, pos) {
                Ok(Some(p)) => Ok(st.with(p)),
                Ok(None) => Ok(st),
                Err(e) => Err(e),
            },
            Some(PendingModel::Simple(s)) => match feed_scalar(s, c, pos) {
                Ok(p) => Ok(st.with(p)),
                Err(e) => Err(e),
            },
            Some(PendingModel::ObjArr(k)) => feed_container(st, k, c, pos),
            Some(PendingModel::Number(n)) => if n.can_push(c) {
                match settle_number(n.pushed(c), next, pos) {
                    Ok(p) => Ok(st.with(p)),
                    Err(e) => Err(e),
                }
            } else {
                Err(token_error(c, pos))
            },
            Some(PendingModel::Finalized(_)) => if whitespace(c) {
                Ok(st)
            } else {
                Err(token_error(c, pos))
            },
        }
    }
}

/// What the end of the text brings: the value, where one was read to its end.
/// Otherwise the text ended too early; where something is still buffered, it is
/// read once more, so that an error inside it is reported in its place.
pub open spec fn finish(st: ReaderState) -> Result<JsonModel, JsonError>
    decreases st.content.len(), 3int, 0int,
{
    match st.processing {
        Some(PendingModel::Finalized(v)) => Ok(v),
        _ => if st.error_ind is Some && st.content.len() > 0 {
            match parse_at(st.content, st.error_ind->0) {
                Err(e) => Err(e),
                Ok(_) => Err(JsonError::UnexpectedEOF),
            }
        } else {
            Err(JsonError::UnexpectedEOF)
        },
    }
}

/// The character after the one at `i`, if there is one.
pub open spec fn peek(chars: Seq<char>, i: int) -> Option<char> {
    if i + 1 < chars.len() {
        Some(chars[i + 1])
    } else {
        None
    }
}

/// The result of reading `chars` from its character `i` on, in state `st`.
/// What a reader has buffered is a proper part of the text that it reads, so
/// that from the start of a text the first test holds for the empty text
/// alone, which ends too early.
pub open spec fn run(chars: Seq<char>, i: int, base: int, st: ReaderState) -> Result<
    JsonModel,
    JsonError,
>
    decreases chars.len(), 1int, chars.len() - i,
{
    if st.content.len() >= chars.len() {
        Err(JsonError::UnexpectedEOF)
    } else if i < 0 || i >= chars.len() {
        finish(st)
    } else {
        match step(st, chars[i], peek(chars, i), base + i) {
            Ok(next) => run(chars, i + 1, base, next),
            Err(e) => Err(e),
        }
    }
}

/// The value of a text, or the reason why it has none.
pub open spec fn parse_spec(text: Seq<char>) -> Result<JsonModel, JsonError> {
    parse_at(text, 0)
}

/// The mathematical content of a result of reading.
pub open spec fn result_model(r: Result<JsonValue, JsonError>) -> Result<JsonModel, JsonError> {
    match r {
        Ok(v) => Ok(v@),
        Err(e) => Err(e),
    }
}

/// The mathematical content of what the reader holds between two characters.
pub open spec fn state_of(
    processing: Option<PendingItem>,
    counter: CounterState,
    error_ind: Option<usize>,
    content: Seq<char>,
    next_must_be_quote: bool,
) -> ReaderState {
    ReaderState {
        processing: match processing {
            Some(p) => Some(p@),
            None => None,
        },
        counter,
        error_ind: match error_ind {
            Some(ind) => Some(ind as int),
            None => None,
        },
        content,
        next_must_be_quote,
    }
}

/// Decides what becomes of a number after its last character so far.
fn settle(stack: NumberStack, next: Option<char>, pos: usize) -> (r: Result<PendingItem, JsonError>)
    requires
        next is Some ==> pos < usize::MAX,
    ensures
        match r {
            Ok(p) => settle_number(stack@, next, pos as int) == Ok::<PendingModel, JsonError>(p@)
                && p.wf(),
            Err(e) => settle_number(stack@, next, pos as int) == Err::<PendingModel, JsonError>(e),
        },
{
    let goes_on = match next {
        Some(c) => stack.can_push(c),
        None => false,
    };
    if goes_on {
        Ok(PendingItem::Number(stack))
    } else {
        match Box::new(stack).into_json() {
            Ok(v) => Ok(PendingItem::FinalizedJsonValue(v)),
            Err(_) => Err(
                match next {
                    Some(c) => tok_err(c, pos + 1),
                    None => JsonError::UnexpectedEOF,
                },
            ),
        }
    }
}

/// Begins the value that starts with `c`.
fn start(c: char, next: Option<char>, pos: usize) -> (r: Result<Option<PendingItem>, JsonError>)
    requires
        next is Some ==> pos < usize::MAX,
    ensures
        match r {
            Ok(Some(p)) => start_value(c, next, pos as int) == Ok::<
                Option<PendingModel>,
                JsonError,
            >(Some(p@)) && p.wf(),
            Ok(None) => start_value(c, next, pos as int) == Ok::<Option<PendingModel>, JsonError>(
                None,
            ),
            Err(e) => start_value(c, next, pos as int) == Err::<Option<PendingModel>, JsonError>(
                e,
            ),
        },
{
    if c == '"' {
        Ok(Some(PendingItem::Simple(Scalar::Text(TextStack::new()))))
    } else if c == '[' {
        Ok(Some(PendingItem::ObjArr(Container::Array(ArrayStack::new()))))
    } else if c == '{' {
        Ok(Some(PendingItem::ObjArr(Container::Object(ObjectStack::new()))))
    } else if c == 't' {
        Ok(Some(PendingItem::Simple(Scalar::Bool(BoolStack::init_true()))))
    } else if c == 'f' {
        Ok(Some(PendingItem::Simple(Scalar::Bool(BoolStack::init_false()))))
    } else if c == 'n' {
        Ok(Some(PendingItem::Simple(Scalar::Null(NullStack::init_n()))))
    } else if c == '-' || is_digit(c) {
        let mut stack = NumberStack::new();
        let _ = stack.push(c);
        match settle(stack, next, pos) {
            Ok(p) => Ok(Some(p)),
            Err(e) => Err(e),
        }
    } else if is_whitespace(c) {
        Ok(None)
    } else {
        Err(tok_err(c, pos))
    }
}

/// Feeds `c` to a scalar automaton.
fn feed_simple(stack: Scalar, c: char, pos: usize) -> (r: Result<PendingItem, JsonError>)
    ensures
        match r {
            Ok(p) => feed_scalar(stack@, c, pos as int) == Ok::<PendingModel, JsonError>(p@)
                && p.wf(),
            Err(e) => feed_scalar(stack@, c, pos as int) == Err::<PendingModel, JsonError>(e),
        },
{
    let mut stack = stack;
    match stack.push(c) {
        Err(e) => Err(tok_err(e, pos)),
        Ok(true) => match stack.into_json() {
            Ok(v) => Ok(PendingItem::FinalizedJsonValue(v)),
            Err(_) => Err(tok_err(c, pos)),
        },
        Ok(false) => Ok(PendingItem::Simple(stack)),
    }
}

/// Whether what is buffered began after offset `base` and ends right before
/// offset `pos`.
pub open spec fn buffered(error_ind: Option<usize>, content: Seq<char>, base: int, pos: int) -> bool {
    match error_ind {
        Some(ind) => base < ind && content.len() > 0 && ind + content.len() == pos,
        None => content.len() == 0,
    }
}

/// Reads what was buffered inside a container as a text of its own.
fn nested(content: &Vec<char>, ind: usize, c: char, pos: usize) -> (r: Result<
    JsonValue,
    JsonError,
>)
    requires
        ind + content.len() <= usize::MAX,
    ensures
        result_model(r) == nested_value(content@, ind as int, c, pos as int),
        r matches Ok(v) ==> v.wf(),
    decreases content.len(), 1int,
{
    match json_parse_internal(content, ind) {
        Err(JsonError::UnexpectedEOF) => Err(tok_err(c, pos)),
        r => r,
    }
}

/// Feeds `c` to the reader inside a container, after the tracker took it.
fn feed_in_container(
    stack: Container,
    counter: &StackCounter,
    error_ind: &mut Option<usize>,
    content: &mut Vec<char>,
    next_must_be_quote: &mut bool,
    c: char,
    base: usize,
    pos: usize,
) -> (r: Result<PendingItem, JsonError>)
    requires
        base < pos,
        buffered(*old(error_ind), old(content)@, base as int, pos as int),
        stack.wf(),
    ensures
        match r {
            Ok(p) => {
                &&& feed_container(
                    state_of(
                        Some(PendingItem::ObjArr(stack)),
                        counter@,
                        *old(error_ind),
                        old(content)@,
                        *old(next_must_be_quote),
                    ),
                    stack@,
                    c,
                    pos as int,
                ) == Ok::<ReaderState, JsonError>(
                    state_of(
                        Some(p),
                        counter@,
                        *final(error_ind),
                        final(content)@,
                        *final(next_must_be_quote),
                    ),
                )
                &&& p.wf()
                &&& buffered(*final(error_ind), final(content)@, base as int, pos + 1)
                &&& *final(error_ind) is Some ==> p is ObjArr
            },
            Err(e) => feed_container(
                state_of(
                    Some(PendingItem::ObjArr(stack)),
                    counter@,
                    *old(error_ind),
                    old(content)@,
                    *old(next_must_be_quote),
                ),
                stack@,
                c,
                pos as int,
            ) == Err::<ReaderState, JsonError>(e),
        },
    decreases pos - base, 0int,
{
    let mut stack = stack;
    let ghost st = state_of(
        Some(PendingItem::ObjArr(stack)),
        counter@,
        *error_ind,
        content@,
        *next_must_be_quote,
    );
    let ghost k = stack@;
    let at_own_level = counter.level() == 1 && !counter.in_string();
    let delimiter = if at_own_level {
        stack.get_delimiter(c)
    } else {
        None
    };
    match delimiter {
        Some(delimiter) => {
            let ind = match error_ind.take() {
                Some(ind) => ind,
                None => {
                    return Err(tok_err(c, pos));
                },
            };
            if is_blank(content) {
                return Err(tok_err(c, pos));
            }
            let json = match nested(content, ind, c, pos) {
                Ok(json) => json,
                Err(e) => {
                    return Err(e);
                },
            };
            match stack.push(ObjArrItem::Item(json)) {
                Ok(_) => {},
                Err(_) => {
                    return Err(tok_err(c, pos));
                },
            }
            match stack.push(delimiter) {
                Ok(_) => {},
                Err(_) => {
                    return Err(tok_err(c, pos));
                },
            }
            content.clear();
            Ok(PendingItem::ObjArr(stack))
        },
        None => {
            if stack.is_end_char(c) && counter.level() == 0 && !counter.in_string() {
                match error_ind.take() {
                    Some(ind) => {
                        if !is_blank(content) {
                            let json = match nested(content, ind, c, pos) {
                                Ok(json) => json,
                                Err(e) => {
                                    return Err(e);
                                },
                            };
                            match stack.push(ObjArrItem::Item(json)) {
                                Ok(_) => {},
                                Err(_) => {
                                    return Err(tok_err(c, pos));
                                },
                            }
                        }
                    },
                    None => {},
                }
                let whole = match stack.into_json() {
                    Ok(whole) => whole,
                    Err(_) => {
                        return Err(tok_err(c, pos));
                    },
                };
                content.clear();
                Ok(PendingItem::FinalizedJsonValue(whole))
            } else {
                if error_ind.is_none() {
                    *error_ind = Some(pos);
                    *next_must_be_quote = stack.next_must_be_key();
                }
                let blank_char = is_whitespace(c);
                if *next_must_be_quote && !blank_char && c != '"' {
                    return Err(tok_err(c, pos));
                }
                content.push(c);
                *next_must_be_quote = *next_must_be_quote && blank_char;
                Ok(PendingItem::ObjArr(stack))
            }
        },
    }
}

/// Reads `chars`, which stand at offset `base` of the text that was given.
fn json_parse_internal(chars: &Vec<char>, base: usize) -> (r: Result<JsonValue, JsonError>)
    requires
        base + chars.len() <= usize::MAX,
    ensures
        result_model(r) == parse_at(chars@, base as int),
        r matches Ok(v) ==> v.wf(),
    decreases chars.len(), 0int,
{
    let mut processing: Option<PendingItem> = None;
    let mut counter = StackCounter::new();
    let mut error_ind: Option<usize> = None;
    let mut content: Vec<char> = Vec::new();
    let mut next_must_be_quote = false;
    let mut i: usize = 0;
    while i < chars.len()
        invariant
            i <= chars.len(),
            base + chars.len() <= usize::MAX,
            processing is Some ==> i >= 1,
            processing matches Some(p) ==> p.wf(),
            error_ind is Some ==> processing matches Some(PendingItem::ObjArr(_)),
            buffered(error_ind, content@, base as int, base + i),
            parse_at(chars@, base as int) == run(
                chars@,
                i as int,
                base as int,
                state_of(processing, counter@, error_ind, content@, next_must_be_quote),
            ),
        decreases chars.len() - i,
    {
        let c = chars[i];
        let pos = base + i;
        let next = if i + 1 < chars.len() {
            Some(chars[i + 1])
        } else {
            None
        };
        let ghost st = state_of(processing, counter@, error_ind, content@, next_must_be_quote);
        proof {
            reveal_with_fuel(run, 2);
            reveal_with_fuel(step, 2);
            assert(next == peek(chars@, i as int));
        }
        match counter.push(c) {
            Ok(_) => {},
            Err(_) => {
                return Err(tok_err(c, pos));
            },
        }
        let taken = processing.take();
        processing =
        match taken {
            None => match start(c, next, pos) {
                Ok(p) => p,
                Err(e) => {
                    return Err(e);
                },
            },
            Some(PendingItem::Simple(stack)) => match feed_simple(stack, c, pos) {
                Ok(p) => Some(p),
                Err(e) => {
                    return Err(e);
                },
            },
            Some(PendingItem::ObjArr(stack)) => match feed_in_container(
                stack,
                &counter,
                &mut error_ind,
                &mut content,
                &mut next_must_be_quote,
                c,
                base,
                pos,
            ) {
                Ok(p) => Some(p),
                Err(e) => {
                    return Err(e);
                },
            },
            Some(PendingItem::Number(stack)) => {
                let mut stack = stack;
                match stack.push(c) {
                    Ok(_) => {},
                    Err(_) => {
                        return Err(tok_err(c, pos));
                    },
                }
                match settle(stack, next, pos) {
                    Ok(p) => Some(p),
                    Err(e) => {
                        return Err(e);
                    },
                }
            },
            Some(PendingItem::FinalizedJsonValue(v)) => {
                if !is_whitespace(c) {
                    return Err(tok_err(c, pos));
                }
                Some(PendingItem::FinalizedJsonValue(v))
            },
        };
        proof {
            assert(step(st, c, next, pos as int) == Ok::<ReaderState, JsonError>(
                state_of(processing, counter@, error_ind, content@, next_must_be_quote),
            ));
        }
        i += 1;
    }
    proof {
        reveal_with_fuel(run, 2);
        reveal_with_fuel(finish, 2);
    }
    match processing {
        Some(PendingItem::FinalizedJsonValue(value)) => Ok(value),
        _ => {
            match error_ind {
                Some(ind) => {
                    if content.len() > 0 {
                        match json_parse_internal(&content, ind) {
                            Ok(_) => {},
                            Err(e) => {
                                return Err(e);
                            },
                        }
                    }
                },
                None => {},
            }
            Err(JsonError::UnexpectedEOF)
        },
    }
}

/// Deserializes a JSON string.
///
/// The result is the value of the text, or the reason why it has none. A value
/// that was read is valid. An error that names a character names the first
/// character that cannot stand where it stands, by its offset in the text,
/// counted in characters from 0.
pub fn json_parse(json_str: &str) -> (r: Result<JsonValue, JsonError>)
    ensures
        result_model(r) == parse_spec(json_str@),
        r matches Ok(v) ==> v.wf(),
        r matches Err(JsonError::UnexpectedToken { character, location }) ==> location
            < json_str@.len() && json_str@[location as int] == character,
{
    let chars = to_chars(json_str);
    proof {
        crate::blame::error_names_a_character(chars@);
    }
    json_parse_internal(&chars, 0)
}

} // verus!
