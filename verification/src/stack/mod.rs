//! The building blocks of the reader: the depth and quote tracker, the tokens
//! that a container collects, and the interfaces that the automata share.
use vstd::prelude::*;
use crate::stack::array::{array_admits, array_json, ArrayStack};
use crate::stack::object::{object_admitted, object_json, ObjectStack};
use crate::stack::pending::{
    BoolStack, MatcherState, NullStack, NumberStack, NumberState, PendingStack, TextStack,
    TextState,
};
use crate::value::{JsonModel, JsonValue};

pub mod array;
pub mod object;
pub mod pending;

verus! {

/// A stack that checks what is pushed against what it already holds.
pub trait CheckedStack<T, E> {
    /// What the stack holds, bottom first.
    spec fn items(&self) -> Seq<T>;

    /// What is stored when `e` is pushed, or `None` where `e` is refused.
    spec fn admitted(&self, e: T) -> Option<T>;

    fn peek(&self) -> (r: Option<&T>)
        ensures
            match r {
                Some(t) => self.items().len() > 0 && *t == self.items().last(),
                None => self.items().len() == 0,
            },
    ;

    fn peek_mut(&mut self) -> (r: Option<&mut T>)
        ensures
            match r {
                Some(t) => {
                    &&& old(self).items().len() > 0
                    &&& *t == old(self).items().last()
                    &&& final(self).items() == old(self).items().update(
                        old(self).items().len() - 1,
                        *final(t),
                    )
                },
                None => old(self).items().len() == 0 && final(self).items() == old(self).items(),
            },
    ;

    fn pop(&mut self) -> (r: Option<T>)
        ensures
            match r {
                Some(t) => {
                    &&& old(self).items().len() > 0
                    &&& t == old(self).items().last()
                    &&& final(self).items() == old(self).items().drop_last()
                },
                None => old(self).items().len() == 0 && final(self).items() == old(self).items(),
            },
    ;

    fn push(&mut self, e: T) -> (r: Result<(), E>)
        ensures
            match old(self).admitted(e) {
                Some(stored) => r is Ok && final(self).items() == old(self).items().push(stored),
                None => r is Err && final(self).items() == old(self).items(),
            },
    ;

    fn len(&self) -> (n: usize)
        ensures
            n == self.items().len(),
    ;

    fn is_empty(&self) -> (b: bool)
        ensures
            b == (self.items().len() == 0),
    {
        self.len() == 0
    }
}

/// What can be finished into a value.
pub trait IntoJson: Sized {
    /// The value that finishing yields, or `None` where finishing fails.
    spec fn json(&self) -> Option<JsonModel>;

    fn into_json(self: Box<Self>) -> (r: Result<JsonValue, ()>)
        ensures
            match r {
                Ok(v) => self.json() == Some(v@),
                Err(_) => self.json() is None,
            },
    ;
}

/// A container in the making: a checked stack of tokens that knows its own
/// delimiters and its closing bracket.
pub trait ObjArrStack: IntoJson + CheckedStack<ObjArrItem, ()> {
    /// The token that `c` stands for between the items, if it is a delimiter.
    spec fn delimiter(&self, c: char) -> Option<Token>;

    /// The bracket that closes the container.
    spec fn end_char(&self) -> char;

    /// Whether what comes next has to be a key.
    spec fn expects_key(&self) -> bool;

    fn get_delimiter(&self, c: char) -> (r: Option<ObjArrItem>)
        ensures
            match r {
                Some(t) => self.delimiter(c) == Some(t@),
                None => self.delimiter(c) is None,
            },
    ;

    fn is_end_char(&self, c: char) -> (b: bool)
        ensures
            b == (c == self.end_char()),
    ;

    fn next_must_be_key(&self) -> (b: bool)
        ensures
            b == self.expects_key(),
    ;
}

/// The tokens that a container collects.
#[derive(PartialEq, Debug)]
pub enum ObjArrItem {
    Colon,
    Comma,
    Item(JsonValue),
    Key(String),
}

/// The mathematical content of a token.
pub enum Token {
    Colon,
    Comma,
    Item(JsonModel),
    Key(Seq<char>),
}

impl View for ObjArrItem {
    type V = Token;

    open spec fn view(&self) -> Token {
        match self {
            ObjArrItem::Colon => Token::Colon,
            ObjArrItem::Comma => Token::Comma,
            ObjArrItem::Item(v) => Token::Item(v@),
            ObjArrItem::Key(s) => Token::Key(s@),
        }
    }
}

/// The contents of a list of tokens, in order.
pub open spec fn tokens_of(items: Seq<ObjArrItem>) -> Seq<Token> {
    Seq::new(items.len(), |i: int| items[i]@)
}

/// Appending a token appends its content.
pub proof fn lemma_tokens_of_push(items: Seq<ObjArrItem>, item: ObjArrItem)
    ensures
        tokens_of(items.push(item)) == tokens_of(items).push(item@),
{
    assert(tokens_of(items.push(item)) =~= tokens_of(items).push(item@));
}

/// The values among the tokens, in order.
pub open spec fn token_items(tokens: Seq<Token>) -> Seq<JsonModel>
    decreases tokens.len(),
{
    if tokens.len() == 0 {
        Seq::empty()
    } else {
        match tokens.last() {
            Token::Item(v) => token_items(tokens.drop_last()).push(v),
            _ => token_items(tokens.drop_last()),
        }
    }
}

/// Whether the last token is a comma.
pub open spec fn ends_with_comma(tokens: Seq<Token>) -> bool {
    tokens.len() > 0 && tokens.last() is Comma
}

/// Whether the next token has to start a new item: nothing was pushed yet, or a
/// comma was pushed last.
pub open spec fn at_item_start(tokens: Seq<Token>) -> bool {
    tokens.len() == 0 || tokens.last() is Comma
}

/// Whether every value among the tokens is valid.
pub open spec fn items_wf(items: Seq<ObjArrItem>) -> bool {
    forall|i: int|
        0 <= i < items.len() ==> ((#[trigger] items[i]) matches ObjArrItem::Item(v) ==> v.wf())
}

impl From<JsonValue> for ObjArrItem {
    fn from(item: JsonValue) -> (r: Self) {
        ObjArrItem::Item(item)
    }
}

impl vstd::std_specs::convert::FromSpecImpl<JsonValue> for ObjArrItem {
    open spec fn obeys_from_spec() -> bool {
        true
    }

    open spec fn from_spec(item: JsonValue) -> Self {
        ObjArrItem::Item(item)
    }
}

/// What the depth and quote tracker knows: the brackets that are open, innermost
/// last, whether a string is open, and whether a backslash awaits its character.
pub struct CounterState {
    pub stack: Seq<char>,
    pub in_string: bool,
    pub escape: bool,
}

/// Whether `c` opens a container.
pub open spec fn opens(c: char) -> bool {
    c == '{' || c == '['
}

/// Whether `c` closes a container.
pub open spec fn closes(c: char) -> bool {
    c == '}' || c == ']'
}

/// Whether `close` is the bracket that closes `open`.
pub open spec fn matching(open: char, close: char) -> bool {
    (open == '[' && close == ']') || (open == '{' && close == '}')
}

impl CounterState {
    /// Nothing open.
    pub open spec fn initial() -> CounterState {
        CounterState { stack: Seq::empty(), in_string: false, escape: false }
    }

    /// Whether `c` may come next: a closing bracket outside a string has to
    /// match the innermost open bracket.
    pub open spec fn accepts(self, c: char) -> bool {
        closes(c) && !self.in_string ==> self.stack.len() > 0 && matching(self.stack.last(), c)
    }

    /// The state after `c`. Brackets count outside strings only. Inside a string a
    /// backslash shields the one character that follows it, so that an escaped
    /// quote does not close the string. A closing bracket takes the innermost
    /// open bracket away even where the two do not match.
    pub open spec fn fed(self, c: char) -> CounterState {
        if opens(c) && !self.in_string {
            CounterState { stack: self.stack.push(c), ..self }
        } else if closes(c) && !self.in_string {
            if self.stack.len() > 0 {
                CounterState { stack: self.stack.drop_last(), ..self }
            } else {
                self
            }
        } else if self.escape {
            CounterState { escape: false, ..self }
        } else if c == '\\' && self.in_string {
            CounterState { escape: true, ..self }
        } else if c == '"' {
            CounterState { in_string: !self.in_string, ..self }
        } else {
            self
        }
    }

    /// The nesting depth.
    pub open spec fn level(self) -> nat {
        self.stack.len()
    }
}

/// The depth and quote tracker.
#[derive(Debug)]
pub struct StackCounter {
    inner: Vec<char>,
    in_string: bool,
    escape: bool,
}

impl View for StackCounter {
    type V = CounterState;

    closed spec fn view(&self) -> CounterState {
        CounterState { stack: self.inner@, in_string: self.in_string, escape: self.escape }
    }
}

impl StackCounter {
    /// A tracker with nothing open.
    pub fn new() -> (s: Self)
        ensures
            s@ == CounterState::initial(),
    {
        Self { inner: Vec::new(), in_string: false, escape: false }
    }

    /// Feeds one character. It fails on a closing bracket outside a string that
    /// does not match the innermost open bracket, or that finds none open.
    pub fn push(&mut self, c: char) -> (r: Result<(), ()>)
        ensures
            final(self)@ == old(self)@.fed(c),
            r is Ok <==> old(self)@.accepts(c),
    {
        if (c == '{' || c == '[') && !self.in_string {
            self.inner.push(c);
            Ok(())
        } else if (c == '}' || c == ']') && !self.in_string {
            match self.inner.pop() {
                Some(last) => {
                    if (last == '[' && c == ']') || (last == '{' && c == '}') {
                        Ok(())
                    } else {
                        Err(())
                    }
                },
                None => Err(()),
            }
        } else if self.escape {
            self.escape = false;
            Ok(())
        } else if c == '\\' && self.in_string {
            self.escape = true;
            Ok(())
        } else if c == '"' {
            self.in_string = !self.in_string;
            Ok(())
        } else {
            Ok(())
        }
    }

    /// The number of brackets that are open.
    pub fn level(&self) -> (n: usize)
        ensures
            n == self@.level(),
    {
        self.inner.len()
    }

    /// Whether a string is open.
    pub fn in_string(&self) -> (b: bool)
        ensures
            b == self@.in_string,
    {
        self.in_string
    }
}

/// The two kinds of container.
pub enum ContainerKind {
    Array,
    Object,
}

/// What a container in the making knows: its kind and the tokens pushed so far.
pub struct ContainerModel {
    pub kind: ContainerKind,
    pub tokens: Seq<Token>,
}

impl ContainerModel {
    /// The token that `c` stands for between the items: the comma, and in an
    /// object the colon too.
    pub open spec fn delimiter(self, c: char) -> Option<Token> {
        if c == ',' {
            Some(Token::Comma)
        } else if c == ':' && self.kind is Object {
            Some(Token::Colon)
        } else {
            None
        }
    }

    /// The bracket that closes the container.
    pub open spec fn end_char(self) -> char {
        match self.kind {
            ContainerKind::Array => ']',
            ContainerKind::Object => '}',
        }
    }

    /// Whether what comes next has to be a key: in an object, at the start and
    /// after a comma.
    pub open spec fn expects_key(self) -> bool {
        self.kind is Object && at_item_start(self.tokens)
    }

    /// The container after `t` was pushed, or `None` where it refuses `t`.
    pub open spec fn pushed(self, t: Token) -> Option<ContainerModel> {
        match self.kind {
            ContainerKind::Array => if array_admits(self.tokens, t) {
                Some(ContainerModel { tokens: self.tokens.push(t), ..self })
            } else {
                None
            },
            ContainerKind::Object => match object_admitted(self.tokens, t) {
                Some(stored) => Some(ContainerModel { tokens: self.tokens.push(stored), ..self }),
                None => None,
            },
        }
    }

    /// The value that the tokens make, or `None` where they make none.
    pub open spec fn json(self) -> Option<JsonModel> {
        match self.kind {
            ContainerKind::Array => array_json(self.tokens),
            ContainerKind::Object => object_json(self.tokens),
        }
    }
}

/// What a scalar automaton other than that of a number knows.
pub enum ScalarModel {
    Text(TextState),
    Bool(MatcherState),
    Null(MatcherState),
}

impl ScalarModel {
    /// What feeding `c` reports.
    pub open spec fn verdict(self, c: char) -> Result<bool, char> {
        match self {
            ScalarModel::Text(t) => t.verdict(c),
            ScalarModel::Bool(m) => m.verdict(c),
            ScalarModel::Null(m) => m.verdict(c),
        }
    }

    /// The state after `c`.
    pub open spec fn pushed(self, c: char) -> ScalarModel {
        match self {
            ScalarModel::Text(t) => ScalarModel::Text(t.pushed(c)),
            ScalarModel::Bool(m) => ScalarModel::Bool(m.pushed(c)),
            ScalarModel::Null(m) => ScalarModel::Null(m.pushed(c)),
        }
    }

    /// The value of the automaton, once it is complete.
    pub open spec fn json(self) -> Option<JsonModel> {
        match self {
            ScalarModel::Text(t) => t.json(),
            ScalarModel::Bool(m) => m.boolean_json(),
            ScalarModel::Null(m) => m.null_json(),
        }
    }
}

/// The mathematical content of what the reader is working on.
pub enum PendingModel {
    ObjArr(ContainerModel),
    Simple(ScalarModel),
    Number(NumberState),
    Finalized(JsonModel),
}

/// A container in the making: one of the two accumulators.
#[derive(Debug)]
pub enum Container {
    Array(ArrayStack),
    Object(ObjectStack),
}

impl View for Container {
    type V = ContainerModel;

    open spec fn view(&self) -> ContainerModel {
        match self {
            Container::Array(s) => ContainerModel { kind: ContainerKind::Array, tokens: s@ },
            Container::Object(s) => ContainerModel { kind: ContainerKind::Object, tokens: s@ },
        }
    }
}

impl Container {
    /// Whether every value among the tokens is valid.
    pub open spec fn wf(&self) -> bool {
        match self {
            Container::Array(s) => items_wf(s.inner@),
            Container::Object(s) => items_wf(s.inner@),
        }
    }

    /// The token that `c` stands for between the items, if it is a delimiter.
    pub fn get_delimiter(&self, c: char) -> (r: Option<ObjArrItem>)
        ensures
            match r {
                Some(t) => self@.delimiter(c) == Some(t@) && !(t is Item),
                None => self@.delimiter(c) is None,
            },
    {
        match self {
            Container::Array(s) => s.get_delimiter(c),
            Container::Object(s) => s.get_delimiter(c),
        }
    }

    /// Whether `c` is the bracket that closes the container.
    pub fn is_end_char(&self, c: char) -> (b: bool)
        ensures
            b == (c == self@.end_char()),
    {
        match self {
            Container::Array(s) => s.is_end_char(c),
            Container::Object(s) => s.is_end_char(c),
        }
    }

    /// Whether what comes next has to be a key.
    pub fn next_must_be_key(&self) -> (b: bool)
        ensures
            b == self@.expects_key(),
    {
        match self {
            Container::Array(s) => s.next_must_be_key(),
            Container::Object(s) => s.next_must_be_key(),
        }
    }

    /// Pushes a token, unless the container refuses it.
    pub fn push(&mut self, item: ObjArrItem) -> (r: Result<(), ()>)
        ensures
            match old(self)@.pushed(item@) {
                Some(next) => r is Ok && final(self)@ == next,
                None => r is Err && final(self)@ == old(self)@,
            },
            old(self).wf() && (item matches ObjArrItem::Item(v) ==> v.wf()) ==> final(self).wf(),
    {
        match self {
            Container::Array(s) => {
                let ghost before = s.inner@;
                let r = s.push(item);
                proof {
                    assert(forall|j: int| 0 <= j < before.len() ==> s.inner@[j] == before[j]);
                }
                r
            },
            Container::Object(s) => s.push(item),
        }
    }

    /// Finishes the container into its value.
    pub fn into_json(self) -> (r: Result<JsonValue, ()>)
        ensures
            match r {
                Ok(v) => self@.json() == Some(v@) && (self.wf() ==> v.wf()),
                Err(_) => self@.json() is None,
            },
    {
        match self {
            Container::Array(s) => Box::new(s).into_json(),
            Container::Object(s) => Box::new(s).into_json(),
        }
    }
}

/// A scalar automaton other than that of a number.
#[derive(Debug)]
pub enum Scalar {
    Text(TextStack),
    Bool(BoolStack),
    Null(NullStack),
}

impl View for Scalar {
    type V = ScalarModel;

    open spec fn view(&self) -> ScalarModel {
        match self {
            Scalar::Text(s) => ScalarModel::Text(s@),
            Scalar::Bool(s) => ScalarModel::Bool(s@),
            Scalar::Null(s) => ScalarModel::Null(s@),
        }
    }
}

impl Scalar {
    /// Feeds one character to the automaton.
    pub fn push(&mut self, c: char) -> (r: Result<bool, char>)
        ensures
            final(self)@ == old(self)@.pushed(c),
            r == old(self)@.verdict(c),
    {
        match self {
            Scalar::Text(s) => s.push(c),
            Scalar::Bool(s) => s.push(c),
            Scalar::Null(s) => s.push(c),
        }
    }

    /// Finishes the automaton into its value.
    pub fn into_json(self) -> (r: Result<JsonValue, ()>)
        ensures
            match r {
                Ok(v) => self@.json() == Some(v@) && v.wf(),
                Err(_) => self@.json() is None,
            },
    {
        match self {
            Scalar::Text(s) => Box::new(s).into_json(),
            Scalar::Bool(s) => Box::new(s).into_json(),
            Scalar::Null(s) => Box::new(s).into_json(),
        }
    }
}

/// What the reader is working on: a container or a scalar in the making, or
/// the value that was read.
#[derive(Debug)]
pub enum PendingItem {
    ObjArr(Container),
    Simple(Scalar),
    Number(NumberStack),
    FinalizedJsonValue(JsonValue),
}

impl View for PendingItem {
    type V = PendingModel;

    open spec fn view(&self) -> PendingModel {
        match self {
            PendingItem::ObjArr(s) => PendingModel::ObjArr(s@),
            PendingItem::Simple(s) => PendingModel::Simple(s@),
            PendingItem::Number(s) => PendingModel::Number(s@),
            PendingItem::FinalizedJsonValue(v) => PendingModel::Finalized(v@),
        }
    }
}

impl PendingItem {
    /// Whether every value held is valid.
    pub open spec fn wf(&self) -> bool {
        match self {
            PendingItem::ObjArr(s) => s.wf(),
            PendingItem::FinalizedJsonValue(v) => v.wf(),
            _ => true,
        }
    }
}

impl From<JsonValue> for PendingItem {
    fn from(item: JsonValue) -> (r: Self) {
        PendingItem::FinalizedJsonValue(item)
    }
}

impl vstd::std_specs::convert::FromSpecImpl<JsonValue> for PendingItem {
    open spec fn obeys_from_spec() -> bool {
        true
    }

    open spec fn from_spec(item: JsonValue) -> Self {
        PendingItem::FinalizedJsonValue(item)
    }
}

impl From<Scalar> for PendingItem {
    fn from(item: Scalar) -> (r: Self) {
        PendingItem::Simple(item)
    }
}

impl vstd::std_specs::convert::FromSpecImpl<Scalar> for PendingItem {
    open spec fn obeys_from_spec() -> bool {
        true
    }

    open spec fn from_spec(item: Scalar) -> Self {
        PendingItem::Simple(item)
    }
}

impl From<Container> for PendingItem {
    fn from(item: Container) -> (r: Self) {
        PendingItem::ObjArr(item)
    }
}

impl vstd::std_specs::convert::FromSpecImpl<Container> for PendingItem {
    open spec fn obeys_from_spec() -> bool {
        true
    }

    open spec fn from_spec(item: Container) -> Self {
        PendingItem::ObjArr(item)
    }
}

impl From<ArrayStack> for PendingItem {
    fn from(item: ArrayStack) -> (r: Self) {
        PendingItem::ObjArr(Container::Array(item))
    }
}

impl vstd::std_specs::convert::FromSpecImpl<ArrayStack> for PendingItem {
    open spec fn obeys_from_spec() -> bool {
        true
    }

    open spec fn from_spec(item: ArrayStack) -> Self {
        PendingItem::ObjArr(Container::Array(item))
    }
}

impl From<ObjectStack> for PendingItem {
    fn from(item: ObjectStack) -> (r: Self) {
        PendingItem::ObjArr(Container::Object(item))
    }
}

impl vstd::std_specs::convert::FromSpecImpl<ObjectStack> for PendingItem {
    open spec fn obeys_from_spec() -> bool {
        true
    }

    open spec fn from_spec(item: ObjectStack) -> Self {
        PendingItem::ObjArr(Container::Object(item))
    }
}

} // verus!
