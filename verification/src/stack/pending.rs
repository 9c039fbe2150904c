//! The scalar automata: each takes one character at a time and reports that it
//! goes on, that it is complete, or that it refuses the character.
use vstd::prelude::*;
use vstd::string::StrSliceExecFns;
use crate::chars::{
    all_hex, control, digit, hex_digit, hex_digit_to_value, hex_value, is_control, is_digit,
    is_exponent_mark, is_hex_digit,
};
use crate::number::{assemble, assemble_text, sign, JsonNumber, Numeral};
use crate::stack::IntoJson;
use crate::strings::{push_char, to_chars};
use crate::value::{JsonModel, JsonValue};

verus! {

/// An automaton that is fed one `C` at a time.
pub trait PendingStack<C>: IntoJson {
    /// What feeding `c` reports: `Ok(true)` when the value is complete, `Ok(false)`
    /// when more is expected, `Err(c)` when `c` is refused.
    spec fn verdict(&self, c: C) -> Result<bool, C>;

    fn push(&mut self, c: C) -> (r: Result<bool, C>)
        ensures
            r == old(self).verdict(c),
    ;
}

/// The automata for the values that end by themselves.
pub trait SimpleStack: PendingStack<char> + IntoJson {

}

/// Whether `p` is a prefix of `s`.
pub open spec fn is_prefix(p: Seq<char>, s: Seq<char>) -> bool {
    p.len() <= s.len() && s.take(p.len() as int) == p
}

/// The literal `true`.
pub open spec fn true_text() -> Seq<char> {
    seq!['t', 'r', 'u', 'e']
}

/// The literal `false`.
pub open spec fn false_text() -> Seq<char> {
    seq!['f', 'a', 'l', 's', 'e']
}

/// The literal `null`.
pub open spec fn null_text() -> Seq<char> {
    seq!['n', 'u', 'l', 'l']
}

/// What a literal matcher knows: the characters taken so far and the literals
/// that it may still become.
pub struct MatcherState {
    pub inner: Seq<char>,
    pub matchers: Seq<Seq<char>>,
}

impl MatcherState {
    /// Whether `text` is the beginning of some literal.
    pub open spec fn viable(self, text: Seq<char>) -> bool {
        exists|i: int| 0 <= i < self.matchers.len() && is_prefix(text, #[trigger] self.matchers[i])
    }

    /// Whether the characters taken so far are one of the literals.
    pub open spec fn complete(self) -> bool {
        self.matchers.contains(self.inner)
    }

    /// The state after `c`: the character is taken where the result still
    /// begins a literal, and left out otherwise.
    pub open spec fn pushed(self, c: char) -> MatcherState {
        if self.viable(self.inner.push(c)) {
            MatcherState { inner: self.inner.push(c), ..self }
        } else {
            self
        }
    }

    /// What feeding `c` reports.
    pub open spec fn verdict(self, c: char) -> Result<bool, char> {
        if self.viable(self.inner.push(c)) {
            Ok(self.pushed(c).complete())
        } else {
            Err(c)
        }
    }

    /// The literal that was matched, if the characters taken are one.
    pub open spec fn matched(self) -> Option<Seq<char>> {
        if self.complete() {
            Some(self.inner)
        } else {
            None
        }
    }

    /// A matcher for `true` and `false` that has taken `inner`.
    pub open spec fn boolean(inner: Seq<char>) -> MatcherState {
        MatcherState { inner, matchers: seq![true_text(), false_text()] }
    }

    /// A matcher for `null` that has taken `inner`.
    pub open spec fn null(inner: Seq<char>) -> MatcherState {
        MatcherState { inner, matchers: seq![null_text()] }
    }

    /// The value of a boolean matcher: the literal it matched, read as a boolean.
    pub open spec fn boolean_json(self) -> Option<JsonModel> {
        if self.complete() && self.inner == true_text() {
            Some(JsonModel::Boolean(true))
        } else if self.complete() && self.inner == false_text() {
            Some(JsonModel::Boolean(false))
        } else {
            None
        }
    }

    /// The value of a null matcher.
    pub open spec fn null_json(self) -> Option<JsonModel> {
        if self.complete() {
            Some(JsonModel::Null)
        } else {
            None
        }
    }
}

/// The texts of a list of literals.
pub open spec fn texts_of(ms: Seq<Vec<char>>) -> Seq<Seq<char>> {
    Seq::new(ms.len(), |i: int| ms[i]@)
}

/// Whether `s` begins with `p`.
pub fn starts_with(s: &Vec<char>, p: &Vec<char>) -> (r: bool)
    ensures
        r == is_prefix(p@, s@),
{
    if p.len() > s.len() {
        return false;
    }
    let mut i: usize = 0;
    while i < p.len()
        invariant
            i <= p.len() <= s.len(),
            forall|j: int| 0 <= j < i ==> s@[j] == p@[j],
        decreases p.len() - i,
    {
        if s[i] != p[i] {
            proof {
                assert(s@.take(p.len() as int)[i as int] == s@[i as int]);
            }
            return false;
        }
        i += 1;
    }
    proof {
        assert(s@.take(p.len() as int) =~= p@);
    }
    true
}

/// Whether two lists of characters are the same.
pub fn same_chars(a: &Vec<char>, b: &Vec<char>) -> (r: bool)
    ensures
        r == (a@ == b@),
{
    if a.len() != b.len() {
        return false;
    }
    let r = starts_with(a, b);
    proof {
        assert(a@.take(a.len() as int) =~= a@);
    }
    r
}

/// Matches the characters fed to it against a set of literals.
#[derive(PartialEq, Debug)]
pub struct StringMatcherStack {
    pub inner_string: String,
    pub matchers: Vec<Vec<char>>,
}

impl View for StringMatcherStack {
    type V = MatcherState;

    open spec fn view(&self) -> MatcherState {
        MatcherState { inner: self.inner_string@, matchers: texts_of(self.matchers@) }
    }
}

impl StringMatcherStack {
    /// A matcher for the given literals that has taken nothing yet.
    pub fn new(matchers: Vec<Vec<char>>) -> (s: Self)
        ensures
            s@ == (MatcherState { inner: Seq::empty(), matchers: texts_of(matchers@) }),
    {
        Self { matchers, inner_string: String::new() }
    }

    /// Whether some literal begins with `text`.
    fn any_starts_with(&self, text: &Vec<char>) -> (r: bool)
        ensures
            r == self@.viable(text@),
    {
        let mut i: usize = 0;
        while i < self.matchers.len()
            invariant
                i <= self.matchers.len(),
                forall|j: int| 0 <= j < i ==> !is_prefix(text@, #[trigger] self@.matchers[j]),
            decreases self.matchers.len() - i,
        {
            if starts_with(&self.matchers[i], text) {
                proof {
                    assert(is_prefix(text@, self@.matchers[i as int]));
                }
                return true;
            }
            i += 1;
        }
        false
    }

    /// Whether `text` is one of the literals.
    fn contains(&self, text: &Vec<char>) -> (r: bool)
        ensures
            r == self@.matchers.contains(text@),
    {
        let mut i: usize = 0;
        while i < self.matchers.len()
            invariant
                i <= self.matchers.len(),
                forall|j: int| 0 <= j < i ==> (#[trigger] self@.matchers[j]) != text@,
            decreases self.matchers.len() - i,
        {
            if same_chars(&self.matchers[i], text) {
                proof {
                    assert(self@.matchers[i as int] == text@);
                }
                return true;
            }
            i += 1;
        }
        false
    }

    /// Takes `c` where what was taken so far, with `c` after it, still begins a
    /// literal, and says whether it is one; refuses `c` otherwise.
    pub fn push(&mut self, c: char) -> (r: Result<bool, char>)
        ensures
            final(self)@ == old(self)@.pushed(c),
            r == old(self)@.verdict(c),
    {
        let mut concatenated = to_chars(self.inner_string.as_str());
        concatenated.push(c);
        if self.any_starts_with(&concatenated) {
            push_char(&mut self.inner_string, c);
            Ok(self.contains(&concatenated))
        } else {
            Err(c)
        }
    }

    /// The literal that was matched.
    pub fn into_string(self) -> (r: Result<String, ()>)
        ensures
            match r {
                Ok(s) => self@.matched() == Some(s@),
                Err(_) => self@.matched() is None,
            },
    {
        let text = to_chars(self.inner_string.as_str());
        if self.contains(&text) {
            Ok(self.inner_string)
        } else {
            Err(())
        }
    }
}

/// The literals of the booleans.
fn bool_strs() -> (ms: Vec<Vec<char>>)
    ensures
        texts_of(ms@) == seq![true_text(), false_text()],
{
    let ms = vec![vec!['t', 'r', 'u', 'e'], vec!['f', 'a', 'l', 's', 'e']];
    proof {
        assert(ms@[0]@ =~= true_text());
        assert(ms@[1]@ =~= false_text());
        assert(texts_of(ms@) =~= seq![true_text(), false_text()]);
    }
    ms
}

/// The literal of null.
fn null_strs() -> (ms: Vec<Vec<char>>)
    ensures
        texts_of(ms@) == seq![null_text()],
{
    let ms = vec![vec!['n', 'u', 'l', 'l']];
    proof {
        assert(ms@[0]@ =~= null_text());
        assert(texts_of(ms@) =~= seq![null_text()]);
    }
    ms
}

/// The automaton for `true` and `false`.
#[derive(PartialEq, Debug)]
pub struct BoolStack {
    pub matcher_stack: StringMatcherStack,
}

impl View for BoolStack {
    type V = MatcherState;

    open spec fn view(&self) -> MatcherState {
        self.matcher_stack@
    }
}

impl SimpleStack for BoolStack {

}

impl BoolStack {
    /// A matcher that has taken nothing yet.
    pub fn new() -> (s: Self)
        ensures
            s@ == MatcherState::boolean(Seq::empty()),
    {
        Self { matcher_stack: StringMatcherStack::new(bool_strs()) }
    }

    /// A matcher that has taken the `t` of `true`.
    pub fn init_true() -> (s: Self)
        ensures
            s@ == MatcherState::boolean(seq!['t']),
    {
        let mut s = Self::new();
        push_char(&mut s.matcher_stack.inner_string, 't');
        proof {
            assert(s@.inner =~= seq!['t']);
        }
        s
    }

    /// A matcher that has taken the `f` of `false`.
    pub fn init_false() -> (s: Self)
        ensures
            s@ == MatcherState::boolean(seq!['f']),
    {
        let mut s = Self::new();
        push_char(&mut s.matcher_stack.inner_string, 'f');
        proof {
            assert(s@.inner =~= seq!['f']);
        }
        s
    }
}

impl IntoJson for BoolStack {
    open spec fn json(&self) -> Option<JsonModel> {
        self@.boolean_json()
    }

    fn into_json(self: Box<Self>) -> (r: Result<JsonValue, ()>) {
        match self.matcher_stack.into_string() {
            Ok(s) => {
                let text = to_chars(s.as_str());
                let t = vec!['t', 'r', 'u', 'e'];
                let f = vec!['f', 'a', 'l', 's', 'e'];
                proof {
                    assert(t@ =~= true_text());
                    assert(f@ =~= false_text());
                }
                if same_chars(&text, &t) {
                    Ok(JsonValue::Boolean(true))
                } else if same_chars(&text, &f) {
                    Ok(JsonValue::Boolean(false))
                } else {
                    Err(())
                }
            },
            Err(_) => Err(()),
        }
    }
}

impl PendingStack<char> for BoolStack {
    open spec fn verdict(&self, c: char) -> Result<bool, char> {
        self@.verdict(c)
    }

    fn push(&mut self, c: char) -> (r: Result<bool, char>)
        ensures
            final(self)@ == old(self)@.pushed(c),
    {
        self.matcher_stack.push(c)
    }
}

/// The automaton for `null`.
#[derive(PartialEq, Debug)]
pub struct NullStack {
    pub matcher_stack: StringMatcherStack,
}

impl View for NullStack {
    type V = MatcherState;

    open spec fn view(&self) -> MatcherState {
        self.matcher_stack@
    }
}

impl SimpleStack for NullStack {

}

impl NullStack {
    /// A matcher that has taken nothing yet.
    pub fn new() -> (s: Self)
        ensures
            s@ == MatcherState::null(Seq::empty()),
    {
        Self { matcher_stack: StringMatcherStack::new(null_strs()) }
    }

    /// A matcher that has taken the `n` of `null`.
    pub fn init_n() -> (s: Self)
        ensures
            s@ == MatcherState::null(seq!['n']),
    {
        let mut stack = Self::new();
        push_char(&mut stack.matcher_stack.inner_string, 'n');
        proof {
            assert(stack@.inner =~= seq!['n']);
        }
        stack
    }
}

impl IntoJson for NullStack {
    open spec fn json(&self) -> Option<JsonModel> {
        self@.null_json()
    }

    fn into_json(self: Box<Self>) -> (r: Result<JsonValue, ()>) {
        match self.matcher_stack.into_string() {
            Ok(_) => Ok(JsonValue::Null),
            Err(_) => Err(()),
        }
    }
}

impl PendingStack<char> for NullStack {
    open spec fn verdict(&self, c: char) -> Result<bool, char> {
        self@.verdict(c)
    }

    fn push(&mut self, c: char) -> (r: Result<bool, char>)
        ensures
            final(self)@ == old(self)@.pushed(c),
    {
        self.matcher_stack.push(c)
    }
}

/// The two kinds of escape: one character that stands for another, and `u` with
/// the hexadecimal digits taken so far.
pub enum EscapeKind {
    SimpleChar(char),
    Unicode(Seq<char>),
}

/// What an escape sequence knows after the backslash: nothing yet, or its kind.
pub struct EscapeState {
    pub inner: Option<EscapeKind>,
}

/// The character that `c` stands for after a backslash, if it is a simple escape.
pub open spec fn simple_escape(c: char) -> Option<char> {
    if c == 'n' {
        Some('\n')
    } else if c == 't' {
        Some('\t')
    } else if c == 'r' {
        Some('\r')
    } else if c == 'b' {
        Some('\x08')
    } else if c == 'f' {
        Some('\x0C')
    } else if c == '\\' || c == '"' {
        Some(c)
    } else {
        None
    }
}

/// Whether `code` is a Unicode scalar value: a code point that is no surrogate.
pub open spec fn scalar_value(code: nat) -> bool {
    code <= 0xD7FF || 0xE000 <= code <= 0x10FFFF
}

impl EscapeState {
    /// Right after the backslash.
    pub open spec fn initial() -> EscapeState {
        EscapeState { inner: None }
    }

    /// What feeding `c` reports: a simple escape is complete at once, `u` wants
    /// four hexadecimal digits and is complete with the fourth.
    pub open spec fn verdict(self, c: char) -> Result<bool, char> {
        match self.inner {
            None => if c == 'u' {
                Ok(false)
            } else if simple_escape(c) is Some {
                Ok(true)
            } else {
                Err(c)
            },
            Some(EscapeKind::Unicode(s)) => if hex_digit(c) && s.len() < 4 {
                Ok(s.len() + 1 == 4)
            } else {
                Err(c)
            },
            Some(EscapeKind::SimpleChar(_)) => Err(c),
        }
    }

    /// The state after `c`; a refused character changes nothing.
    pub open spec fn pushed(self, c: char) -> EscapeState {
        match self.inner {
            None => if c == 'u' {
                EscapeState { inner: Some(EscapeKind::Unicode(Seq::empty())) }
            } else if simple_escape(c) is Some {
                EscapeState { inner: Some(EscapeKind::SimpleChar(simple_escape(c)->0)) }
            } else {
                self
            },
            Some(EscapeKind::Unicode(s)) => if hex_digit(c) && s.len() < 4 {
                EscapeState { inner: Some(EscapeKind::Unicode(s.push(c))) }
            } else {
                self
            },
            Some(EscapeKind::SimpleChar(_)) => self,
        }
    }

    /// The character that the sequence stands for: that of a simple escape, or
    /// the one whose code four hexadecimal digits give, unless it is a surrogate.
    pub open spec fn escaped(self) -> Option<char> {
        match self.inner {
            Some(EscapeKind::Unicode(s)) => if s.len() == 4 && all_hex(s) && scalar_value(
                hex_value(s),
            ) {
                Some(hex_value(s) as char)
            } else {
                None
            },
            Some(EscapeKind::SimpleChar(c)) => Some(c),
            None => None,
        }
    }
}

/// `char::from_u32` gives the character with the given code, and nothing for a
/// surrogate or a number above the last code point.
pub assume_specification[ char::from_u32 ](i: u32) -> (r: Option<char>)
    ensures
        r == (if scalar_value(i as nat) {
            Some(i as char)
        } else {
            None::<char>
        }),
;

#[derive(PartialEq, Debug)]
enum EscapeType {
    SimpleChar(char),
    Unicode(String),
}

/// The automaton for what follows a backslash inside a string.
#[derive(PartialEq, Debug)]
pub struct EscapeSequence {
    inner: Option<EscapeType>,
}

impl View for EscapeSequence {
    type V = EscapeState;

    closed spec fn view(&self) -> EscapeState {
        EscapeState {
            inner: match self.inner {
                None => None,
                Some(EscapeType::SimpleChar(c)) => Some(EscapeKind::SimpleChar(c)),
                Some(EscapeType::Unicode(s)) => Some(EscapeKind::Unicode(s@)),
            },
        }
    }
}

/// The number that four hexadecimal digits denote.
fn four_hex_digits(s: &Vec<char>) -> (r: Option<u32>)
    requires
        s.len() == 4,
    ensures
        r is Some <==> all_hex(s@),
        r matches Some(n) ==> n == hex_value(s@) && n <= 0xFFFF,
{
    if is_hex_digit(s[0]) && is_hex_digit(s[1]) && is_hex_digit(s[2]) && is_hex_digit(s[3]) {
        let d0: u32 = hex_digit_to_value(s[0]);
        let d1: u32 = hex_digit_to_value(s[1]);
        let d2: u32 = hex_digit_to_value(s[2]);
        let d3: u32 = hex_digit_to_value(s[3]);
        proof {
            reveal_with_fuel(hex_value, 5);
            let s3 = s@.drop_last();
            let s2 = s3.drop_last();
            let s1 = s2.drop_last();
            assert(s3.last() == s@[2]);
            assert(s2.last() == s@[1]);
            assert(s1.last() == s@[0]);
            assert(s1.drop_last().len() == 0);
        }
        Some(((d0 * 16 + d1) * 16 + d2) * 16 + d3)
    } else {
        None
    }
}

impl EscapeSequence {
    /// The automaton right after the backslash.
    pub fn new() -> (s: Self)
        ensures
            s@ == EscapeState::initial(),
    {
        Self { inner: None }
    }

    /// Feeds the next character of the sequence.
    pub fn push(&mut self, c: char) -> (r: Result<bool, char>)
        ensures
            final(self)@ == old(self)@.pushed(c),
            r == old(self)@.verdict(c),
    {
        match &mut self.inner {
            None => {
                if c == 'u' {
                    self.inner = Some(EscapeType::Unicode(String::new()));
                    Ok(false)
                } else {
                    let simple = if c == 'n' {
                        '\n'
                    } else if c == 't' {
                        '\t'
                    } else if c == 'r' {
                        '\r'
                    } else if c == 'b' {
                        '\x08'
                    } else if c == 'f' {
                        '\x0C'
                    } else if c == '\\' || c == '"' {
                        c
                    } else {
                        return Err(c);
                    };
                    self.inner = Some(EscapeType::SimpleChar(simple));
                    Ok(true)
                }
            },
            Some(EscapeType::Unicode(s)) => {
                let taken = s.as_str().unicode_len();
                if is_hex_digit(c) && taken < 4 {
                    push_char(s, c);
                    Ok(taken + 1 == 4)
                } else {
                    Err(c)
                }
            },
            Some(EscapeType::SimpleChar(_)) => Err(c),
        }
    }

    /// The character that the sequence stands for.
    pub fn into_char(self) -> (r: Result<char, ()>)
        ensures
            match r {
                Ok(c) => self@.escaped() == Some(c),
                Err(_) => self@.escaped() is None,
            },
    {
        match self.inner {
            Some(EscapeType::Unicode(s)) => {
                let digits = to_chars(s.as_str());
                if digits.len() == 4 {
                    match four_hex_digits(&digits) {
                        Some(code) => match char::from_u32(code) {
                            Some(c) => Ok(c),
                            None => Err(()),
                        },
                        None => Err(()),
                    }
                } else {
                    Err(())
                }
            },
            Some(EscapeType::SimpleChar(c)) => Ok(c),
            None => Err(()),
        }
    }
}

/// What the string automaton knows: the characters of the string so far,
/// whether the closing quote was seen, and the escape sequence that is open.
pub struct TextState {
    pub inner: Seq<char>,
    pub completed: bool,
    pub escape: Option<EscapeState>,
}

impl TextState {
    /// Right after the opening quote.
    pub open spec fn initial() -> TextState {
        TextState { inner: Seq::empty(), completed: false, escape: None }
    }

    /// What feeding `c` reports. Inside an escape sequence the sequence
    /// decides, and a completed sequence has to stand for a character. Outside
    /// one, a quote completes the string, a backslash opens a sequence, and any
    /// other character is taken unless it is a control character. A completed
    /// string takes nothing more.
    pub open spec fn verdict(self, c: char) -> Result<bool, char> {
        match self.escape {
            Some(seq) => match seq.verdict(c) {
                Err(e) => Err(e),
                Ok(true) => if seq.pushed(c).escaped() is Some {
                    Ok(false)
                } else {
                    Err(c)
                },
                Ok(false) => Ok(false),
            },
            None => if self.completed {
                Err(c)
            } else if c == '"' {
                Ok(true)
            } else if c == '\\' || !control(c) {
                Ok(false)
            } else {
                Err(c)
            },
        }
    }

    /// The state after `c`. An escape sequence that refuses a character, or
    /// that stands for none, is dropped.
    pub open spec fn pushed(self, c: char) -> TextState {
        match self.escape {
            Some(seq) => match seq.verdict(c) {
                Err(e) => TextState { escape: None, ..self },
                Ok(true) => match seq.pushed(c).escaped() {
                    Some(x) => TextState { inner: self.inner.push(x), escape: None, ..self },
                    None => TextState { escape: None, ..self },
                },
                Ok(false) => TextState { escape: Some(seq.pushed(c)), ..self },
            },
            None => if self.completed {
                self
            } else if c == '"' {
                TextState { completed: true, ..self }
            } else if c == '\\' {
                TextState { escape: Some(EscapeState::initial()), ..self }
            } else if !control(c) {
                TextState { inner: self.inner.push(c), ..self }
            } else {
                self
            },
        }
    }

    /// The string, once the closing quote was seen.
    pub open spec fn json(self) -> Option<JsonModel> {
        if self.completed {
            Some(JsonModel::Text(self.inner))
        } else {
            None
        }
    }
}

/// The automaton for a string, fed what follows the opening quote.
#[derive(PartialEq, Debug)]
pub struct TextStack {
    inner: String,
    completed: bool,
    escape: Option<EscapeSequence>,
}

impl View for TextStack {
    type V = TextState;

    closed spec fn view(&self) -> TextState {
        TextState {
            inner: self.inner@,
            completed: self.completed,
            escape: match self.escape {
                Some(seq) => Some(seq@),
                None => None,
            },
        }
    }
}

impl SimpleStack for TextStack {

}

impl TextStack {
    /// The automaton right after the opening quote.
    pub fn new() -> (s: Self)
        ensures
            s@ == TextState::initial(),
    {
        Self { inner: String::new(), completed: false, escape: None }
    }
}

impl IntoJson for TextStack {
    closed spec fn json(&self) -> Option<JsonModel> {
        self@.json()
    }

    fn into_json(self: Box<Self>) -> (r: Result<JsonValue, ()>)
        ensures
            self.json() == self@.json(),
    {
        if self.completed {
            Ok(JsonValue::Text(self.inner))
        } else {
            Err(())
        }
    }
}

impl PendingStack<char> for TextStack {
    closed spec fn verdict(&self, c: char) -> Result<bool, char> {
        self@.verdict(c)
    }

    fn push(&mut self, c: char) -> (r: Result<bool, char>)
        ensures
            final(self)@ == old(self)@.pushed(c),
            r == old(self)@.verdict(c),
    {
        match self.escape.take() {
            Some(mut seq) => {
                match seq.push(c) {
                    Err(e) => Err(e),
                    Ok(true) => match seq.into_char() {
                        Ok(x) => {
                            push_char(&mut self.inner, x);
                            Ok(false)
                        },
                        Err(_) => Err(c),
                    },
                    Ok(false) => {
                        self.escape = Some(seq);
                        Ok(false)
                    },
                }
            },
            None => {
                if self.completed {
                    Err(c)
                } else if c == '"' {
                    self.completed = true;
                    Ok(true)
                } else if c == '\\' {
                    self.escape = Some(EscapeSequence::new());
                    Ok(false)
                } else if !is_control(c) {
                    push_char(&mut self.inner, c);
                    Ok(false)
                } else {
                    Err(c)
                }
            },
        }
    }
}

/// Where in a number the automaton stands.
#[derive(Clone, Copy, PartialEq, Eq, Structural, Debug)]
pub enum NumPosition {
    /// In the whole part.
    Whole,
    /// After a whole part that is a single `0`.
    IntoDecimal,
    /// After the point.
    Decimal,
    /// After the exponent mark.
    Exponent,
}

/// What the number automaton knows: its position, the sign, and the three
/// digit groups taken so far.
pub struct NumberState {
    pub position: NumPosition,
    pub positive: bool,
    pub whole: Seq<char>,
    pub decimal: Seq<char>,
    pub exponent: Seq<char>,
}

/// Whether `c` is the exponent mark, in either case.
pub open spec fn exponent_mark(c: char) -> bool {
    c == 'e' || c == 'E'
}

impl NumberState {
    /// Before the first character.
    pub open spec fn initial() -> NumberState {
        NumberState {
            position: NumPosition::Whole,
            positive: true,
            whole: Seq::empty(),
            decimal: Seq::empty(),
            exponent: Seq::empty(),
        }
    }

    /// Whether `c` may come next. In the whole part: one minus sign at the very
    /// start, a first digit, further digits unless the part is a single `0`, and
    /// after a digit the point or the exponent mark. After the point: digits,
    /// and after a digit the exponent mark. In the exponent: one sign at its
    /// start, and digits.
    pub open spec fn can_push(self, c: char) -> bool {
        match self.position {
            NumPosition::Whole => {
                ||| (c == '-' && self.whole.len() == 0 && self.positive)
                ||| digit(c)
                ||| (self.whole.len() > 0 && (c == '.' || exponent_mark(c)))
            },
            NumPosition::IntoDecimal => c == '.' || exponent_mark(c),
            NumPosition::Decimal => digit(c) || (self.decimal.len() > 0 && exponent_mark(c)),
            NumPosition::Exponent => digit(c) || (sign(c) && self.exponent.len() == 0),
        }
    }

    /// The state after `c`; a character that may not come next changes nothing.
    pub open spec fn pushed(self, c: char) -> NumberState {
        if !self.can_push(c) {
            self
        } else {
            match self.position {
                NumPosition::Whole => if c == '-' && self.whole.len() == 0 && self.positive {
                    NumberState { positive: false, ..self }
                } else if c == '0' && self.whole.len() == 0 {
                    NumberState {
                        whole: self.whole.push(c),
                        position: NumPosition::IntoDecimal,
                        ..self
                    }
                } else if digit(c) {
                    NumberState { whole: self.whole.push(c), ..self }
                } else if c == '.' {
                    NumberState { position: NumPosition::Decimal, ..self }
                } else {
                    NumberState { position: NumPosition::Exponent, ..self }
                },
                NumPosition::IntoDecimal => if c == '.' {
                    NumberState { position: NumPosition::Decimal, ..self }
                } else {
                    NumberState { position: NumPosition::Exponent, ..self }
                },
                NumPosition::Decimal => if digit(c) {
                    NumberState { decimal: self.decimal.push(c), ..self }
                } else {
                    NumberState { position: NumPosition::Exponent, ..self }
                },
                NumPosition::Exponent => NumberState { exponent: self.exponent.push(c), ..self },
            }
        }
    }

    /// What feeding `c` reports: a number never says that it is complete.
    pub open spec fn verdict(self, c: char) -> Result<bool, char> {
        if self.can_push(c) {
            Ok(false)
        } else {
            Err(c)
        }
    }

    /// Whether the piece that the position asks for is still empty.
    pub open spec fn lacks_piece(self) -> bool {
        ||| (self.position == NumPosition::Whole && self.whole.len() == 0)
        ||| (self.position == NumPosition::Decimal && self.decimal.len() == 0)
        ||| (self.position == NumPosition::Exponent && self.exponent.len() == 0)
    }

    /// The text of the number, unless a piece is lacking.
    pub open spec fn stringify(self) -> Option<Seq<char>> {
        if self.lacks_piece() {
            None
        } else {
            Some(assemble(!self.positive, self.whole, self.decimal, self.exponent))
        }
    }

    /// The numeral made of the pieces.
    pub open spec fn numeral(self) -> Numeral {
        Numeral {
            negative: !self.positive,
            whole: self.whole,
            decimal: self.decimal,
            exponent: self.exponent,
        }
    }

    /// The number, where no piece is lacking and the pieces are a numeral of
    /// the grammar.
    pub open spec fn json(self) -> Option<JsonModel> {
        if !self.lacks_piece() && self.numeral().wf() {
            Some(JsonModel::Number(self.numeral()))
        } else {
            None
        }
    }
}

/// The automaton for a number. A number has no last character of its own:
/// `can_push` tells whether the character that follows still belongs to it.
#[derive(PartialEq, Debug)]
pub struct NumberStack {
    position: NumPosition,
    positive: bool,
    whole: String,
    decimal: String,
    exponent: String,
}

impl View for NumberStack {
    type V = NumberState;

    closed spec fn view(&self) -> NumberState {
        NumberState {
            position: self.position,
            positive: self.positive,
            whole: self.whole@,
            decimal: self.decimal@,
            exponent: self.exponent@,
        }
    }
}

impl NumberStack {
    /// The automaton before the first character of a number.
    pub fn new() -> (s: Self)
        ensures
            s@ == NumberState::initial(),
    {
        Self {
            position: NumPosition::Whole,
            positive: true,
            whole: String::new(),
            decimal: String::new(),
            exponent: String::new(),
        }
    }

    /// Whether the piece that the position asks for is still empty.
    fn lacks_piece(&self) -> (r: bool)
        ensures
            r == self@.lacks_piece(),
    {
        match self.position {
            NumPosition::Whole => self.whole.as_str().is_empty(),
            NumPosition::Decimal => self.decimal.as_str().is_empty(),
            NumPosition::Exponent => self.exponent.as_str().is_empty(),
            NumPosition::IntoDecimal => false,
        }
    }

    /// The text of the number so far, with `e` as the exponent mark. It fails
    /// where the piece that was begun last is still empty.
    pub fn stringify(&self) -> (r: Result<String, ()>)
        ensures
            match r {
                Ok(s) => self@.stringify() == Some(s@),
                Err(_) => self@.stringify() is None,
            },
    {
        if self.lacks_piece() {
            Err(())
        } else {
            Ok(
                assemble_text(
                    !self.positive,
                    self.whole.as_str(),
                    self.decimal.as_str(),
                    self.exponent.as_str(),
                ),
            )
        }
    }

    /// Whether `c` may come next in the number.
    pub fn can_push(&self, c: char) -> (r: bool)
        ensures
            r == self@.can_push(c),
    {
        match self.position {
            NumPosition::Whole => {
                let empty = self.whole.as_str().is_empty();
                (c == '-' && empty && self.positive) || is_digit(c) || (!empty && (c == '.'
                    || is_exponent_mark(c)))
            },
            NumPosition::IntoDecimal => c == '.' || is_exponent_mark(c),
            NumPosition::Decimal => is_digit(c) || (!self.decimal.as_str().is_empty()
                && is_exponent_mark(c)),
            NumPosition::Exponent => is_digit(c) || ((c == '+' || c == '-')
                && self.exponent.as_str().is_empty()),
        }
    }
}

impl IntoJson for NumberStack {
    closed spec fn json(&self) -> Option<JsonModel> {
        self@.json()
    }

    fn into_json(self: Box<Self>) -> (r: Result<JsonValue, ()>)
        ensures
            self.json() == self@.json(),
            r matches Ok(v) ==> v.wf(),
    {
        if self.lacks_piece() {
            Err(())
        } else {
            let number = JsonNumber {
                negative: !self.positive,
                whole: self.whole,
                decimal: self.decimal,
                exponent: self.exponent,
            };
            if number.is_valid() {
                Ok(JsonValue::Number(number))
            } else {
                Err(())
            }
        }
    }
}

impl PendingStack<char> for NumberStack {
    closed spec fn verdict(&self, c: char) -> Result<bool, char> {
        self@.verdict(c)
    }

    fn push(&mut self, c: char) -> (r: Result<bool, char>)
        ensures
            final(self)@ == old(self)@.pushed(c),
            r == old(self)@.verdict(c),
    {
        if !self.can_push(c) {
            return Err(c);
        }
        match self.position {
            NumPosition::Whole => {
                let empty = self.whole.as_str().is_empty();
                if c == '-' && empty && self.positive {
                    self.positive = false;
                } else if c == '0' && empty {
                    push_char(&mut self.whole, c);
                    self.position = NumPosition::IntoDecimal;
                } else if is_digit(c) {
                    push_char(&mut self.whole, c);
                } else if c == '.' {
                    self.position = NumPosition::Decimal;
                } else {
                    self.position = NumPosition::Exponent;
                }
            },
            NumPosition::IntoDecimal => {
                if c == '.' {
                    self.position = NumPosition::Decimal;
                } else {
                    self.position = NumPosition::Exponent;
                }
            },
            NumPosition::Decimal => {
                if is_digit(c) {
                    push_char(&mut self.decimal, c);
                } else {
                    self.position = NumPosition::Exponent;
                }
            },
            NumPosition::Exponent => {
                push_char(&mut self.exponent, c);
            },
        }
        Ok(false)
    }
}

/// The state of the number automaton after it took all of `s`, or `None`
/// where it refuses one of the characters.
pub open spec fn number_after(st: NumberState, s: Seq<char>) -> Option<NumberState>
    decreases s.len(),
{
    if s.len() == 0 {
        Some(st)
    } else if st.can_push(s[0]) {
        number_after(st.pushed(s[0]), s.skip(1))
    } else {
        None
    }
}

/// Taking two texts one after the other is taking their concatenation.
pub proof fn lemma_number_after_concat(st: NumberState, a: Seq<char>, b: Seq<char>)
    ensures
        number_after(st, a + b) == match number_after(st, a) {
            Some(mid) => number_after(mid, b),
            None => None,
        },
    decreases a.len(),
{
    if a.len() == 0 {
        assert(a + b =~= b);
    } else {
        assert((a + b)[0] == a[0]);
        assert((a + b).skip(1) =~= a.skip(1) + b);
        if st.can_push(a[0]) {
            lemma_number_after_concat(st.pushed(a[0]), a.skip(1), b);
        }
    }
}

/// Taking a text and then one more character.
pub proof fn lemma_number_after_push(st: NumberState, a: Seq<char>, c: char)
    ensures
        number_after(st, a.push(c)) == match number_after(st, a) {
            Some(mid) => if mid.can_push(c) {
                Some(mid.pushed(c))
            } else {
                None
            },
            None => None,
        },
{
    reveal_with_fuel(number_after, 2);
    assert(a.push(c) =~= a + seq![c]);
    assert(seq![c].skip(1).len() == 0);
    lemma_number_after_concat(st, a, seq![c]);
}

/// The numeral that a text spells, if it spells one: the pieces that the
/// number automaton gathers from it, where it takes every character and the
/// pieces are a numeral of the grammar.
pub open spec fn numeral_of_text(s: Seq<char>) -> Option<Numeral> {
    match number_after(NumberState::initial(), s) {
        Some(st) => if !st.lacks_piece() && st.numeral().wf() {
            Some(st.numeral())
        } else {
            None
        },
        None => None,
    }
}

impl JsonNumber {
    /// Reads a number from its text. The exponent mark may be written in either
    /// case.
    pub fn from_text(text: &str) -> (r: Option<JsonNumber>)
        ensures
            match r {
                Some(n) => numeral_of_text(text@) == Some(n@) && n@.wf(),
                None => numeral_of_text(text@) is None,
            },
    {
        let mut stack = NumberStack::new();
        for c in it: text.chars()
            invariant
                it.seq() == text@,
                number_after(NumberState::initial(), text@.take(it.index() as int)) == Some(stack@),
        {
            let ghost k = it.index() as int;
            proof {
                assert(text@.take(k + 1) =~= text@.take(k).push(c));
                lemma_number_after_push(NumberState::initial(), text@.take(k), c);
            }
            if !stack.can_push(c) {
                proof {
                    assert(text@ =~= text@.take(k + 1) + text@.skip(k + 1));
                    lemma_number_after_concat(
                        NumberState::initial(),
                        text@.take(k + 1),
                        text@.skip(k + 1),
                    );
                }
                return None;
            }
            let _ = stack.push(c);
        }
        proof {
            assert(text@.take(text@.len() as int) =~= text@);
        }
        if stack.lacks_piece() {
            return None;
        }
        let number = JsonNumber {
            negative: !stack.positive,
            whole: stack.whole,
            decimal: stack.decimal,
            exponent: stack.exponent,
        };
        if number.is_valid() {
            Some(number)
        } else {
            None
        }
    }
}

} // verus!
