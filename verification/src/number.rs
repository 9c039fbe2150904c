//! Numbers as decimal numerals: the digits as they were written, without
//! rounding. Turning a numeral into a machine number is left to the caller.
use vstd::prelude::*;
use crate::chars::{all_digits, digit, is_digit};
use crate::strings::{push_char, push_chars, to_chars};

verus! {

/// The mathematical content of a number: its sign and the three digit groups.
pub struct Numeral {
    /// Whether a minus sign leads.
    pub negative: bool,
    /// The digits before the point.
    pub whole: Seq<char>,
    /// The digits after the point; empty where there is no point.
    pub decimal: Seq<char>,
    /// The exponent with its optional sign; empty where there is none.
    pub exponent: Seq<char>,
}

/// Whether `c` is a plus or minus sign.
pub open spec fn sign(c: char) -> bool {
    c == '+' || c == '-'
}

/// The digits of an exponent, without the sign that may lead them.
pub open spec fn exponent_digits(e: Seq<char>) -> Seq<char> {
    if e.len() > 0 && sign(e[0]) {
        e.skip(1)
    } else {
        e
    }
}

/// The text of a number assembled from its pieces: an optional minus sign, the
/// whole part, then the point and the exponent mark each with what follows it
/// where that is not empty.
pub open spec fn assemble(
    negative: bool,
    whole: Seq<char>,
    decimal: Seq<char>,
    exponent: Seq<char>,
) -> Seq<char> {
    (if negative { seq!['-'] } else { Seq::<char>::empty() }) + whole
        + (if decimal.len() > 0 { seq!['.'] + decimal } else { Seq::<char>::empty() })
        + (if exponent.len() > 0 { seq!['e'] + exponent } else { Seq::<char>::empty() })
}

impl Numeral {
    /// The grammar of a number: a single `0` or a digit string that does not
    /// start with `0`; digits after the point; and an exponent that is absent or
    /// holds at least one digit after its optional sign.
    pub open spec fn wf(self) -> bool {
        &&& self.whole.len() > 0
        &&& all_digits(self.whole)
        &&& (self.whole.len() == 1 || self.whole[0] != '0')
        &&& all_digits(self.decimal)
        &&& (self.exponent.len() == 0 || exponent_digits(self.exponent).len() > 0)
        &&& all_digits(exponent_digits(self.exponent))
    }

    /// The numeral as text.
    pub open spec fn text(self) -> Seq<char> {
        assemble(self.negative, self.whole, self.decimal, self.exponent)
    }
}

/// A number, held as the pieces of its decimal numeral. Two numbers are equal
/// when they are written with the same digits: `1` and `1.0` are two numerals.
#[derive(Debug, PartialEq)]
pub struct JsonNumber {
    /// Whether a minus sign leads.
    pub negative: bool,
    /// The digits before the point.
    pub whole: String,
    /// The digits after the point; empty where there is no point.
    pub decimal: String,
    /// The exponent with its optional sign; empty where there is none.
    pub exponent: String,
}

impl View for JsonNumber {
    type V = Numeral;

    open spec fn view(&self) -> Numeral {
        Numeral {
            negative: self.negative,
            whole: self.whole@,
            decimal: self.decimal@,
            exponent: self.exponent@,
        }
    }
}

/// Writes a number's text from its pieces.
pub fn assemble_text(negative: bool, whole: &str, decimal: &str, exponent: &str) -> (s: String)
    ensures
        s@ == assemble(negative, whole@, decimal@, exponent@),
{
    let mut s = String::new();
    if negative {
        push_char(&mut s, '-');
    }
    push_chars(&mut s, whole);
    if !decimal.is_empty() {
        push_char(&mut s, '.');
        push_chars(&mut s, decimal);
    }
    if !exponent.is_empty() {
        push_char(&mut s, 'e');
        push_chars(&mut s, exponent);
    }
    proof {
        assert(s@ =~= assemble(negative, whole@, decimal@, exponent@));
    }
    s
}

/// Whether a text is made of decimal digits alone.
pub fn only_digits(s: &Vec<char>, from: usize) -> (r: bool)
    requires
        from <= s.len(),
    ensures
        r == all_digits(s@.skip(from as int)),
{
    let mut i: usize = from;
    while i < s.len()
        invariant
            from <= i <= s.len(),
            forall|j: int| from <= j < i ==> digit(#[trigger] s@[j]),
        decreases s.len() - i,
    {
        if !is_digit(s[i]) {
            proof {
                assert(s@.skip(from as int)[i - from] == s@[i as int]);
            }
            return false;
        }
        i += 1;
    }
    proof {
        assert forall|j: int| 0 <= j < s@.skip(from as int).len() implies digit(
            #[trigger] s@.skip(from as int)[j],
        ) by {
            assert(s@.skip(from as int)[j] == s@[j + from]);
        }
    }
    true
}

impl JsonNumber {
    /// Whether the pieces are a numeral of the grammar.
    pub fn is_valid(&self) -> (r: bool)
        ensures
            r == self@.wf(),
    {
        let whole = to_chars(self.whole.as_str());
        let decimal = to_chars(self.decimal.as_str());
        let exponent = to_chars(self.exponent.as_str());
        proof {
            assert(whole@.skip(0) =~= whole@);
            assert(decimal@.skip(0) =~= decimal@);
            assert(exponent@.skip(0) =~= exponent@);
        }
        if whole.len() == 0 || !only_digits(&whole, 0) {
            return false;
        }
        if whole.len() != 1 && whole[0] == '0' {
            return false;
        }
        if !only_digits(&decimal, 0) {
            return false;
        }
        if exponent.len() == 0 {
            return true;
        }
        let start: usize = if exponent[0] == '+' || exponent[0] == '-' {
            1
        } else {
            0
        };
        start < exponent.len() && only_digits(&exponent, start)
    }

    /// The numeral as text, as it is written in a document.
    pub fn to_string(&self) -> (s: String)
        ensures
            s@ == self@.text(),
    {
        assemble_text(
            self.negative,
            self.whole.as_str(),
            self.decimal.as_str(),
            self.exponent.as_str(),
        )
    }
}

} // verus!
