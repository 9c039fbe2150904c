//! The number automaton reads the text of every numeral of the grammar and
//! gathers the numeral's own pieces from it.
use vstd::prelude::*;
use crate::chars::{all_digits, digit};
use crate::number::{exponent_digits, sign, Numeral};
use crate::stack::pending::{
    lemma_number_after_concat, number_after, NumPosition, NumberState,
};

verus! {

/// Taking a single character.
pub proof fn lemma_number_after_one(st: NumberState, c: char)
    ensures
        number_after(st, seq![c]) == if st.can_push(c) {
            Some(st.pushed(c))
        } else {
            None
        },
{
    reveal_with_fuel(number_after, 2);
    assert(seq![c].skip(1).len() == 0);
}

/// Digits after a first digit that is not `0` go to the whole part.
pub proof fn lemma_whole_digits(st: NumberState, ds: Seq<char>)
    requires
        st.position == NumPosition::Whole,
        st.whole.len() > 0,
        all_digits(ds),
    ensures
        number_after(st, ds) == Some(NumberState { whole: st.whole + ds, ..st }),
    decreases ds.len(),
{
    if ds.len() == 0 {
        assert(st.whole + ds =~= st.whole);
    } else {
        assert(digit(ds[0]));
        let next = st.pushed(ds[0]);
        assert forall|i: int| 0 <= i < ds.skip(1).len() implies digit(#[trigger] ds.skip(1)[i]) by {
            assert(ds.skip(1)[i] == ds[i + 1]);
        }
        lemma_whole_digits(next, ds.skip(1));
        assert(next.whole + ds.skip(1) =~= st.whole + ds);
    }
}

/// Digits after the point go to the decimal part.
pub proof fn lemma_decimal_digits(st: NumberState, ds: Seq<char>)
    requires
        st.position == NumPosition::Decimal,
        all_digits(ds),
    ensures
        number_after(st, ds) == Some(NumberState { decimal: st.decimal + ds, ..st }),
    decreases ds.len(),
{
    if ds.len() == 0 {
        assert(st.decimal + ds =~= st.decimal);
    } else {
        assert(digit(ds[0]));
        let next = st.pushed(ds[0]);
        assert forall|i: int| 0 <= i < ds.skip(1).len() implies digit(#[trigger] ds.skip(1)[i]) by {
            assert(ds.skip(1)[i] == ds[i + 1]);
        }
        lemma_decimal_digits(next, ds.skip(1));
        assert(next.decimal + ds.skip(1) =~= st.decimal + ds);
    }
}

/// Digits after the exponent mark go to the exponent.
pub proof fn lemma_exponent_digits(st: NumberState, ds: Seq<char>)
    requires
        st.position == NumPosition::Exponent,
        all_digits(ds),
    ensures
        number_after(st, ds) == Some(NumberState { exponent: st.exponent + ds, ..st }),
    decreases ds.len(),
{
    if ds.len() == 0 {
        assert(st.exponent + ds =~= st.exponent);
    } else {
        assert(digit(ds[0]));
        let next = st.pushed(ds[0]);
        assert forall|i: int| 0 <= i < ds.skip(1).len() implies digit(#[trigger] ds.skip(1)[i]) by {
            assert(ds.skip(1)[i] == ds[i + 1]);
        }
        lemma_exponent_digits(next, ds.skip(1));
        assert(next.exponent + ds.skip(1) =~= st.exponent + ds);
    }
}

/// Where the automaton stands after the text of a numeral.
pub open spec fn end_position(n: Numeral) -> NumPosition {
    if n.exponent.len() > 0 {
        NumPosition::Exponent
    } else if n.decimal.len() > 0 {
        NumPosition::Decimal
    } else if n.whole == seq!['0'] {
        NumPosition::IntoDecimal
    } else {
        NumPosition::Whole
    }
}

/// The state of the automaton after the text of a numeral.
pub open spec fn end_state(n: Numeral) -> NumberState {
    NumberState {
        position: end_position(n),
        positive: !n.negative,
        whole: n.whole,
        decimal: n.decimal,
        exponent: n.exponent,
    }
}

/// The automaton takes the text of a numeral of the grammar to its end and
/// then holds the numeral's pieces.
pub proof fn lemma_number_after_text(n: Numeral)
    requires
        n.wf(),
    ensures
        number_after(NumberState::initial(), n.text()) == Some(end_state(n)),
        !end_state(n).lacks_piece(),
        end_state(n).numeral() == n,
        end_state(n).json() == Some(crate::value::JsonModel::Number(n)),
{
    let s0 = NumberState::initial();
    let head = if n.negative {
        seq!['-']
    } else {
        Seq::<char>::empty()
    };
    let mid = if n.decimal.len() > 0 {
        seq!['.'] + n.decimal
    } else {
        Seq::<char>::empty()
    };
    let tail = if n.exponent.len() > 0 {
        seq!['e'] + n.exponent
    } else {
        Seq::<char>::empty()
    };
    // the sign
    let s1 = NumberState { positive: !n.negative, ..s0 };
    if n.negative {
        lemma_number_after_one(s0, '-');
    }
    assert(number_after(s0, head) == Some(s1));
    // the whole part
    let w = n.whole;
    assert(digit(w[0]));
    let s2 = NumberState {
        whole: w,
        position: if w == seq!['0'] {
            NumPosition::IntoDecimal
        } else {
            NumPosition::Whole
        },
        ..s1
    };
    assert(w =~= seq![w[0]] + w.skip(1));
    lemma_number_after_concat(s1, seq![w[0]], w.skip(1));
    lemma_number_after_one(s1, w[0]);
    if w[0] == '0' {
        assert(w.len() == 1);
        assert(w =~= seq!['0']);
        assert(s1.pushed(w[0]).whole =~= w);
    } else {
        assert(w != seq!['0']);
        let first = s1.pushed(w[0]);
        assert(first.whole =~= seq![w[0]]);
        assert forall|i: int| 0 <= i < w.skip(1).len() implies digit(#[trigger] w.skip(1)[i]) by {
            assert(w.skip(1)[i] == w[i + 1]);
        }
        lemma_whole_digits(first, w.skip(1));
    }
    assert(number_after(s1, w) == Some(s2));
    // the decimal part
    let s3 = if n.decimal.len() > 0 {
        NumberState { decimal: n.decimal, position: NumPosition::Decimal, ..s2 }
    } else {
        s2
    };
    if n.decimal.len() > 0 {
        lemma_number_after_concat(s2, seq!['.'], n.decimal);
        lemma_number_after_one(s2, '.');
        lemma_decimal_digits(s2.pushed('.'), n.decimal);
        assert(s2.pushed('.').decimal + n.decimal =~= n.decimal);
    }
    assert(number_after(s2, mid) == Some(s3));
    // the exponent
    let s4 = if n.exponent.len() > 0 {
        NumberState { exponent: n.exponent, position: NumPosition::Exponent, ..s3 }
    } else {
        s3
    };
    if n.exponent.len() > 0 {
        let e = n.exponent;
        lemma_number_after_concat(s3, seq!['e'], e);
        lemma_number_after_one(s3, 'e');
        let marked = s3.pushed('e');
        assert(marked.position == NumPosition::Exponent);
        if sign(e[0]) {
            assert(e =~= seq![e[0]] + e.skip(1));
            lemma_number_after_concat(marked, seq![e[0]], e.skip(1));
            lemma_number_after_one(marked, e[0]);
            let signed = marked.pushed(e[0]);
            assert(exponent_digits(e) == e.skip(1));
            lemma_exponent_digits(signed, e.skip(1));
            assert(signed.exponent + e.skip(1) =~= e);
        } else {
            assert(exponent_digits(e) == e);
            lemma_exponent_digits(marked, e);
            assert(marked.exponent + e =~= e);
        }
    }
    assert(number_after(s3, tail) == Some(s4));
    lemma_number_after_concat(s0, head, w);
    lemma_number_after_concat(s0, head + w, mid);
    lemma_number_after_concat(s0, head + w + mid, tail);
    assert(s4 == end_state(n));
}

} // verus!
