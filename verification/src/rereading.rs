//! How the reader goes through a text piece by piece: through what a scalar
//! automaton takes without ending, and through what a container buffers.
use vstd::prelude::*;
use crate::chars::{blank, control, hex_digit_char, hex_value, whitespace};
use crate::passage::{lemma_hex_digit_char, pass_all, passes};
use crate::parser::{feed_container, own_delimiter, own_end, peek, run, step, ReaderState};
use crate::serialize::{escaped_body, escaped_char};
use crate::stack::pending::{EscapeKind, EscapeState, TextState};
use crate::stack::{ContainerModel, CounterState, PendingModel, ScalarModel};

verus! {

/// The state of a scalar automaton after it took all of `seg` without
/// completing, or `None` where it refuses a character or completes before
/// the end.
pub open spec fn scalar_after(s: ScalarModel, seg: Seq<char>) -> Option<ScalarModel>
    decreases seg.len(),
{
    if seg.len() == 0 {
        Some(s)
    } else if s.verdict(seg[0]) == Ok::<bool, char>(false) {
        scalar_after(s.pushed(seg[0]), seg.skip(1))
    } else {
        None
    }
}

/// Taking two texts one after the other is taking their concatenation.
pub proof fn lemma_scalar_after_concat(s: ScalarModel, a: Seq<char>, b: Seq<char>)
    ensures
        scalar_after(s, a + b) == match scalar_after(s, a) {
            Some(mid) => scalar_after(mid, b),
            None => None,
        },
    decreases a.len(),
{
    if a.len() == 0 {
        assert(a + b =~= b);
    } else {
        assert((a + b)[0] == a[0]);
        assert((a + b).skip(1) =~= a.skip(1) + b);
        if s.verdict(a[0]) == Ok::<bool, char>(false) {
            lemma_scalar_after_concat(s.pushed(a[0]), a.skip(1), b);
        }
    }
}

/// Taking a single character.
pub proof fn lemma_scalar_after_one(s: ScalarModel, c: char)
    ensures
        scalar_after(s, seq![c]) == if s.verdict(c) == Ok::<bool, char>(false) {
            Some(s.pushed(c))
        } else {
            None
        },
{
    reveal_with_fuel(scalar_after, 2);
    assert(seq![c].skip(1).len() == 0);
}

/// A character that a string can hold and that is read back as it was
/// written: any but the delete character and the C1 control characters.
pub open spec fn plain_char(c: char) -> bool {
    !(0x7F <= c as u32 <= 0x9F)
}

/// Whether every character of `s` is read back as it was written.
pub open spec fn plain_text(s: Seq<char>) -> bool {
    forall|i: int| 0 <= i < s.len() ==> plain_char(#[trigger] s[i])
}

/// The string automaton between two characters of a string that holds
/// `inner` so far.
pub open spec fn open_text(inner: Seq<char>) -> ScalarModel {
    ScalarModel::Text(TextState { inner, completed: false, escape: None })
}

/// The string automaton inside an escape sequence.
pub open spec fn escaping(inner: Seq<char>, kind: Option<EscapeKind>) -> ScalarModel {
    ScalarModel::Text(
        TextState { inner, completed: false, escape: Some(EscapeState { inner: kind }) },
    )
}

/// The string automaton reads the written form of a character as that
/// character.
pub proof fn lemma_text_escaped_char(inner: Seq<char>, c: char)
    requires
        plain_char(c),
    ensures
        scalar_after(open_text(inner), escaped_char(c)) == Some(open_text(inner.push(c))),
{
    let e = escaped_char(c);
    let t0 = open_text(inner);
    if e.len() == 1 {
        assert(e =~= seq![c]);
        lemma_scalar_after_one(t0, c);
    } else if e.len() == 2 {
        assert(e =~= seq!['\\'] + seq![e[1]]);
        lemma_scalar_after_concat(t0, seq!['\\'], seq![e[1]]);
        lemma_scalar_after_one(t0, '\\');
        lemma_scalar_after_one(escaping(inner, None), e[1]);
    } else {
        let n = c as nat;
        assert(n < 0x20);
        let z = hex_digit_char(0);
        let d1 = hex_digit_char(n / 0x10 % 16);
        let d0 = hex_digit_char(n % 16);
        lemma_hex_digit_char(0);
        lemma_hex_digit_char(n / 0x10 % 16);
        lemma_hex_digit_char(n % 16);
        assert(n / 0x1000 % 16 == 0 && n / 0x100 % 16 == 0);
        assert(e =~= seq!['\\'] + seq!['u'] + seq![z] + seq![z] + seq![d1] + seq![d0]);
        let u0 = escaping(inner, Some(EscapeKind::Unicode(Seq::empty())));
        let u1 = escaping(inner, Some(EscapeKind::Unicode(seq![z])));
        let u2 = escaping(inner, Some(EscapeKind::Unicode(seq![z, z])));
        let u3 = escaping(inner, Some(EscapeKind::Unicode(seq![z, z, d1])));
        let digits = seq![z, z, d1, d0];
        lemma_scalar_after_one(t0, '\\');
        lemma_scalar_after_one(escaping(inner, None), 'u');
        lemma_scalar_after_one(u0, z);
        assert(Seq::<char>::empty().push(z) =~= seq![z]);
        lemma_scalar_after_one(u1, z);
        assert(seq![z].push(z) =~= seq![z, z]);
        lemma_scalar_after_one(u2, d1);
        assert(seq![z, z].push(d1) =~= seq![z, z, d1]);
        assert(seq![z, z, d1].push(d0) =~= digits);
        assert(hex_value(digits) == n) by {
            reveal_with_fuel(hex_value, 5);
            assert(digits.drop_last() =~= seq![z, z, d1]);
            assert(digits.drop_last().drop_last() =~= seq![z, z]);
            assert(digits.drop_last().drop_last().drop_last() =~= seq![z]);
            assert(digits.drop_last().drop_last().drop_last().drop_last().len() == 0);
        }
        assert(crate::chars::all_hex(digits));
        assert(hex_value(digits) as char == c);
        lemma_scalar_after_one(u3, d0);
        lemma_scalar_after_concat(t0, seq!['\\'], seq!['u']);
        lemma_scalar_after_concat(t0, seq!['\\'] + seq!['u'], seq![z]);
        lemma_scalar_after_concat(t0, seq!['\\'] + seq!['u'] + seq![z], seq![z]);
        lemma_scalar_after_concat(t0, seq!['\\'] + seq!['u'] + seq![z] + seq![z], seq![d1]);
        lemma_scalar_after_concat(
            t0,
            seq!['\\'] + seq!['u'] + seq![z] + seq![z] + seq![d1],
            seq![d0],
        );
    }
}

/// The string automaton reads the written form of a string's characters as
/// those characters.
pub proof fn lemma_text_escaped_body(inner: Seq<char>, s: Seq<char>)
    requires
        plain_text(s),
    ensures
        scalar_after(open_text(inner), escaped_body(s)) == Some(open_text(inner + s)),
    decreases s.len(),
{
    if s.len() == 0 {
        assert(inner + s =~= inner);
    } else {
        assert forall|i: int| 0 <= i < s.drop_last().len() implies plain_char(
            #[trigger] s.drop_last()[i],
        ) by {
            assert(s.drop_last()[i] == s[i]);
        }
        lemma_text_escaped_body(inner, s.drop_last());
        assert(plain_char(s[s.len() - 1]));
        lemma_text_escaped_char(inner + s.drop_last(), s.last());
        lemma_scalar_after_concat(
            open_text(inner),
            escaped_body(s.drop_last()),
            escaped_char(s.last()),
        );
        assert((inner + s.drop_last()).push(s.last()) =~= inner + s);
    }
}

/// The reader goes through what a scalar automaton takes without completing.
pub proof fn lemma_scalar_run(
    chars: Seq<char>,
    i: int,
    base: int,
    st: ReaderState,
    s: ScalarModel,
    seg: Seq<char>,
)
    requires
        0 <= i,
        i + seg.len() <= chars.len(),
        chars.subrange(i, i + seg.len()) == seg,
        st.processing == Some(PendingModel::Simple(s)),
        st.content.len() < chars.len(),
        pass_all(0, st.counter, seg) is Some,
        scalar_after(s, seg) is Some,
    ensures
        run(chars, i, base, st) == run(
            chars,
            i + seg.len(),
            base,
            ReaderState {
                processing: Some(PendingModel::Simple(scalar_after(s, seg)->0)),
                counter: pass_all(0, st.counter, seg)->0,
                ..st
            },
        ),
    decreases seg.len(),
{
    if seg.len() > 0 {
        reveal_with_fuel(run, 2);
        reveal_with_fuel(step, 2);
        let c = seg[0];
        assert(chars[i] == chars.subrange(i, i + seg.len())[0]);
        let next = ReaderState {
            processing: Some(PendingModel::Simple(s.pushed(c))),
            counter: st.counter.fed(c),
            ..st
        };
        assert(step(st, c, peek(chars, i), base + i) == Ok::<ReaderState, crate::error::JsonError>(
            next,
        ));
        assert(chars.subrange(i + 1, i + 1 + seg.skip(1).len()) =~= seg.skip(1));
        lemma_scalar_run(chars, i + 1, base, next, s.pushed(c), seg.skip(1));
    }
}

/// Whether a reader takes all of `seg` into its buffer where, if `quote`
/// holds, the first character that is no whitespace has to be a quote.
pub open spec fn quote_ok(quote: bool, seg: Seq<char>) -> bool
    decreases seg.len(),
{
    seg.len() == 0 || (!(quote && !whitespace(seg[0]) && seg[0] != '"') && quote_ok(
        quote && whitespace(seg[0]),
        seg.skip(1),
    ))
}

/// Whether a quote is still wanted after `seg`: it was wanted before, and
/// `seg` holds nothing but whitespace.
pub open spec fn quote_after(quote: bool, seg: Seq<char>) -> bool {
    quote && blank(seg)
}

/// Whether a reader in state `st` inside container `k` wants a quote as the
/// next character that is no whitespace.
pub open spec fn wants_quote(st: ReaderState, k: ContainerModel) -> bool {
    if st.error_ind is None {
        k.expects_key()
    } else {
        st.next_must_be_quote
    }
}

/// Where no quote is wanted, any text is taken.
pub proof fn lemma_quote_free(seg: Seq<char>)
    ensures
        quote_ok(false, seg),
    decreases seg.len(),
{
    if seg.len() > 0 {
        lemma_quote_free(seg.skip(1));
    }
}

/// Where a quote is wanted, a text is taken that begins with a quote after
/// whitespace.
pub proof fn lemma_quote_found(pad: Seq<char>, rest: Seq<char>)
    requires
        blank(pad),
        rest.len() > 0,
        rest[0] == '"',
    ensures
        quote_ok(true, pad + rest),
    decreases pad.len(),
{
    let seg = pad + rest;
    if pad.len() == 0 {
        assert(seg[0] == '"');
        assert(!whitespace('"'));
        lemma_quote_free(seg.skip(1));
    } else {
        assert(seg[0] == pad[0]);
        assert(whitespace(pad[0]));
        assert forall|i: int| 0 <= i < pad.skip(1).len() implies whitespace(
            #[trigger] pad.skip(1)[i],
        ) by {
            assert(pad.skip(1)[i] == pad[i + 1]);
        }
        assert(seg.skip(1) =~= pad.skip(1) + rest);
        lemma_quote_found(pad.skip(1), rest);
    }
}

/// Where a quote is wanted, whitespace is taken.
pub proof fn lemma_quote_blank(quote: bool, pad: Seq<char>)
    requires
        blank(pad),
    ensures
        quote_ok(quote, pad),
    decreases pad.len(),
{
    if pad.len() > 0 {
        assert(whitespace(pad[0]));
        assert forall|i: int| 0 <= i < pad.skip(1).len() implies whitespace(
            #[trigger] pad.skip(1)[i],
        ) by {
            assert(pad.skip(1)[i] == pad[i + 1]);
        }
        lemma_quote_blank(quote, pad.skip(1));
    }
}

/// The state of a reader inside container `k` after it buffered a text that
/// began at offset `at` and left the tracker in state `counter`.
pub open spec fn after_buffering(
    st: ReaderState,
    k: ContainerModel,
    seg: Seq<char>,
    at: int,
    counter: CounterState,
) -> ReaderState {
    ReaderState {
        content: st.content + seg,
        error_ind: if st.error_ind is None {
            Some(at)
        } else {
            st.error_ind
        },
        next_must_be_quote: quote_after(wants_quote(st, k), seg),
        counter,
        ..st
    }
}

/// Inside a container the reader buffers a text that passes the tracker.
pub proof fn lemma_buffer(
    chars: Seq<char>,
    i: int,
    base: int,
    st: ReaderState,
    k: ContainerModel,
    seg: Seq<char>,
)
    requires
        0 <= i,
        i + seg.len() <= chars.len(),
        chars.subrange(i, i + seg.len()) == seg,
        seg.len() > 0,
        st.processing == Some(PendingModel::ObjArr(k)),
        st.content.len() + seg.len() < chars.len(),
        pass_all(1, st.counter, seg) is Some,
        quote_ok(wants_quote(st, k), seg),
    ensures
        run(chars, i, base, st) == run(
            chars,
            i + seg.len(),
            base,
            after_buffering(st, k, seg, base + i, pass_all(1, st.counter, seg)->0),
        ),
    decreases seg.len(),
{
    reveal_with_fuel(run, 2);
    reveal_with_fuel(step, 2);
    reveal_with_fuel(feed_container, 2);
    let c = seg[0];
    assert(chars[i] == chars.subrange(i, i + seg.len())[0]);
    assert(passes(1, st.counter, c));
    let fed = ReaderState { counter: st.counter.fed(c), ..st };
    assert(!own_delimiter(k, fed.counter, c));
    assert(!own_end(k, fed.counter, c));
    let next = after_buffering(st, k, seq![c], base + i, st.counter.fed(c));
    assert(st.content + seq![c] =~= st.content.push(c));
    assert(blank(seq![c]) == whitespace(c)) by {
        assert(seq![c][0] == c);
    }
    assert(step(st, c, peek(chars, i), base + i) == Ok::<ReaderState, crate::error::JsonError>(
        next,
    ));
    if seg.len() == 1 {
        assert(seg =~= seq![c]);
        assert(seg.skip(1).len() == 0);
        assert(pass_all(1, st.counter, seg) == Some(st.counter.fed(c))) by {
            reveal_with_fuel(pass_all, 2);
        }
    } else {
        let rest = seg.skip(1);
        assert(chars.subrange(i + 1, i + 1 + rest.len()) =~= rest);
        assert(wants_quote(next, k) == (wants_quote(st, k) && whitespace(c)));
        lemma_buffer(chars, i + 1, base, next, k, rest);
        assert(next.content + rest =~= st.content + seg);
        assert(blank(seg) == (whitespace(c) && blank(rest))) by {
            if blank(seg) {
                assert(whitespace(seg[0]));
                assert forall|t: int| 0 <= t < rest.len() implies whitespace(#[trigger] rest[t]) by {
                    assert(rest[t] == seg[t + 1]);
                }
            }
            if whitespace(c) && blank(rest) {
                assert forall|t: int| 0 <= t < seg.len() implies whitespace(#[trigger] seg[t]) by {
                    if t > 0 {
                        assert(seg[t] == rest[t - 1]);
                    }
                }
            }
        }
        let last = pass_all(1, st.counter, seg)->0;
        assert(pass_all(1, next.counter, rest) == Some(last));
        assert(after_buffering(next, k, rest, base + i + 1, last) == after_buffering(
            st,
            k,
            seg,
            base + i,
            last,
        ));
    }
}

} // verus!
