//! The accumulator for an object: key, colon and item, with a comma between
//! each two members.
use vstd::prelude::*;
use crate::stack::{
    at_item_start, ends_with_comma, items_wf, lemma_tokens_of_push, tokens_of, CheckedStack,
    IntoJson, ObjArrItem, ObjArrStack, Token,
};
use crate::value::{JsonModel, JsonObject, JsonValue};

verus! {

/// What an object that holds `tokens` stores when `t` is pushed, or `None`
/// where it refuses `t`. At the start and after a comma it takes a key, and a
/// string item as a key; after a key a colon; after a colon an item; after an
/// item a comma.
pub open spec fn object_admitted(tokens: Seq<Token>, t: Token) -> Option<Token> {
    if at_item_start(tokens) {
        match t {
            Token::Key(s) => Some(Token::Key(s)),
            Token::Item(JsonModel::Text(s)) => Some(Token::Key(s)),
            _ => None,
        }
    } else {
        match tokens.last() {
            Token::Item(_) => if t is Comma {
                Some(t)
            } else {
                None
            },
            Token::Colon => if t is Item {
                Some(t)
            } else {
                None
            },
            Token::Key(_) => if t is Colon {
                Some(t)
            } else {
                None
            },
            Token::Comma => None,
        }
    }
}

/// The tokens after `t` was pushed; they are unchanged where `t` is refused.
pub open spec fn object_pushed(tokens: Seq<Token>, t: Token) -> Seq<Token> {
    match object_admitted(tokens, t) {
        Some(stored) => tokens.push(stored),
        None => tokens,
    }
}

/// The member that a group of tokens spells: key, colon and item, with a comma
/// after them where the group has four tokens.
pub open spec fn group_member(g: Seq<Token>) -> Option<(Seq<char>, JsonModel)> {
    if (g.len() == 3 || (g.len() == 4 && g[3] is Comma)) && g[0] is Key && g[1] is Colon
        && g[2] is Item {
        Some((g[0]->Key_0, g[2]->Item_0))
    } else {
        None
    }
}

/// The number of tokens in the first group: four, or all where fewer are left.
pub open spec fn group_len(tokens: Seq<Token>) -> int {
    if tokens.len() < 4 {
        tokens.len() as int
    } else {
        4
    }
}

/// The members of `acc` and then those that the tokens spell, group by group,
/// a later member replacing an earlier one of the same key; `None` where some
/// group spells no member.
pub open spec fn collect_members(tokens: Seq<Token>, acc: Map<Seq<char>, JsonModel>) -> Option<
    Map<Seq<char>, JsonModel>,
>
    decreases tokens.len(),
{
    if tokens.len() == 0 {
        Some(acc)
    } else {
        match group_member(tokens.take(group_len(tokens))) {
            Some((k, v)) => collect_members(tokens.skip(group_len(tokens)), acc.insert(k, v)),
            None => None,
        }
    }
}

/// The object that the tokens make, unless a comma comes last or some group
/// spells no member.
pub open spec fn object_json(tokens: Seq<Token>) -> Option<JsonModel> {
    if ends_with_comma(tokens) {
        None
    } else {
        match collect_members(tokens, Map::empty()) {
            Some(m) => Some(JsonModel::Object(m)),
            None => None,
        }
    }
}

/// The accumulator for an object.
#[derive(PartialEq, Debug)]
pub struct ObjectStack {
    pub inner: Vec<ObjArrItem>,
}

impl View for ObjectStack {
    type V = Seq<Token>;

    open spec fn view(&self) -> Seq<Token> {
        tokens_of(self.inner@)
    }
}

impl ObjectStack {
    /// An accumulator without tokens.
    pub fn new() -> (s: Self)
        ensures
            s@ == Seq::<Token>::empty(),
            s.inner@.len() == 0,
    {
        let s = Self { inner: Vec::new() };
        proof {
            assert(s@ =~= Seq::<Token>::empty());
        }
        s
    }
}

/// Takes the first `count` elements out of `v`, or all of them where it holds
/// fewer, and hands them back in their order.
pub fn shift_multi<T>(v: &mut Vec<T>, count: usize) -> (ret: Vec<T>)
    ensures
        ret@ == old(v)@.take(
            if count <= old(v)@.len() {
                count as int
            } else {
                old(v)@.len() as int
            },
        ),
        final(v)@ == old(v)@.skip(
            if count <= old(v)@.len() {
                count as int
            } else {
                old(v)@.len() as int
            },
        ),
{
    let mut ret: Vec<T> = Vec::new();
    while v.len() > 0 && ret.len() < count
        invariant
            ret@.len() <= count,
            ret@.len() <= old(v)@.len(),
            ret@ == old(v)@.take(ret@.len() as int),
            v@ == old(v)@.skip(ret@.len() as int),
        decreases v@.len(),
    {
        let ghost before = ret@.len() as int;
        let e = v.remove(0);
        ret.push(e);
        proof {
            assert(ret@ =~= old(v)@.take(before + 1));
            assert(v@ =~= old(v)@.skip(before + 1));
        }
    }
    ret
}

impl IntoJson for ObjectStack {
    open spec fn json(&self) -> Option<JsonModel> {
        object_json(self@)
    }

    fn into_json(self: Box<Self>) -> (r: Result<JsonValue, ()>)
        ensures
            r matches Ok(v) ==> (items_wf(self.inner@) ==> v.wf()),
    {
        let mut inner = self.inner;
        let n = inner.len();
        if n > 0 {
            if let ObjArrItem::Comma = &inner[n - 1] {
                return Err(());
            }
        }
        let ghost all = inner@;
        let mut dict = JsonObject::new();
        while inner.len() > 0
            invariant
                self@ == tokens_of(all),
                self.inner@ == all,
                !ends_with_comma(tokens_of(all)),
                collect_members(tokens_of(all), Map::empty()) == collect_members(
                    tokens_of(inner@),
                    dict@,
                ),
                items_wf(all) ==> items_wf(inner@) && dict.wf(),
            decreases inner@.len(),
        {
            let ghost rest = inner@;
            let ghost g = group_len(tokens_of(rest));
            let mut s = shift_multi(&mut inner, 4);
            proof {
                assert(tokens_of(rest).take(g) =~= tokens_of(s@));
                assert(tokens_of(rest).skip(g) =~= tokens_of(inner@));
                assert forall|j: int| 0 <= j < s@.len() implies s@[j] == rest[j] by {}
                assert forall|j: int| 0 <= j < inner@.len() implies inner@[j] == rest[j + g] by {}
            }
            let ghost group = s@;
            proof {
                assert(forall|j: int| 0 <= j < group.len() ==> tokens_of(group)[j] == group[j]@);
            }
            let m = s.len();
            if m < 3 {
                return Err(());
            }
            if m == 4 {
                match s.pop() {
                    Some(ObjArrItem::Comma) => {},
                    _ => {
                        proof {
                            assert(!(tokens_of(group)[3] is Comma));
                        }
                        return Err(());
                    },
                }
            }
            let third = s.pop();
            let second = s.pop();
            let first = s.pop();
            proof {
                assert(first == Some(group[0]));
                assert(second == Some(group[1]));
                assert(third == Some(group[2]));
            }
            match (first, second, third) {
                (Some(ObjArrItem::Key(k)), Some(ObjArrItem::Colon), Some(ObjArrItem::Item(v))) => {
                    proof {
                        assert(rest[2] == ObjArrItem::Item(v));
                    }
                    dict.insert(k, v);
                },
                _ => {
                    proof {
                        assert(!(tokens_of(group)[0] is Key && tokens_of(group)[1] is Colon
                            && tokens_of(group)[2] is Item));
                    }
                    return Err(());
                },
            }
        }
        Ok(JsonValue::Object(dict))
    }
}

impl CheckedStack<ObjArrItem, ()> for ObjectStack {
    open spec fn items(&self) -> Seq<ObjArrItem> {
        self.inner@
    }

    open spec fn admitted(&self, e: ObjArrItem) -> Option<ObjArrItem> {
        match object_admitted(self@, e@) {
            Some(_) => match e {
                ObjArrItem::Item(JsonValue::Text(s)) => if at_item_start(self@) {
                    Some(ObjArrItem::Key(s))
                } else {
                    Some(e)
                },
                _ => Some(e),
            },
            None => None,
        }
    }

    fn peek(&self) -> (r: Option<&ObjArrItem>) {
        let n = self.inner.len();
        if n > 0 {
            Some(&self.inner[n - 1])
        } else {
            None
        }
    }

    fn peek_mut(&mut self) -> (r: Option<&mut ObjArrItem>) {
        self.inner.last_mut()
    }

    fn pop(&mut self) -> (r: Option<ObjArrItem>) {
        self.inner.pop()
    }

    fn push(&mut self, item: ObjArrItem) -> (r: Result<(), ()>)
        ensures
            final(self)@ == object_pushed(old(self)@, item@),
            r is Ok <==> object_admitted(old(self)@, item@) is Some,
            items_wf(old(self).inner@) && (item matches ObjArrItem::Item(v) ==> v.wf()) ==> items_wf(
                final(self).inner@,
            ),
    {
        let n = self.inner.len();
        let ghost before = self.inner@;
        if n == 0 || matches!(&self.inner[n - 1], ObjArrItem::Comma) {
            match item {
                ObjArrItem::Key(s) => {
                    proof {
                        lemma_tokens_of_push(before, ObjArrItem::Key(s));
                    }
                    self.inner.push(ObjArrItem::Key(s));
                    Ok(())
                },
                ObjArrItem::Item(JsonValue::Text(s)) => {
                    proof {
                        lemma_tokens_of_push(before, ObjArrItem::Key(s));
                    }
                    self.inner.push(ObjArrItem::Key(s));
                    Ok(())
                },
                _ => Err(()),
            }
        } else {
            let accept = match (&self.inner[n - 1], &item) {
                (ObjArrItem::Item(_), ObjArrItem::Comma) => true,
                (ObjArrItem::Colon, ObjArrItem::Item(_)) => true,
                (ObjArrItem::Key(_), ObjArrItem::Colon) => true,
                _ => false,
            };
            if accept {
                proof {
                    lemma_tokens_of_push(before, item);
                }
                self.inner.push(item);
                Ok(())
            } else {
                Err(())
            }
        }
    }

    fn len(&self) -> (n: usize) {
        self.inner.len()
    }
}

impl ObjArrStack for ObjectStack {
    open spec fn delimiter(&self, c: char) -> Option<Token> {
        if c == ',' {
            Some(Token::Comma)
        } else if c == ':' {
            Some(Token::Colon)
        } else {
            None
        }
    }

    open spec fn end_char(&self) -> char {
        '}'
    }

    open spec fn expects_key(&self) -> bool {
        at_item_start(self@)
    }

    fn get_delimiter(&self, c: char) -> (r: Option<ObjArrItem>) {
        if c == ',' {
            Some(ObjArrItem::Comma)
        } else if c == ':' {
            Some(ObjArrItem::Colon)
        } else {
            None
        }
    }

    fn is_end_char(&self, c: char) -> (b: bool) {
        c == '}'
    }

    fn next_must_be_key(&self) -> (b: bool) {
        let n = self.inner.len();
        n == 0 || matches!(&self.inner[n - 1], ObjArrItem::Comma)
    }
}

} // verus!
