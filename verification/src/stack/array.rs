//! The accumulator for an array: items with a comma between each two.
use vstd::prelude::*;
use crate::stack::{
    at_item_start, ends_with_comma, items_wf, lemma_tokens_of_push, token_items, tokens_of,
    CheckedStack, IntoJson, ObjArrItem, ObjArrStack, Token,
};
use crate::value::{items_seq, lemma_items_seq_push, JsonModel, JsonValue};

verus! {

/// Whether an array that holds `tokens` takes `t` next: an item at the start
/// and after a comma, a comma after an item.
pub open spec fn array_admits(tokens: Seq<Token>, t: Token) -> bool {
    if at_item_start(tokens) {
        t is Item
    } else {
        tokens.last() is Item && t is Comma
    }
}

/// The tokens after `t` was pushed; they are unchanged where `t` is refused.
pub open spec fn array_pushed(tokens: Seq<Token>, t: Token) -> Seq<Token> {
    if array_admits(tokens, t) {
        tokens.push(t)
    } else {
        tokens
    }
}

/// The array that the tokens make: their items in order, unless a comma
/// comes last.
pub open spec fn array_json(tokens: Seq<Token>) -> Option<JsonModel> {
    if ends_with_comma(tokens) {
        None
    } else {
        Some(JsonModel::Array(token_items(tokens)))
    }
}

/// The accumulator for an array.
#[derive(PartialEq, Debug)]
pub struct ArrayStack {
    pub inner: Vec<ObjArrItem>,
}

impl View for ArrayStack {
    type V = Seq<Token>;

    open spec fn view(&self) -> Seq<Token> {
        tokens_of(self.inner@)
    }
}

impl ArrayStack {
    /// An accumulator without tokens.
    pub fn new() -> (s: Self)
        ensures
            s@ == Seq::<Token>::empty(),
            s.inner@.len() == 0,
    {
        let s = Self { inner: Vec::new() };
        proof {
            assert(s@ =~= Seq::<Token>::empty());
        }
        s
    }
}

impl IntoJson for ArrayStack {
    open spec fn json(&self) -> Option<JsonModel> {
        array_json(self@)
    }

    fn into_json(self: Box<Self>) -> (r: Result<JsonValue, ()>)
        ensures
            r matches Ok(v) ==> (items_wf(self.inner@) ==> v.wf()),
    {
        let tokens = self.inner;
        let n = tokens.len();
        if n > 0 {
            if let ObjArrItem::Comma = &tokens[n - 1] {
                return Err(());
            }
        }
        let ghost all = tokens@;
        let mut items: Vec<JsonValue> = Vec::new();
        for t in it: tokens
            invariant
                it.seq() == all,
                items_seq(items@) == token_items(tokens_of(all.take(it.index() as int))),
                items_wf(all) ==> forall|j: int| 0 <= j < items@.len() ==> (#[trigger] items@[j]).wf(),
        {
            let ghost k = it.index() as int;
            proof {
                assert(all.take(k + 1) =~= all.take(k).push(all[k]));
                lemma_tokens_of_push(all.take(k), all[k]);
                assert(tokens_of(all.take(k + 1)).drop_last() =~= tokens_of(all.take(k)));
            }
            match t {
                ObjArrItem::Item(i) => {
                    proof {
                        lemma_items_seq_push(items@, i);
                    }
                    items.push(i);
                },
                _ => {},
            }
        }
        proof {
            assert(all.take(all.len() as int) =~= all);
        }
        Ok(JsonValue::Array(items))
    }
}

impl CheckedStack<ObjArrItem, ()> for ArrayStack {
    open spec fn items(&self) -> Seq<ObjArrItem> {
        self.inner@
    }

    open spec fn admitted(&self, e: ObjArrItem) -> Option<ObjArrItem> {
        if array_admits(self@, e@) {
            Some(e)
        } else {
            None
        }
    }

    fn peek(&self) -> (r: Option<&ObjArrItem>) {
        let n = self.inner.len();
        if n > 0 {
            Some(&self.inner[n - 1])
        } else {
            None
        }
    }

    fn peek_mut(&mut self) -> (r: Option<&mut ObjArrItem>) {
        self.inner.last_mut()
    }

    fn pop(&mut self) -> (r: Option<ObjArrItem>) {
        self.inner.pop()
    }

    fn push(&mut self, item: ObjArrItem) -> (r: Result<(), ()>)
        ensures
            final(self)@ == array_pushed(old(self)@, item@),
            r is Ok <==> array_admits(old(self)@, item@),
    {
        let n = self.inner.len();
        let start = if n == 0 {
            true
        } else {
            match &self.inner[n - 1] {
                ObjArrItem::Comma => true,
                _ => false,
            }
        };
        let after_item = if n == 0 {
            false
        } else {
            match &self.inner[n - 1] {
                ObjArrItem::Item(_) => true,
                _ => false,
            }
        };
        let accept = match &item {
            ObjArrItem::Item(_) => start,
            ObjArrItem::Comma => after_item,
            _ => false,
        };
        if accept {
            proof {
                lemma_tokens_of_push(self.inner@, item);
            }
            self.inner.push(item);
            Ok(())
        } else {
            Err(())
        }
    }

    fn len(&self) -> (n: usize) {
        self.inner.len()
    }
}

impl ObjArrStack for ArrayStack {
    open spec fn delimiter(&self, c: char) -> Option<Token> {
        if c == ',' {
            Some(Token::Comma)
        } else {
            None
        }
    }

    open spec fn end_char(&self) -> char {
        ']'
    }

    open spec fn expects_key(&self) -> bool {
        false
    }

    fn get_delimiter(&self, c: char) -> (r: Option<ObjArrItem>) {
        if c == ',' {
            Some(ObjArrItem::Comma)
        } else {
            None
        }
    }

    fn is_end_char(&self, c: char) -> (b: bool) {
        c == ']'
    }

    fn next_must_be_key(&self) -> (b: bool) {
        false
    }
}

} // verus!
