//! Equality and copies of values. Two values are equal when their contents
//! are: the order in which an object holds its members does not count.
use vstd::prelude::*;
use vstd::std_specs::cmp::PartialEqSpecImpl;
use crate::number::JsonNumber;
use crate::value::{
    items_seq, lemma_items_seq, lemma_items_seq_push, lemma_members_map_dom,
    lemma_members_map_value, members_map, JsonObject, JsonValue,
};

verus! {

impl JsonNumber {
    /// Whether two numbers are written with the same pieces.
    pub fn same(&self, other: &JsonNumber) -> (r: bool)
        ensures
            r == (self@ == other@),
    {
        self.negative == other.negative && self.whole == other.whole && self.decimal
            == other.decimal && self.exponent == other.exponent
    }
}

impl Clone for JsonNumber {
    fn clone(&self) -> (r: Self)
        ensures
            r@ == self@,
    {
        JsonNumber {
            negative: self.negative,
            whole: self.whole.clone(),
            decimal: self.decimal.clone(),
            exponent: self.exponent.clone(),
        }
    }
}

impl JsonObject {
    /// Whether every key of `self` is a key of `other`.
    fn keys_in(&self, other: &JsonObject) -> (r: bool)
        ensures
            r == (forall|k: Seq<char>| #[trigger] self@.contains_key(k) ==> other@.contains_key(k)),
    {
        let mut i: usize = 0;
        while i < self.members.len()
            invariant
                i <= self.members@.len(),
                forall|t: int|
                    0 <= t < i ==> other@.contains_key((#[trigger] self.members@[t]).0@),
            decreases self.members@.len() - i,
        {
            let key = &self.members[i].0;
            match other.find(key) {
                Some(j) => {
                    proof {
                        lemma_members_map_value(other.members@, key@, j as int);
                    }
                },
                None => {
                    proof {
                        lemma_members_map_dom(other.members@, key@);
                        lemma_members_map_dom(self.members@, key@);
                        assert(self.members@[i as int].0@ == key@);
                        assert(self@.contains_key(key@) && !other@.contains_key(key@));
                    }
                    return false;
                },
            }
            i += 1;
        }
        proof {
            assert forall|k: Seq<char>| #[trigger] self@.contains_key(k) implies other@.contains_key(
                k,
            ) by {
                lemma_members_map_dom(self.members@, k);
                let t = choose|t: int| 0 <= t < self.members@.len() && (#[trigger] self.members@[t]).0@ == k;
                assert(other@.contains_key(self.members@[t].0@));
            }
        }
        true
    }

    /// Whether `other` gives every key of `self` the value that `self` gives it.
    fn included_in(&self, other: &JsonObject) -> (r: bool)
        ensures
            r == (forall|k: Seq<char>| #[trigger]
                self@.contains_key(k) ==> other@.contains_key(k) && self@[k] == other@[k]),
        decreases self, 0int,
    {
        let mut i: usize = 0;
        while i < self.members.len()
            invariant
                i <= self.members@.len(),
                forall|t: int|
                    0 <= t < i ==> other@.contains_key((#[trigger] self.members@[t]).0@)
                        && self@[self.members@[t].0@] == other@[self.members@[t].0@],
            decreases self.members@.len() - i,
        {
            let key = &self.members[i].0;
            proof {
                lemma_members_map_dom(self.members@, key@);
                assert(self.members@[i as int].0@ == key@);
            }
            let mine = match self.find(key) {
                Some(mine) => mine,
                None => {
                    return false;
                },
            };
            proof {
                lemma_members_map_value(self.members@, key@, mine as int);
            }
            match other.find(key) {
                Some(j) => {
                    proof {
                        lemma_members_map_value(other.members@, key@, j as int);
                    }
                    if !self.members[mine].1.same(&other.members[j].1) {
                        proof {
                            assert(self@.contains_key(key@) && self@[key@] != other@[key@]);
                        }
                        return false;
                    }
                },
                None => {
                    proof {
                        lemma_members_map_dom(other.members@, key@);
                        assert(self@.contains_key(key@) && !other@.contains_key(key@));
                    }
                    return false;
                },
            }
            i += 1;
        }
        proof {
            assert forall|k: Seq<char>| #[trigger] self@.contains_key(k) implies other@.contains_key(
                k,
            ) && self@[k] == other@[k] by {
                lemma_members_map_dom(self.members@, k);
                let t = choose|t: int| 0 <= t < self.members@.len() && (#[trigger] self.members@[t]).0@ == k;
                assert(other@.contains_key(self.members@[t].0@));
                assert(self@[self.members@[t].0@] == other@[self.members@[t].0@]);
            }
        }
        true
    }

    /// Whether two objects give the same keys the same values.
    pub fn same(&self, other: &JsonObject) -> (r: bool)
        ensures
            r == (self@ == other@),
        decreases self, 1int,
    {
        let r = self.included_in(other) && other.keys_in(self);
        proof {
            if r {
                assert forall|k: Seq<char>| self@.dom().contains(k) == other@.dom().contains(
                    k,
                ) by {
                    if self@.contains_key(k) {
                        assert(other@.contains_key(k));
                    }
                    if other@.contains_key(k) {
                        assert(self@.contains_key(k));
                    }
                }
                assert forall|k: Seq<char>| self@.dom().contains(k) implies self@[k]
                    == other@[k] by {
                    assert(self@.contains_key(k));
                }
                assert(self@ =~= other@);
            }
        }
        r
    }
}

impl JsonValue {
    /// Whether two values have the same content. The order in which an object
    /// holds its members does not count.
    pub fn same(&self, other: &JsonValue) -> (r: bool)
        ensures
            r == (self@ == other@),
        decreases self, 0int,
    {
        match (self, other) {
            (JsonValue::Text(a), JsonValue::Text(b)) => *a == *b,
            (JsonValue::Number(a), JsonValue::Number(b)) => a.same(b),
            (JsonValue::Boolean(a), JsonValue::Boolean(b)) => *a == *b,
            (JsonValue::Null, JsonValue::Null) => true,
            (JsonValue::Array(a), JsonValue::Array(b)) => {
                proof {
                    lemma_items_seq(a@);
                    lemma_items_seq(b@);
                }
                if a.len() != b.len() {
                    return false;
                }
                let mut i: usize = 0;
                while i < a.len()
                    invariant
                        i <= a@.len(),
                        a@.len() == b@.len(),
                        self is Array && self->Array_0 == *a,
                        other is Array && other->Array_0 == *b,
                        items_seq(a@).len() == a@.len(),
                        items_seq(b@).len() == b@.len(),
                        forall|t: int| 0 <= t < a@.len() ==> (#[trigger] items_seq(a@)[t]) == a@[t]@,
                        forall|t: int| 0 <= t < b@.len() ==> (#[trigger] items_seq(b@)[t]) == b@[t]@,
                        forall|t: int| 0 <= t < i ==> (#[trigger] a@[t])@ == b@[t]@,
                    decreases a@.len() - i,
                {
                    if !a[i].same(&b[i]) {
                        proof {
                            assert(items_seq(a@)[i as int] != items_seq(b@)[i as int]);
                        }
                        return false;
                    }
                    i += 1;
                }
                proof {
                    assert(items_seq(a@) =~= items_seq(b@));
                }
                true
            },
            (JsonValue::Object(a), JsonValue::Object(b)) => a.same(b),
            _ => false,
        }
    }
}

impl PartialEq for JsonObject {
    fn eq(&self, other: &Self) -> (r: bool) {
        self.same(other)
    }
}

impl PartialEqSpecImpl for JsonObject {
    open spec fn obeys_eq_spec() -> bool {
        true
    }

    open spec fn eq_spec(&self, other: &Self) -> bool {
        self@ == other@
    }
}

impl PartialEq for JsonValue {
    fn eq(&self, other: &Self) -> (r: bool) {
        self.same(other)
    }
}

impl PartialEqSpecImpl for JsonValue {
    open spec fn obeys_eq_spec() -> bool {
        true
    }

    open spec fn eq_spec(&self, other: &Self) -> bool {
        self@ == other@
    }
}

impl Clone for JsonObject {
    fn clone(&self) -> (r: Self)
        ensures
            r@ == self@,
            self.wf() ==> r.wf(),
        decreases self,
    {
        let mut members: Vec<(String, JsonValue)> = Vec::new();
        let mut i: usize = 0;
        while i < self.members.len()
            invariant
                i <= self.members@.len(),
                members@.len() == i,
                forall|t: int|
                    0 <= t < i ==> (#[trigger] members@[t]).0@ == self.members@[t].0@
                        && members@[t].1@ == self.members@[t].1@ && (self.members@[t].1.wf()
                        ==> members@[t].1.wf()),
                members_map(members@) == members_map(self.members@.take(i as int)),
            decreases self.members@.len() - i,
        {
            let key = self.members[i].0.clone();
            let value = self.members[i].1.clone();
            proof {
                reveal_with_fuel(members_map, 2);
                assert(self.members@.take(i + 1).drop_last() =~= self.members@.take(i as int));
                assert(members@.push((key, value)).drop_last() =~= members@);
            }
            members.push((key, value));
            i += 1;
        }
        proof {
            assert(self.members@.take(self.members@.len() as int) =~= self.members@);
        }
        JsonObject { members }
    }
}

impl Clone for JsonValue {
    fn clone(&self) -> (r: Self)
        ensures
            r@ == self@,
            self.wf() ==> r.wf(),
        decreases self,
    {
        proof {
            reveal_with_fuel(JsonValue::wf, 2);
        }
        match self {
            JsonValue::Text(s) => JsonValue::Text(s.clone()),
            JsonValue::Number(n) => JsonValue::Number(n.clone()),
            JsonValue::Boolean(b) => JsonValue::Boolean(*b),
            JsonValue::Null => JsonValue::Null,
            JsonValue::Array(a) => {
                let mut items: Vec<JsonValue> = Vec::new();
                let mut i: usize = 0;
                while i < a.len()
                    invariant
                        i <= a@.len(),
                        items@.len() == i,
                        self is Array && self->Array_0 == *a,
                        forall|t: int|
                            0 <= t < i ==> ((#[trigger] a@[t]).wf() ==> items@[t].wf()),
                        items_seq(items@) == items_seq(a@.take(i as int)),
                    decreases a@.len() - i,
                {
                    let item = a[i].clone();
                    proof {
                        lemma_items_seq_push(items@, item);
                        lemma_items_seq_push(a@.take(i as int), a@[i as int]);
                        assert(a@.take(i + 1) =~= a@.take(i as int).push(a@[i as int]));
                    }
                    items.push(item);
                    i += 1;
                }
                proof {
                    assert(a@.take(a@.len() as int) =~= a@);
                    if self.wf() {
                        assert forall|t: int| 0 <= t < items@.len() implies (#[trigger] items@[t]).wf() by {
                            assert(a@[t].wf());
                        }
                    }
                }
                JsonValue::Array(items)
            },
            JsonValue::Object(o) => JsonValue::Object(o.clone()),
        }
    }
}

} // verus!
