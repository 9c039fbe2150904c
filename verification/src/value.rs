//! The tree of values and its mathematical model.
use vstd::prelude::*;
use crate::chars::{all_digits, digit_char, digit_value};
use crate::number::{JsonNumber, Numeral};

verus! {

/// The mathematical content of a value. An object is a map: the order in which
/// its members were inserted is no part of it.
pub enum JsonModel {
    Text(Seq<char>),
    Number(Numeral),
    Boolean(bool),
    Null,
    Array(Seq<JsonModel>),
    Object(Map<Seq<char>, JsonModel>),
}

/// The members of a JSON object. A key occurs at most once in an object that
/// `new` and `insert` built; where one occurs again, its last occurrence counts.
/// Two objects are equal when they give the same keys the same values, in
/// whatever order they hold them.
#[derive(Debug)]
pub struct JsonObject {
    pub members: Vec<(String, JsonValue)>,
}

/// A JSON value.
#[derive(Debug)]
pub enum JsonValue {
    /// A JSON string value.
    Text(String),
    /// A numeric JSON value.
    Number(JsonNumber),
    /// A JSON boolean value.
    Boolean(bool),
    /// The JSON null value.
    Null,
    /// A JSON array.
    Array(Vec<JsonValue>),
    /// A JSON object.
    Object(JsonObject),
}

/// The map that a list of members stands for: later members override earlier
/// ones of the same key.
pub open spec fn members_map(ms: Seq<(String, JsonValue)>) -> Map<Seq<char>, JsonModel>
    decreases ms,
{
    if ms.len() == 0 {
        Map::empty()
    } else {
        members_map(ms.drop_last()).insert(ms.last().0@, ms.last().1.view())
    }
}

/// The models of a list of values, in order.
pub open spec fn items_seq(vs: Seq<JsonValue>) -> Seq<JsonModel>
    decreases vs,
{
    if vs.len() == 0 {
        Seq::empty()
    } else {
        items_seq(vs.drop_last()).push(vs.last().view())
    }
}

impl View for JsonObject {
    type V = Map<Seq<char>, JsonModel>;

    open spec fn view(&self) -> Map<Seq<char>, JsonModel>
        decreases self,
    {
        members_map(self.members@)
    }
}

impl View for JsonValue {
    type V = JsonModel;

    open spec fn view(&self) -> JsonModel
        decreases self,
    {
        match self {
            JsonValue::Text(s) => JsonModel::Text(s@),
            JsonValue::Number(n) => JsonModel::Number(n@),
            JsonValue::Boolean(b) => JsonModel::Boolean(*b),
            JsonValue::Null => JsonModel::Null,
            JsonValue::Array(a) => JsonModel::Array(items_seq(a@)),
            JsonValue::Object(o) => JsonModel::Object(o@),
        }
    }
}

/// Whether no key occurs twice among the members.
pub open spec fn distinct_keys(ms: Seq<(String, JsonValue)>) -> bool {
    forall|i: int, j: int| 0 <= i < j < ms.len() ==> (#[trigger] ms[i]).0@ != (#[trigger] ms[j]).0@
}

/// Whether `i` is the place of the last member with key `k`.
pub open spec fn last_with_key(ms: Seq<(String, JsonValue)>, k: Seq<char>, i: int) -> bool {
    &&& 0 <= i < ms.len()
    &&& ms[i].0@ == k
    &&& forall|j: int| i < j < ms.len() ==> (#[trigger] ms[j]).0@ != k
}

impl JsonObject {
    /// Validity: no key occurs twice, and every member's value is valid.
    pub open spec fn wf(&self) -> bool
        decreases self,
    {
        &&& distinct_keys(self.members@)
        &&& forall|i: int| 0 <= i < self.members@.len() ==> (#[trigger] self.members@[i]).1.wf()
    }
}

impl JsonValue {
    /// Validity: every number is a numeral of the grammar, and no object holds
    /// a key twice.
    pub open spec fn wf(&self) -> bool
        decreases self,
    {
        match self {
            JsonValue::Number(n) => n@.wf(),
            JsonValue::Array(a) => forall|i: int| 0 <= i < a@.len() ==> (#[trigger] a@[i]).wf(),
            JsonValue::Object(o) => o.wf(),
            _ => true,
        }
    }
}

/// The models of a list of values stand at the places of the values.
pub proof fn lemma_items_seq(vs: Seq<JsonValue>)
    ensures
        items_seq(vs).len() == vs.len(),
        forall|i: int| 0 <= i < vs.len() ==> (#[trigger] items_seq(vs)[i]) == vs[i]@,
    decreases vs.len(),
{
    reveal_with_fuel(items_seq, 2);
    if vs.len() > 0 {
        lemma_items_seq(vs.drop_last());
    }
}

/// Appending a value appends its model.
pub proof fn lemma_items_seq_push(vs: Seq<JsonValue>, v: JsonValue)
    ensures
        items_seq(vs.push(v)) == items_seq(vs).push(v@),
{
    reveal_with_fuel(items_seq, 2);
    assert(vs.push(v).drop_last() =~= vs);
}

/// A key is in the map exactly when some member has it.
pub proof fn lemma_members_map_dom(ms: Seq<(String, JsonValue)>, k: Seq<char>)
    ensures
        members_map(ms).contains_key(k) <==> exists|i: int|
            0 <= i < ms.len() && (#[trigger] ms[i]).0@ == k,
    decreases ms.len(),
{
    reveal_with_fuel(members_map, 2);
    if ms.len() > 0 {
        lemma_members_map_dom(ms.drop_last(), k);
        if members_map(ms).contains_key(k) {
            if ms.last().0@ == k {
                assert(ms[ms.len() - 1].0@ == k);
            } else {
                let i = choose|i: int| 0 <= i < ms.drop_last().len() && (#[trigger] ms.drop_last()[i]).0@ == k;
                assert(ms[i].0@ == k);
            }
        }
        if exists|i: int| 0 <= i < ms.len() && (#[trigger] ms[i]).0@ == k {
            let i = choose|i: int| 0 <= i < ms.len() && (#[trigger] ms[i]).0@ == k;
            if i < ms.len() - 1 {
                assert(ms.drop_last()[i].0@ == k);
            }
        }
    }
}

/// The map gives a key the value of the last member that has it.
pub proof fn lemma_members_map_value(ms: Seq<(String, JsonValue)>, k: Seq<char>, i: int)
    requires
        last_with_key(ms, k, i),
    ensures
        members_map(ms).contains_key(k),
        members_map(ms)[k] == ms[i].1@,
    decreases ms.len(),
{
    reveal_with_fuel(members_map, 2);
    if i < ms.len() - 1 {
        assert(ms[ms.len() - 1].0@ != k);
        assert forall|j: int| i < j < ms.drop_last().len() implies (#[trigger] ms.drop_last()[j]).0@ != k by {
            assert(ms[j].0@ != k);
        }
        lemma_members_map_value(ms.drop_last(), k, i);
    }
}

/// Replacing the last member of a key changes the map at that key alone.
pub proof fn lemma_members_map_update(
    ms: Seq<(String, JsonValue)>,
    i: int,
    key: String,
    value: JsonValue,
)
    requires
        last_with_key(ms, key@, i),
    ensures
        members_map(ms.update(i, (key, value))) == members_map(ms).insert(key@, value@),
    decreases ms.len(),
{
    reveal_with_fuel(members_map, 2);
    let ms2 = ms.update(i, (key, value));
    if i == ms.len() - 1 {
        assert(ms2.drop_last() =~= ms.drop_last());
        assert(members_map(ms2) =~= members_map(ms).insert(key@, value@));
    } else {
        assert(ms[ms.len() - 1].0@ != key@);
        assert forall|j: int| i < j < ms.drop_last().len() implies (#[trigger] ms.drop_last()[j]).0@ != key@ by {
            assert(ms[j].0@ != key@);
        }
        lemma_members_map_update(ms.drop_last(), i, key, value);
        assert(ms2.drop_last() =~= ms.drop_last().update(i, (key, value)));
        assert(ms2.last() == ms.last());
        assert(members_map(ms2) =~= members_map(ms).insert(key@, value@));
    }
}

impl JsonObject {
    /// An object without members.
    pub fn new() -> (o: JsonObject)
        ensures
            o@ == Map::<Seq<char>, JsonModel>::empty(),
            o.members@.len() == 0,
            o.wf(),
    {
        JsonObject { members: Vec::new() }
    }

    /// The place of the last member with the given key, if there is one.
    pub(crate) fn find(&self, key: &String) -> (r: Option<usize>)
        ensures
            match r {
                Some(i) => last_with_key(self.members@, key@, i as int),
                None => forall|j: int| 0 <= j < self.members@.len() ==> (#[trigger] self.members@[j]).0@ != key@,
            },
    {
        let mut i: usize = self.members.len();
        while i > 0
            invariant
                i <= self.members@.len(),
                forall|j: int| i <= j < self.members@.len() ==> (#[trigger] self.members@[j]).0@ != key@,
            decreases i,
        {
            i -= 1;
            if self.members[i].0 == *key {
                return Some(i);
            }
        }
        None
    }

    /// Gives `key` the value `value`: in place of the value it had, or as a new
    /// member at the end.
    pub fn insert(&mut self, key: String, value: JsonValue)
        ensures
            final(self)@ == old(self)@.insert(key@, value@),
            old(self).wf() && value.wf() ==> final(self).wf(),
    {
        let found = self.find(&key);
        let ghost ms = self.members@;
        match found {
            Some(i) => {
                proof {
                    lemma_members_map_update(ms, i as int, key, value);
                }
                self.members[i] = (key, value);
                proof {
                    if old(self).wf() && value.wf() {
                        let ms2 = self.members@;
                        assert forall|a: int, b: int| 0 <= a < b < ms2.len() implies (#[trigger] ms2[a]).0@ != (#[trigger] ms2[b]).0@ by {
                            assert(ms[a].0@ != ms[b].0@);
                        }
                        assert forall|a: int| 0 <= a < ms2.len() implies (#[trigger] ms2[a]).1.wf() by {
                            if a != i {
                                assert(ms[a].1.wf());
                            }
                        }
                    }
                }
            },
            None => {
                self.members.push((key, value));
                proof {
                    let ms2 = self.members@;
                    assert(ms2.drop_last() =~= ms);
                    if old(self).wf() && value.wf() {
                        assert forall|a: int, b: int| 0 <= a < b < ms2.len() implies (#[trigger] ms2[a]).0@ != (#[trigger] ms2[b]).0@ by {
                            if b < ms.len() {
                                assert(ms[a].0@ != ms[b].0@);
                            } else {
                                assert(ms[a].0@ != key@);
                            }
                        }
                        assert forall|a: int| 0 <= a < ms2.len() implies (#[trigger] ms2[a]).1.wf() by {
                            if a < ms.len() {
                                assert(ms[a].1.wf());
                            }
                        }
                    }
                }
            },
        }
    }

    /// The value of the member with the given key, if there is one.
    pub fn get(&self, key: &str) -> (r: Option<&JsonValue>)
        ensures
            match r {
                Some(v) => self@.contains_key(key@) && self@[key@] == v@,
                None => !self@.contains_key(key@),
            },
    {
        let owned = key.to_owned();
        match self.find(&owned) {
            Some(i) => {
                proof {
                    lemma_members_map_value(self.members@, key@, i as int);
                }
                Some(&self.members[i].1)
            },
            None => {
                proof {
                    lemma_members_map_dom(self.members@, key@);
                }
                None
            },
        }
    }
}

/// The number that a sequence of decimal digits denotes.
pub open spec fn decimal_value(s: Seq<char>) -> nat
    decreases s.len(),
{
    if s.len() == 0 {
        0
    } else {
        10 * decimal_value(s.drop_last()) + digit_value(s.last())
    }
}

/// The index that a key spells: decimal digits, at least one, after an
/// optional plus sign, where their number fits an index.
pub open spec fn index_of_text(s: Seq<char>) -> Option<usize> {
    let digits = if s.len() > 0 && s[0] == '+' {
        s.skip(1)
    } else {
        s
    };
    if digits.len() > 0 && all_digits(digits) && decimal_value(digits) <= usize::MAX {
        Some(decimal_value(digits) as usize)
    } else {
        None
    }
}

/// The decimal digits of a number, without leading zeros; `0` for zero.
pub open spec fn decimal_text(n: nat) -> Seq<char>
    decreases n,
{
    if n < 10 {
        seq![digit_char(n)]
    } else {
        decimal_text(n / 10).push(digit_char(n % 10))
    }
}

/// Reads a key as an index with `str::parse`, which takes decimal digits after
/// an optional plus sign and fails on an empty text, on any other character and
/// on a number that does not fit.
#[verifier::external_body]
fn parse_index(key: &str) -> (r: Option<usize>)
    ensures
        r == index_of_text(key@),
{
    match key.parse::<usize>() {
        Ok(i) => Some(i),
        Err(_) => None,
    }
}

/// Writes an index with `ToString::to_string`, which gives its decimal digits.
#[verifier::external_body]
fn index_text(ind: usize) -> (r: String)
    ensures
        r@ == decimal_text(ind as nat),
{
    ind.to_string()
}

impl JsonModel {
    /// What stands under `key`: in an object the member of that key, in an
    /// array the item at the index that the key spells.
    pub open spec fn member(self, key: Seq<char>) -> Option<JsonModel> {
        match self {
            JsonModel::Object(m) => if m.contains_key(key) {
                Some(m[key])
            } else {
                None
            },
            JsonModel::Array(a) => match index_of_text(key) {
                Some(i) => if i < a.len() {
                    Some(a[i as int])
                } else {
                    None
                },
                None => None,
            },
            _ => None,
        }
    }

    /// What stands at `ind`: in an array the item at that index, in an object
    /// the member whose key is the index in decimal digits.
    pub open spec fn item(self, ind: usize) -> Option<JsonModel> {
        match self {
            JsonModel::Object(m) => if m.contains_key(decimal_text(ind as nat)) {
                Some(m[decimal_text(ind as nat)])
            } else {
                None
            },
            JsonModel::Array(a) => if ind < a.len() {
                Some(a[ind as int])
            } else {
                None
            },
            _ => None,
        }
    }
}

impl JsonValue {
    /// Gets a reference to the JSON value at a specific key.
    pub fn get(&self, key: &str) -> (r: Option<&Self>)
        ensures
            match r {
                Some(v) => self@.member(key@) == Some(v@),
                None => self@.member(key@) is None,
            },
    {
        match self {
            JsonValue::Object(map) => map.get(key),
            JsonValue::Array(array) => {
                proof {
                    lemma_items_seq(array@);
                }
                match parse_index(key) {
                    Some(i) => if i < array.len() {
                        Some(&array[i])
                    } else {
                        None
                    },
                    None => None,
                }
            },
            _ => None,
        }
    }

    /// Gets a reference to the JSON value at a specific index.
    pub fn get_ind(&self, ind: usize) -> (r: Option<&Self>)
        ensures
            match r {
                Some(v) => self@.item(ind) == Some(v@),
                None => self@.item(ind) is None,
            },
    {
        match self {
            JsonValue::Object(map) => {
                let key = index_text(ind);
                map.get(key.as_str())
            },
            JsonValue::Array(array) => {
                proof {
                    lemma_items_seq(array@);
                }
                if ind < array.len() {
                    Some(&array[ind])
                } else {
                    None
                }
            },
            _ => None,
        }
    }
}

impl JsonModel {
    /// The value with `x` in place of what stands under `key`.
    pub open spec fn with_member(self, key: Seq<char>, x: JsonModel) -> JsonModel {
        match self {
            JsonModel::Object(m) => JsonModel::Object(m.insert(key, x)),
            JsonModel::Array(a) => match index_of_text(key) {
                Some(i) => JsonModel::Array(a.update(i as int, x)),
                None => self,
            },
            _ => self,
        }
    }

    /// The value with `x` in place of what stands at `ind`.
    pub open spec fn with_item(self, ind: usize, x: JsonModel) -> JsonModel {
        match self {
            JsonModel::Object(m) => JsonModel::Object(m.insert(decimal_text(ind as nat), x)),
            JsonModel::Array(a) => JsonModel::Array(a.update(ind as int, x)),
            _ => self,
        }
    }
}

/// Replacing a value replaces its model.
pub proof fn lemma_items_seq_update(vs: Seq<JsonValue>, i: int, v: JsonValue)
    requires
        0 <= i < vs.len(),
    ensures
        items_seq(vs.update(i, v)) == items_seq(vs).update(i, v@),
{
    lemma_items_seq(vs);
    lemma_items_seq(vs.update(i, v));
    assert(items_seq(vs.update(i, v)) =~= items_seq(vs).update(i, v@));
}

impl JsonObject {
    /// The value of the member with the given key, to be changed in place.
    pub fn get_mut(&mut self, key: &str) -> (r: Option<&mut JsonValue>)
        ensures
            match r {
                Some(v) => {
                    &&& old(self)@.contains_key(key@)
                    &&& old(self)@[key@] == v@
                    &&& final(self)@ == old(self)@.insert(key@, final(v)@)
                },
                None => !old(self)@.contains_key(key@) && final(self)@ == old(self)@,
            },
    {
        let owned = key.to_owned();
        match self.find(&owned) {
            Some(i) => {
                let ghost ms = self.members@;
                proof {
                    lemma_members_map_value(ms, key@, i as int);
                }
                let member = &mut self.members[i];
                let value = &mut member.1;
                proof {
                    lemma_members_map_update(ms, i as int, ms[i as int].0, *final(value));
                }
                Some(value)
            },
            None => {
                proof {
                    lemma_members_map_dom(self.members@, key@);
                }
                None
            },
        }
    }
}

impl JsonValue {
    /// Gets a mutable reference to the JSON value at a specific key.
    pub fn get_mut(&mut self, key: &str) -> (r: Option<&mut Self>)
        ensures
            match r {
                Some(v) => {
                    &&& old(self)@.member(key@) == Some(v@)
                    &&& final(self)@ == old(self)@.with_member(key@, final(v)@)
                },
                None => old(self)@.member(key@) is None && final(self)@ == old(self)@,
            },
    {
        match self {
            JsonValue::Object(map) => map.get_mut(key),
            JsonValue::Array(array) => {
                let ghost vs = array@;
                proof {
                    lemma_items_seq(vs);
                }
                match parse_index(key) {
                    Some(i) => if i < array.len() {
                        let value = &mut array[i];
                        proof {
                            lemma_items_seq_update(vs, i as int, *final(value));
                        }
                        Some(value)
                    } else {
                        None
                    },
                    None => None,
                }
            },
            _ => None,
        }
    }

    /// Gets a mutable reference to the JSON value at a specific index.
    pub fn get_ind_mut(&mut self, ind: usize) -> (r: Option<&mut Self>)
        ensures
            match r {
                Some(v) => {
                    &&& old(self)@.item(ind) == Some(v@)
                    &&& final(self)@ == old(self)@.with_item(ind, final(v)@)
                },
                None => old(self)@.item(ind) is None && final(self)@ == old(self)@,
            },
    {
        match self {
            JsonValue::Object(map) => {
                let key = index_text(ind);
                map.get_mut(key.as_str())
            },
            JsonValue::Array(array) => {
                let ghost vs = array@;
                proof {
                    lemma_items_seq(vs);
                }
                if ind < array.len() {
                    let value = &mut array[ind];
                    proof {
                        lemma_items_seq_update(vs, ind as int, *final(value));
                    }
                    Some(value)
                } else {
                    None
                }
            },
            _ => None,
        }
    }
}

} // verus!
