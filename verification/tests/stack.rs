use json_rs::stack::array::ArrayStack;
use json_rs::stack::object::{shift_multi as shift, ObjectStack};
use json_rs::stack::ObjArrItem::{Colon, Comma, Item, Key};
use json_rs::stack::{
    CheckedStack, Container, IntoJson, ObjArrItem, ObjArrStack, PendingItem, Scalar, StackCounter,
};
use json_rs::number::JsonNumber;
use json_rs::value::{JsonObject, JsonValue};

fn num(text: &str) -> JsonValue {
    JsonValue::Number(JsonNumber::from_text(text).unwrap())
}

#[test]
fn stack_counter() {
    let tests = vec![
        (r#" [ [ " thing \" ] "#, 2, true),
        (r#""#, 0, false),
        (r#" { "thing": 20, "other": [], "fi": [[], [ "#, 3, false),
        (r#"[{"e": []}]"#, 0, false),
        (r#"[ "aaaa", "bbbb", " \" "#, 1, true),
        (r#"[ "aaaa", "bbbb", " \\" "#, 1, false),
        (r#"{ "aa"#, 1, true),
    ];

    for (st, level, in_string) in tests.into_iter() {
        let mut counter = StackCounter::new();
        for c in st.chars() {
            counter.push(c).unwrap();
        }
        assert_eq!(counter.in_string(), in_string);
        assert_eq!(counter.level(), level);
    }
}

#[test]
fn stack_counter_err_push() {
    let tests = vec![("[", '}'), ("[[]", '}'), ("{{", ']'), (r#" [ "\"{" "#, '}')];

    for (st, ch) in tests.into_iter() {
        let mut counter = StackCounter::new();
        for c in st.chars() {
            counter.push(c).unwrap();
        }
        assert!(counter.push(ch).is_err());
    }
}

#[test]
fn stack_counter_takes_the_bracket_away_on_a_mismatch() {
    let mut counter = StackCounter::new();
    counter.push('[').unwrap();
    counter.push('{').unwrap();
    assert_eq!(counter.level(), 2);
    assert!(counter.push(']').is_err());
    assert_eq!(counter.level(), 1);
    assert!(counter.push(']').is_ok());
    assert_eq!(counter.level(), 0);
    assert!(counter.push('}').is_err());
    assert_eq!(counter.level(), 0);
}

#[test]
fn stack_counter_escape_lasts_one_character() {
    let mut counter = StackCounter::new();
    for c in "\"a\\".chars() {
        counter.push(c).unwrap();
    }
    assert!(counter.in_string());
    counter.push('"').unwrap();
    assert!(counter.in_string());
    counter.push('"').unwrap();
    assert!(!counter.in_string());
    // brackets inside a string do not count
    let mut counter = StackCounter::new();
    for c in "[\"]}{[\"".chars() {
        counter.push(c).unwrap();
    }
    assert_eq!(counter.level(), 1);
    assert!(!counter.in_string());
}

struct ShiftTest<T> {
    before: Vec<T>,
    remove_count: usize,
    changed: Vec<T>,
    spliced: Vec<T>,
}

impl<T> ShiftTest<T>
where
    T: ::std::fmt::Debug + PartialEq,
{
    fn run_test(mut self) {
        let new = shift(&mut self.before, self.remove_count);
        assert_eq!(self.before, self.changed);
        assert_eq!(new, self.spliced);
    }
}

#[test]
fn shift_multi() {
    let tests = vec![
        ShiftTest {
            before: vec![1, 2, 3, 4, 5, 6, 7],
            remove_count: 4,
            changed: vec![5, 6, 7],
            spliced: vec![1, 2, 3, 4],
        },
        ShiftTest {
            before: vec![10, 6, 9, 20],
            remove_count: 10,
            changed: vec![],
            spliced: vec![10, 6, 9, 20],
        },
        ShiftTest {
            before: vec![],
            remove_count: 3,
            changed: vec![],
            spliced: vec![],
        },
    ];

    for test in tests.into_iter() {
        test.run_test();
    }
}

#[test]
fn object_push() {
    let tests: Vec<(ObjectStack, ObjArrItem, Result<(), ()>)> = vec![
        (
            ObjectStack { inner: vec![] },
            Item(JsonValue::Text("aaaa".to_string())),
            Ok(()),
        ),
        (
            ObjectStack {
                inner: vec![Key("k".to_string())],
            },
            Colon,
            Ok(()),
        ),
        (
            ObjectStack {
                inner: vec![Key("vvv#@".to_string()), Colon],
            },
            Item(JsonValue::Boolean(true)),
            Ok(()),
        ),
        (
            ObjectStack { inner: vec![] },
            Item(JsonValue::Boolean(true)),
            Err(()),
        ),
        (
            ObjectStack {
                inner: vec![Key("thing".to_string())],
            },
            Item(JsonValue::Null),
            Err(()),
        ),
        (
            ObjectStack {
                inner: vec![
                    Key("1_q_2".to_string()),
                    Colon,
                    Item(JsonValue::Text("vskjjlds".to_string())),
                ],
            },
            Comma,
            Ok(()),
        ),
        (
            ObjectStack {
                inner: vec![
                    Key("1_q_2".to_string()),
                    Colon,
                    Item(JsonValue::Text("vskjjlds".to_string())),
                    Comma,
                ],
            },
            Key("eeeakse".to_string()),
            Ok(()),
        ),
        (
            ObjectStack {
                inner: vec![
                    Key("thing".to_string()),
                    Colon,
                    Item(JsonValue::Null),
                    Comma,
                ],
            },
            Comma,
            Err(()),
        ),
        (
            ObjectStack {
                inner: vec![Key("hhhhhh".to_string()), Colon, Item(JsonValue::Null)],
            },
            Colon,
            Err(()),
        ),
    ];

    for (mut stack, value, result) in tests.into_iter() {
        assert_eq!(stack.push(value), result);
    }
}

#[test]
fn object_push_stores_a_string_item_as_a_key() {
    let mut stack = ObjectStack::new();
    assert!(stack.next_must_be_key());
    assert_eq!(stack.push(Item(JsonValue::Text("k".to_string()))), Ok(()));
    assert_eq!(stack.peek(), Some(&Key("k".to_string())));
    assert!(!stack.next_must_be_key());
    assert_eq!(stack.push(Colon), Ok(()));
    assert_eq!(stack.push(Item(JsonValue::Text("v".to_string()))), Ok(()));
    assert_eq!(stack.peek(), Some(&Item(JsonValue::Text("v".to_string()))));
    assert_eq!(stack.len(), 3);
    assert!(!stack.is_empty());
    assert_eq!(stack.pop(), Some(Item(JsonValue::Text("v".to_string()))));
    assert_eq!(stack.len(), 2);
    // a refused token leaves the stack as it was
    assert_eq!(stack.push(Colon), Err(()));
    assert_eq!(stack.len(), 2);
}

#[test]
fn object_into_json() {
    let tests = vec![
        (
            vec![
                Key("j23O@".to_string()),
                Colon,
                Item(JsonValue::Boolean(true)),
                Comma,
                Key("ffff".to_string()),
                Colon,
                Item(JsonValue::Text("aaaa".to_string())),
                Comma,
                Key("qqqqq".to_string()),
                Colon,
                Item(JsonValue::Object({
                    let mut map = JsonObject::new();
                    map.insert("d29".to_string(), num("10"));
                    map.insert("0000e".to_string(), JsonValue::Null);
                    map
                })),
                Comma,
                Key("arr".to_string()),
                Colon,
                Item(JsonValue::Array(vec![num("10"), num("20"), num("0.2332")])),
            ],
            Ok(JsonValue::Object({
                let mut map = JsonObject::new();
                map.insert("j23O@".to_string(), JsonValue::Boolean(true));
                map.insert("ffff".to_string(), JsonValue::Text("aaaa".to_string()));
                map.insert(
                    "qqqqq".to_string(),
                    JsonValue::Object({
                        let mut map = JsonObject::new();
                        map.insert("d29".to_string(), num("10"));
                        map.insert("0000e".to_string(), JsonValue::Null);
                        map
                    }),
                );
                map.insert(
                    "arr".to_string(),
                    JsonValue::Array(vec![num("10"), num("20"), num("0.2332")]),
                );
                map
            })),
        ),
        (vec![], Ok(JsonValue::Object(JsonObject::new()))),
        (vec![Key("aaaa".to_string())], Err(())),
        (vec![Key("aaaa".to_string()), Colon], Err(())),
        (
            vec![
                Key("ppppp".to_string()),
                Colon,
                Item(JsonValue::Boolean(false)),
                Comma,
            ],
            Err(()),
        ),
    ];

    for (inner, result) in tests.into_iter() {
        let stack = ObjectStack { inner };
        assert_eq!(Box::new(stack).into_json(), result);
    }
}

#[test]
fn object_into_json_keeps_the_last_value_of_a_key() {
    let stack = ObjectStack {
        inner: vec![
            Key("a".to_string()),
            Colon,
            Item(JsonValue::Boolean(true)),
            Comma,
            Key("a".to_string()),
            Colon,
            Item(JsonValue::Null),
        ],
    };
    let value = Box::new(stack).into_json().unwrap();
    assert_eq!(value.get("a"), Some(&JsonValue::Null));
    match value {
        JsonValue::Object(o) => assert_eq!(o.members.len(), 1),
        _ => panic!("not an object"),
    }
    // a group of four has to end with a comma
    let stack = ObjectStack {
        inner: vec![
            Key("a".to_string()),
            Colon,
            Item(JsonValue::Null),
            Colon,
            Key("b".to_string()),
        ],
    };
    assert_eq!(Box::new(stack).into_json(), Err(()));
}

#[test]
fn array_into_json() {
    let tests = vec![
        (
            vec![Item(JsonValue::Null)],
            Ok(JsonValue::Array(vec![JsonValue::Null])),
        ),
        (vec![], Ok(JsonValue::Array(vec![]))),
        (vec![Comma], Err(())),
        (
            vec![Item(JsonValue::Object(JsonObject::new())), Comma],
            Err(()),
        ),
        (
            vec![
                Item(JsonValue::Boolean(true)),
                Comma,
                Item(JsonValue::Array(vec![])),
            ],
            Ok(JsonValue::Array(vec![
                JsonValue::Boolean(true),
                JsonValue::Array(vec![]),
            ])),
        ),
    ];

    for (v, result) in tests.into_iter() {
        assert_eq!(Box::new(ArrayStack { inner: v }).into_json(), result);
    }
}

#[test]
fn array_push() {
    let tests = vec![
        (vec![Item(JsonValue::Null)], JsonValue::Null.into(), Err(())),
        (vec![], Comma, Err(())),
        (vec![num("10.0").into()], Comma, Ok(())),
        (vec![JsonValue::Boolean(false).into()], Colon, Err(())),
    ];

    for (v, push_in, result) in tests.into_iter() {
        let mut stack = ArrayStack { inner: v };
        assert_eq!(stack.push(push_in), result);
    }
}

#[test]
fn array_delimiters_and_end() {
    let array = ArrayStack::new();
    assert_eq!(array.get_delimiter(','), Some(ObjArrItem::Comma));
    assert_eq!(array.get_delimiter(':'), None);
    assert!(array.is_end_char(']'));
    assert!(!array.is_end_char('}'));
    assert!(!array.next_must_be_key());
    let object = ObjectStack::new();
    assert_eq!(object.get_delimiter(','), Some(ObjArrItem::Comma));
    assert_eq!(object.get_delimiter(':'), Some(ObjArrItem::Colon));
    assert_eq!(object.get_delimiter(';'), None);
    assert!(object.is_end_char('}'));
    assert!(!object.is_end_char(']'));
}

#[test]
fn pending_item_from_its_parts() {
    assert!(matches!(
        PendingItem::from(JsonValue::Null),
        PendingItem::FinalizedJsonValue(JsonValue::Null)
    ));
    assert!(matches!(
        PendingItem::from(ArrayStack::new()),
        PendingItem::ObjArr(Container::Array(_))
    ));
    assert!(matches!(
        PendingItem::from(ObjectStack::new()),
        PendingItem::ObjArr(Container::Object(_))
    ));
    let mut container = Container::Object(ObjectStack::new());
    assert!(container.next_must_be_key());
    assert_eq!(container.push(Key("a".to_string())), Ok(()));
    assert_eq!(container.push(Comma), Err(()));
    assert_eq!(container.push(Colon), Ok(()));
    assert_eq!(container.push(Item(JsonValue::Null)), Ok(()));
    assert!(container.is_end_char('}'));
    assert_eq!(container.get_delimiter(':'), Some(Colon));
    let mut expected = JsonObject::new();
    expected.insert("a".to_string(), JsonValue::Null);
    assert_eq!(container.into_json(), Ok(JsonValue::Object(expected)));
    let mut scalar = Scalar::Text(json_rs::stack::pending::TextStack::new());
    assert_eq!(scalar.push('x'), Ok(false));
    assert_eq!(scalar.push('"'), Ok(true));
    assert_eq!(scalar.into_json(), Ok(JsonValue::Text("x".to_string())));
}
