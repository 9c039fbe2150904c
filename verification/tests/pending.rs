use json_rs::number::JsonNumber;
use json_rs::stack::pending::{
    BoolStack, EscapeSequence, NullStack, NumberStack, PendingStack, TextStack,
};
use json_rs::stack::IntoJson;
use json_rs::value::JsonValue;

#[test]
fn bool_stack() {
    let tests = vec![
        ("tru", 'e', Ok(true)),
        ("", 't', Ok(false)),
        ("fa", 's', Err('s')),
        ("f", 'a', Ok(false)),
        ("", '#', Err('#')),
        ("fals", '3', Err('3')),
        ("false", ' ', Err(' ')),
        ("true", 'e', Err('e')),
        ("fals", 'e', Ok(true)),
    ];

    for (existing, insert, result) in tests.into_iter() {
        let mut stack = BoolStack::new();
        stack.matcher_stack.inner_string = existing.to_string();
        assert_eq!(stack.push(insert), result);
    }
}

#[test]
fn bool_stack_into_json() {
    let mut stack = BoolStack::init_true();
    for c in "ru".chars() {
        assert_eq!(stack.push(c), Ok(false));
    }
    assert_eq!(stack.push('e'), Ok(true));
    assert_eq!(Box::new(stack).into_json(), Ok(JsonValue::Boolean(true)));
    let mut stack = BoolStack::init_false();
    for c in "als".chars() {
        assert_eq!(stack.push(c), Ok(false));
    }
    assert_eq!(stack.push('e'), Ok(true));
    assert_eq!(Box::new(stack).into_json(), Ok(JsonValue::Boolean(false)));
    assert_eq!(Box::new(BoolStack::init_true()).into_json(), Err(()));
    // a refused character is not taken
    let mut stack = BoolStack::init_true();
    assert_eq!(stack.push('x'), Err('x'));
    assert_eq!(stack.matcher_stack.inner_string, "t");
}

#[test]
fn null_stack() {
    let tests = vec![
        ("nul", 'l', Ok(true)),
        ("nu", 'l', Ok(false)),
        ("n", 'u', Ok(false)),
        ("", 'n', Ok(false)),
        ("", 'u', Err('u')),
        ("null", 'l', Err('l')),
        ("nu", 'u', Err('u')),
    ];

    for (existing, insert, result) in tests.into_iter() {
        let mut stack = NullStack::new();
        stack.matcher_stack.inner_string = existing.to_string();
        assert_eq!(stack.push(insert), result);
    }
}

#[test]
fn null_stack_into_json() {
    let mut stack = NullStack::init_n();
    assert_eq!(stack.push('u'), Ok(false));
    assert_eq!(stack.push('l'), Ok(false));
    assert_eq!(stack.push('l'), Ok(true));
    assert_eq!(Box::new(stack).into_json(), Ok(JsonValue::Null));
    assert_eq!(Box::new(NullStack::init_n()).into_json(), Err(()));
}

#[test]
fn escape_stack() {
    let tests = vec![
        ("f", Some(Ok('\x0C')), None),
        ("na", None, Some(Err('a'))),
        ("", Some(Err(())), None),
        ("u0000", Some(Ok('\x00')), None),
        ("\\", Some(Ok('\\')), None),
        ("\"", Some(Ok('"')), None),
        ("k", None, Some(Err('k'))),
        ("u00cD", Some(Ok('\u{cd}')), None),
        ("u023", Some(Err(())), None),
        ("u02N2", None, Some(Err('N'))),
    ];

    for (insert, success, error) in tests.into_iter() {
        let mut seq = EscapeSequence::new();
        let first_error = insert
            .chars()
            .map(|c| seq.push(c))
            .skip_while(|r| r.is_ok())
            .next();
        match first_error {
            Some(e) => assert_eq!(Some(e), error),
            None => assert_eq!(Some(seq.into_char()), success),
        }
    }
}

#[test]
fn escape_stack_more() {
    let simple = vec![('n', '\n'), ('t', '\t'), ('r', '\r'), ('b', '\x08')];
    for (c, meant) in simple.into_iter() {
        let mut seq = EscapeSequence::new();
        assert_eq!(seq.push(c), Ok(true));
        assert_eq!(seq.into_char(), Ok(meant));
    }
    // four digits, then no more
    let mut seq = EscapeSequence::new();
    assert_eq!(seq.push('u'), Ok(false));
    assert_eq!(seq.push('2'), Ok(false));
    assert_eq!(seq.push('0'), Ok(false));
    assert_eq!(seq.push('A'), Ok(false));
    assert_eq!(seq.push('c'), Ok(true));
    assert_eq!(seq.push('0'), Err('0'));
    assert_eq!(seq.into_char(), Ok('\u{20ac}'));
    // a surrogate is no character
    let mut seq = EscapeSequence::new();
    for c in "ud80".chars() {
        assert_eq!(seq.push(c), Ok(false));
    }
    assert_eq!(seq.push('0'), Ok(true));
    assert_eq!(seq.into_char(), Err(()));
    let mut seq = EscapeSequence::new();
    for c in "uffff".chars() {
        let _ = seq.push(c);
    }
    assert_eq!(seq.into_char(), Ok('\u{ffff}'));
}

#[test]
fn text_stack() {
    let success_tests = vec!["athlekns", "jtld \\\" \\u2023 ", "sdlk {} "];

    for st in success_tests.into_iter() {
        let mut seq = TextStack::new();
        for c in st.chars() {
            assert_eq!(seq.push(c), Ok(false));
        }
        assert_eq!(seq.push('"'), Ok(true));
    }

    let bad_tests = vec![
        ("thign \\u2c0 mm", Err(' ')),
        ("\\ dd", Err(' ')),
        ("mmm \" thing", Err(' ')),
        ("control \t ch", Err('\t')),
    ];
    for (st, error) in bad_tests.into_iter() {
        let mut seq = TextStack::new();
        assert_eq!(
            st.chars()
                .map(|c| seq.push(c))
                .skip_while(|r| r.is_ok())
                .next()
                .filter(|&e| e == error),
            Some(error)
        );
    }
}

#[test]
fn text_stack_into_json() {
    let mut seq = TextStack::new();
    for c in "a\\n\\u0041\\\"b\\\\".chars() {
        assert_eq!(seq.push(c), Ok(false));
    }
    assert_eq!(seq.push('"'), Ok(true));
    assert_eq!(
        Box::new(seq).into_json(),
        Ok(JsonValue::Text("a\nA\"b\\".to_string()))
    );
    // no closing quote yet
    let mut seq = TextStack::new();
    assert_eq!(seq.push('a'), Ok(false));
    assert_eq!(Box::new(seq).into_json(), Err(()));
    // a surrogate escape is refused at its last digit
    let mut seq = TextStack::new();
    for c in "\\udfb".chars() {
        assert_eq!(seq.push(c), Ok(false));
    }
    assert_eq!(seq.push('2'), Err('2'));
    // the delete character and the C1 controls are refused too
    let mut seq = TextStack::new();
    assert_eq!(seq.push('\u{7f}'), Err('\u{7f}'));
    assert_eq!(seq.push('\u{85}'), Err('\u{85}'));
    assert_eq!(seq.push('\u{a0}'), Ok(false));
}

#[test]
fn number_stack_push() {
    let tests = vec![
        ("102.", 'e', Err('e')),
        ("20", '.', Ok(false)),
        ("0", '9', Err('9')),
        ("-3.", '2', Ok(false)),
        ("-3.230e+", '9', Ok(false)),
        ("", '-', Ok(false)),
        ("2302e", '.', Err('.')),
        ("-", '-', Err('-')),
        ("-0", '0', Err('0')),
        ("0", '.', Ok(false)),
        ("4.23e", '-', Ok(false)),
        ("2302E0", '.', Err('.')),
        ("2.33e0", '0', Ok(false)),
        ("4e2", '.', Err('.')),
    ];

    for (st, push_in, res) in tests.into_iter() {
        let mut stack = NumberStack::new();
        for c in st.chars() {
            stack.push(c).unwrap();
        }
        assert_eq!(stack.push(push_in), res);
    }
}

fn number_stack(text: &str) -> NumberStack {
    let mut stack = NumberStack::new();
    for c in text.chars() {
        stack.push(c).unwrap();
    }
    stack
}

#[test]
fn number_stack_can_push_agrees_with_push() {
    let prefixes = vec!["", "-", "0", "-0", "12", "1.", "1.5", "1e", "1e+", "1e-7", "0.0E"];
    let nexts = vec!['-', '+', '0', '7', '.', 'e', 'E', ' ', 'x', ','];
    for p in prefixes.into_iter() {
        for c in nexts.iter() {
            let mut stack = number_stack(p);
            let can = stack.can_push(*c);
            assert_eq!(stack.push(*c).is_ok(), can);
        }
    }
}

#[test]
fn number_stack_stringify() {
    assert_eq!(number_stack("102").stringify(), Ok("102".to_string()));
    assert_eq!(number_stack("-3.230E+9").stringify(), Ok("-3.230e+9".to_string()));
    assert_eq!(number_stack("0").stringify(), Ok("0".to_string()));
    assert_eq!(number_stack("0e5").stringify(), Ok("0e5".to_string()));
    assert_eq!(number_stack("-0.5").stringify(), Ok("-0.5".to_string()));
    assert_eq!(number_stack("").stringify(), Err(()));
    assert_eq!(number_stack("-").stringify(), Err(()));
    assert_eq!(number_stack("1.").stringify(), Err(()));
    assert_eq!(number_stack("1e").stringify(), Err(()));
    assert_eq!(number_stack("1e+").stringify(), Ok("1e+".to_string()));
}

#[test]
fn number_stack_into_json() {
    assert_eq!(
        Box::new(number_stack("-12.50e-3")).into_json(),
        Ok(JsonValue::Number(JsonNumber {
            negative: true,
            whole: "12".to_string(),
            decimal: "50".to_string(),
            exponent: "-3".to_string(),
        }))
    );
    assert_eq!(Box::new(number_stack("1e+")).into_json(), Err(()));
    assert_eq!(Box::new(number_stack("1e-")).into_json(), Err(()));
    assert_eq!(Box::new(number_stack("-")).into_json(), Err(()));
    assert_eq!(Box::new(number_stack("2.")).into_json(), Err(()));
}

#[test]
fn number_from_text() {
    let n = JsonNumber::from_text("230E20").unwrap();
    assert_eq!(n.to_string(), "230e20");
    assert!(n.is_valid());
    assert_eq!(JsonNumber::from_text("-0").unwrap().to_string(), "-0");
    assert_eq!(JsonNumber::from_text("0.2332").unwrap().to_string(), "0.2332");
    for bad in vec!["", "-", "01", "1.", ".5", "+1", "1e", "1e+", "1 ", "NaN", "inf", "1.2.3"] {
        assert_eq!(JsonNumber::from_text(bad), None);
    }
    let odd = JsonNumber {
        negative: false,
        whole: "007".to_string(),
        decimal: String::new(),
        exponent: String::new(),
    };
    assert!(!odd.is_valid());
    assert_eq!(odd.to_string(), "007");
}
