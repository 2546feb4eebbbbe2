use yash::expansion::{
    expand_literal, expand_value, expand_word, expand_words, AttrChar, AttrField, Expansion, Origin,
    Output, Value, VariableValue,
};
use yash::source::Location;

#[test]
fn expansion_push_str() {
    let a = AttrChar {
        value: 'a',
        origin: Origin::SoftExpansion,
        is_quoted: true,
        is_quoting: false,
    };
    let to = AttrChar {
        value: '-',
        origin: Origin::SoftExpansion,
        is_quoted: true,
        is_quoting: false,
    };
    let z = AttrChar {
        value: 'z',
        origin: Origin::SoftExpansion,
        is_quoted: true,
        is_quoting: false,
    };

    let mut field = Vec::<AttrChar>::default();
    field.push_str("a-z", Origin::SoftExpansion, true, false);
    assert_eq!(field, [a, to, z]);
}

#[test]
fn attr_field_push_char() {
    let c = AttrChar {
        value: 'X',
        origin: Origin::Literal,
        is_quoted: false,
        is_quoting: true,
    };
    let d = AttrChar {
        value: 'Y',
        origin: Origin::SoftExpansion,
        is_quoted: true,
        is_quoting: false,
    };
    let mut field = Vec::<AttrChar>::default();
    field.push_char(c);
    assert_eq!(field, [c]);
    field.push_char(d);
    assert_eq!(field, [c, d]);
}

#[test]
fn vec_attr_field_push_char() {
    let c = AttrChar {
        value: 'X',
        origin: Origin::Literal,
        is_quoted: true,
        is_quoting: false,
    };
    let d = AttrChar {
        value: 'Y',
        origin: Origin::HardExpansion,
        is_quoted: false,
        is_quoting: true,
    };
    let mut fields = Vec::<Vec<AttrChar>>::default();
    fields.push_char(c);
    assert_eq!(fields.len(), 1);
    assert_eq!(fields[0], [c]);
    fields.push_char(d);
    assert_eq!(fields.len(), 1);
    assert_eq!(fields[0], [c, d]);
}

#[test]
fn vec_attr_field_push_char_to_last_of_many() {
    let c = AttrChar {
        value: 'Z',
        origin: Origin::Literal,
        is_quoted: false,
        is_quoting: false,
    };
    let mut fields = vec![vec![], vec![]];
    fields.push_char(c);
    assert_eq!(fields, [vec![], vec![c]]);
}

#[allow(clippy::bool_assert_comparison)]
#[test]
fn quoted_output() {
    let field = Vec::<AttrChar>::default();
    let mut output = Output::new(field);
    assert_eq!(output.is_quoted(), false);
    {
        let outer = output.begin_quote();
        assert_eq!(output.is_quoted(), true);
        {
            let inner = output.begin_quote();
            assert_eq!(output.is_quoted(), true);
            output.end_quote(inner);
        }
        assert_eq!(output.is_quoted(), true);
        output.end_quote(outer);
    }
    assert_eq!(output.is_quoted(), false);
}

#[test]
fn output_put_char_quoted() {
    let field = Vec::<AttrChar>::default();
    let mut output = Output::new(field);
    let not_quoted = AttrChar {
        value: 'X',
        origin: Origin::Literal,
        is_quoted: false,
        is_quoting: false,
    };
    let quoted = AttrChar {
        is_quoted: true,
        ..not_quoted
    };
    output.push_char(not_quoted);
    output.push_char(quoted);
    let scope = output.begin_quote();
    output.push_char(not_quoted);
    output.push_char(quoted);
    output.end_quote(scope);
    let field = output.into_inner();
    assert_eq!(field, [not_quoted, quoted, quoted, quoted]);
}

#[test]
fn output_put_str_quoted() {
    let field = Vec::<AttrChar>::default();
    let mut output = Output::new(field);
    output.push_str("X", Origin::Literal, false, false);
    output.push_str("X", Origin::Literal, true, false);
    let scope = output.begin_quote();
    output.push_str("X", Origin::Literal, false, false);
    output.push_str("X", Origin::Literal, true, false);
    output.end_quote(scope);
    let field = output.into_inner();

    let not_quoted = AttrChar {
        value: 'X',
        origin: Origin::Literal,
        is_quoted: false,
        is_quoting: false,
    };
    let quoted = AttrChar {
        is_quoted: true,
        ..not_quoted
    };
    assert_eq!(field, [not_quoted, quoted, quoted, quoted]);
}

#[test]
fn nested_quotes_restore_previous_state() {
    let mut output = Output::new(Vec::<AttrChar>::default());
    let plain = AttrChar {
        value: 'p',
        origin: Origin::SoftExpansion,
        is_quoted: false,
        is_quoting: false,
    };
    let first = output.begin_quote();
    let second = output.begin_quote();
    let third = output.begin_quote();
    output.push_char(plain);
    output.end_quote(third);
    output.push_char(plain);
    output.end_quote(second);
    assert!(output.is_quoted());
    output.end_quote(first);
    assert!(!output.is_quoted());
    output.push_char(plain);
    let quoted = AttrChar {
        is_quoted: true,
        ..plain
    };
    assert_eq!(output.into_inner(), [quoted, quoted, plain]);
}

#[test]
fn quote_removal_drops_quoting_characters() {
    let quote = AttrChar {
        value: '"',
        origin: Origin::Literal,
        is_quoted: false,
        is_quoting: true,
    };
    let a = AttrChar {
        value: 'a',
        origin: Origin::Literal,
        is_quoted: true,
        is_quoting: false,
    };
    let field = AttrField {
        chars: vec![quote, a, quote],
        origin: Location::dummy(),
    };
    let result = field.do_quote_removal();
    assert_eq!(result.value, "a");
    assert_eq!(result.origin, Location::dummy());
}

fn word(s: &str) -> yash::lex::Word {
    yash::lex::Word {
        value: s.to_string(),
        location: Location::dummy(),
    }
}

#[test]
fn expand_value_scalar() {
    let v = Value::Scalar(word(r"1\\"));
    let result = expand_value(&v).unwrap();
    let content = match result {
        VariableValue::Scalar(content) => content,
        other => panic!("not a scalar: {:?}", other),
    };
    assert_eq!(content, r"1\");
}

#[test]
fn expand_value_array() {
    let v = Value::Array(vec![word("''"), word(r"2\\")]);
    let result = expand_value(&v).unwrap();
    let content = match result {
        VariableValue::Array(content) => content,
        other => panic!("not an array: {:?}", other),
    };
    assert_eq!(content, ["".to_string(), r"2\".to_string()]);
}

#[test]
fn initial_expansion_marks_quotes() {
    let chars = expand_literal(r#"a"b\$"'c'"#);
    let attrs: Vec<(char, bool, bool)> = chars
        .iter()
        .map(|c| (c.value, c.is_quoted, c.is_quoting))
        .collect();
    assert_eq!(
        attrs,
        [
            ('a', false, false),
            ('"', false, true),
            ('b', true, false),
            ('\\', true, true),
            ('$', true, false),
            ('"', false, true),
            ('\'', false, true),
            ('c', true, false),
            ('\'', false, true),
        ]
    );
}

#[test]
fn expand_words_gives_one_field_per_word() {
    let fields = expand_words(&vec![word("\"a b\""), word("c\\ d")]).unwrap();
    let values: Vec<String> = fields.into_iter().map(|f| f.value).collect();
    assert_eq!(values, ["a b", "c d"]);
    assert_eq!(expand_word(&word("'x'y")).unwrap().value, "xy");
}
