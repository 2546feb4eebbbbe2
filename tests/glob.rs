use yash::expansion::{AttrChar, AttrField, Origin};
use yash::glob::{glob, Glob};
use yash::source::Location;

fn dummy_attr_field(s: &str) -> AttrField {
    let chars = s
        .chars()
        .map(|c| AttrChar {
            value: c,
            origin: Origin::SoftExpansion,
            is_quoted: false,
            is_quoting: false,
        })
        .collect();
    let origin = Location::dummy();
    AttrField { chars, origin }
}

fn values(mut fields: Glob) -> Vec<String> {
    let mut result = Vec::new();
    while let Some(field) = fields.next() {
        result.push(field.value);
    }
    result
}

#[test]
fn literal_field() {
    let f = dummy_attr_field("abc");
    let mut i = glob(f, &vec![]);
    assert_eq!(i.next().unwrap().value, "abc");
    assert_eq!(i.next(), None);
}

#[test]
fn quoting_characters_are_removed() {
    let mut f = dummy_attr_field("aXbcYde");
    f.chars[1].is_quoting = true;
    f.chars[4].is_quoting = true;
    let result = values(glob(f, &vec![]));
    assert_eq!(result, ["abcde"]);
}

#[test]
fn quoted_characters_do_not_expand() {
    let entries = vec!["foo.exe".to_string()];
    let mut f = dummy_attr_field("foo.*");
    f.chars[4].is_quoted = true;
    let result = values(glob(f, &entries));
    assert_eq!(result, ["foo.*"]);
}

#[test]
fn characters_from_hard_expansion_do_not_expand() {
    let entries = vec!["foo.exe".to_string()];
    let mut f = dummy_attr_field("foo.*");
    f.chars[4].origin = Origin::HardExpansion;
    let result = values(glob(f, &entries));
    assert_eq!(result, ["foo.*"]);
}

#[test]
fn single_component_pattern_no_match() {
    let entries = vec!["foo.exe".to_string()];
    let f = dummy_attr_field("*.txt");
    let result = values(glob(f, &entries));
    assert_eq!(result, ["*.txt"]);
}

#[test]
fn single_component_pattern_single_match() {
    let entries = vec!["foo.exe".to_string(), "foo.txt".to_string()];
    let f = dummy_attr_field("*.txt");
    let result = values(glob(f, &entries));
    assert_eq!(result, ["foo.txt"]);
}

#[test]
fn single_component_pattern_many_matches() {
    let entries = vec!["foo.txt".to_string(), "foo.exe".to_string()];
    let f = dummy_attr_field("foo.*");
    let result = values(glob(f, &entries));
    assert_eq!(result, ["foo.exe", "foo.txt"]);
}

#[test]
fn invalid_pattern_remains_intact() {
    let entries = vec!["foo.txt".to_string()];
    let f = dummy_attr_field("*[[:wrong:]]*");
    let result = values(glob(f, &entries));
    assert_eq!(result, ["*[[:wrong:]]*"]);
}

#[test]
fn wildcard_does_not_match_leading_period() {
    let entries = vec![".hidden".to_string(), "shown".to_string()];
    let f = dummy_attr_field("*");
    let result = values(glob(f, &entries));
    assert_eq!(result, ["shown"]);
    let f = dummy_attr_field(".*");
    let result = values(glob(f, &entries));
    assert_eq!(result, [".hidden"]);
}

#[test]
fn matches_keep_the_field_origin() {
    let entries = vec!["b".to_string(), "a".to_string(), "c".to_string()];
    let f = dummy_attr_field("?");
    let mut result = glob(f, &entries);
    let mut names = Vec::new();
    while let Some(field) = result.next() {
        assert_eq!(field.origin, Location::dummy());
        names.push(field.value);
    }
    assert_eq!(names, ["a", "b", "c"]);
    assert_eq!(result.next(), None);
}

#[test]
fn unmatched_field_loses_its_quotes() {
    let entries = vec!["x".to_string()];
    let mut f = dummy_attr_field("'*y");
    f.chars[0].is_quoting = true;
    let result = values(glob(f, &entries));
    assert_eq!(result, ["*y"]);
}

#[test]
fn quoted_asterisk_matches_only_itself() {
    let entries = vec!["*".to_string(), "a".to_string()];
    let mut f = dummy_attr_field("*");
    f.chars[0].is_quoted = true;
    let result = values(glob(f, &entries));
    assert_eq!(result, ["*"]);
    let f = dummy_attr_field("*");
    let result = values(glob(f, &entries));
    assert_eq!(result, ["*", "a"]);
}
