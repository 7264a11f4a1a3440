use saphyr_loader::{LoadableYamlNode, ScalarStyle, Tag, Yaml, is_float, parse_bool, parse_i64, resolve_scalar, yaml_eq};

fn core_tag(suffix: &str) -> Option<Tag> {
    Some(Tag { handle: "tag:yaml.org,2002:".to_owned(), suffix: suffix.to_owned() })
}

fn plain(text: &str, tag: Option<Tag>) -> Yaml {
    resolve_scalar(text.to_owned(), &ScalarStyle::Plain, &tag)
}

#[test]
fn integers_by_the_standard_rules() {
    assert_eq!(parse_i64("0"), Some(0));
    assert_eq!(parse_i64("+5"), Some(5));
    assert_eq!(parse_i64("-17"), Some(-17));
    assert_eq!(parse_i64("007"), Some(7));
    assert_eq!(parse_i64("9223372036854775807"), Some(i64::MAX));
    assert_eq!(parse_i64("-9223372036854775808"), Some(i64::MIN));
    assert_eq!(parse_i64("9223372036854775808"), None);
    assert_eq!(parse_i64("-9223372036854775809"), None);
    assert_eq!(parse_i64("99999999999999999999999"), None);
    assert_eq!(parse_i64(""), None);
    assert_eq!(parse_i64("-"), None);
    assert_eq!(parse_i64("1_0"), None);
    assert_eq!(parse_i64("0x1f"), None);
    assert_eq!(parse_i64(" 1"), None);
}

#[test]
fn booleans_are_exact() {
    assert_eq!(parse_bool("true"), Some(true));
    assert_eq!(parse_bool("false"), Some(false));
    assert_eq!(parse_bool("True"), None);
    assert_eq!(parse_bool("yes"), None);
}

#[test]
fn floats_of_the_core_schema() {
    for t in ["1.5", "1e5", "1E-5", ".5", "1.", "+2.5e+3", "-0.0", "inf", "INFINITY", "-Inf", "nan", "NaN", ".inf", "+.INF", "-.Inf", ".nan", ".NAN", "12"] {
        assert!(is_float(t), "{}", t);
        assert_eq!(t.parse::<f64>().is_ok() || t.starts_with('.') || t.starts_with("+.") || t.starts_with("-."), true);
    }
    for t in ["", ".", "e5", "1e", "1e+", "1.2.3", "abc", "..inf", "-.nan", "1_0", "0x10", " 1"] {
        assert!(!is_float(t), "{}", t);
        assert!(t.parse::<f64>().is_err());
    }
}

#[test]
fn untagged_plain_text_is_inferred() {
    assert_eq!(Yaml::from_str("~"), Yaml::Null);
    assert_eq!(Yaml::from_str("null"), Yaml::Null);
    assert_eq!(Yaml::from_str("true"), Yaml::Boolean(true));
    assert_eq!(Yaml::from_str("-42"), Yaml::Integer(-42));
    assert_eq!(Yaml::from_str("4.2"), Yaml::Real("4.2".to_owned()));
    assert_eq!(Yaml::from_str("99999999999999999999"), Yaml::Real("99999999999999999999".to_owned()));
    assert_eq!(Yaml::from_str("hello"), Yaml::String("hello".to_owned()));
    assert_eq!(Yaml::from_str(""), Yaml::String(String::new()));
}

#[test]
fn core_tags_check_their_text() {
    assert_eq!(plain("true", core_tag("bool")), Yaml::Boolean(true));
    assert_eq!(plain("yes", core_tag("bool")), Yaml::BadValue);
    assert_eq!(plain("12", core_tag("int")), Yaml::Integer(12));
    assert_eq!(plain("1.5", core_tag("int")), Yaml::BadValue);
    assert_eq!(plain("1.5", core_tag("float")), Yaml::Real("1.5".to_owned()));
    assert_eq!(plain("-.inf", core_tag("float")), Yaml::Real("-.inf".to_owned()));
    assert_eq!(plain("x", core_tag("float")), Yaml::BadValue);
    assert_eq!(plain("~", core_tag("null")), Yaml::Null);
    assert_eq!(plain("null", core_tag("null")), Yaml::Null);
    assert_eq!(plain("nil", core_tag("null")), Yaml::BadValue);
    assert_eq!(plain("12", core_tag("str")), Yaml::String("12".to_owned()));
}

#[test]
fn other_tags_and_quoted_text_are_strings() {
    let local = Some(Tag { handle: "!".to_owned(), suffix: "int".to_owned() });
    assert_eq!(plain("12", local), Yaml::String("12".to_owned()));
    assert_eq!(resolve_scalar("12".to_owned(), &ScalarStyle::DoubleQuoted, &core_tag("int")), Yaml::String("12".to_owned()));
    assert_eq!(resolve_scalar("true".to_owned(), &ScalarStyle::Literal, &None), Yaml::String("true".to_owned()));
    assert_eq!(resolve_scalar("~".to_owned(), &ScalarStyle::SingleQuoted, &None), Yaml::String("~".to_owned()));
}

#[test]
fn structural_equality_and_copies() {
    let a = Yaml::Array(vec![Yaml::Integer(1), Yaml::String("x".to_owned())]);
    let b = a.duplicate();
    assert!(yaml_eq(&a, &b));
    assert_eq!(a, b);
    assert!(!yaml_eq(&a, &Yaml::Array(vec![Yaml::Integer(1)])));
    assert!(!yaml_eq(&Yaml::Real("1".to_owned()), &Yaml::String("1".to_owned())));
    assert!(!yaml_eq(&Yaml::Null, &Yaml::BadValue));
}

#[test]
fn node_capabilities() {
    let mut a = <Yaml as LoadableYamlNode>::from_yaml(Yaml::Array(vec![Yaml::Integer(1)]));
    assert!(a.is_array());
    assert!(!a.is_hash());
    assert!(!a.is_badvalue());
    let copy = a.clone();
    let taken = a.take();
    assert!(a.is_badvalue());
    assert_eq!(a, Yaml::BadValue);
    assert_eq!(taken, copy);
    assert_eq!(taken, Yaml::Array(vec![Yaml::Integer(1)]));
    let h = Yaml::Hash(saphyr_loader::Mapping::new());
    assert!(h.is_hash());
    assert!(!h.is_array());
}
