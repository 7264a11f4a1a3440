use saphyr_loader::{
    Event, Mapping, ScalarStyle, Tag, Yaml, YamlLoader, load_from_events, load_from_str,
    load_from_str_checked, resolve_scalar,
};

fn s(t: &str) -> Yaml {
    Yaml::String(t.to_owned())
}

fn plain(t: &str) -> Event {
    Event::Scalar(t.to_owned(), ScalarStyle::Plain, 0, None)
}

fn hash(entries: Vec<(Yaml, Yaml)>) -> Yaml {
    let mut m = Mapping::new();
    for (k, v) in entries {
        m.insert(k, v);
    }
    Yaml::Hash(m)
}

#[test]
fn two_documents_from_text() {
    let docs = load_from_str("First document\n---\n- Second document\n").unwrap();
    assert_eq!(docs.len(), 2);
    assert_eq!(docs[0], s("First document"));
    assert_eq!(docs[1], Yaml::Array(vec![s("Second document")]));
}

#[test]
fn nested_structure_matches_direct_construction() {
    let docs = load_from_str("a:\n  - 1\n  - [x, y]\nb: {c: d}\n").unwrap();
    let expected = hash(vec![
        (s("a"), Yaml::Array(vec![Yaml::Integer(1), Yaml::Array(vec![s("x"), s("y")])])),
        (s("b"), hash(vec![(s("c"), s("d"))])),
    ]);
    assert_eq!(docs, vec![expected]);
}

#[test]
fn alias_copies_anchored_mapping() {
    let docs = load_from_str("a: &x {k: v}\nb: *x\n").unwrap();
    assert_eq!(docs.len(), 1);
    let doc = docs.into_iter().next().unwrap();
    let entries = match doc {
        Yaml::Hash(m) => m.into_entries(),
        other => panic!("expected a mapping, got {:?}", other),
    };
    assert_eq!(entries.len(), 2);
    let mut it = entries.into_iter();
    let (_, original) = it.next().unwrap();
    let (_, alias) = it.next().unwrap();
    assert_eq!(original, alias);
    assert_eq!(original, hash(vec![(s("k"), s("v"))]));
    let mut copy = alias;
    if let Yaml::Hash(m) = &mut copy {
        m.insert(s("extra"), Yaml::Integer(2));
    }
    assert_ne!(original, copy);
    assert_eq!(original, hash(vec![(s("k"), s("v"))]));
}

#[test]
fn alias_to_unknown_anchor_is_bad_value() {
    let events = vec![
        Event::StreamStart,
        Event::DocumentStart,
        Event::SequenceStart(0),
        Event::Alias(7),
        plain("after"),
        Event::SequenceEnd,
        Event::DocumentEnd,
        Event::StreamEnd,
    ];
    let docs = load_from_events(&events).unwrap();
    assert_eq!(docs, vec![Yaml::Array(vec![Yaml::BadValue, s("after")])]);
}

#[test]
fn alias_to_anchored_scalar_from_events() {
    let events = vec![
        Event::StreamStart,
        Event::DocumentStart,
        Event::SequenceStart(0),
        Event::Scalar("5".to_owned(), ScalarStyle::Plain, 1, None),
        Event::Alias(1),
        Event::SequenceEnd,
        Event::DocumentEnd,
        Event::StreamEnd,
    ];
    let docs = load_from_events(&events).unwrap();
    assert_eq!(docs, vec![Yaml::Array(vec![Yaml::Integer(5), Yaml::Integer(5)])]);
}

#[test]
fn infinity_and_mistagged_int() {
    assert_eq!(resolve_scalar(".inf".to_owned(), &ScalarStyle::Plain, &None), Yaml::Real(".inf".to_owned()));
    let int_tag = Some(Tag { handle: "tag:yaml.org,2002:".to_owned(), suffix: "int".to_owned() });
    assert_eq!(resolve_scalar("abc".to_owned(), &ScalarStyle::Plain, &int_tag), Yaml::BadValue);
    assert_eq!(load_from_str(".inf\n").unwrap(), vec![Yaml::Real(".inf".to_owned())]);
    assert_eq!(load_from_str("!!int abc\n").unwrap(), vec![Yaml::BadValue]);
}

#[test]
fn empty_document_is_bad_value() {
    let events = vec![Event::StreamStart, Event::DocumentStart, Event::DocumentEnd, Event::StreamEnd];
    assert_eq!(load_from_events(&events).unwrap(), vec![Yaml::BadValue]);
}

#[test]
fn mapping_events_give_one_entry() {
    let mut loader = YamlLoader::new();
    loader.on_event(&Event::MappingStart(0));
    loader.on_event(&plain("k"));
    loader.on_event(&plain("v"));
    loader.on_event(&Event::MappingEnd);
    loader.on_event(&Event::DocumentEnd);
    assert_eq!(loader.into_documents(), vec![hash(vec![(s("k"), s("v"))])]);
}

#[test]
fn scan_error_fails_the_load() {
    assert!(load_from_str("key: [unclosed\n").is_err());
    assert!(load_from_str("a: 1\n---\nb: [\n").is_err());
    assert!(load_from_str_checked("key: [unclosed\n").is_err());
}

#[test]
fn checked_load_matches() {
    let docs = load_from_str_checked("- 1\n- true\n- ~\n- 2.5\n- 'q'\n").unwrap().unwrap();
    assert_eq!(
        docs,
        vec![Yaml::Array(vec![
            Yaml::Integer(1),
            Yaml::Boolean(true),
            Yaml::Null,
            Yaml::Real("2.5".to_owned()),
            s("q"),
        ])]
    );
}

#[test]
fn malformed_event_stream_is_refused() {
    let events = vec![Event::StreamStart, Event::SequenceEnd];
    assert_eq!(load_from_events(&events), None);
    let two_roots = vec![plain("a"), plain("b"), Event::DocumentEnd];
    assert_eq!(load_from_events(&two_roots), Some(vec![s("a")]));
}

#[test]
fn duplicate_key_moves_to_back() {
    let mut m = Mapping::new();
    m.insert(s("a"), Yaml::Integer(1));
    m.insert(s("b"), Yaml::Integer(2));
    m.insert(s("a"), Yaml::Integer(3));
    assert_eq!(m.len(), 2);
    assert_eq!(m.get(&s("a")), Some(&Yaml::Integer(3)));
    assert_eq!(m.get(&s("z")), None);
    assert_eq!(m.into_entries(), vec![(s("b"), Yaml::Integer(2)), (s("a"), Yaml::Integer(3))]);
}

#[test]
fn mapping_from_text_last_write_wins() {
    let docs = load_from_str("a: 1\nb: 2\na: 3\n").unwrap();
    assert_eq!(docs, vec![hash(vec![(s("b"), Yaml::Integer(2)), (s("a"), Yaml::Integer(3))])]);
}

#[test]
fn several_documents_in_order() {
    let docs = load_from_str("--- 1\n--- two\n--- [3]\n").unwrap();
    assert_eq!(docs, vec![Yaml::Integer(1), s("two"), Yaml::Array(vec![Yaml::Integer(3)])]);
}

#[test]
fn default_loader_is_empty() {
    let loader = YamlLoader::default();
    assert_eq!(loader.into_documents(), Vec::<Yaml>::new());
}
