use pubspec::DecodeError;
use pubspec::Description;
use pubspec::Node;

fn scalar(s: &str) -> Node {
    Node::Str(s.to_string())
}

fn record(entries: Vec<(&str, Node)>) -> Node {
    Node::Record(entries.into_iter().map(|(k, v)| (k.to_string(), v)).collect())
}

fn online(name: &str, url: &str) -> Description {
    Description::Online { name: name.to_string(), url: url.to_string() }
}

#[test]
fn flutter_string_decodes_to_flutter() {
    assert_eq!(Description::decode(&scalar("flutter")), Ok(Description::Flutter));
}

#[test]
fn other_strings_are_invalid_values() {
    assert_eq!(
        Description::decode(&scalar("dart")),
        Err(DecodeError::InvalidValue("dart".to_string()))
    );
    assert_eq!(
        Description::decode(&scalar("Flutter")),
        Err(DecodeError::InvalidValue("Flutter".to_string()))
    );
    assert_eq!(
        Description::decode(&scalar("flutter ")),
        Err(DecodeError::InvalidValue("flutter ".to_string()))
    );
    assert_eq!(Description::decode(&scalar("")), Err(DecodeError::InvalidValue(String::new())));
}

#[test]
fn record_with_extra_key_decodes_to_online() {
    let node = record(vec![("name", scalar("x")), ("url", scalar("y")), ("extra", scalar("z"))]);
    assert_eq!(Description::decode(&node), Ok(online("x", "y")));
}

#[test]
fn ignored_keys_may_hold_any_shape() {
    let node = record(vec![
        ("sha256", Node::Number("17".to_string())),
        ("url", scalar("https://pub.dev")),
        ("path", Node::List(vec![Node::Null])),
        ("name", scalar("meta")),
        ("nested", record(vec![("name", Node::Bool(false))])),
    ]);
    assert_eq!(Description::decode(&node), Ok(online("meta", "https://pub.dev")));
}

#[test]
fn record_keys_may_come_in_either_order() {
    let forward = record(vec![("name", scalar("a")), ("url", scalar("b"))]);
    let backward = record(vec![("url", scalar("b")), ("name", scalar("a"))]);
    assert_eq!(Description::decode(&forward), Ok(online("a", "b")));
    assert_eq!(Description::decode(&backward), Ok(online("a", "b")));
}

#[test]
fn record_missing_url_fails_with_missing_url() {
    let node = record(vec![("name", scalar("x"))]);
    assert_eq!(Description::decode(&node), Err(DecodeError::MissingField("url".to_string())));
}

#[test]
fn record_missing_name_fails_with_missing_name() {
    let node = record(vec![("url", scalar("y"))]);
    assert_eq!(Description::decode(&node), Err(DecodeError::MissingField("name".to_string())));
}

#[test]
fn empty_record_reports_name_first() {
    assert_eq!(
        Description::decode(&record(vec![])),
        Err(DecodeError::MissingField("name".to_string()))
    );
    let only_others = record(vec![("Name", scalar("x")), ("URL", scalar("y"))]);
    assert_eq!(
        Description::decode(&only_others),
        Err(DecodeError::MissingField("name".to_string()))
    );
}

#[test]
fn other_shapes_are_type_mismatches() {
    let expected = Err(DecodeError::TypeMismatch {
        expected: "string or map".to_string(),
        field: "description".to_string(),
    });
    assert_eq!(Description::decode(&Node::Null), expected);
    assert_eq!(Description::decode(&Node::Bool(false)), expected);
    assert_eq!(Description::decode(&Node::Number("1.5".to_string())), expected);
    assert_eq!(Description::decode(&Node::List(vec![scalar("flutter")])), expected);
}

#[test]
fn name_and_url_must_be_strings() {
    let bad_name = record(vec![("name", Node::Number("5".to_string())), ("url", scalar("y"))]);
    assert_eq!(
        Description::decode(&bad_name),
        Err(DecodeError::TypeMismatch { expected: "string".to_string(), field: "name".to_string() })
    );
    let bad_url = record(vec![("name", scalar("x")), ("url", Node::Null)]);
    assert_eq!(
        Description::decode(&bad_url),
        Err(DecodeError::TypeMismatch { expected: "string".to_string(), field: "url".to_string() })
    );
}

#[test]
fn first_fault_in_document_order_wins() {
    let url_first = record(vec![("url", Node::Null), ("name", Node::Null)]);
    assert_eq!(
        Description::decode(&url_first),
        Err(DecodeError::TypeMismatch { expected: "string".to_string(), field: "url".to_string() })
    );
    let fault_before_missing = record(vec![("url", Node::Bool(true))]);
    assert_eq!(
        Description::decode(&fault_before_missing),
        Err(DecodeError::TypeMismatch { expected: "string".to_string(), field: "url".to_string() })
    );
}

#[test]
fn last_binding_of_a_key_counts() {
    let node = record(vec![
        ("name", scalar("old")),
        ("url", scalar("u")),
        ("name", scalar("new")),
    ]);
    assert_eq!(Description::decode(&node), Ok(online("new", "u")));
}

#[test]
fn flutter_encodes_to_the_bare_string() {
    assert_eq!(Description::Flutter.encode(), scalar("flutter"));
}

#[test]
fn online_encodes_to_exactly_name_and_url() {
    assert_eq!(
        online("meta", "https://pub.dev").encode(),
        record(vec![("name", scalar("meta")), ("url", scalar("https://pub.dev"))])
    );
}

#[test]
fn extra_keys_do_not_come_back_on_encode() {
    let node = record(vec![
        ("extra", scalar("z")),
        ("url", scalar("y")),
        ("more", Node::List(vec![])),
        ("name", scalar("x")),
    ]);
    let decoded = Description::decode(&node).unwrap();
    let written = decoded.encode();
    match &written {
        Node::Record(entries) => {
            assert_eq!(entries.len(), 2);
            assert_eq!(entries[0], ("name".to_string(), scalar("x")));
            assert_eq!(entries[1], ("url".to_string(), scalar("y")));
        }
        other => panic!("expected a record, got {:?}", other),
    }
    assert_eq!(Description::decode(&written), Ok(decoded));
}

#[test]
fn descriptions_round_trip() {
    let samples =
        [Description::Flutter, online("", ""), online("flutter", "flutter"), online("é", "ü")];
    for d in samples {
        assert_eq!(Description::decode(&d.encode()), Ok(d));
    }
}
