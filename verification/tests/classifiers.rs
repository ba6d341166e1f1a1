use pubspec::DecodeError;
use pubspec::DependencyKind;
use pubspec::Node;
use pubspec::PackageSource;

fn text_node(s: &str) -> Node {
    Node::Str(s.to_string())
}

#[test]
fn dependency_kind_decodes_each_string() {
    assert_eq!(DependencyKind::decode(&text_node("direct main")), Ok(DependencyKind::DirectMain));
    assert_eq!(DependencyKind::decode(&text_node("direct dev")), Ok(DependencyKind::DirectDev));
    assert_eq!(DependencyKind::decode(&text_node("transitive")), Ok(DependencyKind::Transitive));
}

#[test]
fn dependency_kind_rejects_wrong_case() {
    assert_eq!(
        DependencyKind::decode(&text_node("Direct Main")),
        Err(DecodeError::UnknownVariant {
            value: "Direct Main".to_string(),
            allowed: vec![
                "direct main".to_string(),
                "direct dev".to_string(),
                "transitive".to_string(),
            ],
        })
    );
}

#[test]
fn dependency_kind_does_not_trim() {
    assert!(matches!(
        DependencyKind::decode(&text_node(" direct main")),
        Err(DecodeError::UnknownVariant { .. })
    ));
    assert!(matches!(
        DependencyKind::decode(&text_node("transitive ")),
        Err(DecodeError::UnknownVariant { .. })
    ));
    assert!(matches!(
        DependencyKind::decode(&text_node("")),
        Err(DecodeError::UnknownVariant { .. })
    ));
    assert!(matches!(
        DependencyKind::decode(&text_node("direct")),
        Err(DecodeError::UnknownVariant { .. })
    ));
}

#[test]
fn dependency_kind_rejects_other_shapes() {
    let expected = Err(DecodeError::TypeMismatch {
        expected: "string".to_string(),
        field: "dependency".to_string(),
    });
    assert_eq!(DependencyKind::decode(&Node::Null), expected);
    assert_eq!(DependencyKind::decode(&Node::Bool(true)), expected);
    assert_eq!(DependencyKind::decode(&Node::Number("3".to_string())), expected);
    assert_eq!(DependencyKind::decode(&Node::List(vec![text_node("transitive")])), expected);
    assert_eq!(DependencyKind::decode(&Node::Record(vec![])), expected);
}

#[test]
fn dependency_kind_encodes_to_its_string() {
    assert_eq!(DependencyKind::DirectMain.encode(), text_node("direct main"));
    assert_eq!(DependencyKind::DirectDev.encode(), text_node("direct dev"));
    assert_eq!(DependencyKind::Transitive.encode(), text_node("transitive"));
    assert_eq!(DependencyKind::DirectMain.as_str(), "direct main");
    assert_eq!(DependencyKind::DirectDev.as_str(), "direct dev");
    assert_eq!(DependencyKind::Transitive.as_str(), "transitive");
}

#[test]
fn dependency_kind_round_trips() {
    let kinds =
        [DependencyKind::DirectMain, DependencyKind::DirectDev, DependencyKind::Transitive];
    for kind in kinds {
        assert_eq!(DependencyKind::decode(&kind.encode()), Ok(kind));
        assert_eq!(DependencyKind::parse(kind.as_str()), Some(kind));
    }
}

#[test]
fn dependency_kind_parse_is_exact() {
    assert_eq!(DependencyKind::parse("direct main"), Some(DependencyKind::DirectMain));
    assert_eq!(DependencyKind::parse("direct  main"), None);
    assert_eq!(DependencyKind::parse("DIRECT DEV"), None);
    assert_eq!(DependencyKind::parse("sdk"), None);
}

#[test]
fn package_source_decodes_each_string() {
    assert_eq!(PackageSource::decode(&text_node("sdk")), Ok(PackageSource::Sdk));
    assert_eq!(PackageSource::decode(&text_node("hosted")), Ok(PackageSource::Hosted));
}

#[test]
fn package_source_rejects_unknown_strings() {
    assert_eq!(
        PackageSource::decode(&text_node("git")),
        Err(DecodeError::UnknownVariant {
            value: "git".to_string(),
            allowed: vec!["sdk".to_string(), "hosted".to_string()],
        })
    );
    assert!(matches!(
        PackageSource::decode(&text_node("Sdk")),
        Err(DecodeError::UnknownVariant { .. })
    ));
    assert!(matches!(
        PackageSource::decode(&text_node("hosted\n")),
        Err(DecodeError::UnknownVariant { .. })
    ));
}

#[test]
fn package_source_rejects_other_shapes() {
    let expected = Err(DecodeError::TypeMismatch {
        expected: "string".to_string(),
        field: "source".to_string(),
    });
    assert_eq!(PackageSource::decode(&Node::Null), expected);
    assert_eq!(PackageSource::decode(&Node::Record(vec![])), expected);
}

#[test]
fn package_source_round_trips() {
    for source in [PackageSource::Sdk, PackageSource::Hosted] {
        assert_eq!(PackageSource::decode(&source.encode()), Ok(source));
        assert_eq!(PackageSource::parse(source.as_str()), Some(source));
    }
    assert_eq!(PackageSource::Sdk.encode(), text_node("sdk"));
    assert_eq!(PackageSource::Hosted.encode(), text_node("hosted"));
    assert_eq!(PackageSource::parse("transitive"), None);
}
