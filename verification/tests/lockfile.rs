use pubspec::DecodeError;
use pubspec::DependencyKind;
use pubspec::Description;
use pubspec::LockFile;
use pubspec::Node;
use pubspec::Package;
use pubspec::PackageSource;
use pubspec::SortedMap;

const SAMPLE: &str = "sdks:
  dart: \">=2.12.0\"
packages:
  flutter:
    dependency: \"direct main\"
    source: \"sdk\"
    version: \"0.0.0\"
    description: \"flutter\"
  meta:
    dependency: \"transitive\"
    source: \"hosted\"
    version: \"1.8.0\"
    description:
      name: meta
      url: \"https://pub.dev\"
";

fn node_of_yaml(value: &serde_yaml::Value) -> Node {
    match value {
        serde_yaml::Value::Null => Node::Null,
        serde_yaml::Value::Bool(b) => Node::Bool(*b),
        serde_yaml::Value::Number(n) => Node::Number(n.to_string()),
        serde_yaml::Value::String(s) => Node::Str(s.clone()),
        serde_yaml::Value::Sequence(items) => Node::List(items.iter().map(node_of_yaml).collect()),
        serde_yaml::Value::Mapping(mapping) => Node::Record(
            mapping
                .iter()
                .map(|(k, v)| match k {
                    serde_yaml::Value::String(key) => (key.clone(), node_of_yaml(v)),
                    other => panic!("key {:?} is no string", other),
                })
                .collect(),
        ),
        serde_yaml::Value::Tagged(tagged) => node_of_yaml(&tagged.value),
    }
}

fn yaml_of_node(node: &Node) -> serde_yaml::Value {
    match node {
        Node::Null => serde_yaml::Value::Null,
        Node::Bool(b) => serde_yaml::Value::Bool(*b),
        Node::Number(s) => serde_yaml::from_str(s).unwrap(),
        Node::Str(s) => serde_yaml::Value::String(s.clone()),
        Node::List(items) => serde_yaml::Value::Sequence(items.iter().map(yaml_of_node).collect()),
        Node::Record(entries) => {
            let mut mapping = serde_yaml::Mapping::new();
            for (key, value) in entries {
                mapping.insert(serde_yaml::Value::String(key.clone()), yaml_of_node(value));
            }
            serde_yaml::Value::Mapping(mapping)
        }
    }
}

fn parse(text: &str) -> Node {
    node_of_yaml(&serde_yaml::from_str::<serde_yaml::Value>(text).unwrap())
}

fn print(node: &Node) -> String {
    serde_yaml::to_string(&yaml_of_node(node)).unwrap()
}

fn word(s: &str) -> Node {
    Node::Str(s.to_string())
}

fn table(entries: Vec<(&str, Node)>) -> Node {
    Node::Record(entries.into_iter().map(|(k, v)| (k.to_string(), v)).collect())
}

fn flutter_package() -> Package {
    Package {
        dependency: DependencyKind::DirectMain,
        source: PackageSource::Sdk,
        version: "0.0.0".to_string(),
        description: Description::Flutter,
    }
}

fn meta_package() -> Package {
    Package {
        dependency: DependencyKind::Transitive,
        source: PackageSource::Hosted,
        version: "1.8.0".to_string(),
        description: Description::Online {
            name: "meta".to_string(),
            url: "https://pub.dev".to_string(),
        },
    }
}

fn sample_lockfile() -> LockFile {
    let mut sdks: SortedMap<String> = SortedMap::new();
    sdks.insert("dart".to_string(), ">=2.12.0".to_string());
    let mut packages: SortedMap<Package> = SortedMap::new();
    packages.insert("flutter".to_string(), flutter_package());
    packages.insert("meta".to_string(), meta_package());
    LockFile { sdks, packages }
}

fn sample_node() -> Node {
    table(vec![
        ("sdks", table(vec![("dart", word(">=2.12.0"))])),
        (
            "packages",
            table(vec![
                (
                    "flutter",
                    table(vec![
                        ("dependency", word("direct main")),
                        ("source", word("sdk")),
                        ("version", word("0.0.0")),
                        ("description", word("flutter")),
                    ]),
                ),
                (
                    "meta",
                    table(vec![
                        ("dependency", word("transitive")),
                        ("source", word("hosted")),
                        ("version", word("1.8.0")),
                        (
                            "description",
                            table(vec![("name", word("meta")), ("url", word("https://pub.dev"))]),
                        ),
                    ]),
                ),
            ]),
        ),
    ])
}

fn keys_of(node: &Node) -> Vec<String> {
    match node {
        Node::Record(entries) => entries.iter().map(|(k, _)| k.clone()).collect(),
        other => panic!("expected a record, got {:?}", other),
    }
}

fn child<'a>(node: &'a Node, key: &str) -> &'a Node {
    match node {
        Node::Record(entries) => &entries.iter().find(|(k, _)| k == key).unwrap().1,
        other => panic!("expected a record, got {:?}", other),
    }
}

#[test]
fn sample_text_parses_to_the_sample_node() {
    assert_eq!(parse(SAMPLE), sample_node());
}

#[test]
fn sample_decodes_to_its_lockfile() {
    let lockfile = LockFile::decode(&parse(SAMPLE)).unwrap();
    assert_eq!(lockfile.sdks.len(), 1);
    assert_eq!(lockfile.sdks.get("dart"), Some(&">=2.12.0".to_string()));
    assert_eq!(lockfile.packages.len(), 2);
    assert_eq!(lockfile.packages.get("flutter"), Some(&flutter_package()));
    assert_eq!(lockfile.packages.get("meta"), Some(&meta_package()));
    assert_eq!(lockfile, sample_lockfile());
}

#[test]
fn sample_gives_the_same_lockfile_on_a_second_pass() {
    let first = LockFile::decode(&parse(SAMPLE)).unwrap();
    let text = print(&first.encode());
    let second = LockFile::decode(&parse(&text)).unwrap();
    assert_eq!(second, first);
    assert_eq!(second.encode(), first.encode());
}

#[test]
fn sample_encodes_to_its_own_node() {
    assert_eq!(sample_lockfile().encode(), sample_node());
}

#[test]
fn lockfiles_round_trip() {
    let empty = LockFile { sdks: SortedMap::new(), packages: SortedMap::new() };
    assert_eq!(LockFile::decode(&empty.encode()), Ok(empty));
    assert_eq!(LockFile::decode(&sample_lockfile().encode()), Ok(sample_lockfile()));
    let mut sdks: SortedMap<String> = SortedMap::new();
    sdks.insert("flutter".to_string(), ">=1.17.0".to_string());
    sdks.insert("dart".to_string(), ">=2.12.0 <3.0.0".to_string());
    let mut packages: SortedMap<Package> = SortedMap::new();
    for name in ["yaml", "args", "meta", "Path", "collection"] {
        let mut package = meta_package();
        package.version = format!("1.0.0+{}", name);
        packages.insert(name.to_string(), package);
    }
    let lockfile = LockFile { sdks, packages };
    let text = print(&lockfile.encode());
    assert_eq!(LockFile::decode(&parse(&text)), Ok(lockfile));
}

#[test]
fn encode_writes_keys_in_order_whatever_the_input_order() {
    let text = "packages:
  yaml: {dependency: transitive, source: hosted, version: '3.1.0', description: flutter}
  args: {dependency: direct main, source: hosted, version: '2.0.0', description: flutter}
  meta: {dependency: direct dev, source: hosted, version: '1.8.0', description: flutter}
  Zone: {dependency: direct dev, source: sdk, version: '0.1.0', description: flutter}
sdks:
  flutter: '>=1.17.0'
  dart: '>=2.12.0'
";
    let lockfile = LockFile::decode(&parse(text)).unwrap();
    let written = lockfile.encode();
    assert_eq!(keys_of(&written), vec!["sdks", "packages"]);
    assert_eq!(keys_of(child(&written, "sdks")), vec!["dart", "flutter"]);
    assert_eq!(keys_of(child(&written, "packages")), vec!["Zone", "args", "meta", "yaml"]);
    assert_eq!(lockfile.sdks.entry(0).unwrap().0, "dart");
    assert_eq!(lockfile.packages.entry(0).unwrap().0, "Zone");
    assert_eq!(lockfile.packages.entry(3).unwrap().0, "yaml");
}

#[test]
fn lockfile_missing_a_map_names_it() {
    let no_sdks = table(vec![("packages", table(vec![]))]);
    assert_eq!(LockFile::decode(&no_sdks), Err(DecodeError::MissingField("sdks".to_string())));
    let no_packages = table(vec![("sdks", table(vec![]))]);
    assert_eq!(
        LockFile::decode(&no_packages),
        Err(DecodeError::MissingField("packages".to_string()))
    );
    assert_eq!(
        LockFile::decode(&table(vec![])),
        Err(DecodeError::MissingField("sdks".to_string()))
    );
}

#[test]
fn lockfile_ignores_unknown_top_level_keys() {
    let node = table(vec![
        ("generated", Node::Bool(true)),
        ("sdks", table(vec![("dart", word(">=2.12.0"))])),
        ("version", Node::Number("2".to_string())),
        ("packages", table(vec![])),
        ("Packages", word("not read")),
    ]);
    let lockfile = LockFile::decode(&node).unwrap();
    assert_eq!(lockfile.sdks.len(), 1);
    assert_eq!(lockfile.packages.len(), 0);
    assert_eq!(keys_of(&lockfile.encode()), vec!["sdks", "packages"]);
}

#[test]
fn lockfile_maps_must_be_records() {
    let bad_sdks = table(vec![("sdks", word("dart")), ("packages", table(vec![]))]);
    assert_eq!(
        LockFile::decode(&bad_sdks),
        Err(DecodeError::TypeMismatch { expected: "map".to_string(), field: "sdks".to_string() })
    );
    let bad_packages = table(vec![("sdks", table(vec![])), ("packages", Node::List(vec![]))]);
    assert_eq!(
        LockFile::decode(&bad_packages),
        Err(DecodeError::TypeMismatch {
            expected: "map".to_string(),
            field: "packages".to_string(),
        })
    );
    assert_eq!(
        LockFile::decode(&Node::List(vec![])),
        Err(DecodeError::TypeMismatch {
            expected: "map".to_string(),
            field: "document".to_string(),
        })
    );
    assert_eq!(
        LockFile::decode(&word("sdks")),
        Err(DecodeError::TypeMismatch {
            expected: "map".to_string(),
            field: "document".to_string(),
        })
    );
}

#[test]
fn sdk_constraints_must_be_strings() {
    let node = table(vec![
        (
            "sdks",
            table(vec![("dart", word(">=2.12.0")), ("flutter", Node::Number("2".to_string()))]),
        ),
        ("packages", table(vec![])),
    ]);
    assert_eq!(
        LockFile::decode(&node),
        Err(DecodeError::TypeMismatch {
            expected: "string".to_string(),
            field: "flutter".to_string(),
        })
    );
}

#[test]
fn package_missing_version_fails_the_document_with_missing_version() {
    let text = "sdks:
  dart: \">=2.12.0\"
packages:
  meta:
    dependency: \"transitive\"
    source: \"hosted\"
    description:
      name: meta
      url: \"https://pub.dev\"
";
    assert_eq!(
        LockFile::decode(&parse(text)),
        Err(DecodeError::MissingField("version".to_string()))
    );
}

#[test]
fn nested_errors_reach_the_caller_unchanged() {
    let text = "sdks: {}
packages:
  good: {dependency: transitive, source: hosted, version: '1', description: flutter}
  bad: {dependency: transitive, source: hosted, version: '1', description: dart}
";
    assert_eq!(
        LockFile::decode(&parse(text)),
        Err(DecodeError::InvalidValue("dart".to_string()))
    );
    let text = "sdks: {}
packages:
  bad: {dependency: Transitive, source: hosted, version: '1', description: flutter}
";
    assert!(matches!(
        LockFile::decode(&parse(text)),
        Err(DecodeError::UnknownVariant { .. })
    ));
    let text = "sdks: {}
packages:
  bad: [transitive, hosted, '1', flutter]
";
    assert_eq!(
        LockFile::decode(&parse(text)),
        Err(DecodeError::TypeMismatch {
            expected: "map".to_string(),
            field: "package".to_string(),
        })
    );
}

#[test]
fn first_fault_of_the_document_wins() {
    let node = table(vec![
        ("packages", table(vec![("bad", Node::Null)])),
        ("sdks", word("also bad")),
    ]);
    assert_eq!(
        LockFile::decode(&node),
        Err(DecodeError::TypeMismatch {
            expected: "map".to_string(),
            field: "package".to_string(),
        })
    );
    let node = table(vec![("packages", word("bad"))]);
    assert_eq!(
        LockFile::decode(&node),
        Err(DecodeError::TypeMismatch {
            expected: "map".to_string(),
            field: "packages".to_string(),
        })
    );
}

#[test]
fn later_bindings_take_the_place_of_earlier_ones() {
    let node = table(vec![
        ("sdks", table(vec![("dart", word("old")), ("flutter", word("f")), ("dart", word("new"))])),
        ("packages", table(vec![])),
    ]);
    let lockfile = LockFile::decode(&node).unwrap();
    assert_eq!(lockfile.sdks.len(), 2);
    assert_eq!(lockfile.sdks.get("dart"), Some(&"new".to_string()));
    assert_eq!(lockfile.sdks.get("flutter"), Some(&"f".to_string()));
}

#[test]
fn sdk_and_package_maps_decode_and_encode_on_their_own() {
    let sdks = table(vec![("flutter", word("b")), ("dart", word("a"))]);
    let map = LockFile::decode_sdks(&sdks).unwrap();
    assert_eq!(map.entry(0), Some((&"dart".to_string(), &"a".to_string())));
    assert_eq!(map.entry(1), Some((&"flutter".to_string(), &"b".to_string())));
    assert_eq!(
        LockFile::encode_sdks(&map),
        table(vec![("dart", word("a")), ("flutter", word("b"))])
    );
    let packages =
        table(vec![("meta", meta_package().encode()), ("flutter", flutter_package().encode())]);
    let map = LockFile::decode_packages(&packages).unwrap();
    assert_eq!(map.entry(0), Some((&"flutter".to_string(), &flutter_package())));
    assert_eq!(map.entry(1), Some((&"meta".to_string(), &meta_package())));
    assert_eq!(
        LockFile::encode_packages(&map),
        table(vec![("flutter", flutter_package().encode()), ("meta", meta_package().encode())])
    );
}
