use sd_cwt::input::{
    collect_tagged_keys, is_disclosure, ClaimKey, ClaimNode, InputClaims, InputError,
};
use serde_yaml::Value;

fn key_of(value: &Value) -> ClaimKey {
    match value {
        Value::Tagged(tagged) => ClaimKey::Tagged {
            tag: tagged.tag.to_string(),
            text: tagged.value.as_str().map(String::from),
        },
        Value::String(text) => ClaimKey::Text(text.clone()),
        _ => ClaimKey::Other,
    }
}

fn node_of(value: &Value) -> ClaimNode {
    match value {
        Value::Mapping(entries) => {
            ClaimNode::Mapping(entries.iter().map(|(k, v)| (key_of(k), node_of(v))).collect())
        }
        Value::Sequence(items) => ClaimNode::Sequence(items.iter().map(node_of).collect()),
        Value::Tagged(tagged) => ClaimNode::Tagged {
            tag: tagged.tag.to_string(),
            text: tagged.value.as_str().map(String::from),
        },
        Value::String(text) => ClaimNode::Text(text.clone()),
        _ => ClaimNode::Other,
    }
}

fn claims_of(yaml: &str) -> Result<InputClaims, sd_cwt::input::InputFailure> {
    let value: Value = serde_yaml::from_str(yaml).unwrap();
    InputClaims::from_tree(node_of(&value))
}

fn text(s: &str) -> ClaimNode {
    ClaimNode::Text(String::from(s))
}

fn marked(s: &str) -> ClaimNode {
    ClaimNode::Tagged { tag: String::from("!sd"), text: Some(String::from(s)) }
}

#[test]
fn should_parse() {
    let yaml = r#"
            sub: user_42
            !sd given_name: John
        "#;

    let input = claims_of(yaml).unwrap();

    println!("{:?}", input.raw);
    println!("{:?}", input.disclosable_paths);
}

#[test]
fn a_marked_key_at_the_root_gives_its_path() {
    let input = claims_of("sub: user_42\n!sd given_name: John\n").unwrap();
    assert_eq!(input.disclosable_paths, vec![String::from("/given_name")]);
    assert_eq!(
        format!("{:?}", input.raw),
        format!(
            "{:?}",
            ClaimNode::Mapping(vec![
                (ClaimKey::Text(String::from("sub")), text("user_42")),
                (
                    ClaimKey::Tagged {
                        tag: String::from("!sd"),
                        text: Some(String::from("given_name"))
                    },
                    text("John")
                ),
            ])
        )
    );
}

#[test]
fn a_marked_key_below_a_mapping_gives_the_joined_path() {
    let yaml = "address:\n  !sd street_address: 123 Main St\n  !sd locality: Anytown\n  region: Anystate\n";
    let input = claims_of(yaml).unwrap();
    assert_eq!(
        input.disclosable_paths,
        vec![String::from("address/street_address"), String::from("address/locality")]
    );
}

#[test]
fn marked_elements_of_a_sequence_become_their_strings() {
    let yaml = "nationalities:\n  - !sd US\n  - !sd DE\n  - PL\n";
    let input = claims_of(yaml).unwrap();
    assert_eq!(
        input.disclosable_paths,
        vec![String::from("/nationalities/0"), String::from("/nationalities/1")]
    );
    assert_eq!(
        format!("{:?}", input.raw),
        format!(
            "{:?}",
            ClaimNode::Mapping(vec![(
                ClaimKey::Text(String::from("nationalities")),
                ClaimNode::Sequence(vec![text("US"), text("DE"), text("PL")]),
            )])
        )
    );
}

#[test]
fn the_position_in_a_sequence_is_written_in_decimal() {
    let mut items: Vec<ClaimNode> = Vec::new();
    for _ in 0..11 {
        items.push(text("x"));
    }
    items.push(marked("y"));
    let mut path = vec![String::from("list")];
    let mut paths = Vec::new();
    let out = collect_tagged_keys(ClaimNode::Sequence(items), &mut path, &mut paths).unwrap();
    assert_eq!(paths, vec![String::from("/list/11")]);
    assert_eq!(path, vec![String::from("list")]);
    match out {
        ClaimNode::Sequence(items) => {
            assert_eq!(items.len(), 12);
            assert_eq!(format!("{:?}", items[11]), format!("{:?}", text("y")));
        }
        other => panic!("no sequence: {:?}", other),
    }
}

#[test]
fn a_marked_value_under_a_key_gives_the_path_of_the_key_and_stays_marked() {
    let node = ClaimNode::Mapping(vec![(ClaimKey::Text(String::from("email")), marked("a@b.c"))]);
    let input = InputClaims::from_tree(node).unwrap();
    assert_eq!(input.disclosable_paths, vec![String::from("/email")]);
    assert_eq!(
        format!("{:?}", input.raw),
        format!(
            "{:?}",
            ClaimNode::Mapping(vec![(ClaimKey::Text(String::from("email")), marked("a@b.c"))])
        )
    );
}

#[test]
fn a_marked_value_at_the_root_gives_the_empty_path() {
    let input = InputClaims::from_tree(marked("x")).unwrap();
    assert_eq!(input.disclosable_paths, vec![String::new()]);
}

#[test]
fn a_marked_key_that_is_no_string_is_refused() {
    let node = ClaimNode::Mapping(vec![
        (ClaimKey::Tagged { tag: String::from("!sd"), text: Some(String::from("a")) }, text("1")),
        (
            ClaimKey::Text(String::from("inner")),
            ClaimNode::Mapping(vec![(
                ClaimKey::Tagged { tag: String::from("!sd"), text: None },
                text("2"),
            )]),
        ),
        (ClaimKey::Tagged { tag: String::from("!sd"), text: Some(String::from("b")) }, text("3")),
    ]);
    let failure = InputClaims::from_tree(node).unwrap_err();
    assert_eq!(failure.path, vec![String::from("inner")]);
    match failure.error {
        InputError::InvalidInput { tag } => assert_eq!(tag, "!sd"),
    }
}

#[test]
fn a_marked_element_that_is_no_string_is_refused_where_it_stands() {
    let node = ClaimNode::Sequence(vec![
        text("a"),
        ClaimNode::Tagged { tag: String::from("sd"), text: None },
    ]);
    let mut path = Vec::new();
    let mut paths = Vec::new();
    let failure = collect_tagged_keys(node, &mut path, &mut paths).unwrap_err();
    assert_eq!(path, vec![String::from("1")]);
    assert_eq!(paths, vec![String::from("/1")]);
    match failure {
        InputError::InvalidInput { tag } => assert_eq!(tag, "sd"),
    }
}

#[test]
fn a_tag_marks_with_or_without_its_exclamation_mark() {
    assert!(is_disclosure(&String::from("!sd")));
    assert!(is_disclosure(&String::from("sd")));
    assert!(!is_disclosure(&String::from("!!sd")));
    assert!(!is_disclosure(&String::from("!other")));
    assert!(!is_disclosure(&String::from("!")));
    assert!(!is_disclosure(&String::new()));
}

#[test]
fn another_tag_marks_nothing() {
    let node = ClaimNode::Mapping(vec![
        (ClaimKey::Tagged { tag: String::from("!other"), text: None }, text("1")),
        (
            ClaimKey::Text(String::from("list")),
            ClaimNode::Sequence(vec![ClaimNode::Tagged {
                tag: String::from("!other"),
                text: Some(String::from("x")),
            }]),
        ),
        (ClaimKey::Other, marked("ignored")),
    ]);
    let input = InputClaims::from_tree(node).unwrap();
    assert!(input.disclosable_paths.is_empty());
}
