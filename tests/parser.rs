use rpg_chat_command_parser::flags::FlagMap;
use rpg_chat_command_parser::grammar::{recognize, Node};
use rpg_chat_command_parser::parser::extract;
use rpg_chat_command_parser::{parse_command, CommandError};

#[test]
fn test_missing_verb() {
    let input = "--power=high";
    let result = parse_command(input);
    assert!(matches!(result, Err(CommandError::InvalidSyntax)));
}

#[test]
fn test_missing_flag_key() {
    let input = "/cast fireball --=high";
    let result = parse_command(input);
    assert!(matches!(result, Err(CommandError::MissingFlagKey)));
}

#[test]
fn test_invalid_flag_key() {
    let input = "/cast fireball --==high";
    let result = parse_command(input);
    assert!(matches!(result, Err(CommandError::MissingFlagKey)));
}

#[test]
fn test_missing_flag_value() {
    let input = "/cast fireball --power=";
    let result = parse_command(input);
    assert!(matches!(result, Err(CommandError::MissingFlagValue)));
}

#[test]
fn test_valid_command() {
    let input = "/cast fireball --power=high";
    let result = parse_command(input).unwrap();
    assert_eq!(result.verb, "cast");
    assert_eq!(result.target, Some("fireball".to_string()));
    assert_eq!(result.flags.get("power"), Some(&"high".to_string()));
}

#[test]
fn valid_command_has_exactly_one_flag() {
    let result = parse_command("/cast fireball --power=high").unwrap();
    assert_eq!(result.flags.len(), 1);
    assert_eq!(result.flags.get("fireball"), None);
}

#[test]
fn single_token_after_verb_is_target() {
    let result = parse_command("/equip sword").unwrap();
    assert_eq!(result.verb, "equip");
    assert_eq!(result.target, Some("sword".to_string()));
    assert!(result.flags.is_empty());
    assert_eq!(result.flags.len(), 0);
}

#[test]
fn verb_alone() {
    let result = parse_command("/look").unwrap();
    assert_eq!(result.verb, "look");
    assert_eq!(result.target, None);
    assert!(result.flags.is_empty());
}

#[test]
fn flags_without_target() {
    let result = parse_command("/cast --power=high --range=far").unwrap();
    assert_eq!(result.verb, "cast");
    assert_eq!(result.target, None);
    assert_eq!(result.flags.len(), 2);
    assert_eq!(result.flags.get("power"), Some(&"high".to_string()));
    assert_eq!(result.flags.get("range"), Some(&"far".to_string()));
}

#[test]
fn later_flag_overwrites_earlier() {
    let result = parse_command("/cast fireball --power=low --power=high").unwrap();
    assert_eq!(result.flags.len(), 1);
    assert_eq!(result.flags.get("power"), Some(&"high".to_string()));
}

#[test]
fn parsing_twice_gives_equal_results() {
    for input in [
        "/cast fireball --power=high",
        "/cast fireball --power=low --power=high",
        "/equip sword",
        "/cast fireball --=high",
        "",
    ] {
        assert_eq!(parse_command(input), parse_command(input));
    }
}

#[test]
fn flag_order_does_not_change_equality() {
    let a = parse_command("/cast x --a=1 --b=2").unwrap();
    let b = parse_command("/cast x --b=2 --a=1").unwrap();
    assert_eq!(a, b);
    let c = parse_command("/cast x --b=3 --a=1").unwrap();
    assert_ne!(a, c);
}

#[test]
fn empty_input_is_invalid() {
    assert_eq!(parse_command(""), Err(CommandError::InvalidSyntax));
}

#[test]
fn whitespace_only_input_is_invalid() {
    assert_eq!(parse_command("   "), Err(CommandError::InvalidSyntax));
    assert_eq!(parse_command(" \t "), Err(CommandError::InvalidSyntax));
}

#[test]
fn leading_space_is_invalid() {
    assert_eq!(parse_command(" /cast fireball"), Err(CommandError::InvalidSyntax));
}

#[test]
fn space_after_slash_is_invalid() {
    assert_eq!(parse_command("/ cast"), Err(CommandError::InvalidSyntax));
    assert_eq!(parse_command("/"), Err(CommandError::InvalidSyntax));
}

#[test]
fn verb_with_punctuation_is_invalid() {
    assert_eq!(parse_command("/cast! fireball"), Err(CommandError::InvalidSyntax));
}

#[test]
fn second_target_is_invalid() {
    assert_eq!(parse_command("/cast fire ball"), Err(CommandError::InvalidSyntax));
    assert_eq!(parse_command("/cast --power=high fireball"), Err(CommandError::InvalidSyntax));
}

#[test]
fn flag_without_equals_is_invalid() {
    assert_eq!(parse_command("/cast fireball --power"), Err(CommandError::InvalidSyntax));
    assert_eq!(parse_command("/cast fireball --"), Err(CommandError::InvalidSyntax));
}

#[test]
fn key_with_double_dash_is_missing_key() {
    assert_eq!(parse_command("/cast x --a--b=1"), Err(CommandError::MissingFlagKey));
}

#[test]
fn first_flag_error_wins() {
    assert_eq!(parse_command("/cast x --=a --b="), Err(CommandError::MissingFlagKey));
    assert_eq!(parse_command("/cast x --b= --=a"), Err(CommandError::MissingFlagValue));
    assert_eq!(parse_command("/cast x --b= --c"), Err(CommandError::MissingFlagValue));
}

#[test]
fn value_keeps_later_equals_signs() {
    let result = parse_command("/set x --expr=a=b").unwrap();
    assert_eq!(result.flags.get("expr"), Some(&"a=b".to_string()));
}

#[test]
fn extra_spaces_between_segments() {
    let result = parse_command("/cast   fireball\t--power=high  ").unwrap();
    assert_eq!(result.verb, "cast");
    assert_eq!(result.target, Some("fireball".to_string()));
    assert_eq!(result.flags.get("power"), Some(&"high".to_string()));
}

#[test]
fn non_ascii_target_and_value() {
    let result = parse_command("/cast feuerbäll --stärke=höch").unwrap();
    assert_eq!(result.target, Some("feuerbäll".to_string()));
    assert_eq!(result.flags.get("stärke"), Some(&"höch".to_string()));
}

#[test]
fn recognize_yields_nodes_in_order() {
    let nodes = recognize("/cast fireball --power=high --loud").unwrap();
    assert_eq!(
        nodes,
        vec![
            Node::Verb("cast".to_string()),
            Node::Target("fireball".to_string()),
            Node::Flag { key: Some("power".to_string()), value: Some("high".to_string()) },
            Node::BadFlag("--loud".to_string()),
        ]
    );
    assert_eq!(recognize("cast"), None);
}

#[test]
fn extract_without_verb_is_missing_verb() {
    let nodes = vec![
        Node::Target("fireball".to_string()),
        Node::Flag { key: Some("power".to_string()), value: Some("high".to_string()) },
    ];
    assert_eq!(extract(&nodes), Err(CommandError::MissingVerb));
}

#[test]
fn extract_absent_key_or_value() {
    let no_key = vec![
        Node::Verb("cast".to_string()),
        Node::Flag { key: None, value: Some("high".to_string()) },
    ];
    assert_eq!(extract(&no_key), Err(CommandError::MissingFlagKey));
    let no_value = vec![
        Node::Verb("cast".to_string()),
        Node::Flag { key: Some("power".to_string()), value: None },
    ];
    assert_eq!(extract(&no_value), Err(CommandError::MissingFlagValue));
    let eq_key = vec![
        Node::Verb("cast".to_string()),
        Node::Flag { key: Some("=p".to_string()), value: Some("v".to_string()) },
    ];
    assert_eq!(extract(&eq_key), Err(CommandError::MissingFlagKey));
}

#[test]
fn extract_later_verb_overwrites() {
    let nodes = vec![Node::Verb("cast".to_string()), Node::Verb("throw".to_string())];
    let result = extract(&nodes).unwrap();
    assert_eq!(result.verb, "throw");
}

#[test]
fn flag_map_insert_and_get() {
    let mut m = FlagMap::new();
    assert!(m.is_empty());
    m.insert("a".to_string(), "1".to_string());
    m.insert("b".to_string(), "2".to_string());
    m.insert("a".to_string(), "3".to_string());
    assert_eq!(m.len(), 2);
    assert_eq!(m.get("a"), Some(&"3".to_string()));
    assert_eq!(m.get("b"), Some(&"2".to_string()));
    assert_eq!(m.get("c"), None);
}

#[test]
fn unicode_whitespace_separates_segments() {
    assert_eq!(parse_command("/cast a\u{c}b"), Err(CommandError::InvalidSyntax));
    let result = parse_command("/cast\u{a0}fireball\u{2003}--power=high\u{b}").unwrap();
    assert_eq!(result.verb, "cast");
    assert_eq!(result.target, Some("fireball".to_string()));
    assert_eq!(result.flags.get("power"), Some(&"high".to_string()));
    assert_eq!(parse_command("/cast x --a=b\u{85}c"), Err(CommandError::InvalidSyntax));
}

#[test]
fn unicode_letters_and_digits_form_a_verb() {
    let result = parse_command("/\u{e9}").unwrap();
    assert_eq!(result.verb, "\u{e9}");
    let result = parse_command("/zaubern_2 feuerball").unwrap();
    assert_eq!(result.verb, "zaubern_2");
    let result = parse_command("/\u{421}\u{0663} x").unwrap();
    assert_eq!(result.verb, "\u{421}\u{0663}");
    assert_eq!(parse_command("/caf\u{e9}-x"), Err(CommandError::InvalidSyntax));
}

#[test]
fn flag_map_pairs_lists_each_key_once() {
    let result = parse_command("/cast x --a=1 --b=2 --a=3").unwrap();
    let mut pairs = result.flags.pairs();
    pairs.sort();
    assert_eq!(
        pairs,
        vec![("a".to_string(), "3".to_string()), ("b".to_string(), "2".to_string())]
    );
    assert!(FlagMap::new().pairs().is_empty());
}
