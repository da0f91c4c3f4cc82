use umvm::adventure::{
    find_commands, find_matching_paren, item_check, matching_paren_check, tokenize, try_combine,
    Item, Token,
};

fn chars(s: &str) -> Vec<char> {
    s.chars().collect()
}

fn strings(cmds: &[Vec<char>]) -> Vec<String> {
    cmds.iter().map(|c| c.iter().collect()).collect()
}

#[test]
fn tokenize_splits_identifiers_markers_and_parens() {
    let tokens = tokenize(&chars("(X-1 missing a Y-2) and Z"));
    assert_eq!(tokens.len(), 7);
    assert!(matches!(tokens[0], Token::ParOpen));
    assert!(matches!(&tokens[1], Token::Id(s) if s.iter().collect::<String>() == "X-1"));
    assert!(matches!(tokens[2], Token::Missing));
    assert!(matches!(&tokens[3], Token::Id(s) if s.iter().collect::<String>() == "Y-2"));
    assert!(matches!(tokens[4], Token::ParClose));
    assert!(matches!(tokens[5], Token::Missing));
    assert!(matches!(&tokens[6], Token::Id(s) if s.iter().collect::<String>() == "Z"));
}

#[test]
fn tokenize_skips_articles_and_empty_words() {
    let tokens = tokenize(&chars("a  a display"));
    assert_eq!(tokens.len(), 1);
    assert!(matches!(&tokens[0], Token::Id(s) if s.iter().collect::<String>() == "display"));
}

#[test]
fn tokenize_trailing_word_is_always_an_identifier() {
    // Mid-line, "a" is dropped and "missing"/"and" become the marker; a
    // trailing word is pushed as an identifier no matter what it reads.
    let tokens = tokenize(&chars("a"));
    assert_eq!(tokens.len(), 1);
    assert!(matches!(&tokens[0], Token::Id(s) if s.iter().collect::<String>() == "a"));
    let tokens = tokenize(&chars("x and"));
    assert_eq!(tokens.len(), 2);
    assert!(matches!(&tokens[0], Token::Id(s) if s.iter().collect::<String>() == "x"));
    assert!(matches!(&tokens[1], Token::Id(s) if s.iter().collect::<String>() == "and"));
    let tokens = tokenize(&chars("a missing"));
    assert_eq!(tokens.len(), 1);
    assert!(matches!(&tokens[0], Token::Id(s) if s.iter().collect::<String>() == "missing"));
}

#[test]
fn find_matching_paren_returns_closer_of_first_opener() {
    let tokens = tokenize(&chars("((a U missing a V) and a W) trailing"));
    let i = find_matching_paren(&tokens);
    assert!(matches!(tokens[i], Token::ParClose));
    // The outer parenthesis closes after U, V and W.
    assert_eq!(i, 8);
}

#[test]
fn matching_paren_check_finds_the_closer_or_nothing() {
    assert_eq!(matching_paren_check(&tokenize(&chars("(x) y"))), Some(2));
    assert_eq!(matching_paren_check(&tokenize(&chars("(x y"))), None);
    assert_eq!(matching_paren_check(&tokenize(&chars(") x"))), None);
}

#[test]
fn item_check_decides_whether_tokens_parse() {
    assert!(item_check(&tokenize(&chars("a top missing a leaf"))));
    assert!(item_check(&tokenize(&chars("a top missing (a mid missing a leaf) and a w"))));
    assert!(!item_check(&tokenize(&chars(""))));
    // A trailing "missing" is an identifier, so this parses.
    assert!(item_check(&tokenize(&chars("a top missing missing"))));
    // A second marker where a THING is due does not.
    assert!(!item_check(&tokenize(&chars("a top missing and a x"))));
}

#[test]
fn line_parses_accepts_good_lines_and_rejects_bad_dependency_text() {
    assert!(Item::line_parses(&chars("display")));
    assert!(Item::line_parses(&chars("top. a top missing a leaf. rest")));
    assert!(!Item::line_parses(&chars("bad. ) x.")));
}

#[test]
fn from_str_parses_name_sub_name_and_missing_list() {
    let it = Item::from_str(&chars("keypad rusty. a keypad missing a U-1 and a V-2. extra")).unwrap();
    assert_eq!(it.name.iter().collect::<String>(), "keypad");
    assert_eq!(it.sub_name.iter().collect::<String>(), "rusty");
    assert_eq!(it.missing.len(), 2);
    assert_eq!(it.missing[0].name.iter().collect::<String>(), "U-1");
    assert_eq!(it.missing[1].name.iter().collect::<String>(), "V-2");
}

#[test]
fn from_str_parses_nested_dependencies() {
    let it = Item::from_str(&chars("top. a top missing (a mid missing a leaf).")).unwrap();
    assert_eq!(it.missing.len(), 1);
    assert_eq!(it.missing[0].name.iter().collect::<String>(), "mid");
    assert_eq!(it.missing[0].missing.len(), 1);
    assert_eq!(it.missing[0].missing[0].name.iter().collect::<String>(), "leaf");
}

#[test]
fn from_str_without_dependency_text_has_no_missing() {
    let it = Item::from_str(&chars("display")).unwrap();
    assert_eq!(it.name.iter().collect::<String>(), "display");
    assert_eq!(it.sub_name.iter().collect::<String>(), "");
    assert!(it.missing.is_empty());
}

#[test]
fn take_and_incinerate_use_the_display_name() {
    let it = Item { name: chars("keypad"), sub_name: chars("rusty"), missing: Vec::new() };
    assert_eq!(it.name_str().iter().collect::<String>(), "rusty keypad");
    assert_eq!(it.take().iter().collect::<String>(), "take rusty keypad");
    assert_eq!(it.incinerate().iter().collect::<String>(), "incinerate rusty keypad");
    let plain = Item { name: chars("bolt"), sub_name: Vec::new(), missing: Vec::new() };
    assert_eq!(plain.take().iter().collect::<String>(), "take bolt");
}

#[test]
fn is_irrelevant_checks_the_name_pair() {
    let it = Item { name: chars("bolt"), sub_name: chars("shiny"), missing: Vec::new() };
    let relevant = vec![(chars("bolt"), chars("shiny"))];
    assert!(!it.is_irrelevant(&relevant));
    let other = vec![(chars("bolt"), chars("rusty"))];
    assert!(it.is_irrelevant(&other));
}

#[test]
fn try_combine_emits_admitted_pairs_and_consumes_parts() {
    let combos = vec![(chars("motor"), chars("cell")), (chars("frame"), chars("motor"))];
    let mut inv = vec![chars("motor"), chars("cell")];
    let cmds = try_combine(&combos, &mut inv);
    assert_eq!(strings(&cmds), vec!["combine motor cell".to_string()]);
    assert_eq!(strings(&inv), vec!["motor".to_string()]);
}

#[test]
fn find_commands_takes_incinerates_and_combines_in_order() {
    let items = vec![
        Item { name: chars("junk"), sub_name: Vec::new(), missing: Vec::new() },
        Item { name: chars("motor"), sub_name: Vec::new(), missing: Vec::new() },
        Item { name: chars("cell"), sub_name: Vec::new(), missing: Vec::new() },
    ];
    let combos = vec![(chars("motor"), chars("cell"))];
    let relevant = vec![(chars("motor"), chars("")), (chars("cell"), chars(""))];
    let (cmds, max_inv) = find_commands(&items, &combos, &relevant);
    assert_eq!(
        strings(&cmds),
        vec![
            "take junk".to_string(),
            "incinerate junk".to_string(),
            "take motor".to_string(),
            "take cell".to_string(),
            "combine motor cell".to_string(),
        ]
    );
    assert_eq!(max_inv, 2);
}
