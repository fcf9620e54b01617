use grid_rewrite::category::{category_of_symbol, CategoryId};
use grid_rewrite::rules::{convert_string_to_pattern, parse_rules, LoadError};

fn cat(c: u8) -> CategoryId {
    category_of_symbol(c).unwrap()
}

fn codes(v: &Vec<CategoryId>) -> Vec<u8> {
    v.iter().map(|c| c.code).collect()
}

#[test]
fn symbol_table_known_and_unknown() {
    assert_eq!(category_of_symbol(b'k'), Some(CategoryId { code: b'k' }));
    assert_eq!(category_of_symbol(b'w'), Some(CategoryId { code: b'w' }));
    assert_eq!(category_of_symbol(b'g'), Some(CategoryId { code: b'g' }));
    assert_eq!(category_of_symbol(b'r'), Some(CategoryId { code: b'r' }));
    assert_eq!(category_of_symbol(b'p'), Some(CategoryId { code: b'p' }));
    assert_eq!(category_of_symbol(b'b'), Some(CategoryId { code: b'b' }));
    assert_eq!(category_of_symbol(b'z'), None);
    assert_eq!(category_of_symbol(b'='), None);
}

#[test]
fn parse_single_rule_reverses_replacement() {
    let line: Vec<u8> = b"kww=kgg".to_vec();
    let rule = convert_string_to_pattern(&line).unwrap().unwrap();
    assert_eq!(codes(&rule.pattern_to_replace), b"kww".to_vec());
    // The right side is stored reversed, a preserved quirk of the format.
    assert_eq!(codes(&rule.replacement_pattern), b"ggk".to_vec());
}

#[test]
fn parse_blank_and_comment_lines_are_skipped() {
    assert!(convert_string_to_pattern(&b"".to_vec()).unwrap().is_none());
    assert!(convert_string_to_pattern(&b"   ".to_vec()).unwrap().is_none());
    assert!(convert_string_to_pattern(&b"// a comment".to_vec()).unwrap().is_none());
    let rule = convert_string_to_pattern(&b"  kw=gg  // trailing".to_vec()).unwrap().unwrap();
    assert_eq!(codes(&rule.pattern_to_replace), b"kw".to_vec());
    assert_eq!(codes(&rule.replacement_pattern), b"gg".to_vec());
}

#[test]
fn parse_parenthesized_line() {
    let rule = convert_string_to_pattern(&b"(kw=gg)".to_vec()).unwrap().unwrap();
    assert_eq!(codes(&rule.pattern_to_replace), b"kw".to_vec());
    assert_eq!(codes(&rule.replacement_pattern), b"gg".to_vec());
}

#[test]
fn parse_rejects_unequal_sides() {
    let line: Vec<u8> = b"kw=g".to_vec();
    match convert_string_to_pattern(&line) {
        Err(LoadError::UnequalLength { line: l }) => assert_eq!(l, line),
        _ => panic!("expected an unequal-length error"),
    }
}

#[test]
fn parse_rejects_wrong_side_count() {
    match convert_string_to_pattern(&b"kwg".to_vec()) {
        Err(LoadError::SideCount { .. }) => (),
        _ => panic!("expected a side-count error for a line without ="),
    }
    match convert_string_to_pattern(&b"k=w=g".to_vec()) {
        Err(LoadError::SideCount { .. }) => (),
        _ => panic!("expected a side-count error for a line with two ="),
    }
}

#[test]
fn paren_only_line_is_a_fatal_error() {
    // A line of only parens has non-blank trimmed code: it is parsed, its
    // parens are stripped, and the empty remainder fails the side count.
    for line in [b"()".to_vec(), b"(".to_vec(), b"  ()  // note".to_vec()] {
        match convert_string_to_pattern(&line) {
            Err(LoadError::SideCount { line: l }) => assert_eq!(l, line),
            _ => panic!("expected a paren-only line to be a fatal side-count error"),
        }
    }
    let text: Vec<u8> = [b"kw=gg".to_vec(), b"()".to_vec()].join(&b'\n');
    match parse_rules(&text) {
        Err(LoadError::SideCount { line }) => assert_eq!(line, b"()".to_vec()),
        _ => panic!("expected the loader to reject the paren-only line"),
    }
}

#[test]
fn parse_rejects_unknown_symbol() {
    match convert_string_to_pattern(&b"kz=ww".to_vec()) {
        Err(LoadError::UnknownSymbol { .. }) => (),
        _ => panic!("expected an unknown-symbol error"),
    }
}

#[test]
fn parse_rejects_empty_sides() {
    match convert_string_to_pattern(&b"=".to_vec()) {
        Err(LoadError::EmptySides { .. }) => (),
        _ => panic!("expected an empty-sides error"),
    }
}

#[test]
fn parse_file_collects_rules_in_order() {
    let text: Vec<u8> = b"// erosion rules\nkww=kgg\n\nww=kk // pair\n".to_vec();
    let rules = parse_rules(&text).unwrap();
    assert_eq!(rules.len(), 2);
    assert_eq!(codes(&rules[0].pattern_to_replace), b"kww".to_vec());
    assert_eq!(codes(&rules[0].replacement_pattern), b"ggk".to_vec());
    assert_eq!(codes(&rules[1].pattern_to_replace), b"ww".to_vec());
    assert_eq!(codes(&rules[1].replacement_pattern), b"kk".to_vec());
    // Every loaded rule has sides of equal length.
    for r in &rules {
        assert_eq!(r.pattern_to_replace.len(), r.replacement_pattern.len());
        assert!(r.pattern_to_replace.len() >= 1);
    }
}

#[test]
fn parse_file_rejects_any_bad_line() {
    let text: Vec<u8> = b"kw=gg\nkw=g\nww=kk".to_vec();
    match parse_rules(&text) {
        Err(LoadError::UnequalLength { line }) => assert_eq!(line, b"kw=g".to_vec()),
        _ => panic!("expected the loader to reject the bad middle line"),
    }
}
