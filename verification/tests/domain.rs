use decrypt::cpu::pop_count;
use decrypt::cpu::Memory;
use decrypt::domain::{
    char_to_code, code_to_char, password_char_codes, password_chars, to_charcode_index,
    to_charcode_indices, to_string,
};
use decrypt::opt::{Opt, OptInternal};
use decrypt::pruning::{is_valid_password, satisfy_option_constraint};

#[test]
fn alphabet_tables_are_inverse() {
    let chars = password_chars();
    let codes = password_char_codes();
    assert_eq!(chars.len(), 42);
    assert_eq!(codes.len(), 42);
    for i in 0..42 {
        assert_eq!(char_to_code(chars[i]), codes[i]);
        assert_eq!(code_to_char(codes[i]), chars[i]);
        assert_eq!(to_charcode_index(chars[i]), i);
    }
    assert_eq!(char_to_code('a'), 0xFF);
    assert_eq!(code_to_char(0x07), '?');
}

#[test]
fn to_string_renders_codes() {
    assert_eq!(to_string(&[0x19, 0x09, 0x18]), "KID");
    assert_eq!(to_string(&[]), "");
    assert_eq!(to_string(&[0x2B, 0x33, 0x2D]), "-.!");
}

#[test]
fn charcode_indices() {
    let v = to_charcode_indices("KID").unwrap();
    assert_eq!(v, vec![19, 7, 18]);
    assert!(to_charcode_indices("K~D").is_none());
}

#[test]
fn option_constraints() {
    let opt = OptInternal {
        prefix: Some(vec![19, 7]),
        suffix: Some(vec![18]),
        verbose: false,
        ignore_cache: false,
    };
    // a word at the start must match the prefix
    assert!(satisfy_option_constraint(&opt, 3, 0, &[19, 7, 18]));
    assert!(!satisfy_option_constraint(&opt, 3, 0, &[7, 7, 18]));
    // a word at the end must match the suffix
    assert!(satisfy_option_constraint(&opt, 3, 2, &[18]));
    assert!(!satisfy_option_constraint(&opt, 3, 2, &[19]));
    // a word in the middle beyond the prefix is free
    let opt2 = OptInternal {
        prefix: Some(vec![19]),
        suffix: None,
        verbose: false,
        ignore_cache: false,
    };
    assert!(satisfy_option_constraint(&opt2, 5, 1, &[3, 4]));
    let none = OptInternal::none();
    assert!(satisfy_option_constraint(&none, 4, 0, &[1, 2, 3, 4]));
}

#[test]
fn options_with_unknown_characters_are_rejected() {
    let bad = Opt {
        prefix: Some("K~D".to_string()),
        suffix: None,
        verbose: false,
        ignore_cache: false,
    };
    assert!(OptInternal::from_opt(&bad).is_none());
    let good = Opt {
        prefix: Some("KID".to_string()),
        suffix: Some("9".to_string()),
        verbose: true,
        ignore_cache: false,
    };
    let resolved = OptInternal::from_opt(&good).unwrap();
    assert_eq!(resolved.prefix, Some(vec![19, 7, 18]));
    assert_eq!(resolved.suffix, Some(vec![23]));
    assert!(resolved.verbose);
    assert!(!resolved.ignore_cache);
}

#[test]
fn validator_list_is_empty() {
    let m = Memory::new();
    assert!(is_valid_password(&m, &[1, 2], &[3]));
}

#[test]
fn pop_count_values() {
    assert_eq!(pop_count(0x00), 0);
    assert_eq!(pop_count(0xFF), 8);
    assert_eq!(pop_count(0x2D), 4);
    assert_eq!(pop_count(0x19), 3);
}
