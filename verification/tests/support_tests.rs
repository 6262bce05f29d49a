use minilang::chars::{
    char_is_digit, char_is_letter, char_is_space, char_is_word_char, chars_of, string_of, text_is,
};
use minilang::decimal::{char_of_digit, digit_of};
use minilang::names::make_name;
use minilang::table::Table;

#[test]
fn ascii_characters_are_classified_by_range() {
    for c in ['a', 'z', 'A', 'Z', 'm'] {
        assert!(char_is_letter(c) && char_is_word_char(c) && !char_is_digit(c) && !char_is_space(c));
    }
    for c in ['0', '5', '9'] {
        assert!(char_is_digit(c) && char_is_word_char(c) && !char_is_letter(c) && !char_is_space(c));
    }
    for c in [' ', '\t', '\n', '\u{b}', '\u{c}', '\r'] {
        assert!(char_is_space(c) && !char_is_letter(c) && !char_is_word_char(c));
    }
    assert!(char_is_word_char('_') && !char_is_letter('_'));
    for c in ['+', '@', '[', '`', '{', '\u{0}', '\u{7f}', '/', ':'] {
        assert!(!char_is_letter(c) && !char_is_digit(c) && !char_is_space(c) && !char_is_word_char(c));
    }
}

#[test]
fn characters_beyond_ascii_follow_unicode() {
    assert!(char_is_letter('é') && char_is_word_char('é'));
    assert!(char_is_letter('京') && char_is_word_char('京'));
    assert!(!char_is_letter('٣') && char_is_word_char('٣') && !char_is_digit('٣'));
    assert!(char_is_space('\u{a0}') && char_is_space('\u{2003}'));
    assert!(!char_is_letter('💝') && !char_is_word_char('💝') && !char_is_space('💝'));
}

#[test]
fn text_is_split_into_characters_and_put_together_again() {
    let chars = chars_of("größe = 1");
    assert_eq!(chars.len(), 9);
    assert_eq!(chars[2], 'ö');
    assert_eq!(string_of(&chars, 0, 5), "größe");
    assert_eq!(string_of(&chars, 6, 7), "=");
    assert_eq!(string_of(&chars, 4, 4), "");
    assert!(text_is(&chars, 0, 5, "größe"));
    assert!(!text_is(&chars, 0, 5, "grosse"));
    assert!(!text_is(&chars, 0, 4, "größe"));
    assert!(text_is(&chars, 3, 3, ""));
}

#[test]
fn digits_and_their_values() {
    for (i, c) in "0123456789".chars().enumerate() {
        assert_eq!(digit_of(c) as usize, i);
        assert_eq!(char_of_digit(i as u8), c);
    }
}

#[test]
fn generated_names_are_base_dot_number() {
    let x = "x".to_string();
    assert_eq!(make_name(&x, 0), "x.0");
    assert_eq!(make_name(&x, 1), "x.1");
    assert_eq!(make_name(&x, 9), "x.9");
    assert_eq!(make_name(&x, 10), "x.10");
    assert_eq!(make_name(&x, 1234567890), "x.1234567890");
    assert_eq!(make_name(&x, u64::MAX), "x.18446744073709551615");
    assert_eq!(make_name(&"a.1".to_string(), 2), "a.1.2");
    assert_eq!(make_name(&String::new(), 7), ".7");
}

#[test]
fn a_table_keeps_the_first_place_of_each_name() {
    let mut table: Table<u64> = Table::new();
    let a = "a".to_string();
    let b = "b".to_string();
    let c = "c".to_string();
    assert_eq!(table.len(), 0);
    assert_eq!(table.get(&a), None);
    table.set(&a, 1);
    table.set(&b, 2);
    table.set(&a, 3);
    assert_eq!(table.len(), 2);
    assert_eq!(table.get(&a), Some(3));
    assert_eq!(table.get(&b), Some(2));
    assert_eq!(table.get(&c), None);
    assert_eq!(table.key_at(0), "a");
    assert_eq!(table.value_at(0), 3);
    assert_eq!(table.key_at(1), "b");
    assert_eq!(table.value_at(1), 2);
    let copy = table.duplicate();
    table.set(&c, 9);
    assert_eq!(copy.len(), 2);
    assert_eq!(copy.get(&a), Some(3));
    assert_eq!(copy.get(&c), None);
    assert_eq!(table.get(&c), Some(9));
}
