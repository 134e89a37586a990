use react_compiler_rust::text::{
    contains_text, decimal_string, push_decimal, push_escaped, push_joined, push_signed_decimal,
    reserved_word, same_text, sorted_strings, temp_name, temp_prefix, text_less,
};

#[test]
fn decimal_of_small_and_large_numbers() {
    assert_eq!(decimal_string(0), "0");
    assert_eq!(decimal_string(7), "7");
    assert_eq!(decimal_string(10), "10");
    assert_eq!(decimal_string(1234567890), "1234567890");
    assert_eq!(decimal_string(usize::MAX), usize::MAX.to_string());
}

#[test]
fn decimal_is_appended() {
    let mut s = String::from("x_");
    push_decimal(&mut s, 42);
    assert_eq!(s, "x_42");
    push_decimal(&mut s, u128::MAX);
    assert_eq!(s, format!("x_42{}", u128::MAX));
}

#[test]
fn signed_decimal_has_a_minus_sign() {
    let mut s = String::new();
    push_signed_decimal(&mut s, -15);
    assert_eq!(s, "-15");
    let mut s = String::new();
    push_signed_decimal(&mut s, 0);
    assert_eq!(s, "0");
    let mut s = String::new();
    push_signed_decimal(&mut s, i64::MIN);
    assert_eq!(s, "-9223372036854775808");
    let mut s = String::new();
    push_signed_decimal(&mut s, i64::MAX);
    assert_eq!(s, "9223372036854775807");
}

#[test]
fn temporaries_are_t_and_digits() {
    assert!(temp_name("t0"));
    assert!(temp_name("t123"));
    assert!(!temp_name("t"));
    assert!(!temp_name("t1a"));
    assert!(!temp_name("x1"));
    assert!(!temp_name(""));
    assert!(!temp_name("total"));
}

#[test]
fn temporary_prefix_accepts_a_lone_t() {
    assert!(temp_prefix("t"));
    assert!(temp_prefix("t42"));
    assert!(!temp_prefix("tx"));
    assert!(!temp_prefix(""));
    assert!(!temp_prefix("a1"));
}

#[test]
fn reserved_words_are_the_four_literals() {
    assert!(reserved_word("true"));
    assert!(reserved_word("false"));
    assert!(reserved_word("null"));
    assert!(reserved_word("undefined"));
    assert!(!reserved_word("True"));
    assert!(!reserved_word("nul"));
    assert!(!reserved_word(""));
}

#[test]
fn same_text_compares_character_by_character() {
    assert!(same_text("abc", "abc"));
    assert!(!same_text("abc", "abd"));
    assert!(!same_text("abc", "ab"));
    assert!(same_text("", ""));
    assert!(same_text("héllo", "héllo"));
}

#[test]
fn escaping_covers_every_special_character() {
    let mut s = String::new();
    push_escaped(&mut s, "a\\b\"c\nd\re\tf\0g");
    assert_eq!(s, "a\\\\b\\\"c\\nd\\re\\tf\\0g");
}

#[test]
fn escaping_leaves_plain_text_alone() {
    let mut s = String::from(">");
    push_escaped(&mut s, "plain text é");
    assert_eq!(s, ">plain text é");
}

#[test]
fn membership_in_a_list_of_strings() {
    let list = vec!["a".to_string(), "bc".to_string()];
    assert!(contains_text(&list, &"bc".to_string()));
    assert!(!contains_text(&list, &"b".to_string()));
    assert!(!contains_text(&Vec::new(), &"a".to_string()));
}

#[test]
fn text_order_is_lexicographic() {
    assert!(text_less("a", "b"));
    assert!(!text_less("b", "a"));
    assert!(!text_less("a", "a"));
    assert!(text_less("a", "ab"));
    assert!(!text_less("ab", "a"));
    assert!(text_less("", "a"));
    assert!(text_less("B", "a"));
    assert!(text_less("x_10", "x_2"));
    assert!(text_less("z", "é"));
}

#[test]
fn text_order_agrees_with_the_order_of_strings() {
    let samples = ["", "a", "ab", "b", "B", "x_1", "x_10", "x_2", "é", "z", "日本"];
    for a in samples {
        for b in samples {
            assert_eq!(text_less(a, b), a < b, "{:?} < {:?}", a, b);
        }
    }
}

#[test]
fn sorting_puts_strings_in_ascending_order() {
    let v = vec!["s_1".to_string(), "i_2".to_string(), "i_10".to_string(), "a".to_string()];
    let mut expected = v.clone();
    expected.sort();
    assert_eq!(sorted_strings(&v), expected);
    assert_eq!(sorted_strings(&v), vec!["a", "i_10", "i_2", "s_1"]);
    assert_eq!(sorted_strings(&Vec::new()), Vec::<String>::new());
}

#[test]
fn joining_separates_items() {
    let mut s = String::from("(");
    push_joined(&mut s, &vec!["a".to_string(), "b".to_string(), "c".to_string()], ", ");
    assert_eq!(s, "(a, b, c");
    let mut s = String::from("(");
    push_joined(&mut s, &Vec::new(), ", ");
    assert_eq!(s, "(");
    let mut s = String::new();
    push_joined(&mut s, &vec!["only".to_string()], " || ");
    assert_eq!(s, "only");
}
