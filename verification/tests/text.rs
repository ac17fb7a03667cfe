use rle_bitmap_compare::text::{
    after_last_index, chars_of, decimal_text, parse_number, push_decimal, push_hexadecimal,
    push_pad_left, push_pad_right, push_repeated, push_signed, same_text, trim_back_index,
    trim_front_index,
};

#[test]
fn numerals() {
    let mut out = String::from("n=");
    push_decimal(&mut out, 0);
    out.push(' ');
    push_decimal(&mut out, u64::MAX);
    out.push(' ');
    push_hexadecimal(&mut out, 0xdead_beef_0123_4567);
    out.push(' ');
    push_hexadecimal(&mut out, 10);
    out.push(' ');
    push_signed(&mut out, i64::MIN);
    out.push(' ');
    push_signed(&mut out, 7);
    assert_eq!(
        out,
        format!("n=0 {} deadbeef01234567 a {} 7", u64::MAX, i64::MIN)
    );
    assert_eq!(decimal_text(1203), "1203");
}

#[test]
fn padding() {
    let mut out = String::new();
    push_pad_left(&mut out, "ab", 4, '0');
    push_pad_right(&mut out, "cd", 4, ' ');
    push_repeated(&mut out, '-', 3);
    push_pad_left(&mut out, "longer", 4, '0');
    push_pad_right(&mut out, "ééé", 4, '.');
    assert_eq!(out, "00abcd  ---longerééé.");
}

#[test]
fn comparison() {
    assert!(same_text("", ""));
    assert!(same_text("aé", "aé"));
    assert!(!same_text("a", "A"));
    assert!(!same_text("a", "ab"));
    assert_eq!(chars_of("aé"), vec!['a', 'é']);
}

#[test]
fn numbers_parse_as_usize_does() {
    for s in ["0", "7", "007", "+7", "18446744073709551615", "18446744073709551616", "", "+", "-1", "+-1", "1a", " 1", "++1"] {
        assert_eq!(parse_number(&chars_of(s)), s.parse::<usize>().ok());
    }
}

#[test]
fn cutting() {
    let chars = chars_of("a/b/cc");
    assert_eq!(after_last_index(&chars, '/'), 4);
    assert_eq!(after_last_index(&chars, 'x'), 0);
    assert_eq!(after_last_index(&chars, 'c'), 6);
    let chars = chars_of("ababaXcdcd");
    assert_eq!(trim_front_index(&chars, &chars_of("ab")), 4);
    assert_eq!(trim_front_index(&chars, &chars_of("")), 0);
    assert_eq!(trim_back_index(&chars, &chars_of("cd")), 6);
    assert_eq!(trim_back_index(&chars, &chars_of("dc")), 10);
}
