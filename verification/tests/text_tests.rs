use patrol::text::{chars_of, parse_i64, parse_usize, push_i64, push_str, push_u64, push_usize, text_eq, token_ranges};

fn s(v: &[char]) -> String {
    v.iter().collect()
}

#[test]
fn decimal_writing_of_numbers() {
    let mut out: Vec<char> = Vec::new();
    push_u64(&mut out, 0);
    push_str(&mut out, " ");
    push_usize(&mut out, 1234567);
    push_str(&mut out, " ");
    push_i64(&mut out, -45);
    push_str(&mut out, " ");
    push_i64(&mut out, i64::MIN);
    assert_eq!(s(&out), "0 1234567 -45 -9223372036854775808");
}

#[test]
fn tokens_of_text() {
    let cs = chars_of("  ab c\n\td  ");
    let r = token_ranges(&cs);
    assert_eq!(r, vec![(2, 4), (5, 6), (8, 9)]);
}

#[test]
fn parsing_numbers() {
    let cs = chars_of("+42 abc -9223372036854775808 18446744073709551616 7");
    let r = token_ranges(&cs);
    assert_eq!(parse_usize(&cs, r[0].0, r[0].1), Some(42));
    assert_eq!(parse_usize(&cs, r[1].0, r[1].1), None);
    assert_eq!(parse_i64(&cs, r[2].0, r[2].1), Some(i64::MIN));
    assert_eq!(parse_usize(&cs, r[3].0, r[3].1), None);
    assert_eq!(parse_i64(&cs, r[4].0, r[4].1), Some(7));
}

#[test]
fn written_numbers_read_back() {
    for x in [0usize, 9, 10, 99, 100, 65535, usize::MAX] {
        let mut out: Vec<char> = Vec::new();
        push_usize(&mut out, x);
        assert_eq!(parse_usize(&out, 0, out.len()), Some(x));
    }
    for x in [0i64, -1, 17, -123456789, i64::MAX, i64::MIN] {
        let mut out: Vec<char> = Vec::new();
        push_i64(&mut out, x);
        assert_eq!(parse_i64(&out, 0, out.len()), Some(x));
    }
}

#[test]
fn comparing_texts() {
    assert!(text_eq("A", "A"));
    assert!(!text_eq("A", "B"));
    assert!(!text_eq("AB", "A"));
    assert!(text_eq("", ""));
}
