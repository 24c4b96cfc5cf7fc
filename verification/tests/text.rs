use ccusage_adapters::order::stable_order;
use ccusage_adapters::text::{append_decimal, comma_separated, white_space};

#[test]
fn white_space_is_what_unicode_says() {
    for code in 0..=0x10ffff_u32 {
        if let Some(c) = char::from_u32(code) {
            assert_eq!(white_space(c), c.is_whitespace());
        }
    }
}

#[test]
fn numbers_are_appended_in_decimal() {
    for n in [0, 7, 9, 10, 99, 100, 1_234_567_890, u64::MAX] {
        let mut text = "n=".to_string();
        append_decimal(&mut text, n);
        assert_eq!(text, format!("n={n}"));
    }
}

#[test]
fn lists_are_split_at_commas_and_trimmed() {
    for list in [
        "",
        ",",
        " , ,\u{a0},",
        "a",
        " a b ,c",
        "\u{3000}gr\u{fc}n\u{2003},,\tx\n,y ",
        "/one/two,/three",
    ] {
        let expected: Vec<Vec<u8>> = list
            .split(',')
            .map(str::trim)
            .filter(|part| !part.is_empty())
            .map(|part| part.as_bytes().to_vec())
            .collect();
        assert_eq!(comma_separated(list), expected);
    }
}

#[test]
fn sorting_is_stable() {
    let keys: Vec<i64> = vec![3, 1, 2, 1, 3, 0, 2];
    assert_eq!(stable_order(&keys), vec![5, 1, 3, 2, 6, 0, 4]);
    assert_eq!(stable_order(&Vec::<i64>::new()), Vec::<usize>::new());
    let names: Vec<Vec<u8>> = [&b"b"[..], b"ab", b"", b"a", b"\xff", b"b"]
        .iter()
        .map(|name| name.to_vec())
        .collect();
    assert_eq!(stable_order(&names), vec![2, 3, 1, 0, 5, 4]);
}
