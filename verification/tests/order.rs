use this_week_in_open_source::order::{distinct, not_after, sort_by_key, sorted_distinct};
use this_week_in_open_source::text::{
    chars_of, decimal_text, join, parse_number, signed_decimal_text, split,
};

fn lines(texts: &[&str]) -> Vec<String> {
    let mut result: Vec<String> = vec![];
    for text in texts {
        result.push(text.to_string());
    }
    result
}

#[test]
fn order_agrees_with_that_of_strings() {
    let texts = ["", "a", "A", "ab", "b", "é", "z", "\u{ffff}", "\u{10000}", "a/b", "a-b", "aé"];
    for a in texts {
        for b in texts {
            assert_eq!(a <= b, not_after(a, b));
        }
    }
}

#[test]
fn repeats_go_and_order_stays() {
    assert_eq!(lines(&["b", "a", ""]), distinct(lines(&["b", "a", "b", "", "a", ""])));
    assert_eq!(lines(&["", "a", "b"]), sorted_distinct(lines(&["b", "a", "b", "", "a"])));
    assert!(distinct(vec![]).is_empty());
}

#[test]
fn sorting_orders_texts() {
    let texts = lines(&["c", "a", "b", "a", "", "ab"]);
    let mut expected = texts.clone();
    expected.sort();
    assert_eq!(expected, sort_by_key(texts));
}

#[test]
fn splitting_gives_the_pieces() {
    for text in ["", "/", "a", "a/b", "//a//", "https://github.com/é/b"] {
        let mut expected: Vec<String> = vec![];
        for piece in text.split('/') {
            expected.push(piece.to_string());
        }
        assert_eq!(expected, split(text, '/'));
        assert_eq!(text, join(&expected, "/"));
    }
}

#[test]
fn joining_puts_the_separator_between() {
    assert_eq!("", join(&vec![], "\n"));
    assert_eq!("a", join(&lines(&["a"]), "\n"));
    assert_eq!("a\n\nb", join(&lines(&["a", "", "b"]), "\n"));
    assert_eq!(lines(&["a", "", "b"]), split("a\n\nb", '\n'));
}

#[test]
fn decimal_notation_and_back() {
    for n in [0u64, 9, 10, 99, 100, 1234567890, u64::MAX] {
        assert_eq!(n.to_string(), decimal_text(n));
        assert_eq!(Some(n), parse_number(&decimal_text(n)));
    }
    assert_eq!("-63", signed_decimal_text(-63));
    assert_eq!("63", signed_decimal_text(63));
    assert_eq!("-9223372036854775808", signed_decimal_text(i64::MIN));
}

#[test]
fn numbers_are_read_as_integers_are() {
    let texts = [
        "", "+", "-", "0", "+0", "-0", "007", "63", "+63", "++1", "1+", " 1", "1 ", "1_0", "x",
        "18446744073709551615", "18446744073709551616", "99999999999999999999x", "٣",
    ];
    for text in texts {
        assert_eq!(text.parse::<u64>().ok(), parse_number(text));
    }
}

#[test]
fn characters_are_those_of_the_text() {
    assert_eq!(vec!['a', 'é', '/'], chars_of("aé/"));
}
