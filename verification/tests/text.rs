use egonet::text::chars_of;
use egonet::text::find;
use egonet::text::is_whitespace;
use egonet::text::next_token;
use egonet::text::parse_bit;
use egonet::text::parse_bits;
use egonet::text::parse_integer;
use egonet::text::parse_integers;
use egonet::text::split_all;
use egonet::text::split_first;
use egonet::text::string_of;
use egonet::text::trim_end_of;
use egonet::text::trim_of;
use egonet::text::trim_start_of;
use egonet::text::word_end;

fn cs(text: &str) -> Vec<char> {
    text.chars().collect()
}

#[test]
fn chars_of_keeps_every_character() {
    assert_eq!(chars_of(""), Vec::<char>::new());
    assert_eq!(chars_of("a b"), vec!['a', ' ', 'b']);
    assert_eq!(chars_of("é\n"), vec!['é', '\n']);
}

#[test]
fn whitespace_is_what_std_calls_whitespace() {
    for code in 0..0x11_0000u32 {
        if let Some(c) = char::from_u32(code) {
            assert_eq!(is_whitespace(c), c.is_whitespace());
        }
    }
}

#[test]
fn trim_takes_white_space_from_the_ends_only() {
    assert_eq!(trim_of(&cs("  a b \n")), &cs("a b")[..]);
    assert_eq!(trim_start_of(&cs("\t a ")), &cs("a ")[..]);
    assert_eq!(trim_end_of(&cs(" a \r\n")), &cs(" a")[..]);
    assert_eq!(trim_of(&cs(" \n\t ")), &cs("")[..]);
    assert_eq!(trim_of(&cs("")), &cs("")[..]);
    assert_eq!(trim_of(&cs("abc")), &cs("abc")[..]);
}

#[test]
fn trim_agrees_with_std() {
    for text in ["", " ", "a", " a", "a ", "\u{3000}a\u{85}", " a b ", "\n\n1 2\n3 4\n\n"] {
        assert_eq!(string_of(trim_of(&cs(text))), text.trim());
        assert_eq!(string_of(trim_start_of(&cs(text))), text.trim_start());
        assert_eq!(string_of(trim_end_of(&cs(text))), text.trim_end());
    }
}

#[test]
fn find_gives_the_first_occurrence_or_the_length() {
    assert_eq!(find(&cs("a:b:c"), ':'), 1);
    assert_eq!(find(&cs(":"), ':'), 0);
    assert_eq!(find(&cs("abc"), ':'), 3);
    assert_eq!(find(&cs(""), ':'), 0);
}

#[test]
fn word_end_gives_the_first_white_space_or_the_length() {
    assert_eq!(word_end(&cs("ab cd")), 2);
    assert_eq!(word_end(&cs(" ab")), 0);
    assert_eq!(word_end(&cs("abc")), 3);
    assert_eq!(word_end(&cs("")), 0);
}

#[test]
fn split_first_cuts_at_the_first_separator() {
    let text = cs("a:b:c");
    let (piece, rest) = split_first(&text, ':');
    assert_eq!(piece, &cs("a")[..]);
    assert_eq!(rest, Some(&cs("b:c")[..]));
    let text = cs("abc");
    let (piece, rest) = split_first(&text, ':');
    assert_eq!(piece, &cs("abc")[..]);
    assert_eq!(rest, None);
    let text = cs("abc:");
    let (piece, rest) = split_first(&text, ':');
    assert_eq!(piece, &cs("abc")[..]);
    assert_eq!(rest, Some(&cs("")[..]));
}

#[test]
fn split_all_agrees_with_std() {
    for text in ["", "a", "\n", "a\nb", "a\n\nb\n", "\n\n", "1 2\n3 4"] {
        let chars = cs(text);
        let pieces: Vec<String> = split_all(&chars, '\n')
            .into_iter()
            .map(|piece| string_of(piece))
            .collect();
        let expected: Vec<String> = text.split('\n').map(|piece| piece.to_string()).collect();
        assert_eq!(pieces, expected);
    }
}

#[test]
fn next_token_skips_white_space_and_takes_one_token() {
    let text = cs("  12\t345  ");
    let (token, rest) = next_token(&text).unwrap();
    assert_eq!(token, &cs("12")[..]);
    assert_eq!(rest, &cs("\t345  ")[..]);
    let (token, rest) = next_token(rest).unwrap();
    assert_eq!(token, &cs("345")[..]);
    assert_eq!(rest, &cs("  ")[..]);
    assert_eq!(next_token(rest), None);
    assert_eq!(next_token(&cs("")), None);
}

#[test]
fn tokens_agree_with_std_split_whitespace() {
    for text in ["", " ", "a", " a  b\tc\n", "1 0 1", "\u{a0}x\u{2003}y"] {
        let chars = cs(text);
        let mut rest: &[char] = &chars;
        let mut found = Vec::new();
        while let Some((token, after)) = next_token(rest) {
            found.push(string_of(token));
            rest = after;
        }
        let expected: Vec<String> = text.split_whitespace().map(|t| t.to_string()).collect();
        assert_eq!(found, expected);
    }
}

#[test]
fn parse_integer_reads_decimal_digits() {
    assert_eq!(parse_integer(&cs("0")), Some(0));
    assert_eq!(parse_integer(&cs("4038")), Some(4038));
    assert_eq!(parse_integer(&cs("007")), Some(7));
    assert_eq!(parse_integer(&cs("+5")), Some(5));
    assert_eq!(
        parse_integer(&cs(&usize::MAX.to_string())),
        Some(usize::MAX)
    );
}

#[test]
fn parse_integer_refuses_what_is_no_integer() {
    assert_eq!(parse_integer(&cs("")), None);
    assert_eq!(parse_integer(&cs("+")), None);
    assert_eq!(parse_integer(&cs("-1")), None);
    assert_eq!(parse_integer(&cs("-0")), None);
    assert_eq!(parse_integer(&cs("++1")), None);
    assert_eq!(parse_integer(&cs("1+")), None);
    assert_eq!(parse_integer(&cs("12a")), None);
    assert_eq!(parse_integer(&cs(" 1")), None);
    assert_eq!(parse_integer(&cs("1 ")), None);
    assert_eq!(parse_integer(&cs("1.0")), None);
    assert_eq!(parse_integer(&cs("٣")), None);
    assert_eq!(parse_integer(&cs("18446744073709551616")), None);
    assert_eq!(parse_integer(&cs("99999999999999999999999999")), None);
    assert_eq!(parse_integer(&cs("18446744073709551615x")), None);
}

#[test]
fn parse_integer_agrees_with_std() {
    let texts = [
        "",
        "+",
        "-",
        "0",
        "+0",
        "-0",
        "12",
        "0012",
        "1_000",
        "0x10",
        "18446744073709551615",
        "18446744073709551616",
        "184467440737095516150",
    ];
    for text in texts {
        assert_eq!(parse_integer(&cs(text)), text.parse::<usize>().ok());
    }
}

#[test]
fn parse_bit_reads_zero_and_one_only() {
    assert_eq!(parse_bit(&cs("0")), Some(false));
    assert_eq!(parse_bit(&cs("1")), Some(true));
    assert_eq!(parse_bit(&cs("")), None);
    assert_eq!(parse_bit(&cs("2")), None);
    assert_eq!(parse_bit(&cs("01")), None);
    assert_eq!(parse_bit(&cs("true")), None);
}

#[test]
fn parse_integers_reads_every_token() {
    assert_eq!(parse_integers(&cs(" 1  22\t333 ")), Some(vec![1, 22, 333]));
    assert_eq!(parse_integers(&cs("")), Some(Vec::new()));
    assert_eq!(parse_integers(&cs("   ")), Some(Vec::new()));
    assert_eq!(parse_integers(&cs("1 x 3")), None);
    assert_eq!(parse_integers(&cs("1 2 -3")), None);
}

#[test]
fn parse_bits_reads_every_token() {
    assert_eq!(parse_bits(&cs("1 0  0 1")), Some(vec![true, false, false, true]));
    assert_eq!(parse_bits(&cs("")), Some(Vec::new()));
    assert_eq!(parse_bits(&cs("1 0 2")), None);
    assert_eq!(parse_bits(&cs("10")), None);
}

#[test]
fn string_of_holds_the_characters_in_order() {
    assert_eq!(string_of(&cs("")), "");
    assert_eq!(string_of(&cs("birthday;anonymized feature 7")), "birthday;anonymized feature 7");
    assert_eq!(string_of(&cs("héllo wörld")), "héllo wörld");
    assert_eq!(string_of(&['a', 'b']).len(), 2);
}
