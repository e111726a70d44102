use rsomics_link_prediction::parse_pairs;
use rsomics_link_prediction::text::{chars_of, edge_tokens, is_whitespace, string_of};

#[test]
fn whitespace_matches_std_for_every_char() {
    for code in 0u32..=0x10FFFF {
        if let Some(c) = char::from_u32(code) {
            assert_eq!(is_whitespace(c), c.is_whitespace(), "char {:?}", c);
        }
    }
}

#[test]
fn chars_and_strings_round_trip() {
    let s = "héllo wörld\u{3000}!";
    let cs = chars_of(s);
    assert_eq!(cs, s.chars().collect::<Vec<char>>());
    assert_eq!(string_of(&cs), s);
    assert_eq!(string_of(&Vec::new()), "");
}

fn edges(text: &str) -> Vec<(String, String)> {
    edge_tokens(&chars_of(text))
        .into_iter()
        .map(|(a, b)| (a.into_iter().collect(), b.into_iter().collect()))
        .collect()
}

#[test]
fn edge_lines() {
    let e = |a: &str, b: &str| (a.to_string(), b.to_string());
    assert_eq!(edges("a b\n"), vec![e("a", "b")]);
    assert_eq!(edges("a b"), vec![e("a", "b")]);
    assert_eq!(edges("  a   b  c\n#c d\nsolo\n\n x\ty \n"), vec![e("a", "b"), e("x", "y")]);
    assert_eq!(edges("a#b c\n"), vec![e("a#b", "c")]);
    assert_eq!(edges("a b\r\nc d\r\n"), vec![e("a", "b"), e("c", "d")]);
    assert_eq!(edges(""), vec![]);
    assert_eq!(edges("\n\n"), vec![]);
}

#[test]
fn pairs_text() {
    let got = parse_pairs("# header\nu v\n\n  p\tq  extra\n").unwrap();
    assert_eq!(got, vec![("u".to_string(), "v".to_string()), ("p".to_string(), "q".to_string())]);
    assert_eq!(parse_pairs("u v\n  alone  \nx\n"), Err("alone".to_string()));
    assert_eq!(parse_pairs(""), Ok(vec![]));
    assert_eq!(parse_pairs("#only\n"), Ok(vec![]));
}
