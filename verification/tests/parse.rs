use crunchy_vdf::parse::{
    newline, newline_maybe, parse_auto_string, parse_conditional, parse_many,
    parse_many_with_braces, parse_pair, parse_string, parse_string_inner_unescaped,
    parse_unquoted_string, parse_value, skip_braces, skip_braces_inner, whitespace, ParseManyPar,
};
use crunchy_vdf::{Item, Many, ParseError};

fn text(s: &str) -> Item {
    Item::String(s.as_bytes().to_vec())
}

fn pair(k: &str, v: Item) -> (Vec<u8>, Item) {
    (k.as_bytes().to_vec(), v)
}

#[test]
fn test_parse_pair() {
    assert_eq!(
        parse_pair(b"\"key\" \"value\"\nrest"),
        Ok((&b"\nrest"[..], Some(pair("key", text("value")))))
    );
    assert_eq!(
        parse_pair(b"key = value"),
        Ok((&b""[..], Some(pair("key", text("value")))))
    );
    assert_eq!(parse_pair(b"\"key\""), Err(ParseError::TakeWhile1));
}

#[test]
fn test_parse_value() {
    assert_eq!(parse_value(b" \"v\" tail"), Ok((&b" tail"[..], Some(text("v")))));
    assert_eq!(
        parse_value(b" { a b }x"),
        Ok((&b"x"[..], Some(Item::Many(Many(vec![pair("a", text("b"))])))))
    );
    assert_eq!(
        parse_value(b"\n{\n a b\n}"),
        Ok((&b""[..], Some(Item::Many(Many(vec![pair("a", text("b"))])))))
    );
    assert_eq!(parse_value(b""), Err(ParseError::TakeWhile1));
}

#[test]
fn test_skip_braces_inner() {
    assert_eq!(skip_braces_inner(b"really {basic} }"), Ok((&b"}"[..], ())));
    assert_eq!(skip_braces_inner(b"{{trailing ones are optional"), Ok((&b""[..], ())));
    assert_eq!(
        skip_braces_inner(b"{the} } trailing content is preserved"),
        Ok((&b"} trailing content is preserved"[..], ()))
    );
}

#[test]
fn test_skip_braces() {
    assert_eq!(
        skip_braces(b" {a {b} c} rest"),
        Ok((&b" rest"[..], &b" {a {b} c}"[..]))
    );
    assert_eq!(skip_braces(b"{ open"), Ok((&b""[..], &b"{ open"[..])));
    assert_eq!(skip_braces(b"x {}"), Err(ParseError::Tag));
}

#[test]
fn test_parse_many_with_braces() {
    assert_eq!(
        parse_many_with_braces(b"{\n\"a\" \"1\"\n\"b\" { \"c\" \"2\" }\n} after"),
        Ok((
            &b" after"[..],
            Many(vec![
                pair("a", text("1")),
                pair("b", Item::Many(Many(vec![pair("c", text("2"))]))),
            ])
        ))
    );
    assert_eq!(parse_many_with_braces(b"a b"), Err(ParseError::Tag));
}

#[test]
fn test_parse_many_par() {
    let input = b"first { a b }\nsecond { c d }\n";
    let mut walk = ParseManyPar::new(&input[..]);
    assert_eq!(
        walk.next_entry(),
        Some(Ok((&b"\nsecond { c d }\n"[..], (b"first".to_vec(), &b" { a b }"[..]))))
    );
    assert_eq!(
        walk.next_entry(),
        Some(Ok((&b"\n"[..], (b"second".to_vec(), &b" { c d }"[..]))))
    );
    assert_eq!(walk.next_entry(), None);
}

#[test]
fn test_parse_many() {
    assert_eq!(
        parse_many(b"// comment\n\"a\" \"1\"\n/* c */ b 2\n} tail"),
        Ok((&b"} tail"[..], Many(vec![pair("a", text("1")), pair("b", text("2"))])))
    );
    assert_eq!(parse_many(b""), Ok((&b""[..], Many(vec![]))));
}

#[test]
fn test_parse_conditional() {
    assert_eq!(parse_conditional(br#"[$WIN32] bottom_text"#), Ok((&b" bottom_text"[..], true)));
}

#[test]
fn test_parse_conditional_and_evaluate() {
    assert_eq!(
        parse_value(b" [$WIN32] { a b }"),
        Ok((&b""[..], Some(Item::Many(Many(vec![pair("a", text("b"))])))))
    );
    assert_eq!(parse_conditional(b"[$X360"), Err(ParseError::Tag));
}

#[test]
fn test_parse_auto_string() {
    assert_eq!(
        parse_auto_string(br#"" fun" rest of content"#),
        Ok((&b" rest of content"[..], b" fun".to_vec()))
    );
    assert_eq!(
        parse_auto_string(br#""Escape Sequence \" ""#),
        Ok((&b""[..], "Escape Sequence \" ".as_bytes().to_vec()))
    );
    assert_eq!(
        parse_auto_string(br#"fun/path\to\my_asset.vtf bottom_text"#),
        Ok((&b" bottom_text"[..], "fun/path\\to\\my_asset.vtf".as_bytes().to_vec()))
    );
}

#[test]
fn test_parse_unquoted_string() {
    assert_eq!(
        parse_unquoted_string(br#"fun/path\to\my_asset.vtf bottom_text"#),
        Ok((&b" bottom_text"[..], "fun/path\\to\\my_asset.vtf".as_bytes()))
    );
}

#[test]
fn test_parse_string_inner_unescaped() {
    assert_eq!(
        parse_string_inner_unescaped(br#"plain text" rest"#),
        Ok((&b"\" rest"[..], &b"plain text"[..]))
    );
    assert_eq!(
        parse_string_inner_unescaped(br#"stops \" here"#),
        Ok((&b"\\\" here"[..], &b"stops "[..]))
    );
}

#[test]
fn test_parse_string() {
    assert_eq!(
        parse_string(br#"" fun" rest of content"#).map(|g| (std::str::from_utf8(g.0), g.1)),
        Ok((Ok(" rest of content"), b" fun".to_vec()))
    );
    assert_eq!(
        parse_string(br#""Escape Sequence \" ""#),
        Ok((&b""[..], "Escape Sequence \" ".as_bytes().to_vec()))
    );
}

#[test]
fn test_whitespace() {
    assert_eq!(whitespace(b" "), Ok((&b""[..], ())));
    assert_eq!(whitespace(b" /* Comments work */ "), Ok((&b""[..], ())));
    assert_eq!(whitespace(b" /* Tab support */\t "), Ok((&b""[..], ())));
    assert_eq!(whitespace(b"I'm not a space!\n"), Ok((&b"I'm not a space!\n"[..], ())));
    assert_eq!(whitespace(b""), Ok((&b""[..], ())));
}

#[test]
fn test_newline() {
    assert_eq!(newline(b"\n\r"), Ok((&b""[..], ())));
    assert_eq!(newline(b"\n//comments are eaten, too\n"), Ok((&b""[..], ())));
    assert_eq!(newline(b"\nI'm not a newline!"), Ok((&b"I'm not a newline!"[..], ())));
    assert_eq!(newline(b"\n // whitespace should get eaten\n"), Ok((&b""[..], ())));
    assert_eq!(whitespace(b" /* inline comments work */ "), Ok((&b""[..], ())));
}

#[test]
fn test_newline_maybe() {
    assert_eq!(newline_maybe(b"\n\r"), Ok((&b""[..], ())));
    assert_eq!(newline_maybe(b"\n//comments are eaten, too\n"), Ok((&b""[..], ())));
    assert_eq!(newline_maybe(b"\nI'm not a newline!"), Ok((&b"I'm not a newline!"[..], ())));
    assert_eq!(newline_maybe(b"\n // whitespace should get eaten\n"), Ok((&b""[..], ())));
    assert_eq!(whitespace(b" /* inline comments work */ "), Ok((&b""[..], ())));
}
