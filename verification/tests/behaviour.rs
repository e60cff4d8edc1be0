use crunchy_vdf::parse::{
    escape_map, newline, newline_maybe, parse_auto_string, parse_many, parse_pair, parse_string,
    parse_string_inner_escaped, parse_unquoted_string, parse_value, parse_vdf, skip_braces, skip_braces_inner,
    whitespace, ParseManyPar,
};
use crunchy_vdf::{Item, Many, ParseError};

fn text(s: &str) -> Item {
    Item::String(s.as_bytes().to_vec())
}

fn pair(k: &str, v: Item) -> (Vec<u8>, Item) {
    (k.as_bytes().to_vec(), v)
}

#[test]
fn vdf_whole_file() {
    let input = b"\"root\"\n{\n\t\"name\" \"value\" // note\n\t\"sub\"\n\t{\n\t\t\"k\" \"v\"\n\t}\n}\n";
    assert_eq!(
        parse_vdf(input),
        Ok((
            &b""[..],
            Many(vec![pair(
                "root",
                Item::Many(Many(vec![
                    pair("name", text("value")),
                    pair("sub", Item::Many(Many(vec![pair("k", text("v"))]))),
                ]))
            )])
        ))
    );
}

#[test]
fn vdf_stray_close_brace_is_refused() {
    assert_eq!(parse_vdf(b"a b\n}\n"), Err(ParseError::Eof));
    assert_eq!(parse_many(b"a b\n}\n"), Ok((&b"}\n"[..], Many(vec![pair("a", text("b"))]))));
}

#[test]
fn vdf_empty_input() {
    assert_eq!(parse_vdf(b""), Ok((&b""[..], Many(vec![]))));
    assert_eq!(parse_vdf(b"  // only a comment"), Ok((&b""[..], Many(vec![]))));
}

#[test]
fn unclosed_comment_errors() {
    // Between a key and its value an inline comment must be closed.
    assert_eq!(whitespace(b" /* never closed"), Err(ParseError::TakeUntil));
    assert_eq!(parse_value(b" /* open"), Err(ParseError::TakeUntil));
}

#[test]
fn newline_maybe_never_fails() {
    // Where blanks and comments of both kinds are skipped, an unclosed
    // comment runs to the end of the input.
    assert_eq!(newline_maybe(b"\n/* never closed"), Ok((&b""[..], ())));
    assert_eq!(newline_maybe(b"// no line break"), Ok((&b""[..], ())));
    assert_eq!(parse_vdf(b"a b /* open"), Ok((&b""[..], Many(vec![pair("a", text("b"))]))));
}

#[test]
fn comment_close_is_searched_from_its_slash() {
    // The `*` of the opening `/*` may also start the closing `*/`.
    assert_eq!(whitespace(b"/*/ x"), Ok((&b"x"[..], ())));
}

#[test]
fn newline_needs_a_line_break() {
    assert_eq!(newline(b"  text"), Err(ParseError::TakeWhile1));
    assert_eq!(newline(b""), Err(ParseError::TakeWhile1));
    assert_eq!(newline(b"/* c */ x\n"), Err(ParseError::TakeWhile1));
    assert_eq!(newline(b" \t\r\n  x"), Ok((&b"x"[..], ())));
    // Once a line break is read, everything skippable after it goes too.
    assert_eq!(newline(b"\n \nX"), Ok((&b"X"[..], ())));
    assert_eq!(newline(b"\n//c"), Ok((&b""[..], ())));
    assert_eq!(newline(b" /* a */\n/* b */ \n// c\n y"), Ok((&b"y"[..], ())));
    for input in [&b"\n \nX"[..], &b"\n//c"[..], &b" \n /* open"[..]] {
        let (after_ws, ()) = whitespace(input).unwrap();
        let (rest, ()) = newline_maybe(after_ws).unwrap();
        assert_eq!(newline(input), Ok((rest, ())));
    }
}

#[test]
fn unquoted_string_stops_at_delimiters() {
    assert_eq!(parse_unquoted_string(b"ab{c"), Ok((&b"{c"[..], &b"ab"[..])));
    assert_eq!(parse_unquoted_string(b"\"q"), Err(ParseError::TakeWhile1));
    assert_eq!(parse_unquoted_string(b"[x]"), Err(ParseError::TakeWhile1));
}

#[test]
fn escapes_are_mapped() {
    assert_eq!(escape_map(b'n'), '\n');
    assert_eq!(escape_map(b'r'), '\r');
    assert_eq!(escape_map(b't'), '\t');
    assert_eq!(escape_map(b'd'), 'd');
    assert_eq!(escape_map(0xe9), '\u{e9}');
    assert_eq!(
        parse_string(b"\"a\\nb\\tc\\\\d\" rest"),
        Ok((&b" rest"[..], b"a\nb\tc\\d".to_vec()))
    );
    // A backslash before a byte above 0x7f stands for that code point, in UTF-8.
    assert_eq!(parse_string(b"\"\\\xe9\""), Ok((&b""[..], vec![0xc3, 0xa9])));
}

#[test]
fn string_errors() {
    assert_eq!(parse_string(b"no quote"), Err(ParseError::Tag));
    assert_eq!(parse_string(b"\"unterminated"), Err(ParseError::Tag));
    assert_eq!(parse_string(b"\"ends in backslash\\"), Err(ParseError::Tag));
    assert_eq!(
        parse_string_inner_escaped(b"ends in backslash\\"),
        Ok((&b"\\"[..], b"ends in backslash".to_vec()))
    );
    assert_eq!(parse_auto_string(b"\"unterminated"), Err(ParseError::TakeWhile1));
}

#[test]
fn equals_sign_between_key_and_value() {
    assert_eq!(parse_pair(b"k =v"), Ok((&b""[..], Some(pair("k", text("v"))))));
    // An unquoted key runs on through `=`.
    assert_eq!(parse_pair(b"k=v"), Err(ParseError::TakeWhile1));
    // When the comment after `=` is not closed, the `=` is read as the value.
    assert_eq!(parse_value(b"= /* open"), Ok((&b" /* open"[..], Some(text("=")))));
}

#[test]
fn skip_braces_passes_over_strings_and_comments() {
    assert_eq!(skip_braces_inner(b"\"{\" } x } y"), Ok((&b"} x } y"[..], ())));
    assert_eq!(skip_braces_inner(b"a \"}\" b } c"), Ok((&b"} c"[..], ())));
    assert_eq!(skip_braces_inner(b"\"esc \\\" }\" } c"), Ok((&b"} c"[..], ())));
    assert_eq!(skip_braces_inner(b"// } \n } c"), Ok((&b"} c"[..], ())));
    assert_eq!(skip_braces_inner(b"/* } */ } c"), Ok((&b"} c"[..], ())));
    assert_eq!(skip_braces_inner(b"a/b } c"), Ok((&b"} c"[..], ())));
    assert_eq!(skip_braces_inner(b"\"open } "), Ok((&b""[..], ())));
    assert_eq!(skip_braces_inner(b"/* open } "), Ok((&b""[..], ())));
    let s = br#"{"}"}"#;
    assert_eq!(skip_braces(s), Ok((&b""[..], &s[..])));
    let s = b"{a b // }\n}";
    assert_eq!(skip_braces(s), Ok((&b""[..], &s[..])));
    // Comment marks and quotes inside unquoted strings and conditionals do not count.
    assert_eq!(skip_braces(b"{a b//}x"), Ok((&b"x"[..], &b"{a b//}"[..])));
    assert_eq!(skip_braces_inner(b"k [\"] } x"), Ok((&b"} x"[..], ())));
}

#[test]
fn walk_keeps_blocks_with_slashes_apart() {
    let input = b"a { url http://x }\nb { c d }\n";
    let mut walk = ParseManyPar::new(&input[..]);
    assert_eq!(
        walk.next_entry(),
        Some(Ok((&b"\nb { c d }\n"[..], (b"a".to_vec(), &b" { url http://x }"[..]))))
    );
    assert_eq!(
        walk.next_entry(),
        Some(Ok((&b"\n"[..], (b"b".to_vec(), &b" { c d }"[..]))))
    );
    assert_eq!(walk.next_entry(), None);
    assert_eq!(walk.finish(), Ok(()));
}

#[test]
fn whitespace_is_idempotent() {
    for input in [&b" /* c */ x"[..], &b"\t\t"[..], &b"y"[..]] {
        let (rest, ()) = whitespace(input).unwrap();
        assert_eq!(whitespace(rest), Ok((rest, ())));
    }
    for input in [&b"\n// c\n/* d */ x"[..], &b"\r\n"[..], &b"z"[..], &b"/* open"[..]] {
        let (rest, ()) = newline_maybe(input).unwrap();
        assert_eq!(newline_maybe(rest), Ok((rest, ())));
    }
}

#[test]
fn parsing_always_advances() {
    let input = b"a b\nc { d e }\n}";
    let (rest, Some(_)) = parse_pair(input).unwrap() else { panic!() };
    assert!(rest.len() < input.len());
    let (rest, _) = parse_many(input).unwrap();
    assert!(rest.is_empty() || rest[0] == b'}');
}

#[test]
fn parse_many_par_errors() {
    let input = b"key value\n";
    let mut walk = ParseManyPar::new(&input[..]);
    assert!(!walk.skip_failed());
    assert_eq!(walk.next_entry(), Some(Err(ParseError::Tag)));
    assert!(walk.skip_failed());
    let input = b"\"open";
    let mut walk = ParseManyPar::new(&input[..]);
    assert_eq!(walk.next_entry(), Some(Err(ParseError::TakeWhile1)));
    assert!(!walk.skip_failed());
    let input = b" }";
    let mut walk = ParseManyPar::new(&input[..]);
    assert_eq!(walk.next_entry(), None);
    assert_eq!(walk.finish(), Err(ParseError::Eof));
    let input = b"a { b c }\n";
    let mut walk = ParseManyPar::new(&input[..]);
    assert!(walk.next_entry().is_some());
    assert_eq!(walk.next_entry(), None);
    assert_eq!(walk.finish(), Ok(()));
}

#[test]
fn debug_text() {
    assert_eq!(text("a\"b").debug_string(), "\"a\\\"b\"");
    assert_eq!(Item::Integer(42).debug_string(), "42u32");
    assert_eq!(Item::Integer(0).debug_string(), "0u32");
    let m = Many(vec![pair("a", text("b")), pair("n", Item::Integer(7))]);
    assert_eq!(m.debug_string(), "{\"a\": \"b\", \"n\": 7u32}");
    assert_eq!(Many(vec![]).debug_string(), "{}");
    assert_eq!(
        Item::Many(Many(vec![pair("s", Item::Many(Many(vec![])))])).debug_string(),
        "{\"s\": {}}"
    );
    assert_eq!(Item::String(vec![0xff]).debug_string(), "\"\u{fffd}\"");
}

/// The debug layout written with std's formatter, for comparison.
enum Shown {
    S(String),
    I(u32),
    M(Vec<(String, Shown)>),
}

impl std::fmt::Debug for Shown {
    fn fmt(&self, f: &mut std::fmt::Formatter<'_>) -> std::fmt::Result {
        match self {
            Shown::S(s) => f.write_str(&format!("{:?}", s)),
            Shown::I(u) => f.write_str(&format!("{:?}u32", u)),
            Shown::M(m) => f.debug_map().entries(m.iter().map(|(k, v)| (k, v))).finish(),
        }
    }
}

fn shown(it: &Item) -> Shown {
    match it {
        Item::String(s) => Shown::S(String::from_utf8(s.clone()).unwrap()),
        Item::Integer(u) => Shown::I(*u),
        Item::Many(m) => Shown::M(
            m.0.iter().map(|(k, v)| (String::from_utf8(k.clone()).unwrap(), shown(v))).collect(),
        ),
    }
}

#[test]
fn debug_text_matches_std_formatting() {
    let item = Item::Many(Many(vec![
        pair("a", text("b\tc")),
        pair("n", Item::Integer(1234)),
        pair("e", Item::Many(Many(vec![]))),
        pair("s", Item::Many(Many(vec![pair("k", text("v")), pair("z", Item::Integer(0))]))),
    ]));
    let reference = shown(&item);
    assert_eq!(item.debug_string(), format!("{:?}", reference));
    assert_eq!(item.debug_string_pretty(), format!("{:#?}", reference));
    assert_eq!(
        item.debug_string_pretty(),
        "{\n    \"a\": \"b\\tc\",\n    \"n\": 1234u32,\n    \"e\": {},\n    \"s\": {\n        \"k\": \"v\",\n        \"z\": 0u32,\n    },\n}"
    );
    let Item::Many(m) = &item else { panic!() };
    assert_eq!(m.debug_string_pretty(), item.debug_string_pretty());
}

#[test]
fn conditional_leaves_the_block_alone() {
    let t = b" /* c */ {\n a b\n} rest";
    let mut s = b"[$WIN32]".to_vec();
    s.extend_from_slice(t);
    assert_eq!(parse_value(&s), parse_value(t));
    assert!(parse_value(t).is_ok());
}

#[test]
fn block_is_pairs_between_braces() {
    for t in [&b" a b\n c { d e } } tail"[..], &b"\n a b"[..], &b"}"[..]] {
        let mut s = b"{".to_vec();
        s.extend_from_slice(t);
        let (rest, many) = parse_many(t).unwrap();
        let rest = if rest.is_empty() { rest } else { &rest[1..] };
        assert_eq!(crunchy_vdf::parse::parse_many_with_braces(&s), Ok((rest, many)));
    }
}

#[test]
fn skip_braces_consumes_what_a_block_consumes() {
    for s in [
        &b" { a b\n c { d \"}\" } } tail"[..],
        &b"{ x y"[..],
        &b"\n{}"[..],
        &b"{a b//}x"[..],
        &b"{ url http://x }\nb { c d }"[..],
        &b"{ k [$X \"q] { v \"}\" } }z"[..],
        &b"{ k //not a comment }\n}"[..],
    ] {
        let (rest, _) = crunchy_vdf::parse::parse_many_with_braces(s).unwrap();
        assert_eq!(skip_braces(s), Ok((rest, &s[..s.len() - rest.len()])));
    }
}

#[test]
fn walk_step_is_the_scanners_in_turn() {
    let t = b"\n// c\n\"key\" { a b } next";
    let mut walk = ParseManyPar::new(&t[..]);
    let (s1, ()) = newline_maybe(t).unwrap();
    let (s2, key) = parse_auto_string(s1).unwrap();
    let (s3, block) = skip_braces(s2).unwrap();
    assert_eq!(walk.next_entry(), Some(Ok((s3, (key, block)))));
}

#[test]
fn whitespace_leaves_no_space_or_inline_comment() {
    for input in [&b" /* a\n b */ \t/* c */x y"[..], &b"\t\n"[..], &b"/* */"[..]] {
        let (rest, ()) = whitespace(input).unwrap();
        assert!(!rest.starts_with(b" ") && !rest.starts_with(b"\t") && !rest.starts_with(b"/*"));
        assert_eq!(whitespace(rest), Ok((rest, ())));
    }
}
