use nostdb_core::nost::lexer::Keyword;
use nostdb_core::nost::lexer::TokenKind;
use nostdb_core::nost::lexer::tokenize;

fn kinds(source: &str) -> Vec<TokenKind> {
    tokenize(source)
        .unwrap()
        .into_iter()
        .filter(|token| !token.is_trivia())
        .map(|token| token.kind)
        .collect()
}

#[test]
fn tokenizes_a_version_header() {
    assert_eq!(
        kinds("@nost 1\n"),
        vec![
            TokenKind::NostDirective,
            TokenKind::IntegerLiteral,
            TokenKind::Eof
        ]
    );
}

#[test]
fn distinguishes_a_colon_from_a_scope_operator_and_an_arrow_from_a_minus() {
    assert_eq!(
        kinds(":: : -> -1"),
        vec![
            TokenKind::ColonColon,
            TokenKind::Colon,
            TokenKind::Arrow,
            TokenKind::IntegerLiteral,
            TokenKind::Eof
        ]
    );
}

#[test]
fn a_tagged_literal_needs_the_quote_immediately_after_the_tag() {
    assert_eq!(
        kinds("bytes\"dead\""),
        vec![TokenKind::BytesLiteral, TokenKind::Eof]
    );
    assert_eq!(
        kinds("datetime\"2026-07-26T09:00:00Z\""),
        vec![TokenKind::DateTimeLiteral, TokenKind::Eof]
    );
    assert_eq!(
        kinds("bytes \"dead\""),
        vec![
            TokenKind::Keyword(Keyword::Bytes),
            TokenKind::StringLiteral,
            TokenKind::Eof
        ]
    );
}

#[test]
fn decodes_bytes_and_rejects_an_odd_length() {
    let tokens = tokenize("bytes\"deadBEEF\"").unwrap();
    assert_eq!(tokens[0].bytes, vec![0xDE, 0xAD, 0xBE, 0xEF]);
    assert!(tokenize("bytes\"abc\"").is_err());
    assert!(tokenize("bytes\"zz\"").is_err());
}

#[test]
fn unescapes_a_string_and_rejects_a_raw_line_terminator() {
    let tokens = tokenize(r#""a\"b\\c\nd\te\u{1F600}""#).unwrap();
    assert_eq!(tokens[0].text, "a\"b\\c\nd\te\u{1F600}");
    assert!(tokenize("\"line one\nline two\"").is_err());
    assert!(tokenize("\"unterminated").is_err());
    assert!(tokenize(r#""bad \q escape""#).is_err());
}

#[test]
fn separates_integers_from_floats() {
    assert_eq!(kinds("1"), vec![TokenKind::IntegerLiteral, TokenKind::Eof]);
    for float in ["1.5", "-1.5e-3", "2E+10", "0.75"] {
        assert_eq!(
            kinds(float),
            vec![TokenKind::FloatLiteral, TokenKind::Eof],
            "{float}"
        );
    }
    assert!(tokenize("1.").is_err());
    assert!(tokenize("1e").is_err());
    assert!(tokenize("-").is_err());
}

#[test]
fn keeps_comments_and_records_whether_they_began_a_line() {
    let tokens = tokenize("// leading\n@nost 1 // trailing\n").unwrap();
    let comments: Vec<(&str, bool)> = tokens
        .iter()
        .filter(|token| token.is_comment())
        .map(|token| (token.text.as_str(), token.on_own_line))
        .collect();
    assert_eq!(comments, vec![("leading", true), ("trailing", false)]);
}

#[test]
fn a_block_comment_must_close() {
    assert!(tokenize("/* open").is_err());
    let tokens = tokenize("/* closed */").unwrap();
    assert_eq!(tokens[0].text, " closed ");
}

#[test]
fn an_unknown_directive_is_rejected() {
    assert!(tokenize("@unknown 1").is_err());
}

#[test]
fn a_reserved_word_is_not_an_identifier() {
    assert_eq!(
        kinds("module node edge id source as true false"),
        vec![
            TokenKind::Keyword(Keyword::Module),
            TokenKind::Keyword(Keyword::Node),
            TokenKind::Keyword(Keyword::Edge),
            TokenKind::Keyword(Keyword::Id),
            TokenKind::Keyword(Keyword::Source),
            TokenKind::Keyword(Keyword::As),
            TokenKind::Keyword(Keyword::True),
            TokenKind::Keyword(Keyword::False),
            TokenKind::Eof
        ]
    );
    assert_eq!(
        kinds("Module nodes"),
        vec![TokenKind::Identifier, TokenKind::Identifier, TokenKind::Eof]
    );
}

#[test]
fn every_token_carries_a_usable_range() {
    let tokens = tokenize("@nost 1\nmodule m id \"x\" {}\n").unwrap();
    for token in &tokens {
        assert!(token.range.start().line >= 1);
        assert!(token.range.start().column >= 1);
        assert!(token.range.end().offset >= token.range.start().offset);
    }
    let module = tokens
        .iter()
        .find(|token| token.kind == TokenKind::Keyword(Keyword::Module))
        .unwrap();
    assert_eq!(module.range.start().line, 2);
    assert_eq!(module.range.start().column, 1);
}

#[test]
fn tokens_stand_one_behind_the_other() {
    let source = "@nost 2\n// one\n\nnode \u{e9}n: Label /* two */ {\n\tkey: \"a\u{1f600}b\",\n}\n";
    let tokens = tokenize(source).unwrap();
    assert_eq!(tokens[0].range.start().offset, 0);
    assert_eq!(tokens[0].range.start().line, 1);
    assert_eq!(tokens[0].range.start().column, 1);
    for pair in tokens.windows(2) {
        assert_eq!(pair[0].range.end().offset, pair[1].range.start().offset);
        assert_eq!(pair[0].range.end().line, pair[1].range.start().line);
        assert_eq!(pair[0].range.end().column, pair[1].range.start().column);
    }
    let last = tokens.last().unwrap();
    assert!(last.kind == TokenKind::Eof);
    assert_eq!(last.range.start().offset as usize, source.len());
    assert_eq!(last.range.end().offset as usize, source.len());
}
