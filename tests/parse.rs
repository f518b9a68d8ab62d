use ben::{Error, Parser, Token, TokenKind};

#[test]
fn parse_int() {
    let s = b"i12e";
    let mut parser = Parser::new();
    parser.parse(s).unwrap();
    assert_eq!(&[Token::new(TokenKind::Int, 1, 3)], parser.tokens());
}

#[test]
fn parse_string() {
    let s = b"3:abc";
    let mut parser = Parser::new();
    parser.parse(s).unwrap();
    assert_eq!(&[Token::new(TokenKind::ByteStr, 2, 5)], parser.tokens());
}

#[test]
fn parse_string_too_long() {
    let s = b"3:abcd";
    let mut parser = Parser::new();
    let err = parser.parse(s).unwrap_err();
    assert_eq!(
        Error::Invalid {
            reason: "Extra bytes at the end",
            pos: 5,
        },
        err
    );
}

#[test]
fn parse_string_too_short() {
    let s = b"3:ab";
    let mut parser = Parser::new();
    let err = parser.parse(s).unwrap_err();
    assert_eq!(Error::Eof, err);
}

#[test]
fn empty_dict() {
    let s = b"de";
    let mut parser = Parser::new();
    parser.parse(s).unwrap();
    assert_eq!(&[Token::new(TokenKind::Dict, 0, 2)], parser.tokens());
}

#[test]
fn unclosed_dict() {
    let s = b"d";
    let err = Parser::new().parse(s).unwrap_err();
    assert_eq!(Error::Eof, err);
}

#[test]
fn key_only_dict() {
    let s = b"d1:ae";
    let err = Parser::new().parse(s).unwrap_err();
    assert_eq!(Error::Eof, err);
}

#[test]
fn key_only_dict_2() {
    let s = b"d1:a1:a1:ae";
    let err = Parser::new().parse(s).unwrap_err();
    assert_eq!(Error::Eof, err);
}

#[test]
fn dict_string_values() {
    let s = b"d1:a2:ab3:abc4:abcde";
    let mut parser = Parser::new();
    parser.parse(s).unwrap();
    assert_eq!(
        &[
            Token::with_size(TokenKind::Dict, 0, 20, 4, 5),
            Token::with_size(TokenKind::ByteStr, 3, 4, 0, 1),
            Token::with_size(TokenKind::ByteStr, 6, 8, 0, 1),
            Token::with_size(TokenKind::ByteStr, 10, 13, 0, 1),
            Token::with_size(TokenKind::ByteStr, 15, 19, 0, 1)
        ],
        parser.tokens()
    );
}

#[test]
fn dict_mixed_values() {
    let s = b"d1:a1:b1:ci1e1:x1:y1:dde1:fle1:g1:he";
    let mut parser = Parser::new();
    parser.parse(s).unwrap();
    assert_eq!(
        &[
            Token::with_size(TokenKind::Dict, 0, 36, 12, 13),
            Token::with_size(TokenKind::ByteStr, 3, 4, 0, 1),
            Token::with_size(TokenKind::ByteStr, 6, 7, 0, 1),
            Token::with_size(TokenKind::ByteStr, 9, 10, 0, 1),
            Token::with_size(TokenKind::Int, 11, 12, 0, 1),
            Token::with_size(TokenKind::ByteStr, 15, 16, 0, 1),
            Token::with_size(TokenKind::ByteStr, 18, 19, 0, 1),
            Token::with_size(TokenKind::ByteStr, 21, 22, 0, 1),
            Token::with_size(TokenKind::Dict, 22, 24, 0, 1),
            Token::with_size(TokenKind::ByteStr, 26, 27, 0, 1),
            Token::with_size(TokenKind::List, 27, 29, 0, 1),
            Token::with_size(TokenKind::ByteStr, 31, 32, 0, 1),
            Token::with_size(TokenKind::ByteStr, 34, 35, 0, 1)
        ],
        parser.tokens()
    );
}

#[test]
fn empty_list() {
    let s = b"le";
    let mut parser = Parser::new();
    parser.parse(s).unwrap();
    assert_eq!(&[Token::new(TokenKind::List, 0, 2)], parser.tokens());
}

#[test]
fn unclosed_list() {
    let s = b"l";
    let err = Parser::new().parse(s).unwrap_err();
    assert_eq!(Error::Eof, err);
}

#[test]
fn list_string_values() {
    let s = b"l1:a2:ab3:abc4:abcde";
    let mut parser = Parser::new();
    parser.parse(s).unwrap();
    assert_eq!(
        &[
            Token::with_size(TokenKind::List, 0, 20, 4, 5),
            Token::new(TokenKind::ByteStr, 3, 4),
            Token::new(TokenKind::ByteStr, 6, 8,),
            Token::new(TokenKind::ByteStr, 10, 13,),
            Token::new(TokenKind::ByteStr, 15, 19,)
        ],
        parser.tokens()
    );
}

#[test]
fn list_nested() {
    let s = b"lllleeee";
    let mut parser = Parser::new();
    parser.parse(s).unwrap();
    assert_eq!(
        &[
            Token::with_size(TokenKind::List, 0, 8, 1, 4),
            Token::with_size(TokenKind::List, 1, 7, 1, 3),
            Token::with_size(TokenKind::List, 2, 6, 1, 2),
            Token::with_size(TokenKind::List, 3, 5, 0, 1),
        ],
        parser.tokens()
    );
}

#[test]
fn list_nested_complex() {
    let s = b"ld1:ald2:ablleeeeee";
    let mut parser = Parser::new();
    parser.parse(s).unwrap();
    assert_eq!(
        &[
            Token::with_size(TokenKind::List, 0, 19, 1, 8),
            Token::with_size(TokenKind::Dict, 1, 18, 2, 7),
            Token::with_size(TokenKind::ByteStr, 4, 5, 0, 1),
            Token::with_size(TokenKind::List, 5, 17, 1, 5),
            Token::with_size(TokenKind::Dict, 6, 16, 2, 4),
            Token::with_size(TokenKind::ByteStr, 9, 11, 0, 1),
            Token::with_size(TokenKind::List, 11, 15, 1, 2),
            Token::with_size(TokenKind::List, 12, 14, 0, 1),
        ],
        parser.tokens()
    );
}

#[test]
fn token_limit() {
    let s = b"l1:a2:ab3:abc4:abcde";
    let mut parser = Parser::new();
    parser.set_token_limit(3);
    let err = parser.parse(s).unwrap_err();
    assert_eq!(Error::NoMemory, err);
}

#[test]
fn multiple_root_tokens() {
    let mut parser = Parser::new();
    assert_eq!(
        Error::Invalid {
            reason: "Extra bytes at the end",
            pos: 3,
        },
        parser.parse(b"1:a1:b").unwrap_err()
    );
    assert_eq!(
        Error::Invalid {
            reason: "Extra bytes at the end",
            pos: 3,
        },
        parser.parse(b"i1e1:b").unwrap_err()
    );
    assert_eq!(
        Error::Invalid {
            reason: "Extra bytes at the end",
            pos: 5,
        },
        parser.parse(b"l1:aede").unwrap_err()
    );
    assert_eq!(
        Error::Invalid {
            reason: "Extra bytes at the end",
            pos: 2,
        },
        parser.parse(b"lel1:ae").unwrap_err()
    );
}

#[test]
fn parse_prefix() {
    let s = b"lede";
    let mut parser = Parser::new();
    let (_, len) = parser.parse_prefix(s).unwrap();
    assert_eq!(
        &[Token::with_size(TokenKind::List, 0, 2, 0, 1)],
        parser.tokens()
    );
    assert_eq!(2, len);
}

#[test]
fn parse_prefix_in() {
    let s = b"lede";
    let mut parser = Parser::new();
    let (_, len) = parser.parse_prefix(s).unwrap();
    assert_eq!(
        &[Token::with_size(TokenKind::List, 0, 2, 0, 1)],
        parser.tokens()
    );
    assert_eq!(2, len);
}

#[test]
fn parse_empty_string() {
    let s = b"0:";
    let mut parser = Parser::new();
    parser.parse(s).unwrap();
    assert_eq!(
        &[Token::with_size(TokenKind::ByteStr, 2, 2, 0, 1)],
        parser.tokens()
    );
}

#[test]
fn token_range_bounds_payload() {
    let t = Token::new(TokenKind::ByteStr, 2, 5);
    assert_eq!(2..5, t.range());
    assert_eq!(TokenKind::ByteStr, t.kind());
}

#[test]
fn tokenize_into_caller_store() {
    let mut store = vec![Token::new(TokenKind::Int, 9, 9)];
    let len = ben::parse::tokenize(&mut store, 4, b"d1:ai5ee trailing").unwrap();
    assert_eq!(8, len);
    assert_eq!(
        vec![
            Token::with_size(TokenKind::Dict, 0, 8, 2, 3),
            Token::new(TokenKind::ByteStr, 3, 4),
            Token::new(TokenKind::Int, 5, 6),
        ],
        store
    );
    assert_eq!(
        Err(Error::NoMemory),
        ben::parse::tokenize(&mut store, 2, b"d1:ai5ee")
    );
}
