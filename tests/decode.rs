use ben::{Error, Parser};

#[test]
fn decode_list_get() {
    let s = b"ld1:alee1:be";
    let parser = &mut Parser::new();
    let node = parser.parse(s).unwrap();
    let list = node.as_list().unwrap();
    let n = list.get(1).unwrap();
    assert_eq!(b"b", n.as_raw_bytes());
}

#[test]
fn decode_list_get_nested() {
    let s = b"l1:ad1:al1:aee1:be";
    let parser = &mut Parser::new();
    let node = parser.parse(s).unwrap();
    let node = node.as_list().unwrap();
    assert_eq!(b"a", node.get(0).unwrap().as_raw_bytes());
    assert_eq!(b"d1:al1:aee", node.get(1).unwrap().as_raw_bytes());
    assert_eq!(b"b", node.get(2).unwrap().as_raw_bytes());
    assert_eq!(None, node.get(3));
}

#[test]
fn decode_list_get_overflow() {
    let s = b"l1:al1:ad1:al1:aee1:be1:be";
    let parser = &mut Parser::new();
    let node = parser.parse(s).unwrap();
    let node = node.as_list().unwrap();
    let node = node.get_list(1).unwrap();
    assert_eq!(b"a", node.get(0).unwrap().as_raw_bytes());
    assert_eq!(b"d1:al1:aee", node.get(1).unwrap().as_raw_bytes());
    assert_eq!(b"b", node.get(2).unwrap().as_raw_bytes());
    assert_eq!(None, node.get(3));
}

#[test]
fn decode_list_iter() {
    let s = b"l1:ad1:al1:aee1:be";
    let parser = &mut Parser::new();
    let node = parser.parse(s).unwrap();
    let mut iter = node.as_list().unwrap().iter();
    assert_eq!(b"a", iter.next().unwrap().as_raw_bytes());
    assert_eq!(b"d1:al1:aee", iter.next().unwrap().as_raw_bytes());
    assert_eq!(b"b", iter.next().unwrap().as_raw_bytes());
    assert_eq!(None, iter.next());
}

#[test]
fn decode_list_iter_not_a_list() {
    let s = b"de";
    let parser = &mut Parser::new();
    let node = parser.parse(s).unwrap();
    let node = node.as_list();
    assert!(node.is_none());
}

#[test]
fn decode_dict_iter() {
    let s = b"d1:a2:bc3:def4:ghije";
    let parser = &mut Parser::new();
    let node = parser.parse(s).unwrap();
    let mut iter = node.as_dict().unwrap().iter();

    let (k, v) = iter.next().unwrap();
    assert_eq!(b"a", k.as_raw_bytes());
    assert_eq!(b"bc", v.as_raw_bytes());

    let (k, v) = iter.next().unwrap();
    assert_eq!(b"def", k.as_raw_bytes());
    assert_eq!(b"ghij", v.as_raw_bytes());

    assert_eq!(None, iter.next());
}

#[test]
fn decode_dict_iter_2() {
    let s = b"d1:alee";
    let parser = &mut Parser::new();
    let node = parser.parse(s).unwrap();
    let mut iter = node.as_dict().unwrap().iter();

    let (k, v) = iter.next().unwrap();
    assert_eq!(b"a", k.as_raw_bytes());
    assert_eq!(b"le", v.as_raw_bytes());

    assert_eq!(None, iter.next());
}

#[test]
fn decode_dict_iter_inside_list() {
    let s = b"ld1:alee1:a1:ae";
    let parser = &mut Parser::new();
    let node = parser.parse(s).unwrap();
    let mut list_iter = node.as_list().unwrap().iter();

    let dict = list_iter.next().unwrap();
    assert_eq!(b"a", list_iter.next().unwrap().as_raw_bytes());
    assert_eq!(b"a", list_iter.next().unwrap().as_raw_bytes());
    assert_eq!(None, list_iter.next());

    let mut iter = dict.as_dict().unwrap().iter();

    let (k, v) = iter.next().unwrap();
    assert_eq!(b"a", k.as_raw_bytes());
    assert_eq!(b"le", v.as_raw_bytes());

    assert_eq!(None, iter.next());
}

#[test]
fn decode_int_value() {
    let s = b"i12e";
    let parser = &mut Parser::new();
    let node = parser.parse(s).unwrap();
    assert_eq!(12, node.as_int().unwrap());
}

#[test]
fn decode_int_value_negative() {
    let s = b"i-12e";
    let parser = &mut Parser::new();
    let node = parser.parse(s).unwrap();
    assert_eq!(-12, node.as_int().unwrap());
}

#[test]
fn decode_int_value_invalid() {
    let s = b"ixyze";
    let err = Parser::new().parse(s).unwrap_err();
    assert_eq!(Error::Unexpected { pos: 1 }, err);
}

#[test]
fn decode_str_value() {
    let s = b"5:abcde";
    let parser = &mut Parser::new();
    let node = parser.parse(s).unwrap();
    assert_eq!(b"abcde", node.as_bytes().unwrap());
}

#[test]
fn decode_dict_get() {
    let s = b"d1:ai1e1:bi2ee";
    let parser = &mut Parser::new();
    let node = parser.parse(s).unwrap();
    let dict = node.as_dict().unwrap();
    let b = dict.get(b"b").unwrap();
    assert_eq!(2, b.as_int().unwrap());
}

#[test]
fn dict_get_invalid() {
    let s = b"d1:ai1e1:bi2ee";
    let parser = &mut Parser::new();
    let node = parser.parse(s).unwrap();
    let dict = node.as_dict().unwrap();
    assert!(dict.get_dict(b"b").is_none());
    assert!(dict.get_list(b"b").is_none());
}

#[test]
fn list_get_invalid() {
    let s = b"l1:a1:be";
    let parser = &mut Parser::new();
    let node = parser.parse(s).unwrap();
    let dict = node.as_list().unwrap();
    assert!(dict.get_dict(0).is_none());
    assert!(dict.get_list(1).is_none());
}

#[test]
fn decode_empty() {
    let parser = &mut Parser::new();
    let err = parser.parse(&[]).unwrap_err();
    assert_eq!(err, Error::Eof);
}

#[test]
fn decode_debug_bytes() {
    let s = "3:\x01\x01\x01".as_bytes();
    let parser = &mut Parser::new();
    let n = parser.parse(s).unwrap();
    assert!(n.as_bytes().is_some());
    assert!(n.as_ascii_str().is_none());
    assert_eq!("`Bytes:[1, 1, 1]`", n.debug_string());
}

#[test]
fn decode_debug_str() {
    let s = "3:abc".as_bytes();
    let parser = &mut Parser::new();
    let n = parser.parse(s).unwrap();
    assert!(n.as_bytes().is_some());
    assert!(n.as_ascii_str().is_some());
    assert_eq!("\"abc\"", n.debug_string());
}

#[test]
fn empty_dict_len() {
    let s = b"de";
    let parser = &mut Parser::new();
    let node = parser.parse(s).unwrap();
    assert!(node.as_dict().unwrap().is_empty());
}

#[test]
fn non_empty_dict_len() {
    let s = b"d1:a1:be";
    let parser = &mut Parser::new();
    let node = parser.parse(s).unwrap();
    assert!(!node.as_dict().unwrap().is_empty());
    assert_eq!(node.as_dict().unwrap().len(), 1);
}

#[test]
fn non_empty_dict_nested_len() {
    let s = b"d1:al1:ad1:al1:aee1:bee";
    let parser = &mut Parser::new();
    let node = parser.parse(s).unwrap();
    assert!(!node.as_dict().unwrap().is_empty());
    assert_eq!(node.as_dict().unwrap().len(), 1);
}

#[test]
fn empty_list_len() {
    let s = b"le";
    let parser = &mut Parser::new();
    let node = parser.parse(s).unwrap();
    assert!(node.as_list().unwrap().is_empty());
}

#[test]
fn non_empty_list_len() {
    let s = b"l1:a1:be";
    let parser = &mut Parser::new();
    let node = parser.parse(s).unwrap();
    assert!(!node.as_list().unwrap().is_empty());
    assert_eq!(node.as_list().unwrap().len(), 2);
}

#[test]
fn non_empty_list_nested_len() {
    let s = b"l1:ad1:al1:aee1:be";
    let parser = &mut Parser::new();
    let node = parser.parse(s).unwrap();
    assert!(!node.as_list().unwrap().is_empty());
    assert_eq!(node.as_list().unwrap().len(), 3);
}
