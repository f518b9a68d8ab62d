use ben::{Encoder, Error, Node, Parser};

#[test]
fn int_key_is_rejected() {
    let err = Node::parse(b"di1ei2ee").unwrap_err();
    assert_eq!(
        Error::Invalid {
            reason: "Dictionary key must be a string",
            pos: 1,
        },
        err
    );
    let node = Node::parse(b"d1:ai1ee").unwrap();
    let dict = node.as_dict().unwrap();
    assert_eq!(1, dict.len());
    assert_eq!(1, dict.get_int(b"a").unwrap());
}

#[test]
fn truncated_inputs_are_eof() {
    assert_eq!(Error::Eof, Node::parse(b"3:ab").unwrap_err());
    assert_eq!(Error::Eof, Node::parse(b"d1:a").unwrap_err());
    assert_eq!(Error::Eof, Node::parse(b"i12").unwrap_err());
    assert_eq!(Error::Eof, Node::parse(b"i-").unwrap_err());
}

#[test]
fn integer_overflow_reports_literal_start() {
    assert_eq!(
        Error::Overflow { pos: 1 },
        Node::parse(b"i9223372036854775808e").unwrap_err()
    );
    assert_eq!(
        Error::Overflow { pos: 2 },
        Node::parse(b"li99999999999999999999ee").unwrap_err()
    );
    assert_eq!(
        i64::MAX,
        Node::parse(b"i9223372036854775807e").unwrap().as_int().unwrap()
    );
    assert_eq!(
        Error::Overflow { pos: 0 },
        Node::parse(b"99999999999999999999:a").unwrap_err()
    );
}

#[test]
fn token_ceiling_gives_no_memory() {
    let mut parser = Parser::new();
    parser.set_token_limit(3);
    assert_eq!(
        Error::NoMemory,
        parser.parse(b"l1:a2:ab3:abc4:abcde").unwrap_err()
    );
    parser.set_token_limit(5);
    assert!(parser.parse(b"l1:a2:ab3:abc4:abcde").is_ok());
}

#[test]
fn hello_world_example_round_trips() {
    let mut e = vec![];
    let mut list = e.add_list();
    list.add("Hello");
    list.add("World");
    list.add(123);
    list.finish();
    assert_eq!(b"l5:Hello5:Worldi123ee", &e[..]);

    let node = Node::parse(&e).unwrap();
    let list = node.as_list().unwrap();
    assert_eq!(3, list.len());
    assert_eq!("Hello", list.get_str(0).unwrap());
    assert_eq!("World", list.get_str(1).unwrap());
    assert_eq!(123, list.get_int(2).unwrap());
    assert_eq!(&e[..], node.as_raw_bytes());
}

#[test]
fn nested_value_round_trips() {
    let mut e = vec![];
    let mut dict = e.add_dict();
    dict.add("n", -7i64);
    {
        let mut l = dict.add_list("l");
        l.add(&b"\x00\x01"[..]);
        l.add_dict().add("k", "v");
    }
    dict.finish();

    let node = Node::parse(&e).unwrap();
    let dict = node.as_dict().unwrap();
    assert_eq!(2, dict.len());
    assert_eq!(-7, dict.get_int(b"n").unwrap());
    let l = dict.get_list(b"l").unwrap();
    assert_eq!(2, l.len());
    assert_eq!(&[0u8, 1][..], l.get_bytes(0).unwrap());
    assert_eq!("v", l.get_dict(1).unwrap().get_str(b"k").unwrap());
}

#[test]
fn iteration_lands_on_closing_byte() {
    let buf = b"ld1:ali1ei2eee1:xe";
    let node = Node::parse(buf).unwrap();
    let list = node.as_list().unwrap();
    let mut it = list.iter();
    let mut last = None;
    let mut count = 0;
    while let Some(n) = it.next() {
        count += 1;
        last = Some(n);
    }
    assert_eq!(list.len(), count);
    let last = last.unwrap();
    let end = last.as_raw_bytes().as_ptr() as usize - buf.as_ptr() as usize + last.as_raw_bytes().len();
    assert_eq!(b'e', buf[end]);
    assert_eq!(buf.len() - 1, end);
}

#[test]
fn other_errors() {
    assert_eq!(Error::Unexpected { pos: 0 }, Node::parse(b"x").unwrap_err());
    assert_eq!(
        Error::Invalid {
            reason: "Unclosed object",
            pos: 1,
        },
        Node::parse(b"e").unwrap_err()
    );
    assert_eq!(Error::Unexpected { pos: 2 }, Node::parse(b"i-e").unwrap_err());
    assert_eq!(Error::Unexpected { pos: 4 }, Node::parse(b"l1:ax").unwrap_err());
    assert_eq!(0, Node::parse(b"i007e").unwrap().as_int().unwrap() - 7);
}

#[test]
fn dict_lookup_takes_first_match() {
    let node = Node::parse(b"d1:ai1e1:ai2ee").unwrap();
    let dict = node.as_dict().unwrap();
    assert_eq!(1, dict.get_int(b"a").unwrap());
    assert!(dict.get(b"b").is_none());
}

#[test]
fn str_views_check_utf8_and_ascii() {
    let node = Node::parse(b"2:\xc3\xa9").unwrap();
    assert_eq!("é", node.as_str().unwrap());
    assert!(node.as_ascii_str().is_none());
    let node = Node::parse(b"2:\xff\xfe").unwrap();
    assert!(node.as_str().is_none());
    let node = Node::parse(b"3:a b").unwrap();
    assert_eq!("a b", node.as_ascii_str().unwrap());
}

#[test]
fn extreme_integers_read_back() {
    for x in [i64::MIN, i64::MIN + 1, -1, 0, i64::MAX] {
        let mut e = vec![];
        e.add_int(x);
        assert_eq!(x, Node::parse(&e).unwrap().as_int().unwrap());
    }
    assert_eq!(
        Error::Overflow { pos: 1 },
        Node::parse(b"i-9223372036854775809e").unwrap_err()
    );
}

#[test]
fn debug_rendering_of_containers() {
    let node = Node::parse(b"ld1:ai-3ee3:\x00\x01\x02le0:e").unwrap();
    assert_eq!("[{\"a\": -3}, `Bytes:[0, 1, 2]`, [], \"\"]", node.debug_string());
}
