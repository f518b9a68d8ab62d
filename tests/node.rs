use ben::{Error, Node, NodeKind, Parser};

#[test]
fn node_list_get() {
    let s = b"ld1:alee1:be";
    let node = Node::parse(s).unwrap();
    let list = node.as_list().unwrap();
    let n = list.get(1).unwrap();
    assert_eq!(b"b", n.data());
}

// A container's data spans its delimiters.
#[test]
fn node_list_get_nested() {
    let s = b"l1:ad1:al1:aee1:be";
    let node = Node::parse(s).unwrap();
    let node = node.as_list().unwrap();
    assert_eq!(b"a", node.get(0).unwrap().data());
    assert_eq!(b"d1:al1:aee", node.get(1).unwrap().data());
    assert_eq!(b"b", node.get(2).unwrap().data());
    assert_eq!(None, node.get(3));
}

#[test]
fn node_list_get_overflow() {
    let s = b"l1:al1:ad1:al1:aee1:be1:be";
    let node = Node::parse(s).unwrap();
    let node = node.as_list().unwrap();
    let node = node.get_list(1).unwrap();
    assert_eq!(b"a", node.get(0).unwrap().data());
    assert_eq!(b"d1:al1:aee", node.get(1).unwrap().data());
    assert_eq!(b"b", node.get(2).unwrap().data());
    assert_eq!(None, node.get(3));
}

#[test]
fn node_list_iter() {
    let s = b"l1:ad1:al1:aee1:be";
    let node = Node::parse(s).unwrap();
    let mut iter = node.as_list().unwrap().iter();
    assert_eq!(b"a", iter.next().unwrap().data());
    assert_eq!(b"d1:al1:aee", iter.next().unwrap().data());
    assert_eq!(b"b", iter.next().unwrap().data());
    assert_eq!(None, iter.next());
}

#[test]
fn node_list_iter_not_a_list() {
    let s = b"de";
    let node = Node::parse(s).unwrap();
    let node = node.as_list();
    assert!(node.is_none());
}

#[test]
fn node_dict_iter() {
    let s = b"d1:a2:bc3:def4:ghije";
    let node = Node::parse(s).unwrap();
    let mut iter = node.as_dict().unwrap().iter();

    let (k, v) = iter.next().unwrap();
    assert_eq!(b"a", k.data());
    assert_eq!(b"bc", v.data());

    let (k, v) = iter.next().unwrap();
    assert_eq!(b"def", k.data());
    assert_eq!(b"ghij", v.data());

    assert_eq!(None, iter.next());
}

#[test]
fn node_dict_iter_2() {
    let s = b"d1:alee";
    let node = Node::parse(s).unwrap();
    let mut iter = node.as_dict().unwrap().iter();

    let (k, v) = iter.next().unwrap();
    assert_eq!(b"a", k.data());
    assert_eq!(b"le", v.data());

    assert_eq!(None, iter.next());
}

#[test]
fn node_dict_iter_inside_list() {
    let s = b"ld1:alee1:a1:ae";
    let node = Node::parse(s).unwrap();
    let mut list_iter = node.as_list().unwrap().iter();

    let dict = list_iter.next().unwrap();
    assert_eq!(b"a", list_iter.next().unwrap().data());
    assert_eq!(b"a", list_iter.next().unwrap().data());
    assert_eq!(None, list_iter.next());

    let mut iter = dict.as_dict().unwrap().iter();

    let (k, v) = iter.next().unwrap();
    assert_eq!(b"a", k.data());
    assert_eq!(b"le", v.data());

    assert_eq!(None, iter.next());
}

#[test]
fn node_int_value() {
    let s = b"i12e";
    let node = Node::parse(s).unwrap();
    assert_eq!(12, node.as_int().unwrap());
}

#[test]
fn node_int_value_negative() {
    let s = b"i-12e";
    let node = Node::parse(s).unwrap();
    assert_eq!(-12, node.as_int().unwrap());
}

// A byte that cannot continue an integer is reported with its position.
#[test]
fn node_int_value_invalid() {
    let s = b"ixyze";
    let err = Parser::new().parse(s).unwrap_err();
    assert_eq!(Error::Unexpected { pos: 1 }, err);
}

#[test]
fn node_str_value() {
    let s = b"5:abcde";
    let node = Node::parse(s).unwrap();
    assert_eq!("abcde", node.as_str().unwrap());
}

#[test]
fn node_dict_get() {
    let s = b"d1:ai1e1:bi2ee";
    let node = Node::parse(s).unwrap();
    let dict = node.as_dict().unwrap();
    let b = dict.get(b"b").unwrap();
    assert_eq!(2, b.as_int().unwrap());
}

#[test]
fn node_kind_of_root() {
    let node = Node::parse(b"ld1:alee1:be").unwrap();
    assert_eq!(NodeKind::List, node.kind());
    assert!(node.is_list() && !node.is_dict() && !node.is_str() && !node.is_int());
}

#[test]
fn node_parse_prefix_leaves_rest() {
    let (node, len) = Node::parse_prefix(b"i7eXYZ").unwrap();
    assert_eq!(3, len);
    assert_eq!(7, node.as_int().unwrap());
}

#[test]
fn node_parse_in_reuses_store() {
    let mut store = Vec::new();
    {
        let node = Node::parse_in(b"l1:ae", &mut store).unwrap();
        assert_eq!(b"a", node.as_list().unwrap().get_bytes(0).unwrap());
    }
    assert_eq!(2, store.len());
    let (node, len) = Node::parse_prefix_in(b"i1ei2e", &mut store).unwrap();
    assert_eq!(3, len);
    assert_eq!(1, node.as_int().unwrap());
}

#[test]
fn node_parse_max_tokens() {
    assert_eq!(Error::NoMemory, Node::parse_max_tokens(b"l1:a1:be", 2).unwrap_err());
    assert!(Node::parse_max_tokens(b"l1:a1:be", 3).is_ok());
}
