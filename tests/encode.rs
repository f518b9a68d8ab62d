use ben::{Encode, Encoder};

#[test]
fn encode_int() {
    let mut e = vec![];
    e.add_int(10);
    assert_eq!(b"i10e", &e[..]);
}

#[test]
fn encode_str() {
    let mut e = vec![];
    e.add_str("1000");
    assert_eq!(b"4:1000", &e[..]);
}

#[test]
fn encode_dict() {
    let mut e = vec![];
    let mut dict = e.add_dict();
    dict.add("Hello", "World");
    dict.finish();
    assert_eq!(b"d5:Hello5:Worlde", &e[..]);
}

#[test]
fn encode_dict_drop() {
    let mut e = vec![];
    let mut dict = e.add_dict();
    dict.add("Hello", "World");
    drop(dict);
    assert_eq!(b"d5:Hello5:Worlde", &e[..]);
}

#[test]
fn encode_list() {
    let mut e = vec![];
    let mut list = e.add_list();
    list.add("Hello");
    list.add("World");
    list.add(123);
    list.finish();
    assert_eq!(b"l5:Hello5:Worldi123ee", &e[..]);
}

#[test]
fn encode_list_drop() {
    let mut e = vec![];
    let mut list = e.add_list();
    list.add("Hello");
    list.add("World");
    list.add(123);
    drop(list);
    assert_eq!(b"l5:Hello5:Worldi123ee", &e[..]);
}

enum Custom {
    A(u8, u8),
    B { x: u32, y: &'static str },
}

impl Encode for Custom {
    fn encode<E: Encoder>(&self, encoder: &mut E) {
        match *self {
            Self::A(a, b) => {
                let mut dict = encoder.add_dict();
                dict.add("0", a as i64);
                dict.add("1", b as i64);
            }
            Self::B { x, y } => {
                let mut dict = encoder.add_dict();
                dict.add("x", x as i64);
                dict.add("y", y);
            }
        }
    }
}

#[test]
fn encode_custom() {
    let mut e = vec![];
    let mut list = e.add_list();
    list.add(Custom::A(1, 2));
    list.add(Custom::B {
        x: 1,
        y: "Hello world",
    });

    drop(list);
    assert_eq!(&b"ld1:0i1e1:1i2eed1:xi1e1:y11:Hello worldee"[..], &e[..]);
}

#[test]
fn encode_add_bytes2_ok() {
    let mut e = vec![];
    let mut bytes = e.add_n_bytes(4);
    bytes.add(&[0; 2]);
    bytes.add(&[0; 2]);
    drop(bytes);
    assert_eq!(&b"4:\x00\x00\x00\x00"[..], &e[..]);
}

#[test]
fn encode_add_bytes_finish() {
    let mut e = vec![];
    let mut bytes = e.add_n_bytes(3);
    bytes.add(b"ab");
    bytes.add(b"c");
    bytes.finish();
    assert_eq!(b"3:abc", &e[..]);
}

#[test]
fn encode_negative_and_extreme_ints() {
    let mut e = vec![];
    e.add_int(-42);
    e.add_int(0);
    e.add_int(i64::MAX);
    e.add_int(i64::MIN);
    assert_eq!(
        &b"i-42ei0ei9223372036854775807ei-9223372036854775808e"[..],
        &e[..]
    );
}

#[test]
fn encode_long_bytes_prefix() {
    let mut e = vec![];
    e.add_bytes(&[7u8; 12]);
    assert_eq!(b"12:", &e[..3]);
    assert_eq!(15, e.len());
}

#[test]
fn encode_values_to_vec() {
    assert_eq!(b"i5e".to_vec(), 5i64.encode_to_vec());
    assert_eq!(b"2:hi".to_vec(), "hi".encode_to_vec());
    assert_eq!(b"2:hi".to_vec(), String::from("hi").encode_to_vec());
    assert_eq!(b"3:xyz".to_vec(), b"xyz".encode_to_vec());
    assert_eq!(b"li1ei2ee".to_vec(), vec![1i64, 2].encode_to_vec());
    assert_eq!(b"l1:a1:be".to_vec(), ["a", "b"][..].encode_to_vec());
    assert_eq!(b"i9e".to_vec(), Box::new(9i64).encode_to_vec());
}

#[test]
fn encode_nested_builders() {
    let mut e = vec![];
    let mut dict = e.add_dict();
    {
        let mut inner = dict.add_list("k");
        inner.add(1);
        let mut deeper = inner.add_dict();
        deeper.add("z", "w");
    }
    dict.add_dict("m").finish();
    dict.finish();
    assert_eq!(b"d1:kli1ed1:z1:wee1:mdee", &e[..]);
}
