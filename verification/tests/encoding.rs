use bencode::{AsDict, AsString, Encodable, Encoder, Error, Foo};

#[test]
fn simple_encodable_works() {
    let mut encoder = Encoder::new();
    encoder
        .emit(&Foo {
            bar: 5,
            baz: vec!["foo".to_owned(), "bar".to_owned()],
            qux: b"qux".to_vec(),
        })
        .unwrap();
    assert_eq!(
        &encoder.get_output().unwrap()[..],
        &b"d3:bari5e3:bazl3:foo3:bare3:qux3:quxe"[..]
    );
}

#[test]
fn record_to_bytes_matches_driver_output() {
    let foo = Foo {
        bar: 5,
        baz: vec!["foo".to_owned(), "bar".to_owned()],
        qux: b"qux".to_vec(),
    };
    assert_eq!(foo.to_bytes().unwrap(), b"d3:bari5e3:bazl3:foo3:bare3:qux3:quxe".to_vec());
}

#[test]
fn integer_token_shapes() {
    assert_eq!(5u32.to_bytes().unwrap(), b"i5e".to_vec());
    assert_eq!(0i64.to_bytes().unwrap(), b"i0e".to_vec());
    assert_eq!((-12i32).to_bytes().unwrap(), b"i-12e".to_vec());
    assert_eq!(255u8.to_bytes().unwrap(), b"i255e".to_vec());
    assert_eq!(
        i64::MIN.to_bytes().unwrap(),
        b"i-9223372036854775808e".to_vec()
    );
    assert_eq!(
        u64::MAX.to_bytes().unwrap(),
        b"i18446744073709551615e".to_vec()
    );
}

#[test]
fn text_token_shapes() {
    assert_eq!("foo".to_bytes().unwrap(), b"3:foo".to_vec());
    assert_eq!(String::from("hello").to_bytes().unwrap(), b"5:hello".to_vec());
    assert_eq!("".to_bytes().unwrap(), b"0:".to_vec());
}

#[test]
fn wrapped_bytes_are_one_string_token() {
    assert_eq!(AsString(b"qux".to_vec()).to_bytes().unwrap(), b"3:qux".to_vec());
    let buf = b"qux".to_vec();
    assert_eq!(AsString(&buf).to_bytes().unwrap(), b"3:qux".to_vec());
    assert_eq!(AsString(&buf[..]).to_bytes().unwrap(), b"3:qux".to_vec());
    assert_eq!(AsString(Vec::new()).to_bytes().unwrap(), b"0:".to_vec());
}

#[test]
fn wrapper_built_from_a_slice_owns_its_bytes() {
    let wrapped: AsString<Vec<u8>> = AsString::from(&b"qux"[..]);
    assert_eq!(wrapped.to_bytes().unwrap(), b"3:qux".to_vec());
}

#[test]
fn unwrapped_bytes_are_a_list_of_integers() {
    // The same buffer without the wrapper goes through the Vec impl and
    // yields integer tokens, which is exactly what the wrapper disambiguates.
    let buf = b"qux".to_vec();
    assert_eq!(buf.to_bytes().unwrap(), b"li113ei117ei120ee".to_vec());
}

#[test]
fn deque_encodes_in_iteration_order() {
    let mut q = std::collections::VecDeque::new();
    q.push_back(2u8);
    q.push_front(1u8);
    q.push_back(3u8);
    assert_eq!(q.to_bytes().unwrap(), b"li1ei2ei3ee".to_vec());
}

#[test]
fn slice_encodes_like_its_vec() {
    let words = vec!["foo".to_owned(), "bar".to_owned()];
    let slice: &[String] = &words;
    assert_eq!(slice.to_bytes().unwrap(), b"l3:foo3:bare".to_vec());
}

#[test]
fn list_token_shapes() {
    let words = vec!["foo".to_owned(), "bar".to_owned()];
    assert_eq!(words.to_bytes().unwrap(), b"l3:foo3:bare".to_vec());
    let empty: Vec<String> = Vec::new();
    assert_eq!(empty.to_bytes().unwrap(), b"le".to_vec());
    let nested = vec![vec![1u16, 2], vec![3u16]];
    assert_eq!(nested.to_bytes().unwrap(), b"lli1ei2eeli3eee".to_vec());
}

#[test]
fn forwarding_impls_match_the_value() {
    let n = 7u64;
    assert_eq!((&n).to_bytes().unwrap(), b"i7e".to_vec());
    assert_eq!(Box::new(7u64).to_bytes().unwrap(), b"i7e".to_vec());
    assert_eq!(std::rc::Rc::new(7u64).to_bytes().unwrap(), b"i7e".to_vec());
    assert_eq!(std::sync::Arc::new(7u64).to_bytes().unwrap(), b"i7e".to_vec());
}

#[test]
fn dict_pairs_are_emitted_in_ascending_key_order() {
    let pairs = AsDict(vec![
        (b"zz".to_vec(), 1u32),
        (b"aa".to_vec(), 2u32),
        (b"mm".to_vec(), 3u32),
    ]);
    assert_eq!(pairs.to_bytes().unwrap(), b"d2:aai2e2:mmi3e2:zzi1ee".to_vec());
}

#[test]
fn dict_encoding_ignores_insertion_order() {
    let one = AsDict(vec![
        (b"b".to_vec(), 1u8),
        (b"a".to_vec(), 2u8),
        (b"c".to_vec(), 3u8),
    ]);
    let other = AsDict(vec![
        (b"c".to_vec(), 3u8),
        (b"b".to_vec(), 1u8),
        (b"a".to_vec(), 2u8),
    ]);
    let bytes = one.to_bytes().unwrap();
    assert_eq!(bytes, other.to_bytes().unwrap());
    assert_eq!(bytes, b"d1:ai2e1:bi1e1:ci3ee".to_vec());
}

#[test]
fn empty_dict_token() {
    let none: AsDict<u8> = AsDict(Vec::new());
    assert_eq!(none.to_bytes().unwrap(), b"de".to_vec());
}

#[test]
fn dict_key_prefix_sorts_before_longer_key() {
    let pairs = AsDict(vec![(b"ab".to_vec(), 1u8), (b"a".to_vec(), 2u8)]);
    assert_eq!(pairs.to_bytes().unwrap(), b"d1:ai2e2:abi1ee".to_vec());
}

#[test]
fn dict_with_equal_keys_keeps_their_arrival_order() {
    let pairs = AsDict(vec![(b"a".to_vec(), 1u8), (b"a".to_vec(), 2u8)]);
    assert_eq!(pairs.to_bytes().unwrap(), b"d1:ai1e1:ai2ee".to_vec());
}

#[test]
fn depth_over_the_ceiling_is_rejected_with_no_output() {
    let nested = vec![vec![1u8]];
    let mut encoder = Encoder::new().with_max_depth(1);
    assert_eq!(encoder.emit(&nested), Err(Error::DepthLimitExceeded));
    assert_eq!(encoder.get_output(), Err(Error::NotYetEmitted));
}

#[test]
fn depth_at_the_ceiling_succeeds() {
    let nested = vec![vec![1u8]];
    let mut encoder = Encoder::new().with_max_depth(2);
    encoder.emit(&nested).unwrap();
    assert_eq!(encoder.get_output().unwrap(), b"lli1eee".to_vec());
}

#[test]
fn second_emission_fails_and_keeps_the_first_output() {
    let mut encoder = Encoder::new();
    encoder.emit(&1u8).unwrap();
    assert_eq!(encoder.emit(&2u8), Err(Error::AlreadyEmitted));
    assert_eq!(encoder.get_output().unwrap(), b"i1e".to_vec());
}

#[test]
fn spent_driver_rejects_further_emissions() {
    let nested = vec![vec![1u8]];
    let mut encoder = Encoder::new().with_max_depth(1);
    assert_eq!(encoder.emit(&nested), Err(Error::DepthLimitExceeded));
    assert_eq!(encoder.emit(&1u8), Err(Error::AlreadyEmitted));
}

#[test]
fn output_before_any_emission_is_refused() {
    let encoder = Encoder::new();
    assert_eq!(encoder.get_output(), Err(Error::NotYetEmitted));
}
