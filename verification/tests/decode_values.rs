use bencode::{decode_bencoded_value, BencodeDecoder, BencodeError, BencodeType};

fn text(s: &str) -> BencodeType {
    BencodeType::BtString(s.as_bytes().to_vec())
}

fn entry(key: &str, value: BencodeType) -> (Vec<u8>, BencodeType) {
    (key.as_bytes().to_vec(), value)
}

#[test]
fn byte_string_is_decoded_and_cursor_stops_after_it() {
    let mut decoder = BencodeDecoder::new(b"4:spam");
    assert_eq!(decoder.position(), 0);
    assert_eq!(decoder.decode(), Ok(text("spam")));
    // 4 bytes, one digit for the length, one colon
    assert_eq!(decoder.position(), 6);
}

#[test]
fn byte_string_with_two_digit_length() {
    let mut decoder = BencodeDecoder::new(b"11:hello worldXYZ");
    assert_eq!(decoder.decode(), Ok(text("hello world")));
    assert_eq!(decoder.position(), 11 + 2 + 1);
}

#[test]
fn byte_string_of_every_length_up_to_three_hundred() {
    for n in 0..300usize {
        let payload: Vec<u8> = (0..n).map(|i| (i % 251) as u8).collect();
        let digits = format!("{}", n);
        let mut input: Vec<u8> = digits.as_bytes().to_vec();
        input.push(b':');
        input.extend_from_slice(&payload);
        let mut decoder = BencodeDecoder::new(&input);
        assert_eq!(decoder.decode(), Ok(BencodeType::BtString(payload)));
        assert_eq!(decoder.position(), n + digits.len() + 1);
    }
}

#[test]
fn empty_byte_string() {
    let mut decoder = BencodeDecoder::new(b"0:");
    assert_eq!(decoder.decode(), Ok(text("")));
    assert_eq!(decoder.position(), 2);
}

#[test]
fn byte_string_keeps_bytes_that_are_no_text() {
    let input: [u8; 6] = [b'4', b':', 0xff, 0x00, 0xc3, 0x28];
    assert_eq!(
        decode_bencoded_value(&input),
        Ok(BencodeType::BtString(vec![0xff, 0x00, 0xc3, 0x28]))
    );
}

#[test]
fn byte_string_may_hold_colons_and_letters() {
    assert_eq!(decode_bencoded_value(b"5:a:e:l"), Ok(text("a:e:l")));
}

#[test]
fn byte_string_length_may_have_leading_zeros() {
    let mut decoder = BencodeDecoder::new(b"03:abc");
    assert_eq!(decoder.decode(), Ok(text("abc")));
    assert_eq!(decoder.position(), 6);
}

#[test]
fn integers_are_decoded() {
    assert_eq!(decode_bencoded_value(b"i42e"), Ok(BencodeType::BtNumber(42)));
    assert_eq!(decode_bencoded_value(b"i-42e"), Ok(BencodeType::BtNumber(-42)));
    assert_eq!(decode_bencoded_value(b"i7e"), Ok(BencodeType::BtNumber(7)));
}

#[test]
fn zero_is_decoded() {
    let mut decoder = BencodeDecoder::new(b"i0e");
    assert_eq!(decoder.decode(), Ok(BencodeType::BtNumber(0)));
    assert_eq!(decoder.position(), 3);
}

#[test]
fn integers_round_trip_over_the_whole_range() {
    let samples: [i64; 13] = [
        i64::MIN,
        i64::MIN + 1,
        -9_223_372_036_854_775_807,
        -1_000_000_007,
        -10,
        -1,
        0,
        1,
        9,
        10,
        4_294_967_296,
        i64::MAX - 1,
        i64::MAX,
    ];
    for i in samples {
        let input = format!("i{}e", i);
        let mut decoder = BencodeDecoder::new(input.as_bytes());
        assert_eq!(decoder.decode(), Ok(BencodeType::BtNumber(i)));
        assert_eq!(decoder.position(), input.len());
    }
}

#[test]
fn integer_may_carry_a_plus_sign() {
    assert_eq!(decode_bencoded_value(b"i+5e"), Ok(BencodeType::BtNumber(5)));
}

#[test]
fn integer_after_a_sign_may_start_with_zero() {
    assert_eq!(decode_bencoded_value(b"i-03e"), Ok(BencodeType::BtNumber(-3)));
    assert_eq!(decode_bencoded_value(b"i+0e"), Ok(BencodeType::BtNumber(0)));
}

#[test]
fn list_keeps_the_order_of_its_items() {
    assert_eq!(
        decode_bencoded_value(b"l4:spami42ee"),
        Ok(BencodeType::BtLists(vec![text("spam"), BencodeType::BtNumber(42)]))
    );
}

#[test]
fn empty_list_and_empty_dictionary() {
    assert_eq!(decode_bencoded_value(b"le"), Ok(BencodeType::BtLists(vec![])));
    assert_eq!(decode_bencoded_value(b"de"), Ok(BencodeType::BtDictionary(vec![])));
}

#[test]
fn dictionary_keeps_the_order_of_its_keys() {
    assert_eq!(
        decode_bencoded_value(b"d3:zoo3:moo3:api4:spame"),
        Ok(BencodeType::BtDictionary(vec![
            entry("zoo", text("moo")),
            entry("api", text("spam")),
        ]))
    );
}

#[test]
fn dictionary_key_that_comes_again_takes_the_last_value_in_its_first_place() {
    assert_eq!(
        decode_bencoded_value(b"d1:ai1e1:bi2e1:ai3ee"),
        Ok(BencodeType::BtDictionary(vec![
            entry("a", BencodeType::BtNumber(3)),
            entry("b", BencodeType::BtNumber(2)),
        ]))
    );
}

#[test]
fn nested_fixture_of_depth_three_with_all_productions() {
    // { "a": [ 1, { "b": [ "x", -2 ] } ], "c": "yz" }
    let input = b"d1:ali1ed1:bl1:xi-2eeee1:c2:yze";
    let expected = BencodeType::BtDictionary(vec![
        entry(
            "a",
            BencodeType::BtLists(vec![
                BencodeType::BtNumber(1),
                BencodeType::BtDictionary(vec![entry(
                    "b",
                    BencodeType::BtLists(vec![text("x"), BencodeType::BtNumber(-2)]),
                )]),
            ]),
        ),
        entry("c", text("yz")),
    ]);
    let mut decoder = BencodeDecoder::new(input);
    assert_eq!(decoder.decode(), Ok(expected));
    assert_eq!(decoder.position(), input.len());
}

#[test]
fn nested_fixture_of_depth_five_in_lists() {
    // [ [ [ [ [ "deep" ] ], 0 ], {} ], "top" ]
    let input = b"lllll4:deepeei0eedee3:tope";
    let expected = BencodeType::BtLists(vec![
        BencodeType::BtLists(vec![
            BencodeType::BtLists(vec![
                BencodeType::BtLists(vec![BencodeType::BtLists(vec![text("deep")])]),
                BencodeType::BtNumber(0),
            ]),
            BencodeType::BtDictionary(vec![]),
        ]),
        text("top"),
    ]);
    assert_eq!(decode_bencoded_value(input), Ok(expected));
}

#[test]
fn metainfo_shaped_fixture() {
    let input =
        b"d8:announce14:http://tracker4:infod6:lengthi92063e4:name6:sample12:piece lengthi32768e6:pieces0:ee";
    let expected = BencodeType::BtDictionary(vec![
        entry("announce", text("http://tracker")),
        entry(
            "info",
            BencodeType::BtDictionary(vec![
                entry("length", BencodeType::BtNumber(92063)),
                entry("name", text("sample")),
                entry("piece length", BencodeType::BtNumber(32768)),
                entry("pieces", text("")),
            ]),
        ),
    ]);
    assert_eq!(decode_bencoded_value(input), Ok(expected));
}

#[test]
fn decoder_reads_one_value_per_call() {
    let mut decoder = BencodeDecoder::new(b"i1e3:abcle");
    assert_eq!(decoder.decode(), Ok(BencodeType::BtNumber(1)));
    assert_eq!(decoder.position(), 3);
    assert_eq!(decoder.decode(), Ok(text("abc")));
    assert_eq!(decoder.position(), 8);
    assert_eq!(decoder.decode(), Ok(BencodeType::BtLists(vec![])));
    assert_eq!(decoder.position(), 10);
    assert_eq!(
        decoder.decode(),
        Err(BencodeError::Other(String::from("Unhandled encoded value")))
    );
}

#[test]
fn bytes_after_the_first_value_are_not_looked_at() {
    assert_eq!(decode_bencoded_value(b"i5e???"), Ok(BencodeType::BtNumber(5)));
}
