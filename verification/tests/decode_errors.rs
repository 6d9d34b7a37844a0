use bencode::{decode_bencoded_value, BencodeDecoder, BencodeError, BencodeType, Failure, MAX_DEPTH};

fn parse(msg: &str) -> Result<BencodeType, BencodeError> {
    Err(BencodeError::ParseError(String::from(msg)))
}

fn other(msg: &str) -> Result<BencodeType, BencodeError> {
    Err(BencodeError::Other(String::from(msg)))
}

#[test]
fn empty_input_is_unhandled() {
    assert_eq!(decode_bencoded_value(b""), other("Unhandled encoded value"));
}

#[test]
fn unknown_leading_byte_is_unhandled() {
    assert_eq!(decode_bencoded_value(b"x"), other("Unhandled encoded value"));
    assert_eq!(decode_bencoded_value(b"e"), other("Unhandled encoded value"));
    assert_eq!(decode_bencoded_value(b"-1:a"), other("Unhandled encoded value"));
    assert_eq!(decode_bencoded_value(b"lxe"), other("Unhandled encoded value"));
}

#[test]
fn byte_string_without_colon() {
    assert_eq!(
        decode_bencoded_value(b"4spam"),
        parse("Invalid encoding format for string, colon separator not found")
    );
    assert_eq!(
        decode_bencoded_value(b"4"),
        parse("Invalid encoding format for string, colon separator not found")
    );
}

#[test]
fn byte_string_with_a_length_that_is_no_number() {
    assert_eq!(
        decode_bencoded_value(b"4x:spam"),
        parse("Invalid encoding format for string, invalid encoded length")
    );
    assert_eq!(
        decode_bencoded_value(b"1-1:a"),
        parse("Invalid encoding format for string, invalid encoded length")
    );
}

#[test]
fn byte_string_longer_than_the_input() {
    assert_eq!(
        decode_bencoded_value(b"5:spam"),
        parse("Invalid encoding format for string, length exceeds the remaining input")
    );
    assert_eq!(
        decode_bencoded_value(b"1:"),
        parse("Invalid encoding format for string, length exceeds the remaining input")
    );
}

#[test]
fn byte_string_with_a_length_beyond_any_machine_word() {
    assert_eq!(
        decode_bencoded_value(b"99999999999999999999999999999999999999999:a"),
        parse("Invalid encoding format for string, length exceeds the remaining input")
    );
    assert_eq!(
        decode_bencoded_value(b"18446744073709551616:a"),
        parse("Invalid encoding format for string, length exceeds the remaining input")
    );
    assert_eq!(
        decode_bencoded_value(b"18446744073709551615:a"),
        parse("Invalid encoding format for string, length exceeds the remaining input")
    );
}

#[test]
fn truncated_byte_string_fails_at_every_cut() {
    let whole = b"4:spam";
    for cut in 1..whole.len() {
        let r = decode_bencoded_value(&whole[..cut]);
        assert!(matches!(r, Err(BencodeError::ParseError(_))), "cut at {}", cut);
    }
    assert_eq!(
        decode_bencoded_value(b"4:sp"),
        parse("Invalid encoding format for string, length exceeds the remaining input")
    );
}

#[test]
fn truncated_nested_value_fails_at_every_cut() {
    let whole = b"d1:ali1ed1:bl1:xi-2eeee1:c2:yze";
    assert!(decode_bencoded_value(whole).is_ok());
    for cut in 1..whole.len() {
        let r = decode_bencoded_value(&whole[..cut]);
        assert!(matches!(r, Err(BencodeError::ParseError(_))), "cut at {}", cut);
    }
}

#[test]
fn integer_without_end() {
    assert_eq!(
        decode_bencoded_value(b"i42"),
        parse("Invalid encoding format for number, `e` delimiter not found")
    );
    assert_eq!(
        decode_bencoded_value(b"i"),
        parse("Invalid encoding format for number, `e` delimiter not found")
    );
}

#[test]
fn integer_without_digits() {
    assert_eq!(
        decode_bencoded_value(b"ie"),
        parse("Invalid encoding format for number, trying to parse `ie`")
    );
}

#[test]
fn negative_zero_is_rejected() {
    assert_eq!(
        decode_bencoded_value(b"i-0e"),
        parse("Invalid encoding format for number, negative zero")
    );
}

#[test]
fn leading_zero_is_rejected() {
    assert_eq!(
        decode_bencoded_value(b"i03e"),
        parse("Invalid encoding format for number, leading zero")
    );
    assert_eq!(
        decode_bencoded_value(b"i00e"),
        parse("Invalid encoding format for number, leading zero")
    );
    assert_eq!(
        decode_bencoded_value(b"i0xe"),
        parse("Invalid encoding format for number, leading zero")
    );
}

#[test]
fn integer_that_is_no_number_is_rejected() {
    let invalid = parse("Invalid encoding format for number, invalid encoded number");
    assert_eq!(decode_bencoded_value(b"i4x2e"), invalid);
    assert_eq!(decode_bencoded_value(b"i-e"), invalid);
    assert_eq!(decode_bencoded_value(b"i+e"), invalid);
    assert_eq!(decode_bencoded_value(b"i--1e"), invalid);
    assert_eq!(decode_bencoded_value(b"i1-e"), invalid);
    assert_eq!(decode_bencoded_value(b"i 1e"), invalid);
}

#[test]
fn integer_out_of_range_is_rejected() {
    let invalid = parse("Invalid encoding format for number, invalid encoded number");
    assert_eq!(decode_bencoded_value(b"i9223372036854775808e"), invalid);
    assert_eq!(decode_bencoded_value(b"i-9223372036854775809e"), invalid);
    assert_eq!(decode_bencoded_value(b"i99999999999999999999999999e"), invalid);
    assert_eq!(decode_bencoded_value(b"i92233720368547758070e"), invalid);
}

#[test]
fn list_without_end() {
    assert_eq!(
        decode_bencoded_value(b"l4:spam"),
        parse("Invalid encoding format, incomplete list encoding")
    );
    assert_eq!(
        decode_bencoded_value(b"l"),
        parse("Invalid encoding format, incomplete list encoding")
    );
}

#[test]
fn dictionary_without_end() {
    assert_eq!(
        decode_bencoded_value(b"d3:key5:value"),
        parse("Invalid encoding format, incomplete dict encoding")
    );
    assert_eq!(
        decode_bencoded_value(b"d"),
        parse("Invalid encoding format, incomplete dict encoding")
    );
}

#[test]
fn dictionary_that_ends_after_a_key() {
    assert_eq!(
        decode_bencoded_value(b"d3:key"),
        parse("Invalid encoding format, incomplete dict encoding")
    );
}

#[test]
fn dictionary_with_a_key_that_has_no_value() {
    assert_eq!(decode_bencoded_value(b"d3:keye"), other("Unhandled encoded value"));
}

#[test]
fn dictionary_key_must_be_a_byte_string() {
    let key = parse("Invalid encoding, dict's key must be string");
    assert_eq!(decode_bencoded_value(b"d3:keyi5ei1ei2ee"), key);
    assert_eq!(decode_bencoded_value(b"di1ei2ee"), key);
    assert_eq!(decode_bencoded_value(b"dlei2ee"), key);
    assert_eq!(decode_bencoded_value(b"ddei2ee"), key);
}

#[test]
fn malformed_key_reports_its_own_error() {
    assert_eq!(
        decode_bencoded_value(b"diei2ee"),
        parse("Invalid encoding format for number, trying to parse `ie`")
    );
}

#[test]
fn error_inside_a_list_is_passed_on() {
    assert_eq!(
        decode_bencoded_value(b"li1ei-0ee"),
        parse("Invalid encoding format for number, negative zero")
    );
}

fn nested_lists(depth: usize) -> Vec<u8> {
    let mut input: Vec<u8> = Vec::new();
    for _ in 0..depth {
        input.push(b'l');
    }
    for _ in 0..depth {
        input.push(b'e');
    }
    input
}

#[test]
fn nesting_up_to_the_limit_is_decoded() {
    let input = nested_lists(MAX_DEPTH);
    let mut decoder = BencodeDecoder::new(&input);
    let mut value = decoder.decode().unwrap();
    assert_eq!(decoder.position(), input.len());
    let mut depth = 0;
    loop {
        match value {
            BencodeType::BtLists(mut items) => {
                depth += 1;
                if items.is_empty() {
                    break;
                }
                assert_eq!(items.len(), 1);
                value = items.pop().unwrap();
            }
            _ => panic!("a list was expected"),
        }
    }
    assert_eq!(depth, MAX_DEPTH);
}

#[test]
fn nesting_beyond_the_limit_is_rejected() {
    let input = nested_lists(MAX_DEPTH + 1);
    assert_eq!(
        decode_bencoded_value(&input),
        Err(BencodeError::TooDeep(String::from(
            "Invalid encoding, nesting exceeds the depth limit"
        )))
    );
}

#[test]
fn endless_nesting_is_rejected_without_overflowing_the_stack() {
    let input: Vec<u8> = vec![b'l'; 1_000_000];
    assert!(matches!(decode_bencoded_value(&input), Err(BencodeError::TooDeep(_))));
    let input: Vec<u8> = vec![b'd'; 1_000_000];
    assert!(matches!(decode_bencoded_value(&input), Err(BencodeError::TooDeep(_))));
}

#[test]
fn dictionary_in_the_place_of_a_key_is_read_before_it_is_refused() {
    assert_eq!(
        decode_bencoded_value(b"ddd"),
        parse("Invalid encoding format, incomplete dict encoding")
    );
}

#[test]
fn mixed_nesting_counts_lists_and_dictionaries() {
    // MAX_DEPTH dictionaries, each the value of the key "k" of the one around it,
    // and one list inside the innermost
    let mut input: Vec<u8> = Vec::new();
    for _ in 0..MAX_DEPTH {
        input.extend_from_slice(b"d1:k");
    }
    input.extend_from_slice(b"le");
    for _ in 0..MAX_DEPTH {
        input.push(b'e');
    }
    assert!(matches!(decode_bencoded_value(&input), Err(BencodeError::TooDeep(_))));
}

#[test]
fn error_constructors_keep_the_reason() {
    assert_eq!(
        BencodeError::parse_error("bad length"),
        BencodeError::ParseError(String::from("bad length"))
    );
    assert_eq!(
        BencodeError::other_error("what is this"),
        BencodeError::Other(String::from("what is this"))
    );
}

#[test]
fn every_reason_has_its_error() {
    assert_eq!(
        Failure::Unhandled.error(),
        BencodeError::Other(String::from("Unhandled encoded value"))
    );
    assert_eq!(
        Failure::TooDeep.error(),
        BencodeError::TooDeep(String::from("Invalid encoding, nesting exceeds the depth limit"))
    );
    let parse_reasons = [
        Failure::MissingColon,
        Failure::InvalidLength,
        Failure::TruncatedString,
        Failure::MissingEnd,
        Failure::EmptyInteger,
        Failure::NegativeZero,
        Failure::LeadingZero,
        Failure::InvalidInteger,
        Failure::IncompleteList,
        Failure::IncompleteDict,
        Failure::KeyNotString,
    ];
    for reason in parse_reasons {
        assert!(matches!(reason.error(), BencodeError::ParseError(_)));
    }
    assert_eq!(
        Failure::KeyNotString.error(),
        BencodeError::ParseError(String::from("Invalid encoding, dict's key must be string"))
    );
}
