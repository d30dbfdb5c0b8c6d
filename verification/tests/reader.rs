use calc_bridge::safe_read::{ByteReader, DecodeError, SafeRead};
use calc_bridge::spec::serialise::{
    i32_from_be_bytes, i32_to_be_bytes, i8_from_byte, i8_to_byte, read_field, text_fits_field,
    u32_from_be_bytes, u32_to_be_bytes, write_field, Deserialise, Serialise,
};

#[test]
fn reader_hands_out_bytes_in_order() {
    let bytes = [1u8, 2, 3, 4, 5, 6, 7];
    let mut reader = ByteReader::new(&bytes);
    assert_eq!(reader.len(), 7);
    assert_eq!(reader.try_next(), Ok(1));
    assert_eq!(reader.try_read::<2>(), Ok([2, 3]));
    assert_eq!(reader.try_read_dyn(3), Ok(vec![4, 5, 6]));
    assert_eq!(reader.len(), 1);
    assert!(!reader.is_empty());
    assert_eq!(reader.into_rest(), &[7u8][..]);
}

#[test]
fn reader_reads_nothing_as_an_empty_block() {
    let bytes = [9u8];
    let mut reader = ByteReader::new(&bytes);
    assert_eq!(reader.try_read_dyn(0), Ok(vec![]));
    assert_eq!(reader.try_read::<0>(), Ok([]));
    assert_eq!(reader.len(), 1);
}

#[test]
fn short_read_fails_and_discards_what_was_left() {
    let bytes = [1u8, 2, 3];
    let mut reader = ByteReader::new(&bytes);
    assert_eq!(
        reader.try_read::<4>(),
        Err(DecodeError::SizeMismatch { read: 3, expected: 4 })
    );
    assert!(reader.is_empty());
    assert_eq!(
        reader.try_next(),
        Err(DecodeError::SizeMismatch { read: 0, expected: 1 })
    );
}

#[test]
fn short_dynamic_read_fails_and_discards_what_was_left() {
    let bytes = [1u8, 2];
    let mut reader = ByteReader::new(&bytes);
    assert_eq!(
        reader.try_read_dyn(5),
        Err(DecodeError::SizeMismatch { read: 2, expected: 5 })
    );
    assert_eq!(reader.len(), 0);
}

#[test]
fn words_are_written_most_significant_byte_first() {
    assert_eq!(u32_to_be_bytes(0x0102_0304), [1, 2, 3, 4]);
    assert_eq!(u32_to_be_bytes(0), [0, 0, 0, 0]);
    assert_eq!(u32_to_be_bytes(u32::MAX), [255, 255, 255, 255]);
    assert_eq!(u32_from_be_bytes([1, 2, 3, 4]), 0x0102_0304);
    assert_eq!(u32_from_be_bytes([0, 0, 1, 0]), 256);
    assert_eq!(u32_from_be_bytes([255, 255, 255, 255]), u32::MAX);
}

#[test]
fn signed_codes_are_written_in_twos_complement() {
    assert_eq!(i32_to_be_bytes(-1), [255, 255, 255, 255]);
    assert_eq!(i32_to_be_bytes(1), [0, 0, 0, 1]);
    assert_eq!(i32_to_be_bytes(i32::MIN), [128, 0, 0, 0]);
    assert_eq!(i32_to_be_bytes(i32::MAX), [127, 255, 255, 255]);
    assert_eq!(i32_from_be_bytes([255, 255, 255, 254]), -2);
    assert_eq!(i32_from_be_bytes([128, 0, 0, 0]), i32::MIN);
    assert_eq!(i32_from_be_bytes([0, 0, 1, 2]), 258);
}

#[test]
fn words_agree_with_the_standard_library() {
    for x in [0u32, 1, 255, 256, 65_535, 65_536, 0x00ff_ffff, 0x0100_0000, 0xdead_beef] {
        assert_eq!(u32_to_be_bytes(x), x.to_be_bytes());
        assert_eq!(u32_from_be_bytes(x.to_be_bytes()), x);
    }
    for code in [0i32, 1, -1, 258, -258, i32::MIN, i32::MAX, -0x0100_0000] {
        assert_eq!(i32_to_be_bytes(code), code.to_be_bytes());
        assert_eq!(i32_from_be_bytes(code.to_be_bytes()), code);
    }
}

#[test]
fn signed_levels_are_written_in_twos_complement() {
    assert_eq!(i8_to_byte(-1), 255);
    assert_eq!(i8_to_byte(-128), 128);
    assert_eq!(i8_to_byte(127), 127);
    assert_eq!(i8_to_byte(-70), 186);
    assert_eq!(i8_from_byte(186), -70);
    assert_eq!(i8_from_byte(0), 0);
    assert_eq!(i8_from_byte(128), -128);
    for level in i8::MIN..=i8::MAX {
        assert_eq!(i8_from_byte(i8_to_byte(level)), level);
        assert_eq!([i8_to_byte(level)], level.to_be_bytes());
    }
}

#[test]
fn string_travels_with_a_four_byte_length() {
    assert_eq!(
        String::from("http").to_bytes(),
        vec![0, 0, 0, 4, b'h', b't', b't', b'p']
    );
    assert_eq!(String::new().to_bytes(), vec![0, 0, 0, 0]);
    // two bytes for the one character
    assert_eq!(String::from("é").to_bytes(), vec![0, 0, 0, 2, 0xc3, 0xa9]);
}

#[test]
fn string_is_read_back_and_leaves_what_follows() {
    let bytes = [0u8, 0, 0, 2, b'o', b'k', 77, 78];
    let mut reader = ByteReader::new(&bytes);
    assert_eq!(String::from_bytes(&mut reader), Ok(String::from("ok")));
    assert_eq!(reader.into_rest(), &[77u8, 78][..]);
}

#[test]
fn string_that_is_not_utf8_is_refused() {
    let bytes = [0u8, 0, 0, 2, 0xff, 0xfe, 1];
    let mut reader = ByteReader::new(&bytes);
    assert_eq!(String::from_bytes(&mut reader), Err(DecodeError::InvalidUtf8));
    assert_eq!(reader.len(), 1);
}

#[test]
fn string_shorter_than_its_length_is_refused() {
    let bytes = [0u8, 0, 0, 9, b'a', b'b'];
    let mut reader = ByteReader::new(&bytes);
    assert_eq!(
        String::from_bytes(&mut reader),
        Err(DecodeError::SizeMismatch { read: 2, expected: 9 })
    );
    let bytes = [0u8, 0];
    let mut reader = ByteReader::new(&bytes);
    assert_eq!(
        String::from_bytes(&mut reader),
        Err(DecodeError::SizeMismatch { read: 2, expected: 4 })
    );
}

#[test]
fn pair_travels_as_first_then_second() {
    let pair = (String::from("a"), String::from("bc"));
    let bytes = pair.clone().to_bytes();
    assert_eq!(bytes, vec![0, 0, 0, 1, b'a', 0, 0, 0, 2, b'b', b'c']);
    let mut reader = ByteReader::new(&bytes);
    assert_eq!(<(String, String)>::from_bytes(&mut reader), Ok(pair));
    assert!(reader.is_empty());
}

#[test]
fn list_travels_with_a_one_byte_count_in_order() {
    let list = vec![String::from("x"), String::from("yz"), String::new()];
    let bytes = list.clone().to_bytes();
    assert_eq!(
        bytes,
        vec![3, 0, 0, 0, 1, b'x', 0, 0, 0, 2, b'y', b'z', 0, 0, 0, 0]
    );
    let mut reader = ByteReader::new(&bytes);
    assert_eq!(Vec::<String>::from_bytes(&mut reader), Ok(list));
    assert!(reader.is_empty());
}

#[test]
fn empty_list_travels_as_a_zero_count() {
    assert_eq!(Vec::<String>::new().to_bytes(), vec![0]);
    let bytes = [0u8, 5];
    let mut reader = ByteReader::new(&bytes);
    assert_eq!(Vec::<String>::from_bytes(&mut reader), Ok(vec![]));
    assert_eq!(reader.len(), 1);
}

#[test]
fn list_of_255_items_round_trips() {
    let list: Vec<String> = (0..255).map(|i| format!("{i}")).collect();
    let bytes = list.clone().to_bytes();
    assert_eq!(bytes[0], 255);
    let mut reader = ByteReader::new(&bytes);
    assert_eq!(Vec::<String>::from_bytes(&mut reader), Ok(list));
    assert!(reader.is_empty());
}

#[test]
fn list_with_a_missing_item_is_refused() {
    let bytes = [2u8, 0, 0, 0, 1, b'x'];
    let mut reader = ByteReader::new(&bytes);
    assert_eq!(
        Vec::<String>::from_bytes(&mut reader),
        Err(DecodeError::SizeMismatch { read: 0, expected: 4 })
    );
}

#[test]
fn outcome_travels_behind_a_mark_of_success_or_failure() {
    let ok: Result<String, i32> = Ok(String::from("ok"));
    assert_eq!(ok.to_bytes(), vec![0, 0, 0, 0, 2, b'o', b'k']);
    let failed: Result<String, i32> = Err(-1);
    assert_eq!(failed.to_bytes(), vec![1, 255, 255, 255, 255]);
    let failed: Result<String, i32> = Err(259);
    assert_eq!(failed.to_bytes(), vec![1, 0, 0, 1, 3]);
}

#[test]
fn field_is_padded_with_zeros_to_its_width() {
    let mut out = vec![7u8];
    write_field::<8>(&mut out, "abc");
    assert_eq!(out, vec![7, b'a', b'b', b'c', 0, 0, 0, 0, 0]);
    let mut out = Vec::new();
    write_field::<4>(&mut out, "");
    assert_eq!(out, vec![0, 0, 0, 0]);
    let mut out = Vec::new();
    write_field::<3>(&mut out, "xyz");
    assert_eq!(out, vec![b'x', b'y', b'z']);
}

#[test]
fn field_is_read_without_its_padding() {
    assert_eq!(read_field::<6>(&[b'a', b'b', 0, 0, 0, 0]), Some(String::from("ab")));
    assert_eq!(read_field::<3>(&[b'a', b'b', b'c']), Some(String::from("abc")));
    assert_eq!(read_field::<4>(&[0, 0, 0, 0]), Some(String::new()));
    // a zero inside the text is no padding
    assert_eq!(read_field::<4>(&[b'a', 0, b'b', 0]), Some(String::from("a\0b")));
}

#[test]
fn field_that_is_not_utf8_has_no_text() {
    assert_eq!(read_field::<4>(&[0xff, 0xfe, 0, 0]), None);
    assert_eq!(read_field::<4>(&[b'a', 0xc3, 0, 0]), None);
}

#[test]
fn text_fits_a_field_up_to_its_width_and_without_a_final_zero() {
    assert!(text_fits_field::<4>(""));
    assert!(text_fits_field::<4>("abcd"));
    assert!(!text_fits_field::<4>("abcde"));
    assert!(!text_fits_field::<4>("ab\0"));
    assert!(text_fits_field::<4>("a\0b"));
    // counted in bytes, not characters
    assert!(!text_fits_field::<3>("éé"));
    assert!(text_fits_field::<4>("éé"));
}
