use tora::read::{FromReader, PaddedReader, ToraRead};
use tora::stream::{ByteReader, Error, ErrorKind};
use tora::union::{check_record, check_union, read_variant, write_tag, DeclError, TagType};
use tora::write::{SerializeIo, ToraWrite};

fn encode<T: SerializeIo>(v: &T) -> Vec<u8> {
    let mut w = Vec::new();
    w.writes(v);
    w
}

fn decode<T: FromReader>(bytes: Vec<u8>) -> Result<T, Error> {
    ByteReader::new(bytes).reads()
}

fn kind<T: std::fmt::Debug>(res: Result<T, Error>) -> ErrorKind {
    res.unwrap_err().kind()
}

#[test]
fn integers_are_little_endian() {
    assert_eq!(encode(&0x1234u16), vec![0x34, 0x12]);
    assert_eq!(encode(&5u32), vec![5, 0, 0, 0]);
    assert_eq!(encode(&-1i32), vec![0xFF; 4]);
    assert_eq!(encode(&-2i8), vec![0xFE]);
    assert_eq!(encode(&0x0102030405060708u64), vec![8, 7, 6, 5, 4, 3, 2, 1]);
    assert_eq!(encode(&1u128).len(), 16);
    assert_eq!(encode(&-1i128), vec![0xFF; 16]);
    assert_eq!(encode(&300usize), vec![0x2C, 1, 0, 0, 0, 0, 0, 0]);
    assert_eq!(encode(&i16::MIN), vec![0x00, 0x80]);
    assert_eq!(encode(&i64::MIN), vec![0, 0, 0, 0, 0, 0, 0, 0x80]);
}

#[test]
fn integers_round_trip() {
    assert_eq!(decode::<u8>(encode(&200u8)).unwrap(), 200);
    assert_eq!(decode::<u16>(encode(&u16::MAX)).unwrap(), u16::MAX);
    assert_eq!(decode::<u32>(encode(&0xDEADBEEFu32)).unwrap(), 0xDEADBEEF);
    assert_eq!(decode::<u64>(encode(&u64::MAX)).unwrap(), u64::MAX);
    assert_eq!(decode::<u128>(encode(&(u128::MAX - 3))).unwrap(), u128::MAX - 3);
    assert_eq!(decode::<i8>(encode(&i8::MIN)).unwrap(), i8::MIN);
    assert_eq!(decode::<i16>(encode(&-12345i16)).unwrap(), -12345);
    assert_eq!(decode::<i32>(encode(&i32::MIN)).unwrap(), i32::MIN);
    assert_eq!(decode::<i64>(encode(&-7i64)).unwrap(), -7);
    assert_eq!(decode::<i128>(encode(&i128::MIN)).unwrap(), i128::MIN);
    assert_eq!(decode::<usize>(encode(&123456usize)).unwrap(), 123456);
}

#[test]
fn bool_encodes_one_or_zero_and_decodes_any_nonzero_as_true() {
    assert_eq!(encode(&true), vec![1]);
    assert_eq!(encode(&false), vec![0]);
    assert!(decode::<bool>(vec![5]).unwrap());
    assert!(!decode::<bool>(vec![0]).unwrap());
}

#[test]
fn char_is_its_code_point() {
    assert_eq!(encode(&'A'), vec![0x41, 0, 0, 0]);
    assert_eq!(decode::<char>(vec![0xE9, 0, 0, 0]).unwrap(), '\u{e9}');
    assert_eq!(decode::<char>(encode(&'\u{1F600}')).unwrap(), '\u{1F600}');
}

#[test]
fn char_rejects_surrogates_and_out_of_range() {
    assert_eq!(kind(decode::<char>(vec![0x00, 0xD8, 0, 0])), ErrorKind::InvalidData);
    assert_eq!(kind(decode::<char>(vec![0x00, 0x00, 0x11, 0])), ErrorKind::InvalidData);
}

#[test]
fn string_is_nul_terminated_utf8() {
    assert_eq!(encode(&"hi".to_string()), vec![b'h', b'i', 0]);
    assert_eq!(encode(&String::new()), vec![0]);
    assert_eq!(encode(&"hi\0".to_string()), vec![b'h', b'i', 0]);
    assert_eq!(encode(&"ok"), vec![b'o', b'k', 0]);
    assert_eq!(decode::<String>(encode(&String::new())).unwrap(), "");
    assert_eq!(decode::<String>(encode(&"h\u{e9}llo \u{4e16}".to_string())).unwrap(), "h\u{e9}llo \u{4e16}");
}

#[test]
fn string_stops_at_first_nul() {
    let mut r = ByteReader::new(encode(&"a\0b".to_string()));
    assert_eq!(r.reads::<String>().unwrap(), "a");
    assert_eq!(r.reads::<String>().unwrap(), "b");
    assert_eq!(r.remaining(), 0);
}

#[test]
fn string_with_invalid_utf8_is_invalid_data() {
    assert_eq!(kind(decode::<String>(vec![b'a', 0xFF, 0xFE, 0x00])), ErrorKind::InvalidData);
}

#[test]
fn truncated_input_is_unexpected_eof() {
    assert_eq!(kind(decode::<u32>(vec![1, 2, 3])), ErrorKind::UnexpectedEof);
    assert_eq!(kind(decode::<u8>(vec![])), ErrorKind::UnexpectedEof);
    assert_eq!(kind(decode::<String>(vec![b'a', b'b'])), ErrorKind::UnexpectedEof);
    assert_eq!(kind(decode::<Vec<u16>>(vec![2, 0, 0, 0, 1, 0])), ErrorKind::UnexpectedEof);
    assert_eq!(kind(decode::<Option<u16>>(vec![1, 9])), ErrorKind::UnexpectedEof);
    assert_eq!(kind(decode::<(u8, u32)>(vec![1, 2])), ErrorKind::UnexpectedEof);
}

#[test]
fn option_has_a_presence_flag() {
    assert_eq!(encode(&Some(7u8)), vec![1, 7]);
    assert_eq!(encode(&None::<u8>), vec![0]);
    assert_eq!(decode::<Option<u8>>(vec![1, 7]).unwrap(), Some(7));
    assert_eq!(decode::<Option<u8>>(vec![0]).unwrap(), None);
}

#[test]
fn result_has_an_is_error_flag() {
    assert_eq!(encode(&Ok::<u8, u16>(1)), vec![0, 1]);
    assert_eq!(encode(&Err::<u8, u16>(2)), vec![1, 2, 0]);
    assert_eq!(decode::<Result<u8, u16>>(vec![0, 1]).unwrap(), Ok(1));
    assert_eq!(decode::<Result<u8, u16>>(vec![1, 2, 0]).unwrap(), Err(2));
}

#[test]
fn tuples_and_unit_have_no_framing() {
    assert_eq!(encode(&(1u8, 2u16)), vec![1, 2, 0]);
    assert_eq!(encode(&(1u8, true, 'a')), vec![1, 1, 0x61, 0, 0, 0]);
    assert_eq!(encode(&()), Vec::<u8>::new());
    assert_eq!(decode::<(u8, u16)>(vec![1, 2, 0]).unwrap(), (1, 2));
    assert_eq!(decode::<(u8, bool, char)>(vec![1, 1, 0x61, 0, 0, 0]).unwrap(), (1, true, 'a'));
    let mut r = ByteReader::new(vec![9]);
    assert_eq!(r.reads::<()>().unwrap(), ());
    assert_eq!(r.remaining(), 1);
}

#[test]
fn sequences_have_a_u32_count() {
    assert_eq!(encode(&Vec::<u8>::new()), vec![0, 0, 0, 0]);
    assert_eq!(encode(&vec![1u16, 2]), vec![2, 0, 0, 0, 1, 0, 2, 0]);
    assert_eq!(decode::<Vec<u16>>(vec![2, 0, 0, 0, 1, 0, 2, 0]).unwrap(), vec![1, 2]);
    assert_eq!(decode::<Vec<u8>>(vec![0, 0, 0, 0]).unwrap(), Vec::<u8>::new());
    let words = vec!["ab".to_string(), String::new()];
    assert_eq!(decode::<Vec<String>>(encode(&words)).unwrap(), words);
}

#[test]
fn slices_are_framed_like_sequences() {
    let items: &[u16] = &[1, 2];
    assert_eq!(encode(&items), vec![2, 0, 0, 0, 1, 0, 2, 0]);
    let empty: &[u8] = &[];
    assert_eq!(encode(&empty), vec![0, 0, 0, 0]);
}

#[test]
fn arrays_have_no_count() {
    assert_eq!(encode(&[1u8, 2, 3]), vec![1, 2, 3]);
    assert_eq!(decode::<[u16; 2]>(vec![1, 0, 2, 0]).unwrap(), [1, 2]);
    assert_eq!(decode::<[u8; 0]>(vec![]).unwrap(), []);
}

#[test]
fn boxes_encode_their_contents() {
    assert_eq!(encode(&Box::new(3u16)), vec![3, 0]);
    assert_eq!(*decode::<Box<u16>>(vec![3, 0]).unwrap(), 3);
}

#[test]
fn padded_reader_skips_padding() {
    let p = PaddedReader::with_padding(3);
    let mut r = ByteReader::new(vec![0xFF, 0xFF, 0xFF, 0x05, 0x00, 0x00, 0x00]);
    assert_eq!(p.reads::<u32>(&mut r).unwrap(), 5);
    assert_eq!(r.remaining(), 0);
}

#[test]
fn padded_reader_short_padding_is_unexpected_eof() {
    let p = PaddedReader::with_padding(4);
    let mut r = ByteReader::new(vec![1, 2, 3]);
    assert_eq!(kind(p.reads::<u8>(&mut r)), ErrorKind::UnexpectedEof);
}

#[test]
fn padded_reader_sets_padding_after_a_read() {
    let mut p = PaddedReader::default();
    assert_eq!(p.padding(), 0);
    let mut r = ByteReader::new(vec![7, 0xAA, 0xAA, 8]);
    assert_eq!(p.reads_then_set_padding::<u8>(&mut r, 2).unwrap(), 7);
    assert_eq!(p.padding(), 2);
    assert_eq!(p.reads_then_set_padding::<u8>(&mut r, 5).unwrap(), 8);
    assert_eq!(p.padding(), 5);
    assert_eq!(kind(p.reads_then_set_padding::<u8>(&mut r, 1)), ErrorKind::UnexpectedEof);
    assert_eq!(p.padding(), 5);
    assert_eq!(p.set_padding(1).padding(), 1);
}

#[test]
fn variant_tags_follow_declaration_order() {
    let mut w = Vec::new();
    write_tag(&mut w, TagType::U8, 1);
    assert_eq!(w, vec![1]);
    let mut w = Vec::new();
    write_tag(&mut w, TagType::I16, 2);
    assert_eq!(w, vec![2, 0]);
    let mut w = Vec::new();
    write_tag(&mut w, TagType::U32, 258);
    assert_eq!(w, vec![2, 1, 0, 0]);
    let mut r = ByteReader::new(vec![1, 42]);
    assert_eq!(read_variant(&mut r, TagType::U8, 3, "Abc").unwrap(), 1);
    assert_eq!(r.remaining(), 1);
}

#[test]
fn unknown_variant_tag_is_invalid_input() {
    let mut r = ByteReader::new(vec![3]);
    match read_variant(&mut r, TagType::U8, 3, "Abc") {
        Err(Error::InvalidInput(name)) => assert_eq!(name, "Abc"),
        other => panic!("expected invalid input, got {:?}", other),
    }
    let mut r = ByteReader::new(vec![0xFF]);
    assert_eq!(kind(read_variant(&mut r, TagType::I8, 3, "Abc")), ErrorKind::InvalidInput);
    let mut r = ByteReader::new(vec![]);
    assert_eq!(kind(read_variant(&mut r, TagType::U8, 3, "Abc")), ErrorKind::UnexpectedEof);
}

#[test]
fn declarations_are_checked() {
    assert_eq!(check_union(TagType::U8, 0), Err(DeclError::Empty));
    assert_eq!(check_union(TagType::U8, 256), Ok(()));
    assert_eq!(check_union(TagType::U8, 257), Err(DeclError::TooManyVariants));
    assert_eq!(check_union(TagType::I8, 129), Err(DeclError::TooManyVariants));
    assert_eq!(check_union(TagType::U64, 100000), Ok(()));
    assert_eq!(check_record(0), Err(DeclError::Empty));
    assert_eq!(check_record(2), Ok(()));
}

#[test]
fn reader_primitives() {
    let mut r = ByteReader::new(vec![1, 2, 3, 4]);
    assert_eq!(r.read_byte().unwrap(), 1);
    assert_eq!(r.read_exact(2).unwrap(), vec![2, 3]);
    assert_eq!(kind(r.read_exact(2)), ErrorKind::UnexpectedEof);
    assert_eq!(r.remaining(), 1);
    assert!(r.skip(1).is_ok());
    assert_eq!(kind(r.read_byte()), ErrorKind::UnexpectedEof);
}
