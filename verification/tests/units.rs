use mrakdown_engine::u8unit::U8Unit;
use mrakdown_engine::u8unit::units_from_fills;
use mrakdown_engine::u8unit::utf8_len;

#[test]
fn utf8_len_works() {
    assert_eq!(1, utf8_len(b'a'));
    assert_eq!(2, utf8_len('¢'.to_string().as_bytes()[0]));
    assert_eq!(3, utf8_len('中'.to_string().as_bytes()[0]));
    assert_eq!(4, utf8_len('😊'.to_string().as_bytes()[0]));
}

#[test]
fn utf8_len_boundaries() {
    assert_eq!(1, utf8_len(0x00));
    assert_eq!(1, utf8_len(0x7F));
    assert_eq!(0, utf8_len(0x80));
    assert_eq!(0, utf8_len(0xBF));
    assert_eq!(2, utf8_len(0xC0));
    assert_eq!(2, utf8_len(0xDF));
    assert_eq!(3, utf8_len(0xE0));
    assert_eq!(3, utf8_len(0xEF));
    assert_eq!(4, utf8_len(0xF0));
    assert_eq!(4, utf8_len(0xF7));
    assert_eq!(0, utf8_len(0xF8));
    assert_eq!(0, utf8_len(0xFF));
}

fn split_into_fills(bytes: &[u8], chunk: usize) -> Vec<Vec<u8>> {
    let mut fills = Vec::new();
    let mut i = 0;
    while i < bytes.len() {
        let end = (i + chunk).min(bytes.len());
        fills.push(bytes[i..end].to_vec());
        i = end;
    }
    fills
}

#[test]
fn units_do_not_depend_on_fill_boundaries() {
    // The same bytes split at every possible fixed fill size decode to the
    // same code units as one unsplit read.
    let bytes = "a¢中😊b中".as_bytes();
    let whole = units_from_fills(&vec![bytes.to_vec()]).unwrap();
    for chunk in 1..=bytes.len() {
        let parts = units_from_fills(&split_into_fills(bytes, chunk)).unwrap();
        assert_eq!(whole, parts, "fill size {}", chunk);
    }
}

#[test]
fn units_decode_expected_shapes() {
    let units = units_from_fills(&vec!["a中".as_bytes().to_vec()]).unwrap();
    assert_eq!(units.len(), 2);
    assert_eq!(units[0], U8Unit::OneByte(b'a'));
    assert!(matches!(units[1], U8Unit::ThreeByte(0xE4, 0xB8, 0xAD)));
}

#[test]
fn unit_split_across_three_fills() {
    // One four-byte unit delivered one byte at a time.
    let bytes = "😊".as_bytes();
    let fills: Vec<Vec<u8>> = bytes.iter().map(|b| vec![*b]).collect();
    let units = units_from_fills(&fills).unwrap();
    assert_eq!(units.len(), 1);
    assert!(matches!(units[0], U8Unit::FourByte(_, _, _, _)));
}

#[test]
fn malformed_byte_fails_decoding() {
    let e = units_from_fills(&vec![vec![b'a', 0x80]]).unwrap_err();
    assert_eq!(e.msg, "malformed leading byte");
}

#[test]
fn truncated_stream_fails_decoding() {
    let e = units_from_fills(&vec![vec![0xF0, 0x9F]]).unwrap_err();
    assert_eq!(e.msg, "input ends inside a code unit");
}
