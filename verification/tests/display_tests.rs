use executor::display::{BytesDisplay, HexDisplayExt, HexSlice, Slice};
use executor::primitives::{StateKey, StateValue};

#[test]
fn short_slice_is_listed_in_full() {
    assert_eq!(Slice::new(&[1, 2, 3]).text(), "[1, 2, 3]");
    assert_eq!(Slice::new(&[]).text(), "[]");
    assert_eq!(Slice::new(&[0, 10, 255, 7, 99, 100]).text(), "[0, 10, 255, 7, 99, 100]");
}

#[test]
fn long_slice_elides_the_middle() {
    // the last byte shown is the second last, twice.
    assert_eq!(Slice::new(&[1, 2, 3, 4, 5, 6, 7]).text(), "[1, 2, 3 .. 5, 6, 6]");
    assert_eq!(vec![200u8, 1, 2, 3, 4, 5, 6, 70, 80].bytes_display().text(), "[200, 1, 2 .. 6, 70, 70]");
}

#[test]
fn hex_slice_has_no_leading_zeros() {
    assert_eq!(HexSlice::new(&[0x0a, 0xff, 0x00, 0x10]).text(), "0xaff010");
    assert_eq!(HexSlice::new(&[]).text(), "0x");
    assert_eq!(vec![1u8, 2].hex_display().text(), "0x12");
}

#[test]
fn keys_and_values_render_in_hex() {
    let k = StateKey(vec![0xab, 0x01]);
    let v = StateValue(vec![0x0c]);
    assert_eq!(k.text(), "Key [0xab1]");
    assert_eq!(v.text(), "Value [0xc]");
    assert_eq!(k.hex_display().text(), "0xab1");
    assert_eq!(v.bytes_display().text(), "[12]");
}
