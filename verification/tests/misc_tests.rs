use bcl::container::{serial_ptr, serializer};
use bcl::utils::Buf;

#[test]
fn serial_ptr_holds_defaults() {
    let s: serial_ptr<char> = serial_ptr::new(3);
    assert_eq!(s.n, 3);
    assert_eq!(s.ptr, vec!['\0', '\0', '\0']);
}

#[test]
fn buf_collects_and_clears() {
    let mut b = Buf::new();
    assert_eq!(b.buffer, "");
    b.add_buf(&String::from("ab"));
    b.add_buf(&String::from("c"));
    assert_eq!(b.buffer, "abc");
    let s = b.clear_buf();
    assert_eq!(s, "abc");
    assert_eq!(b.buffer, "");
}

#[test]
fn plain_values_serialize_as_themselves() {
    assert_eq!(<i64 as serializer<i64>>::serialize(-7), -7);
    assert_eq!(<char as serializer<char>>::deserialize('q'), 'q');
}

#[test]
fn string_serializes_to_chars_padded_to_its_byte_length() {
    let p = <String as serializer<serial_ptr<char>>>::serialize(String::from("hi"));
    assert_eq!(p.n, 2);
    assert_eq!(p.ptr, vec!['h', 'i']);
    let p = <String as serializer<serial_ptr<char>>>::serialize(String::from("aé"));
    assert_eq!(p.n, 3);
    assert_eq!(p.ptr, vec!['a', 'é', '\0']);
    let s = <String as serializer<serial_ptr<char>>>::deserialize(p);
    assert_eq!(s, "aé\0");
    let back = <String as serializer<serial_ptr<char>>>::deserialize(
        <String as serializer<serial_ptr<char>>>::serialize(String::from("xyz")),
    );
    assert_eq!(back, "xyz");
}
