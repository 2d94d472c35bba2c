use nine::codec::size_str;
use nine::wire::{put_data, put_str, put_strs, SerError};

#[test]
fn serde_overlong_seq_known() {
    let long_seq = vec![String::new(); u16::MAX as usize + 1];
    let mut buf = Vec::new();
    assert!(if let Err(SerError::SeqTooLong) = put_strs(&mut buf, &long_seq) {
        true
    } else {
        false
    });
}

#[test]
fn serde_max_seq() {
    let long_seq = vec![String::new(); u16::MAX as usize];
    let mut buf = Vec::new();
    put_strs(&mut buf, &long_seq).unwrap();
    assert_eq!(buf.len(), 2 + 2 * u16::MAX as usize);
}

#[test]
fn serde_overlong_str() {
    let long_string = "x".repeat(u16::MAX as usize + 1);
    let mut buf = Vec::new();
    assert!(if let Err(SerError::StringTooLong) = put_str(&mut buf, &long_string) {
        true
    } else {
        false
    })
}

#[test]
fn serde_max_str() {
    let length = u16::MAX as u32;
    let string = "x".repeat(length as usize);
    assert_eq!(length as u64 + 2, size_str(&string).unwrap());
    let mut buf = Vec::new();
    put_str(&mut buf, &string).unwrap();
    assert_eq!(buf.len() as u32, length + 2);
}

#[test]
fn data_prefix_is_four_byte_length() {
    let mut buf = Vec::new();
    put_data(&mut buf, b"abc").unwrap();
    assert_eq!(buf, vec![3, 0, 0, 0, b'a', b'b', b'c']);
}
