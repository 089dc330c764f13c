use nailhammer::vm::wire::{put_f64_bits, put_str, put_u16, put_u32, put_usize, Reader, WireError, FORMAT_VERSION};

#[test]
fn written_primitives_read_back_in_order() {
    let mut out = Vec::new();
    put_u16(&mut out, 0xBEEF);
    put_u32(&mut out, 0x0102_0304);
    put_usize(&mut out, 7);
    put_f64_bits(&mut out, (-1.5f64).to_bits());
    put_str(&mut out, "a string with ünicode");
    assert_eq!(&out[..2], &[0xEF, 0xBE], "little-endian");
    assert_eq!(&out[2..6], &[4, 3, 2, 1]);

    let mut r = Reader::new(&out);
    assert_eq!(r.u16(), Ok(0xBEEF));
    assert_eq!(r.u32(), Ok(0x0102_0304));
    assert_eq!(r.usize(), Ok(7));
    assert_eq!(r.f64_bits().map(f64::from_bits), Ok(-1.5));
    assert_eq!(r.str(), Ok("a string with ünicode".to_string()));
    assert_eq!(r.u8(), Err(WireError::Truncated));
}

#[test]
fn text_truncation_is_an_error_at_every_length() {
    let mut out = Vec::new();
    put_str(&mut out, "hello");
    for n in 0..out.len() {
        let mut r = Reader::new(&out[..n]);
        assert_eq!(r.str(), Err(WireError::Truncated), "prefix of {n} bytes");
    }
    let mut r = Reader::new(&out);
    assert_eq!(r.str(), Ok("hello".to_string()));
}

#[test]
fn text_that_is_not_utf8_is_reported() {
    let bytes = [2u8, 0, 0, 0, 0xff, 0xfe];
    let mut r = Reader::new(&bytes);
    assert_eq!(r.str(), Err(WireError::BadString));
}

#[test]
fn a_huge_declared_length_fails_rather_than_allocating() {
    let mut bytes = Vec::new();
    bytes.extend_from_slice(&u32::MAX.to_le_bytes());
    bytes.extend_from_slice(b"abc");
    let mut r = Reader::new(&bytes);
    assert_eq!(r.str(), Err(WireError::Truncated));
    // Only the length was consumed.
    assert_eq!(r.u8(), Ok(b'a'));
}

#[test]
fn errors_say_what_went_wrong() {
    let msg = WireError::Version { found: 99, expected: FORMAT_VERSION }.to_string();
    assert!(msg.contains("99") && msg.contains(&FORMAT_VERSION.to_string()), "{msg}");
    assert_eq!(msg, "bytecode format 99, but this VM reads 1");
    assert_eq!(WireError::Truncated.to_string(), "bytecode ended early");
    assert_eq!(WireError::UnknownOpcode(42).to_string(), "unknown opcode 42");
    assert_eq!(WireError::UnknownTag { what: "value", tag: 9 }.to_string(), "unknown value tag 9");
    assert_eq!(WireError::NotBytecode.to_string(), "not NailHammer bytecode");
    assert_eq!(WireError::BadString.to_string(), "a string was not valid UTF-8");
}
