use pack_verify::kinds::ObjectKind;
use pack_verify::loose_header::decode;
use pack_verify::loose_header::encode;
use pack_verify::loose_header::Error;

#[test]
fn all() {
    for (kind, size, expected) in &[
        (ObjectKind::Tree, 1234u64, &b"tree 1234\0"[..]),
        (ObjectKind::Blob, 0, b"blob 0\0"),
        (ObjectKind::Commit, 24241, b"commit 24241\0"),
        (ObjectKind::Tag, 9999999999, b"tag 9999999999\0"),
    ] {
        let mut buf: Vec<u8> = Vec::new();
        let written = encode(*kind, *size, &mut buf);
        assert_eq!(&buf[..written], *expected);
        let (actual_kind, actual_size, actual_read) = decode(&buf[..written]).unwrap();
        assert_eq!(actual_kind, *kind);
        assert_eq!(actual_size, *size);
        assert_eq!(actual_read, written);
    }
}

#[test]
fn decode_reads_only_the_header() {
    // trailing bytes after the NUL are left unread
    let (kind, size, read) = decode(b"blob 6\0hello\n").unwrap();
    assert_eq!(kind, ObjectKind::Blob);
    assert_eq!(size, 6);
    assert_eq!(read, 7);
}

#[test]
fn decode_takes_the_first_two_fields() {
    // a third space-separated field inside the header is ignored
    let (kind, size, read) = decode(b"tree 12 34\0").unwrap();
    assert_eq!(kind, ObjectKind::Tree);
    assert_eq!(size, 12);
    assert_eq!(read, 11);
}

#[test]
fn decode_without_nul_is_invalid() {
    assert_eq!(decode(b"tree 1234"), Err(Error::InvalidHeader));
}

#[test]
fn decode_without_space_is_invalid() {
    assert_eq!(decode(b"tree\0"), Err(Error::InvalidHeader));
}

#[test]
fn decode_unknown_kind() {
    assert_eq!(decode(b"trees 12\0"), Err(Error::ObjectHeader));
}

#[test]
fn decode_bad_size() {
    assert_eq!(decode(b"tree \0"), Err(Error::ParseIntegerError));
    assert_eq!(decode(b"tree 12a\0"), Err(Error::ParseIntegerError));
    assert_eq!(decode(b"tree  12\0"), Err(Error::ParseIntegerError));
}

#[test]
fn decode_size_overflow() {
    // one more than u64::MAX
    assert_eq!(
        decode(b"blob 18446744073709551616\0"),
        Err(Error::ParseIntegerError)
    );
    // exactly u64::MAX still fits
    let (kind, size, _) = decode(b"blob 18446744073709551615\0").unwrap();
    assert_eq!(kind, ObjectKind::Blob);
    assert_eq!(size, u64::MAX);
}
