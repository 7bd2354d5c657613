use codeboss::digest::{hash_commit, hash_matches_target, hash_to_hex};
use codeboss::envelope::{build_commit_header, build_commit_object};
use codeboss::target::{parse_hex_target, TargetError};

#[test]
fn sha1_of_known_inputs() {
    assert_eq!(hash_to_hex(&hash_commit(b"")), "da39a3ee5e6b4b0d3255bfef95601890afd80709");
    assert_eq!(hash_to_hex(&hash_commit(b"abc")), "a9993e364706816aba3e25717850c26c9cd0d89d");
    assert_eq!(
        hash_to_hex(&hash_commit(b"hello world")),
        "2aae6c35c94fcfb415dbe95f408b9ce91ee846ed"
    );
}

#[test]
fn hex_has_two_lower_case_digits_per_byte() {
    let mut hash = [0u8; 20];
    hash[0] = 0x0a;
    hash[1] = 0xf0;
    hash[2] = 0x9c;
    hash[19] = 0xff;
    assert_eq!(hash_to_hex(&hash), "0af09c00000000000000000000000000000000ff");
}

#[test]
fn target_is_the_leading_four_bytes_big_endian() {
    let mut hash = [0x55u8; 20];
    hash[0] = 0xc0;
    hash[1] = 0xde;
    hash[2] = 0xb0;
    hash[3] = 0x55;
    hash[4] = 0x01;
    assert!(hash_matches_target(&hash, 0xc0deb055));
    assert!(!hash_matches_target(&hash, 0x55b0dec0));
    assert!(!hash_matches_target(&hash, 0xc0deb054));
    assert!(!hash_matches_target(&hash, 0xdeb05501));
}

#[test]
fn short_target_matches_leading_zero_bytes() {
    let mut hash = [0u8; 20];
    hash[2] = 0xc0;
    hash[3] = 0xde;
    assert!(hash_matches_target(&hash, 0xc0de));
    assert!(hash_matches_target(&[0xffu8; 20], u32::MAX));
}

#[test]
fn commit_object_frames_header_and_message() {
    let mut buffer = b"stale contents that must go".to_vec();
    let len = build_commit_object(b"H", b"a", &mut buffer);
    assert_eq!(buffer, b"commit 3\0Ha\n".to_vec());
    assert_eq!(len, 12);
}

#[test]
fn commit_object_of_nothing() {
    let mut buffer = Vec::new();
    let len = build_commit_object(b"", b"", &mut buffer);
    assert_eq!(buffer, b"commit 1\0\n".to_vec());
    assert_eq!(len, 10);
}

#[test]
fn commit_object_length_is_decimal() {
    let header = vec![b'h'; 1000];
    let message = vec![b'm'; 233];
    let mut buffer = Vec::new();
    let len = build_commit_object(&header, &message, &mut buffer);
    assert_eq!(len, 12 + 1234);
    assert_eq!(&buffer[..12], b"commit 1234\0");
    assert_eq!(&buffer[12..1012], &header[..]);
    assert_eq!(&buffer[1012..1245], &message[..]);
    assert_eq!(buffer[1245], b'\n');
}

#[test]
fn commit_object_hashes_like_git() {
    let header = build_commit_header(
        "4b825dc642cb6eb9a060e54bf8d69288fbee4904",
        "0000000000000000000000000000000000000001",
        "A U Thor <author@example.com>",
        "1234567890",
        "+0000",
    );
    let mut buffer = Vec::new();
    build_commit_object(&header, b"message", &mut buffer);
    let text = format!(
        "commit {}\0{}message\n",
        header.len() + 8,
        String::from_utf8(header.clone()).unwrap()
    );
    assert_eq!(buffer, text.into_bytes());
}

#[test]
fn commit_header_lists_the_fields() {
    let header = build_commit_header("T", "P", "Name <mail>", "1234567890", "+0100");
    assert_eq!(
        header,
        b"tree T\nparent P\nauthor Name <mail> 1234567890 +0100\ncommitter Name <mail> 1234567890 +0100\n\n"
            .to_vec()
    );
}

#[test]
fn target_of_eight_digits() {
    assert_eq!(parse_hex_target("c0deb055"), Ok(0xc0deb055));
    assert_eq!(parse_hex_target("ffffffff"), Ok(u32::MAX));
    assert_eq!(parse_hex_target("00000000"), Ok(0));
}

#[test]
fn target_of_fewer_digits() {
    assert_eq!(parse_hex_target("0"), Ok(0));
    assert_eq!(parse_hex_target("c0de"), Ok(0xc0de));
    assert_eq!(parse_hex_target("007"), Ok(7));
}

#[test]
fn target_in_either_case() {
    assert_eq!(parse_hex_target("C0DEb055"), Ok(0xc0deb055));
    assert_eq!(parse_hex_target("AbCdEf"), Ok(0xabcdef));
}

#[test]
fn empty_target_is_refused() {
    assert_eq!(parse_hex_target(""), Err(TargetError::Empty));
}

#[test]
fn long_target_is_refused() {
    assert_eq!(parse_hex_target("000000001"), Err(TargetError::TooLong));
    assert_eq!(parse_hex_target("c0deb055c0deb055"), Err(TargetError::TooLong));
    assert_eq!(parse_hex_target("not hex at all"), Err(TargetError::TooLong));
}

#[test]
fn target_with_other_characters_is_refused() {
    assert_eq!(parse_hex_target("c0dg"), Err(TargetError::InvalidDigit));
    assert_eq!(parse_hex_target("+ff"), Err(TargetError::InvalidDigit));
    assert_eq!(parse_hex_target("0x12"), Err(TargetError::InvalidDigit));
    assert_eq!(parse_hex_target(" 12"), Err(TargetError::InvalidDigit));
    assert_eq!(parse_hex_target("/:@G`g"), Err(TargetError::InvalidDigit));
}
