use memcached::reply::{parse_number, split_words};
use memcached::wire::{encode_retrieval, encode_store, StoreVerb};

#[test]
fn store_command_frames_value() {
    let cmd = encode_store(StoreVerb::Cas, b"key", b"a\r\nb", 17, 3600, 12345, true);
    assert_eq!(cmd, b"cas key 17 3600 4 12345 noreply\r\na\r\nb\r\n".to_vec());
    let header_end = cmd.windows(2).position(|w| w == b"\r\n").unwrap();
    assert_eq!(&cmd[..header_end], b"cas key 17 3600 4 12345 noreply");
    assert_eq!(cmd.len(), header_end + 2 + 4 + 2);
}

#[test]
fn retrieval_command_for_cas() {
    let keys = vec![b"x".to_vec(), b"yy".to_vec()];
    assert_eq!(encode_retrieval(true, &keys), b"gets x yy\r\n".to_vec());
}

#[test]
fn numbers_parse_within_bounds() {
    assert_eq!(parse_number(b"0", 10), Some(0));
    assert_eq!(parse_number(b"4294967295", 4294967295), Some(4294967295));
    assert_eq!(parse_number(b"4294967296", 4294967295), None);
    assert_eq!(parse_number(b"18446744073709551616", u64::MAX), None);
    assert_eq!(parse_number(b"", 10), None);
    assert_eq!(parse_number(b"1a", 100), None);
}

#[test]
fn words_split_on_single_spaces() {
    let w = split_words(&b"VALUE k 0 1".to_vec());
    assert_eq!(w, vec![b"VALUE".to_vec(), b"k".to_vec(), b"0".to_vec(), b"1".to_vec()]);
}
