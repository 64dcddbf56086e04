use memcached::error::Status;
use memcached::text::TextProto;

fn conn(server: &[u8]) -> TextProto {
    TextProto::new(server.to_vec())
}

fn status_of<T>(r: Result<T, memcached::error::Error>) -> Status {
    match r {
        Ok(_) => panic!("expected an error"),
        Err(e) => e.status(),
    }
}

#[test]
fn set_then_get() {
    let mut c = conn(b"STORED\r\nVALUE foo 0 3\r\nbar\r\nEND\r\n");
    c.set(b"foo", b"bar", 0, 0).unwrap();
    let (v, f) = c.get(b"foo").unwrap();
    assert_eq!(v, b"bar".to_vec());
    assert_eq!(f, 0);
    assert_eq!(c.written().clone(), b"set foo 0 0 3\r\nbar\r\nget foo\r\n".to_vec());
}

#[test]
fn get_miss() {
    let mut c = conn(b"END\r\n");
    assert_eq!(status_of(c.get(b"nope")), Status::NotFound);
    assert!(!c.is_poisoned());
    assert_eq!(c.written().clone(), b"get nope\r\n".to_vec());
}

#[test]
fn multi_get() {
    let mut c = conn(b"VALUE a 0 1\r\nA\r\nVALUE c 7 2\r\nCC\r\nEND\r\n");
    let keys = vec![b"a".to_vec(), b"b".to_vec(), b"c".to_vec()];
    let items = c.get_multi(&keys).unwrap();
    assert_eq!(c.written().clone(), b"get a b c\r\n".to_vec());
    assert_eq!(items.len(), 2);
    assert_eq!(items[0].key, b"a".to_vec());
    assert_eq!(items[0].data, b"A".to_vec());
    assert_eq!(items[0].flags, 0);
    assert_eq!(items[1].key, b"c".to_vec());
    assert_eq!(items[1].data, b"CC".to_vec());
    assert_eq!(items[1].flags, 7);
    assert!(items.iter().all(|i| i.key != b"b".to_vec()));
}

#[test]
fn cas_conflict() {
    let mut c = conn(b"VALUE k 0 1 42\r\nX\r\nEND\r\nEXISTS\r\n");
    let (v, f, token) = c.get_cas(b"k").unwrap();
    assert_eq!(v, b"X".to_vec());
    assert_eq!(f, 0);
    assert_eq!(token, 42);
    assert_eq!(status_of(c.set_cas(b"k", b"Y", 0, 0, token)), Status::Exists);
    assert_eq!(c.written().clone(), b"gets k\r\ncas k 0 0 1 42\r\nY\r\n".to_vec());
    assert!(!c.is_poisoned());
}

#[test]
fn cas_stored_when_unchanged() {
    let mut c = conn(b"VALUE k 3 1 9\r\nX\r\nEND\r\nSTORED\r\n");
    let (_, _, token) = c.get_cas(b"k").unwrap();
    c.set_cas(b"k", b"Z", 3, 0, token).unwrap();
    assert_eq!(c.written().clone(), b"gets k\r\ncas k 3 0 1 9\r\nZ\r\n".to_vec());
}

#[test]
fn incr_with_initial_emulation() {
    let mut c = conn(b"NOT_FOUND\r\nSTORED\r\n");
    assert_eq!(c.increment(b"c", 1, 5, 0).unwrap(), 5);
    assert_eq!(c.written().clone(), b"incr c 1\r\nadd c 0 0 1\r\n5\r\n".to_vec());
}

#[test]
fn incr_retries_after_lost_add_race() {
    let mut c = conn(b"NOT_FOUND\r\nNOT_STORED\r\n8\r\n");
    assert_eq!(c.increment(b"c", 3, 5, 0).unwrap(), 8);
    assert_eq!(c.written().clone(), b"incr c 3\r\nadd c 0 0 1\r\n5\r\nincr c 3\r\n".to_vec());
}

#[test]
fn incr_second_miss_is_not_found() {
    let mut c = conn(b"NOT_FOUND\r\nNOT_STORED\r\nNOT_FOUND\r\n");
    assert_eq!(status_of(c.increment(b"c", 3, 5, 0)), Status::NotFound);
    assert!(!c.is_poisoned());
}

#[test]
fn decr_reports_server_floor_at_zero() {
    let mut c = conn(b"0\r\n");
    assert_eq!(c.decrement(b"n", 10, 0, 0).unwrap(), 0);
    assert_eq!(c.written().clone(), b"decr n 10\r\n".to_vec());
}

#[test]
fn incr_reads_large_counter() {
    let mut c = conn(b"18446744073709551615\r\n");
    assert_eq!(c.increment(b"n", 1, 0, 0).unwrap(), u64::MAX);
}

#[test]
fn incr_negative_reply_is_protocol_error() {
    let mut c = conn(b"-1\r\n");
    assert_eq!(status_of(c.increment(b"n", 1, 0, 0)), Status::ProtocolError);
    assert!(c.is_poisoned());
}

#[test]
fn server_error_does_not_poison() {
    let mut c = conn(b"SERVER_ERROR out of memory\r\nEND\r\n");
    let e = c.set(b"k", b"x", 0, 0).unwrap_err();
    assert_eq!(e.status(), Status::ServerError);
    assert_eq!(e.detail(), Some("out of memory".to_string()));
    assert!(!c.is_poisoned());
    assert_eq!(status_of(c.get(b"k")), Status::NotFound);
    assert_eq!(c.written().clone(), b"set k 0 0 1\r\nx\r\nget k\r\n".to_vec());
}

#[test]
fn truncated_reply_poisons() {
    let mut c = conn(b"VALUE k 0 3\r\nAB");
    assert_eq!(status_of(c.get(b"k")), Status::NeedMore);
    assert!(!c.is_poisoned());
    assert_eq!(c.stream_ended().status(), Status::ProtocolError);
    assert!(c.is_poisoned());
    let before = c.written().clone();
    assert_eq!(status_of(c.get(b"k")), Status::Poisoned);
    assert_eq!(status_of(c.set(b"k", b"v", 0, 0)), Status::Poisoned);
    assert_eq!(status_of(c.version()), Status::Poisoned);
    assert_eq!(c.written().clone(), before);
}

#[test]
fn transport_failure_poisons() {
    let mut c = conn(b"");
    assert_eq!(status_of(c.set(b"k", b"v", 0, 0)), Status::NeedMore);
    assert_eq!(c.transport_failed().status(), Status::Io);
    assert_eq!(status_of(c.delete(b"k")), Status::Poisoned);
    assert_eq!(c.written().clone(), b"set k 0 0 1\r\nv\r\n".to_vec());
}

#[test]
fn reply_arriving_in_pieces_resumes() {
    let mut c = conn(b"");
    assert_eq!(status_of(c.set(b"k", b"v", 0, 0)), Status::NeedMore);
    assert_eq!(c.written().clone(), b"set k 0 0 1\r\nv\r\n".to_vec());
    c.receive(b"STO");
    assert_eq!(status_of(c.set(b"k", b"v", 0, 0)), Status::NeedMore);
    c.receive(b"RED\r\nVALUE k 0 1\r\nv");
    c.set(b"k", b"v", 0, 0).unwrap();
    assert_eq!(status_of(c.get(b"k")), Status::NeedMore);
    c.receive(b"\r\nEND\r\n");
    assert_eq!(c.get(b"k").unwrap(), (b"v".to_vec(), 0));
    assert_eq!(c.written().clone(), b"set k 0 0 1\r\nv\r\nget k\r\n".to_vec());
    assert!(!c.is_poisoned());
}

#[test]
fn incr_fallback_resumes_between_steps() {
    let mut c = conn(b"");
    assert_eq!(status_of(c.increment(b"c", 1, 5, 0)), Status::NeedMore);
    assert_eq!(c.written().clone(), b"incr c 1\r\n".to_vec());
    c.receive(b"NOT_FOUND\r\n");
    assert_eq!(status_of(c.increment(b"c", 1, 5, 0)), Status::NeedMore);
    assert_eq!(c.written().clone(), b"incr c 1\r\nadd c 0 0 1\r\n5\r\n".to_vec());
    c.receive(b"STORED\r\n");
    assert_eq!(c.increment(b"c", 1, 5, 0).unwrap(), 5);
    assert_eq!(c.written().clone(), b"incr c 1\r\nadd c 0 0 1\r\n5\r\n".to_vec());
}

#[test]
fn multi_write_stops_at_unfinished_reply() {
    let mut c = conn(b"DELETED\r\n");
    let keys = vec![b"x".to_vec(), b"y".to_vec(), b"z".to_vec()];
    let fails = c.delete_multi(&keys).unwrap_err();
    assert_eq!(fails.len(), 1);
    assert_eq!(fails[0].0, b"y".to_vec());
    assert_eq!(fails[0].1.status(), Status::NeedMore);
    assert_eq!(c.written().clone(), b"delete x\r\ndelete y\r\n".to_vec());
    c.receive(b"DELETED\r\nDELETED\r\n");
    c.delete_multi(&keys[1..].to_vec()).unwrap();
    assert_eq!(c.written().clone(), b"delete x\r\ndelete y\r\ndelete z\r\n".to_vec());
}

#[test]
fn version_reply() {
    let mut c = conn(b"VERSION 1.6.21\r\n");
    let v = c.version().unwrap();
    assert_eq!((v.major, v.minor, v.patch), (1, 6, 21));
    assert_eq!(v.pre, "");
    assert_eq!(c.written().clone(), b"version\r\n".to_vec());
}

#[test]
fn malformed_version_keeps_text() {
    let mut c = conn(b"VERSION one.two\r\n");
    let e = c.version().unwrap_err();
    assert_eq!(e.status(), Status::ProtocolError);
    assert_eq!(e.detail(), Some("one.two".to_string()));
}

#[test]
fn unsupported_operations_do_no_io() {
    let mut c = conn(b"STORED\r\n");
    assert_eq!(status_of(c.noop()), Status::Unsupported);
    assert_eq!(status_of(c.add_cas(b"k", b"v", 0, 0)), Status::Unsupported);
    assert_eq!(status_of(c.increment_cas(b"k", 1, 0, 0, 1)), Status::Unsupported);
    assert_eq!(status_of(c.decrement_cas(b"k", 1, 0, 0, 1)), Status::Unsupported);
    assert_eq!(status_of(c.append_cas(b"k", b"v", 1)), Status::Unsupported);
    assert_eq!(status_of(c.prepend_cas(b"k", b"v", 1)), Status::Unsupported);
    assert_eq!(status_of(c.touch_cas(b"k", 0, 1)), Status::Unsupported);
    assert_eq!(status_of(c.list_mechanisms()), Status::Unsupported);
    assert_eq!(status_of(c.auth_start("PLAIN", b"x")), Status::Unsupported);
    assert_eq!(status_of(c.auth_continue("PLAIN", b"x")), Status::Unsupported);
    assert!(c.written().is_empty());
    c.set(b"k", b"v", 0, 0).unwrap();
}

#[test]
fn invalid_keys_are_rejected_locally() {
    let mut c = conn(b"");
    assert_eq!(status_of(c.set(b"a b", b"v", 0, 0)), Status::InvalidArgument);
    assert_eq!(status_of(c.get(b"")), Status::InvalidArgument);
    assert_eq!(status_of(c.delete(b"a\r\nb")), Status::InvalidArgument);
    let long = vec![b'k'; 251];
    assert_eq!(status_of(c.get(&long)), Status::InvalidArgument);
    assert!(c.written().is_empty());
    assert!(!c.is_poisoned());
}

#[test]
fn longest_key_is_accepted() {
    let key = vec![b'k'; 250];
    let mut c = conn(b"DELETED\r\n");
    c.delete(&key).unwrap();
}

#[test]
fn oversized_value_is_rejected() {
    let mut c = conn(b"");
    let big = vec![0u8; 1048577];
    assert_eq!(status_of(c.set(b"k", &big, 0, 0)), Status::InvalidArgument);
    assert!(c.written().is_empty());
}

#[test]
fn noreply_writes_without_reading() {
    let mut c = conn(b"");
    c.set_noreply(b"k", b"v", 1, 2).unwrap();
    c.delete_noreply(b"k").unwrap();
    c.increment_noreply(b"n", 4, 0, 0).unwrap();
    assert_eq!(
        c.written().clone(),
        b"set k 1 2 1 noreply\r\nv\r\ndelete k noreply\r\nincr n 4 noreply\r\n".to_vec()
    );
    assert!(!c.is_poisoned());
}

#[test]
fn storage_commands_encode() {
    let mut c = conn(b"NOT_STORED\r\nSTORED\r\nSTORED\r\nSTORED\r\n");
    assert_eq!(status_of(c.add(b"k", b"v", 5, 60)), Status::NotStored);
    c.replace(b"k", b"vv", 0, 0).unwrap();
    c.append(b"k", b"a").unwrap();
    c.prepend(b"k", b"p").unwrap();
    assert_eq!(
        c.written().clone(),
        b"add k 5 60 1\r\nv\r\nreplace k 0 0 2\r\nvv\r\nappend k 0 0 1\r\na\r\nprepend k 0 0 1\r\np\r\n"
            .to_vec()
    );
}

#[test]
fn empty_value_round_trip() {
    let mut c = conn(b"STORED\r\nVALUE e 4294967295 0\r\n\r\nEND\r\n");
    c.set(b"e", b"", u32::MAX, 0).unwrap();
    let (v, f) = c.get(b"e").unwrap();
    assert!(v.is_empty());
    assert_eq!(f, u32::MAX);
}

#[test]
fn touch_delete_flush() {
    let mut c = conn(b"TOUCHED\r\nNOT_FOUND\r\nOK\r\n");
    c.touch(b"k", 30).unwrap();
    assert_eq!(status_of(c.delete(b"k")), Status::NotFound);
    c.flush(0).unwrap();
    assert_eq!(c.written().clone(), b"touch k 30\r\ndelete k\r\nflush_all 0\r\n".to_vec());
}

#[test]
fn unexpected_status_is_protocol_error() {
    let mut c = conn(b"DELETED\r\n");
    assert_eq!(status_of(c.set(b"k", b"v", 0, 0)), Status::ProtocolError);
    assert!(c.is_poisoned());
}

#[test]
fn error_line_poisons() {
    let mut c = conn(b"ERROR\r\n");
    assert_eq!(status_of(c.touch(b"k", 0)), Status::ProtocolError);
    assert!(c.is_poisoned());
}

#[test]
fn client_error_keeps_message() {
    let mut c = conn(b"CLIENT_ERROR bad data chunk\r\n");
    let e = c.set(b"k", b"v", 0, 0).unwrap_err();
    assert_eq!(e.status(), Status::ClientError);
    assert_eq!(e.detail(), Some("bad data chunk".to_string()));
    assert!(!c.is_poisoned());
}

#[test]
fn server_error_mid_stream_discards_partial_reply() {
    let mut c = conn(b"VALUE a 0 1\r\nA\r\nSERVER_ERROR busy\r\nSTORED\r\n");
    let keys = vec![b"a".to_vec(), b"b".to_vec()];
    assert_eq!(status_of(c.get_multi(&keys)), Status::ServerError);
    assert!(!c.is_poisoned());
    c.set(b"a", b"x", 0, 0).unwrap();
}

#[test]
fn duplicate_keys_in_reply_are_protocol_error() {
    let mut c = conn(b"VALUE a 0 1\r\nA\r\nVALUE a 0 1\r\nB\r\nEND\r\n");
    let keys = vec![b"a".to_vec()];
    assert_eq!(status_of(c.get_multi(&keys)), Status::ProtocolError);
    assert!(c.is_poisoned());
}

#[test]
fn wrong_key_for_single_get_is_protocol_error() {
    let mut c = conn(b"VALUE b 0 1\r\nB\r\nEND\r\n");
    assert_eq!(status_of(c.get(b"a")), Status::ProtocolError);
    assert!(c.is_poisoned());
}

#[test]
fn value_without_terminator_is_protocol_error() {
    let mut c = conn(b"VALUE a 0 1\r\nAB\r\nEND\r\n");
    assert_eq!(status_of(c.get(b"a")), Status::ProtocolError);
}

#[test]
fn non_ascii_header_is_protocol_error() {
    let mut c = conn(b"STOR\xc3\x89D\r\n");
    assert_eq!(status_of(c.set(b"k", b"v", 0, 0)), Status::ProtocolError);
}

#[test]
fn getk_echoes_key() {
    let mut c = conn(b"VALUE k 2 1\r\nX\r\nEND\r\nVALUE k 2 1 77\r\nX\r\nEND\r\n");
    let (k, v, f) = c.getk(b"k").unwrap();
    assert_eq!((k, v, f), (b"k".to_vec(), b"X".to_vec(), 2));
    let (k, v, f, cas) = c.getk_cas(b"k").unwrap();
    assert_eq!((k, v, f, cas), (b"k".to_vec(), b"X".to_vec(), 2, 77));
}

#[test]
fn stats_keep_server_order() {
    let mut c = conn(b"STAT pid 42\r\nSTAT version 1.6.21\r\nSTAT accepting_conns 1\r\nEND\r\n");
    let s = c.stat().unwrap();
    assert_eq!(
        s,
        vec![
            ("pid".to_string(), "42".to_string()),
            ("version".to_string(), "1.6.21".to_string()),
            ("accepting_conns".to_string(), "1".to_string()),
        ]
    );
    assert_eq!(c.written().clone(), b"stats\r\n".to_vec());
}

#[test]
fn replies_can_arrive_later() {
    let mut c = conn(b"");
    c.receive(b"STORED\r\n");
    c.set(b"k", b"v", 0, 0).unwrap();
    c.quit().unwrap();
    assert_eq!(c.written().clone(), b"set k 0 0 1\r\nv\r\nquit\r\n".to_vec());
}

#[test]
fn set_multi_tries_every_entry() {
    let mut c = conn(b"STORED\r\nSERVER_ERROR out of memory\r\n");
    let kv = vec![
        (b"a".to_vec(), b"1".to_vec(), 0u32, 0u32),
        (b"b b".to_vec(), b"2".to_vec(), 0, 0),
        (b"c".to_vec(), b"33".to_vec(), 4, 0),
    ];
    let fails = c.set_multi(&kv).unwrap_err();
    assert_eq!(fails.len(), 2);
    assert_eq!(fails[0].0, b"b b".to_vec());
    assert_eq!(fails[0].1.status(), Status::InvalidArgument);
    assert_eq!(fails[1].0, b"c".to_vec());
    assert_eq!(fails[1].1.status(), Status::ServerError);
    assert_eq!(c.written().clone(), b"set a 0 0 1\r\n1\r\nset c 4 0 2\r\n33\r\n".to_vec());
}

#[test]
fn set_multi_all_stored() {
    let mut c = conn(b"STORED\r\nSTORED\r\n");
    let kv = vec![(b"a".to_vec(), b"1".to_vec(), 0u32, 0u32), (b"b".to_vec(), b"2".to_vec(), 0, 0)];
    c.set_multi(&kv).unwrap();
}

#[test]
fn delete_multi_reports_missing() {
    let mut c = conn(b"DELETED\r\nNOT_FOUND\r\n");
    let keys = vec![b"x".to_vec(), b"y".to_vec()];
    let fails = c.delete_multi(&keys).unwrap_err();
    assert_eq!(fails.len(), 1);
    assert_eq!(fails[0].0, b"y".to_vec());
    assert_eq!(fails[0].1.status(), Status::NotFound);
    assert_eq!(c.written().clone(), b"delete x\r\ndelete y\r\n".to_vec());
}

#[test]
fn multi_write_stops_touching_stream_once_poisoned() {
    let mut c = conn(b"BOGUS\r\nDELETED\r\n");
    let keys = vec![b"x".to_vec(), b"y".to_vec()];
    let fails = c.delete_multi(&keys).unwrap_err();
    assert_eq!(fails.len(), 2);
    assert_eq!(fails[0].1.status(), Status::ProtocolError);
    assert_eq!(fails[1].1.status(), Status::Poisoned);
    assert_eq!(c.written().clone(), b"delete x\r\n".to_vec());
}

#[test]
fn increment_multi_collects_values() {
    let mut c = conn(b"5\r\n7\r\n");
    let kv = vec![(b"a".to_vec(), 1u64, 0u64, 0u32), (b"b".to_vec(), 2, 0, 0)];
    let vals = c.increment_multi(&kv).unwrap();
    assert_eq!(vals, vec![(b"a".to_vec(), 5), (b"b".to_vec(), 7)]);
    assert_eq!(c.written().clone(), b"incr a 1\r\nincr b 2\r\n".to_vec());
}

#[test]
fn increment_multi_reports_failures() {
    let mut c = conn(b"5\r\nCLIENT_ERROR cannot increment or decrement non-numeric value\r\n");
    let kv = vec![(b"a".to_vec(), 1u64, 0u64, 0u32), (b"b".to_vec(), 2, 0, 0)];
    let fails = c.increment_multi(&kv).unwrap_err();
    assert_eq!(fails.len(), 1);
    assert_eq!(fails[0].0, b"b".to_vec());
    assert_eq!(fails[0].1.status(), Status::ClientError);
}

#[test]
fn stat_error_line_is_surfaced() {
    let mut c = conn(b"STAT pid 1\r\nSERVER_ERROR no\r\nVERSION 1.2.3\r\n");
    assert_eq!(status_of(c.stat()), Status::ServerError);
    assert!(!c.is_poisoned());
    let v = c.version().unwrap();
    assert_eq!((v.major, v.minor, v.patch), (1, 2, 3));
}

#[test]
fn status_descriptions() {
    assert_eq!(Status::NotFound.desc(), "not found");
    assert_eq!(Status::Unsupported.desc(), "not supported by the text protocol");
}

#[test]
fn send_noop_is_unsupported() {
    let mut c = conn(b"");
    assert_eq!(status_of(c.send_noop()), Status::Unsupported);
    assert!(c.written().is_empty());
}

#[test]
fn largest_value_round_trip() {
    let value: Vec<u8> = (0..1048575u32).map(|i| (i % 251) as u8).collect();
    let mut server = b"STORED\r\nVALUE big 9 1048575\r\n".to_vec();
    server.extend_from_slice(&value);
    server.extend_from_slice(b"\r\nEND\r\n");
    let mut c = conn(&server);
    c.set(b"big", &value, 9, 0).unwrap();
    let (v, f) = c.get(b"big").unwrap();
    assert_eq!(v, value);
    assert_eq!(f, 9);
    let written = c.written().clone();
    assert!(written.starts_with(b"set big 9 0 1048575\r\n"));
    assert!(written.ends_with(b"\r\nget big\r\n"));
}

#[test]
fn compaction_keeps_connection_usable() {
    let mut c = conn(b"STORED\r\n");
    c.set(b"k", b"v", 0, 0).unwrap();
    c.discard_read();
    assert!(c.input.is_empty());
    assert_eq!(c.pos, 0);
    let n = c.committed;
    c.discard_written(n);
    assert!(c.written().is_empty());
    c.receive(b"DELETED\r\n");
    c.delete(b"k").unwrap();
    assert_eq!(c.written().clone(), b"delete k\r\n".to_vec());
}

#[test]
fn status_description_text() {
    assert_eq!(Status::NeedMore.desc(), "reply not complete yet");
    assert_eq!(Status::Io.desc(), "transport failure");
}
