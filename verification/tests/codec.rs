use kvs::codec::{decode, encode, frame, unframe, Tag, DELIMITER};
use kvs::storage::{latest_record, scan, snapshot};
use kvs::{KvsError, Log, SizedLog};

fn put(key: &str, value: &str) -> Log {
    Log::Put(key.to_owned(), value.to_owned())
}

fn remove(key: &str) -> Log {
    Log::Remove(key.to_owned())
}

#[test]
fn encode_writes_the_tagged_object_and_a_line_feed() {
    assert_eq!(
        encode(&put("foo", "bar")).unwrap(),
        b"{\"Set\":[\"foo\",\"bar\"]}\n".to_vec()
    );
    assert_eq!(encode(&remove("foo")).unwrap(), b"{\"Remove\":\"foo\"}\n".to_vec());
}

#[test]
fn encode_escapes_what_json_asks_for() {
    assert_eq!(
        encode(&put("a\"b", "c\\d\ne")).unwrap(),
        b"{\"Set\":[\"a\\\"b\",\"c\\\\d\\ne\"]}\n".to_vec()
    );
    assert_eq!(
        encode(&remove("tab\tbell\u{7}")).unwrap(),
        b"{\"Remove\":\"tab\\tbell\\u0007\"}\n".to_vec()
    );
    assert_eq!(
        encode(&remove("gr\u{fc}n")).unwrap(),
        "{\"Remove\":\"gr\u{fc}n\"}\n".as_bytes().to_vec()
    );
}

#[test]
fn encoded_line_holds_one_delimiter_at_its_end() {
    let line = encode(&put("one\ntwo", "three\n\nfour")).unwrap();
    assert_eq!(line.iter().filter(|b| **b == DELIMITER).count(), 1);
    assert_eq!(*line.last().unwrap(), DELIMITER);
}

#[test]
fn decode_reads_both_kinds_of_record() {
    assert_eq!(decode(b"{\"Set\":[\"foo\",\"bar\"]}\n").unwrap(), put("foo", "bar"));
    assert_eq!(decode(b"{\"Remove\":\"foo\"}\n").unwrap(), remove("foo"));
}

#[test]
fn decode_reads_escapes_and_spaces_inside_the_payload() {
    assert_eq!(
        decode(b"{\"Set\": [ \"a\\u0041\" , \"\\n\\/\" ] }\n").unwrap(),
        put("aA", "\n/")
    );
    assert_eq!(decode(b"{\"Remove\":\"\\ud83d\\ude00\"}\n").unwrap(), remove("\u{1f600}"));
}

#[test]
fn decode_gives_back_what_encode_was_given() {
    let logs = vec![
        put("", ""),
        put("k", "v"),
        put("line\nfeed", "\r\n\t\u{0}\u{1f}"),
        put("quote\"", "back\\slash"),
        put("\u{e9}\u{4e2d}\u{1f600}", "}\n{\"Remove\":\"x\"}"),
        remove(""),
        remove("k"),
        remove("\"]}\n"),
    ];
    for log in logs {
        assert_eq!(decode(&encode(&log).unwrap()).unwrap(), log);
    }
}

#[test]
fn decode_refuses_a_line_without_a_frame() {
    let lines: Vec<&[u8]> = vec![
        b"",
        b"\n",
        b"{}\n",
        b"{\"Set\":[\"a\",\"b\"]}",
        b"{\"Set\":[\"a\",\"b\"]",
        b"{\"Get\":\"a\"}\n",
        b" {\"Remove\":\"a\"}\n",
        b"{\"Remove\":\"a\"} \n",
        b"{\"Remove\":\"a\"}\r\n",
        b"[\"a\",\"b\"]\n",
        b"{\"Set\":\n",
        b"{\"Remove\":}",
    ];
    for line in lines {
        assert!(matches!(decode(line), Err(KvsError::Malformed)), "{:?}", line);
    }
}

#[test]
fn decode_refuses_a_payload_that_serde_json_refuses() {
    let lines: Vec<&[u8]> = vec![
        b"{\"Set\":}\n",
        b"{\"Set\":\"a\"}\n",
        b"{\"Set\":[\"a\"]}\n",
        b"{\"Set\":[\"a\",\"b\",\"c\"]}\n",
        b"{\"Set\":[\"a\",1]}\n",
        b"{\"Set\":[\"a\",\"b\"]}}\n",
        b"{\"Remove\":[\"a\",\"b\"]}\n",
        b"{\"Remove\":\"a}\n",
        b"{\"Remove\":\"a\\x\"}\n",
        b"{\"Remove\":\"a\"\"b\"}\n",
        b"{\"Remove\":null}\n",
        b"{\"Remove\":\"\xff\"}\n",
    ];
    for line in lines {
        assert!(matches!(decode(line), Err(KvsError::Serde(_))), "{:?}", line);
    }
}

#[test]
fn frame_puts_the_payload_between_opening_and_closing() {
    assert_eq!(frame(Tag::Put, b"[1]"), b"{\"Set\":[1]}\n".to_vec());
    assert_eq!(frame(Tag::Remove, b""), b"{\"Remove\":}\n".to_vec());
}

#[test]
fn unframe_gives_the_kind_and_the_payload() {
    assert_eq!(unframe(b"{\"Set\":[1]}\n"), Some((Tag::Put, &b"[1]"[..])));
    assert_eq!(unframe(b"{\"Remove\":}\n"), Some((Tag::Remove, &b""[..])));
    assert_eq!(unframe(b"{\"Set\":}\n"), Some((Tag::Put, &b""[..])));
    assert_eq!(unframe(b"{\"Set\":}"), None);
    assert_eq!(unframe(b"{\"Set\"}\n"), None);
    assert_eq!(unframe(b"}\n"), None);
}

#[test]
fn unframe_undoes_frame() {
    let payloads: Vec<&[u8]> = vec![b"", b"\"k\"", b"}\n", b"{\"Set\":"];
    for payload in payloads {
        assert_eq!(unframe(&frame(Tag::Put, payload)), Some((Tag::Put, payload)));
        assert_eq!(unframe(&frame(Tag::Remove, payload)), Some((Tag::Remove, payload)));
    }
}

#[test]
fn scan_reads_the_records_with_the_lengths_of_their_lines() {
    let log = b"{\"Set\":[\"foo\",\"bar\"]}\n{\"Set\":[\"baz\",\"qux\"]}\n{\"Remove\":\"foo\"}\n";
    assert_eq!(
        scan(log).unwrap(),
        vec![
            SizedLog::new(put("foo", "bar"), 22),
            SizedLog::new(put("baz", "qux"), 22),
            SizedLog::new(remove("foo"), 17),
        ]
    );
    assert_eq!(scan(b"").unwrap(), vec![]);
}

#[test]
fn scan_fails_with_the_fault_of_the_first_bad_line() {
    assert!(matches!(
        scan(b"{\"Remove\":\"a\"}\nrubbish\n{\"Remove\":1}\n"),
        Err(KvsError::Malformed)
    ));
    assert!(matches!(
        scan(b"{\"Remove\":\"a\"}\n{\"Remove\":1}\nrubbish\n"),
        Err(KvsError::Serde(_))
    ));
    // A last line without its delimiter is a truncated record.
    assert!(matches!(
        scan(b"{\"Remove\":\"a\"}\n{\"Remove\":\"b\"}"),
        Err(KvsError::Malformed)
    ));
    assert!(matches!(scan(b"\n"), Err(KvsError::Malformed)));
}

#[test]
fn snapshot_writes_the_lines_in_order() {
    let a = put("a", "1");
    let b = remove("b");
    let (bytes, records) = snapshot(&vec![&a, &b]).unwrap();
    assert_eq!(bytes, b"{\"Set\":[\"a\",\"1\"]}\n{\"Remove\":\"b\"}\n".to_vec());
    assert_eq!(records, vec![SizedLog::new(a.clone(), 18), SizedLog::new(b.clone(), 15)]);
    assert_eq!(scan(&bytes).unwrap(), records);
    let (bytes, records) = snapshot(&vec![]).unwrap();
    assert!(bytes.is_empty());
    assert!(records.is_empty());
}

#[test]
fn latest_record_is_the_last_one_of_the_key() {
    let records = vec![
        SizedLog::new(put("a", "1"), 1),
        SizedLog::new(put("b", "2"), 2),
        SizedLog::new(put("a", "3"), 3),
        SizedLog::new(remove("b"), 4),
        SizedLog::new(put("\u{e9}", "5"), 5),
    ];
    assert_eq!(latest_record(&records, "a"), Some(SizedLog::new(put("a", "3"), 3)));
    assert_eq!(latest_record(&records, "b"), Some(SizedLog::new(remove("b"), 4)));
    assert_eq!(latest_record(&records, "\u{e9}"), Some(SizedLog::new(put("\u{e9}", "5"), 5)));
    assert_eq!(latest_record(&records, "e"), None);
    assert_eq!(latest_record(&records, ""), None);
    assert_eq!(latest_record(&vec![], "a"), None);
}
