use kvstore::log::{parse_record_line, LogRecord};
use kvstore::storage::KvStore;
use kvstore::text::chars_of;

fn parse(line: &str) -> Result<LogRecord, String> {
    let v = chars_of(line);
    parse_record_line(&v, 0, v.len())
}

fn open_err(log: &str) -> String {
    match KvStore::open(log, 0) {
        Ok(_) => panic!("the log should be refused"),
        Err(e) => e.to_string(),
    }
}

#[test]
fn encode_each_record() {
    let r = LogRecord::Put { key: "k".into(), value: "a b,c".into() };
    assert_eq!(r.encode(), "SET,k,a b,c\n");
    let r = LogRecord::PutEx { key: "k".into(), value: "v".into(), expire_at: 1234 };
    assert_eq!(r.encode(), "SETX,k,v,1234\n");
    let r = LogRecord::Expire { key: "k".into(), expire_at: 0 };
    assert_eq!(r.encode(), "EXPIRE,k,0\n");
    let r = LogRecord::Del { key: "k".into() };
    assert_eq!(r.encode(), "DEL,k\n");
}

#[test]
fn log_roundtrip_law_on_values() {
    let records = vec![
        LogRecord::Put { key: "a".into(), value: "1, 2".into() },
        LogRecord::PutEx { key: "b".into(), value: "x,y".into(), expire_at: u64::MAX },
        LogRecord::Expire { key: "a".into(), expire_at: 77 },
        LogRecord::Del { key: "c".into() },
        LogRecord::Put { key: "d".into(), value: "".into() },
    ];
    for r in records {
        let line = r.encode();
        let body = line.trim_end_matches('\n');
        let back = parse(body).unwrap();
        assert_eq!(format!("{:?}", back), format!("{:?}", r));
    }
}

#[test]
fn each_bad_line_has_its_message() {
    assert_eq!(parse("SET,k").unwrap_err(), "日志格式错误：SET 行需要 key 和 value，实际为 'SET,k'");
    assert_eq!(parse("SET,,v").unwrap_err(), "日志格式错误：SET 行 key 为空，实际为 'SET,,v'");
    assert_eq!(
        parse("SETX,k").unwrap_err(),
        "日志格式错误：SETX 行需要 key/value/时间戳，实际为 'SETX,k'"
    );
    assert_eq!(
        parse("SETX,k,v").unwrap_err(),
        "日志格式错误：SETX 行需要过期时间戳，实际为 'SETX,k,v'"
    );
    assert_eq!(
        parse("SETX,k,v,x1").unwrap_err(),
        "日志格式错误：SETX 行时间戳无效，实际为 'SETX,k,v,x1'"
    );
    assert_eq!(
        parse("SETX,,v,1").unwrap_err(),
        "日志格式错误：SETX 行 key 为空，实际为 'SETX,,v,1'"
    );
    assert_eq!(
        parse("EXPIRE,k").unwrap_err(),
        "日志格式错误：EXPIRE 行需要 key/时间戳，实际为 'EXPIRE,k'"
    );
    assert_eq!(
        parse("EXPIRE,k,-1").unwrap_err(),
        "日志格式错误：EXPIRE 行时间戳无效，实际为 'EXPIRE,k,-1'"
    );
    assert_eq!(parse("DEL,").unwrap_err(), "日志格式错误：DEL 行需要 key，实际为 'DEL,'");
    assert_eq!(parse("PUT,k,v").unwrap_err(), "未知日志行格式：'PUT,k,v'");
}

#[test]
fn timestamps_take_a_plus_and_refuse_overflow() {
    match parse("SETX,k,v,+5").unwrap() {
        LogRecord::PutEx { expire_at, .. } => assert_eq!(expire_at, 5),
        other => panic!("unexpected {:?}", other),
    }
    assert!(parse("SETX,k,v,18446744073709551616").is_err());
    assert!(parse("SETX,k,v,18446744073709551615").is_ok());
    assert!(parse("SETX,k,v,").is_err());
}

#[test]
fn first_bad_line_rejects_the_log() {
    assert_eq!(open_err("SET,a,1\nBAD\nSET,b\n"), "未知日志行格式：'BAD'");
    assert_eq!(
        open_err("SET,a,1\r\nSET,b\r\n"),
        "日志格式错误：SET 行需要 key 和 value，实际为 'SET,b'"
    );
}

#[test]
fn blank_lines_and_trailing_whitespace_are_skipped() {
    let mut kv = KvStore::open("\n  \nSET,a,1  \r\n\nDEL,b\nSET,c,x", 0).unwrap();
    assert_eq!(kv.get("a", 0).as_deref(), Some("1"));
    assert_eq!(kv.get("c", 0).as_deref(), Some("x"));
    assert_eq!(kv.keys(0), vec!["a", "c"]);
}

#[test]
fn expire_record_applies_only_to_present_keys() {
    let mut kv = KvStore::open("EXPIRE,ghost,5\nSET,a,1\nEXPIRE,a,10\n", 0).unwrap();
    assert_eq!(kv.get("ghost", 0), None);
    assert_eq!(kv.ttl("a", 0), Some(1));
    assert_eq!(kv.get("a", 10), None);
}
