use kvstore::error::KvError;
use kvstore::log::LogRecord;
use kvstore::storage::{compact_tmp_path, unix_ms_after_secs, validate_key, KvStore, ValueEntry};

const T0: u64 = 1_700_000_000_000;

/// The store with its log kept in a string, as the server keeps it in a file.
struct Db {
    kv: KvStore,
    log: String,
}

impl Db {
    fn open(log: &str, now: u64) -> Result<Db, KvError> {
        Ok(Db { kv: KvStore::open(log, now)?, log: log.to_string() })
    }

    fn persist(&mut self, rec: LogRecord) {
        self.log.push_str(&rec.encode());
        self.kv.commit(rec);
    }

    fn set(&mut self, key: String, value: String) -> Result<(), KvError> {
        let rec = self.kv.set(key, value)?;
        self.persist(rec);
        Ok(())
    }

    fn setex(&mut self, key: String, secs: u64, value: String, now: u64) -> Result<(), KvError> {
        let rec = self.kv.setex(key, secs, value, now)?;
        self.persist(rec);
        Ok(())
    }

    fn expire(&mut self, key: &str, secs: u64, now: u64) -> Result<bool, KvError> {
        match self.kv.expire(key, secs, now)? {
            Some(rec) => {
                self.persist(rec);
                Ok(true)
            }
            None => Ok(false),
        }
    }

    fn del(&mut self, key: &str, now: u64) -> Result<bool, KvError> {
        match self.kv.del(key, now)? {
            Some(rec) => {
                self.persist(rec);
                Ok(true)
            }
            None => Ok(false),
        }
    }

    fn clear(&mut self) -> usize {
        self.log.clear();
        self.kv.clear()
    }

    fn compact(&mut self, now: u64) -> (u64, u64) {
        let before = self.log.len() as u64;
        self.log = self.kv.compact(now);
        (before, self.log.len() as u64)
    }
}

#[test]
fn basic_set_get_del() {
    let mut kv = Db::open("", T0).unwrap();
    kv.set("k1".into(), "v1".into()).unwrap();
    assert_eq!(kv.kv.get("k1", T0).as_deref(), Some("v1"));
    kv.set("k1".into(), "v2".into()).unwrap();
    assert_eq!(kv.kv.get("k1", T0).as_deref(), Some("v2"));
    assert!(kv.del("k1", T0).unwrap());
    assert_eq!(kv.kv.get("k1", T0), None);
    assert!(!kv.del("k1", T0).unwrap());
}

#[test]
fn keys_sorted() {
    let mut kv = Db::open("", T0).unwrap();
    for k in ["banana", "apple", "cherry"] {
        kv.set(k.into(), "v".into()).unwrap();
    }
    assert_eq!(kv.kv.keys(T0), vec!["apple", "banana", "cherry"]);
    assert_eq!(kv.kv.len(T0), 3);
}

#[test]
fn restart_recovery() {
    let mut kv = Db::open("", T0).unwrap();
    kv.set("a".into(), "1".into()).unwrap();
    kv.set("b".into(), "2".into()).unwrap();
    kv.del("a", T0).unwrap();
    let mut kv2 = Db::open(&kv.log, T0).unwrap();
    assert_eq!(kv2.kv.get("a", T0), None);
    assert_eq!(kv2.kv.get("b", T0).as_deref(), Some("2"));
    assert_eq!(kv2.kv.len(T0), 1);
}

#[test]
fn value_with_comma_and_space() {
    let mut kv = Db::open("", T0).unwrap();
    kv.set("x".into(), "hello, world, foo".into()).unwrap();
    let mut kv = Db::open(&kv.log, T0).unwrap();
    assert_eq!(kv.kv.get("x", T0).as_deref(), Some("hello, world, foo"));
}

#[test]
fn corrupted_file_is_err() {
    let res = Db::open("@@@@乱码垃圾内容@@@@\n", T0);
    assert!(res.is_err(), "损坏的文件必须返回 Err，不能 panic / 静默置空");
}

#[test]
fn empty_key_rejected() {
    let mut kv = Db::open("", T0).unwrap();
    assert!(kv.set("".into(), "v".into()).is_err());
    assert!(kv.set("   ".into(), "v".into()).is_err());
    assert!(kv.del("", T0).is_err());
}

#[test]
fn clear_then_restart_is_empty() {
    let mut kv = Db::open("", T0).unwrap();
    kv.set("a".into(), "1".into()).unwrap();
    kv.set("b".into(), "2".into()).unwrap();
    kv.set("c".into(), "3".into()).unwrap();
    assert_eq!(kv.clear(), 3);
    assert_eq!(kv.kv.len(T0), 0);
    assert!(kv.kv.is_empty(T0));
    kv.set("d".into(), "4".into()).unwrap();
    let mut kv2 = Db::open(&kv.log, T0).unwrap();
    assert_eq!(kv2.kv.len(T0), 1);
    assert_eq!(kv2.kv.get("d", T0).as_deref(), Some("4"));
}

#[test]
fn clear_empty_is_ok() {
    let mut kv = Db::open("", T0).unwrap();
    assert_eq!(kv.clear(), 0);
    assert!(kv.kv.is_empty(T0));
}

#[test]
fn compact_shrinks_overwritten_log() {
    let mut kv = Db::open("", T0).unwrap();
    for i in 0..50 {
        kv.set("hot".into(), format!("value-{i}")).unwrap();
    }
    let (before, after) = kv.compact(T0);
    assert!(before >= 50 * 15, "压缩前应至少 50 行");
    assert_eq!(after, "SET,hot,value-49\n".len() as u64, "压缩后只 1 行");
    assert_eq!(kv.log, "SET,hot,value-49\n");
    let (b2, a2) = kv.compact(T0);
    assert_eq!(b2, a2);
    assert_eq!(a2, after);
    let mut kv2 = Db::open(&kv.log, T0).unwrap();
    assert_eq!(kv2.kv.get("hot", T0).as_deref(), Some("value-49"));
}

#[test]
fn compact_then_restart_keeps_data() {
    let mut kv = Db::open("", T0).unwrap();
    for i in 0..30 {
        kv.set("a".into(), format!("va{i}")).unwrap();
    }
    kv.set("keep1".into(), "hello".into()).unwrap();
    kv.set("keep2".into(), "world, foo".into()).unwrap();
    kv.set("gone".into(), "x".into()).unwrap();
    kv.del("gone", T0).unwrap();
    kv.compact(T0);
    let mut kv2 = Db::open(&kv.log, T0).unwrap();
    assert_eq!(kv2.kv.get("keep1", T0).as_deref(), Some("hello"));
    assert_eq!(kv2.kv.get("keep2", T0).as_deref(), Some("world, foo"));
    assert_eq!(kv2.kv.get("a", T0).as_deref(), Some("va29"));
    assert_eq!(kv2.kv.get("gone", T0), None);
    assert_eq!(kv2.kv.len(T0), 3);
}

#[test]
fn compact_then_continue_writes() {
    let mut kv = Db::open("", T0).unwrap();
    for i in 0..20 {
        kv.set("x".into(), format!("v{i}")).unwrap();
    }
    kv.compact(T0);
    kv.set("post".into(), "after-compact".into()).unwrap();
    kv.del("x", T0).unwrap();
    assert_eq!(kv.kv.get("post", T0).as_deref(), Some("after-compact"));
    kv.clear();
    for i in 0..20 {
        kv.set("y".into(), format!("w{i}")).unwrap();
    }
    kv.set("final".into(), "done".into()).unwrap();
    kv.compact(T0);
    let mut kv2 = Db::open(&kv.log, T0).unwrap();
    assert_eq!(kv2.kv.get("post", T0), None);
    assert_eq!(kv2.kv.get("y", T0).as_deref(), Some("w19"));
    assert_eq!(kv2.kv.get("final", T0).as_deref(), Some("done"));
}

#[test]
fn compact_all_live_data_is_stable() {
    let mut kv = Db::open("", T0).unwrap();
    for i in 0..60 {
        kv.set(format!("key-{i:03}"), format!("value-{i:03}")).unwrap();
    }
    let (before, after) = kv.compact(T0);
    assert_eq!(before, after);
    assert_eq!(kv.kv.len(T0), 60);
    let lines: Vec<&str> = kv.log.lines().filter(|l| !l.is_empty()).collect();
    assert_eq!(lines.len(), 60);
    let mut kv2 = Db::open(&kv.log, T0).unwrap();
    for i in 0..60 {
        assert_eq!(
            kv2.kv.get(&format!("key-{i:03}"), T0).as_deref(),
            Some(format!("value-{i:03}").as_str())
        );
    }
}

#[test]
fn ttl_basic_expiry() {
    let mut kv = Db::open("", T0).unwrap();
    kv.setex("code".into(), 1, "abc".into(), T0).unwrap();
    assert_eq!(kv.kv.get("code", T0).as_deref(), Some("abc"));
    assert_eq!(kv.kv.ttl("code", T0), Some(1));
    let later = T0 + 1100;
    assert_eq!(kv.kv.get("code", later), None);
    assert_eq!(kv.kv.ttl("code", later), Some(-2));
    assert!(!kv.kv.keys(later).contains(&"code".to_string()));
    assert_eq!(kv.kv.len(later), 0);
    let mut kv2 = Db::open(&kv.log, later).unwrap();
    assert_eq!(kv2.kv.get("code", later), None);
    assert_eq!(kv2.kv.len(later), 0);
}

#[test]
fn ttl_expire_and_three_states() {
    let mut kv = Db::open("", T0).unwrap();
    kv.set("perm".into(), "v".into()).unwrap();
    assert_eq!(kv.kv.ttl("perm", T0), Some(-1));
    assert_eq!(kv.kv.ttl("missing", T0), Some(-2));
    assert!(kv.expire("perm", 3600, T0).unwrap());
    assert_eq!(kv.kv.ttl("perm", T0), Some(3600));
    assert!(!kv.expire("ghost", 10, T0).unwrap());
    kv.set("perm".into(), "v2".into()).unwrap();
    assert_eq!(kv.kv.ttl("perm", T0), Some(-1));
}

#[test]
fn ttl_survives_restart() {
    let mut kv = Db::open("", T0).unwrap();
    kv.setex("long".into(), 3600, "still-here".into(), T0).unwrap();
    kv.setex("short".into(), 1, "will-expire".into(), T0).unwrap();
    kv.set("perm".into(), "forever".into()).unwrap();
    let later = T0 + 1100;
    let mut kv2 = Db::open(&kv.log, later).unwrap();
    assert_eq!(kv2.kv.get("perm", later).as_deref(), Some("forever"));
    assert_eq!(kv2.kv.get("long", later).as_deref(), Some("still-here"));
    let t = kv2.kv.ttl("long", later).unwrap();
    assert!(t >= 3590 && t <= 3600, "剩余 TTL 应约 3600，实际 {t}");
    assert_eq!(kv2.kv.get("short", later), None);
    assert_eq!(kv2.kv.len(later), 2);
}

#[test]
fn ttl_compact_and_comma_value() {
    let mut kv = Db::open("", T0).unwrap();
    kv.setex("withcomma".into(), 3600, "a,b,c".into(), T0).unwrap();
    kv.setex("dead".into(), 1, "x".into(), T0).unwrap();
    let later = T0 + 1100;
    kv.compact(later);
    let mut kv2 = Db::open(&kv.log, later).unwrap();
    assert_eq!(kv2.kv.get("withcomma", later).as_deref(), Some("a,b,c"));
    assert!(kv2.kv.ttl("withcomma", later).unwrap() > 0, "压缩后 TTL 应保留");
    assert_eq!(kv2.kv.get("dead", later), None);
    assert_eq!(kv2.kv.len(later), 1);
}

#[test]
fn comma_key_rejected() {
    let mut kv = Db::open("", T0).unwrap();
    assert!(kv.set("a,b".into(), "v".into()).is_err());
    assert!(kv.setex("a,b".into(), 10, "v".into(), T0).is_err());
    assert!(kv.expire("a,b", 10, T0).is_err());
    assert!(kv.del("a,b", T0).is_err());
    assert!(kv.log.is_empty(), "被拒绝的命令不应写日志，实际：{}", kv.log);
}

#[test]
fn ttl_backward_compat_old_log() {
    let mut kv = Db::open("SET,a,1\nDEL,b\nSET,c,3\n", T0).unwrap();
    assert_eq!(kv.kv.get("a", T0).as_deref(), Some("1"));
    assert_eq!(kv.kv.get("c", T0).as_deref(), Some("3"));
    assert_eq!(kv.kv.ttl("a", T0), Some(-1));
}

// ---------------------------------------------------------------------------
// More of the store
// ---------------------------------------------------------------------------

#[test]
fn validate_key_messages() {
    assert_eq!(validate_key("   ").unwrap_err().to_string(), "key 不能为空");
    assert_eq!(
        validate_key("a,b").unwrap_err().to_string(),
        "key 不能包含逗号（日志分隔符），请使用其他字符"
    );
    assert!(validate_key(" a ").is_ok());
    assert!(validate_key("\u{3000}").is_err());
}

#[test]
fn value_entry_alive_and_permanent() {
    let e = ValueEntry::permanent("v".to_string());
    assert_eq!(e.expire_at, None);
    assert!(e.alive(u64::MAX));
    let t = ValueEntry { value: "v".to_string(), expire_at: Some(10) };
    assert!(t.alive(9));
    assert!(!t.alive(10));
}

#[test]
fn expiry_arithmetic_and_tmp_path() {
    assert_eq!(unix_ms_after_secs(5, 2), 2005);
    assert_eq!(compact_tmp_path("./data/kv.db"), "./data/kv.db.tmp");
}

#[test]
fn get_after_set_law_on_values() {
    let mut kv = KvStore::new();
    let rec = kv.set("k".to_string(), "v".to_string()).unwrap();
    kv.commit(rec);
    assert_eq!(kv.get("k", 0).as_deref(), Some("v"));
    assert_eq!(kv.get("k", u64::MAX).as_deref(), Some("v"));
    assert_eq!(kv.ttl("k", 0), Some(-1));
}

#[test]
fn setex_expiry_law_on_values() {
    let mut kv = KvStore::new();
    let rec = kv.setex("k".to_string(), 2, "v".to_string(), 1000).unwrap();
    kv.commit(rec);
    assert_eq!(kv.ttl("k", 1000), Some(2));
    assert_eq!(kv.ttl("k", 1001), Some(2));
    assert_eq!(kv.ttl("k", 2000), Some(1));
    assert_eq!(kv.ttl("k", 2999), Some(1));
    assert_eq!(kv.ttl("k", 3000), Some(-2));
    assert_eq!(kv.get("k", 2999).as_deref(), Some("v"));
    assert_eq!(kv.get("k", 3000), None);
    // the expired value has been dropped on the way
    assert_eq!(kv.clear(), 0);
}

#[test]
fn clear_counts_expired_entries() {
    let mut kv = KvStore::new();
    let rec = kv.setex("k".to_string(), 1, "v".to_string(), 0).unwrap();
    kv.commit(rec);
    let rec = kv.set("p".to_string(), "v".to_string()).unwrap();
    kv.commit(rec);
    assert_eq!(kv.len(5000), 1);
    assert_eq!(kv.clear(), 2);
    assert!(kv.is_empty(0));
}

#[test]
fn del_and_expire_of_absent_keys_write_nothing() {
    let kv = KvStore::new();
    assert!(kv.del("nope", 0).unwrap().is_none());
    assert!(kv.expire("nope", 5, 0).unwrap().is_none());
}

#[test]
fn expire_keeps_value_law_on_values() {
    let mut kv = KvStore::new();
    let rec = kv.set("k".to_string(), "v".to_string()).unwrap();
    kv.commit(rec);
    let rec = kv.expire("k", 1, 100).unwrap().unwrap();
    kv.commit(rec);
    assert_eq!(kv.get("k", 1099).as_deref(), Some("v"));
    assert_eq!(kv.get("k", 1100), None);
}

#[test]
fn keys_skip_expired_and_sort_by_characters() {
    let mut kv = KvStore::new();
    for k in ["b", "a", "é", "Z", "aa"] {
        let rec = kv.set(k.to_string(), "v".to_string()).unwrap();
        kv.commit(rec);
    }
    let rec = kv.setex("c".to_string(), 1, "v".to_string(), 0).unwrap();
    kv.commit(rec);
    assert_eq!(kv.keys(0), vec!["Z", "a", "aa", "b", "c", "é"]);
    assert_eq!(kv.keys(1000), vec!["Z", "a", "aa", "b", "é"]);
    assert_eq!(kv.len(1000), 5);
}

#[test]
fn open_drops_values_expired_at_open() {
    let log = "SETX,k,v,100\nSET,p,q\n";
    let mut kv = KvStore::open(log, 99).unwrap();
    assert_eq!(kv.get("k", 99).as_deref(), Some("v"));
    let mut kv = KvStore::open(log, 100).unwrap();
    assert_eq!(kv.get("k", 100), None);
    assert_eq!(kv.clear(), 1);
}

#[test]
fn compaction_law_on_values() {
    let mut db = Db::open("", 0).unwrap();
    db.set("b".into(), "1".into()).unwrap();
    db.setex("a".into(), 10, "x,y".into(), 0).unwrap();
    db.setex("c".into(), 1, "gone".into(), 0).unwrap();
    db.set("b".into(), "2".into()).unwrap();
    let content = db.kv.compact(500);
    assert_eq!(content, "SETX,a,x,y,10000\nSET,b,2\nSETX,c,gone,1000\n");
    let content = db.kv.compact(1000);
    assert_eq!(content, "SETX,a,x,y,10000\nSET,b,2\n");
    let mut again = KvStore::open(&content, 1000).unwrap();
    assert_eq!(again.compact(1000), content);
    assert_eq!(again.get("a", 1000).as_deref(), Some("x,y"));
}

#[test]
fn restart_recovery_law_on_values() {
    let log = "SET,a,1\nSETX,old,x,500\nSETX,t,y,5000\n";
    let mut db = Db::open(log, 1000).unwrap();
    assert_eq!(db.kv.get("old", 1000), None);
    db.set("b".into(), "2".into()).unwrap();
    assert!(!db.expire("old", 100, 1000).unwrap());
    assert!(db.expire("a", 10, 1000).unwrap());
    assert!(db.del("t", 1000).unwrap());
    let mut again = KvStore::open(&db.log, 2000).unwrap();
    assert_eq!(again.keys(2000), db.kv.keys(2000));
    assert_eq!(again.get("a", 2000).as_deref(), Some("1"));
    assert_eq!(again.ttl("a", 2000), db.kv.ttl("a", 2000));
    assert_eq!(again.get("b", 2000).as_deref(), Some("2"));
    assert_eq!(again.get("old", 2000), None);
    assert_eq!(again.get("t", 2000), None);
}
