use kvstore::server::{
    clear_reply, command_line, compact_reply, dispatch, ends_session, parse_server_args,
    run_command, scan_chunk, ServerArgs, Step,
};
use kvstore::storage::KvStore;

const T0: u64 = 1_700_000_000_000;

/// The server's handling of request lines, with its log kept in a string.
struct Server {
    kv: KvStore,
    log: String,
    clients: usize,
}

impl Server {
    fn start() -> Server {
        Server { kv: KvStore::new(), log: String::new(), clients: 1 }
    }

    fn restart(&self, now: u64) -> Server {
        Server { kv: KvStore::open(&self.log, now).unwrap(), log: self.log.clone(), clients: 1 }
    }

    fn send(&mut self, line: &str, now: u64) -> String {
        let reply = match dispatch(line, &mut self.kv, now, self.clients) {
            None => panic!("overflow"),
            Some(Step::Reply(r)) => r,
            Some(Step::Persist { record, reply }) => {
                self.log.push_str(&record.encode());
                self.kv.commit(record);
                reply
            }
            Some(Step::Clear) => {
                self.log.clear();
                clear_reply(self.kv.clear())
            }
            Some(Step::Compact) => {
                let before = self.log.len() as u64;
                self.log = self.kv.compact(now);
                compact_reply(before, self.log.len() as u64)
            }
        };
        reply.trim_end_matches(&['\n', '\r'][..]).to_string()
    }
}

#[test]
fn t01_basic_set_get_del() {
    let mut s = Server::start();
    assert_eq!(s.send("set name Alice", T0), "OK");
    assert_eq!(s.send("get name", T0), "OK Alice");
    assert_eq!(s.send("set name Bob", T0), "OK");
    assert_eq!(s.send("get name", T0), "OK Bob");
    assert_eq!(s.send("del name", T0), "OK");
    assert_eq!(s.send("get name", T0), "NOTFOUND");
    assert_eq!(s.send("del name", T0), "NOTFOUND");
}

#[test]
fn t02_keys_and_status() {
    let mut s = Server::start();
    s.clients = 2;
    s.send("set banana v", T0);
    s.send("set apple v", T0);
    s.send("set cherry v", T0);
    assert_eq!(s.send("keys", T0), "OK apple,banana,cherry");
    assert_eq!(s.send("status", T0), "STATUS keys=3 clients=2");
}

#[test]
fn t03_bad_cmd_doesnt_break_connection() {
    let mut s = Server::start();
    assert_eq!(s.send("foobar hello world", T0), "ERR 未知命令: foobar");
    assert_eq!(s.send("ping", T0), "PONG");
    assert_eq!(s.send("get missing", T0), "NOTFOUND");
    assert_eq!(s.send("set a,b v", T0), "ERR key 不能包含逗号（日志分隔符），请使用其他字符");
    assert!(s.log.is_empty());
}

#[test]
fn t04_restart_recovery() {
    let mut s = Server::start();
    s.send("set course Rust程序设计", T0);
    s.send("set team 4people", T0);
    s.send("del team", T0);
    let mut s2 = s.restart(T0);
    assert_eq!(s2.send("get course", T0), "OK Rust程序设计");
    assert_eq!(s2.send("get team", T0), "NOTFOUND");
}

#[test]
fn t06_clear_all_data() {
    let mut s = Server::start();
    s.send("set a 1", T0);
    s.send("set b 2", T0);
    s.send("set c 3", T0);
    assert_eq!(s.send("clear", T0), "OK 已清空 3 条数据");
    assert_eq!(s.send("keys", T0), "OK");
    assert!(s.send("status", T0).starts_with("STATUS keys=0"));
    assert_eq!(s.send("clear", T0), "OK 已清空 0 条数据");
    assert_eq!(s.send("set d 4", T0), "OK");
    let mut s2 = s.restart(T0);
    assert_eq!(s2.send("get a", T0), "NOTFOUND");
    assert_eq!(s2.send("get d", T0), "OK 4");
    assert!(s2.send("status", T0).starts_with("STATUS keys=1"));
}

#[test]
fn t07_manual_compact() {
    let mut s = Server::start();
    for i in 0..30 {
        s.send(&format!("set hot v{i}"), T0);
    }
    s.send("set keep hello", T0);
    s.send("set gone temp", T0);
    s.send("del gone", T0);
    let size_before = s.log.len();
    let resp = s.send("compact", T0);
    assert!(resp.starts_with("OK 日志压缩完成："), "实际响应：{resp}");
    assert_eq!(resp, format!("OK 日志压缩完成：{}B → {}B", size_before, s.log.len()));
    assert_eq!(s.send("get hot", T0), "OK v29");
    assert_eq!(s.send("get keep", T0), "OK hello");
    assert_eq!(s.send("get gone", T0), "NOTFOUND");
    assert!(s.log.len() < size_before);
    assert_eq!(s.send("set post ok", T0), "OK");
    let mut s2 = s.restart(T0);
    assert_eq!(s2.send("get hot", T0), "OK v29");
    assert_eq!(s2.send("get keep", T0), "OK hello");
    assert_eq!(s2.send("get gone", T0), "NOTFOUND");
    assert_eq!(s2.send("get post", T0), "OK ok");
    assert!(s2.send("status", T0).starts_with("STATUS keys=3"));
}

#[test]
fn t09_ttl_basic() {
    let mut s = Server::start();
    assert_eq!(s.send("set perm forever", T0), "OK");
    assert_eq!(s.send("ttl perm", T0), "OK -1");
    assert_eq!(s.send("setex code 2 abc", T0), "OK 已设置，2 秒后过期");
    assert_eq!(s.send("get code", T0), "OK abc");
    assert_eq!(s.send("ttl code", T0 + 500), "OK 2");
    assert_eq!(s.send("expire perm 2", T0), "OK 已设置，2 秒后过期");
    assert_eq!(s.send("expire missing 5", T0), "NOTFOUND");
    assert_eq!(s.send("ttl missing", T0), "OK -2");
    let later = T0 + 3000;
    assert_eq!(s.send("get code", later), "NOTFOUND");
    assert_eq!(s.send("get perm", later), "NOTFOUND");
    assert_eq!(s.send("keys", later), "OK");
    assert!(s.send("status", later).starts_with("STATUS keys=0"));
}

#[test]
fn t05_concurrent_clients() {
    let mut s = Server::start();
    let n = 8;
    let per = 200;
    for j in 0..per {
        for i in 0..n {
            let k = format!("t{i}_k{j}");
            let v = format!("v{i}_{j}");
            assert_eq!(s.send(&format!("set {k} {v}"), T0), "OK");
            assert_eq!(s.send(&format!("get {k}"), T0), format!("OK {v}"));
        }
    }
    let st = s.send("status", T0);
    assert!(st.contains(&format!("keys={}", n * per)), "status={st}");
}

#[test]
fn t08_oversized_line_guard() {
    let mut s = Server::start();
    assert_eq!(s.send("ping", T0), "PONG");
    let max = 1024 * 1024;
    let chunk = vec![b'A'; 64 * 1024];
    let mut buffered = 0usize;
    let mut refused = false;
    while buffered <= 2 * max {
        let step = scan_chunk(buffered, &chunk, max);
        assert!(!step.line_complete);
        buffered += step.take;
        if step.too_long {
            refused = true;
            break;
        }
    }
    assert!(refused);
    assert!(buffered > max && buffered <= max + chunk.len());
    let reply = kvstore::server::oversize_reply();
    assert_eq!(reply, "ERR 请求超过 1MB 上限，连接已断开\n");
    assert!(reply.contains("ERR") && reply.contains("1MB"));
    assert_eq!(s.send("set still ok", T0), "OK");
    assert_eq!(s.send("get still", T0), "OK ok");
    assert_eq!(s.send("ping", T0), "PONG");
}

#[test]
fn requests_values_keep_words() {
    let mut s = Server::start();
    assert_eq!(s.send("set greeting Hello   big World", T0), "OK");
    assert_eq!(s.send("get greeting", T0), "OK Hello big World");
    assert_eq!(s.send("setex k 10 a b", T0), "OK 已设置，10 秒后过期");
    assert_eq!(s.send("get k", T0), "OK a b");
    assert_eq!(s.send("quit", T0), "OK 再见");
    assert_eq!(s.send("", T0), "ERR 空命令");
}

#[test]
fn requests_expiry_overflow_stops() {
    let mut kv = KvStore::new();
    assert!(dispatch("setex k 18446744073709551615 v", &mut kv, 1, 1).is_none());
    assert!(dispatch("setex a,b 18446744073709551615 v", &mut kv, 1, 1).is_some());
    assert!(dispatch("expire k 18446744073709551615", &mut kv, 1, 1).is_some());
}

#[test]
fn session_lines() {
    assert_eq!(command_line("get a\r\n").as_deref(), Some("get a"));
    assert_eq!(command_line("get a\n\n").as_deref(), Some("get a"));
    assert_eq!(command_line("\r\n"), None);
    assert!(ends_session("  QuIt "));
    assert!(!ends_session("quit now"));
}

#[test]
fn chunks_are_cut_at_line_feeds() {
    let s = scan_chunk(0, b"ab\ncd", 10);
    assert_eq!((s.take, s.line_complete, s.too_long), (3, true, false));
    let s = scan_chunk(8, b"abcd", 10);
    assert_eq!((s.take, s.line_complete, s.too_long), (4, false, true));
    let s = scan_chunk(usize::MAX, b"a", 10);
    assert!(s.too_long);
}

fn args(v: &[&str]) -> Vec<String> {
    v.iter().map(|s| s.to_string()).collect()
}

#[test]
fn server_arguments() {
    match parse_server_args(&args(&["server"])).unwrap() {
        ServerArgs::Run { port, data_path } => {
            assert_eq!(port, 6379);
            assert_eq!(data_path, "./kv.db");
        }
        ServerArgs::Help => panic!("not help"),
    }
    match parse_server_args(&args(&["server", "--port", "6380", "--data", "./my-kv.db"])).unwrap() {
        ServerArgs::Run { port, data_path } => {
            assert_eq!(port, 6380);
            assert_eq!(data_path, "./my-kv.db");
        }
        ServerArgs::Help => panic!("not help"),
    }
    assert!(matches!(parse_server_args(&args(&["server", "-h", "--bad"])), Ok(ServerArgs::Help)));
    assert_eq!(parse_server_args(&args(&["server", "--port"])).unwrap_err(), "--port 需要参数");
    assert_eq!(parse_server_args(&args(&["server", "--port", "70000"])).unwrap_err(), "无效端口");
    assert_eq!(parse_server_args(&args(&["server", "--data"])).unwrap_err(), "--data 需要参数");
    assert_eq!(
        parse_server_args(&args(&["server", "--x"])).unwrap_err(),
        "未知参数: --x, 使用 --help 查看用法"
    );
}

#[test]
fn log_written_by_server_reads_back() {
    let mut s = Server::start();
    assert_eq!(s.send("  set\tk   a \t b  ", T0), "OK");
    assert_eq!(s.send("SETEX t 100  x   y ", T0), "OK 已设置，100 秒后过期");
    assert_eq!(s.send("set gone v", T0), "OK");
    assert_eq!(s.send("del gone", T0), "OK");
    assert_eq!(s.send("expire k 50", T0), "OK 已设置，50 秒后过期");
    assert_eq!(s.log, format!("SET,k,a b\nSETX,t,x y,{}\nSET,gone,v\nDEL,gone\nEXPIRE,k,{}\n", T0 + 100_000, T0 + 50_000));
    let mut s2 = s.restart(T0 + 1);
    assert_eq!(s2.send("get k", T0 + 1), "OK a b");
    assert_eq!(s2.send("get t", T0 + 1), "OK x y");
    assert_eq!(s2.send("get gone", T0 + 1), "NOTFOUND");
    assert_eq!(s2.send("ttl k", T0 + 1), "OK 50");
}

fn reply_of(step: Option<Step>) -> String {
    match step {
        Some(Step::Reply(r)) => r,
        Some(Step::Persist { reply, .. }) => reply,
        Some(Step::Clear) => "clear".to_string(),
        Some(Step::Compact) => "compact".to_string(),
        None => "overflow".to_string(),
    }
}

#[test]
fn commands_run_on_their_arguments() {
    let mut kv = KvStore::new();
    let a = |v: &[&str]| v.iter().map(|s| s.to_string()).collect::<Vec<String>>();
    assert_eq!(reply_of(run_command("ping", a(&[]), &mut kv, T0, 1)), "PONG\n");
    assert_eq!(reply_of(run_command("hello", a(&[]), &mut kv, T0, 1)), "ERR 未知命令: hello\n");
    match run_command("set", a(&["k", "a", "b"]), &mut kv, T0, 1) {
        Some(Step::Persist { record, reply }) => {
            assert_eq!(record.encode(), "SET,k,a b\n");
            assert_eq!(reply, "OK\n");
            kv.commit(record);
        }
        _ => panic!("set persists"),
    }
    assert_eq!(reply_of(run_command("get", a(&["k"]), &mut kv, T0, 1)), "OK a b\n");
    assert_eq!(reply_of(run_command("ttl", a(&["k"]), &mut kv, T0, 1)), "OK -1\n");
    assert_eq!(reply_of(run_command("expire", a(&["k", "18446744073709551615"]), &mut kv, T0, 1)), "overflow");
    assert_eq!(reply_of(run_command("status", a(&[]), &mut kv, T0, 4)), "STATUS keys=1 clients=4\n");
    assert_eq!(reply_of(run_command("quit", a(&[]), &mut kv, T0, 1)), "OK 再见\n");
}
