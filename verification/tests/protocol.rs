use kvstore::protocol::{
    format_response_for_human, parse_command, resp_err, resp_keys, resp_notfound, resp_ok,
    resp_pong, resp_status,
};


#[test]
fn test_parse_set() {
    let (cmd, args) = parse_command("set name Alice").unwrap();
    assert_eq!(cmd, "set");
    assert_eq!(args, vec!["name", "Alice"]);
    let (cmd, args) = parse_command("set greeting Hello World").unwrap();
    assert_eq!(cmd, "set");
    assert_eq!(args, vec!["greeting", "Hello", "World"]);
    let (cmd, _) = parse_command("SET name Alice").unwrap();
    assert_eq!(cmd, "set");
    let (cmd, args) = parse_command("  set name Alice  ").unwrap();
    assert_eq!(cmd, "set");
    assert_eq!(args, vec!["name", "Alice"]);
    let err = parse_command("set name").unwrap_err();
    assert!(err.contains("需要至少 2 个参数"));
    let err = parse_command("set").unwrap_err();
    assert!(err.contains("需要至少 2 个参数"));
}
#[test]
fn test_parse_get() {
    let (cmd, args) = parse_command("get name").unwrap();
    assert_eq!(cmd, "get");
    assert_eq!(args, vec!["name"]);
    let (cmd, _) = parse_command("GET name").unwrap();
    assert_eq!(cmd, "get");
    let err = parse_command("get").unwrap_err();
    assert!(err.contains("需要 1 个参数"));
    let err = parse_command("get name age").unwrap_err();
    assert!(err.contains("需要 1 个参数"));
}
#[test]
fn test_parse_del() {
    let (cmd, args) = parse_command("del name").unwrap();
    assert_eq!(cmd, "del");
    assert_eq!(args, vec!["name"]);
    let err = parse_command("del").unwrap_err();
    assert!(err.contains("需要 1 个参数"));
}
#[test]
fn test_parse_keys() {
    let (cmd, args) = parse_command("keys").unwrap();
    assert_eq!(cmd, "keys");
    assert!(args.is_empty());
    let (cmd, _) = parse_command("KEYS").unwrap();
    assert_eq!(cmd, "keys");
    let err = parse_command("keys a").unwrap_err();
    assert!(err.contains("不需要参数"));
}
#[test]
fn test_parse_clear() {
    let (cmd, args) = parse_command("clear").unwrap();
    assert_eq!(cmd, "clear");
    assert!(args.is_empty());
    let (cmd, _) = parse_command("CLEAR").unwrap();
    assert_eq!(cmd, "clear");
    let err = parse_command("clear all").unwrap_err();
    assert!(err.contains("不需要参数"));
}

#[test]
fn test_parse_compact() {
    let (cmd, args) = parse_command("compact").unwrap();
    assert_eq!(cmd, "compact");
    assert!(args.is_empty());
    let (cmd, _) = parse_command("COMPACT").unwrap();
    assert_eq!(cmd, "compact");
    let err = parse_command("compact now").unwrap_err();
    assert!(err.contains("不需要参数"));
}
#[test]
fn test_parse_status() {
    let (cmd, args) = parse_command("status").unwrap();
    assert_eq!(cmd, "status");
    assert!(args.is_empty());
    let err = parse_command("status all").unwrap_err();
    assert!(err.contains("不需要参数"));
}
#[test]
fn test_parse_ping() {
    let (cmd, args) = parse_command("ping").unwrap();
    assert_eq!(cmd, "ping");
    assert!(args.is_empty());
    let err = parse_command("ping hello").unwrap_err();
    assert!(err.contains("不需要参数"));
}
#[test]
fn test_parse_quit() {
    let (cmd, args) = parse_command("quit").unwrap();
    assert_eq!(cmd, "quit");
    assert!(args.is_empty());
}
#[test]
fn test_parse_empty() {
    let err = parse_command("").unwrap_err();
    assert!(err.contains("空命令"));

    let err = parse_command("   ").unwrap_err();
    assert!(err.contains("空命令"));
}
#[test]
fn test_parse_unknown() {
    let err = parse_command("unknown").unwrap_err();
    assert!(err.contains("未知命令"));
}
#[test]
fn test_parse_setex() {
    let (cmd, args) = parse_command("setex code 60 abc123").unwrap();
    assert_eq!(cmd, "setex");
    assert_eq!(args, vec!["code", "60", "abc123"]);
    let (_, args) = parse_command("SETEX k 5 hello world").unwrap();
    assert_eq!(args, vec!["k", "5", "hello", "world"]);
    assert!(parse_command("setex k 60").unwrap_err().contains("3 个参数"));
    assert!(parse_command("setex").unwrap_err().contains("3 个参数"));
    assert!(parse_command("setex k abc v").unwrap_err().contains("正整数"));
    assert!(parse_command("setex k -5 v").unwrap_err().contains("正整数"));
}
#[test]
fn test_parse_expire() {
    let (cmd, args) = parse_command("expire k 30").unwrap();
    assert_eq!(cmd, "expire");
    assert_eq!(args, vec!["k", "30"]);
    assert!(parse_command("expire k").unwrap_err().contains("2 个参数"));
    assert!(parse_command("expire k 30 extra").unwrap_err().contains("2 个参数"));
    assert!(parse_command("expire k xyz").unwrap_err().contains("正整数"));
}
#[test]
fn test_parse_ttl() {
    let (cmd, args) = parse_command("ttl k").unwrap();
    assert_eq!(cmd, "ttl");
    assert_eq!(args, vec!["k"]);
    assert!(parse_command("ttl").unwrap_err().contains("1 个参数"));
    assert!(parse_command("ttl a b").unwrap_err().contains("1 个参数"));
}
#[test]
fn test_resp_ok() {
    assert_eq!(resp_ok(None), "OK\n");
    assert_eq!(resp_ok(Some("hello")), "OK hello\n");
    assert_eq!(resp_ok(Some("hello world")), "OK hello world\n");
}
#[test]
fn test_resp_notfound() {
    assert_eq!(resp_notfound(), "NOTFOUND\n");
}
#[test]
fn test_resp_err() {
    assert_eq!(resp_err("something wrong"), "ERR something wrong\n");
}
#[test]
fn test_resp_pong() {
    assert_eq!(resp_pong(), "PONG\n");
}
#[test]
fn test_resp_status() {
    assert_eq!(resp_status(5, 2), "STATUS keys=5 clients=2\n");
    assert_eq!(resp_status(0, 1), "STATUS keys=0 clients=1\n");
}
#[test]
fn test_resp_keys() {
    assert_eq!(resp_keys(&[]), "OK\n");
    assert_eq!(resp_keys(&["a".to_string()]), "OK a\n");
    assert_eq!(resp_keys(&["a".to_string(), "b".to_string()]), "OK a,b\n");
}
#[test]
fn test_format_ok() {
    assert_eq!(format_response_for_human("OK\n"), "(成功) 操作成功");
    assert_eq!(format_response_for_human("OK hello\n"), "(成功) hello");
    assert_eq!(
        format_response_for_human("OK hello world\n"),
        "(成功) hello world"
    );
}
#[test]
fn test_format_ok_keys() {
    let result = format_response_for_human("OK a,b,c\n");
    assert!(result.contains("共有以下键"));
    assert!(result.contains("1. a"));
    assert!(result.contains("2. b"));
    assert!(result.contains("3. c"));
}
#[test]
fn test_format_notfound() {
    assert_eq!(format_response_for_human("NOTFOUND\n"), "(提示) 键不存在");
}
#[test]
fn test_format_err() {
    assert_eq!(
        format_response_for_human("ERR something wrong\n"),
        "(错误) something wrong"
    );
}
#[test]
fn test_format_pong() {
    assert_eq!(format_response_for_human("PONG\n"), "PONG");
}
#[test]
fn test_format_status() {
    let result = format_response_for_human("STATUS keys=5 clients=2\n");
    assert!(result.contains("数据条数: 5"));
    assert!(result.contains("活跃连接: 2"));
}
#[test]
fn test_format_empty() {
    assert_eq!(format_response_for_human(""), "(提示) 收到空响应");
    assert_eq!(format_response_for_human("\n"), "(提示) 收到空响应");
}
#[test]
fn test_format_unknown_prefix() {
    let result = format_response_for_human("UNKNOWN hello\n");
    assert!(result.contains("未知响应前缀"));
}

#[test]
fn render_laws_on_values() {
    assert_eq!(format_response_for_human(&resp_ok(None)), "(成功) 操作成功");
    assert_eq!(format_response_for_human(&resp_ok(Some("x y"))), "(成功) x y");
    assert_eq!(format_response_for_human(&resp_err("boom")), "(错误) boom");
    assert_eq!(format_response_for_human(&resp_notfound()), "(提示) 键不存在");
    assert_eq!(format_response_for_human(&resp_pong()), "PONG");
    let keys = vec!["a".to_string(), "b".to_string(), "c".to_string()];
    assert_eq!(
        format_response_for_human(&resp_keys(&keys)),
        "(成功) 共有以下键:\n  1. a\n  2. b\n  3. c\n"
    );
    assert_eq!(
        format_response_for_human(&resp_status(12, 3)),
        "=== 服务器状态 ===\n数据条数: 12\n活跃连接: 3"
    );
}

#[test]
fn render_other_lines() {
    assert_eq!(format_response_for_human("STATUS clients=2\n"), "=== 服务器状态 ===\n数据条数: ?\n活跃连接: 2");
    assert_eq!(format_response_for_human("OK"), "(成功) 操作成功");
    assert_eq!(format_response_for_human("NOTFOUND"), "(提示) 键不存在");
    assert_eq!(format_response_for_human("  hello  "), "hello");
    assert_eq!(format_response_for_human("HI there"), "(未知响应前缀: HI) there");
}

#[test]
fn parse_whitespace_and_case() {
    let (cmd, args) = parse_command("\tget\u{3000}key\u{a0}\n").unwrap();
    assert_eq!(cmd, "get");
    assert_eq!(args, vec!["key"]);
    assert_eq!(parse_command("\u{2003}").unwrap_err(), "空命令");
    assert_eq!(parse_command("PiNg").unwrap().0, "ping");
    assert_eq!(parse_command("Frob x").unwrap_err(), "未知命令: frob");
    assert_eq!(parse_command("setex k +5 v").unwrap().1, vec!["k", "+5", "v"]);
    assert_eq!(
        parse_command("setex k 99999999999999999999 v").unwrap_err(),
        "seconds 必须是正整数（秒），实际为 '99999999999999999999'"
    );
    assert_eq!(resp_status(0, 0), "STATUS keys=0 clients=0\n");
}
