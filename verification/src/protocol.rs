//! The line protocol between client and server: parsing a request line,
//! writing the reply lines, and rendering a reply for a person to read.
use crate::text;
use crate::text::{
    contains_char, join_strings, parse_u64, push_decimal, split_once_str, split_pieces, split_words,
    str_eq, to_lowercase, trim_string,
};
use vstd::prelude::*;

verus! {

// ---------------------------------------------------------------------------
// Requests
// ---------------------------------------------------------------------------

/// A parsed request as plain values: the command's name and its arguments,
/// or the message that rejects the line.
pub open spec fn parsed_view(r: Result<(&'static str, Vec<String>), String>) -> Result<
    (Seq<char>, Seq<Seq<char>>),
    Seq<char>,
> {
    match r {
        Ok((c, a)) => Ok((c@, text::strings_view(a@))),
        Err(e) => Err(e@),
    }
}

pub open spec fn seconds_error(arg: Seq<char>) -> Seq<char> {
    "seconds 必须是正整数（秒），实际为 '"@ + arg + "'"@
}

/// The outcome of a request whose command name (already lowercased) is
/// `cmd` and whose arguments are `args`.
pub open spec fn command_result(cmd: Seq<char>, args: Seq<Seq<char>>) -> Result<
    (Seq<char>, Seq<Seq<char>>),
    Seq<char>,
> {
    if cmd == "set"@ {
        if args.len() < 2 {
            Err("set 命令需要至少 2 个参数: set <key> <value>"@)
        } else if args[0].len() == 0 {
            Err("key 不能为空"@)
        } else {
            Ok(("set"@, args))
        }
    } else if cmd == "get"@ {
        if args.len() != 1 {
            Err("get 命令需要 1 个参数: get <key>"@)
        } else if args[0].len() == 0 {
            Err("key 不能为空"@)
        } else {
            Ok(("get"@, args))
        }
    } else if cmd == "del"@ {
        if args.len() != 1 {
            Err("del 命令需要 1 个参数: del <key>"@)
        } else if args[0].len() == 0 {
            Err("key 不能为空"@)
        } else {
            Ok(("del"@, args))
        }
    } else if cmd == "setex"@ {
        if args.len() < 3 {
            Err("setex 命令需要至少 3 个参数: setex <key> <seconds> <value>"@)
        } else if args[0].len() == 0 {
            Err("key 不能为空"@)
        } else if text::parse_uint(args[1], u64::MAX as nat) is None {
            Err(seconds_error(args[1]))
        } else {
            Ok(("setex"@, args))
        }
    } else if cmd == "expire"@ {
        if args.len() != 2 {
            Err("expire 命令需要 2 个参数: expire <key> <seconds>"@)
        } else if args[0].len() == 0 {
            Err("key 不能为空"@)
        } else if text::parse_uint(args[1], u64::MAX as nat) is None {
            Err(seconds_error(args[1]))
        } else {
            Ok(("expire"@, args))
        }
    } else if cmd == "ttl"@ {
        if args.len() != 1 {
            Err("ttl 命令需要 1 个参数: ttl <key>"@)
        } else if args[0].len() == 0 {
            Err("key 不能为空"@)
        } else {
            Ok(("ttl"@, args))
        }
    } else if cmd == "keys"@ {
        if args.len() != 0 {
            Err("keys 命令不需要参数"@)
        } else {
            Ok(("keys"@, seq![]))
        }
    } else if cmd == "clear"@ {
        if args.len() != 0 {
            Err("clear 命令不需要参数"@)
        } else {
            Ok(("clear"@, seq![]))
        }
    } else if cmd == "compact"@ {
        if args.len() != 0 {
            Err("compact 命令不需要参数"@)
        } else {
            Ok(("compact"@, seq![]))
        }
    } else if cmd == "status"@ {
        if args.len() != 0 {
            Err("status 命令不需要参数"@)
        } else {
            Ok(("status"@, seq![]))
        }
    } else if cmd == "ping"@ {
        if args.len() != 0 {
            Err("ping 命令不需要参数"@)
        } else {
            Ok(("ping"@, seq![]))
        }
    } else if cmd == "quit"@ {
        if args.len() != 0 {
            Err("quit 命令不需要参数"@)
        } else {
            Ok(("quit"@, seq![]))
        }
    } else {
        Err("未知命令: "@ + cmd)
    }
}

/// The outcome of parsing a request line: its whitespace-separated words,
/// the first one lowercased as the command's name, the rest its arguments.
pub open spec fn parse_command_spec(line: Seq<char>) -> Result<
    (Seq<char>, Seq<Seq<char>>),
    Seq<char>,
> {
    let w = text::words(line);
    if w.len() == 0 {
        Err("空命令"@)
    } else {
        command_result(text::lowercase(w[0]), w.skip(1))
    }
}

fn no_args(name: &'static str, args: Vec<String>, msg: &str) -> (r: Result<
    (&'static str, Vec<String>),
    String,
>)
    ensures
        parsed_view(r) == (if args@.len() != 0 {
            Err(msg@)
        } else {
            Ok((name@, Seq::<Seq<char>>::empty()))
        }),
{
    if args.len() != 0 {
        Err(msg.to_owned())
    } else {
        let v: Vec<String> = Vec::new();
        assert(text::strings_view(v@) =~= Seq::<Seq<char>>::empty());
        Ok((name, v))
    }
}

/// Checks a request whose command name is `cmd` (already lowercased) against
/// the arity and argument rules of that command.
pub fn classify_command(cmd: &str, args: Vec<String>) -> (r: Result<
    (&'static str, Vec<String>),
    String,
>)
    ensures
        parsed_view(r) == command_result(cmd@, text::strings_view(args@)),
{
    let ghost a = text::strings_view(args@);
    let n = args.len();
    assert(a.len() == n);
    if str_eq(cmd, "set") {
        if n < 2 {
            Err("set 命令需要至少 2 个参数: set <key> <value>".to_owned())
        } else if args[0].as_str().is_empty() {
            Err("key 不能为空".to_owned())
        } else {
            Ok(("set", args))
        }
    } else if str_eq(cmd, "get") {
        if n != 1 {
            Err("get 命令需要 1 个参数: get <key>".to_owned())
        } else if args[0].as_str().is_empty() {
            Err("key 不能为空".to_owned())
        } else {
            Ok(("get", args))
        }
    } else if str_eq(cmd, "del") {
        if n != 1 {
            Err("del 命令需要 1 个参数: del <key>".to_owned())
        } else if args[0].as_str().is_empty() {
            Err("key 不能为空".to_owned())
        } else {
            Ok(("del", args))
        }
    } else if str_eq(cmd, "setex") {
        if n < 3 {
            Err("setex 命令需要至少 3 个参数: setex <key> <seconds> <value>".to_owned())
        } else if args[0].as_str().is_empty() {
            Err("key 不能为空".to_owned())
        } else if parse_u64(args[1].as_str()).is_none() {
            let mut m = "seconds 必须是正整数（秒），实际为 '".to_owned();
            m.append(args[1].as_str());
            m.append("'");
            Err(m)
        } else {
            Ok(("setex", args))
        }
    } else if str_eq(cmd, "expire") {
        if n != 2 {
            Err("expire 命令需要 2 个参数: expire <key> <seconds>".to_owned())
        } else if args[0].as_str().is_empty() {
            Err("key 不能为空".to_owned())
        } else if parse_u64(args[1].as_str()).is_none() {
            let mut m = "seconds 必须是正整数（秒），实际为 '".to_owned();
            m.append(args[1].as_str());
            m.append("'");
            Err(m)
        } else {
            Ok(("expire", args))
        }
    } else if str_eq(cmd, "ttl") {
        if n != 1 {
            Err("ttl 命令需要 1 个参数: ttl <key>".to_owned())
        } else if args[0].as_str().is_empty() {
            Err("key 不能为空".to_owned())
        } else {
            Ok(("ttl", args))
        }
    } else if str_eq(cmd, "keys") {
        no_args("keys", args, "keys 命令不需要参数")
    } else if str_eq(cmd, "clear") {
        no_args("clear", args, "clear 命令不需要参数")
    } else if str_eq(cmd, "compact") {
        no_args("compact", args, "compact 命令不需要参数")
    } else if str_eq(cmd, "status") {
        no_args("status", args, "status 命令不需要参数")
    } else if str_eq(cmd, "ping") {
        no_args("ping", args, "ping 命令不需要参数")
    } else if str_eq(cmd, "quit") {
        no_args("quit", args, "quit 命令不需要参数")
    } else {
        let mut m = "未知命令: ".to_owned();
        m.append(cmd);
        Err(m)
    }
}

/// Parses a request line: `Ok` with the command's name and its arguments, or
/// `Err` with the message for the client.
pub fn parse_command(line: &str) -> (r: Result<(&'static str, Vec<String>), String>)
    ensures
        parsed_view(r) == parse_command_spec(line@),
{
    let mut parts = split_words(line);
    if parts.len() == 0 {
        return Err("空命令".to_owned());
    }
    let ghost w = text::strings_view(parts@);
    let first = parts.remove(0);
    assert(text::strings_view(parts@) =~= w.skip(1));
    let cmd = to_lowercase(first.as_str());
    classify_command(cmd.as_str(), parts)
}

// ---------------------------------------------------------------------------
// Replies
// ---------------------------------------------------------------------------

pub open spec fn opt_str_view(v: Option<&str>) -> Option<Seq<char>> {
    match v {
        Some(s) => Some(s@),
        None => None,
    }
}

pub open spec fn ok_reply(value: Option<Seq<char>>) -> Seq<char> {
    match value {
        Some(v) => "OK "@ + v + "\n"@,
        None => "OK\n"@,
    }
}

pub open spec fn err_reply(msg: Seq<char>) -> Seq<char> {
    "ERR "@ + msg + "\n"@
}

pub open spec fn status_reply(keys: nat, clients: nat) -> Seq<char> {
    "STATUS keys="@ + text::dec(keys) + " clients="@ + text::dec(clients) + "\n"@
}

pub open spec fn keys_reply(keys: Seq<Seq<char>>) -> Seq<char> {
    if keys.len() == 0 {
        "OK\n"@
    } else {
        "OK "@ + text::join(keys, ","@) + "\n"@
    }
}

/// `OK`, with the value after a space when there is one.
pub fn resp_ok(value: Option<&str>) -> (r: String)
    ensures
        r@ == ok_reply(opt_str_view(value)),
{
    match value {
        Some(v) => {
            let mut r = "OK ".to_owned();
            r.append(v);
            r.append("\n");
            r
        },
        None => "OK\n".to_owned(),
    }
}

pub fn resp_notfound() -> (r: String)
    ensures
        r@ == "NOTFOUND\n"@,
{
    "NOTFOUND\n".to_owned()
}

pub fn resp_err(msg: &str) -> (r: String)
    ensures
        r@ == err_reply(msg@),
{
    let mut r = "ERR ".to_owned();
    r.append(msg);
    r.append("\n");
    r
}

pub fn resp_pong() -> (r: String)
    ensures
        r@ == "PONG\n"@,
{
    "PONG\n".to_owned()
}

pub fn resp_status(keys: usize, clients: usize) -> (r: String)
    ensures
        r@ == status_reply(keys as nat, clients as nat),
{
    let mut r = "STATUS keys=".to_owned();
    push_decimal(&mut r, keys as u64);
    r.append(" clients=");
    push_decimal(&mut r, clients as u64);
    r.append("\n");
    r
}

/// `OK` followed by the keys joined with commas.
pub fn resp_keys(keys: &[String]) -> (r: String)
    ensures
        r@ == keys_reply(text::strings_view(keys@)),
{
    if keys.len() == 0 {
        return "OK\n".to_owned();
    }
    let mut r = "OK ".to_owned();
    let j = join_strings(keys, 0, ",");
    assert(keys@.skip(0) =~= keys@);
    r.append(j.as_str());
    r.append("\n");
    r
}

// ---------------------------------------------------------------------------
// Rendering a reply for a person
// ---------------------------------------------------------------------------

/// The keys of an `OK a,b,c` reply, one numbered line each.
pub open spec fn numbered_lines(keys: Seq<Seq<char>>) -> Seq<char>
    decreases keys.len(),
{
    if keys.len() == 0 {
        seq![]
    } else {
        numbered_lines(keys.drop_last()) + "  "@ + text::dec(keys.len()) + ". "@ + keys.last()
            + "\n"@
    }
}

/// The value of the last `name=value` among `parts`.
pub open spec fn last_field(parts: Seq<Seq<char>>, name: Seq<char>) -> Option<Seq<char>>
    decreases parts.len(),
{
    if parts.len() == 0 {
        None
    } else {
        match text::split_once(parts.last(), '=') {
            Some((k, v)) => if k == name {
                Some(v)
            } else {
                last_field(parts.drop_last(), name)
            },
            None => last_field(parts.drop_last(), name),
        }
    }
}

pub open spec fn field_or_unknown(parts: Seq<Seq<char>>, name: Seq<char>) -> Seq<char> {
    match last_field(parts, name) {
        Some(v) => v,
        None => "?"@,
    }
}

pub open spec fn status_text(rest: Seq<char>) -> Seq<char> {
    let parts = text::words(rest);
    "=== 服务器状态 ===\n数据条数: "@ + field_or_unknown(parts, "keys"@) + "\n活跃连接: "@
        + field_or_unknown(parts, "clients"@)
}

/// What the client shows for a reply line.
pub open spec fn human_text(line: Seq<char>) -> Seq<char> {
    let t = text::trim(line);
    if t.len() == 0 {
        "(提示) 收到空响应"@
    } else {
        match text::split_once(t, ' ') {
            Some((prefix, rest)) => {
                if prefix == "OK"@ {
                    if rest.len() == 0 {
                        "(成功) 操作成功"@
                    } else if rest.contains(',') {
                        "(成功) 共有以下键:\n"@ + numbered_lines(text::split_on(rest, ','))
                    } else {
                        "(成功) "@ + rest
                    }
                } else if prefix == "NOTFOUND"@ {
                    "(提示) 键不存在"@
                } else if prefix == "ERR"@ {
                    "(错误) "@ + rest
                } else if prefix == "PONG"@ {
                    "PONG"@
                } else if prefix == "STATUS"@ {
                    status_text(rest)
                } else {
                    "(未知响应前缀: "@ + prefix + ") "@ + rest
                }
            },
            None => {
                if t == "OK"@ {
                    "(成功) 操作成功"@
                } else if t == "NOTFOUND"@ {
                    "(提示) 键不存在"@
                } else {
                    t
                }
            },
        }
    }
}

fn keys_listing(rest: &str) -> (r: String)
    ensures
        r@ == "(成功) 共有以下键:\n"@ + numbered_lines(text::split_on(rest@, ',')),
{
    let keys = split_pieces(rest, ',');
    let ghost ks = text::split_on(rest@, ',');
    let mut out = "(成功) 共有以下键:\n".to_owned();
    let mut i: usize = 0;
    while i < keys.len()
        invariant
            i <= keys@.len(),
            text::strings_view(keys@) == ks,
            out@ == "(成功) 共有以下键:\n"@ + numbered_lines(ks.take(i as int)),
        decreases keys.len() - i,
    {
        assert(ks.take(i + 1).drop_last() =~= ks.take(i as int));
        assert(ks.take(i + 1).last() == keys@[i as int]@);
        out.append("  ");
        push_decimal(&mut out, (i + 1) as u64);
        out.append(". ");
        out.append(keys[i].as_str());
        out.append("\n");
        i = i + 1;
        assert(out@ =~= "(成功) 共有以下键:\n"@ + numbered_lines(ks.take(i as int)));
    }
    assert(ks.take(i as int) =~= ks);
    out
}

fn status_listing(rest: &str) -> (r: String)
    ensures
        r@ == status_text(rest@),
{
    let parts = split_words(rest);
    let ghost ps = text::words(rest@);
    let mut keys_count: Option<String> = None;
    let mut clients_count: Option<String> = None;
    let mut i: usize = 0;
    while i < parts.len()
        invariant
            i <= parts@.len(),
            text::strings_view(parts@) == ps,
            match keys_count {
                Some(v) => last_field(ps.take(i as int), "keys"@) == Some(v@),
                None => last_field(ps.take(i as int), "keys"@) is None,
            },
            match clients_count {
                Some(v) => last_field(ps.take(i as int), "clients"@) == Some(v@),
                None => last_field(ps.take(i as int), "clients"@) is None,
            },
        decreases parts.len() - i,
    {
        assert(ps.take(i + 1).drop_last() =~= ps.take(i as int));
        assert(ps.take(i + 1).last() == parts@[i as int]@);
        match split_once_str(parts[i].as_str(), '=') {
            Some((k, v)) => {
                if str_eq(k.as_str(), "keys") {
                    proof {
                        reveal_strlit("keys");
                        reveal_strlit("clients");
                        assert("keys"@.len() != "clients"@.len());
                    }
                    keys_count = Some(v);
                } else if str_eq(k.as_str(), "clients") {
                    clients_count = Some(v);
                }
            },
            None => {},
        }
        i = i + 1;
    }
    assert(ps.take(i as int) =~= ps);
    let mut out = "=== 服务器状态 ===\n数据条数: ".to_owned();
    match &keys_count {
        Some(v) => out.append(v.as_str()),
        None => out.append("?"),
    }
    out.append("\n活跃连接: ");
    match &clients_count {
        Some(v) => out.append(v.as_str()),
        None => out.append("?"),
    }
    out
}

/// Renders a reply line for a person to read.
pub fn format_response_for_human(line: &str) -> (r: String)
    ensures
        r@ == human_text(line@),
{
    let t = trim_string(line);
    if t.as_str().is_empty() {
        return "(提示) 收到空响应".to_owned();
    }
    match split_once_str(t.as_str(), ' ') {
        Some((prefix, rest)) => {
            if str_eq(prefix.as_str(), "OK") {
                if rest.as_str().is_empty() {
                    "(成功) 操作成功".to_owned()
                } else if contains_char(rest.as_str(), ',') {
                    keys_listing(rest.as_str())
                } else {
                    let mut r = "(成功) ".to_owned();
                    r.append(rest.as_str());
                    r
                }
            } else if str_eq(prefix.as_str(), "NOTFOUND") {
                "(提示) 键不存在".to_owned()
            } else if str_eq(prefix.as_str(), "ERR") {
                let mut r = "(错误) ".to_owned();
                r.append(rest.as_str());
                r
            } else if str_eq(prefix.as_str(), "PONG") {
                "PONG".to_owned()
            } else if str_eq(prefix.as_str(), "STATUS") {
                status_listing(rest.as_str())
            } else {
                let mut r = "(未知响应前缀: ".to_owned();
                r.append(prefix.as_str());
                r.append(") ");
                r.append(rest.as_str());
                r
            }
        },
        None => {
            if str_eq(t.as_str(), "OK") {
                "(成功) 操作成功".to_owned()
            } else if str_eq(t.as_str(), "NOTFOUND") {
                "(提示) 键不存在".to_owned()
            } else {
                t
            }
        },
    }
}

// ---------------------------------------------------------------------------
// Laws
// ---------------------------------------------------------------------------

proof fn lemma_trim_line(x: Seq<char>)
    requires
        x.len() > 0,
        !text::is_ws(x[0]),
        !text::is_ws(x.last()),
    ensures
        text::trim(x + "\n"@) == x,
{
    reveal_strlit("\n");
    let y = x + "\n"@;
    assert(y.last() == '\n');
    assert(y.drop_last() =~= x);
    assert(text::trim_end(y) == text::trim_end(x));
}

proof fn lemma_no_char(s: Seq<char>, c: char)
    requires
        forall|i: int| 0 <= i < s.len() ==> s[i] != c,
    ensures
        !s.contains(c),
{
}

proof fn lemma_join_split(ks: Seq<Seq<char>>)
    requires
        ks.len() > 0,
        forall|i: int| 0 <= i < ks.len() ==> !(#[trigger] ks[i]).contains(','),
    ensures
        text::split_on(text::join(ks, ","@), ',') == ks,
    decreases ks.len(),
{
    reveal_strlit(",");
    if ks.len() == 1 {
        text::lemma_split_state_append(Seq::<char>::empty(), ks[0], ',');
        assert(Seq::<char>::empty() + ks[0] =~= ks[0]);
        assert(Seq::<Seq<char>>::empty().push(ks[0]) =~= ks);
    } else {
        let ks0 = ks.drop_last();
        assert forall|i: int| 0 <= i < ks0.len() implies !(#[trigger] ks0[i]).contains(',') by {
            assert(ks0[i] == ks[i]);
        }
        lemma_join_split(ks0);
        let a = text::join(ks0, ","@);
        let b = ks.last();
        assert(!b.contains(',')) by {
            assert(ks[ks.len() - 1] == b);
        }
        let ac = a + seq![','];
        assert(text::join(ks, ","@) =~= ac + b);
        text::lemma_split_state_append(ac, b, ',');
        assert(ac.drop_last() =~= a);
        assert(Seq::<char>::empty() + b =~= b);
        assert(ks0.push(b) =~= ks);
    }
}

proof fn lemma_join_has_comma(ks: Seq<Seq<char>>)
    requires
        ks.len() >= 2,
    ensures
        text::join(ks, ","@).contains(','),
{
    reveal_strlit(",");
    let a = text::join(ks.drop_last(), ","@);
    assert(text::join(ks, ","@)[a.len() as int] == ',');
}

/// The client shows a value the server sends back as it is, when it holds
/// no comma and does not end in whitespace.
pub proof fn law_render_value(v: Seq<char>)
    requires
        v.len() > 0,
        !v.contains(','),
        !text::is_ws(v.last()),
    ensures
        human_text(ok_reply(Some(v))) == "(成功) "@ + v,
{
    reveal_strlit("OK ");
    reveal_strlit("OK");
    let x = "OK"@ + seq![' '] + v;
    assert(ok_reply(Some(v)) =~= x + "\n"@);
    assert(x[0] == 'O');
    assert(x.last() == v.last());
    lemma_trim_line(x);
    lemma_no_char("OK"@, ' ');
    text::lemma_split_once_concat("OK"@, v, ' ');
}

/// The client shows the message of an error reply, when the message does
/// not end in whitespace.
pub proof fn law_render_error(msg: Seq<char>)
    requires
        msg.len() > 0,
        !text::is_ws(msg.last()),
    ensures
        human_text(err_reply(msg)) == "(错误) "@ + msg,
{
    reveal_strlit("ERR ");
    reveal_strlit("ERR");
    reveal_strlit("OK");
    reveal_strlit("NOTFOUND");
    let x = "ERR"@ + seq![' '] + msg;
    assert(err_reply(msg) =~= x + "\n"@);
    assert(x[0] == 'E');
    assert(x.last() == msg.last());
    lemma_trim_line(x);
    lemma_no_char("ERR"@, ' ');
    text::lemma_split_once_concat("ERR"@, msg, ' ');
    assert("ERR"@.len() != "OK"@.len());
    assert("ERR"@.len() != "NOTFOUND"@.len());
}

/// The client lists, numbered and in order, the keys that a `keys` reply
/// holds, when there are two or more of them, none holds a comma, and the
/// last does not end in whitespace.
pub proof fn law_render_keys(ks: Seq<Seq<char>>)
    requires
        ks.len() >= 2,
        forall|i: int| 0 <= i < ks.len() ==> !(#[trigger] ks[i]).contains(','),
        ks.last().len() == 0 || !text::is_ws(ks.last().last()),
    ensures
        human_text(keys_reply(ks)) == "(成功) 共有以下键:\n"@ + numbered_lines(ks),
{
    reveal_strlit("OK ");
    reveal_strlit("OK");
    reveal_strlit(",");
    let j = text::join(ks, ","@);
    let a = text::join(ks.drop_last(), ","@);
    assert(j =~= a + seq![','] + ks.last());
    let x = "OK"@ + seq![' '] + j;
    assert(keys_reply(ks) =~= x + "\n"@);
    assert(x[0] == 'O');
    if ks.last().len() == 0 {
        assert(x.last() == ',');
    } else {
        assert(x.last() == ks.last().last());
    }
    lemma_trim_line(x);
    lemma_no_char("OK"@, ' ');
    text::lemma_split_once_concat("OK"@, j, ' ');
    lemma_join_has_comma(ks);
    lemma_join_split(ks);
    assert(j.len() > 0);
}

/// The client shows the counts that a `status` reply carries.
pub proof fn law_render_status(keys: nat, clients: nat)
    ensures
        human_text(status_reply(keys, clients)) == "=== 服务器状态 ===\n数据条数: "@ + text::dec(keys)
            + "\n活跃连接: "@ + text::dec(clients),
{
    reveal_strlit("STATUS keys=");
    reveal_strlit(" clients=");
    reveal_strlit("STATUS");
    reveal_strlit("keys=");
    reveal_strlit("clients=");
    reveal_strlit("keys");
    reveal_strlit("clients");
    reveal_strlit("OK");
    reveal_strlit("NOTFOUND");
    reveal_strlit("ERR");
    reveal_strlit("PONG");
    let dk = text::dec(keys);
    let dc = text::dec(clients);
    text::lemma_dec(keys);
    text::lemma_dec(clients);
    text::lemma_parse_dec(clients, clients);
    let w1 = "keys"@ + seq!['='] + dk;
    let w2 = "clients"@ + seq!['='] + dc;
    let rest = w1 + seq![' '] + w2;
    let x = "STATUS"@ + seq![' '] + rest;
    assert(status_reply(keys, clients) =~= x + "\n"@);
    assert(x[0] == 'S');
    assert(x.last() == dc.last());
    lemma_trim_line(x);
    lemma_no_char("STATUS"@, ' ');
    text::lemma_split_once_concat("STATUS"@, rest, ' ');
    assert("STATUS"@.len() != "OK"@.len());
    assert("STATUS"@.len() != "NOTFOUND"@.len());
    assert("STATUS"@.len() != "ERR"@.len());
    assert("STATUS"@.len() != "PONG"@.len());
    assert forall|i: int| 0 <= i < w1.len() implies !text::is_ws(#[trigger] w1[i]) by {
        if i >= 5 {
            assert(w1[i] == dk[i - 5]);
            assert(text::is_digit(dk[i - 5]));
        }
    }
    assert forall|i: int| 0 <= i < w2.len() implies !text::is_ws(#[trigger] w2[i]) by {
        if i >= 8 {
            assert(w2[i] == dc[i - 8]);
            assert(text::is_digit(dc[i - 8]));
        }
    }
    text::lemma_words_two(w1, w2);
    let parts = text::words(rest);
    lemma_no_char("keys"@, '=');
    lemma_no_char("clients"@, '=');
    text::lemma_split_once_concat("keys"@, dk, '=');
    text::lemma_split_once_concat("clients"@, dc, '=');
    assert(parts.last() == w2);
    assert(parts.drop_last() =~= seq![w1]);
    assert(seq![w1].last() == w1);
    assert(seq![w1].drop_last() =~= Seq::<Seq<char>>::empty());
    assert("clients"@.len() != "keys"@.len());
    assert(text::split_once(w2, '=') == Some(("clients"@, dc)));
    assert(text::split_once(w1, '=') == Some(("keys"@, dk)));
    assert("clients"@ != "keys"@);
    assert(last_field(seq![w1], "keys"@) == Some(dk));
    assert(last_field(parts, "keys"@) == last_field(seq![w1], "keys"@));
    assert(last_field(parts, "clients"@) == Some(dc));
}

/// Which command a name is, told apart by its text.
proof fn lemma_command_names()
    ensures
        "get"@ != "del"@ && "get"@ != "ttl"@ && "del"@ != "ttl"@,
        "set"@ != "get"@ && "set"@ != "del"@ && "set"@ != "ttl"@ && "set"@ != "setex"@ && "set"@
            != "expire"@,
        "setex"@ != "get"@ && "setex"@ != "del"@ && "setex"@ != "ttl"@ && "setex"@ != "expire"@,
        "expire"@ != "get"@ && "expire"@ != "del"@ && "expire"@ != "ttl"@,
{
    reveal_strlit("set");
    reveal_strlit("get");
    reveal_strlit("del");
    reveal_strlit("setex");
    reveal_strlit("expire");
    reveal_strlit("ttl");
    assert("get"@[0] != "del"@[0]);
    assert("get"@[0] != "ttl"@[0]);
    assert("del"@[0] != "ttl"@[0]);
    assert("set"@[0] != "get"@[0]);
    assert("set"@[0] != "del"@[0]);
    assert("set"@[0] != "ttl"@[0]);
    assert("set"@.len() != "setex"@.len());
    assert("set"@[0] != "expire"@[0]);
    assert("setex"@.len() != "get"@.len());
    assert("setex"@.len() != "del"@.len());
    assert("setex"@.len() != "ttl"@.len());
    assert("setex"@.len() != "expire"@.len());
    assert("expire"@.len() != "get"@.len());
    assert("expire"@.len() != "del"@.len());
    assert("expire"@.len() != "ttl"@.len());
}

/// A request is accepted only with the number of arguments its command
/// takes, and they are handed on as they came: exactly one for `get`, `del`
/// and `ttl`, exactly two for `expire`, at least two for `set`, at least
/// three for `setex`. The accepted name is the command it was given as.
pub proof fn law_command_arity(cmd: Seq<char>, args: Seq<Seq<char>>)
    ensures
        command_result(cmd, args) matches Ok((c, a)) ==> {
            &&& c == cmd
            &&& (c == "get"@ || c == "del"@ || c == "ttl"@) ==> args.len() == 1 && a == args
            &&& c == "expire"@ ==> args.len() == 2 && a == args
            &&& c == "set"@ ==> args.len() >= 2 && a == args
            &&& c == "setex"@ ==> args.len() >= 3 && a == args
        },
        (cmd == "get"@ || cmd == "del"@ || cmd == "ttl"@) && args.len() != 1 ==> command_result(
            cmd,
            args,
        ) is Err,
        cmd == "expire"@ && args.len() != 2 ==> command_result(cmd, args) is Err,
{
    lemma_command_names();
}

/// A request line is accepted only with as many words as its command takes:
/// a `get`, `del` or `ttl` line has exactly two words, an `expire` line
/// three; the arguments are the words after the first.
pub proof fn law_line_arity(line: Seq<char>)
    ensures
        parse_command_spec(line) matches Ok((c, a)) ==> {
            &&& (c == "get"@ || c == "del"@ || c == "ttl"@) ==> text::words(line).len() == 2 && a
                == text::words(line).skip(1)
            &&& c == "expire"@ ==> text::words(line).len() == 3 && a == text::words(line).skip(1)
            &&& c == "set"@ ==> text::words(line).len() >= 3 && a == text::words(line).skip(1)
            &&& c == "setex"@ ==> text::words(line).len() >= 4 && a == text::words(line).skip(1)
        },
{
    let w = text::words(line);
    if w.len() > 0 {
        law_command_arity(text::lowercase(w[0]), w.skip(1));
    }
}

} // verus!
