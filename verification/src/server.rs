//! The server's decisions: what each request line does to the store, what
//! must reach the log first, and what is answered. The caller does the
//! reading, the writing and the waiting.
use crate::log;
use crate::log::{EntryModel, LogRecord, RecordModel};
use crate::protocol;
use crate::protocol::{parse_command, resp_err, resp_keys, resp_notfound, resp_ok, resp_pong, resp_status};
use crate::storage;
use crate::storage::{validate_key, KvStore};
use crate::text;
use crate::text::{join_strings, parse_u64, push_decimal, push_signed_decimal, str_eq};
use vstd::prelude::*;

verus! {

/// What the server does next for a request.
#[derive(Debug)]
pub enum Step {
    /// Send `0` back; the log and the store are as they were (but for
    /// expired values dropped on the way).
    Reply(String),
    /// Append `record` to the log; once it is written, commit it to the store
    /// and send `reply`. When writing fails, answer with the failure instead.
    Persist { record: LogRecord, reply: String },
    /// Truncate the log, then clear the store and answer with `clear_reply`.
    Clear,
    /// Rewrite the log from `KvStore::compact`, then answer with `compact_reply`.
    Compact,
}

pub enum StepModel {
    Reply(Seq<char>),
    Persist { record: RecordModel, reply: Seq<char> },
    Clear,
    Compact,
}

impl View for Step {
    type V = StepModel;

    open spec fn view(&self) -> StepModel {
        match self {
            Step::Reply(s) => StepModel::Reply(s@),
            Step::Persist { record, reply } => StepModel::Persist { record: record@, reply: reply@ },
            Step::Clear => StepModel::Clear,
            Step::Compact => StepModel::Compact,
        }
    }
}

pub open spec fn expiry_reply(secs: nat) -> Seq<char> {
    protocol::ok_reply(Some("已设置，"@ + text::dec(secs) + " 秒后过期"@))
}

/// The seconds argument of a `setex` or `expire` request.
pub open spec fn secs_arg(args: Seq<Seq<char>>) -> nat {
    match text::parse_uint(args[1], u64::MAX as nat) {
        Some(n) => n,
        None => 0,
    }
}

/// The contents once an expired value of `k`, if any, is dropped.
pub open spec fn evict(m: Map<Seq<char>, EntryModel>, k: Seq<char>, now: u64) -> Map<
    Seq<char>,
    EntryModel,
> {
    if m.contains_key(k) && !m[k].alive(now) {
        m.remove(k)
    } else {
        m
    }
}

/// A `setex` or `expire` whose expiry time does not fit in a `u64`, where
/// the store's arithmetic would overflow.
pub open spec fn command_overflows(
    cmd: Seq<char>,
    args: Seq<Seq<char>>,
    m: Map<Seq<char>, EntryModel>,
    now: u64,
) -> bool {
    if cmd == "setex"@ {
        storage::key_error(args[0]) is None && now + secs_arg(args) * 1000 > u64::MAX
    } else if cmd == "expire"@ {
        &&& storage::key_error(args[0]) is None
        &&& storage::is_live(m, args[0], now)
        &&& now + secs_arg(args) * 1000 > u64::MAX
    } else {
        false
    }
}

/// A request line whose command overflows.
pub open spec fn request_overflows(line: Seq<char>, m: Map<Seq<char>, EntryModel>, now: u64) -> bool {
    match protocol::parse_command_spec(line) {
        Ok((cmd, args)) => command_overflows(cmd, args, m, now),
        Err(_) => false,
    }
}

/// What the command `cmd` with the arguments `args` does: the next step, and
/// the contents of the store once the step is taken (before any record is
/// committed).
pub open spec fn command_step(
    cmd: Seq<char>,
    args: Seq<Seq<char>>,
    m: Map<Seq<char>, EntryModel>,
    now: u64,
    clients: nat,
) -> (StepModel, Map<Seq<char>, EntryModel>) {
    if cmd == "set"@ {
        match storage::key_error(args[0]) {
            Some(e) => (StepModel::Reply(protocol::err_reply(e)), m),
            None => (
                StepModel::Persist {
                    record: RecordModel::Put {
                        key: args[0],
                        value: text::join(args.skip(1), " "@),
                    },
                    reply: protocol::ok_reply(None),
                },
                m,
            ),
        }
    } else if cmd == "get"@ {
        (
            if storage::is_live(m, args[0], now) {
                StepModel::Reply(protocol::ok_reply(Some(m[args[0]].value)))
            } else {
                StepModel::Reply("NOTFOUND\n"@)
            },
            evict(m, args[0], now),
        )
    } else if cmd == "del"@ {
        match storage::key_error(args[0]) {
            Some(e) => (StepModel::Reply(protocol::err_reply(e)), m),
            None => if storage::is_live(m, args[0], now) {
                (
                    StepModel::Persist {
                        record: RecordModel::Del { key: args[0] },
                        reply: protocol::ok_reply(None),
                    },
                    m,
                )
            } else {
                (StepModel::Reply("NOTFOUND\n"@), m)
            },
        }
    } else if cmd == "setex"@ {
        match storage::key_error(args[0]) {
            Some(e) => (StepModel::Reply(protocol::err_reply(e)), m),
            None => (
                StepModel::Persist {
                    record: RecordModel::PutEx {
                        key: args[0],
                        value: text::join(args.skip(2), " "@),
                        expire_at: (now + secs_arg(args) * 1000) as u64,
                    },
                    reply: expiry_reply(secs_arg(args)),
                },
                m,
            ),
        }
    } else if cmd == "expire"@ {
        match storage::key_error(args[0]) {
            Some(e) => (StepModel::Reply(protocol::err_reply(e)), m),
            None => if storage::is_live(m, args[0], now) {
                (
                    StepModel::Persist {
                        record: RecordModel::Expire {
                            key: args[0],
                            expire_at: (now + secs_arg(args) * 1000) as u64,
                        },
                        reply: expiry_reply(secs_arg(args)),
                    },
                    m,
                )
            } else {
                (StepModel::Reply("NOTFOUND\n"@), m)
            },
        }
    } else if cmd == "ttl"@ {
        (
            StepModel::Reply(
                protocol::ok_reply(Some(text::dec_signed(storage::ttl_of(m, args[0], now)))),
            ),
            m,
        )
    } else if cmd == "keys"@ {
        (StepModel::Reply(protocol::keys_reply(storage::sorted_live_keys(m, now))), m)
    } else if cmd == "clear"@ {
        (StepModel::Clear, m)
    } else if cmd == "compact"@ {
        (StepModel::Compact, m)
    } else if cmd == "status"@ {
        (
            StepModel::Reply(
                protocol::status_reply(storage::live_set(m, now).len(), clients),
            ),
            m,
        )
    } else if cmd == "ping"@ {
        (StepModel::Reply("PONG\n"@), m)
    } else if cmd == "quit"@ {
        (StepModel::Reply(protocol::ok_reply(Some("再见"@))), m)
    } else {
        (StepModel::Reply(protocol::err_reply("未知命令: "@ + cmd)), m)
    }
}

/// What a request line does: the next step, and the contents of the store
/// once the step is taken (before any record is committed).
pub open spec fn step_for(
    line: Seq<char>,
    m: Map<Seq<char>, EntryModel>,
    now: u64,
    clients: nat,
) -> (StepModel, Map<Seq<char>, EntryModel>) {
    match protocol::parse_command_spec(line) {
        Err(msg) => (StepModel::Reply(protocol::err_reply(msg)), m),
        Ok((cmd, args)) => command_step(cmd, args, m, now, clients),
    }
}

/// The arguments that a command reads: a key for those that take one, and
/// a number of seconds after it for `setex` and `expire`.
pub open spec fn command_args_fit(cmd: Seq<char>, args: Seq<Seq<char>>) -> bool {
    &&& (cmd == "set"@ || cmd == "get"@ || cmd == "del"@ || cmd == "ttl"@) ==> args.len() >= 1
    &&& (cmd == "setex"@ || cmd == "expire"@) ==> args.len() >= 2 && text::parse_uint(
        args[1],
        u64::MAX as nat,
    ) is Some
}

pub open spec fn command_shape(c: Seq<char>, a: Seq<Seq<char>>) -> bool {
    &&& c == "set"@ ==> a.len() >= 2
    &&& c == "get"@ ==> a.len() == 1
    &&& c == "del"@ ==> a.len() == 1
    &&& c == "setex"@ ==> a.len() >= 3 && text::parse_uint(a[1], u64::MAX as nat) is Some
    &&& c == "expire"@ ==> a.len() == 2 && text::parse_uint(a[1], u64::MAX as nat) is Some
    &&& c == "ttl"@ ==> a.len() == 1
    &&& c == "set"@ || c == "get"@ || c == "del"@ || c == "setex"@ || c == "expire"@ || c == "ttl"@
        || c == "keys"@ || c == "clear"@ || c == "compact"@ || c == "status"@ || c == "ping"@ || c
        == "quit"@
}

proof fn lemma_names_distinct()
    ensures
        "set"@ != "get"@,
        "set"@ != "del"@,
        "set"@ != "setex"@,
        "set"@ != "expire"@,
        "set"@ != "ttl"@,
        "get"@ != "del"@,
        "get"@ != "setex"@,
        "get"@ != "expire"@,
        "get"@ != "ttl"@,
        "del"@ != "setex"@,
        "del"@ != "expire"@,
        "del"@ != "ttl"@,
        "setex"@ != "expire"@,
        "setex"@ != "ttl"@,
        "expire"@ != "ttl"@,
        "keys"@ != "set"@ && "keys"@ != "get"@ && "keys"@ != "del"@ && "keys"@ != "setex"@
            && "keys"@ != "expire"@ && "keys"@ != "ttl"@,
        "clear"@ != "set"@ && "clear"@ != "get"@ && "clear"@ != "del"@ && "clear"@ != "setex"@
            && "clear"@ != "expire"@ && "clear"@ != "ttl"@,
        "compact"@ != "set"@ && "compact"@ != "get"@ && "compact"@ != "del"@ && "compact"@
            != "setex"@ && "compact"@ != "expire"@ && "compact"@ != "ttl"@,
        "status"@ != "set"@ && "status"@ != "get"@ && "status"@ != "del"@ && "status"@
            != "setex"@ && "status"@ != "expire"@ && "status"@ != "ttl"@,
        "ping"@ != "set"@ && "ping"@ != "get"@ && "ping"@ != "del"@ && "ping"@ != "setex"@
            && "ping"@ != "expire"@ && "ping"@ != "ttl"@,
        "quit"@ != "set"@ && "quit"@ != "get"@ && "quit"@ != "del"@ && "quit"@ != "setex"@
            && "quit"@ != "expire"@ && "quit"@ != "ttl"@,
{
    reveal_strlit("set");
    reveal_strlit("get");
    reveal_strlit("del");
    reveal_strlit("setex");
    reveal_strlit("expire");
    reveal_strlit("ttl");
    reveal_strlit("keys");
    reveal_strlit("clear");
    reveal_strlit("compact");
    reveal_strlit("status");
    reveal_strlit("ping");
    reveal_strlit("quit");
    assert("set"@[0] != "get"@[0]);
    assert("set"@[0] != "del"@[0]);
    assert("set"@.len() != "setex"@.len());
    assert("set"@[0] != "expire"@[0]);
    assert("set"@[0] != "ttl"@[0]);
    assert("get"@[0] != "del"@[0]);
    assert("get"@.len() != "setex"@.len());
    assert("get"@.len() != "expire"@.len());
    assert("get"@[0] != "ttl"@[0]);
    assert("del"@.len() != "setex"@.len());
    assert("del"@.len() != "expire"@.len());
    assert("del"@[0] != "ttl"@[0]);
    assert("setex"@.len() != "expire"@.len());
    assert("setex"@.len() != "ttl"@.len());
    assert("expire"@.len() != "ttl"@.len());
    assert("keys"@.len() != "set"@.len());
    assert("keys"@.len() != "get"@.len());
    assert("keys"@.len() != "del"@.len());
    assert("keys"@.len() != "setex"@.len());
    assert("keys"@.len() != "expire"@.len());
    assert("keys"@.len() != "ttl"@.len());
    assert("clear"@.len() != "set"@.len());
    assert("clear"@.len() != "get"@.len());
    assert("clear"@.len() != "del"@.len());
    assert("clear"@[0] != "setex"@[0]);
    assert("clear"@.len() != "expire"@.len());
    assert("clear"@.len() != "ttl"@.len());
    assert("compact"@.len() != "set"@.len());
    assert("compact"@.len() != "get"@.len());
    assert("compact"@.len() != "del"@.len());
    assert("compact"@.len() != "setex"@.len());
    assert("compact"@.len() != "expire"@.len());
    assert("compact"@.len() != "ttl"@.len());
    assert("status"@.len() != "set"@.len());
    assert("status"@.len() != "get"@.len());
    assert("status"@.len() != "del"@.len());
    assert("status"@.len() != "setex"@.len());
    assert("status"@[0] != "expire"@[0]);
    assert("status"@.len() != "ttl"@.len());
    assert("ping"@.len() != "set"@.len());
    assert("ping"@.len() != "get"@.len());
    assert("ping"@.len() != "del"@.len());
    assert("ping"@.len() != "setex"@.len());
    assert("ping"@.len() != "expire"@.len());
    assert("ping"@.len() != "ttl"@.len());
    assert("quit"@.len() != "set"@.len());
    assert("quit"@.len() != "get"@.len());
    assert("quit"@.len() != "del"@.len());
    assert("quit"@.len() != "setex"@.len());
    assert("quit"@.len() != "expire"@.len());
    assert("quit"@.len() != "ttl"@.len());
}

proof fn lemma_expiry_fits(now: u64, secs: u64)
    ensures
        (secs > (u64::MAX - now) / 1000) == (now + secs * 1000 > u64::MAX),
{
    let m = (u64::MAX - now) as int;
    let q = m / 1000;
    assert(q * 1000 <= m < q * 1000 + 1000) by (nonlinear_arith)
        requires
            q == m / 1000,
            m >= 0,
    ;
    if secs > q {
        assert(secs * 1000 >= (q + 1) * 1000) by (nonlinear_arith)
            requires
                secs >= q + 1,
        ;
    } else {
        assert(secs * 1000 <= q * 1000) by (nonlinear_arith)
            requires
                secs <= q,
                q >= 0,
        ;
    }
}

/// What `parse_command` accepts: one of the commands, with the arguments
/// that the command needs.
pub proof fn lemma_parsed_shape(line: Seq<char>)
    ensures
        match protocol::parse_command_spec(line) {
            Ok((c, a)) => command_shape(c, a),
            Err(_) => true,
        },
{
    lemma_names_distinct();
    let w = text::words(line);
    if w.len() > 0 {
        let cmd = text::lowercase(w[0]);
        let args = w.skip(1);
        if cmd == "set"@ {
        } else if cmd == "get"@ {
        } else if cmd == "del"@ {
        } else if cmd == "setex"@ {
        } else if cmd == "expire"@ {
        } else if cmd == "ttl"@ {
        } else {
        }
    }
}

/// The arguments of a parsed request are words of the line.
proof fn lemma_parsed_args_clean(line: Seq<char>)
    ensures
        match protocol::parse_command_spec(line) {
            Ok((c, a)) => forall|i: int| 0 <= i < a.len() ==> text::clean_word(#[trigger] a[i]),
            Err(_) => true,
        },
{
    let w = text::words(line);
    text::lemma_words_clean(line);
    if w.len() > 0 {
        let args = w.skip(1);
        assert forall|i: int| 0 <= i < args.len() implies text::clean_word(#[trigger] args[i]) by {
            assert(args[i] == w[i + 1]);
        }
    }
}

/// Every record that the server asks to write to the log stands for itself
/// faithfully there, so (by `log::law_log_roundtrip`) a log the server writes
/// reads back on restart as exactly the records it wrote.
pub proof fn law_persisted_records_are_faithful(
    line: Seq<char>,
    m: Map<Seq<char>, EntryModel>,
    now: u64,
    clients: nat,
)
    ensures
        step_for(line, m, now, clients).0 matches StepModel::Persist { record, .. }
            ==> log::record_faithful(record),
{
    lemma_parsed_shape(line);
    lemma_parsed_args_clean(line);
    lemma_names_distinct();
    match protocol::parse_command_spec(line) {
        Err(_) => {},
        Ok((c, a)) => {
            if a.len() > 0 {
                assert(text::clean_word(a[0]));
                text::lemma_clean_no_newline(a[0]);
            }
            if c == "set"@ {
                let vs = a.skip(1);
                assert forall|i: int| 0 <= i < vs.len() implies text::clean_word(#[trigger] vs[i]) by {
                    assert(vs[i] == a[i + 1]);
                }
                text::lemma_join_clean(vs);
            } else if c == "setex"@ {
                let vs = a.skip(2);
                assert forall|i: int| 0 <= i < vs.len() implies text::clean_word(#[trigger] vs[i]) by {
                    assert(vs[i] == a[i + 2]);
                }
                text::lemma_join_clean(vs);
            }
        },
    }
}

/// Carries out the command `cmd` with the arguments `args`. `None` for a
/// `setex` or `expire` whose expiry time would overflow, where the store's
/// arithmetic stops; otherwise the step to take, with `kv` as the step
/// leaves it.
pub fn run_command(cmd: &str, args: Vec<String>, kv: &mut KvStore, now: u64, clients: usize) -> (r:
    Option<Step>)
    requires
        old(kv).wf(),
        command_args_fit(cmd@, text::strings_view(args@)),
    ensures
        final(kv).wf(),
        match r {
            None => command_overflows(cmd@, text::strings_view(args@), old(kv)@, now) && final(kv)@
                == old(kv)@,
            Some(step) => !command_overflows(cmd@, text::strings_view(args@), old(kv)@, now) && (
            step@, final(kv)@) == command_step(
                cmd@,
                text::strings_view(args@),
                old(kv)@,
                now,
                clients as nat,
            ),
        },
{
    proof {
        lemma_names_distinct();
    }
    let ghost a = text::strings_view(args@);
    assert(a.len() == args@.len());
    if str_eq(cmd, "set") {
        let key = args[0].clone();
        let value = join_strings(args.as_slice(), 1, " ");
        assert(text::strings_view(args@.skip(1)) =~= a.skip(1));
        match kv.set(key, value) {
            Ok(rec) => Some(Step::Persist { record: rec, reply: resp_ok(None) }),
            Err(e) => Some(Step::Reply(resp_err(e.0.as_str()))),
        }
    } else if str_eq(cmd, "get") {
        match kv.get(args[0].as_str(), now) {
            Some(v) => Some(Step::Reply(resp_ok(Some(v.as_str())))),
            None => Some(Step::Reply(resp_notfound())),
        }
    } else if str_eq(cmd, "del") {
        match kv.del(args[0].as_str(), now) {
            Err(e) => Some(Step::Reply(resp_err(e.0.as_str()))),
            Ok(Some(rec)) => Some(Step::Persist { record: rec, reply: resp_ok(None) }),
            Ok(None) => Some(Step::Reply(resp_notfound())),
        }
    } else if str_eq(cmd, "setex") {
        let secs = match parse_u64(args[1].as_str()) {
            Some(n) => n,
            None => {
                assert(false);
                return None;
            },
        };
        assert(secs_arg(a) == secs);
        match validate_key(args[0].as_str()) {
            Err(e) => Some(Step::Reply(resp_err(e.0.as_str()))),
            Ok(()) => {
                proof {
                    lemma_expiry_fits(now, secs);
                }
                if secs > (u64::MAX - now) / 1000 {
                    return None;
                }
                let key = args[0].clone();
                let value = join_strings(args.as_slice(), 2, " ");
                assert(text::strings_view(args@.skip(2)) =~= a.skip(2));
                match kv.setex(key, secs, value, now) {
                    Ok(rec) => {
                        let mut m = "已设置，".to_owned();
                        push_decimal(&mut m, secs);
                        m.append(" 秒后过期");
                        Some(Step::Persist { record: rec, reply: resp_ok(Some(m.as_str())) })
                    },
                    Err(e) => Some(Step::Reply(resp_err(e.0.as_str()))),
                }
            },
        }
    } else if str_eq(cmd, "expire") {
        let secs = match parse_u64(args[1].as_str()) {
            Some(n) => n,
            None => {
                assert(false);
                return None;
            },
        };
        assert(secs_arg(a) == secs);
        match validate_key(args[0].as_str()) {
            Err(e) => Some(Step::Reply(resp_err(e.0.as_str()))),
            Ok(()) => {
                proof {
                    lemma_expiry_fits(now, secs);
                }
                if kv.is_live_key(args[0].as_str(), now) && secs > (u64::MAX - now) / 1000 {
                    return None;
                }
                match kv.expire(args[0].as_str(), secs, now) {
                    Ok(Some(rec)) => {
                        let mut m = "已设置，".to_owned();
                        push_decimal(&mut m, secs);
                        m.append(" 秒后过期");
                        Some(Step::Persist { record: rec, reply: resp_ok(Some(m.as_str())) })
                    },
                    Ok(None) => Some(Step::Reply(resp_notfound())),
                    Err(e) => Some(Step::Reply(resp_err(e.0.as_str()))),
                }
            },
        }
    } else if str_eq(cmd, "ttl") {
        let t = match kv.ttl(args[0].as_str(), now) {
            Some(t) => t,
            None => -2,
        };
        let mut s = String::new();
        push_signed_decimal(&mut s, t);
        Some(Step::Reply(resp_ok(Some(s.as_str()))))
    } else if str_eq(cmd, "keys") {
        let ks = kv.keys(now);
        Some(Step::Reply(resp_keys(ks.as_slice())))
    } else if str_eq(cmd, "clear") {
        Some(Step::Clear)
    } else if str_eq(cmd, "compact") {
        Some(Step::Compact)
    } else if str_eq(cmd, "status") {
        let n = kv.len(now);
        Some(Step::Reply(resp_status(n, clients)))
    } else if str_eq(cmd, "ping") {
        Some(Step::Reply(resp_pong()))
    } else if str_eq(cmd, "quit") {
        Some(Step::Reply(resp_ok(Some("再见"))))
    } else {
        let mut m = "未知命令: ".to_owned();
        m.append(cmd);
        Some(Step::Reply(resp_err(m.as_str())))
    }
}

/// Decides what a request line does. `None` for a `setex` or `expire` whose
/// expiry time would overflow, where the store's arithmetic stops; otherwise
/// the step to take, with `kv` as the step leaves it.
pub fn dispatch(line: &str, kv: &mut KvStore, now: u64, clients: usize) -> (r: Option<Step>)
    requires
        old(kv).wf(),
    ensures
        final(kv).wf(),
        match r {
            None => request_overflows(line@, old(kv)@, now) && final(kv)@ == old(kv)@,
            Some(step) => !request_overflows(line@, old(kv)@, now) && (step@, final(kv)@)
                == step_for(line@, old(kv)@, now, clients as nat),
        },
{
    proof {
        lemma_parsed_shape(line@);
    }
    match parse_command(line) {
        Err(msg) => Some(Step::Reply(resp_err(msg.as_str()))),
        Ok((cmd, args)) => run_command(cmd, args, kv, now, clients),
    }
}

// ---------------------------------------------------------------------------
// What the commands do, over all inputs
// ---------------------------------------------------------------------------

/// A value has not reached its expiry time (if it has one) at `now`.
pub open spec fn unexpired(e: EntryModel, now: u64) -> bool {
    match e.expire_at {
        None => true,
        Some(t) => now < t,
    }
}

proof fn lemma_other_names()
    ensures
        "keys"@ != "clear"@,
        "keys"@ != "compact"@,
        "status"@ != "keys"@,
        "status"@ != "clear"@,
        "status"@ != "compact"@,
{
    reveal_strlit("keys");
    reveal_strlit("clear");
    reveal_strlit("compact");
    reveal_strlit("status");
    assert("keys"@.len() != "clear"@.len());
    assert("keys"@.len() != "compact"@.len());
    assert("status"@.len() != "keys"@.len());
    assert("status"@.len() != "clear"@.len());
    assert("status"@.len() != "compact"@.len());
}

/// `keys` answers with exactly the keys whose values have not reached their
/// expiry time at `now`, each once and in increasing order: a key whose
/// expiry time is at or before `now` is never listed. The store is left as
/// it is.
pub proof fn law_keys_lists_unexpired_keys(
    args: Seq<Seq<char>>,
    m: Map<Seq<char>, EntryModel>,
    now: u64,
    clients: nat,
    listed: Seq<Seq<char>>,
)
    requires
        storage::strictly_sorted(listed),
        forall|k: Seq<char>| #[trigger]
            listed.contains(k) <==> (m.contains_key(k) && unexpired(m[k], now)),
    ensures
        command_step("keys"@, args, m, now, clients) == (
            StepModel::Reply(protocol::keys_reply(listed)),
            m,
        ),
{
    lemma_names_distinct();
    lemma_other_names();
    assert(storage::lists_live_keys(listed, m, now));
    let c = storage::sorted_live_keys(m, now);
    assert(storage::lists_live_keys(c, m, now));
    storage::lemma_sorted_unique(c, listed);
}

/// `status` counts exactly the keys whose values have not reached their
/// expiry time at `now`, and reports `clients` as it is given.
pub proof fn law_status_counts_unexpired_keys(
    args: Seq<Seq<char>>,
    m: Map<Seq<char>, EntryModel>,
    now: u64,
    clients: nat,
)
    ensures
        command_step("status"@, args, m, now, clients) == (
            StepModel::Reply(
                protocol::status_reply(
                    m.dom().filter(|k: Seq<char>| unexpired(m[k], now)).len(),
                    clients,
                ),
            ),
            m,
        ),
{
    lemma_names_distinct();
    lemma_other_names();
    assert(storage::live_set(m, now) =~= m.dom().filter(|k: Seq<char>| unexpired(m[k], now)));
}

/// `expire` writes a record only for a key whose value has not reached its
/// expiry time at `now`; for a valid key without one it answers `NOTFOUND`
/// and leaves the store as it is.
pub proof fn law_expire_needs_unexpired_value(
    args: Seq<Seq<char>>,
    m: Map<Seq<char>, EntryModel>,
    now: u64,
    clients: nat,
)
    requires
        args.len() >= 2,
    ensures
        command_step("expire"@, args, m, now, clients).0 is Persist ==> m.contains_key(args[0])
            && unexpired(m[args[0]], now),
        storage::key_error(args[0]) is None && !(m.contains_key(args[0]) && unexpired(
            m[args[0]],
            now,
        )) ==> command_step("expire"@, args, m, now, clients) == (
            StepModel::Reply("NOTFOUND\n"@),
            m,
        ),
{
    lemma_names_distinct();
}

/// `get` answers `OK` and the value of a key whose value has not reached its
/// expiry time at `now`, else `NOTFOUND`; an expired value is dropped from
/// the store on the way, and nothing else changes.
pub proof fn law_get_answers_unexpired_value(
    args: Seq<Seq<char>>,
    m: Map<Seq<char>, EntryModel>,
    now: u64,
    clients: nat,
)
    requires
        args.len() >= 1,
    ensures
        command_step("get"@, args, m, now, clients) == (
            if m.contains_key(args[0]) && unexpired(m[args[0]], now) {
                StepModel::Reply("OK "@ + m[args[0]].value + "\n"@)
            } else {
                StepModel::Reply("NOTFOUND\n"@)
            },
            if m.contains_key(args[0]) && !unexpired(m[args[0]], now) {
                m.remove(args[0])
            } else {
                m
            },
        ),
{
    lemma_names_distinct();
}

/// `del` of a valid key writes a deletion and answers `OK` only when the key
/// holds a value that has not reached its expiry time at `now`; otherwise it
/// answers `NOTFOUND`. A refused key is answered with its error. The store
/// is not changed before the record is committed.
pub proof fn law_del_removes_only_unexpired(
    args: Seq<Seq<char>>,
    m: Map<Seq<char>, EntryModel>,
    now: u64,
    clients: nat,
)
    requires
        args.len() >= 1,
    ensures
        command_step("del"@, args, m, now, clients) == (
            match storage::key_error(args[0]) {
                Some(e) => StepModel::Reply("ERR "@ + e + "\n"@),
                None => if m.contains_key(args[0]) && unexpired(m[args[0]], now) {
                    StepModel::Persist { record: RecordModel::Del { key: args[0] }, reply: "OK\n"@ }
                } else {
                    StepModel::Reply("NOTFOUND\n"@)
                },
            },
            m,
        ),
{
    lemma_names_distinct();
}

/// `set` of a valid key writes the words after the key, joined by single
/// spaces, as a value that never expires, and answers `OK`; once committed,
/// the key holds exactly that.
pub proof fn law_set_writes_permanent_value(
    args: Seq<Seq<char>>,
    m: Map<Seq<char>, EntryModel>,
    now: u64,
    clients: nat,
)
    requires
        args.len() >= 1,
        storage::key_error(args[0]) is None,
    ensures
        command_step("set"@, args, m, now, clients) matches (
            StepModel::Persist { record, reply },
            m2,
        ) && m2 == m && reply == "OK\n"@ && log::apply_record(m, record) == m.insert(
            args[0],
            EntryModel { value: text::join(args.skip(1), " "@), expire_at: None },
        ),
{
}

/// `setex` of a valid key writes the words after the seconds as a value
/// that expires `secs` seconds (in milliseconds, `secs * 1000`) after
/// `now`, and says so; once committed, the key holds exactly that.
pub proof fn law_setex_writes_expiring_value(
    args: Seq<Seq<char>>,
    m: Map<Seq<char>, EntryModel>,
    now: u64,
    clients: nat,
    secs: nat,
)
    requires
        args.len() >= 2,
        storage::key_error(args[0]) is None,
        text::parse_uint(args[1], u64::MAX as nat) == Some(secs),
        now + secs * 1000 <= u64::MAX,
    ensures
        command_step("setex"@, args, m, now, clients) matches (
            StepModel::Persist { record, reply },
            m2,
        ) && m2 == m && reply == "OK 已设置，"@ + text::dec(secs) + " 秒后过期\n"@
            && log::apply_record(m, record) == m.insert(
            args[0],
            EntryModel { value: text::join(args.skip(2), " "@), expire_at: Some((now + secs * 1000) as u64) },
        ),
{
    lemma_names_distinct();
    reveal_strlit("OK ");
    reveal_strlit("\n");
    assert(protocol::ok_reply(Some("已设置，"@ + text::dec(secs) + " 秒后过期"@)) =~= "OK 已设置，"@
        + text::dec(secs) + " 秒后过期\n"@) by {
        reveal_strlit("OK 已设置，");
        reveal_strlit("已设置，");
        reveal_strlit(" 秒后过期");
        reveal_strlit(" 秒后过期\n");
    }
}

/// `ttl` answers -2 for a key without a value that has not reached its
/// expiry time at `now`, -1 for a value that never expires, and otherwise
/// the milliseconds left rounded up to whole seconds.
pub proof fn law_ttl_answers_seconds_left(
    args: Seq<Seq<char>>,
    m: Map<Seq<char>, EntryModel>,
    now: u64,
    clients: nat,
)
    requires
        args.len() >= 1,
    ensures
        command_step("ttl"@, args, m, now, clients) == (
            StepModel::Reply(
                "OK "@ + text::dec_signed(
                    if !(m.contains_key(args[0]) && unexpired(m[args[0]], now)) {
                        -2
                    } else {
                        match m[args[0]].expire_at {
                            None => -1,
                            Some(t) => (t - now + 999) / 1000,
                        }
                    },
                ) + "\n"@,
            ),
            m,
        ),
{
    lemma_names_distinct();
    let k = args[0];
    if m.contains_key(k) && unexpired(m[k], now) {
        if let Some(t) = m[k].expire_at {
            let left = t - now;
            assert(left / 1000 + (if left % 1000 > 0 {
                1int
            } else {
                0int
            }) == (left + 999) / 1000) by (nonlinear_arith)
                requires
                    left > 0,
            ;
        }
    }
}

/// A value that has reached its expiry time never comes back: whatever
/// request arrives at `now`, the store after it, and the store once the
/// step's record is committed, hold no unexpired value for that key, unless
/// the record is a fresh write of that key.
pub proof fn law_expired_values_stay_gone(
    cmd: Seq<char>,
    args: Seq<Seq<char>>,
    m: Map<Seq<char>, EntryModel>,
    now: u64,
    clients: nat,
    k: Seq<char>,
)
    requires
        command_args_fit(cmd, args),
        m.contains_key(k),
        !unexpired(m[k], now),
    ensures
        !(command_step(cmd, args, m, now, clients).1.contains_key(k) && unexpired(
            command_step(cmd, args, m, now, clients).1[k],
            now,
        )),
        command_step(cmd, args, m, now, clients).0 matches StepModel::Persist { record, .. } ==> (
        log::apply_record(command_step(cmd, args, m, now, clients).1, record).contains_key(k)
            && unexpired(
            log::apply_record(command_step(cmd, args, m, now, clients).1, record)[k],
            now,
        ) ==> (record is Put || record is PutEx) && storage::record_key(record) == k),
{
    lemma_names_distinct();
    lemma_other_names();
}

/// The answer once `clear` has emptied the log and the store.
pub fn clear_reply(removed: usize) -> (r: String)
    ensures
        r@ == protocol::ok_reply(Some("已清空 "@ + text::dec(removed as nat) + " 条数据"@)),
{
    let mut m = "已清空 ".to_owned();
    push_decimal(&mut m, removed as u64);
    m.append(" 条数据");
    resp_ok(Some(m.as_str()))
}

/// The answer once `compact` has rewritten the log, with its sizes before
/// and after in bytes.
pub fn compact_reply(before: u64, after: u64) -> (r: String)
    ensures
        r@ == protocol::ok_reply(
            Some("日志压缩完成："@ + text::dec(before as nat) + "B → "@ + text::dec(after as nat) + "B"@),
        ),
{
    let mut m = "日志压缩完成：".to_owned();
    push_decimal(&mut m, before);
    m.append("B → ");
    push_decimal(&mut m, after);
    m.append("B");
    resp_ok(Some(m.as_str()))
}

// ---------------------------------------------------------------------------
// A connection
// ---------------------------------------------------------------------------

/// The command in a line as it arrived: the line without its trailing line
/// feeds and then carriage returns; `None` for a line that is then empty.
pub fn command_line(raw: &str) -> (r: Option<String>)
    ensures
        match r {
            Some(c) => c@ == text::strip_trailing(text::strip_trailing(raw@, '\n'), '\r') && c@.len()
                > 0,
            None => text::strip_trailing(text::strip_trailing(raw@, '\n'), '\r').len() == 0,
        },
{
    let a = text::strip_trailing_char(raw, '\n');
    let b = text::strip_trailing_char(a.as_str(), '\r');
    if b.as_str().is_empty() {
        None
    } else {
        Some(b)
    }
}

/// Whether the connection ends after this command: it is `quit` in any
/// ASCII case, whitespace around it aside.
pub fn ends_session(cmd_line: &str) -> (b: bool)
    ensures
        b == text::eq_ignore_ascii_case(text::trim(cmd_line@), "quit"@),
{
    let t = text::trim_string(cmd_line);
    text::ascii_case_insensitive_eq(t.as_str(), "quit")
}

/// The answer to a request line longer than allowed, before the connection
/// is closed.
pub fn oversize_reply() -> (r: String)
    ensures
        r@ == protocol::err_reply("请求超过 1MB 上限，连接已断开"@),
{
    resp_err("请求超过 1MB 上限，连接已断开")
}

/// How much of the next chunk of input belongs to the current line.
pub struct ChunkStep {
    /// The bytes to take from the chunk: up to and including the first line
    /// feed, or all of them.
    pub take: usize,
    /// Whether the line ends within the chunk.
    pub line_complete: bool,
    /// Whether the line, with these bytes, is longer than allowed.
    pub too_long: bool,
}

/// Cuts the next chunk of input for a line of which `buffered` bytes have
/// been read, with at most `max_bytes` bytes allowed.
pub fn scan_chunk(buffered: usize, chunk: &[u8], max_bytes: usize) -> (r: ChunkStep)
    requires
        chunk@.len() > 0,
    ensures
        match chunk@.index_of_first(10u8) {
            Some(i) => r.take == i + 1 && r.line_complete,
            None => r.take == chunk@.len() && !r.line_complete,
        },
        r.too_long == (buffered + r.take > max_bytes),
{
    let ghost s = chunk@;
    proof {
        s.index_of_first_ensures(10u8);
    }
    let mut i: usize = 0;
    while i < chunk.len() && chunk[i] != 10u8
        invariant
            i <= chunk@.len(),
            s == chunk@,
            forall|j: int| 0 <= j < i ==> s[j] != 10u8,
        decreases chunk.len() - i,
    {
        i = i + 1;
    }
    let found = i < chunk.len();
    proof {
        s.index_of_first_ensures(10u8);
    }
    let take = if found {
        proof {
            match s.index_of_first(10u8) {
                Some(k) => {
                    if k < i {
                        assert(s[k] != 10u8);
                    }
                    if k > i {
                        assert(s[i as int] != 10u8);
                    }
                },
                None => {
                    assert(s.contains(10u8));
                },
            }
        }
        i + 1
    } else {
        proof {
            if s.index_of_first(10u8) is Some {
                let k = s.index_of_first(10u8).unwrap();
                assert(s[k] != 10u8);
            }
        }
        chunk.len()
    };
    let too_long = buffered > max_bytes || take > max_bytes - buffered;
    ChunkStep { take, line_complete: found, too_long }
}

// ---------------------------------------------------------------------------
// Command-line arguments
// ---------------------------------------------------------------------------

/// What the server is asked to do.
#[derive(Debug)]
pub enum ServerArgs {
    /// Serve on `port`, keeping the log at `data_path`.
    Run { port: u16, data_path: String },
    /// Print the usage and stop.
    Help,
}

pub enum ServerArgsModel {
    Run { port: u16, data_path: Seq<char> },
    Help,
}

impl View for ServerArgs {
    type V = ServerArgsModel;

    open spec fn view(&self) -> ServerArgsModel {
        match self {
            ServerArgs::Run { port, data_path } => ServerArgsModel::Run {
                port: *port,
                data_path: data_path@,
            },
            ServerArgs::Help => ServerArgsModel::Help,
        }
    }
}

/// The outcome of the arguments `rest`, read from the left, with the port
/// and the data path chosen so far.
pub open spec fn args_outcome(rest: Seq<Seq<char>>, port: u16, data: Seq<char>) -> Result<
    ServerArgsModel,
    Seq<char>,
>
    decreases rest.len(),
{
    if rest.len() == 0 {
        Ok(ServerArgsModel::Run { port, data_path: data })
    } else if rest[0] == "--port"@ {
        if rest.len() < 2 {
            Err("--port 需要参数"@)
        } else {
            match text::parse_uint(rest[1], u16::MAX as nat) {
                None => Err("无效端口"@),
                Some(p) => args_outcome(rest.skip(2), p as u16, data),
            }
        }
    } else if rest[0] == "--data"@ {
        if rest.len() < 2 {
            Err("--data 需要参数"@)
        } else {
            args_outcome(rest.skip(2), port, rest[1])
        }
    } else if rest[0] == "--help"@ || rest[0] == "-h"@ {
        Ok(ServerArgsModel::Help)
    } else {
        Err("未知参数: "@ + rest[0] + ", 使用 --help 查看用法"@)
    }
}

pub open spec fn server_args_result(r: Result<ServerArgs, String>) -> Result<
    ServerArgsModel,
    Seq<char>,
> {
    match r {
        Ok(a) => Ok(a@),
        Err(e) => Err(e@),
    }
}

/// Reads the server's arguments (the program's name first): `--port PORT`,
/// `--data PATH`, `--help` or `-h`; port 6379 and `./kv.db` unless given.
pub fn parse_server_args(args: &[String]) -> (r: Result<ServerArgs, String>)
    ensures
        server_args_result(r) == args_outcome(
            if args@.len() == 0 {
                Seq::<Seq<char>>::empty()
            } else {
                text::strings_view(args@).skip(1)
            },
            6379,
            "./kv.db"@,
        ),
{
    let ghost all = text::strings_view(args@);
    let mut port: u16 = 6379;
    let mut data_path = "./kv.db".to_owned();
    if args.len() == 0 {
        return Ok(ServerArgs::Run { port, data_path });
    }
    let ghost full = args_outcome(all.skip(1), 6379, "./kv.db"@);
    let mut i: usize = 1;
    while i < args.len()
        invariant
            1 <= i <= args@.len(),
            all == text::strings_view(args@),
            full == args_outcome(all.skip(1), 6379, "./kv.db"@),
            full == args_outcome(all.skip(i as int), port, data_path@),
        decreases args.len() - i,
    {
        let ghost rest = all.skip(i as int);
        assert(rest[0] == args@[i as int]@);
        let arg = args[i].as_str();
        if str_eq(arg, "--port") {
            if i + 1 >= args.len() {
                return Err("--port 需要参数".to_owned());
            }
            assert(rest[1] == args@[i + 1]@);
            match text::parse_u16(args[i + 1].as_str()) {
                None => {
                    return Err("无效端口".to_owned());
                },
                Some(p) => {
                    port = p;
                },
            }
            assert(rest.skip(2) =~= all.skip(i + 2));
            i = i + 2;
        } else if str_eq(arg, "--data") {
            if i + 1 >= args.len() {
                return Err("--data 需要参数".to_owned());
            }
            assert(rest[1] == args@[i + 1]@);
            data_path = args[i + 1].clone();
            assert(rest.skip(2) =~= all.skip(i + 2));
            i = i + 2;
        } else if str_eq(arg, "--help") || str_eq(arg, "-h") {
            return Ok(ServerArgs::Help);
        } else {
            let mut m = "未知参数: ".to_owned();
            m.append(arg);
            m.append(", 使用 --help 查看用法");
            return Err(m);
        }
    }
    assert(all.skip(i as int) =~= Seq::<Seq<char>>::empty());
    Ok(ServerArgs::Run { port, data_path })
}

} // verus!
