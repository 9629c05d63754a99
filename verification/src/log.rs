//! The append-only log: one record per line, written before the in-memory
//! store changes, and replayed when the store is opened again.
//!
//! ```text
//! SET,<key>,<value>
//! SETX,<key>,<value>,<expiry in unix milliseconds>
//! EXPIRE,<key>,<expiry in unix milliseconds>
//! DEL,<key>
//! ```
use crate::text;
use crate::text::{
    chars_of, has_prefix_at, parse_u64, push_decimal, push_range, rsplit_once_at, split_once_at,
    string_from_range,
};
use vstd::prelude::*;

verus! {

/// A stored value as plain values: its text and, when it expires, the unix
/// time in milliseconds from which it is gone.
pub struct EntryModel {
    pub value: Seq<char>,
    pub expire_at: Option<u64>,
}

impl EntryModel {
    /// A value is alive at `now` unless its expiry time has been reached.
    pub open spec fn alive(self, now: u64) -> bool {
        match self.expire_at {
            None => true,
            Some(t) => now < t,
        }
    }
}

/// One log record as plain values.
pub enum RecordModel {
    Put { key: Seq<char>, value: Seq<char> },
    PutEx { key: Seq<char>, value: Seq<char>, expire_at: u64 },
    Expire { key: Seq<char>, expire_at: u64 },
    Del { key: Seq<char> },
}

/// One log record: the change that an operation makes to the store.
#[derive(Debug)]
pub enum LogRecord {
    /// A permanent value.
    Put { key: String, value: String },
    /// A value that expires at `expire_at` (unix milliseconds).
    PutEx { key: String, value: String, expire_at: u64 },
    /// A new expiry time for a key that is present.
    Expire { key: String, expire_at: u64 },
    /// The removal of a key.
    Del { key: String },
}

impl View for LogRecord {
    type V = RecordModel;

    open spec fn view(&self) -> RecordModel {
        match self {
            LogRecord::Put { key, value } => RecordModel::Put { key: key@, value: value@ },
            LogRecord::PutEx { key, value, expire_at } => RecordModel::PutEx {
                key: key@,
                value: value@,
                expire_at: *expire_at,
            },
            LogRecord::Expire { key, expire_at } => RecordModel::Expire {
                key: key@,
                expire_at: *expire_at,
            },
            LogRecord::Del { key } => RecordModel::Del { key: key@ },
        }
    }
}

/// What a record does to the contents of the store.
pub open spec fn apply_record(m: Map<Seq<char>, EntryModel>, r: RecordModel) -> Map<
    Seq<char>,
    EntryModel,
> {
    match r {
        RecordModel::Put { key, value } => m.insert(key, EntryModel { value, expire_at: None }),
        RecordModel::PutEx { key, value, expire_at } => m.insert(
            key,
            EntryModel { value, expire_at: Some(expire_at) },
        ),
        RecordModel::Expire { key, expire_at } => if m.contains_key(key) {
            m.insert(key, EntryModel { value: m[key].value, expire_at: Some(expire_at) })
        } else {
            m
        },
        RecordModel::Del { key } => m.remove(key),
    }
}

/// The contents after the records, one after the other.
pub open spec fn replay(m: Map<Seq<char>, EntryModel>, rs: Seq<RecordModel>) -> Map<
    Seq<char>,
    EntryModel,
>
    decreases rs.len(),
{
    if rs.len() == 0 {
        m
    } else {
        apply_record(replay(m, rs.drop_last()), rs.last())
    }
}

/// The contents without the values that have expired at `now`.
pub open spec fn purge_expired(m: Map<Seq<char>, EntryModel>, now: u64) -> Map<
    Seq<char>,
    EntryModel,
> {
    Map::new(|k: Seq<char>| m.contains_key(k) && m[k].alive(now), |k: Seq<char>| m[k])
}

// ---------------------------------------------------------------------------
// Writing records
// ---------------------------------------------------------------------------

/// The line that stands for a record in the log, line break included.
pub open spec fn encode_record(r: RecordModel) -> Seq<char> {
    match r {
        RecordModel::Put { key, value } => "SET,"@ + key + ","@ + value + "\n"@,
        RecordModel::PutEx { key, value, expire_at } => "SETX,"@ + key + ","@ + value + ","@
            + text::dec(expire_at as nat) + "\n"@,
        RecordModel::Expire { key, expire_at } => "EXPIRE,"@ + key + ","@ + text::dec(
            expire_at as nat,
        ) + "\n"@,
        RecordModel::Del { key } => "DEL,"@ + key + "\n"@,
    }
}

/// The log text that holds the records in order.
pub open spec fn encode_log(rs: Seq<RecordModel>) -> Seq<char>
    decreases rs.len(),
{
    if rs.len() == 0 {
        seq![]
    } else {
        encode_log(rs.drop_last()) + encode_record(rs.last())
    }
}

impl LogRecord {
    /// The line that stands for this record in the log.
    pub fn encode(&self) -> (s: String)
        ensures
            s@ == encode_record(self@),
    {
        match self {
            LogRecord::Put { key, value } => {
                let mut s = "SET,".to_owned();
                s.append(key.as_str());
                s.append(",");
                s.append(value.as_str());
                s.append("\n");
                s
            },
            LogRecord::PutEx { key, value, expire_at } => {
                let mut s = "SETX,".to_owned();
                s.append(key.as_str());
                s.append(",");
                s.append(value.as_str());
                s.append(",");
                push_decimal(&mut s, *expire_at);
                s.append("\n");
                s
            },
            LogRecord::Expire { key, expire_at } => {
                let mut s = "EXPIRE,".to_owned();
                s.append(key.as_str());
                s.append(",");
                push_decimal(&mut s, *expire_at);
                s.append("\n");
                s
            },
            LogRecord::Del { key } => {
                let mut s = "DEL,".to_owned();
                s.append(key.as_str());
                s.append("\n");
                s
            },
        }
    }
}

// ---------------------------------------------------------------------------
// Reading records
// ---------------------------------------------------------------------------

pub open spec fn line_error(what: Seq<char>, line: Seq<char>) -> Seq<char> {
    what + line + "'"@
}

/// The record that a (non-empty, end-trimmed) log line holds, or the message
/// that rejects it.
pub open spec fn parse_line(l: Seq<char>) -> Result<RecordModel, Seq<char>> {
    if "SET,"@.is_prefix_of(l) {
        match text::split_once(l.skip("SET,"@.len() as int), ',') {
            None => Err(line_error("日志格式错误：SET 行需要 key 和 value，实际为 '"@, l)),
            Some((k, v)) => if k.len() == 0 {
                Err(line_error("日志格式错误：SET 行 key 为空，实际为 '"@, l))
            } else {
                Ok(RecordModel::Put { key: k, value: v })
            },
        }
    } else if "SETX,"@.is_prefix_of(l) {
        match text::split_once(l.skip("SETX,"@.len() as int), ',') {
            None => Err(line_error("日志格式错误：SETX 行需要 key/value/时间戳，实际为 '"@, l)),
            Some((k, rest)) => match text::rsplit_once(rest, ',') {
                None => Err(line_error("日志格式错误：SETX 行需要过期时间戳，实际为 '"@, l)),
                Some((v, ts)) => match text::parse_uint(ts, u64::MAX as nat) {
                    None => Err(line_error("日志格式错误：SETX 行时间戳无效，实际为 '"@, l)),
                    Some(ms) => if k.len() == 0 {
                        Err(line_error("日志格式错误：SETX 行 key 为空，实际为 '"@, l))
                    } else {
                        Ok(RecordModel::PutEx { key: k, value: v, expire_at: ms as u64 })
                    },
                },
            },
        }
    } else if "EXPIRE,"@.is_prefix_of(l) {
        match text::split_once(l.skip("EXPIRE,"@.len() as int), ',') {
            None => Err(line_error("日志格式错误：EXPIRE 行需要 key/时间戳，实际为 '"@, l)),
            Some((k, ts)) => match text::parse_uint(ts, u64::MAX as nat) {
                None => Err(line_error("日志格式错误：EXPIRE 行时间戳无效，实际为 '"@, l)),
                Some(ms) => Ok(RecordModel::Expire { key: k, expire_at: ms as u64 }),
            },
        }
    } else if "DEL,"@.is_prefix_of(l) {
        let rest = l.skip("DEL,"@.len() as int);
        if rest.len() == 0 {
            Err(line_error("日志格式错误：DEL 行需要 key，实际为 '"@, l))
        } else {
            Ok(RecordModel::Del { key: rest })
        }
    } else {
        Err(line_error("未知日志行格式：'"@, l))
    }
}

/// The records of the log lines, in order: each line trimmed at its end,
/// empty lines skipped, the first bad line rejecting the whole log.
pub open spec fn parse_lines(lines: Seq<Seq<char>>) -> Result<Seq<RecordModel>, Seq<char>>
    decreases lines.len(),
{
    if lines.len() == 0 {
        Ok(seq![])
    } else {
        match parse_lines(lines.drop_last()) {
            Err(e) => Err(e),
            Ok(rs) => {
                let l = text::trim_end(lines.last());
                if l.len() == 0 {
                    Ok(rs)
                } else {
                    match parse_line(l) {
                        Ok(r) => Ok(rs.push(r)),
                        Err(e) => Err(e),
                    }
                }
            },
        }
    }
}

/// The records of a log text, or the message for its first bad line.
pub open spec fn parse_log(content: Seq<char>) -> Result<Seq<RecordModel>, Seq<char>> {
    parse_lines(text::split_on(content, '\n'))
}

pub open spec fn record_result_view(r: Result<LogRecord, String>) -> Result<RecordModel, Seq<char>> {
    match r {
        Ok(rec) => Ok(rec@),
        Err(e) => Err(e@),
    }
}

fn line_error_text(what: &str, v: &Vec<char>, lo: usize, hi: usize) -> (s: String)
    requires
        lo <= hi <= v.len(),
    ensures
        s@ == line_error(what@, v@.subrange(lo as int, hi as int)),
{
    let mut s = what.to_owned();
    push_range(&mut s, v, lo, hi);
    s.append("'");
    s
}

/// Reads the record of the log line `v[lo..hi]` (non-empty, trimmed at its end).
pub fn parse_record_line(v: &Vec<char>, lo: usize, hi: usize) -> (r: Result<LogRecord, String>)
    requires
        lo <= hi <= v.len(),
    ensures
        record_result_view(r) == parse_line(v@.subrange(lo as int, hi as int)),
{
    let ghost l = v@.subrange(lo as int, hi as int);
    if has_prefix_at(v, lo, hi, "SET,") {
        let p = chars_of("SET,").len();
        assert(v@.subrange(lo + p, hi as int) =~= l.skip("SET,"@.len() as int));
        match split_once_at(v, lo + p, hi, ',') {
            None => Err(line_error_text("日志格式错误：SET 行需要 key 和 value，实际为 '", v, lo, hi)),
            Some((k, val)) => {
                if k.as_str().is_empty() {
                    Err(line_error_text("日志格式错误：SET 行 key 为空，实际为 '", v, lo, hi))
                } else {
                    Ok(LogRecord::Put { key: k, value: val })
                }
            },
        }
    } else if has_prefix_at(v, lo, hi, "SETX,") {
        let p = chars_of("SETX,").len();
        assert(v@.subrange(lo + p, hi as int) =~= l.skip("SETX,"@.len() as int));
        match split_once_at(v, lo + p, hi, ',') {
            None => Err(
                line_error_text("日志格式错误：SETX 行需要 key/value/时间戳，实际为 '", v, lo, hi),
            ),
            Some((k, rest)) => {
                let rv = chars_of(rest.as_str());
                assert(rv@.subrange(0, rv@.len() as int) =~= rest@);
                match rsplit_once_at(&rv, 0, rv.len(), ',') {
                    None => Err(
                        line_error_text("日志格式错误：SETX 行需要过期时间戳，实际为 '", v, lo, hi),
                    ),
                    Some((val, ts)) => match parse_u64(ts.as_str()) {
                        None => Err(
                            line_error_text("日志格式错误：SETX 行时间戳无效，实际为 '", v, lo, hi),
                        ),
                        Some(ms) => {
                            if k.as_str().is_empty() {
                                Err(
                                    line_error_text(
                                        "日志格式错误：SETX 行 key 为空，实际为 '",
                                        v,
                                        lo,
                                        hi,
                                    ),
                                )
                            } else {
                                Ok(LogRecord::PutEx { key: k, value: val, expire_at: ms })
                            }
                        },
                    },
                }
            },
        }
    } else if has_prefix_at(v, lo, hi, "EXPIRE,") {
        let p = chars_of("EXPIRE,").len();
        assert(v@.subrange(lo + p, hi as int) =~= l.skip("EXPIRE,"@.len() as int));
        match split_once_at(v, lo + p, hi, ',') {
            None => Err(
                line_error_text("日志格式错误：EXPIRE 行需要 key/时间戳，实际为 '", v, lo, hi),
            ),
            Some((k, ts)) => match parse_u64(ts.as_str()) {
                None => Err(
                    line_error_text("日志格式错误：EXPIRE 行时间戳无效，实际为 '", v, lo, hi),
                ),
                Some(ms) => Ok(LogRecord::Expire { key: k, expire_at: ms }),
            },
        }
    } else if has_prefix_at(v, lo, hi, "DEL,") {
        let p = chars_of("DEL,").len();
        assert(v@.subrange(lo + p, hi as int) =~= l.skip("DEL,"@.len() as int));
        if lo + p == hi {
            Err(line_error_text("日志格式错误：DEL 行需要 key，实际为 '", v, lo, hi))
        } else {
            Ok(LogRecord::Del { key: string_from_range(v, lo + p, hi) })
        }
    } else {
        Err(line_error_text("未知日志行格式：'", v, lo, hi))
    }
}

// ---------------------------------------------------------------------------
// Reading back what was written
// ---------------------------------------------------------------------------

/// The line of a record without its line break.
pub open spec fn record_body(r: RecordModel) -> Seq<char> {
    match r {
        RecordModel::Put { key, value } => "SET,"@ + key + ","@ + value,
        RecordModel::PutEx { key, value, expire_at } => "SETX,"@ + key + ","@ + value + ","@
            + text::dec(expire_at as nat),
        RecordModel::Expire { key, expire_at } => "EXPIRE,"@ + key + ","@ + text::dec(
            expire_at as nat,
        ),
        RecordModel::Del { key } => "DEL,"@ + key,
    }
}

/// A record that its log line stands for faithfully: no line break inside,
/// no separator inside a key where the reader splits at the first one, no
/// whitespace at the end of the line (the reader trims it), and a key where
/// the reader asks for one.
pub open spec fn record_faithful(r: RecordModel) -> bool {
    match r {
        RecordModel::Put { key, value } => {
            &&& key.len() > 0
            &&& !key.contains(',')
            &&& !key.contains('\n')
            &&& !value.contains('\n')
            &&& (value.len() == 0 || !text::is_ws(value.last()))
        },
        RecordModel::PutEx { key, value, expire_at } => {
            &&& key.len() > 0
            &&& !key.contains(',')
            &&& !key.contains('\n')
            &&& !value.contains('\n')
        },
        RecordModel::Expire { key, expire_at } => {
            &&& !key.contains(',')
            &&& !key.contains('\n')
        },
        RecordModel::Del { key } => {
            &&& key.len() > 0
            &&& !key.contains('\n')
            &&& !text::is_ws(key.last())
        },
    }
}

pub open spec fn all_faithful(rs: Seq<RecordModel>) -> bool {
    forall|i: int| 0 <= i < rs.len() ==> record_faithful(#[trigger] rs[i])
}

proof fn lemma_no_char_concat(a: Seq<char>, b: Seq<char>, c: char)
    requires
        !a.contains(c),
        !b.contains(c),
    ensures
        !(a + b).contains(c),
{
    if (a + b).contains(c) {
        let i = choose|i: int| 0 <= i < (a + b).len() && (a + b)[i] == c;
        if i < a.len() {
            assert(a[i] == c);
        } else {
            assert(b[i - a.len()] == c);
        }
    }
}

proof fn lemma_literals()
    ensures
        "SET,"@ =~= seq!['S', 'E', 'T', ','],
        "SETX,"@ =~= seq!['S', 'E', 'T', 'X', ','],
        "EXPIRE,"@ =~= seq!['E', 'X', 'P', 'I', 'R', 'E', ','],
        "DEL,"@ =~= seq!['D', 'E', 'L', ','],
        ","@ =~= seq![','],
        "\n"@ =~= seq!['\n'],
{
    reveal_strlit("SET,");
    reveal_strlit("SETX,");
    reveal_strlit("EXPIRE,");
    reveal_strlit("DEL,");
    reveal_strlit(",");
    reveal_strlit("\n");
}

proof fn lemma_no_newline_tag(t: Seq<char>)
    requires
        t =~= seq!['S', 'E', 'T', ','] || t =~= seq!['S', 'E', 'T', 'X', ','] || t =~= seq![
            'E',
            'X',
            'P',
            'I',
            'R',
            'E',
            ',',
        ] || t =~= seq!['D', 'E', 'L', ','] || t =~= seq![','],
    ensures
        !t.contains('\n'),
{
    if t.contains('\n') {
        let i = choose|i: int| 0 <= i < t.len() && t[i] == '\n';
        assert(t[i] != '\n');
    }
}

/// A record's line is its body and a line break; the body holds none.
proof fn lemma_body(r: RecordModel)
    requires
        record_faithful(r),
    ensures
        encode_record(r) =~= record_body(r) + seq!['\n'],
        !record_body(r).contains('\n'),
        record_body(r).len() > 0,
        text::trim_end(record_body(r)) == record_body(r),
        parse_line(record_body(r)) == Ok::<RecordModel, Seq<char>>(r),
{
    lemma_literals();
    let l = record_body(r);
    match r {
        RecordModel::Put { key, value } => {
            lemma_no_newline_tag("SET,"@);
            lemma_no_newline_tag(","@);
            lemma_no_char_concat("SET,"@, key, '\n');
            lemma_no_char_concat("SET,"@ + key, ","@, '\n');
            lemma_no_char_concat("SET,"@ + key + ","@, value, '\n');
            if value.len() == 0 {
                assert(l.last() == ',');
            } else {
                assert(l.last() == value.last());
            }
            assert("SET,"@.is_prefix_of(l)) by {
                assert(l.subrange(0, 4) =~= "SET,"@);
            }
            assert(l.skip(4) =~= key + seq![','] + value);
            text::lemma_split_once_concat(key, value, ',');
        },
        RecordModel::PutEx { key, value, expire_at } => {
            let d = text::dec(expire_at as nat);
            text::lemma_parse_dec(expire_at as nat, u64::MAX as nat);
            lemma_no_newline_tag("SETX,"@);
            lemma_no_newline_tag(","@);
            lemma_no_char_concat("SETX,"@, key, '\n');
            lemma_no_char_concat("SETX,"@ + key, ","@, '\n');
            lemma_no_char_concat("SETX,"@ + key + ","@, value, '\n');
            lemma_no_char_concat("SETX,"@ + key + ","@ + value, ","@, '\n');
            lemma_no_char_concat("SETX,"@ + key + ","@ + value + ","@, d, '\n');
            assert(l.last() == d.last());
            assert(l[3] == 'X');
            assert(!"SET,"@.is_prefix_of(l)) by {
                if "SET,"@.is_prefix_of(l) {
                    assert(l.subrange(0, 4)[3] == ',');
                }
            }
            assert("SETX,"@.is_prefix_of(l)) by {
                assert(l.subrange(0, 5) =~= "SETX,"@);
            }
            assert(l.skip(5) =~= key + seq![','] + (value + seq![','] + d));
            text::lemma_split_once_concat(key, value + seq![','] + d, ',');
            text::lemma_rsplit_once_concat(value, d, ',');
        },
        RecordModel::Expire { key, expire_at } => {
            let d = text::dec(expire_at as nat);
            text::lemma_parse_dec(expire_at as nat, u64::MAX as nat);
            lemma_no_newline_tag("EXPIRE,"@);
            lemma_no_newline_tag(","@);
            lemma_no_char_concat("EXPIRE,"@, key, '\n');
            lemma_no_char_concat("EXPIRE,"@ + key, ","@, '\n');
            lemma_no_char_concat("EXPIRE,"@ + key + ","@, d, '\n');
            assert(l.last() == d.last());
            assert(l[0] == 'E');
            assert(!"SET,"@.is_prefix_of(l)) by {
                if "SET,"@.is_prefix_of(l) {
                    assert(l.subrange(0, 4)[0] == 'S');
                }
            }
            assert(!"SETX,"@.is_prefix_of(l)) by {
                if "SETX,"@.is_prefix_of(l) {
                    assert(l.subrange(0, 5)[0] == 'S');
                }
            }
            assert("EXPIRE,"@.is_prefix_of(l)) by {
                assert(l.subrange(0, 7) =~= "EXPIRE,"@);
            }
            assert(l.skip(7) =~= key + seq![','] + d);
            text::lemma_split_once_concat(key, d, ',');
        },
        RecordModel::Del { key } => {
            lemma_no_newline_tag("DEL,"@);
            lemma_no_char_concat("DEL,"@, key, '\n');
            assert(l.last() == key.last());
            assert(l[0] == 'D');
            assert(!"SET,"@.is_prefix_of(l)) by {
                if "SET,"@.is_prefix_of(l) {
                    assert(l.subrange(0, 4)[0] == 'S');
                }
            }
            assert(!"SETX,"@.is_prefix_of(l)) by {
                if "SETX,"@.is_prefix_of(l) {
                    assert(l.subrange(0, 5)[0] == 'S');
                }
            }
            assert(!"EXPIRE,"@.is_prefix_of(l)) by {
                if "EXPIRE,"@.is_prefix_of(l) {
                    assert(l.subrange(0, 7)[0] == 'E');
                }
            }
            assert("DEL,"@.is_prefix_of(l)) by {
                assert(l.subrange(0, 4) =~= "DEL,"@);
            }
            assert(l.skip(4) =~= key);
        },
    }
}

proof fn lemma_split_encode_log(rs: Seq<RecordModel>)
    requires
        all_faithful(rs),
    ensures
        text::split_state(encode_log(rs), '\n') == (
            rs.map_values(|r: RecordModel| record_body(r)),
            Seq::<char>::empty(),
        ),
    decreases rs.len(),
{
    let bodies = rs.map_values(|r: RecordModel| record_body(r));
    if rs.len() == 0 {
        assert(bodies =~= Seq::<Seq<char>>::empty());
    } else {
        let rs0 = rs.drop_last();
        let r = rs.last();
        assert(all_faithful(rs0)) by {
            assert forall|i: int| 0 <= i < rs0.len() implies record_faithful(#[trigger] rs0[i]) by {
                assert(rs0[i] == rs[i]);
            }
        }
        assert(record_faithful(rs[rs.len() - 1]));
        lemma_split_encode_log(rs0);
        lemma_body(r);
        let e0 = encode_log(rs0);
        let b = record_body(r);
        text::lemma_split_state_append(e0, b, '\n');
        assert(encode_log(rs) =~= (e0 + b).push('\n'));
        assert((e0 + b).push('\n').drop_last() =~= e0 + b);
        assert(Seq::<char>::empty() + b =~= b);
        assert(bodies =~= rs0.map_values(|r: RecordModel| record_body(r)).push(b));
    }
}

proof fn lemma_parse_bodies(rs: Seq<RecordModel>)
    requires
        all_faithful(rs),
    ensures
        parse_lines(rs.map_values(|r: RecordModel| record_body(r))) == Ok::<
            Seq<RecordModel>,
            Seq<char>,
        >(rs),
    decreases rs.len(),
{
    let bodies = rs.map_values(|r: RecordModel| record_body(r));
    if rs.len() > 0 {
        let rs0 = rs.drop_last();
        assert(all_faithful(rs0)) by {
            assert forall|i: int| 0 <= i < rs0.len() implies record_faithful(#[trigger] rs0[i]) by {
                assert(rs0[i] == rs[i]);
            }
        }
        assert(record_faithful(rs[rs.len() - 1]));
        lemma_parse_bodies(rs0);
        lemma_body(rs.last());
        assert(bodies.drop_last() =~= rs0.map_values(|r: RecordModel| record_body(r)));
        assert(bodies.last() == record_body(rs.last()));
        assert(rs0.push(rs.last()) =~= rs);
    } else {
        assert(rs =~= Seq::<RecordModel>::empty());
    }
}

/// A record read from a line without line breaks and without trailing
/// whitespace is written back as that same line.
proof fn lemma_line_faithful(l: Seq<char>)
    requires
        l.len() > 0,
        !l.contains('\n'),
        !text::is_ws(l.last()),
    ensures
        parse_line(l) matches Ok(r) ==> record_faithful(r),
{
    lemma_literals();
    if "SET,"@.is_prefix_of(l) {
        let rest = l.skip(4);
        text::lemma_subrange_no_char(l, 4, l.len() as int, '\n');
        text::lemma_split_once_parts(rest, ',');
        if let Some((k, v)) = text::split_once(rest, ',') {
            text::lemma_subrange_no_char(rest, 0, k.len() as int, '\n');
            text::lemma_subrange_no_char(rest, k.len() + 1int, rest.len() as int, '\n');
            if v.len() > 0 {
                assert(v.last() == rest.last());
                assert(rest.last() == l.last());
            }
        }
    } else if "SETX,"@.is_prefix_of(l) {
        let rest = l.skip(5);
        text::lemma_subrange_no_char(l, 5, l.len() as int, '\n');
        text::lemma_split_once_parts(rest, ',');
        if let Some((k, rest2)) = text::split_once(rest, ',') {
            text::lemma_subrange_no_char(rest, 0, k.len() as int, '\n');
            text::lemma_subrange_no_char(rest, k.len() + 1int, rest.len() as int, '\n');
            text::lemma_rsplit_once_parts(rest2, ',');
            if let Some((v, ts)) = text::rsplit_once(rest2, ',') {
                text::lemma_subrange_no_char(rest2, 0, v.len() as int, '\n');
            }
        }
    } else if "EXPIRE,"@.is_prefix_of(l) {
        let rest = l.skip(7);
        text::lemma_subrange_no_char(l, 7, l.len() as int, '\n');
        text::lemma_split_once_parts(rest, ',');
        if let Some((k, ts)) = text::split_once(rest, ',') {
            text::lemma_subrange_no_char(rest, 0, k.len() as int, '\n');
        }
    } else if "DEL,"@.is_prefix_of(l) {
        let rest = l.skip(4);
        text::lemma_subrange_no_char(l, 4, l.len() as int, '\n');
        if rest.len() > 0 {
            assert(rest.last() == l.last());
        }
    }
}

proof fn lemma_lines_faithful(lines: Seq<Seq<char>>)
    requires
        forall|i: int| 0 <= i < lines.len() ==> !(#[trigger] lines[i]).contains('\n'),
    ensures
        parse_lines(lines) matches Ok(rs) ==> all_faithful(rs),
    decreases lines.len(),
{
    if lines.len() > 0 {
        let l0 = lines.drop_last();
        assert forall|i: int| 0 <= i < l0.len() implies !(#[trigger] l0[i]).contains('\n') by {
            assert(l0[i] == lines[i]);
        }
        lemma_lines_faithful(l0);
        let line = lines.last();
        assert(!lines[lines.len() - 1].contains('\n'));
        let l = text::trim_end(line);
        text::lemma_trim_end_prefix(line);
        text::lemma_subrange_no_char(line, 0, l.len() as int, '\n');
        if l.len() > 0 {
            lemma_line_faithful(l);
        }
        if let Ok(rs0) = parse_lines(l0) {
            if l.len() > 0 {
                if let Ok(r) = parse_line(l) {
                    let rs = rs0.push(r);
                    assert forall|i: int| 0 <= i < rs.len() implies record_faithful(#[trigger] rs[i]) by {
                        if i < rs0.len() {
                            assert(rs[i] == rs0[i]);
                        }
                    }
                }
            }
        }
    }
}

/// Whatever a log holds, the records read from it are ones that are written
/// back as the lines they were read from.
pub proof fn law_parsed_records_are_faithful(content: Seq<char>)
    ensures
        parse_log(content) matches Ok(rs) ==> all_faithful(rs),
{
    text::lemma_split_pieces(content, '\n');
    lemma_lines_faithful(text::split_on(content, '\n'));
}

/// Appending to a log: the text of two runs of records is the text of the
/// first followed by that of the second, and replaying them is replaying the
/// first and then the second.
pub proof fn law_log_append(m: Map<Seq<char>, EntryModel>, a: Seq<RecordModel>, b: Seq<RecordModel>)
    ensures
        encode_log(a + b) == encode_log(a) + encode_log(b),
        replay(m, a + b) == replay(replay(m, a), b),
    decreases b.len(),
{
    if b.len() == 0 {
        assert(a + b =~= a);
        assert(encode_log(a) + encode_log(b) =~= encode_log(a));
    } else {
        let b0 = b.drop_last();
        law_log_append(m, a, b0);
        assert((a + b).drop_last() =~= a + b0);
        assert((a + b).last() == b.last());
        assert(encode_log(a) + encode_log(b0) + encode_record(b.last()) =~= encode_log(a) + (
        encode_log(b0) + encode_record(b.last())));
    }
}

proof fn lemma_split_extend(a: Seq<char>, rs: Seq<RecordModel>)
    requires
        all_faithful(rs),
        text::split_state(a, '\n').1 == Seq::<char>::empty(),
    ensures
        text::split_state(a + encode_log(rs), '\n') == (
            text::split_state(a, '\n').0 + rs.map_values(|r: RecordModel| record_body(r)),
            Seq::<char>::empty(),
        ),
    decreases rs.len(),
{
    let bodies = rs.map_values(|r: RecordModel| record_body(r));
    let p = text::split_state(a, '\n').0;
    if rs.len() == 0 {
        assert(a + encode_log(rs) =~= a);
        assert(p + bodies =~= p);
    } else {
        let rs0 = rs.drop_last();
        let r = rs.last();
        assert(all_faithful(rs0)) by {
            assert forall|i: int| 0 <= i < rs0.len() implies record_faithful(#[trigger] rs0[i]) by {
                assert(rs0[i] == rs[i]);
            }
        }
        assert(record_faithful(rs[rs.len() - 1]));
        lemma_split_extend(a, rs0);
        lemma_body(r);
        let e0 = a + encode_log(rs0);
        let b = record_body(r);
        text::lemma_split_state_append(e0, b, '\n');
        assert(a + encode_log(rs) =~= (e0 + b).push('\n'));
        assert((e0 + b).push('\n').drop_last() =~= e0 + b);
        assert(Seq::<char>::empty() + b =~= b);
        assert(bodies =~= rs0.map_values(|r: RecordModel| record_body(r)).push(b));
        assert(p + bodies =~= (p + rs0.map_values(|r: RecordModel| record_body(r))).push(b));
    }
}

proof fn lemma_parse_extend(lines: Seq<Seq<char>>, base: Seq<RecordModel>, rs: Seq<RecordModel>)
    requires
        all_faithful(rs),
        parse_lines(lines) == Ok::<Seq<RecordModel>, Seq<char>>(base),
    ensures
        parse_lines(lines + rs.map_values(|r: RecordModel| record_body(r))) == Ok::<
            Seq<RecordModel>,
            Seq<char>,
        >(base + rs),
    decreases rs.len(),
{
    let bodies = rs.map_values(|r: RecordModel| record_body(r));
    if rs.len() == 0 {
        assert(lines + bodies =~= lines);
        assert(base + rs =~= base);
    } else {
        let rs0 = rs.drop_last();
        assert(all_faithful(rs0)) by {
            assert forall|i: int| 0 <= i < rs0.len() implies record_faithful(#[trigger] rs0[i]) by {
                assert(rs0[i] == rs[i]);
            }
        }
        assert(record_faithful(rs[rs.len() - 1]));
        lemma_parse_extend(lines, base, rs0);
        lemma_body(rs.last());
        let all = lines + bodies;
        assert(all.drop_last() =~= lines + rs0.map_values(|r: RecordModel| record_body(r)));
        assert(all.last() == record_body(rs.last()));
        assert((base + rs0).push(rs.last()) =~= base + rs);
    }
}

/// Appending to a log: a log that reads as `base` and ends with a line
/// break (or is empty), with the lines of faithful records appended, reads
/// as `base` followed by those records.
pub proof fn law_log_extend(log: Seq<char>, base: Seq<RecordModel>, rs: Seq<RecordModel>)
    requires
        parse_log(log) == Ok::<Seq<RecordModel>, Seq<char>>(base),
        log.len() == 0 || log.last() == '\n',
        all_faithful(rs),
    ensures
        parse_log(log + encode_log(rs)) == Ok::<Seq<RecordModel>, Seq<char>>(base + rs),
{
    let (p, cur) = text::split_state(log, '\n');
    if log.len() > 0 {
        assert(cur =~= Seq::<char>::empty());
    }
    assert(cur =~= Seq::<char>::empty());
    // The log's lines are `p` and an empty last piece, which the reader skips.
    assert(text::split_on(log, '\n') == p.push(cur));
    assert(p.push(cur).drop_last() =~= p);
    assert(text::trim_end(cur) =~= Seq::<char>::empty());
    assert(parse_lines(p) == Ok::<Seq<RecordModel>, Seq<char>>(base));
    lemma_split_extend(log, rs);
    lemma_parse_extend(p, base, rs);
    let bodies = rs.map_values(|r: RecordModel| record_body(r));
    let lines = (p + bodies).push(Seq::<char>::empty());
    assert(text::split_on(log + encode_log(rs), '\n') == lines);
    assert(lines.drop_last() =~= p + bodies);
    assert(text::trim_end(Seq::<char>::empty()) =~= Seq::<char>::empty());
}

/// A log text is empty or ends with a line break; one record's text is its
/// line.
pub proof fn lemma_log_text_ends(rs: Seq<RecordModel>, r: RecordModel)
    ensures
        encode_log(rs).len() == 0 || encode_log(rs).last() == '\n',
        encode_log(seq![r]) == encode_record(r),
        encode_record(r).last() == '\n',
{
    reveal_strlit("\n");
    let e = encode_record(r);
    assert(e.len() > 0 && e.last() == '\n');
    if rs.len() > 0 {
        let l = rs.last();
        let el = encode_record(l);
        assert(el.len() > 0 && el.last() == '\n');
        assert(encode_log(rs).last() == el.last());
    }
    assert(seq![r].drop_last() =~= Seq::<RecordModel>::empty());
    assert(seq![r].last() == r);
    assert(encode_log(Seq::<RecordModel>::empty()) =~= Seq::<char>::empty());
    assert(Seq::<char>::empty() + e =~= e);
}

/// An empty log holds no records.
pub proof fn lemma_empty_log()
    ensures
        parse_log(Seq::<char>::empty()) == Ok::<Seq<RecordModel>, Seq<char>>(Seq::<RecordModel>::empty()),
{
    let e = Seq::<char>::empty();
    assert(text::split_state(e, '\n') == (Seq::<Seq<char>>::empty(), e));
    assert(text::split_on(e, '\n') =~= seq![e]);
    assert(parse_lines(Seq::<Seq<char>>::empty()) == Ok::<Seq<RecordModel>, Seq<char>>(
        Seq::<RecordModel>::empty(),
    ));
    assert(seq![e].last() == e);
    assert(seq![e].drop_last() =~= Seq::<Seq<char>>::empty());
    assert(text::trim_end(e) =~= e);
}

/// Restart recovery: a log written record by record reads back as the same
/// records, so opening it replays every change in order.
pub proof fn law_log_roundtrip(rs: Seq<RecordModel>)
    requires
        all_faithful(rs),
    ensures
        parse_log(encode_log(rs)) == Ok::<Seq<RecordModel>, Seq<char>>(rs),
{
    lemma_split_encode_log(rs);
    lemma_parse_bodies(rs);
    let bodies = rs.map_values(|r: RecordModel| record_body(r));
    let lines = text::split_on(encode_log(rs), '\n');
    assert(lines == bodies.push(Seq::<char>::empty()));
    assert(lines.drop_last() =~= bodies);
}

} // verus!
