//! The in-memory store: keys in order, each with a value and an optional
//! expiry time, rebuilt from the log and changed one log record at a time.
//!
//! Time is unix milliseconds, handed in by the caller as `now`.
use crate::error::KvError;
use crate::log;
use crate::log::{EntryModel, LogRecord, RecordModel};
use crate::text;
use crate::text::{chars_of, lex_less};
use vstd::prelude::*;

verus! {

// ---------------------------------------------------------------------------
// Values
// ---------------------------------------------------------------------------

/// A stored value and, for a value set with a time to live, the unix time in
/// milliseconds at which it expires.
#[derive(Clone, Debug, PartialEq)]
pub struct ValueEntry {
    pub value: String,
    pub expire_at: Option<u64>,
}

impl View for ValueEntry {
    type V = EntryModel;

    open spec fn view(&self) -> EntryModel {
        EntryModel { value: self.value@, expire_at: self.expire_at }
    }
}

impl ValueEntry {
    /// A value that never expires.
    pub fn permanent(value: String) -> (e: Self)
        ensures
            e@ == (EntryModel { value: value@, expire_at: None }),
    {
        ValueEntry { value, expire_at: None }
    }

    /// Whether the value is still there at `now`.
    pub fn alive(&self, now: u64) -> (b: bool)
        ensures
            b == self@.alive(now),
    {
        match self.expire_at {
            None => true,
            Some(t) => now < t,
        }
    }
}

// ---------------------------------------------------------------------------
// Keys
// ---------------------------------------------------------------------------

/// Why a key is refused, if it is: a blank key, or one holding the log's
/// separator.
pub open spec fn key_error(key: Seq<char>) -> Option<Seq<char>> {
    if text::all_ws(key) {
        Some("key 不能为空"@)
    } else if key.contains(',') {
        Some("key 不能包含逗号（日志分隔符），请使用其他字符"@)
    } else {
        None
    }
}

/// Accepts a key that is not blank and holds no comma.
pub fn validate_key(key: &str) -> (r: Result<(), KvError>)
    ensures
        match r {
            Ok(()) => key_error(key@) is None,
            Err(e) => key_error(key@) == Some(e.0@),
        },
{
    if text::is_all_whitespace(key) {
        return Err(KvError("key 不能为空".to_owned()));
    }
    if text::contains_char(key, ',') {
        return Err(KvError("key 不能包含逗号（日志分隔符），请使用其他字符".to_owned()));
    }
    Ok(())
}

// ---------------------------------------------------------------------------
// Ordered entries
// ---------------------------------------------------------------------------

pub open spec fn keys_sorted(es: Seq<(Seq<char>, EntryModel)>) -> bool {
    forall|i: int, j: int| 0 <= i < j < es.len() ==> text::lex_lt(#[trigger] es[i].0, #[trigger] es[j].0)
}

pub open spec fn has_key(es: Seq<(Seq<char>, EntryModel)>, k: Seq<char>) -> bool {
    exists|i: int| 0 <= i < es.len() && #[trigger] es[i].0 == k
}

/// A position of `k` among the entries, when it has one.
pub open spec fn key_index(es: Seq<(Seq<char>, EntryModel)>, k: Seq<char>) -> int {
    choose|i: int| 0 <= i < es.len() && #[trigger] es[i].0 == k
}

/// The map from each key to its value.
pub open spec fn entries_map(es: Seq<(Seq<char>, EntryModel)>) -> Map<Seq<char>, EntryModel> {
    Map::new(|k: Seq<char>| has_key(es, k), |k: Seq<char>| es[key_index(es, k)].1)
}

/// In a key-sorted sequence of entries each key stands once, so the map
/// gives each key the value beside it.
pub proof fn lemma_entries_map_at(es: Seq<(Seq<char>, EntryModel)>, i: int)
    requires
        keys_sorted(es),
        0 <= i < es.len(),
    ensures
        entries_map(es).contains_key(es[i].0),
        entries_map(es)[es[i].0] == es[i].1,
{
    let k = es[i].0;
    assert(has_key(es, k));
    let j = key_index(es, k);
    if j < i {
        assert(text::lex_lt(es[j].0, es[i].0));
        text::lemma_lex_irreflexive(k);
    }
    if j > i {
        assert(text::lex_lt(es[i].0, es[j].0));
        text::lemma_lex_irreflexive(k);
    }
    assert(j == i);
    assert(entries_map(es)[k] == es[j].1);
}

proof fn lemma_remove_at(es: Seq<(Seq<char>, EntryModel)>, i: int)
    requires
        keys_sorted(es),
        0 <= i < es.len(),
    ensures
        keys_sorted(es.remove(i)),
        entries_map(es.remove(i)) == entries_map(es).remove(es[i].0),
{
    let es2 = es.remove(i);
    let k = es[i].0;
    assert forall|a: int, b: int| 0 <= a < b < es2.len() implies text::lex_lt(
        #[trigger] es2[a].0,
        #[trigger] es2[b].0,
    ) by {
        let a0 = if a < i {
            a
        } else {
            a + 1
        };
        let b0 = if b < i {
            b
        } else {
            b + 1
        };
        assert(es2[a] == es[a0]);
        assert(es2[b] == es[b0]);
    }
    let m = entries_map(es);
    let m2 = entries_map(es2);
    assert forall|x: Seq<char>| #[trigger] m2.contains_key(x) == m.remove(k).contains_key(x) by {
        if m2.contains_key(x) {
            let j = choose|j: int| 0 <= j < es2.len() && #[trigger] es2[j].0 == x;
            let j0 = if j < i {
                j
            } else {
                j + 1
            };
            assert(es[j0].0 == x);
            assert(has_key(es, x));
            if x == k {
                if j0 < i {
                    assert(text::lex_lt(es[j0].0, es[i].0));
                } else {
                    assert(text::lex_lt(es[i].0, es[j0].0));
                }
                text::lemma_lex_irreflexive(k);
            }
        }
        if m.remove(k).contains_key(x) {
            let j0 = choose|j: int| 0 <= j < es.len() && #[trigger] es[j].0 == x;
            assert(j0 != i);
            let j = if j0 < i {
                j0
            } else {
                j0 - 1
            };
            assert(es2[j].0 == x);
            assert(has_key(es2, x));
        }
    }
    assert forall|x: Seq<char>| #[trigger] m2.contains_key(x) implies m2[x] == m.remove(k)[x] by {
        let j = choose|j: int| 0 <= j < es2.len() && #[trigger] es2[j].0 == x;
        let j0 = if j < i {
            j
        } else {
            j + 1
        };
        assert(es[j0] == es2[j]);
        lemma_entries_map_at(es2, j);
        lemma_entries_map_at(es, j0);
    }
    assert(m2 =~= m.remove(k));
}

proof fn lemma_insert_at(es: Seq<(Seq<char>, EntryModel)>, i: int, k: Seq<char>, e: EntryModel)
    requires
        keys_sorted(es),
        0 <= i <= es.len(),
        forall|j: int| 0 <= j < i ==> text::lex_lt(#[trigger] es[j].0, k),
        forall|j: int| i <= j < es.len() ==> text::lex_lt(k, #[trigger] es[j].0),
    ensures
        keys_sorted(es.insert(i, (k, e))),
        entries_map(es.insert(i, (k, e))) == entries_map(es).insert(k, e),
{
    let es2 = es.insert(i, (k, e));
    assert forall|a: int, b: int| 0 <= a < b < es2.len() implies text::lex_lt(
        #[trigger] es2[a].0,
        #[trigger] es2[b].0,
    ) by {
        if a < i && b < i {
            assert(es2[a] == es[a] && es2[b] == es[b]);
        } else if a < i && b == i {
            assert(es2[a] == es[a]);
        } else if a < i && b > i {
            assert(es2[a] == es[a] && es2[b] == es[b - 1]);
            text::lemma_lex_transitive(es[a].0, k, es[b - 1].0);
        } else if a == i {
            assert(es2[b] == es[b - 1]);
        } else {
            assert(es2[a] == es[a - 1] && es2[b] == es[b - 1]);
        }
    }
    let m = entries_map(es);
    let m2 = entries_map(es2);
    assert(es2[i] == (k, e));
    lemma_entries_map_at(es2, i);
    assert forall|x: Seq<char>| #[trigger] m2.contains_key(x) == m.insert(k, e).contains_key(x) by {
        if m2.contains_key(x) && x != k {
            let j = choose|j: int| 0 <= j < es2.len() && #[trigger] es2[j].0 == x;
            assert(j != i);
            let j0 = if j < i {
                j
            } else {
                j - 1
            };
            assert(es[j0].0 == x);
            assert(has_key(es, x));
        }
        if m.contains_key(x) {
            let j0 = choose|j: int| 0 <= j < es.len() && #[trigger] es[j].0 == x;
            let j = if j0 < i {
                j0
            } else {
                j0 + 1
            };
            assert(es2[j].0 == x);
            assert(has_key(es2, x));
        }
    }
    assert forall|x: Seq<char>| #[trigger] m2.contains_key(x) implies m2[x] == m.insert(k, e)[x] by {
        if x != k {
            let j = choose|j: int| 0 <= j < es2.len() && #[trigger] es2[j].0 == x;
            assert(j != i);
            let j0 = if j < i {
                j
            } else {
                j - 1
            };
            assert(es[j0] == es2[j]);
            lemma_entries_map_at(es2, j);
            lemma_entries_map_at(es, j0);
        }
    }
    assert(m2 =~= m.insert(k, e));
}

proof fn lemma_update_at(es: Seq<(Seq<char>, EntryModel)>, i: int, e: EntryModel)
    requires
        keys_sorted(es),
        0 <= i < es.len(),
    ensures
        keys_sorted(es.update(i, (es[i].0, e))),
        entries_map(es.update(i, (es[i].0, e))) == entries_map(es).insert(es[i].0, e),
{
    let k = es[i].0;
    let es2 = es.update(i, (k, e));
    assert forall|a: int, b: int| 0 <= a < b < es2.len() implies text::lex_lt(
        #[trigger] es2[a].0,
        #[trigger] es2[b].0,
    ) by {
        assert(es2[a].0 == es[a].0 && es2[b].0 == es[b].0);
    }
    let m = entries_map(es);
    let m2 = entries_map(es2);
    lemma_entries_map_at(es2, i);
    assert forall|x: Seq<char>| #[trigger] m2.contains_key(x) == m.insert(k, e).contains_key(x) by {
        if m2.contains_key(x) {
            let j = choose|j: int| 0 <= j < es2.len() && #[trigger] es2[j].0 == x;
            assert(es[j].0 == x);
            assert(has_key(es, x));
        }
        if m.contains_key(x) {
            let j = choose|j: int| 0 <= j < es.len() && #[trigger] es[j].0 == x;
            assert(es2[j].0 == x);
            assert(has_key(es2, x));
        }
    }
    assert forall|x: Seq<char>| #[trigger] m2.contains_key(x) implies m2[x] == m.insert(k, e)[x] by {
        if x != k {
            let j = choose|j: int| 0 <= j < es2.len() && #[trigger] es2[j].0 == x;
            assert(j != i);
            assert(es[j] == es2[j]);
            lemma_entries_map_at(es2, j);
            lemma_entries_map_at(es, j);
        }
    }
    assert(m2 =~= m.insert(k, e));
}

// ---------------------------------------------------------------------------
// The store
// ---------------------------------------------------------------------------

/// The keys and values, in the order of the keys.
pub struct KvStore {
    slots: Vec<(String, ValueEntry)>,
}

pub open spec fn slot_view(s: (String, ValueEntry)) -> (Seq<char>, EntryModel) {
    (s.0@, s.1@)
}

/// Whether `k` holds a value that is alive at `now`.
pub open spec fn is_live(m: Map<Seq<char>, EntryModel>, k: Seq<char>, now: u64) -> bool {
    m.contains_key(k) && m[k].alive(now)
}

impl KvStore {
    /// The entries in the order of their keys.
    pub closed spec fn entries(&self) -> Seq<(Seq<char>, EntryModel)> {
        self.slots@.map_values(|s: (String, ValueEntry)| slot_view(s))
    }

    /// Each key stands once, and the keys are in order.
    pub open spec fn wf(&self) -> bool {
        keys_sorted(self.entries())
    }

    /// An empty store.
    pub fn new() -> (s: Self)
        ensures
            s.wf(),
            s@ == Map::<Seq<char>, EntryModel>::empty(),
            s.entries() == Seq::<(Seq<char>, EntryModel)>::empty(),
    {
        let s = KvStore { slots: Vec::new() };
        assert(s.entries() =~= Seq::<(Seq<char>, EntryModel)>::empty());
        assert(s@ =~= Map::<Seq<char>, EntryModel>::empty());
        s
    }

    /// Where `key` stands, or would stand: every earlier key is smaller, and
    /// the key there, if any, is not.
    fn locate(&self, key: &Vec<char>) -> (r: (usize, bool))
        requires
            self.wf(),
        ensures
            r.0 <= self.entries().len(),
            forall|j: int| 0 <= j < r.0 ==> text::lex_lt(#[trigger] self.entries()[j].0, key@),
            forall|j: int|
                r.0 <= j < self.entries().len() ==> !r.1 ==> text::lex_lt(
                    key@,
                    #[trigger] self.entries()[j].0,
                ),
            r.1 == (r.0 < self.entries().len() && self.entries()[r.0 as int].0 == key@),
            r.1 == self@.contains_key(key@),
    {
        let ghost es = self.entries();
        let mut i: usize = 0;
        while i < self.slots.len()
            invariant
                i <= self.slots.len(),
                es == self.entries(),
                es.len() == self.slots.len(),
                keys_sorted(es),
                forall|j: int| 0 <= j < i ==> text::lex_lt(#[trigger] es[j].0, key@),
            decreases self.slots.len() - i,
        {
            let kc = chars_of(self.slots[i].0.as_str());
            assert(es[i as int].0 == kc@);
            if !lex_less(&kc, key) {
                let ghost found = kc@ == key@;
                let found_exec = text::seq_eq(&kc, key);
                proof {
                    if !found {
                        text::lemma_lex_total(kc@, key@);
                        assert forall|j: int| i <= j < es.len() implies text::lex_lt(
                            key@,
                            #[trigger] es[j].0,
                        ) by {
                            if j > i {
                                text::lemma_lex_transitive(key@, es[i as int].0, es[j].0);
                            }
                        }
                        if has_key(es, key@) {
                            let w = choose|w: int| 0 <= w < es.len() && #[trigger] es[w].0 == key@;
                            if w < i {
                                text::lemma_lex_irreflexive(key@);
                            } else {
                                text::lemma_lex_irreflexive(key@);
                            }
                        }
                    } else {
                        assert(has_key(es, key@));
                    }
                }
                return (i, found_exec);
            }
            i = i + 1;
        }
        proof {
            if has_key(es, key@) {
                let w = choose|w: int| 0 <= w < es.len() && #[trigger] es[w].0 == key@;
                text::lemma_lex_irreflexive(key@);
            }
        }
        (i, false)
    }

    /// Gives `key` the value `entry`, in place of any value it had.
    fn put_entry(&mut self, key: String, entry: ValueEntry)
        requires
            old(self).wf(),
        ensures
            final(self).wf(),
            final(self)@ == old(self)@.insert(key@, entry@),
    {
        let kc = chars_of(key.as_str());
        let (i, found) = self.locate(&kc);
        let ghost es = self.entries();
        let ghost e = entry@;
        if found {
            self.slots.set(i, (key, entry));
            proof {
                assert(self.entries() =~= es.update(i as int, (es[i as int].0, e)));
                lemma_update_at(es, i as int, e);
            }
        } else {
            let ghost k = key@;
            self.slots.insert(i, (key, entry));
            proof {
                assert(self.entries() =~= es.insert(i as int, (k, e)));
                lemma_insert_at(es, i as int, k, e);
            }
        }
    }

    /// Removes `key` and its value, if it is there.
    fn remove_entry(&mut self, key: &str)
        requires
            old(self).wf(),
        ensures
            final(self).wf(),
            final(self)@ == old(self)@.remove(key@),
    {
        let kc = chars_of(key);
        let (i, found) = self.locate(&kc);
        let ghost es = self.entries();
        if found {
            self.slots.remove(i);
            proof {
                assert(self.entries() =~= es.remove(i as int));
                lemma_remove_at(es, i as int);
            }
        } else {
            assert(self@ =~= old(self)@.remove(key@));
        }
    }
}

/// The live keys, in the store's order: each key once, in increasing order.
pub open spec fn strictly_sorted(s: Seq<Seq<char>>) -> bool {
    forall|i: int, j: int| 0 <= i < j < s.len() ==> text::lex_lt(#[trigger] s[i], #[trigger] s[j])
}

/// The keys whose values are alive at `now`.
pub open spec fn live_set(m: Map<Seq<char>, EntryModel>, now: u64) -> Set<Seq<char>> {
    m.dom().filter(|k: Seq<char>| m[k].alive(now))
}

/// A sequence that holds exactly the live keys, each once and in order.
pub open spec fn lists_live_keys(s: Seq<Seq<char>>, m: Map<Seq<char>, EntryModel>, now: u64) -> bool {
    &&& strictly_sorted(s)
    &&& forall|k: Seq<char>| #[trigger] s.contains(k) <==> is_live(m, k, now)
}

/// The live keys in increasing order.
pub open spec fn sorted_live_keys(m: Map<Seq<char>, EntryModel>, now: u64) -> Seq<Seq<char>> {
    choose|s: Seq<Seq<char>>| lists_live_keys(s, m, now)
}

/// Two sequences in increasing order with the same elements are the same.
pub proof fn lemma_sorted_unique(a: Seq<Seq<char>>, b: Seq<Seq<char>>)
    requires
        strictly_sorted(a),
        strictly_sorted(b),
        forall|k: Seq<char>| #[trigger] a.contains(k) <==> b.contains(k),
    ensures
        a == b,
    decreases a.len(),
{
    if a.len() == 0 {
        if b.len() > 0 {
            assert(b.contains(b[0]));
            assert(a.contains(b[0]));
        }
        assert(a =~= b);
    } else {
        assert(a.contains(a[0]));
        assert(b.contains(a[0]));
        let j = choose|j: int| 0 <= j < b.len() && b[j] == a[0];
        assert(b.contains(b[0]));
        assert(a.contains(b[0]));
        let i = choose|i: int| 0 <= i < a.len() && a[i] == b[0];
        if j > 0 {
            assert(text::lex_lt(b[0], b[j]));
            if i > 0 {
                assert(text::lex_lt(a[0], a[i]));
                text::lemma_lex_asymmetric(a[0], a[i]);
            } else {
                text::lemma_lex_irreflexive(a[0]);
            }
        }
        assert(a[0] == b[0]);
        let a1 = a.drop_first();
        let b1 = b.drop_first();
        assert forall|k: Seq<char>| #[trigger] a1.contains(k) <==> b1.contains(k) by {
            if a1.contains(k) {
                let x = choose|x: int| 0 <= x < a1.len() && a1[x] == k;
                assert(a[x + 1] == k);
                assert(a.contains(k));
                let y = choose|y: int| 0 <= y < b.len() && b[y] == k;
                text::lemma_lex_asymmetric(a[0], a[x + 1]);
                assert(y != 0);
                assert(b1[y - 1] == k);
            }
            if b1.contains(k) {
                let y = choose|y: int| 0 <= y < b1.len() && b1[y] == k;
                assert(b[y + 1] == k);
                assert(b.contains(k));
                assert(a.contains(k));
                let x = choose|x: int| 0 <= x < a.len() && a[x] == k;
                text::lemma_lex_asymmetric(b[0], b[y + 1]);
                assert(x != 0);
                assert(a1[x - 1] == k);
            }
        }
        assert(strictly_sorted(a1)) by {
            assert forall|x: int, y: int| 0 <= x < y < a1.len() implies text::lex_lt(
                #[trigger] a1[x],
                #[trigger] a1[y],
            ) by {
                assert(a1[x] == a[x + 1] && a1[y] == a[y + 1]);
            }
        }
        assert(strictly_sorted(b1)) by {
            assert forall|x: int, y: int| 0 <= x < y < b1.len() implies text::lex_lt(
                #[trigger] b1[x],
                #[trigger] b1[y],
            ) by {
                assert(b1[x] == b[x + 1] && b1[y] == b[y + 1]);
            }
        }
        lemma_sorted_unique(a1, b1);
        assert(a =~= seq![a[0]] + a1);
        assert(b =~= seq![b[0]] + b1);
    }
}

/// What `ttl` reports: -2 for a key without a live value, -1 for a value that
/// never expires, else the seconds left, rounded up.
pub open spec fn ttl_of(m: Map<Seq<char>, EntryModel>, k: Seq<char>, now: u64) -> int {
    if !is_live(m, k, now) {
        -2
    } else {
        match m[k].expire_at {
            None => -1,
            Some(t) => {
                let left = t - now;
                left / 1000 + (if left % 1000 > 0 {
                    1int
                } else {
                    0int
                })
            },
        }
    }
}

/// The record that rewrites an entry in a compacted log.
pub open spec fn entry_record(e: (Seq<char>, EntryModel)) -> RecordModel {
    match e.1.expire_at {
        None => RecordModel::Put { key: e.0, value: e.1.value },
        Some(t) => RecordModel::PutEx { key: e.0, value: e.1.value, expire_at: t },
    }
}

/// The records of the entries alive at `now`, in order.
pub open spec fn snapshot(es: Seq<(Seq<char>, EntryModel)>, now: u64) -> Seq<RecordModel>
    decreases es.len(),
{
    if es.len() == 0 {
        seq![]
    } else {
        let s = snapshot(es.drop_last(), now);
        if es.last().1.alive(now) {
            s.push(entry_record(es.last()))
        } else {
            s
        }
    }
}

/// The expiry time `secs` seconds after `now` (both in the store's unit,
/// milliseconds for `now`).
pub fn unix_ms_after_secs(now: u64, secs: u64) -> (t: u64)
    requires
        now + secs * 1000 <= u64::MAX,
    ensures
        t == now + secs * 1000,
{
    now + secs * 1000
}

/// The path of the temporary file that compaction writes before it replaces
/// the log: the log's path with `.tmp` appended.
pub fn compact_tmp_path(path: &str) -> (p: String)
    ensures
        p@ == path@ + ".tmp"@,
{
    let mut p = path.to_owned();
    p.append(".tmp");
    p
}

impl KvStore {
    proof fn lemma_entry(&self, i: int)
        requires
            0 <= i < self.slots@.len(),
        ensures
            self.entries().len() == self.slots@.len(),
            self.entries()[i] == slot_view(self.slots@[i]),
    {
    }

    pub fn is_live_key(&self, key: &str, now: u64) -> (b: bool)
        requires
            self.wf(),
        ensures
            b == is_live(self@, key@, now),
    {
        let kc = chars_of(key);
        let (i, found) = self.locate(&kc);
        if found {
            proof {
                self.lemma_entry(i as int);
                lemma_entries_map_at(self.entries(), i as int);
            }
            self.slots[i].1.alive(now)
        } else {
            false
        }
    }

    /// Gives a present key the expiry time `t`; an absent key is left alone.
    fn set_expiry(&mut self, key: String, t: u64)
        requires
            old(self).wf(),
        ensures
            final(self).wf(),
            final(self)@ == (if old(self)@.contains_key(key@) {
                old(self)@.insert(
                    key@,
                    EntryModel { value: old(self)@[key@].value, expire_at: Some(t) },
                )
            } else {
                old(self)@
            }),
    {
        let kc = chars_of(key.as_str());
        let (i, found) = self.locate(&kc);
        let ghost es = self.entries();
        if found {
            proof {
                self.lemma_entry(i as int);
                lemma_entries_map_at(es, i as int);
            }
            let v = self.slots[i].1.value.clone();
            let ghost e = EntryModel { value: v@, expire_at: Some(t) };
            self.slots.set(i, (key, ValueEntry { value: v, expire_at: Some(t) }));
            proof {
                assert(self.entries() =~= es.update(i as int, (es[i as int].0, e)));
                lemma_update_at(es, i as int, e);
            }
        }
    }

    /// Carries out a record in memory, once it is in the log.
    pub fn commit(&mut self, rec: LogRecord)
        requires
            old(self).wf(),
        ensures
            final(self).wf(),
            final(self)@ == log::apply_record(old(self)@, rec@),
    {
        match rec {
            LogRecord::Put { key, value } => {
                self.put_entry(key, ValueEntry::permanent(value));
            },
            LogRecord::PutEx { key, value, expire_at } => {
                self.put_entry(key, ValueEntry { value, expire_at: Some(expire_at) });
            },
            LogRecord::Expire { key, expire_at } => {
                self.set_expiry(key, expire_at);
            },
            LogRecord::Del { key } => {
                self.remove_entry(key.as_str());
            },
        }
    }

    /// Decides a `set`: a valid key gives the record that stores `value`
    /// under `key` for good; an invalid one gives the error.
    pub fn set(&self, key: String, value: String) -> (r: Result<LogRecord, KvError>)
        ensures
            match r {
                Ok(rec) => key_error(key@) is None && rec@ == (RecordModel::Put {
                    key: key@,
                    value: value@,
                }),
                Err(e) => key_error(key@) == Some(e.0@),
            },
    {
        match validate_key(key.as_str()) {
            Err(e) => Err(e),
            Ok(()) => Ok(LogRecord::Put { key, value }),
        }
    }

    /// Decides a `setex`: a valid key gives the record that stores `value`
    /// under `key` until `secs` seconds after `now`.
    pub fn setex(&self, key: String, secs: u64, value: String, now: u64) -> (r: Result<
        LogRecord,
        KvError,
    >)
        requires
            key_error(key@) is None ==> now + secs * 1000 <= u64::MAX,
        ensures
            match r {
                Ok(rec) => key_error(key@) is None && rec@ == (RecordModel::PutEx {
                    key: key@,
                    value: value@,
                    expire_at: (now + secs * 1000) as u64,
                }),
                Err(e) => key_error(key@) == Some(e.0@),
            },
    {
        match validate_key(key.as_str()) {
            Err(e) => Err(e),
            Ok(()) => {
                let t = unix_ms_after_secs(now, secs);
                Ok(LogRecord::PutEx { key, value, expire_at: t })
            },
        }
    }

    /// Decides an `expire`: for a valid key with a live value, the record that
    /// makes it expire `secs` seconds after `now`; `None` for a key without one.
    pub fn expire(&self, key: &str, secs: u64, now: u64) -> (r: Result<Option<LogRecord>, KvError>)
        requires
            self.wf(),
            key_error(key@) is None && is_live(self@, key@, now) ==> now + secs * 1000
                <= u64::MAX,
        ensures
            match r {
                Ok(Some(rec)) => key_error(key@) is None && is_live(self@, key@, now) && rec@
                    == (RecordModel::Expire { key: key@, expire_at: (now + secs * 1000) as u64 }),
                Ok(None) => key_error(key@) is None && !is_live(self@, key@, now),
                Err(e) => key_error(key@) == Some(e.0@),
            },
    {
        match validate_key(key) {
            Err(e) => Err(e),
            Ok(()) => {
                if !self.is_live_key(key, now) {
                    Ok(None)
                } else {
                    let t = unix_ms_after_secs(now, secs);
                    Ok(Some(LogRecord::Expire { key: key.to_owned(), expire_at: t }))
                }
            },
        }
    }

    /// Decides a `del`: for a valid key with a live value, the record that
    /// removes it; `None` for a key without one.
    pub fn del(&self, key: &str, now: u64) -> (r: Result<Option<LogRecord>, KvError>)
        requires
            self.wf(),
        ensures
            match r {
                Ok(Some(rec)) => key_error(key@) is None && is_live(self@, key@, now) && rec@
                    == (RecordModel::Del { key: key@ }),
                Ok(None) => key_error(key@) is None && !is_live(self@, key@, now),
                Err(e) => key_error(key@) == Some(e.0@),
            },
    {
        match validate_key(key) {
            Err(e) => Err(e),
            Ok(()) => {
                if self.is_live_key(key, now) {
                    Ok(Some(LogRecord::Del { key: key.to_owned() }))
                } else {
                    Ok(None)
                }
            },
        }
    }

    /// The value of `key` if it is alive at `now`; a value that has expired
    /// is dropped from the store on the way.
    pub fn get(&mut self, key: &str, now: u64) -> (r: Option<String>)
        requires
            old(self).wf(),
        ensures
            final(self).wf(),
            match r {
                Some(v) => is_live(old(self)@, key@, now) && v@ == old(self)@[key@].value,
                None => !is_live(old(self)@, key@, now),
            },
            final(self)@ == (if old(self)@.contains_key(key@) && !old(self)@[key@].alive(now) {
                old(self)@.remove(key@)
            } else {
                old(self)@
            }),
    {
        let kc = chars_of(key);
        let (i, found) = self.locate(&kc);
        if !found {
            return None;
        }
        let ghost es = self.entries();
        proof {
            self.lemma_entry(i as int);
            lemma_entries_map_at(es, i as int);
        }
        if self.slots[i].1.alive(now) {
            Some(self.slots[i].1.value.clone())
        } else {
            self.slots.remove(i);
            proof {
                assert(self.entries() =~= es.remove(i as int));
                lemma_remove_at(es, i as int);
            }
            None
        }
    }

    /// The seconds that `key` has left: -2 without a live value, -1 for a
    /// value that never expires.
    pub fn ttl(&self, key: &str, now: u64) -> (r: Option<i64>)
        requires
            self.wf(),
        ensures
            r matches Some(t) && t as int == ttl_of(self@, key@, now),
    {
        let kc = chars_of(key);
        let (i, found) = self.locate(&kc);
        if !found {
            return Some(-2);
        }
        proof {
            self.lemma_entry(i as int);
            lemma_entries_map_at(self.entries(), i as int);
        }
        let e = &self.slots[i].1;
        if !e.alive(now) {
            return Some(-2);
        }
        match e.expire_at {
            None => Some(-1),
            Some(t) => {
                let left = t - now;
                let secs = left / 1000;
                let extra: u64 = if left % 1000 > 0 {
                    1
                } else {
                    0
                };
                assert(secs <= u64::MAX / 1000);
                Some((secs + extra) as i64)
            },
        }
    }

    /// The keys with live values, in increasing order.
    pub fn keys(&self, now: u64) -> (r: Vec<String>)
        requires
            self.wf(),
        ensures
            lists_live_keys(text::strings_view(r@), self@, now),
            text::strings_view(r@) == sorted_live_keys(self@, now),
    {
        let ghost es = self.entries();
        let mut out: Vec<String> = Vec::new();
        let ghost mut src: Seq<int> = seq![];
        let mut i: usize = 0;
        while i < self.slots.len()
            invariant
                i <= self.slots@.len(),
                es == self.entries(),
                es.len() == self.slots@.len(),
                keys_sorted(es),
                strictly_sorted(text::strings_view(out@)),
                src.len() == out@.len(),
                forall|j: int|
                    0 <= j < out@.len() ==> 0 <= #[trigger] src[j] < i && es[src[j]].0 == out@[j]@
                        && es[src[j]].1.alive(now),
                forall|p: int|
                    0 <= p < i && #[trigger] es[p].1.alive(now) ==> text::strings_view(
                        out@,
                    ).contains(es[p].0),
            decreases self.slots.len() - i,
        {
            proof {
                self.lemma_entry(i as int);
            }
            if self.slots[i].1.alive(now) {
                let ghost before = out@;
                let ghost src0 = src;
                let k = self.slots[i].0.clone();
                out.push(k);
                proof {
                    src = src.push(i as int);
                    let sv = text::strings_view(out@);
                    assert(sv =~= text::strings_view(before).push(es[i as int].0));
                    assert forall|a: int, b: int| 0 <= a < b < sv.len() implies text::lex_lt(
                        #[trigger] sv[a],
                        #[trigger] sv[b],
                    ) by {
                        if b == sv.len() - 1 {
                            assert(0 <= src0[a] < i);
                            assert(text::lex_lt(es[src0[a]].0, es[i as int].0));
                        }
                    }
                    assert forall|j: int|
                        0 <= j < out@.len() implies 0 <= #[trigger] src[j] < i + 1 && es[src[j]].0
                        == out@[j]@ && es[src[j]].1.alive(now) by {
                        if j < before.len() {
                            assert(src[j] == src0[j]);
                            assert(out@[j] == before[j]);
                        }
                    }
                    assert forall|p: int|
                        0 <= p < i + 1 && #[trigger] es[p].1.alive(now) implies sv.contains(
                        es[p].0,
                    ) by {
                        if p < i {
                            let w = choose|w: int|
                                0 <= w < text::strings_view(before).len() && text::strings_view(
                                    before,
                                )[w] == es[p].0;
                            assert(sv[w] == es[p].0);
                        } else {
                            assert(sv[sv.len() - 1] == es[p].0);
                        }
                    }
                }
            }
            i = i + 1;
        }
        proof {
            let sv = text::strings_view(out@);
            let m = self@;
            assert forall|k: Seq<char>| #[trigger] sv.contains(k) <==> is_live(m, k, now) by {
                if sv.contains(k) {
                    let w = choose|w: int| 0 <= w < sv.len() && sv[w] == k;
                    assert(sv[w] == out@[w]@);
                    assert(0 <= src[w] < i);
                    lemma_entries_map_at(es, src[w]);
                }
                if is_live(m, k, now) {
                    let p = key_index(es, k);
                    lemma_entries_map_at(es, p);
                    assert(es[p].1.alive(now));
                }
            }
            assert(lists_live_keys(sv, m, now));
            let c = sorted_live_keys(m, now);
            lemma_sorted_unique(sv, c);
        }
        out
    }

    /// The number of keys with live values.
    pub fn len(&self, now: u64) -> (n: usize)
        requires
            self.wf(),
        ensures
            n == live_set(self@, now).len(),
    {
        let ks = self.keys(now);
        proof {
            let sv = text::strings_view(ks@);
            assert(sv.no_duplicates()) by {
                assert forall|a: int, b: int| 0 <= a < sv.len() && 0 <= b < sv.len() && a != b implies sv[a] != sv[b] by {
                    if a < b {
                        text::lemma_lex_asymmetric(sv[a], sv[b]);
                    } else {
                        text::lemma_lex_asymmetric(sv[b], sv[a]);
                    }
                }
            }
            sv.unique_seq_to_set();
            assert(sv.to_set() =~= live_set(self@, now));
        }
        ks.len()
    }

    /// Whether no key has a live value.
    pub fn is_empty(&self, now: u64) -> (b: bool)
        requires
            self.wf(),
        ensures
            b == (live_set(self@, now).len() == 0),
    {
        self.len(now) == 0
    }

    /// Empties the store and says how many entries it held, expired ones
    /// included.
    pub fn clear(&mut self) -> (n: usize)
        requires
            old(self).wf(),
        ensures
            final(self).wf(),
            final(self)@ == Map::<Seq<char>, EntryModel>::empty(),
            n == old(self)@.dom().len(),
    {
        let n = self.slots.len();
        proof {
            let es = self.entries();
            let ks = es.map_values(|e: (Seq<char>, EntryModel)| e.0);
            assert(ks.no_duplicates()) by {
                assert forall|a: int, b: int| 0 <= a < ks.len() && 0 <= b < ks.len() && a != b implies ks[a] != ks[b] by {
                    if a < b {
                        text::lemma_lex_asymmetric(es[a].0, es[b].0);
                    } else {
                        text::lemma_lex_asymmetric(es[b].0, es[a].0);
                    }
                }
            }
            ks.unique_seq_to_set();
            assert forall|k: Seq<char>| #[trigger] ks.to_set().contains(k) <==> self@.dom().contains(k) by {
                if ks.to_set().contains(k) {
                    let w = choose|w: int| 0 <= w < ks.len() && ks[w] == k;
                    assert(es[w].0 == k);
                    assert(has_key(es, k));
                }
                if self@.dom().contains(k) {
                    let p = key_index(es, k);
                    assert(ks[p] == k);
                }
            }
            assert(ks.to_set() =~= self@.dom());
        }
        self.slots = Vec::new();
        assert(self.entries() =~= Seq::<(Seq<char>, EntryModel)>::empty());
        assert(self@ =~= Map::<Seq<char>, EntryModel>::empty());
        n
    }

    /// Drops the values that have expired at `now`.
    fn purge(&mut self, now: u64)
        requires
            old(self).wf(),
        ensures
            final(self).wf(),
            final(self)@ == log::purge_expired(old(self)@, now),
    {
        let ghost es = self.entries();
        let mut kept: Vec<(String, ValueEntry)> = Vec::new();
        let ghost mut src: Seq<int> = seq![];
        let mut i: usize = 0;
        while i < self.slots.len()
            invariant
                i <= self.slots@.len(),
                es == self.entries(),
                es.len() == self.slots@.len(),
                keys_sorted(es),
                src.len() == kept@.len(),
                keys_sorted(kept@.map_values(|s: (String, ValueEntry)| slot_view(s))),
                forall|j: int|
                    0 <= j < kept@.len() ==> 0 <= #[trigger] src[j] < i && slot_view(kept@[j])
                        == es[src[j]] && es[src[j]].1.alive(now),
                forall|p: int|
                    0 <= p < i && #[trigger] es[p].1.alive(now) ==> has_key(
                        kept@.map_values(|s: (String, ValueEntry)| slot_view(s)),
                        es[p].0,
                    ),
            decreases self.slots.len() - i,
        {
            proof {
                self.lemma_entry(i as int);
            }
            if self.slots[i].1.alive(now) {
                let ghost before = kept@;
                let ghost src0 = src;
                let k = self.slots[i].0.clone();
                let val = self.slots[i].1.value.clone();
                let item = (k, ValueEntry { value: val, expire_at: self.slots[i].1.expire_at });
                assert(slot_view(item) == es[i as int]);
                kept.push(item);
                proof {
                    src = src.push(i as int);
                    let kv0 = before.map_values(|s: (String, ValueEntry)| slot_view(s));
                    let kv = kept@.map_values(|s: (String, ValueEntry)| slot_view(s));
                    assert(kv =~= kv0.push(es[i as int]));
                    assert forall|a: int, b: int| 0 <= a < b < kv.len() implies text::lex_lt(
                        #[trigger] kv[a].0,
                        #[trigger] kv[b].0,
                    ) by {
                        if b == kv.len() - 1 {
                            assert(kv[a] == slot_view(before[a]));
                            assert(0 <= src0[a] < i);
                            assert(text::lex_lt(es[src0[a]].0, es[i as int].0));
                        } else {
                            assert(kv[a] == kv0[a] && kv[b] == kv0[b]);
                        }
                    }
                    assert forall|j: int|
                        0 <= j < kept@.len() implies 0 <= #[trigger] src[j] < i + 1 && slot_view(
                        kept@[j],
                    ) == es[src[j]] && es[src[j]].1.alive(now) by {
                        if j < before.len() {
                            assert(src[j] == src0[j]);
                            assert(kept@[j] == before[j]);
                        }
                    }
                    assert forall|p: int|
                        0 <= p < i + 1 && #[trigger] es[p].1.alive(now) implies has_key(
                        kv,
                        es[p].0,
                    ) by {
                        if p < i {
                            let w = choose|w: int| 0 <= w < kv0.len() && #[trigger] kv0[w].0 == es[p].0;
                            assert(kv[w] == kv0[w]);
                        } else {
                            assert(kv[kv.len() - 1].0 == es[p].0);
                        }
                    }
                }
            }
            i = i + 1;
        }
        self.slots = kept;
        proof {
            let kv = self.entries();
            assert(kv =~= kept@.map_values(|s: (String, ValueEntry)| slot_view(s)));
            let m = entries_map(es);
            let m2 = entries_map(kv);
            let pm = log::purge_expired(m, now);
            assert forall|k: Seq<char>| #[trigger] m2.contains_key(k) == pm.contains_key(k) by {
                if m2.contains_key(k) {
                    let w = key_index(kv, k);
                    assert(0 <= src[w] < i);
                    lemma_entries_map_at(es, src[w]);
                    assert(has_key(es, k));
                }
                if pm.contains_key(k) {
                    let p = key_index(es, k);
                    lemma_entries_map_at(es, p);
                }
            }
            assert forall|k: Seq<char>| #[trigger] m2.contains_key(k) implies m2[k] == pm[k] by {
                let w = key_index(kv, k);
                assert(0 <= src[w] < i);
                lemma_entries_map_at(kv, w);
                lemma_entries_map_at(es, src[w]);
            }
            assert(m2 =~= pm);
        }
    }

    /// Rebuilds the store from the text of its log: the records replayed in
    /// order, then the values that have expired at `now` dropped. A bad line
    /// rejects the whole log.
    pub fn open(log: &str, now: u64) -> (r: Result<KvStore, KvError>)
        ensures
            match (r, log::parse_log(log@)) {
                (Ok(s), Ok(rs)) => s.wf() && s@ == log::purge_expired(
                    log::replay(Map::empty(), rs),
                    now,
                ),
                (Err(e), Err(m)) => e.0@ == m,
                _ => false,
            },
    {
        let v = chars_of(log);
        let mut store = KvStore::new();
        let mut err: Option<String> = None;
        let ghost mut lines: Seq<Seq<char>> = seq![];
        let ghost mut rs: Seq<RecordModel> = seq![];
        let mut start: usize = 0;
        let mut i: usize = 0;
        assert(v@.take(0) =~= Seq::<char>::empty());
        assert(v@.subrange(0, 0) =~= Seq::<char>::empty());
        while i < v.len()
            invariant
                start <= i <= v.len(),
                v@ == log@,
                text::split_state(v@.take(i as int), '\n') == (lines, v@.subrange(
                    start as int,
                    i as int,
                )),
                store.wf(),
                match err {
                    Some(m) => log::parse_lines(lines) == Err::<Seq<RecordModel>, Seq<char>>(m@),
                    None => log::parse_lines(lines) == Ok::<Seq<RecordModel>, Seq<char>>(rs)
                        && store@ == log::replay(Map::empty(), rs),
                },
            decreases v.len() - i,
        {
            assert(v@.take(i + 1).drop_last() =~= v@.take(i as int));
            if v[i] == '\n' {
                let ghost piece = v@.subrange(start as int, i as int);
                if err.is_none() {
                    let e = text::trim_end_pos(&v, start, i);
                    if e > start {
                        match log::parse_record_line(&v, start, e) {
                            Ok(rec) => {
                                proof {
                                    assert(rs.push(rec@).drop_last() =~= rs);
                                    rs = rs.push(rec@);
                                }
                                store.commit(rec);
                            },
                            Err(m) => {
                                err = Some(m);
                            },
                        }
                    }
                }
                proof {
                    assert(lines.push(piece).drop_last() =~= lines);
                    lines = lines.push(piece);
                }
                start = i + 1;
                assert(v@.subrange(start as int, i + 1) =~= Seq::<char>::empty());
            } else {
                assert(v@.subrange(start as int, i + 1) =~= v@.subrange(start as int, i as int).push(
                    v@[i as int],
                ));
            }
            i = i + 1;
        }
        assert(v@.take(i as int) =~= v@);
        let ghost piece = v@.subrange(start as int, i as int);
        if err.is_none() {
            let e = text::trim_end_pos(&v, start, i);
            if e > start {
                match log::parse_record_line(&v, start, e) {
                    Ok(rec) => {
                        proof {
                            assert(rs.push(rec@).drop_last() =~= rs);
                            rs = rs.push(rec@);
                        }
                        store.commit(rec);
                    },
                    Err(m) => {
                        err = Some(m);
                    },
                }
            }
        }
        proof {
            assert(lines.push(piece).drop_last() =~= lines);
            lines = lines.push(piece);
            assert(lines == text::split_on(log@, '\n'));
        }
        match err {
            Some(m) => Err(KvError(m)),
            None => {
                store.purge(now);
                Ok(store)
            },
        }
    }

    /// The text of a compacted log: one record for each live entry, in the
    /// order of the keys.
    pub fn compact(&self, now: u64) -> (s: String)
        requires
            self.wf(),
        ensures
            s@ == log::encode_log(snapshot(self.entries(), now)),
    {
        let ghost es = self.entries();
        let mut out = String::new();
        let mut i: usize = 0;
        while i < self.slots.len()
            invariant
                i <= self.slots@.len(),
                es == self.entries(),
                es.len() == self.slots@.len(),
                out@ == log::encode_log(snapshot(es.take(i as int), now)),
            decreases self.slots.len() - i,
        {
            proof {
                self.lemma_entry(i as int);
                assert(es.take(i + 1).drop_last() =~= es.take(i as int));
            }
            let slot = &self.slots[i];
            if slot.1.alive(now) {
                let rec = match slot.1.expire_at {
                    None => LogRecord::Put { key: slot.0.clone(), value: slot.1.value.clone() },
                    Some(t) => LogRecord::PutEx {
                        key: slot.0.clone(),
                        value: slot.1.value.clone(),
                        expire_at: t,
                    },
                };
                assert(rec@ == entry_record(es[i as int]));
                let line = rec.encode();
                out.append(line.as_str());
                proof {
                    let s0 = snapshot(es.take(i as int), now);
                    assert(s0.push(rec@).drop_last() =~= s0);
                }
            }
            i = i + 1;
        }
        assert(es.take(i as int) =~= es);
        out
    }
}

impl View for KvStore {
    type V = Map<Seq<char>, EntryModel>;

    /// The map from each key to its value.
    open spec fn view(&self) -> Map<Seq<char>, EntryModel> {
        entries_map(self.entries())
    }
}

// ---------------------------------------------------------------------------
// Laws
// ---------------------------------------------------------------------------

proof fn lemma_snapshot_replay(es: Seq<(Seq<char>, EntryModel)>, now: u64)
    requires
        keys_sorted(es),
    ensures
        log::replay(Map::empty(), snapshot(es, now)) == log::purge_expired(entries_map(es), now),
    decreases es.len(),
{
    if es.len() == 0 {
        assert(entries_map(es) =~= Map::<Seq<char>, EntryModel>::empty());
        assert(log::purge_expired(entries_map(es), now) =~= Map::<Seq<char>, EntryModel>::empty());
    } else {
        let es0 = es.drop_last();
        let x = es.last();
        assert(keys_sorted(es0)) by {
            assert forall|i: int, j: int| 0 <= i < j < es0.len() implies text::lex_lt(
                #[trigger] es0[i].0,
                #[trigger] es0[j].0,
            ) by {
                assert(es0[i] == es[i] && es0[j] == es[j]);
            }
        }
        lemma_snapshot_replay(es0, now);
        assert forall|j: int| 0 <= j < es0.len() implies text::lex_lt(#[trigger] es0[j].0, x.0) by {
            assert(es0[j] == es[j]);
            assert(x == es[es.len() - 1]);
        }
        assert(es0.insert(es0.len() as int, x) =~= es);
        lemma_insert_at(es0, es0.len() as int, x.0, x.1);
        let m0 = entries_map(es0);
        assert(!m0.contains_key(x.0)) by {
            if m0.contains_key(x.0) {
                let w = key_index(es0, x.0);
                text::lemma_lex_irreflexive(x.0);
            }
        }
        let s0 = snapshot(es0, now);
        if x.1.alive(now) {
            let rec = entry_record(x);
            assert(s0.push(rec).drop_last() =~= s0);
            assert(log::apply_record(log::replay(Map::empty(), s0), rec) == log::replay(
                Map::empty(),
                s0,
            ).insert(x.0, x.1));
            assert(log::purge_expired(m0.insert(x.0, x.1), now) =~= log::purge_expired(m0, now).insert(
                x.0,
                x.1,
            ));
        } else {
            assert(log::purge_expired(m0.insert(x.0, x.1), now) =~= log::purge_expired(m0, now));
        }
    }
}

proof fn lemma_snapshot_members(es: Seq<(Seq<char>, EntryModel)>, now: u64, i: int)
    requires
        0 <= i < snapshot(es, now).len(),
    ensures
        exists|p: int|
            0 <= p < es.len() && es[p].1.alive(now) && snapshot(es, now)[i] == entry_record(
                #[trigger] es[p],
            ),
    decreases es.len(),
{
    let es0 = es.drop_last();
    let s0 = snapshot(es0, now);
    if i < s0.len() {
        lemma_snapshot_members(es0, now, i);
        let p = choose|p: int|
            0 <= p < es0.len() && es0[p].1.alive(now) && s0[i] == entry_record(#[trigger] es0[p]);
        assert(es[p] == es0[p]);
    } else {
        assert(es[es.len() - 1] == es.last());
    }
}

/// The entry of a live key can be written to the log and read back as it is.
pub open spec fn entry_faithful(k: Seq<char>, e: EntryModel) -> bool {
    log::record_faithful(entry_record((k, e)))
}

/// Compaction keeps the live data: the compacted log reads back as its
/// records, and replaying them gives exactly the values alive at `now`.
pub proof fn law_compaction_preserves_live_data(store: KvStore, now: u64)
    requires
        store.wf(),
        forall|k: Seq<char>| #[trigger]
            is_live(store@, k, now) ==> entry_faithful(k, store@[k]),
    ensures
        log::parse_log(log::encode_log(snapshot(store.entries(), now))) == Ok::<
            Seq<RecordModel>,
            Seq<char>,
        >(snapshot(store.entries(), now)),
        log::replay(Map::empty(), snapshot(store.entries(), now)) == log::purge_expired(
            store@,
            now,
        ),
{
    let es = store.entries();
    assert forall|k: Seq<char>| #[trigger] is_live(entries_map(es), k, now) implies entry_faithful(
        k,
        entries_map(es)[k],
    ) by {
        assert(is_live(store@, k, now));
    }
    lemma_snapshot_faithful(es, now);
    log::law_log_roundtrip(snapshot(es, now));
    lemma_snapshot_replay(es, now);
}

/// The records of a snapshot are faithful when the live entries are.
proof fn lemma_snapshot_faithful(es: Seq<(Seq<char>, EntryModel)>, now: u64)
    requires
        keys_sorted(es),
        forall|k: Seq<char>| #[trigger]
            is_live(entries_map(es), k, now) ==> entry_faithful(k, entries_map(es)[k]),
    ensures
        log::all_faithful(snapshot(es, now)),
{
    let snap = snapshot(es, now);
    assert forall|i: int| 0 <= i < snap.len() implies log::record_faithful(#[trigger] snap[i]) by {
        lemma_snapshot_members(es, now, i);
        let p = choose|p: int|
            0 <= p < es.len() && es[p].1.alive(now) && snap[i] == entry_record(#[trigger] es[p]);
        lemma_entries_map_at(es, p);
        assert(is_live(entries_map(es), es[p].0, now));
    }
}

proof fn lemma_sorted_prefix(es: Seq<(Seq<char>, EntryModel)>)
    requires
        keys_sorted(es),
        es.len() > 0,
    ensures
        keys_sorted(es.drop_last()),
        forall|j: int| 0 <= j < es.len() - 1 ==> text::lex_lt(#[trigger] es.drop_last()[j].0, es.last().0),
{
    let es0 = es.drop_last();
    assert forall|i: int, j: int| 0 <= i < j < es0.len() implies text::lex_lt(
        #[trigger] es0[i].0,
        #[trigger] es0[j].0,
    ) by {
        assert(es0[i] == es[i] && es0[j] == es[j]);
    }
    assert forall|j: int| 0 <= j < es.len() - 1 implies text::lex_lt(#[trigger] es0[j].0, es.last().0) by {
        assert(es0[j] == es[j]);
        assert(es.last() == es[es.len() - 1]);
    }
}

/// The records of a snapshot come in the order of their keys.
proof fn lemma_snapshot_sorted(es: Seq<(Seq<char>, EntryModel)>, now: u64)
    requires
        keys_sorted(es),
    ensures
        forall|i: int, j: int|
            0 <= i < j < snapshot(es, now).len() ==> text::lex_lt(
                record_key(#[trigger] snapshot(es, now)[i]),
                record_key(#[trigger] snapshot(es, now)[j]),
            ),
    decreases es.len(),
{
    if es.len() > 0 {
        let es0 = es.drop_last();
        lemma_sorted_prefix(es);
        lemma_snapshot_sorted(es0, now);
        let s0 = snapshot(es0, now);
        let s = snapshot(es, now);
        if es.last().1.alive(now) {
            assert forall|i: int, j: int| 0 <= i < j < s.len() implies text::lex_lt(
                record_key(#[trigger] s[i]),
                record_key(#[trigger] s[j]),
            ) by {
                assert(s[i] == s0[i]);
                if j < s0.len() {
                    assert(s[j] == s0[j]);
                } else {
                    lemma_snapshot_members(es0, now, i);
                    let p = choose|p: int|
                        0 <= p < es0.len() && es0[p].1.alive(now) && s0[i] == entry_record(
                            #[trigger] es0[p],
                        );
                    assert(text::lex_lt(es0[p].0, es.last().0));
                }
            }
        }
    }
}

/// Every live entry has its record in the snapshot.
proof fn lemma_snapshot_has(es: Seq<(Seq<char>, EntryModel)>, now: u64, p: int)
    requires
        0 <= p < es.len(),
        es[p].1.alive(now),
    ensures
        snapshot(es, now).contains(entry_record(es[p])),
    decreases es.len(),
{
    let es0 = es.drop_last();
    let s0 = snapshot(es0, now);
    let s = snapshot(es, now);
    if p == es.len() - 1 {
        assert(es.last() == es[p]);
        assert(s[s0.len() as int] == entry_record(es[p]));
    } else {
        assert(es0[p] == es[p]);
        lemma_snapshot_has(es0, now, p);
        let w = choose|w: int| 0 <= w < s0.len() && s0[w] == entry_record(es[p]);
        assert(s[w] == s0[w]);
    }
}

/// Each record of a snapshot is that of a live key, with the key's value.
proof fn lemma_snapshot_at(es: Seq<(Seq<char>, EntryModel)>, now: u64, i: int)
    requires
        keys_sorted(es),
        0 <= i < snapshot(es, now).len(),
    ensures
        is_live(entries_map(es), record_key(snapshot(es, now)[i]), now),
        snapshot(es, now)[i] == entry_record(
            (record_key(snapshot(es, now)[i]), entries_map(es)[record_key(snapshot(es, now)[i])]),
        ),
{
    lemma_snapshot_members(es, now, i);
    let p = choose|p: int|
        0 <= p < es.len() && es[p].1.alive(now) && snapshot(es, now)[i] == entry_record(
            #[trigger] es[p],
        );
    lemma_entries_map_at(es, p);
}

/// A snapshot depends on the live contents alone, not on what expired.
proof fn lemma_snapshot_of_live(a: Seq<(Seq<char>, EntryModel)>, b: Seq<(Seq<char>, EntryModel)>, now: u64)
    requires
        keys_sorted(a),
        keys_sorted(b),
        log::purge_expired(entries_map(a), now) == log::purge_expired(entries_map(b), now),
    ensures
        snapshot(a, now) == snapshot(b, now),
{
    let sa = snapshot(a, now);
    let sb = snapshot(b, now);
    let ma = entries_map(a);
    let mb = entries_map(b);
    let pa = log::purge_expired(ma, now);
    let pb = log::purge_expired(mb, now);
    assert forall|k: Seq<char>| is_live(ma, k, now) == is_live(mb, k, now) && (is_live(ma, k, now)
        ==> ma[k] == mb[k]) by {
        assert(pa.contains_key(k) == is_live(ma, k, now));
        assert(pb.contains_key(k) == is_live(mb, k, now));
        if is_live(ma, k, now) {
            assert(pa[k] == ma[k]);
            assert(pb[k] == mb[k]);
        }
    }
    let ka = sa.map_values(|r: RecordModel| record_key(r));
    let kb = sb.map_values(|r: RecordModel| record_key(r));
    lemma_snapshot_sorted(a, now);
    lemma_snapshot_sorted(b, now);
    assert(strictly_sorted(ka)) by {
        assert forall|i: int, j: int| 0 <= i < j < ka.len() implies text::lex_lt(
            #[trigger] ka[i],
            #[trigger] ka[j],
        ) by {
            assert(text::lex_lt(record_key(sa[i]), record_key(sa[j])));
        }
    }
    assert(strictly_sorted(kb)) by {
        assert forall|i: int, j: int| 0 <= i < j < kb.len() implies text::lex_lt(
            #[trigger] kb[i],
            #[trigger] kb[j],
        ) by {
            assert(text::lex_lt(record_key(sb[i]), record_key(sb[j])));
        }
    }
    assert forall|k: Seq<char>| #[trigger] ka.contains(k) == is_live(ma, k, now) by {
        if ka.contains(k) {
            let i = choose|i: int| 0 <= i < ka.len() && ka[i] == k;
            lemma_snapshot_at(a, now, i);
        }
        if is_live(ma, k, now) {
            let p = key_index(a, k);
            lemma_entries_map_at(a, p);
            lemma_snapshot_has(a, now, p);
            let i = choose|i: int| 0 <= i < sa.len() && sa[i] == entry_record(a[p]);
            assert(ka[i] == k);
        }
    }
    assert forall|k: Seq<char>| #[trigger] kb.contains(k) == is_live(mb, k, now) by {
        if kb.contains(k) {
            let i = choose|i: int| 0 <= i < kb.len() && kb[i] == k;
            lemma_snapshot_at(b, now, i);
        }
        if is_live(mb, k, now) {
            let p = key_index(b, k);
            lemma_entries_map_at(b, p);
            lemma_snapshot_has(b, now, p);
            let i = choose|i: int| 0 <= i < sb.len() && sb[i] == entry_record(b[p]);
            assert(kb[i] == k);
        }
    }
    assert forall|k: Seq<char>| #[trigger] ka.contains(k) <==> kb.contains(k) by {
        assert(ka.contains(k) == is_live(ma, k, now));
        assert(kb.contains(k) == is_live(mb, k, now));
    }
    lemma_sorted_unique(ka, kb);
    assert(sa.len() == sb.len()) by {
        assert(ka.len() == kb.len());
    }
    assert forall|i: int| 0 <= i < sa.len() implies sa[i] == sb[i] by {
        lemma_snapshot_at(a, now, i);
        lemma_snapshot_at(b, now, i);
        assert(ka[i] == kb[i]);
        let k = record_key(sa[i]);
        assert(record_key(sb[i]) == k);
        assert(ma[k] == mb[k]);
    }
    assert(sa =~= sb);
}

/// Compaction is stable: a store opened from a compacted log (which reads
/// back as its records, see `law_compaction_preserves_live_data`) compacts
/// to the same records and the same text again.
pub proof fn law_compaction_is_stable(store: KvStore, reopened: KvStore, now: u64)
    requires
        store.wf(),
        reopened.wf(),
        reopened@ == log::purge_expired(log::replay(Map::empty(), snapshot(store.entries(), now)), now),
    ensures
        snapshot(reopened.entries(), now) == snapshot(store.entries(), now),
        log::encode_log(snapshot(reopened.entries(), now)) == log::encode_log(
            snapshot(store.entries(), now),
        ),
{
    lemma_snapshot_replay(store.entries(), now);
    let p = log::purge_expired(store@, now);
    assert(log::purge_expired(p, now) =~= p);
    lemma_snapshot_of_live(reopened.entries(), store.entries(), now);
}

/// Every entry can be written to the log and read back as it is.
pub open spec fn store_faithful(m: Map<Seq<char>, EntryModel>) -> bool {
    forall|k: Seq<char>| #[trigger] m.contains_key(k) ==> entry_faithful(k, m[k])
}

/// Records that read back faithfully keep a store's entries so, committed
/// one after the other; so does dropping expired values.
pub proof fn law_faithful_store_kept(
    m: Map<Seq<char>, EntryModel>,
    rs: Seq<RecordModel>,
    now: u64,
)
    requires
        store_faithful(m),
        log::all_faithful(rs),
    ensures
        store_faithful(log::replay(m, rs)),
        store_faithful(log::purge_expired(m, now)),
    decreases rs.len(),
{
    if rs.len() > 0 {
        let rs0 = rs.drop_last();
        assert(log::all_faithful(rs0)) by {
            assert forall|i: int| 0 <= i < rs0.len() implies log::record_faithful(#[trigger] rs0[i]) by {
                assert(rs0[i] == rs[i]);
            }
        }
        law_faithful_store_kept(m, rs0, now);
        assert(log::record_faithful(rs[rs.len() - 1]));
        law_commit_keeps_faithful(log::replay(m, rs0), rs.last());
    }
}

/// Committing a record that reads back faithfully keeps every entry so.
pub proof fn law_commit_keeps_faithful(m: Map<Seq<char>, EntryModel>, r: RecordModel)
    requires
        store_faithful(m),
        log::record_faithful(r),
    ensures
        store_faithful(log::apply_record(m, r)),
{
    let m2 = log::apply_record(m, r);
    assert forall|k: Seq<char>| #[trigger] m2.contains_key(k) implies entry_faithful(k, m2[k]) by {
        if m.contains_key(k) {
            assert(entry_faithful(k, m[k]));
        }
    }
}

/// A store opened from a log holds only entries that compaction writes back
/// faithfully, whatever the log held.
pub proof fn law_opened_store_is_faithful(content: Seq<char>, now: u64)
    ensures
        log::parse_log(content) matches Ok(rs) ==> store_faithful(
            log::purge_expired(log::replay(Map::empty(), rs), now),
        ),
{
    log::law_parsed_records_are_faithful(content);
    if let Ok(rs) = log::parse_log(content) {
        let e = Map::<Seq<char>, EntryModel>::empty();
        law_faithful_store_kept(e, rs, now);
        law_faithful_store_kept(log::replay(e, rs), seq![], now);
    }
}

/// `x` holds entries of `y` as they are there, and what `y` holds beyond
/// them is no longer alive at `now`.
pub open spec fn agrees_live(x: Map<Seq<char>, EntryModel>, y: Map<Seq<char>, EntryModel>, now: u64) -> bool {
    &&& forall|k: Seq<char>| #[trigger] x.contains_key(k) ==> y.contains_key(k) && y[k] == x[k]
    &&& forall|k: Seq<char>|
        #[trigger] y.contains_key(k) && !x.contains_key(k) ==> !y[k].alive(now)
}

proof fn lemma_replay_agrees(
    x: Map<Seq<char>, EntryModel>,
    y: Map<Seq<char>, EntryModel>,
    rs: Seq<RecordModel>,
    now: u64,
)
    requires
        agrees_live(x, y, now),
        forall|i: int|
            #![trigger rs[i]]
            0 <= i < rs.len() && rs[i] is Expire ==> log::replay(x, rs.take(i)).contains_key(
                record_key(rs[i]),
            ),
    ensures
        agrees_live(log::replay(x, rs), log::replay(y, rs), now),
    decreases rs.len(),
{
    if rs.len() > 0 {
        let n = rs.len() - 1;
        let rs0 = rs.drop_last();
        assert forall|i: int|
            #![trigger rs0[i]]
            0 <= i < rs0.len() && rs0[i] is Expire implies log::replay(x, rs0.take(i)).contains_key(
            record_key(rs0[i]),
        ) by {
            assert(rs0[i] == rs[i]);
            assert(rs0.take(i) =~= rs.take(i));
        }
        lemma_replay_agrees(x, y, rs0, now);
        assert(rs.take(n) =~= rs0);
        assert(rs[n] == rs.last());
        let x0 = log::replay(x, rs0);
        let y0 = log::replay(y, rs0);
        let r = rs.last();
        if r is Expire {
            assert(x0.contains_key(record_key(rs[n])));
        }
        let x1 = log::apply_record(x0, r);
        let y1 = log::apply_record(y0, r);
        assert forall|k: Seq<char>| #[trigger] x1.contains_key(k) implies y1.contains_key(k) && y1[k]
            == x1[k] by {
            if x0.contains_key(k) {
                assert(y0.contains_key(k));
            }
        }
        assert forall|k: Seq<char>| #[trigger] y1.contains_key(k) && !x1.contains_key(k) implies !y1[k].alive(
            now,
        ) by {
            if x0.contains_key(k) {
                assert(y0.contains_key(k));
            }
            assert(y0.contains_key(k) && !x0.contains_key(k));
        }
    }
}

/// Restart recovery for a session: a store opened at `t0` from a log that
/// reads as `base`, then given the faithful records `rs` one after the
/// other (an expiry only to a key it holds, as `expire` gives one), holds at
/// any later `now` the same live entries as the store reopened at `now`
/// from that log with the records' lines appended. (`get` on the way drops
/// only values that are no longer alive; see `law_get_keeps_live_view`.)
pub proof fn law_restart_recovery(
    log: Seq<char>,
    base: Seq<RecordModel>,
    rs: Seq<RecordModel>,
    t0: u64,
    now: u64,
)
    requires
        log::parse_log(log) == Ok::<Seq<RecordModel>, Seq<char>>(base),
        log.len() == 0 || log.last() == '\n',
        log::all_faithful(rs),
        t0 <= now,
        forall|i: int|
            #![trigger rs[i]]
            0 <= i < rs.len() && rs[i] is Expire ==> log::replay(
                log::purge_expired(log::replay(Map::empty(), base), t0),
                rs.take(i),
            ).contains_key(record_key(rs[i])),
    ensures
        log::parse_log(log + log::encode_log(rs)) == Ok::<Seq<RecordModel>, Seq<char>>(base + rs),
        log::purge_expired(log::replay(Map::empty(), base + rs), now) == log::purge_expired(
            log::replay(log::purge_expired(log::replay(Map::empty(), base), t0), rs),
            now,
        ),
{
    log::law_log_extend(log, base, rs);
    let e = Map::<Seq<char>, EntryModel>::empty();
    log::law_log_append(e, base, rs);
    let y0 = log::replay(e, base);
    let x0 = log::purge_expired(y0, t0);
    assert(agrees_live(x0, y0, now));
    lemma_replay_agrees(x0, y0, rs, now);
    let x = log::replay(x0, rs);
    let y = log::replay(y0, rs);
    assert(log::purge_expired(y, now) =~= log::purge_expired(x, now)) by {
        assert forall|k: Seq<char>| #[trigger] log::purge_expired(y, now).contains_key(k) implies log::purge_expired(
            x,
            now,
        ).contains_key(k) by {
            if !x.contains_key(k) {
                assert(y.contains_key(k) && !x.contains_key(k));
            }
        }
    }
}

// ---------------------------------------------------------------------------
// Sessions
// ---------------------------------------------------------------------------

/// One step of a running server, as it changes the store and the log text.
pub enum SessionStep {
    /// A record written to the log at time `at`, then committed.
    Write { record: RecordModel, at: u64 },
    /// A value found expired by a read at time `at`, dropped from the store.
    Evict { key: Seq<char>, at: u64 },
    /// The log and the store emptied.
    Clear,
    /// The log rewritten at time `at` from the store's entries (in key order).
    Compact { entries: Seq<(Seq<char>, EntryModel)>, at: u64 },
}

/// The store, the text of its log, and the time of the latest step.
pub struct SessionState {
    pub store: Map<Seq<char>, EntryModel>,
    pub log: Seq<char>,
    pub time: u64,
}

/// The state once the log `log` is opened at `t0`.
pub open spec fn opened_state(log: Seq<char>, t0: u64) -> SessionState {
    SessionState {
        store: log::purge_expired(log::replay(Map::empty(), log_records(log)), t0),
        log,
        time: t0,
    }
}

/// The records of a log, or none when it does not read.
pub open spec fn log_records(log: Seq<char>) -> Seq<RecordModel> {
    match log::parse_log(log) {
        Ok(rs) => rs,
        Err(_) => Seq::empty(),
    }
}

/// What the server does before a step: time goes forward; a record is one
/// that reads back faithfully, and an expiry goes to a key alive then; a
/// compaction writes the store's own entries.
pub open spec fn step_allowed(s: SessionState, step: SessionStep) -> bool {
    match step {
        SessionStep::Write { record, at } => {
            &&& s.time <= at
            &&& log::record_faithful(record)
            &&& record is Expire ==> is_live(s.store, record_key(record), at)
        },
        SessionStep::Evict { key, at } => s.time <= at,
        SessionStep::Clear => true,
        SessionStep::Compact { entries, at } => {
            &&& s.time <= at
            &&& keys_sorted(entries)
            &&& entries_map(entries) == s.store
        },
    }
}

/// The state after a step.
pub open spec fn step_result(s: SessionState, step: SessionStep) -> SessionState {
    match step {
        SessionStep::Write { record, at } => SessionState {
            store: log::apply_record(s.store, record),
            log: s.log + log::encode_record(record),
            time: at,
        },
        SessionStep::Evict { key, at } => SessionState {
            store: if s.store.contains_key(key) && !s.store[key].alive(at) {
                s.store.remove(key)
            } else {
                s.store
            },
            log: s.log,
            time: at,
        },
        SessionStep::Clear => SessionState { store: Map::empty(), log: Seq::empty(), time: s.time },
        SessionStep::Compact { entries, at } => SessionState {
            store: s.store,
            log: log::encode_log(snapshot(entries, at)),
            time: at,
        },
    }
}

/// The state after the steps, one after the other.
pub open spec fn run_session(s: SessionState, steps: Seq<SessionStep>) -> SessionState
    decreases steps.len(),
{
    if steps.len() == 0 {
        s
    } else {
        step_result(run_session(s, steps.drop_last()), steps.last())
    }
}

/// Whether each step is allowed in the state before it.
pub open spec fn session_allowed(s: SessionState, steps: Seq<SessionStep>) -> bool
    decreases steps.len(),
{
    if steps.len() == 0 {
        true
    } else {
        session_allowed(s, steps.drop_last()) && step_allowed(
            run_session(s, steps.drop_last()),
            steps.last(),
        )
    }
}

/// Keys on both sides agree; a key on one side only is no longer alive at
/// `t` there.
spec fn agree_at(x: Map<Seq<char>, EntryModel>, y: Map<Seq<char>, EntryModel>, t: u64) -> bool {
    &&& forall|k: Seq<char>|
        #[trigger] x.contains_key(k) && y.contains_key(k) ==> x[k] == y[k]
    &&& forall|k: Seq<char>|
        #[trigger] x.contains_key(k) && !y.contains_key(k) ==> !x[k].alive(t)
    &&& forall|k: Seq<char>|
        #[trigger] y.contains_key(k) && !x.contains_key(k) ==> !y[k].alive(t)
}

/// What holds of every state of a session: the log reads, its replay agrees
/// with the store, the store writes back faithfully.
spec fn session_inv(s: SessionState) -> bool {
    &&& log::parse_log(s.log) is Ok
    &&& agree_at(s.store, log::replay(Map::empty(), log_records(s.log)), s.time)
    &&& store_faithful(s.store)
    &&& s.log.len() == 0 || s.log.last() == '\n'
}

proof fn lemma_dead_stays_dead(e: EntryModel, t: u64, t2: u64)
    requires
        !e.alive(t),
        t <= t2,
    ensures
        !e.alive(t2),
{
}

proof fn lemma_step_keeps_inv(s: SessionState, step: SessionStep)
    requires
        session_inv(s),
        step_allowed(s, step),
    ensures
        session_inv(step_result(s, step)),
        s.time <= step_result(s, step).time,
{
    let e = Map::<Seq<char>, EntryModel>::empty();
    let rs = log_records(s.log);
    let y = log::replay(e, rs);
    let s2 = step_result(s, step);
    match step {
        SessionStep::Write { record, at } => {
            log::lemma_log_text_ends(rs, record);
            log::law_log_extend(s.log, rs, seq![record]);
            assert(log::all_faithful(seq![record])) by {
                assert forall|i: int| 0 <= i < 1 implies log::record_faithful(#[trigger] seq![record][i]) by {
                    assert(seq![record][i] == record);
                }
            }
            assert(log_records(s2.log) == rs + seq![record]);
            assert((rs + seq![record]).drop_last() =~= rs);
            assert((rs + seq![record]).last() == record);
            let y2 = log::replay(e, rs + seq![record]);
            assert(y2 == log::apply_record(y, record));
            let x2 = s2.store;
            assert(s2.log.last() == '\n');
            law_commit_keeps_faithful(s.store, record);
            assert forall|k: Seq<char>| #[trigger] x2.contains_key(k) && y2.contains_key(k) implies x2[k]
                == y2[k] by {
                if k != record_key(record) {
                    if s.store.contains_key(k) && !y.contains_key(k) {
                        assert(!s.store[k].alive(s.time));
                    }
                }
            }
            assert forall|k: Seq<char>| #[trigger] x2.contains_key(k) && !y2.contains_key(k) implies !x2[k].alive(at) by {
                if s.store.contains_key(k) && !y.contains_key(k) {
                    lemma_dead_stays_dead(s.store[k], s.time, at);
                }
                if record is Expire && k == record_key(record) {
                    assert(is_live(s.store, k, at));
                    if !y.contains_key(k) {
                        lemma_dead_stays_dead(s.store[k], s.time, at);
                    }
                }
            }
            assert forall|k: Seq<char>| #[trigger] y2.contains_key(k) && !x2.contains_key(k) implies !y2[k].alive(at) by {
                if y.contains_key(k) && !s.store.contains_key(k) {
                    lemma_dead_stays_dead(y[k], s.time, at);
                }
            }
        },
        SessionStep::Evict { key, at } => {
            let x2 = s2.store;
            assert forall|k: Seq<char>| #[trigger] x2.contains_key(k) && !y.contains_key(k) implies !x2[k].alive(at) by {
                lemma_dead_stays_dead(s.store[k], s.time, at);
            }
            assert forall|k: Seq<char>| #[trigger] y.contains_key(k) && !x2.contains_key(k) implies !y[k].alive(at) by {
                if s.store.contains_key(k) {
                    assert(k == key);
                    assert(y[k] == s.store[k]);
                } else {
                    lemma_dead_stays_dead(y[k], s.time, at);
                }
            }
            assert(store_faithful(x2)) by {
                assert forall|k: Seq<char>| #[trigger] x2.contains_key(k) implies entry_faithful(k, x2[k]) by {
                    assert(s.store.contains_key(k));
                }
            }
        },
        SessionStep::Clear => {
            log::lemma_empty_log();
            assert(log_records(s2.log) =~= Seq::<RecordModel>::empty());
            assert(log::replay(e, log_records(s2.log)) == e);
        },
        SessionStep::Compact { entries, at } => {
            assert forall|k: Seq<char>| #[trigger] is_live(entries_map(entries), k, at) implies entry_faithful(
                k,
                entries_map(entries)[k],
            ) by {
                assert(s.store.contains_key(k));
            }
            lemma_snapshot_faithful(entries, at);
            let snap = snapshot(entries, at);
            log::law_log_roundtrip(snap);
            lemma_snapshot_replay(entries, at);
            log::lemma_log_text_ends(snap, RecordModel::Del { key: seq![] });
            assert(log_records(s2.log) == snap);
            let y2 = log::replay(e, snap);
            assert(y2 == log::purge_expired(s.store, at));
        },
    }
}

proof fn lemma_session_inv(s: SessionState, steps: Seq<SessionStep>)
    requires
        session_inv(s),
        session_allowed(s, steps),
    ensures
        session_inv(run_session(s, steps)),
        s.time <= run_session(s, steps).time,
    decreases steps.len(),
{
    if steps.len() > 0 {
        lemma_session_inv(s, steps.drop_last());
        lemma_step_keeps_inv(run_session(s, steps.drop_last()), steps.last());
    }
}

/// Restart recovery over a whole session. Open a log (empty, or ending with
/// a line break) at `t0`; then write and commit records, drop expired values
/// on reads, clear and compact, as the server does, with the log text kept
/// as the server keeps it. Reopening the final log at any later `now` then
/// reads it, and gives exactly the session's store without the values
/// expired at `now` (`KvStore::open` gives `purge_expired` of the replayed
/// records).
pub proof fn law_session_restart(log0: Seq<char>, t0: u64, steps: Seq<SessionStep>, now: u64)
    requires
        log::parse_log(log0) is Ok,
        log0.len() == 0 || log0.last() == '\n',
        session_allowed(opened_state(log0, t0), steps),
        run_session(opened_state(log0, t0), steps).time <= now,
    ensures
        log::parse_log(run_session(opened_state(log0, t0), steps).log) is Ok,
        log::purge_expired(
            log::replay(Map::empty(), log_records(run_session(opened_state(log0, t0), steps).log)),
            now,
        ) == log::purge_expired(run_session(opened_state(log0, t0), steps).store, now),
{
    let s0 = opened_state(log0, t0);
    let e = Map::<Seq<char>, EntryModel>::empty();
    let y0 = log::replay(e, log_records(log0));
    law_opened_store_is_faithful(log0, t0);
    assert(agree_at(s0.store, y0, t0));
    lemma_session_inv(s0, steps);
    let f = run_session(s0, steps);
    let y = log::replay(e, log_records(f.log));
    assert(log::purge_expired(y, now) =~= log::purge_expired(f.store, now)) by {
        assert forall|k: Seq<char>| #[trigger] log::purge_expired(y, now).contains_key(k) == log::purge_expired(
            f.store,
            now,
        ).contains_key(k) by {
            if y.contains_key(k) && !f.store.contains_key(k) {
                lemma_dead_stays_dead(y[k], f.time, now);
            }
            if f.store.contains_key(k) && !y.contains_key(k) {
                lemma_dead_stays_dead(f.store[k], f.time, now);
            }
        }
    }
}

/// Reading back a write: once a `set` is committed, the key holds the new
/// value for good, whatever it held before.
pub proof fn law_get_after_set(
    m: Map<Seq<char>, EntryModel>,
    key: Seq<char>,
    value: Seq<char>,
    now: u64,
)
    ensures
        is_live(log::apply_record(m, RecordModel::Put { key, value }), key, now),
        log::apply_record(m, RecordModel::Put { key, value })[key].value == value,
        ttl_of(log::apply_record(m, RecordModel::Put { key, value }), key, now) == -1,
{
}

/// A value set with a time to live is there before its expiry time, with
/// the seconds left rounded up, and gone from that time on.
pub proof fn law_setex_expiry(
    m: Map<Seq<char>, EntryModel>,
    key: Seq<char>,
    value: Seq<char>,
    t: u64,
    now: u64,
)
    ensures
        is_live(log::apply_record(m, RecordModel::PutEx { key, value, expire_at: t }), key, now)
            == (now < t),
        log::apply_record(m, RecordModel::PutEx { key, value, expire_at: t })[key].value == value,
        now < t ==> ttl_of(log::apply_record(m, RecordModel::PutEx { key, value, expire_at: t }), key, now)
            == (t - now + 999) / 1000,
        now >= t ==> ttl_of(log::apply_record(m, RecordModel::PutEx { key, value, expire_at: t }), key, now)
            == -2,
{
    if now < t {
        let left = t - now;
        assert(left / 1000 + (if left % 1000 > 0 {
            1int
        } else {
            0int
        }) == (left + 999) / 1000) by (nonlinear_arith)
            requires
                left > 0,
        ;
    }
}

/// A deleted key has no value left.
pub proof fn law_del_removes(m: Map<Seq<char>, EntryModel>, key: Seq<char>, now: u64)
    ensures
        !is_live(log::apply_record(m, RecordModel::Del { key }), key, now),
        ttl_of(log::apply_record(m, RecordModel::Del { key }), key, now) == -2,
{
}

/// `expire` keeps the value and changes only when it expires.
pub proof fn law_expire_keeps_value(
    m: Map<Seq<char>, EntryModel>,
    key: Seq<char>,
    t: u64,
    now: u64,
)
    requires
        m.contains_key(key),
    ensures
        log::apply_record(m, RecordModel::Expire { key, expire_at: t })[key].value == m[key].value,
        is_live(log::apply_record(m, RecordModel::Expire { key, expire_at: t }), key, now) == (now
            < t),
{
}

/// The key a record is about.
pub open spec fn record_key(r: RecordModel) -> Seq<char> {
    match r {
        RecordModel::Put { key, .. } => key,
        RecordModel::PutEx { key, .. } => key,
        RecordModel::Expire { key, .. } => key,
        RecordModel::Del { key } => key,
    }
}

/// A record changes its own key and no other.
pub proof fn law_record_touches_one_key(m: Map<Seq<char>, EntryModel>, r: RecordModel, k: Seq<char>)
    requires
        k != record_key(r),
    ensures
        log::apply_record(m, r).contains_key(k) == m.contains_key(k),
        m.contains_key(k) ==> log::apply_record(m, r)[k] == m[k],
{
}

/// `ttl` tells the three states apart: -2 without a live value, -1 for a
/// value that never expires, and at least 1 for one that expires.
pub proof fn law_ttl_states(m: Map<Seq<char>, EntryModel>, k: Seq<char>, now: u64)
    ensures
        (ttl_of(m, k, now) == -2) == !is_live(m, k, now),
        (ttl_of(m, k, now) == -1) == (is_live(m, k, now) && m[k].expire_at is None),
        (is_live(m, k, now) && m[k].expire_at is Some) ==> ttl_of(m, k, now) >= 1,
{
}

/// Reading changes nothing that can be seen: dropping an expired value on
/// the way leaves every key as live, or not, as it was.
pub proof fn law_get_keeps_live_view(
    m: Map<Seq<char>, EntryModel>,
    k: Seq<char>,
    other: Seq<char>,
    now: u64,
)
    ensures
        is_live(
            if m.contains_key(k) && !m[k].alive(now) {
                m.remove(k)
            } else {
                m
            },
            other,
            now,
        ) == is_live(m, other, now),
        is_live(m, other, now) ==> (if m.contains_key(k) && !m[k].alive(now) {
            m.remove(k)
        } else {
            m
        })[other] == m[other],
{
}

} // verus!
