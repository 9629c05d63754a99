//! Character-level text handling shared by the wire protocol and the log
//! format: whitespace, trimming, splitting, searching, decimal numbers.
//!
//! Every function works on the `Seq<char>` view of a string; the spec
//! functions below say what the std string methods of the same name compute.
use vstd::prelude::*;

verus! {

// ---------------------------------------------------------------------------
// Characters
// ---------------------------------------------------------------------------

/// Unicode `White_Space`, the set that `char::is_whitespace`, `str::trim`
/// and `str::split_whitespace` go by.
pub open spec fn is_ws(c: char) -> bool {
    let n = c as u32;
    ||| n == 32
    ||| 9 <= n <= 13
    ||| n == 0x85
    ||| n == 0xa0
    ||| n == 0x1680
    ||| 0x2000 <= n <= 0x200a
    ||| n == 0x2028
    ||| n == 0x2029
    ||| n == 0x202f
    ||| n == 0x205f
    ||| n == 0x3000
}

pub fn is_whitespace(c: char) -> (b: bool)
    ensures
        b == is_ws(c),
{
    let n = c as u32;
    n == 32 || (9 <= n && n <= 13) || n == 0x85 || n == 0xa0 || n == 0x1680 || (0x2000 <= n
        && n <= 0x200a) || n == 0x2028 || n == 0x2029 || n == 0x202f || n == 0x205f || n == 0x3000
}

pub open spec fn all_ws(s: Seq<char>) -> bool {
    forall|i: int| 0 <= i < s.len() ==> is_ws(#[trigger] s[i])
}

/// `'A'..='Z'` mapped to `'a'..='z'`, every other character unchanged.
pub open spec fn ascii_lower(c: char) -> char {
    if 65 <= (c as u32) <= 90 {
        ((c as u32) + 32) as char
    } else {
        c
    }
}

/// `str::eq_ignore_ascii_case`.
pub open spec fn eq_ignore_ascii_case(a: Seq<char>, b: Seq<char>) -> bool {
    &&& a.len() == b.len()
    &&& forall|i: int| 0 <= i < a.len() ==> ascii_lower(#[trigger] a[i]) == ascii_lower(b[i])
}

fn ascii_lower_char(c: char) -> (r: char)
    ensures
        r == ascii_lower(c),
{
    if 'A' <= c && c <= 'Z' {
        let b: u8 = (c as u8) + 32;
        b as char
    } else {
        c
    }
}

// ---------------------------------------------------------------------------
// Converting between `str`, `String` and `Vec<char>`
// ---------------------------------------------------------------------------

/// `String::push`: the string grows by one character at its end.
#[verifier::external_body]
pub(crate) fn string_push(s: &mut String, c: char)
    ensures
        final(s)@ == old(s)@.push(c),
{
    s.push(c);
}

pub fn chars_of(s: &str) -> (v: Vec<char>)
    ensures
        v@ == s@,
{
    let mut v: Vec<char> = Vec::new();
    for c in it: s.chars()
        invariant
            v@ == it.seq().take(it.index() as int),
            it.seq() == s@,
    {
        v.push(c);
    }
    v
}

/// Appends `v[lo..hi]` to `s`.
pub fn push_range(s: &mut String, v: &Vec<char>, lo: usize, hi: usize)
    requires
        lo <= hi <= v.len(),
    ensures
        final(s)@ == old(s)@ + v@.subrange(lo as int, hi as int),
{
    let mut i = lo;
    while i < hi
        invariant
            lo <= i <= hi <= v.len(),
            s@ == old(s)@ + v@.subrange(lo as int, i as int),
        decreases hi - i,
    {
        string_push(s, v[i]);
        i = i + 1;
        assert(s@ =~= old(s)@ + v@.subrange(lo as int, i as int));
    }
}

pub fn string_from_range(v: &Vec<char>, lo: usize, hi: usize) -> (s: String)
    requires
        lo <= hi <= v.len(),
    ensures
        s@ == v@.subrange(lo as int, hi as int),
{
    let mut s = String::new();
    push_range(&mut s, v, lo, hi);
    assert(s@ =~= v@.subrange(lo as int, hi as int));
    s
}

pub fn str_eq(a: &str, b: &str) -> (r: bool)
    ensures
        r == (a@ == b@),
{
    let x = a.to_owned();
    let y = b.to_owned();
    x == y
}

pub fn seq_eq(a: &Vec<char>, b: &Vec<char>) -> (r: bool)
    ensures
        r == (a@ == b@),
{
    if a.len() != b.len() {
        return false;
    }
    let mut i: usize = 0;
    while i < a.len()
        invariant
            i <= a.len() == b.len(),
            forall|j: int| 0 <= j < i ==> a@[j] == b@[j],
        decreases a.len() - i,
    {
        if a[i] != b[i] {
            return false;
        }
        i = i + 1;
    }
    assert(a@ =~= b@);
    true
}

pub fn seq_contains_char(v: &Vec<char>, c: char) -> (r: bool)
    ensures
        r == v@.contains(c),
{
    let mut i: usize = 0;
    while i < v.len()
        invariant
            i <= v.len(),
            forall|j: int| 0 <= j < i ==> v@[j] != c,
        decreases v.len() - i,
    {
        if v[i] == c {
            return true;
        }
        i = i + 1;
    }
    false
}

pub fn contains_char(s: &str, c: char) -> (r: bool)
    ensures
        r == s@.contains(c),
{
    let v = chars_of(s);
    seq_contains_char(&v, c)
}

pub fn is_all_whitespace(s: &str) -> (r: bool)
    ensures
        r == all_ws(s@),
{
    let v = chars_of(s);
    let mut i: usize = 0;
    while i < v.len()
        invariant
            i <= v.len(),
            v@ == s@,
            forall|j: int| 0 <= j < i ==> is_ws(#[trigger] v@[j]),
        decreases v.len() - i,
    {
        if !is_whitespace(v[i]) {
            return false;
        }
        i = i + 1;
    }
    true
}

pub fn ascii_case_insensitive_eq(a: &str, b: &str) -> (r: bool)
    ensures
        r == eq_ignore_ascii_case(a@, b@),
{
    let x = chars_of(a);
    let y = chars_of(b);
    if x.len() != y.len() {
        return false;
    }
    let mut i: usize = 0;
    while i < x.len()
        invariant
            i <= x.len() == y.len(),
            x@ == a@,
            y@ == b@,
            forall|j: int| 0 <= j < i ==> ascii_lower(#[trigger] x@[j]) == ascii_lower(y@[j]),
        decreases x.len() - i,
    {
        if ascii_lower_char(x[i]) != ascii_lower_char(y[i]) {
            assert(ascii_lower(x@[i as int]) != ascii_lower(y@[i as int]));
            return false;
        }
        i = i + 1;
    }
    true
}

// ---------------------------------------------------------------------------
// Trimming
// ---------------------------------------------------------------------------

/// `str::trim_end`: whitespace removed from the end.
pub open spec fn trim_end(s: Seq<char>) -> Seq<char>
    decreases s.len(),
{
    if s.len() > 0 && is_ws(s.last()) {
        trim_end(s.drop_last())
    } else {
        s
    }
}

/// `str::trim_start`: whitespace removed from the start.
pub open spec fn trim_start(s: Seq<char>) -> Seq<char>
    decreases s.len(),
{
    if s.len() > 0 && is_ws(s[0]) {
        trim_start(s.drop_first())
    } else {
        s
    }
}

/// `str::trim`.
pub open spec fn trim(s: Seq<char>) -> Seq<char> {
    trim_start(trim_end(s))
}

/// `str::trim_end_matches(c)` for a single character: every trailing `c` removed.
pub open spec fn strip_trailing(s: Seq<char>, c: char) -> Seq<char>
    decreases s.len(),
{
    if s.len() > 0 && s.last() == c {
        strip_trailing(s.drop_last(), c)
    } else {
        s
    }
}

/// The length that `trim_end` keeps.
pub fn trim_end_len(v: &Vec<char>, hi: usize) -> (n: usize)
    requires
        hi <= v.len(),
    ensures
        n <= hi,
        trim_end(v@.take(hi as int)) == v@.take(n as int),
{
    let mut j = hi;
    while j > 0 && is_whitespace(v[j - 1])
        invariant
            j <= hi <= v.len(),
            trim_end(v@.take(hi as int)) == trim_end(v@.take(j as int)),
        decreases j,
    {
        assert(v@.take(j as int).drop_last() =~= v@.take(j - 1));
        j = j - 1;
    }
    j
}

/// The end of what `trim_end` keeps of `v[lo..hi]`.
pub fn trim_end_pos(v: &Vec<char>, lo: usize, hi: usize) -> (n: usize)
    requires
        lo <= hi <= v.len(),
    ensures
        lo <= n <= hi,
        trim_end(v@.subrange(lo as int, hi as int)) == v@.subrange(lo as int, n as int),
{
    let mut j = hi;
    while j > lo && is_whitespace(v[j - 1])
        invariant
            lo <= j <= hi <= v.len(),
            trim_end(v@.subrange(lo as int, hi as int)) == trim_end(
                v@.subrange(lo as int, j as int),
            ),
        decreases j,
    {
        assert(v@.subrange(lo as int, j as int).drop_last() =~= v@.subrange(lo as int, j - 1));
        j = j - 1;
    }
    j
}

/// The index of the first character that `trim_start` keeps in `v[lo..hi]`.
pub fn trim_start_pos(v: &Vec<char>, lo: usize, hi: usize) -> (n: usize)
    requires
        lo <= hi <= v.len(),
    ensures
        lo <= n <= hi,
        trim_start(v@.subrange(lo as int, hi as int)) == v@.subrange(n as int, hi as int),
{
    let mut j = lo;
    while j < hi && is_whitespace(v[j])
        invariant
            lo <= j <= hi <= v.len(),
            trim_start(v@.subrange(lo as int, hi as int)) == trim_start(
                v@.subrange(j as int, hi as int),
            ),
        decreases hi - j,
    {
        assert(v@.subrange(j as int, hi as int).drop_first() =~= v@.subrange(j + 1, hi as int));
        j = j + 1;
    }
    j
}

pub fn trim_string(s: &str) -> (r: String)
    ensures
        r@ == trim(s@),
{
    let v = chars_of(s);
    let e = trim_end_len(&v, v.len());
    assert(v@.take(v.len() as int) =~= v@);
    let b = trim_start_pos(&v, 0, e);
    assert(v@.subrange(0, e as int) =~= v@.take(e as int));
    string_from_range(&v, b, e)
}

pub fn strip_trailing_char(s: &str, c: char) -> (r: String)
    ensures
        r@ == strip_trailing(s@, c),
{
    let v = chars_of(s);
    let mut j = v.len();
    assert(v@.take(j as int) =~= v@);
    while j > 0 && v[j - 1] == c
        invariant
            j <= v.len(),
            v@ == s@,
            strip_trailing(s@, c) == strip_trailing(v@.take(j as int), c),
        decreases j,
    {
        assert(v@.take(j as int).drop_last() =~= v@.take(j - 1));
        j = j - 1;
    }
    let r = string_from_range(&v, 0, j);
    assert(v@.subrange(0, j as int) =~= v@.take(j as int));
    r
}

// ---------------------------------------------------------------------------
// Splitting
// ---------------------------------------------------------------------------

/// Reading `s` from the left: the words completed so far and the word in
/// progress.
pub open spec fn words_state(s: Seq<char>) -> (Seq<Seq<char>>, Seq<char>)
    decreases s.len(),
{
    if s.len() == 0 {
        (seq![], seq![])
    } else {
        let (done, cur) = words_state(s.drop_last());
        if is_ws(s.last()) {
            if cur.len() > 0 {
                (done.push(cur), seq![])
            } else {
                (done, cur)
            }
        } else {
            (done, cur.push(s.last()))
        }
    }
}

/// `str::split_whitespace`: the maximal runs of non-whitespace characters.
pub open spec fn words(s: Seq<char>) -> Seq<Seq<char>> {
    let (done, cur) = words_state(s);
    if cur.len() > 0 {
        done.push(cur)
    } else {
        done
    }
}

/// Reading `s` from the left: the pieces completed so far and the piece in
/// progress.
pub open spec fn split_state(s: Seq<char>, sep: char) -> (Seq<Seq<char>>, Seq<char>)
    decreases s.len(),
{
    if s.len() == 0 {
        (seq![], seq![])
    } else {
        let (done, cur) = split_state(s.drop_last(), sep);
        if s.last() == sep {
            (done.push(cur), seq![])
        } else {
            (done, cur.push(s.last()))
        }
    }
}

/// `str::split(sep)`: the pieces between separators, empty ones included.
pub open spec fn split_on(s: Seq<char>, sep: char) -> Seq<Seq<char>> {
    let (done, cur) = split_state(s, sep);
    done.push(cur)
}

pub open spec fn strings_view(v: Seq<String>) -> Seq<Seq<char>> {
    v.map_values(|x: String| x@)
}

pub fn split_words(s: &str) -> (r: Vec<String>)
    ensures
        strings_view(r@) == words(s@),
{
    let v = chars_of(s);
    let mut done: Vec<String> = Vec::new();
    let mut cur = String::new();
    let mut in_word = false;
    let mut i: usize = 0;
    while i < v.len()
        invariant
            i <= v.len(),
            v@ == s@,
            in_word == (cur@.len() > 0),
            (strings_view(done@), cur@) == words_state(v@.take(i as int)),
        decreases v.len() - i,
    {
        let c = v[i];
        assert(v@.take(i + 1).drop_last() =~= v@.take(i as int));
        if is_whitespace(c) {
            if in_word {
                let ghost before = done@;
                let w = cur;
                done.push(w);
                cur = String::new();
                in_word = false;
                assert(strings_view(done@) =~= strings_view(before).push(w@));
            }
        } else {
            string_push(&mut cur, c);
            in_word = true;
        }
        i = i + 1;
    }
    assert(v@.take(v.len() as int) =~= v@);
    if in_word {
        let ghost before = done@;
        let w = cur;
        done.push(w);
        assert(strings_view(done@) =~= strings_view(before).push(w@));
    }
    done
}

pub fn split_pieces(s: &str, sep: char) -> (r: Vec<String>)
    ensures
        strings_view(r@) == split_on(s@, sep),
{
    let v = chars_of(s);
    let mut done: Vec<String> = Vec::new();
    let mut cur = String::new();
    let mut i: usize = 0;
    while i < v.len()
        invariant
            i <= v.len(),
            v@ == s@,
            (strings_view(done@), cur@) == split_state(v@.take(i as int), sep),
        decreases v.len() - i,
    {
        let c = v[i];
        assert(v@.take(i + 1).drop_last() =~= v@.take(i as int));
        if c == sep {
            let ghost before = done@;
            let w = cur;
            done.push(w);
            cur = String::new();
            assert(strings_view(done@) =~= strings_view(before).push(w@));
        } else {
            string_push(&mut cur, c);
        }
        i = i + 1;
    }
    assert(v@.take(v.len() as int) =~= v@);
    let ghost before = done@;
    let w = cur;
    done.push(w);
    assert(strings_view(done@) =~= strings_view(before).push(w@));
    done
}

// ---------------------------------------------------------------------------
// Searching
// ---------------------------------------------------------------------------

/// `str::split_once(c)`: the text before and after the first `c`.
pub open spec fn split_once(s: Seq<char>, c: char) -> Option<(Seq<char>, Seq<char>)> {
    match s.index_of_first(c) {
        Some(i) => Some((s.take(i), s.skip(i + 1))),
        None => None,
    }
}

/// `str::rsplit_once(c)`: the text before and after the last `c`.
pub open spec fn rsplit_once(s: Seq<char>, c: char) -> Option<(Seq<char>, Seq<char>)> {
    match s.index_of_last(c) {
        Some(i) => Some((s.take(i), s.skip(i + 1))),
        None => None,
    }
}

/// The first index of `c` in `v[lo..hi]`, counted from `lo`.
pub fn find_first(v: &Vec<char>, lo: usize, hi: usize, c: char) -> (r: Option<usize>)
    requires
        lo <= hi <= v.len(),
    ensures
        match r {
            Some(i) => i < hi - lo && v@.subrange(lo as int, hi as int).index_of_first(c) == Some(
                i as int,
            ),
            None => v@.subrange(lo as int, hi as int).index_of_first(c) is None,
        },
{
    let ghost s = v@.subrange(lo as int, hi as int);
    let mut i = lo;
    while i < hi
        invariant
            lo <= i <= hi <= v.len(),
            s == v@.subrange(lo as int, hi as int),
            forall|j: int| 0 <= j < i - lo ==> s[j] != c,
        decreases hi - i,
    {
        if v[i] == c {
            assert(s[i - lo] == c);
            let r = i - lo;
            proof {
                s.index_of_first_ensures(c);
                match s.index_of_first(c) {
                    Some(k) => {
                        if k < r {
                            assert(s[k] != c);
                        }
                        if k > r {
                            assert(s[r as int] != c);
                        }
                    },
                    None => {
                        assert(s.contains(c));
                    },
                }
            }
            return Some(r);
        }
        i = i + 1;
    }
    proof {
        s.index_of_first_ensures(c);
        if s.index_of_first(c) is Some {
            let k = s.index_of_first(c).unwrap();
            assert(s[k] != c);
        }
    }
    None
}

/// The last index of `c` in `v[lo..hi]`, counted from `lo`.
pub fn find_last(v: &Vec<char>, lo: usize, hi: usize, c: char) -> (r: Option<usize>)
    requires
        lo <= hi <= v.len(),
    ensures
        match r {
            Some(i) => i < hi - lo && v@.subrange(lo as int, hi as int).index_of_last(c) == Some(
                i as int,
            ),
            None => v@.subrange(lo as int, hi as int).index_of_last(c) is None,
        },
{
    let ghost s = v@.subrange(lo as int, hi as int);
    let mut i = hi;
    while i > lo
        invariant
            lo <= i <= hi <= v.len(),
            s == v@.subrange(lo as int, hi as int),
            forall|j: int| i - lo <= j < s.len() ==> s[j] != c,
        decreases i,
    {
        if v[i - 1] == c {
            let r = i - 1 - lo;
            assert(s[r as int] == c);
            proof {
                s.index_of_last_ensures(c);
                match s.index_of_last(c) {
                    Some(k) => {
                        if k < r {
                            assert(s[r as int] != c);
                        }
                        if k > r {
                            assert(s[k] != c);
                        }
                    },
                    None => {
                        assert(s.contains(c));
                    },
                }
            }
            return Some(r);
        }
        i = i - 1;
    }
    proof {
        s.index_of_last_ensures(c);
        if s.index_of_last(c) is Some {
            let k = s.index_of_last(c).unwrap();
            assert(s[k] != c);
        }
    }
    None
}

/// `str::split_once(c)` on owned strings.
pub fn split_once_at(v: &Vec<char>, lo: usize, hi: usize, c: char) -> (r: Option<(String, String)>)
    requires
        lo <= hi <= v.len(),
    ensures
        match r {
            Some((a, b)) => split_once(v@.subrange(lo as int, hi as int), c) == Some((a@, b@)),
            None => split_once(v@.subrange(lo as int, hi as int), c) is None,
        },
{
    match find_first(v, lo, hi, c) {
        Some(i) => {
            let a = string_from_range(v, lo, lo + i);
            let b = string_from_range(v, lo + i + 1, hi);
            assert(a@ =~= v@.subrange(lo as int, hi as int).take(i as int));
            assert(b@ =~= v@.subrange(lo as int, hi as int).skip(i + 1));
            Some((a, b))
        },
        None => None,
    }
}

/// `str::rsplit_once(c)` on owned strings.
pub fn rsplit_once_at(v: &Vec<char>, lo: usize, hi: usize, c: char) -> (r: Option<(String, String)>)
    requires
        lo <= hi <= v.len(),
    ensures
        match r {
            Some((a, b)) => rsplit_once(v@.subrange(lo as int, hi as int), c) == Some((a@, b@)),
            None => rsplit_once(v@.subrange(lo as int, hi as int), c) is None,
        },
{
    match find_last(v, lo, hi, c) {
        Some(i) => {
            let a = string_from_range(v, lo, lo + i);
            let b = string_from_range(v, lo + i + 1, hi);
            assert(a@ =~= v@.subrange(lo as int, hi as int).take(i as int));
            assert(b@ =~= v@.subrange(lo as int, hi as int).skip(i + 1));
            Some((a, b))
        },
        None => None,
    }
}

pub fn split_once_str(s: &str, c: char) -> (r: Option<(String, String)>)
    ensures
        match r {
            Some((a, b)) => split_once(s@, c) == Some((a@, b@)),
            None => split_once(s@, c) is None,
        },
{
    let v = chars_of(s);
    assert(v@.subrange(0, v@.len() as int) =~= s@);
    split_once_at(&v, 0, v.len(), c)
}

/// Whether `v[lo..hi]` starts with `p`.
pub fn has_prefix_at(v: &Vec<char>, lo: usize, hi: usize, p: &str) -> (r: bool)
    requires
        lo <= hi <= v.len(),
    ensures
        r == p@.is_prefix_of(v@.subrange(lo as int, hi as int)),
{
    let pv = chars_of(p);
    if pv.len() > hi - lo {
        return false;
    }
    let mut i: usize = 0;
    while i < pv.len()
        invariant
            i <= pv.len() <= hi - lo,
            lo <= hi <= v.len(),
            pv@ == p@,
            forall|j: int| 0 <= j < i ==> pv@[j] == v@[lo + j],
        decreases pv.len() - i,
    {
        if pv[i] != v[lo + i] {
            assert(v@.subrange(lo as int, hi as int).subrange(0, p@.len() as int)[i as int] != p@[i as int]);
            return false;
        }
        i = i + 1;
    }
    assert(p@ =~= v@.subrange(lo as int, hi as int).subrange(0, p@.len() as int));
    true
}

// ---------------------------------------------------------------------------
// Decimal numbers
// ---------------------------------------------------------------------------

pub open spec fn digit_char(d: nat) -> char {
    (48 + d) as char
}

/// The decimal digits of `n`, as `u64::to_string` writes them.
pub open spec fn dec(n: nat) -> Seq<char>
    decreases n,
{
    if n < 10 {
        seq![digit_char(n)]
    } else {
        dec(n / 10).push(digit_char(n % 10))
    }
}

/// An integer as `i64::to_string` writes it.
pub open spec fn dec_signed(n: int) -> Seq<char> {
    if n < 0 {
        seq!['-'] + dec((-n) as nat)
    } else {
        dec(n as nat)
    }
}

fn digit(d: u64) -> (c: char)
    requires
        d < 10,
    ensures
        c == digit_char(d as nat),
{
    let b: u8 = (d as u8) + 48;
    b as char
}

/// Appends the decimal digits of `n`.
pub fn push_decimal(s: &mut String, n: u64)
    ensures
        final(s)@ == old(s)@ + dec(n as nat),
    decreases n,
{
    if n >= 10 {
        push_decimal(s, n / 10);
    }
    string_push(s, digit(n % 10));
    assert(s@ =~= old(s)@ + dec(n as nat));
}

/// Appends `n` in decimal with a leading `-` when negative.
pub fn push_signed_decimal(s: &mut String, n: i64)
    ensures
        final(s)@ == old(s)@ + dec_signed(n as int),
{
    if n < 0 {
        string_push(s, '-');
        let m: u64 = if n == i64::MIN {
            9223372036854775808u64
        } else {
            (-n) as u64
        };
        push_decimal(s, m);
        assert(s@ =~= old(s)@ + dec_signed(n as int));
    } else {
        push_decimal(s, n as u64);
    }
}

pub open spec fn is_digit(c: char) -> bool {
    48 <= (c as u32) <= 57
}

pub open spec fn all_digits(s: Seq<char>) -> bool {
    forall|i: int| 0 <= i < s.len() ==> is_digit(#[trigger] s[i])
}

/// The number that a string of decimal digits denotes.
pub open spec fn digits_value(s: Seq<char>) -> nat
    decreases s.len(),
{
    if s.len() == 0 {
        0
    } else {
        digits_value(s.drop_last()) * 10 + ((s.last() as u32) - 48) as nat
    }
}

/// `FromStr` for an unsigned integer type whose largest value is `max`: an
/// optional `+`, then one or more ASCII digits, denoting at most `max`.
pub open spec fn parse_uint(s: Seq<char>, max: nat) -> Option<nat> {
    let d = if s.len() > 0 && s[0] == '+' {
        s.drop_first()
    } else {
        s
    };
    if d.len() > 0 && all_digits(d) && digits_value(d) <= max {
        Some(digits_value(d))
    } else {
        None
    }
}

pub proof fn lemma_digits_value_prefix(s: Seq<char>, k: int)
    requires
        0 <= k <= s.len(),
        all_digits(s),
    ensures
        digits_value(s.take(k)) <= digits_value(s),
    decreases s.len(),
{
    if k < s.len() {
        assert(s.drop_last().take(k) =~= s.take(k));
        lemma_digits_value_prefix(s.drop_last(), k);
    } else {
        assert(s.take(k) =~= s);
    }
}

/// `u64::from_str`.
pub fn parse_u64(s: &str) -> (r: Option<u64>)
    ensures
        match r {
            Some(x) => parse_uint(s@, u64::MAX as nat) == Some(x as nat),
            None => parse_uint(s@, u64::MAX as nat) is None,
        },
{
    let v = chars_of(s);
    let start: usize = if v.len() > 0 && v[0] == '+' {
        1
    } else {
        0
    };
    let ghost d = v@.skip(start as int);
    assert(d =~= (if s@.len() > 0 && s@[0] == '+' {
        s@.drop_first()
    } else {
        s@
    }));
    if start >= v.len() {
        return None;
    }
    let mut i = start;
    while i < v.len()
        invariant
            start <= i <= v.len(),
            d == v@.skip(start as int),
            d == (if s@.len() > 0 && s@[0] == '+' {
                s@.drop_first()
            } else {
                s@
            }),
            forall|j: int| 0 <= j < i - start ==> is_digit(#[trigger] d[j]),
        decreases v.len() - i,
    {
        let n = v[i] as u32;
        assert(d[i - start] == v@[i as int]);
        if n < 48 || n > 57 {
            assert(!is_digit(d[i - start]));
            return None;
        }
        i = i + 1;
    }
    assert(all_digits(d));
    let mut value: u64 = 0;
    let mut i = start;
    while i < v.len()
        invariant
            start <= i <= v.len(),
            d == v@.skip(start as int),
            d == (if s@.len() > 0 && s@[0] == '+' {
                s@.drop_first()
            } else {
                s@
            }),
            d.len() > 0,
            all_digits(d),
            value as nat == digits_value(d.take(i - start)),
        decreases v.len() - i,
    {
        assert(d[i - start] == v@[i as int]);
        assert(is_digit(d[i - start]));
        let dv = (v[i] as u32 - 48) as u64;
        assert(d.take(i + 1 - start).drop_last() =~= d.take(i - start));
        assert(d.take(i + 1 - start).last() == d[i - start]);
        proof {
            lemma_digits_value_prefix(d, i + 1 - start);
        }
        match value.checked_mul(10) {
            Some(m) => match m.checked_add(dv) {
                Some(x) => {
                    value = x;
                },
                None => {
                    return None;
                },
            },
            None => {
                proof {
                    assert(digits_value(d.take(i + 1 - start)) >= value * 10) by (nonlinear_arith)
                        requires
                            digits_value(d.take(i + 1 - start)) == value * 10 + dv,
                    ;
                }
                return None;
            },
        }
        i = i + 1;
    }
    assert(d.take(i - start) =~= d);
    Some(value)
}

/// `u16::from_str`.
pub fn parse_u16(s: &str) -> (r: Option<u16>)
    ensures
        match r {
            Some(x) => parse_uint(s@, u16::MAX as nat) == Some(x as nat),
            None => parse_uint(s@, u16::MAX as nat) is None,
        },
{
    match parse_u64(s) {
        Some(x) => {
            if x <= 65535 {
                Some(x as u16)
            } else {
                None
            }
        },
        None => None,
    }
}

// ---------------------------------------------------------------------------
// Case mapping and joining
// ---------------------------------------------------------------------------

/// What `str::to_lowercase` gives for a string: the Unicode lowercase mapping.
pub uninterp spec fn lowercase(s: Seq<char>) -> Seq<char>;

/// Calls `str::to_lowercase`. Claimed: the result depends on the characters
/// of `s` alone (it is named `lowercase(s@)`); nothing more is stated of it.
#[verifier::external_body]
pub(crate) fn to_lowercase(s: &str) -> (r: String)
    ensures
        r@ == lowercase(s@),
{
    s.to_lowercase()
}

/// `[String]::join(sep)`.
pub open spec fn join(list: Seq<Seq<char>>, sep: Seq<char>) -> Seq<char>
    decreases list.len(),
{
    if list.len() == 0 {
        seq![]
    } else if list.len() == 1 {
        list[0]
    } else {
        join(list.drop_last(), sep) + sep + list.last()
    }
}

pub fn join_strings(list: &[String], lo: usize, sep: &str) -> (r: String)
    requires
        lo <= list@.len(),
    ensures
        r@ == join(strings_view(list@.skip(lo as int)), sep@),
{
    let mut r = String::new();
    let ghost items = strings_view(list@.skip(lo as int));
    let mut i = lo;
    while i < list.len()
        invariant
            lo <= i <= list@.len(),
            items == strings_view(list@.skip(lo as int)),
            r@ == join(items.take(i - lo), sep@),
        decreases list.len() - i,
    {
        assert(items.take(i + 1 - lo).drop_last() =~= items.take(i - lo));
        assert(items.take(i + 1 - lo).last() == list@[i as int]@);
        if i > lo {
            r.append(sep);
        } else {
            assert(items.take(i + 1 - lo) =~= seq![list@[i as int]@]);
        }
        r.append(list[i].as_str());
        i = i + 1;
    }
    assert(items.take(i - lo) =~= items);
    r
}

// ---------------------------------------------------------------------------
// Ordering
// ---------------------------------------------------------------------------

/// The order of `String`s: lexicographic by characters (which is the order
/// of their UTF-8 bytes).
pub open spec fn lex_lt(a: Seq<char>, b: Seq<char>) -> bool
    decreases a.len(),
{
    if b.len() == 0 {
        false
    } else if a.len() == 0 {
        true
    } else if a[0] != b[0] {
        a[0] < b[0]
    } else {
        lex_lt(a.drop_first(), b.drop_first())
    }
}

pub proof fn lemma_lex_irreflexive(a: Seq<char>)
    ensures
        !lex_lt(a, a),
    decreases a.len(),
{
    if a.len() > 0 {
        lemma_lex_irreflexive(a.drop_first());
    }
}

pub proof fn lemma_lex_transitive(a: Seq<char>, b: Seq<char>, c: Seq<char>)
    requires
        lex_lt(a, b),
        lex_lt(b, c),
    ensures
        lex_lt(a, c),
    decreases a.len(),
{
    if a.len() > 0 && b.len() > 0 && c.len() > 0 && a[0] == b[0] && b[0] == c[0] {
        lemma_lex_transitive(a.drop_first(), b.drop_first(), c.drop_first());
    }
}

pub proof fn lemma_lex_total(a: Seq<char>, b: Seq<char>)
    ensures
        a == b || lex_lt(a, b) || lex_lt(b, a),
    decreases a.len(),
{
    if a.len() > 0 && b.len() > 0 && a[0] == b[0] {
        lemma_lex_total(a.drop_first(), b.drop_first());
        if a.drop_first() == b.drop_first() {
            assert(a =~= seq![a[0]] + a.drop_first());
            assert(b =~= seq![b[0]] + b.drop_first());
        }
    } else if a.len() > 0 && b.len() > 0 {
        assert(a[0] != b[0]);
    } else if a.len() == 0 && b.len() == 0 {
        assert(a =~= b);
    }
}

pub proof fn lemma_lex_asymmetric(a: Seq<char>, b: Seq<char>)
    requires
        lex_lt(a, b),
    ensures
        !lex_lt(b, a),
        a != b,
{
    lemma_lex_irreflexive(a);
    if lex_lt(b, a) {
        lemma_lex_transitive(a, b, a);
    }
}

/// Whether `a` comes before `b` in the order of strings.
pub fn lex_less(a: &Vec<char>, b: &Vec<char>) -> (r: bool)
    ensures
        r == lex_lt(a@, b@),
{
    let mut i: usize = 0;
    assert(a@.skip(0) =~= a@);
    assert(b@.skip(0) =~= b@);
    while i < a.len() && i < b.len() && a[i] == b[i]
        invariant
            i <= a.len(),
            i <= b.len(),
            lex_lt(a@, b@) == lex_lt(a@.skip(i as int), b@.skip(i as int)),
        decreases a.len() - i,
    {
        assert(a@.skip(i as int).drop_first() =~= a@.skip(i + 1));
        assert(b@.skip(i as int).drop_first() =~= b@.skip(i + 1));
        i = i + 1;
    }
    if i == b.len() {
        false
    } else if i == a.len() {
        true
    } else {
        a[i] < b[i]
    }
}

// ---------------------------------------------------------------------------
// Facts
// ---------------------------------------------------------------------------

/// The decimal digits of a number are one or more ASCII digits that denote
/// the number again.
pub proof fn lemma_dec(n: nat)
    ensures
        dec(n).len() > 0,
        all_digits(dec(n)),
        digits_value(dec(n)) == n,
    decreases n,
{
    if n >= 10 {
        lemma_dec(n / 10);
        let d = dec(n / 10);
        assert(dec(n).drop_last() =~= d);
        assert forall|i: int| 0 <= i < dec(n).len() implies is_digit(#[trigger] dec(n)[i]) by {
            if i < d.len() {
                assert(dec(n)[i] == d[i]);
            }
        }
        let last = digit_char(n % 10);
        assert(dec(n).last() == last);
        assert((last as u32) == 48 + n % 10);
        assert(digits_value(dec(n)) == digits_value(d) * 10 + ((last as u32) - 48) as nat);
        assert((n / 10) * 10 + n % 10 == n) by (nonlinear_arith);
    } else {
        assert(dec(n).drop_last() =~= Seq::<char>::empty());
        assert((digit_char(n) as u32) == 48 + n);
        assert(digits_value(dec(n)) == digits_value(dec(n).drop_last()) * 10 + ((dec(n).last() as u32) - 48) as nat);
    }
}

/// A number written in decimal reads back as that number.
pub proof fn lemma_parse_dec(n: nat, max: nat)
    requires
        n <= max,
    ensures
        parse_uint(dec(n), max) == Some(n),
        !dec(n).contains(','),
        !dec(n).contains('\n'),
        !is_ws(dec(n).last()),
{
    lemma_dec(n);
    let d = dec(n);
    assert(is_digit(d[0]));
    assert(is_digit(d[d.len() - 1]));
    if d.contains(',') {
        let i = choose|i: int| 0 <= i < d.len() && d[i] == ',';
        assert(is_digit(d[i]));
    }
    if d.contains('\n') {
        let i = choose|i: int| 0 <= i < d.len() && d[i] == '\n';
        assert(is_digit(d[i]));
    }
}

/// Splitting at the first `c` finds the `c` after a stretch without one.
pub proof fn lemma_split_once_concat(a: Seq<char>, b: Seq<char>, c: char)
    requires
        !a.contains(c),
    ensures
        split_once(a + seq![c] + b, c) == Some((a, b)),
{
    let s = a + seq![c] + b;
    s.index_of_first_ensures(c);
    assert(s[a.len() as int] == c);
    assert(s.contains(c));
    let i = s.index_of_first(c).unwrap();
    if i < a.len() {
        assert(a[i] == c);
        assert(a.contains(c));
    }
    if i > a.len() {
        assert(s[a.len() as int] != c);
    }
    assert(s.take(i) =~= a);
    assert(s.skip(i + 1) =~= b);
}

/// Splitting at the last `c` finds the `c` before a stretch without one.
pub proof fn lemma_rsplit_once_concat(a: Seq<char>, b: Seq<char>, c: char)
    requires
        !b.contains(c),
    ensures
        rsplit_once(a + seq![c] + b, c) == Some((a, b)),
{
    let s = a + seq![c] + b;
    s.index_of_last_ensures(c);
    assert(s[a.len() as int] == c);
    assert(s.contains(c));
    let i = s.index_of_last(c).unwrap();
    if i > a.len() {
        assert(b[i - a.len() - 1] == c);
        assert(b.contains(c));
    }
    if i < a.len() {
        assert(s[a.len() as int] != c);
    }
    assert(s.take(i) =~= a);
    assert(s.skip(i + 1) =~= b);
}

/// A stretch of a text without `c` holds no `c` either.
pub proof fn lemma_subrange_no_char(s: Seq<char>, lo: int, hi: int, c: char)
    requires
        !s.contains(c),
        0 <= lo <= hi <= s.len(),
    ensures
        !s.subrange(lo, hi).contains(c),
{
    if s.subrange(lo, hi).contains(c) {
        let i = choose|i: int| 0 <= i < hi - lo && s.subrange(lo, hi)[i] == c;
        assert(s[lo + i] == c);
    }
}

/// What `trim_end` keeps is a prefix that, when not empty, does not end in
/// whitespace.
pub proof fn lemma_trim_end_prefix(s: Seq<char>)
    ensures
        trim_end(s) == s.subrange(0, trim_end(s).len() as int),
        trim_end(s).len() <= s.len(),
        trim_end(s).len() > 0 ==> !is_ws(trim_end(s).last()),
    decreases s.len(),
{
    if s.len() > 0 && is_ws(s.last()) {
        lemma_trim_end_prefix(s.drop_last());
        let t = trim_end(s.drop_last());
        assert(s.drop_last().subrange(0, t.len() as int) =~= s.subrange(0, t.len() as int));
    } else {
        assert(s.subrange(0, s.len() as int) =~= s);
    }
}

proof fn lemma_split_state_pieces(s: Seq<char>, sep: char)
    ensures
        forall|i: int| 0 <= i < split_state(s, sep).0.len() ==> !(#[trigger] split_state(s, sep).0[i]).contains(sep),
        !split_state(s, sep).1.contains(sep),
    decreases s.len(),
{
    if s.len() > 0 {
        lemma_split_state_pieces(s.drop_last(), sep);
        let (done, cur) = split_state(s.drop_last(), sep);
        if s.last() == sep {
            let d2 = done.push(cur);
            assert forall|i: int| 0 <= i < d2.len() implies !(#[trigger] d2[i]).contains(sep) by {
                if i < done.len() {
                    assert(d2[i] == done[i]);
                }
            }
            assert(!Seq::<char>::empty().contains(sep));
        } else {
            let c2 = cur.push(s.last());
            if c2.contains(sep) {
                let j = choose|j: int| 0 <= j < c2.len() && c2[j] == sep;
                if j < cur.len() {
                    assert(cur[j] == sep);
                    assert(cur.contains(sep));
                }
            }
        }
    }
}

/// The pieces of a text split at `sep` hold no `sep`.
pub proof fn lemma_split_pieces(s: Seq<char>, sep: char)
    ensures
        forall|i: int| 0 <= i < split_on(s, sep).len() ==> !(#[trigger] split_on(s, sep)[i]).contains(sep),
{
    lemma_split_state_pieces(s, sep);
    let (done, cur) = split_state(s, sep);
    let p = done.push(cur);
    assert forall|i: int| 0 <= i < p.len() implies !(#[trigger] p[i]).contains(sep) by {
        if i < done.len() {
            assert(p[i] == done[i]);
        }
    }
}

/// The two sides of `split_once`: the text before the first `c`, which holds
/// none, and the text after it.
pub proof fn lemma_split_once_parts(s: Seq<char>, c: char)
    ensures
        split_once(s, c) matches Some((a, b)) ==> {
            &&& !a.contains(c)
            &&& a.len() < s.len()
            &&& a == s.subrange(0, a.len() as int)
            &&& b == s.subrange(a.len() + 1int, s.len() as int)
        },
{
    s.index_of_first_ensures(c);
    if let Some(i) = s.index_of_first(c) {
        let a = s.take(i);
        if a.contains(c) {
            let j = choose|j: int| 0 <= j < a.len() && a[j] == c;
            assert(s[j] == c);
        }
    }
}

/// The two sides of `rsplit_once`: the text before the last `c`, and the
/// text after it, which holds none.
pub proof fn lemma_rsplit_once_parts(s: Seq<char>, c: char)
    ensures
        rsplit_once(s, c) matches Some((a, b)) ==> {
            &&& !b.contains(c)
            &&& a.len() < s.len()
            &&& a == s.subrange(0, a.len() as int)
            &&& b == s.subrange(a.len() + 1int, s.len() as int)
        },
{
    s.index_of_last_ensures(c);
    if let Some(i) = s.index_of_last(c) {
        let b = s.skip(i + 1);
        if b.contains(c) {
            let j = choose|j: int| 0 <= j < b.len() && b[j] == c;
            assert(s[i + 1 + j] == c);
        }
    }
}

/// A word as `split_whitespace` yields it: not empty, no whitespace in it.
pub open spec fn clean_word(w: Seq<char>) -> bool {
    &&& w.len() > 0
    &&& forall|j: int| 0 <= j < w.len() ==> !is_ws(#[trigger] w[j])
}

proof fn lemma_words_state_clean(s: Seq<char>)
    ensures
        forall|i: int| 0 <= i < words_state(s).0.len() ==> clean_word(#[trigger] words_state(s).0[i]),
        forall|j: int| 0 <= j < words_state(s).1.len() ==> !is_ws(#[trigger] words_state(s).1[j]),
    decreases s.len(),
{
    if s.len() > 0 {
        lemma_words_state_clean(s.drop_last());
        let (done, cur) = words_state(s.drop_last());
        if !is_ws(s.last()) {
            let c2 = cur.push(s.last());
            assert forall|j: int| 0 <= j < c2.len() implies !is_ws(#[trigger] c2[j]) by {
                if j < cur.len() {
                    assert(c2[j] == cur[j]);
                }
            }
        } else if cur.len() > 0 {
            let d2 = done.push(cur);
            assert forall|i: int| 0 <= i < d2.len() implies clean_word(#[trigger] d2[i]) by {
                if i < done.len() {
                    assert(d2[i] == done[i]);
                }
            }
        }
    }
}

/// Every word of a text is a clean word.
pub proof fn lemma_words_clean(s: Seq<char>)
    ensures
        forall|i: int| 0 <= i < words(s).len() ==> clean_word(#[trigger] words(s)[i]),
{
    lemma_words_state_clean(s);
    let (done, cur) = words_state(s);
    if cur.len() > 0 {
        let w = done.push(cur);
        assert forall|i: int| 0 <= i < w.len() implies clean_word(#[trigger] w[i]) by {
            if i < done.len() {
                assert(w[i] == done[i]);
            }
        }
    }
}

/// A clean word holds no line break.
pub proof fn lemma_clean_no_newline(w: Seq<char>)
    requires
        clean_word(w),
    ensures
        !w.contains('\n'),
        !is_ws(w.last()),
{
    if w.contains('\n') {
        let j = choose|j: int| 0 <= j < w.len() && w[j] == '\n';
        assert(!is_ws(w[j]));
    }
    assert(!is_ws(w[w.len() - 1]));
}

/// Clean words joined with spaces hold no line break and do not end in
/// whitespace.
pub proof fn lemma_join_clean(ws: Seq<Seq<char>>)
    requires
        ws.len() > 0,
        forall|i: int| 0 <= i < ws.len() ==> clean_word(#[trigger] ws[i]),
    ensures
        join(ws, " "@).len() > 0,
        !join(ws, " "@).contains('\n'),
        !is_ws(join(ws, " "@).last()),
    decreases ws.len(),
{
    reveal_strlit(" ");
    assert(clean_word(ws[0]));
    if ws.len() == 1 {
        lemma_clean_no_newline(ws[0]);
    } else {
        let w0 = ws.drop_last();
        assert forall|i: int| 0 <= i < w0.len() implies clean_word(#[trigger] w0[i]) by {
            assert(w0[i] == ws[i]);
        }
        lemma_join_clean(w0);
        let a = join(w0, " "@);
        let b = ws.last();
        assert(clean_word(ws[ws.len() - 1]));
        lemma_clean_no_newline(b);
        let j = join(ws, " "@);
        assert(j =~= a + " "@ + b);
        assert(j.last() == b.last());
        if j.contains('\n') {
            let k = choose|k: int| 0 <= k < j.len() && j[k] == '\n';
            if k < a.len() {
                assert(j[k] == a[k]);
                assert(a.contains('\n'));
            } else if k == a.len() {
                assert(j[k] == ' ');
            } else {
                assert(j[k] == b[k - a.len() - 1]);
                assert(b.contains('\n'));
            }
        }
    }
}

/// Reading on through a stretch without whitespace extends the word in
/// progress.
pub proof fn lemma_words_state_append(a: Seq<char>, b: Seq<char>)
    requires
        forall|i: int| 0 <= i < b.len() ==> !is_ws(#[trigger] b[i]),
    ensures
        words_state(a + b) == (words_state(a).0, words_state(a).1 + b),
    decreases b.len(),
{
    if b.len() == 0 {
        assert(a + b =~= a);
        assert(words_state(a).1 + b =~= words_state(a).1);
    } else {
        let b0 = b.drop_last();
        assert forall|i: int| 0 <= i < b0.len() implies !is_ws(#[trigger] b0[i]) by {
            assert(b0[i] == b[i]);
        }
        lemma_words_state_append(a, b0);
        assert((a + b).drop_last() =~= a + b0);
        assert((a + b).last() == b[b.len() - 1]);
        assert(words_state(a).1 + b0 + seq![b.last()] =~= words_state(a).1 + b);
    }
}

/// Two words with one space between them split into those two words.
pub proof fn lemma_words_two(w1: Seq<char>, w2: Seq<char>)
    requires
        w1.len() > 0,
        w2.len() > 0,
        forall|i: int| 0 <= i < w1.len() ==> !is_ws(#[trigger] w1[i]),
        forall|i: int| 0 <= i < w2.len() ==> !is_ws(#[trigger] w2[i]),
    ensures
        words(w1 + seq![' '] + w2) == seq![w1, w2],
{
    let e = Seq::<char>::empty();
    lemma_words_state_append(e, w1);
    assert(e + w1 =~= w1);
    assert(words_state(e) == (Seq::<Seq<char>>::empty(), e));
    assert(e + w1 =~= w1);
    let a = w1 + seq![' '];
    assert(a.drop_last() =~= w1);
    assert(is_ws(a.last()));
    assert(words_state(a) == (seq![w1], e));
    lemma_words_state_append(a, w2);
    assert(e + w2 =~= w2);
    assert(seq![w1].push(w2) =~= seq![w1, w2]);
}

/// Reading on through a stretch without the separator extends the piece in
/// progress.
pub proof fn lemma_split_state_append(a: Seq<char>, b: Seq<char>, sep: char)
    requires
        !b.contains(sep),
    ensures
        split_state(a + b, sep) == (split_state(a, sep).0, split_state(a, sep).1 + b),
    decreases b.len(),
{
    if b.len() == 0 {
        assert(a + b =~= a);
        assert(split_state(a, sep).1 + b =~= split_state(a, sep).1);
    } else {
        let b0 = b.drop_last();
        assert(!b0.contains(sep)) by {
            if b0.contains(sep) {
                let i = choose|i: int| 0 <= i < b0.len() && b0[i] == sep;
                assert(b[i] == sep);
            }
        }
        lemma_split_state_append(a, b0, sep);
        assert((a + b).drop_last() =~= a + b0);
        assert((a + b).last() == b.last());
        assert(b.last() != sep) by {
            assert(b[b.len() - 1] == b.last());
        }
        assert(split_state(a, sep).1 + b0 + seq![b.last()] =~= split_state(a, sep).1 + b);
    }
}

} // verus!
