//! Bencoding, the serialization of torrent metainfo: integers, byte strings,
//! lists and dictionaries, decoded from the front of a byte string.
use vstd::prelude::*;

use crate::wire::copy_range;

verus! {

/// A decoded bencoded value.
#[derive(Debug)]
pub enum BValue {
    Integer(i64),
    Bytes(Vec<u8>),
    List(Vec<BValue>),
    /// The entries in the order in which they were written.
    Dict(Vec<(Vec<u8>, BValue)>),
}

/// The mathematical value that a `BValue` stands for.
pub enum BTerm {
    Int(int),
    Str(Seq<u8>),
    List(Seq<BTerm>),
    Dict(Seq<(Seq<u8>, BTerm)>),
}

impl BValue {
    /// What this value stands for.
    pub open spec fn term(self) -> BTerm
        decreases self,
    {
        match self {
            BValue::Integer(n) => BTerm::Int(n as int),
            BValue::Bytes(b) => BTerm::Str(b@),
            BValue::List(items) => BTerm::List(
                Seq::new(items@.len(), |i: int| if 0 <= i < items@.len() { items@[i].term() } else { BTerm::Int(0) }),
            ),
            BValue::Dict(entries) => BTerm::Dict(
                Seq::new(
                    entries@.len(),
                    |i: int|
                        if 0 <= i < entries@.len() {
                            (entries@[i].0@, entries@[i].1.term())
                        } else {
                            (Seq::empty(), BTerm::Int(0))
                        },
                ),
            ),
        }
    }
}

/// What a sequence of values stands for.
pub open spec fn terms(items: Seq<BValue>) -> Seq<BTerm> {
    Seq::new(items.len(), |i: int| items[i].term())
}

/// What a sequence of entries stands for.
pub open spec fn entry_terms(entries: Seq<(Vec<u8>, BValue)>) -> Seq<(Seq<u8>, BTerm)> {
    Seq::new(entries.len(), |i: int| (entries[i].0@, entries[i].1.term()))
}

/// Whether `b` is an ASCII decimal digit.
pub open spec fn is_digit(b: u8) -> bool {
    48 <= b <= 57
}

/// Whether every byte of `d` is a decimal digit.
pub open spec fn all_digits(d: Seq<u8>) -> bool {
    forall|i: int| 0 <= i < d.len() ==> is_digit(#[trigger] d[i])
}

/// The number that the decimal digits `d` write.
pub open spec fn digits_value(d: Seq<u8>) -> nat
    decreases d.len(),
{
    if d.len() == 0 {
        0
    } else {
        digits_value(d.drop_last()) * 10 + (d.last() - 48) as nat
    }
}

/// The signed 64-bit integer that the text `t` writes: an optional `-` or
/// `+`, then one or more decimal digits.
pub open spec fn int_text(t: Seq<u8>) -> Option<int> {
    let signed = t.len() > 0 && (t[0] == 45 || t[0] == 43);
    let d = if signed {
        t.skip(1)
    } else {
        t
    };
    let v: int = if t.len() > 0 && t[0] == 45 {
        -digits_value(d)
    } else {
        digits_value(d) as int
    };
    if d.len() == 0 || !all_digits(d) || v < i64::MIN || v > i64::MAX {
        None
    } else {
        Some(v)
    }
}

/// The unsigned integer, of at most `usize::MAX`, that the text `t` writes:
/// an optional `+`, then one or more decimal digits.
pub open spec fn uint_text(t: Seq<u8>) -> Option<nat> {
    let d = if t.len() > 0 && t[0] == 43 {
        t.skip(1)
    } else {
        t
    };
    if d.len() == 0 || !all_digits(d) || digits_value(d) > usize::MAX {
        None
    } else {
        Some(digits_value(d))
    }
}

/// The index of the first `b` in `s`.
pub open spec fn position_of(s: Seq<u8>, b: u8) -> Option<nat>
    decreases s.len(),
{
    if s.len() == 0 {
        None
    } else if s[0] == b {
        Some(0)
    } else {
        match position_of(s.skip(1), b) {
            Some(k) => Some(k + 1),
            None => None,
        }
    }
}

/// The value bencoded at the front of `s`, and how many bytes it spans.
pub open spec fn parse_value(s: Seq<u8>) -> Option<(BTerm, nat)>
    decreases s.len(), 0nat,
{
    if s.len() == 0 {
        None
    } else if s[0] == 105 {
        match position_of(s.skip(1), 101) {
            Some(k) => match int_text(s.subrange(1, 1 + k as int)) {
                Some(n) => Some((BTerm::Int(n), k + 2)),
                None => None,
            },
            None => None,
        }
    } else if is_digit(s[0]) {
        match position_of(s, 58) {
            Some(k) => match uint_text(s.subrange(0, k as int)) {
                Some(n) => if k + 1 + n <= s.len() {
                    Some((BTerm::Str(s.subrange(k + 1int, k + 1 + n as int)), k + 1 + n))
                } else {
                    None
                },
                None => None,
            },
            None => None,
        }
    } else if s[0] == 108 {
        match parse_items(s.skip(1)) {
            Some((items, n)) => Some((BTerm::List(items), n + 1)),
            None => None,
        }
    } else if s[0] == 100 {
        match parse_entries(s.skip(1)) {
            Some((entries, n)) => Some((BTerm::Dict(entries), n + 1)),
            None => None,
        }
    } else {
        None
    }
}

/// The values of a list up to its closing `e`; the count includes the `e`.
pub open spec fn parse_items(s: Seq<u8>) -> Option<(Seq<BTerm>, nat)>
    decreases s.len(), 1nat,
{
    if s.len() == 0 {
        None
    } else if s[0] == 101 {
        Some((Seq::empty(), 1))
    } else {
        match parse_value(s) {
            Some((v, n)) => if 0 < n <= s.len() {
                match parse_items(s.skip(n as int)) {
                    Some((rest, m)) => Some((seq![v] + rest, n + m)),
                    None => None,
                }
            } else {
                None
            },
            None => None,
        }
    }
}

/// The entries of a dictionary up to its closing `e`; each key is a byte
/// string. The count includes the `e`.
pub open spec fn parse_entries(s: Seq<u8>) -> Option<(Seq<(Seq<u8>, BTerm)>, nat)>
    decreases s.len(), 1nat,
{
    if s.len() == 0 {
        None
    } else if s[0] == 101 {
        Some((Seq::empty(), 1))
    } else {
        match parse_value(s) {
            Some((BTerm::Str(k), n1)) => if 0 < n1 <= s.len() {
                match parse_value(s.skip(n1 as int)) {
                    Some((v, n2)) => if 0 < n2 <= s.len() - n1 {
                        match parse_entries(s.skip(n1 + n2 as int)) {
                            Some((rest, m)) => Some((seq![(k, v)] + rest, n1 + n2 + m)),
                            None => None,
                        }
                    } else {
                        None
                    },
                    None => None,
                }
            } else {
                None
            },
            _ => None,
        }
    }
}

/// `xs` in front of a parse that starts `k` bytes further on.
pub open spec fn prepend<T>(xs: Seq<T>, k: nat, r: Option<(Seq<T>, nat)>) -> Option<(Seq<T>, nat)> {
    match r {
        Some((ys, m)) => Some((xs + ys, m + k)),
        None => None,
    }
}

/// Whether `r` is the decoder's answer for the parse `p`.
pub open spec fn decoded_as(r: Option<(BValue, usize)>, p: Option<(BTerm, nat)>) -> bool {
    match (r, p) {
        (None, None) => true,
        (Some((v, m)), Some((t, n))) => v.term() == t && m == n,
        _ => false,
    }
}

proof fn lemma_position_of(s: Seq<u8>, b: u8)
    ensures
        match position_of(s, b) {
            Some(k) => k < s.len() && s[k as int] == b && forall|j: int| 0 <= j < k ==> s[j] != b,
            None => forall|j: int| 0 <= j < s.len() ==> s[j] != b,
        },
    decreases s.len(),
{
    if s.len() > 0 && s[0] != b {
        lemma_position_of(s.skip(1), b);
        match position_of(s.skip(1), b) {
            Some(k) => {
                assert forall|j: int| 0 <= j < k + 1 implies s[j] != b by {
                    if j > 0 {
                        assert(s[j] == s.skip(1)[j - 1]);
                    }
                }
            },
            None => {
                assert forall|j: int| 0 <= j < s.len() implies s[j] != b by {
                    if j > 0 {
                        assert(s[j] == s.skip(1)[j - 1]);
                    }
                }
            },
        }
    }
}

/// The index of the first `b` in `s` from `from` on.
fn find_byte(s: &[u8], from: usize, b: u8) -> (r: Option<usize>)
    requires
        from <= s@.len(),
    ensures
        match position_of(s@.skip(from as int), b) {
            Some(k) => r is Some && r->0 == from + k,
            None => r is None,
        },
        r matches Some(i) ==> from <= i < s@.len() && s@[i as int] == b,
{
    let ghost t = s@.skip(from as int);
    proof {
        lemma_position_of(t, b);
    }
    let mut i: usize = from;
    while i < s.len()
        invariant
            from <= i <= s@.len(),
            t == s@.skip(from as int),
            forall|j: int| from <= j < i ==> s@[j] != b,
        decreases s@.len() - i,
    {
        if s[i] == b {
            proof {
                lemma_position_of(t, b);
                match position_of(t, b) {
                    Some(k) => {
                        if k < i - from {
                            assert(t[k as int] == s@[from + k]);
                        } else if k > i - from {
                            assert(t[i - from] == s@[i as int]);
                        }
                    },
                    None => {
                        assert(t[i - from] == s@[i as int]);
                    },
                }
            }
            return Some(i);
        }
        i = i + 1;
    }
    proof {
        lemma_position_of(t, b);
        match position_of(t, b) {
            Some(k) => {
                assert(t[k as int] == s@[from + k]);
            },
            None => {},
        }
    }
    None
}

proof fn lemma_digits_step(d: Seq<u8>, j: int)
    requires
        0 <= j < d.len(),
    ensures
        digits_value(d.subrange(0, j + 1)) == digits_value(d.subrange(0, j)) * 10 + (d[j] - 48) as nat,
{
    assert(d.subrange(0, j + 1).drop_last() =~= d.subrange(0, j));
}

proof fn lemma_digits_monotone(d: Seq<u8>, j: int)
    requires
        0 <= j <= d.len(),
        all_digits(d),
    ensures
        digits_value(d.subrange(0, j)) <= digits_value(d),
    decreases d.len() - j,
{
    if j < d.len() {
        lemma_digits_step(d, j);
        lemma_digits_monotone(d, j + 1);
    } else {
        assert(d.subrange(0, j) =~= d);
    }
}

/// The number that the digits `s[lo..hi]` write, if there is at least one,
/// all are digits, and the number is at most `limit`.
fn parse_digits(s: &[u8], lo: usize, hi: usize, limit: u64) -> (r: Option<u64>)
    requires
        lo <= hi <= s@.len(),
    ensures
        ({
            let d = s@.subrange(lo as int, hi as int);
            if lo < hi && all_digits(d) && digits_value(d) <= limit {
                r == Some(digits_value(d) as u64)
            } else {
                r is None
            }
        }),
{
    let ghost d = s@.subrange(lo as int, hi as int);
    if lo == hi {
        return None;
    }
    let mut i: usize = lo;
    while i < hi
        invariant
            lo <= i <= hi <= s@.len(),
            d == s@.subrange(lo as int, hi as int),
            forall|j: int| lo <= j < i ==> is_digit(s@[j]),
        decreases hi - i,
    {
        if s[i] < 48 || s[i] > 57 {
            assert(!is_digit(d[i - lo]));
            return None;
        }
        i = i + 1;
    }
    assert(all_digits(d)) by {
        assert forall|j: int| 0 <= j < d.len() implies is_digit(#[trigger] d[j]) by {
            assert(d[j] == s@[lo + j]);
        }
    }
    let mut acc: u64 = 0;
    let mut i: usize = lo;
    assert(d.subrange(0, 0) =~= Seq::<u8>::empty());
    while i < hi
        invariant
            lo <= i <= hi <= s@.len(),
            d == s@.subrange(lo as int, hi as int),
            all_digits(d),
            acc == digits_value(d.subrange(0, i - lo)),
            acc <= limit,
        decreases hi - i,
    {
        proof {
            lemma_digits_step(d, i - lo);
        }
        assert(d[i - lo] == s[i as int]);
        assert(is_digit(d[i - lo]));
        let next: u128 = acc as u128 * 10 + (s[i] - 48) as u128;
        if next > limit as u128 {
            proof {
                lemma_digits_monotone(d, i - lo + 1);
            }
            return None;
        }
        acc = next as u64;
        i = i + 1;
    }
    assert(d.subrange(0, hi - lo) =~= d);
    Some(acc)
}

/// The integer that `s[lo..hi]` writes, as `int_text` reads it.
fn parse_int(s: &[u8], lo: usize, hi: usize) -> (r: Option<i64>)
    requires
        lo <= hi <= s@.len(),
    ensures
        match int_text(s@.subrange(lo as int, hi as int)) {
            Some(v) => r == Some(v as i64),
            None => r is None,
        },
{
    let ghost t = s@.subrange(lo as int, hi as int);
    if lo < hi && (s[lo] == 45 || s[lo] == 43) {
        assert(t.skip(1) =~= s@.subrange(lo + 1, hi as int));
        if s[lo] == 45 {
            match parse_digits(s, lo + 1, hi, 9223372036854775808) {
                None => None,
                Some(m) => if m == 9223372036854775808 {
                    Some(i64::MIN)
                } else {
                    Some(-(m as i64))
                },
            }
        } else {
            match parse_digits(s, lo + 1, hi, 9223372036854775807) {
                None => None,
                Some(m) => Some(m as i64),
            }
        }
    } else {
        match parse_digits(s, lo, hi, 9223372036854775807) {
            None => None,
            Some(m) => Some(m as i64),
        }
    }
}

/// The length that `s[lo..hi]` writes, as `uint_text` reads it.
fn parse_uint(s: &[u8], lo: usize, hi: usize) -> (r: Option<usize>)
    requires
        lo <= hi <= s@.len(),
    ensures
        match uint_text(s@.subrange(lo as int, hi as int)) {
            Some(v) => r == Some(v as usize),
            None => r is None,
        },
{
    let ghost t = s@.subrange(lo as int, hi as int);
    let start = if lo < hi && s[lo] == 43 {
        assert(t.skip(1) =~= s@.subrange(lo + 1, hi as int));
        lo + 1
    } else {
        lo
    };
    match parse_digits(s, start, hi, usize::MAX as u64) {
        None => None,
        Some(m) => Some(m as usize),
    }
}

proof fn lemma_list_term(items: Vec<BValue>)
    ensures
        BValue::List(items).term() == BTerm::List(terms(items@)),
{
    match BValue::List(items).term() {
        BTerm::List(xs) => {
            assert(xs =~= terms(items@));
        },
        _ => {},
    }
}

proof fn lemma_dict_term(entries: Vec<(Vec<u8>, BValue)>)
    ensures
        BValue::Dict(entries).term() == BTerm::Dict(entry_terms(entries@)),
{
    match BValue::Dict(entries).term() {
        BTerm::Dict(xs) => {
            assert(xs =~= entry_terms(entries@));
        },
        _ => {},
    }
}

/// Decodes the value that starts at `at`; the count is of the bytes it spans.
fn value_at(s: &[u8], at: usize) -> (r: Option<(BValue, usize)>)
    requires
        at <= s@.len(),
    ensures
        decoded_as(r, parse_value(s@.skip(at as int))),
        r matches Some((_, n)) ==> 0 < n <= s@.len() - at,
    decreases s@.len() - at, 0nat,
{
    let ghost t = s@.skip(at as int);
    if at >= s.len() {
        return None;
    }
    let c = s[at];
    assert(t[0] == c);
    if c == 105 {
        assert(t.skip(1) =~= s@.skip(at + 1));
        match find_byte(s, at + 1, 101) {
            None => None,
            Some(e) => {
                assert(t.subrange(1, (e - at) as int) =~= s@.subrange(at + 1, e as int));
                match parse_int(s, at + 1, e) {
                    None => None,
                    Some(n) => Some((BValue::Integer(n), e + 1 - at)),
                }
            },
        }
    } else if 48 <= c && c <= 57 {
        match find_byte(s, at, 58) {
            None => None,
            Some(colon) => {
                assert(t.subrange(0, (colon - at) as int) =~= s@.subrange(at as int, colon as int));
                match parse_uint(s, at, colon) {
                    None => None,
                    Some(n) => {
                        if n > s.len() - colon - 1 {
                            return None;
                        }
                        let bytes = copy_range(s, colon + 1, colon + 1 + n);
                        assert(bytes@ =~= t.subrange(colon - at + 1, colon - at + 1 + n));
                        Some((BValue::Bytes(bytes), colon + 1 + n - at))
                    },
                }
            },
        }
    } else if c == 108 {
        assert(t.skip(1) =~= s@.skip(at + 1));
        match items_at(s, at + 1) {
            None => None,
            Some((items, n)) => {
                proof {
                    lemma_list_term(items);
                }
                Some((BValue::List(items), n + 1))
            },
        }
    } else if c == 100 {
        assert(t.skip(1) =~= s@.skip(at + 1));
        match entries_at(s, at + 1) {
            None => None,
            Some((entries, n)) => {
                proof {
                    lemma_dict_term(entries);
                }
                Some((BValue::Dict(entries), n + 1))
            },
        }
    } else {
        None
    }
}

/// Decodes the values of a list from `at` up to its closing `e`; the count
/// includes the `e`.
fn items_at(s: &[u8], at: usize) -> (r: Option<(Vec<BValue>, usize)>)
    requires
        at <= s@.len(),
    ensures
        match parse_items(s@.skip(at as int)) {
            Some((ts, n)) => r matches Some((items, m)) && terms(items@) == ts && m == n,
            None => r is None,
        },
        r matches Some((_, n)) ==> 0 < n <= s@.len() - at,
    decreases s@.len() - at, 1nat,
{
    let mut items: Vec<BValue> = Vec::new();
    let mut pos: usize = at;
    assert(s@.skip(at as int) =~= s@.skip(pos as int));
    assert(terms(items@) =~= Seq::<BTerm>::empty());
    assert(parse_items(s@.skip(at as int)) == prepend(terms(items@), 0, parse_items(s@.skip(pos as int)))) by {
        match parse_items(s@.skip(pos as int)) {
            Some((ys, m)) => {
                assert(Seq::<BTerm>::empty() + ys =~= ys);
            },
            None => {},
        }
    }
    loop
        invariant
            at <= pos <= s@.len(),
            parse_items(s@.skip(at as int)) == prepend(
                terms(items@),
                (pos - at) as nat,
                parse_items(s@.skip(pos as int)),
            ),
        decreases s@.len() - pos,
    {
        let ghost u = s@.skip(pos as int);
        if pos >= s.len() {
            return None;
        }
        assert(u[0] == s@[pos as int]);
        if s[pos] == 101 {
            assert(terms(items@) + Seq::<BTerm>::empty() =~= terms(items@));
            return Some((items, pos + 1 - at));
        }
        match value_at(s, pos) {
            None => {
                return None;
            },
            Some((v, n)) => {
                let ghost before = items@;
                assert(u.skip(n as int) =~= s@.skip(pos + n));
                items.push(v);
                assert(terms(items@) =~= terms(before) + seq![v.term()]);
                proof {
                    match parse_items(s@.skip(pos + n)) {
                        Some((ys, m)) => {
                            assert(terms(before) + (seq![v.term()] + ys) =~= terms(items@) + ys);
                        },
                        None => {},
                    }
                }
                pos = pos + n;
            },
        }
    }
}

/// Decodes the entries of a dictionary from `at` up to its closing `e`; the
/// count includes the `e`.
fn entries_at(s: &[u8], at: usize) -> (r: Option<(Vec<(Vec<u8>, BValue)>, usize)>)
    requires
        at <= s@.len(),
    ensures
        match parse_entries(s@.skip(at as int)) {
            Some((ts, n)) => r matches Some((entries, m)) && entry_terms(entries@) == ts && m == n,
            None => r is None,
        },
        r matches Some((_, n)) ==> 0 < n <= s@.len() - at,
    decreases s@.len() - at, 1nat,
{
    let mut entries: Vec<(Vec<u8>, BValue)> = Vec::new();
    let mut pos: usize = at;
    assert(s@.skip(at as int) =~= s@.skip(pos as int));
    assert(entry_terms(entries@) =~= Seq::<(Seq<u8>, BTerm)>::empty());
    assert(parse_entries(s@.skip(at as int)) == prepend(entry_terms(entries@), 0, parse_entries(s@.skip(pos as int)))) by {
        match parse_entries(s@.skip(pos as int)) {
            Some((ys, m)) => {
                assert(Seq::<(Seq<u8>, BTerm)>::empty() + ys =~= ys);
            },
            None => {},
        }
    }
    loop
        invariant
            at <= pos <= s@.len(),
            parse_entries(s@.skip(at as int)) == prepend(
                entry_terms(entries@),
                (pos - at) as nat,
                parse_entries(s@.skip(pos as int)),
            ),
        decreases s@.len() - pos,
    {
        let ghost u = s@.skip(pos as int);
        if pos >= s.len() {
            return None;
        }
        assert(u[0] == s@[pos as int]);
        if s[pos] == 101 {
            assert(entry_terms(entries@) + Seq::<(Seq<u8>, BTerm)>::empty() =~= entry_terms(entries@));
            return Some((entries, pos + 1 - at));
        }
        let (key, n1) = match value_at(s, pos) {
            Some((BValue::Bytes(k), n1)) => (k, n1),
            _ => {
                return None;
            },
        };
        assert(u.skip(n1 as int) =~= s@.skip(pos + n1));
        let (v, n2) = match value_at(s, pos + n1) {
            Some(p) => p,
            None => {
                return None;
            },
        };
        let ghost before = entries@;
        assert(u.skip(n1 + n2) =~= s@.skip(pos + n1 + n2));
        entries.push((key, v));
        assert(entry_terms(entries@) =~= entry_terms(before) + seq![(key@, v.term())]);
        proof {
            match parse_entries(s@.skip(pos + n1 + n2)) {
                Some((ys, m)) => {
                    assert(entry_terms(before) + (seq![(key@, v.term())] + ys) =~= entry_terms(entries@) + ys);
                },
                None => {},
            }
        }
        pos = pos + n1 + n2;
    }
}

/// Decodes the value bencoded at the front of `encoded`: an integer
/// `i<digits>e`, a byte string `<length>:<bytes>`, a list `l<values>e` or a
/// dictionary `d<key><value>...e` whose keys are byte strings. Returns the
/// value and the number of bytes it spans; `None` where the front of
/// `encoded` is not a bencoded value.
pub fn decode_bencoded_value(encoded: &[u8]) -> (r: Option<(BValue, usize)>)
    ensures
        decoded_as(r, parse_value(encoded@)),
        r matches Some((_, n)) ==> 0 < n <= encoded@.len(),
{
    assert(encoded@.skip(0) =~= encoded@);
    value_at(encoded, 0)
}

} // verus!
