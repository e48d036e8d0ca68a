//! Header and query-parameter maps: entries kept sorted by the bytes of
//! their keys, one entry per key, so that their wire form is reproducible.
use vstd::prelude::*;
use vstd::utf8::*;
use crate::text::{compare_bytes, lex_lt, lemma_lex_irreflexive, lemma_lex_total, lemma_lex_transitive, ascii_lower, to_ascii_lower, lemma_ascii_lower_idempotent};

verus! {

broadcast use vstd::utf8::group_utf8_lib;

/// One map entry as a pair of character sequences.
pub type Entry = (Seq<char>, Seq<char>);

pub open spec fn entries_view(v: Seq<(String, String)>) -> Seq<Entry> {
    Seq::new(v.len(), |i: int| (v[i].0@, v[i].1@))
}

/// Keys are ordered by their UTF-8 bytes, as `String`'s own order does.
pub open spec fn key_lt(a: Seq<char>, b: Seq<char>) -> bool {
    lex_lt(encode_utf8(a), encode_utf8(b))
}

/// Keys strictly increase along the sequence, so no key occurs twice.
pub open spec fn sorted_by_key(s: Seq<Entry>) -> bool {
    forall|i: int, j: int| 0 <= i < j < s.len() ==> key_lt(#[trigger] s[i].0, #[trigger] s[j].0)
}

pub open spec fn has_key(s: Seq<Entry>, k: Seq<char>) -> bool {
    exists|i: int| 0 <= i < s.len() && #[trigger] s[i].0 == k
}

/// The value stored under `k`, if any.
pub open spec fn lookup(s: Seq<Entry>, k: Seq<char>) -> Option<Seq<char>> {
    if has_key(s, k) {
        Some(s[choose|i: int| 0 <= i < s.len() && #[trigger] s[i].0 == k].1)
    } else {
        None
    }
}

/// `t` is `s` with `k` bound to `v`: the entry of `k` is replaced or added.
pub open spec fn is_insert(s: Seq<Entry>, t: Seq<Entry>, k: Seq<char>, v: Seq<char>) -> bool {
    &&& sorted_by_key(t)
    &&& forall|q: Seq<char>| #[trigger] lookup(t, q) == if q == k { Some(v) } else { lookup(s, q) }
}

pub proof fn lemma_key_lt_irreflexive(a: Seq<char>)
    ensures
        !key_lt(a, a),
{
    lemma_lex_irreflexive(encode_utf8(a));
}

pub proof fn lemma_lookup_at(s: Seq<Entry>, i: int)
    requires
        sorted_by_key(s),
        0 <= i < s.len(),
    ensures
        lookup(s, s[i].0) == Some(s[i].1),
{
    assert(has_key(s, s[i].0));
    let j = choose|j: int| 0 <= j < s.len() && #[trigger] s[j].0 == s[i].0;
    if j != i {
        lemma_key_lt_irreflexive(s[i].0);
    }
}

pub proof fn lemma_lookup_none(s: Seq<Entry>, k: Seq<char>)
    requires
        forall|i: int| 0 <= i < s.len() ==> #[trigger] s[i].0 != k,
    ensures
        lookup(s, k) is None,
{
}

/// Two sorted entry sequences that bind the same keys to the same values
/// are the same sequence.
pub proof fn lemma_canonical(s: Seq<Entry>, t: Seq<Entry>)
    requires
        sorted_by_key(s),
        sorted_by_key(t),
        forall|q: Seq<char>| #[trigger] lookup(s, q) == lookup(t, q),
    ensures
        s == t,
    decreases s.len(),
{
    if s.len() == 0 || t.len() == 0 {
        if t.len() > 0 {
            lemma_lookup_at(t, 0);
            assert(lookup(s, t[0].0) == lookup(t, t[0].0));
        }
        if s.len() > 0 {
            lemma_lookup_at(s, 0);
            assert(lookup(s, s[0].0) == lookup(t, s[0].0));
        }
        assert(s =~= t);
    } else {
        let a = s[0].0;
        let b = t[0].0;
        lemma_lookup_at(s, 0);
        lemma_lookup_at(t, 0);
        assert(lookup(s, a) == lookup(t, a));
        assert(lookup(s, b) == lookup(t, b));
        let j = choose|j: int| 0 <= j < t.len() && #[trigger] t[j].0 == a;
        let i = choose|i: int| 0 <= i < s.len() && #[trigger] s[i].0 == b;
        if i > 0 && j > 0 {
            lemma_lex_transitive(encode_utf8(a), encode_utf8(b), encode_utf8(a));
            lemma_key_lt_irreflexive(a);
        }
        assert(a == b);
        let s1 = s.drop_first();
        let t1 = t.drop_first();
        assert forall|q: Seq<char>| #[trigger] lookup(s1, q) == lookup(t1, q) by {
            assert forall|k: int| 0 <= k < s1.len() implies #[trigger] s1[k].0 != a by {
                assert(key_lt(s[0].0, s[k + 1].0));
                lemma_key_lt_irreflexive(a);
            }
            assert forall|k: int| 0 <= k < t1.len() implies #[trigger] t1[k].0 != a by {
                assert(key_lt(t[0].0, t[k + 1].0));
                lemma_key_lt_irreflexive(a);
            }
            if q == a {
                lemma_lookup_none(s1, q);
                lemma_lookup_none(t1, q);
            } else {
                assert(lookup(s, q) == lookup(t, q));
                if has_key(s1, q) {
                    let k = choose|k: int| 0 <= k < s1.len() && #[trigger] s1[k].0 == q;
                    lemma_lookup_at(s1, k);
                    assert(s[k + 1] == s1[k]);
                    lemma_lookup_at(s, k + 1);
                } else {
                    assert forall|k: int| 0 <= k < s.len() implies #[trigger] s[k].0 != q by {
                        if k > 0 {
                            assert(s[k] == s1[k - 1]);
                        }
                    }
                    lemma_lookup_none(s, q);
                }
                if has_key(t1, q) {
                    let k = choose|k: int| 0 <= k < t1.len() && #[trigger] t1[k].0 == q;
                    lemma_lookup_at(t1, k);
                    assert(t[k + 1] == t1[k]);
                    lemma_lookup_at(t, k + 1);
                } else {
                    assert forall|k: int| 0 <= k < t.len() implies #[trigger] t[k].0 != q by {
                        if k > 0 {
                            assert(t[k] == t1[k - 1]);
                        }
                    }
                    lemma_lookup_none(t, q);
                }
            }
        }
        lemma_canonical(s1, t1);
        assert(s =~= seq![s[0]] + s1);
        assert(t =~= seq![t[0]] + t1);
    }
}

/// The sorted sequence with `k` bound to `v` and every other key as in `s`.
pub open spec fn inserted(s: Seq<Entry>, k: Seq<char>, v: Seq<char>) -> Seq<Entry> {
    choose|t: Seq<Entry>| is_insert(s, t, k, v)
}

pub proof fn lemma_inserted(s: Seq<Entry>, t: Seq<Entry>, k: Seq<char>, v: Seq<char>)
    requires
        is_insert(s, t, k, v),
    ensures
        inserted(s, k, v) == t,
{
    let u = inserted(s, k, v);
    assert(is_insert(s, u, k, v));
    assert forall|q: Seq<char>| #[trigger] lookup(u, q) == lookup(t, q) by {
        assert(lookup(u, q) == if q == k { Some(v) } else { lookup(s, q) });
        assert(lookup(t, q) == if q == k { Some(v) } else { lookup(s, q) });
    }
    lemma_canonical(u, t);
}

/// Index of the entry whose key equals `key`, or the index at which such an
/// entry would be inserted to keep the keys sorted.
fn locate(v: &Vec<(String, String)>, key: &String) -> (r: (usize, bool))
    requires
        sorted_by_key(entries_view(v@)),
    ensures
        r.0 <= v@.len(),
        r.1 ==> r.0 < v@.len() && v@[r.0 as int].0@ == key@,
        forall|i: int| 0 <= i < r.0 ==> key_lt(#[trigger] v@[i].0@, key@),
        !r.1 ==> forall|i: int| r.0 <= i < v@.len() ==> key_lt(key@, #[trigger] v@[i].0@),
{
    let ghost s = entries_view(v@);
    let kb = key.as_str().as_bytes();
    let mut i: usize = 0;
    while i < v.len()
        invariant
            i <= v@.len(),
            s == entries_view(v@),
            sorted_by_key(s),
            kb@ == encode_utf8(key@),
            forall|j: int| 0 <= j < i ==> key_lt(#[trigger] v@[j].0@, key@),
        decreases v@.len() - i,
    {
        let c = compare_bytes(v[i].0.as_str().as_bytes(), kb);
        if c == 0 {
            proof {
                vstd::utf8::encode_utf8_decode_utf8(v@[i as int].0@);
                vstd::utf8::encode_utf8_decode_utf8(key@);
            }
            return (i, true);
        }
        if c > 0 {
            assert forall|j: int| i <= j < v@.len() implies key_lt(key@, #[trigger] v@[j].0@) by {
                if j > i {
                    assert(s[i as int].0 == v@[i as int].0@ && s[j].0 == v@[j].0@);
                    lemma_lex_transitive(
                        encode_utf8(key@),
                        encode_utf8(v@[i as int].0@),
                        encode_utf8(v@[j].0@),
                    );
                }
            }
            return (i, false);
        }
        i = i + 1;
    }
    (i, false)
}

/// Binds `key` to `value` in `v`, keeping the keys sorted and unique.
fn insert_entry(v: &mut Vec<(String, String)>, key: String, value: String)
    requires
        sorted_by_key(entries_view(old(v)@)),
    ensures
        is_insert(entries_view(old(v)@), entries_view(final(v)@), key@, value@),
        entries_view(final(v)@) == inserted(entries_view(old(v)@), key@, value@),
{
    let ghost s = entries_view(v@);
    let (i, found) = locate(v, &key);
    let ghost k = key@;
    let ghost val = value@;
    if found {
        v.set(i, (key, value));
    } else {
        v.insert(i, (key, value));
    }
    let ghost t = entries_view(v@);
    assert(sorted_by_key(t)) by {
        assert forall|a: int, b: int| 0 <= a < b < t.len() implies key_lt(
            #[trigger] t[a].0,
            #[trigger] t[b].0,
        ) by {
            if found {
                assert(t[a].0 == s[a].0 && t[b].0 == s[b].0);
            } else if b < i {
                assert(t[a].0 == s[a].0 && t[b].0 == s[b].0);
            } else if a > i {
                assert(t[a].0 == s[a - 1].0 && t[b].0 == s[b - 1].0);
            } else if a == i {
                assert(t[b].0 == s[b - 1].0);
            } else if b == i {
                assert(t[a].0 == s[a].0);
            } else {
                assert(t[a].0 == s[a].0 && t[b].0 == s[b - 1].0);
                lemma_lex_transitive(encode_utf8(s[a].0), encode_utf8(k), encode_utf8(s[b - 1].0));
            }
        }
    }
    assert forall|q: Seq<char>| #[trigger] lookup(t, q) == if q == k {
        Some(val)
    } else {
        lookup(s, q)
    } by {
        if q == k {
            assert(t[i as int] == (k, val));
            lemma_lookup_at(t, i as int);
        } else if has_key(s, q) {
            let j = choose|j: int| 0 <= j < s.len() && #[trigger] s[j].0 == q;
            lemma_lookup_at(s, j);
            if found {
                assert(t[j] == s[j]);
                lemma_lookup_at(t, j);
            } else if j < i {
                assert(t[j] == s[j]);
                lemma_lookup_at(t, j);
            } else {
                assert(t[j + 1] == s[j]);
                lemma_lookup_at(t, j + 1);
            }
        } else {
            assert forall|j: int| 0 <= j < t.len() implies #[trigger] t[j].0 != q by {
                if found {
                    if j != i {
                        assert(t[j] == s[j]);
                    }
                } else if j < i {
                    assert(t[j] == s[j]);
                } else if j > i {
                    assert(t[j] == s[j - 1]);
                }
            }
            lemma_lookup_none(t, q);
        }
    }
    proof {
        lemma_inserted(s, t, k, val);
    }
}

/// Position of the entry stored under `key`.
fn find_entry(v: &Vec<(String, String)>, key: &String) -> (r: Option<usize>)
    requires
        sorted_by_key(entries_view(v@)),
    ensures
        r matches Some(i) ==> i < v@.len() && v@[i as int].0@ == key@,
        r is None ==> lookup(entries_view(v@), key@) is None,
{
    let (i, found) = locate(v, key);
    if found {
        Some(i)
    } else {
        proof {
            let s = entries_view(v@);
            assert forall|j: int| 0 <= j < s.len() implies #[trigger] s[j].0 != key@ by {
                lemma_key_lt_irreflexive(key@);
                assert(s[j].0 == v@[j].0@);
            }
            lemma_lookup_none(s, key@);
        }
        None
    }
}

/// Entries written as `key<mid>value`, separated by `sep`.
pub open spec fn joined(s: Seq<Entry>, mid: Seq<char>, sep: Seq<char>) -> Seq<char>
    decreases s.len(),
{
    if s.len() == 0 {
        Seq::empty()
    } else if s.len() == 1 {
        s[0].0 + mid + s[0].1
    } else {
        joined(s.drop_last(), mid, sep) + sep + (s.last().0 + mid + s.last().1)
    }
}

fn join_entries(v: &Vec<(String, String)>, mid: &str, sep: &str) -> (r: String)
    ensures
        r@ == joined(entries_view(v@), mid@, sep@),
{
    let ghost s = entries_view(v@);
    let mut out = String::new();
    let mut i: usize = 0;
    assert(s.subrange(0, 0) =~= Seq::<Entry>::empty());
    while i < v.len()
        invariant
            i <= v@.len(),
            s == entries_view(v@),
            out@ == joined(s.subrange(0, i as int), mid@, sep@),
        decreases v@.len() - i,
    {
        let ghost before = out@;
        if i > 0 {
            out.append(sep);
        }
        out.append(v[i].0.as_str());
        out.append(mid);
        out.append(v[i].1.as_str());
        proof {
            let p = s.subrange(0, i + 1);
            assert(p.drop_last() =~= s.subrange(0, i as int));
            assert(p.last() == s[i as int]);
            if i == 0 {
                assert(before =~= Seq::<char>::empty());
                assert(out@ =~= p[0].0 + mid@ + p[0].1);
            } else {
                assert(out@ =~= before + sep@ + (p.last().0 + mid@ + p.last().1));
            }
        }
        i = i + 1;
    }
    assert(s.subrange(0, v@.len() as int) =~= s);
    out
}

/// A header or parameter value: text, or an integer written in decimal.
#[derive(Debug, Clone)]
pub enum FieldValue {
    Text(String),
    Integer(i64),
}

/// The decimal digits of `n`, most significant first.
pub open spec fn decimal(n: nat) -> Seq<char>
    decreases n,
{
    if n < 10 {
        seq![digit_char(n)]
    } else {
        decimal(n / 10) + seq![digit_char(n % 10)]
    }
}

pub open spec fn digit_char(d: nat) -> char {
    if d < 10 {
        ((d + 48) as u32) as char
    } else {
        '?'
    }
}

/// How a value is written on the wire: text as is, an integer in decimal
/// with a leading `-` when negative.
pub open spec fn value_text(v: FieldValue) -> Seq<char> {
    match v {
        FieldValue::Text(s) => s@,
        FieldValue::Integer(n) => if n < 0 {
            seq!['-'] + decimal((-n) as nat)
        } else {
            decimal(n as nat)
        },
    }
}

fn digit_str(d: u64) -> (r: &'static str)
    requires
        d < 10,
    ensures
        r@ == seq![digit_char(d as nat)],
{
    proof {
        reveal_strlit("0");
        reveal_strlit("1");
        reveal_strlit("2");
        reveal_strlit("3");
        reveal_strlit("4");
        reveal_strlit("5");
        reveal_strlit("6");
        reveal_strlit("7");
        reveal_strlit("8");
        reveal_strlit("9");
    }
    let r = match d {
        0 => "0",
        1 => "1",
        2 => "2",
        3 => "3",
        4 => "4",
        5 => "5",
        6 => "6",
        7 => "7",
        8 => "8",
        _ => "9",
    };
    assert(r@ =~= seq![digit_char(d as nat)]);
    r
}

fn push_decimal(out: &mut String, n: u64)
    ensures
        final(out)@ == old(out)@ + decimal(n as nat),
    decreases n,
{
    if n >= 10 {
        push_decimal(out, n / 10);
    }
    out.append(digit_str(n % 10));
    assert(final(out)@ =~= old(out)@ + decimal(n as nat)) by {
        if n >= 10 {
            assert(decimal(n as nat) == decimal((n / 10) as nat) + seq![digit_char((n % 10) as nat)]);
        }
    }
}

impl FieldValue {
    /// The value as written on the wire.
    pub fn to_string(&self) -> (r: String)
        ensures
            r@ == value_text(*self),
    {
        match self {
            FieldValue::Text(s) => s.clone(),
            FieldValue::Integer(n) => {
                let mut out = String::new();
                if *n < 0 {
                    out.append("-");
                    let m: u64 = ((-(*n + 1)) as u64) + 1;
                    push_decimal(&mut out, m);
                    proof {
                        reveal_strlit("-");
                        assert(out@ =~= seq!['-'] + decimal((-*n) as nat));
                    }
                } else {
                    push_decimal(&mut out, *n as u64);
                    assert(out@ =~= decimal(*n as nat));
                }
                out
            },
        }
    }
}

/// Views of borrowed key/value pairs.
pub open spec fn str_pairs(p: Seq<(&str, &str)>) -> Seq<Entry> {
    Seq::new(p.len(), |i: int| (p[i].0@, p[i].1@))
}

/// `s` with the pairs of `p` bound in turn, names lower-cased when
/// `fold_case` holds; a later pair replaces an earlier one of the same name.
pub open spec fn insert_all(s: Seq<Entry>, p: Seq<Entry>, fold_case: bool) -> Seq<Entry>
    decreases p.len(),
{
    if p.len() == 0 {
        s
    } else {
        let k = if fold_case {
            ascii_lower(p.last().0)
        } else {
            p.last().0
        };
        inserted(insert_all(s, p.drop_last(), fold_case), k, p.last().1)
    }
}

/// `s` with `k` bound to `v`, built entry by entry.
pub open spec fn insert_sorted(s: Seq<Entry>, k: Seq<char>, v: Seq<char>) -> Seq<Entry>
    decreases s.len(),
{
    if s.len() == 0 {
        seq![(k, v)]
    } else if s[0].0 == k {
        seq![(k, v)] + s.drop_first()
    } else if key_lt(s[0].0, k) {
        seq![s[0]] + insert_sorted(s.drop_first(), k, v)
    } else {
        seq![(k, v)] + s
    }
}

proof fn lemma_insert_sorted(s: Seq<Entry>, k: Seq<char>, v: Seq<char>)
    requires
        sorted_by_key(s),
    ensures
        is_insert(s, insert_sorted(s, k, v), k, v),
        forall|j: int| 0 <= j < insert_sorted(s, k, v).len() ==> (#[trigger] insert_sorted(s, k, v)[j]).0 == k
            || has_key(s, insert_sorted(s, k, v)[j].0),
    decreases s.len(),
{
    let t = insert_sorted(s, k, v);
    if s.len() == 0 {
        assert forall|q: Seq<char>| #[trigger] lookup(t, q) == if q == k { Some(v) } else { lookup(s, q) } by {
            if q == k {
                lemma_lookup_at(t, 0);
            } else {
                lemma_lookup_none(t, q);
            }
        }
    } else {
        let tl = s.drop_first();
        assert(sorted_by_key(tl)) by {
            assert forall|a: int, b: int| 0 <= a < b < tl.len() implies key_lt(#[trigger] tl[a].0, #[trigger] tl[b].0) by {
                assert(tl[a] == s[a + 1] && tl[b] == s[b + 1]);
            }
        }
        // Facts about s: its head is below every later key.
        assert forall|j: int| 0 <= j < tl.len() implies key_lt(s[0].0, #[trigger] tl[j].0) by {
            assert(tl[j] == s[j + 1]);
        }
        if s[0].0 == k {
            assert(sorted_by_key(t)) by {
                assert forall|a: int, b: int| 0 <= a < b < t.len() implies key_lt(#[trigger] t[a].0, #[trigger] t[b].0) by {
                    assert(t[b] == s[b]);
                    if a > 0 {
                        assert(t[a] == s[a]);
                    }
                }
            }
            assert forall|j: int| 0 <= j < t.len() implies (#[trigger] t[j]).0 == k || has_key(s, t[j].0) by {
                if j > 0 {
                    assert(t[j] == s[j]);
                }
            }
            assert forall|q: Seq<char>| #[trigger] lookup(t, q) == if q == k { Some(v) } else { lookup(s, q) } by {
                lemma_same_keys_lookup(s, t, k, v, q);
            }
        } else if key_lt(s[0].0, k) {
            lemma_insert_sorted(tl, k, v);
            let r = insert_sorted(tl, k, v);
            assert(t == seq![s[0]] + r);
            assert forall|j: int| 0 <= j < r.len() implies key_lt(s[0].0, #[trigger] r[j].0) by {
                if r[j].0 != k {
                    let m = choose|m: int| 0 <= m < tl.len() && #[trigger] tl[m].0 == r[j].0;
                }
            }
            assert(sorted_by_key(t)) by {
                assert forall|a: int, b: int| 0 <= a < b < t.len() implies key_lt(#[trigger] t[a].0, #[trigger] t[b].0) by {
                    assert(t[b] == r[b - 1]);
                    if a > 0 {
                        assert(t[a] == r[a - 1]);
                    }
                }
            }
            assert forall|j: int| 0 <= j < t.len() implies (#[trigger] t[j]).0 == k || has_key(s, t[j].0) by {
                if j > 0 {
                    assert(t[j] == r[j - 1]);
                    if r[j - 1].0 != k {
                        let m = choose|m: int| 0 <= m < tl.len() && #[trigger] tl[m].0 == r[j - 1].0;
                        assert(s[m + 1] == tl[m]);
                    }
                }
            }
            assert forall|q: Seq<char>| #[trigger] lookup(t, q) == if q == k { Some(v) } else { lookup(s, q) } by {
                lemma_lookup_at(s, 0);
                lemma_lookup_at(t, 0);
                if q == s[0].0 {
                    lemma_key_lt_irreflexive(k);
                } else {
                    lemma_lookup_tail(s, q);
                    lemma_lookup_tail(t, q);
                    assert(t.drop_first() =~= r);
                    assert(lookup(r, q) == if q == k { Some(v) } else { lookup(tl, q) });
                    if q == k {
                        assert(lookup(r, q) == Some(v));
                    }
                }
            }
        } else {
            lemma_lex_total(encode_utf8(s[0].0), encode_utf8(k));
            assert(encode_utf8(s[0].0) != encode_utf8(k)) by {
                encode_utf8_decode_utf8(s[0].0);
                encode_utf8_decode_utf8(k);
            }
            assert(key_lt(k, s[0].0));
            assert(sorted_by_key(t)) by {
                assert forall|a: int, b: int| 0 <= a < b < t.len() implies key_lt(#[trigger] t[a].0, #[trigger] t[b].0) by {
                    assert(t[b] == s[b - 1]);
                    if a > 0 {
                        assert(t[a] == s[a - 1]);
                    } else if b > 1 {
                        lemma_lex_transitive(encode_utf8(k), encode_utf8(s[0].0), encode_utf8(s[b - 1].0));
                    }
                }
            }
            assert forall|j: int| 0 <= j < t.len() implies (#[trigger] t[j]).0 == k || has_key(s, t[j].0) by {
                if j > 0 {
                    assert(t[j] == s[j - 1]);
                }
            }
            assert forall|q: Seq<char>| #[trigger] lookup(t, q) == if q == k { Some(v) } else { lookup(s, q) } by {
                if q == k {
                    lemma_lookup_at(t, 0);
                } else if has_key(s, q) {
                    let m = choose|m: int| 0 <= m < s.len() && #[trigger] s[m].0 == q;
                    lemma_lookup_at(s, m);
                    assert(t[m + 1] == s[m]);
                    lemma_lookup_at(t, m + 1);
                } else {
                    assert forall|j: int| 0 <= j < t.len() implies #[trigger] t[j].0 != q by {
                        if j > 0 {
                            assert(t[j] == s[j - 1]);
                        }
                    }
                    lemma_lookup_none(t, q);
                }
            }
        }
    }
}

/// Where the head's key is not `q`, looking `q` up skips the head.
proof fn lemma_lookup_tail(s: Seq<Entry>, q: Seq<char>)
    requires
        sorted_by_key(s),
        s.len() > 0,
        s[0].0 != q,
    ensures
        lookup(s, q) == lookup(s.drop_first(), q),
{
    let tl = s.drop_first();
    assert(sorted_by_key(tl)) by {
        assert forall|a: int, b: int| 0 <= a < b < tl.len() implies key_lt(#[trigger] tl[a].0, #[trigger] tl[b].0) by {
            assert(tl[a] == s[a + 1] && tl[b] == s[b + 1]);
        }
    }
    if has_key(s, q) {
        let m = choose|m: int| 0 <= m < s.len() && #[trigger] s[m].0 == q;
        lemma_lookup_at(s, m);
        assert(tl[m - 1] == s[m]);
        lemma_lookup_at(tl, m - 1);
    } else {
        assert forall|j: int| 0 <= j < tl.len() implies #[trigger] tl[j].0 != q by {
            assert(tl[j] == s[j + 1]);
        }
        lemma_lookup_none(tl, q);
    }
}

/// Replacing the value of the head entry (whose key is `k`).
proof fn lemma_same_keys_lookup(s: Seq<Entry>, t: Seq<Entry>, k: Seq<char>, v: Seq<char>, q: Seq<char>)
    requires
        sorted_by_key(s),
        sorted_by_key(t),
        s.len() > 0,
        s[0].0 == k,
        t == seq![(k, v)] + s.drop_first(),
    ensures
        lookup(t, q) == if q == k { Some(v) } else { lookup(s, q) },
{
    if q == k {
        lemma_lookup_at(t, 0);
    } else {
        lemma_lookup_tail(s, q);
        lemma_lookup_tail(t, q);
        assert(t.drop_first() =~= s.drop_first());
    }
}

/// Binding a key always has a result: `inserted` is that sorted sequence.
pub proof fn lemma_inserted_exists(s: Seq<Entry>, k: Seq<char>, v: Seq<char>)
    requires
        sorted_by_key(s),
    ensures
        is_insert(s, inserted(s, k, v), k, v),
{
    lemma_insert_sorted(s, k, v);
    lemma_inserted(s, insert_sorted(s, k, v), k, v);
}

/// Every key is unchanged by ASCII lower-casing.
pub open spec fn lower_keys(s: Seq<Entry>) -> bool {
    forall|i: int| 0 <= i < s.len() ==> ascii_lower(#[trigger] s[i].0) == s[i].0
}

/// Binding a lower-case key keeps every key lower-case.
pub proof fn lemma_insert_lower_keys(s: Seq<Entry>, t: Seq<Entry>, k: Seq<char>, v: Seq<char>)
    requires
        lower_keys(s),
        ascii_lower(k) == k,
        is_insert(s, t, k, v),
    ensures
        lower_keys(t),
{
    assert forall|i: int| 0 <= i < t.len() implies ascii_lower(#[trigger] t[i].0) == t[i].0 by {
        lemma_lookup_at(t, i);
        let q = t[i].0;
        if q != k {
            assert(lookup(t, q) == lookup(s, q));
            assert(has_key(s, q));
            let j = choose|j: int| 0 <= j < s.len() && #[trigger] s[j].0 == q;
        }
    }
}

/// No key occurs twice among the pairs.
pub open spec fn distinct_keys(p: Seq<Entry>) -> bool {
    forall|i: int, j: int| 0 <= i < p.len() && 0 <= j < p.len() && i != j ==> #[trigger] p[i].0 != #[trigger] p[j].0
}

/// The value paired with `q`, if some pair has the key `q`.
pub open spec fn pair_value(p: Seq<Entry>, q: Seq<char>) -> Option<Seq<char>> {
    if exists|i: int| 0 <= i < p.len() && #[trigger] p[i].0 == q {
        Some(p[choose|i: int| 0 <= i < p.len() && #[trigger] p[i].0 == q].1)
    } else {
        None
    }
}

proof fn lemma_pair_value_at(p: Seq<Entry>, i: int)
    requires
        distinct_keys(p),
        0 <= i < p.len(),
    ensures
        pair_value(p, p[i].0) == Some(p[i].1),
{
    let j = choose|j: int| 0 <= j < p.len() && #[trigger] p[j].0 == p[i].0;
}

/// Adding pairs with distinct keys, in order, to an empty map binds each
/// key to its pair's value and nothing else.
pub proof fn lemma_insert_all(p: Seq<Entry>)
    requires
        distinct_keys(p),
    ensures
        sorted_by_key(insert_all(Seq::empty(), p, false)),
        forall|q: Seq<char>| #[trigger] lookup(insert_all(Seq::empty(), p, false), q) == pair_value(p, q),
    decreases p.len(),
{
    let e = Seq::<Entry>::empty();
    if p.len() == 0 {
        assert forall|q: Seq<char>| #[trigger] lookup(insert_all(e, p, false), q) == pair_value(p, q) by {
            lemma_lookup_none(e, q);
        }
    } else {
        let pre = p.drop_last();
        assert(distinct_keys(pre)) by {
            assert forall|a: int, b: int| 0 <= a < pre.len() && 0 <= b < pre.len() && a != b implies #[trigger] pre[a].0 != #[trigger] pre[b].0 by {
                assert(pre[a] == p[a] && pre[b] == p[b]);
            }
        }
        lemma_insert_all(pre);
        let t0 = insert_all(e, pre, false);
        let last = p.last();
        lemma_inserted_exists(t0, last.0, last.1);
        let t = insert_all(e, p, false);
        assert(t == inserted(t0, last.0, last.1));
        assert forall|q: Seq<char>| #[trigger] lookup(t, q) == pair_value(p, q) by {
            if q == last.0 {
                lemma_pair_value_at(p, p.len() - 1);
            } else {
                assert(lookup(t, q) == lookup(t0, q));
                if exists|i: int| 0 <= i < pre.len() && #[trigger] pre[i].0 == q {
                    let i = choose|i: int| 0 <= i < pre.len() && #[trigger] pre[i].0 == q;
                    lemma_pair_value_at(pre, i);
                    assert(p[i] == pre[i]);
                    lemma_pair_value_at(p, i);
                } else {
                    assert forall|i: int| 0 <= i < p.len() implies #[trigger] p[i].0 != q by {
                        if i < p.len() - 1 {
                            assert(p[i] == pre[i]);
                        }
                    }
                }
            }
        }
    }
}

/// Pairs with distinct keys give the same map in whatever order they are
/// added: two orders of the same pairs build the same entries.
pub proof fn law_insertion_order(p1: Seq<Entry>, p2: Seq<Entry>)
    requires
        distinct_keys(p1),
        distinct_keys(p2),
        forall|x: Entry| p1.contains(x) <==> p2.contains(x),
    ensures
        insert_all(Seq::empty(), p1, false) == insert_all(Seq::empty(), p2, false),
{
    lemma_insert_all(p1);
    lemma_insert_all(p2);
    let t1 = insert_all(Seq::empty(), p1, false);
    let t2 = insert_all(Seq::empty(), p2, false);
    assert forall|q: Seq<char>| #[trigger] lookup(t1, q) == lookup(t2, q) by {
        if exists|i: int| 0 <= i < p1.len() && #[trigger] p1[i].0 == q {
            let i = choose|i: int| 0 <= i < p1.len() && #[trigger] p1[i].0 == q;
            lemma_pair_value_at(p1, i);
            assert(p1.contains(p1[i]));
            let j = choose|j: int| 0 <= j < p2.len() && p2[j] == p1[i];
            lemma_pair_value_at(p2, j);
        } else if exists|j: int| 0 <= j < p2.len() && #[trigger] p2[j].0 == q {
            let j = choose|j: int| 0 <= j < p2.len() && #[trigger] p2[j].0 == q;
            assert(p2.contains(p2[j]));
            let i = choose|i: int| 0 <= i < p1.len() && p1[i] == p2[j];
            assert(p1[i].0 == q);
        }
    }
    lemma_canonical(t1, t2);
}

/// HTTP header fields. Names are stored lower-cased (ASCII letters only),
/// so lookup ignores case; one entry per name, the last value added wins.
#[derive(Debug, Clone)]
pub struct HttpHeader(Vec<(String, String)>);

impl View for HttpHeader {
    type V = Seq<Entry>;

    closed spec fn view(&self) -> Seq<Entry> {
        entries_view(self.0@)
    }
}

impl HttpHeader {
    /// Well-formed: names strictly increasing and already lower-case.
    pub open spec fn wf(&self) -> bool {
        sorted_by_key(self@) && lower_keys(self@)
    }

    /// An empty header map.
    pub fn new() -> (r: Self)
        ensures
            r@ == Seq::<Entry>::empty(),
            r.wf(),
    {
        let r = HttpHeader(Vec::new());
        assert(r@ =~= Seq::<Entry>::empty());
        r
    }

    /// A header map holding the given pairs, added in order.
    pub fn from_pairs(pairs: &[(&str, &str)]) -> (r: Self)
        ensures
            r.wf(),
            r@ == insert_all(Seq::empty(), str_pairs(pairs@), true),
    {
        let mut h = HttpHeader::new();
        let mut i: usize = 0;
        while i < pairs.len()
            invariant
                i <= pairs@.len(),
                h.wf(),
                h@ == insert_all(Seq::empty(), str_pairs(pairs@.subrange(0, i as int)), true),
            decreases pairs@.len() - i,
        {
            let (k, v) = pairs[i];
            h.add(k, v);
            assert(str_pairs(pairs@.subrange(0, i + 1)).drop_last() =~= str_pairs(
                pairs@.subrange(0, i as int),
            ));
            i = i + 1;
        }
        assert(pairs@.subrange(0, pairs@.len() as int) =~= pairs@);
        h
    }

    /// Sets the field `key` (lower-cased) to `value`.
    pub fn add(&mut self, key: &str, value: &str)
        requires
            old(self).wf(),
        ensures
            final(self).wf(),
            is_insert(old(self)@, final(self)@, ascii_lower(key@), value@),
            final(self)@ == inserted(old(self)@, ascii_lower(key@), value@),
    {
        let k = to_ascii_lower(key);
        let v = value.to_owned();
        insert_entry(&mut self.0, k, v);
        proof {
            lemma_ascii_lower_idempotent(key@);
            lemma_insert_lower_keys(old(self)@, self@, ascii_lower(key@), value@);
        }
    }

    /// Sets the field `key` (lower-cased) to the written form of `value`.
    pub fn add_value(&mut self, key: &str, value: &FieldValue)
        requires
            old(self).wf(),
        ensures
            final(self).wf(),
            final(self)@ == inserted(old(self)@, ascii_lower(key@), value_text(*value)),
    {
        let v = value.to_string();
        self.add(key, v.as_str());
    }

    /// The value of the field `key`, compared without regard to ASCII case.
    pub fn get(&self, key: &str) -> (r: Option<&String>)
        requires
            self.wf(),
        ensures
            match r {
                Some(v) => lookup(self@, ascii_lower(key@)) == Some(v@),
                None => lookup(self@, ascii_lower(key@)) is None,
            },
    {
        let k = to_ascii_lower(key);
        match find_entry(&self.0, &k) {
            Some(i) => {
                proof {
                    lemma_lookup_at(self@, i as int);
                }
                Some(&self.0[i].1)
            },
            None => None,
        }
    }

    /// Number of fields.
    pub fn len(&self) -> (r: usize)
        ensures
            r == self@.len(),
    {
        self.0.len()
    }

    /// The fields as `key: value` lines joined by CRLF, in key order.
    pub fn to_string(&self) -> (r: String)
        ensures
            r@ == joined(self@, ": "@, "\r\n"@),
    {
        join_entries(&self.0, ": ", "\r\n")
    }
}

/// Query parameters; one entry per name, the last value added wins.
#[derive(Debug, Clone)]
pub struct HttpParams(Vec<(String, String)>);

impl View for HttpParams {
    type V = Seq<Entry>;

    closed spec fn view(&self) -> Seq<Entry> {
        entries_view(self.0@)
    }
}

impl HttpParams {
    /// Well-formed: keys strictly increasing.
    pub open spec fn wf(&self) -> bool {
        sorted_by_key(self@)
    }

    /// An empty parameter map.
    pub fn new() -> (r: Self)
        ensures
            r@ == Seq::<Entry>::empty(),
            r.wf(),
    {
        let r = HttpParams(Vec::new());
        assert(r@ =~= Seq::<Entry>::empty());
        r
    }

    /// A parameter map holding the given pairs, added in order.
    pub fn from_pairs(pairs: &[(&str, &str)]) -> (r: Self)
        ensures
            r.wf(),
            r@ == insert_all(Seq::empty(), str_pairs(pairs@), false),
    {
        let mut h = HttpParams::new();
        let mut i: usize = 0;
        while i < pairs.len()
            invariant
                i <= pairs@.len(),
                h.wf(),
                h@ == insert_all(Seq::empty(), str_pairs(pairs@.subrange(0, i as int)), false),
            decreases pairs@.len() - i,
        {
            let (k, v) = pairs[i];
            h.add(k, v);
            assert(str_pairs(pairs@.subrange(0, i + 1)).drop_last() =~= str_pairs(
                pairs@.subrange(0, i as int),
            ));
            i = i + 1;
        }
        assert(pairs@.subrange(0, pairs@.len() as int) =~= pairs@);
        h
    }

    /// Sets the parameter `key` to `value`.
    pub fn add(&mut self, key: &str, value: &str)
        requires
            old(self).wf(),
        ensures
            is_insert(old(self)@, final(self)@, key@, value@),
            final(self)@ == inserted(old(self)@, key@, value@),
    {
        let k = key.to_owned();
        let v = value.to_owned();
        insert_entry(&mut self.0, k, v);
    }

    /// Sets the parameter `key` to the written form of `value`.
    pub fn add_value(&mut self, key: &str, value: &FieldValue)
        requires
            old(self).wf(),
        ensures
            final(self).wf(),
            final(self)@ == inserted(old(self)@, key@, value_text(*value)),
    {
        let v = value.to_string();
        self.add(key, v.as_str());
    }

    /// Number of parameters.
    pub fn len(&self) -> (r: usize)
        ensures
            r == self@.len(),
    {
        self.0.len()
    }

    /// The parameters as `key=value` joined by `&`, in key order.
    pub fn to_string(&self) -> (r: String)
        ensures
            r@ == joined(self@, "="@, "&"@),
    {
        join_entries(&self.0, "=", "&")
    }
}

} // verus!
