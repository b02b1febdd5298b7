//! Reading command arguments and stored numbers, shared by the commands.

use vstd::prelude::*;
use crate::db::rocksdb::{lookup, RocksDB, StoreMap};
use crate::server::protocol::{RespValue, RespView};
use crate::text::{
    chars_of, ends_with, has_prefix, has_suffix, owned, parse_isize, parse_isize_str, parse_usize,
    parse_usize_str, push_str, starts_with, string_of_range,
};

verus! {

/// The text of a bulk-string argument; `None` for any other value.
pub open spec fn bulk_of(v: RespView) -> Option<Seq<char>> {
    match v {
        RespView::BulkString(Some(s)) => Some(s),
        _ => None,
    }
}

/// The text of argument `i`, when it is a bulk string.
pub open spec fn arg(args: Seq<RespValue>, i: int) -> Option<Seq<char>> {
    bulk_of(args[i]@)
}

/// The text of a bulk-string argument.
pub fn bulk_arg(a: &RespValue) -> (r: Option<&String>)
    ensures
        match r {
            Some(s) => bulk_of(a@) == Some(s@),
            None => bulk_of(a@) is None,
        },
{
    match a {
        RespValue::BulkString(Some(s)) => Some(s),
        _ => None,
    }
}

/// `prefix` followed by `key`.
pub fn concat(prefix: &str, key: &str) -> (r: String)
    ensures
        r@ == prefix@ + key@,
{
    let mut s = owned(prefix);
    push_str(&mut s, key);
    s
}

/// `a`, then `b`, then `c`.
pub fn concat3(a: &str, b: &str, c: &str) -> (r: String)
    ensures
        r@ == a@ + b@ + c@,
{
    let mut s = owned(a);
    push_str(&mut s, b);
    push_str(&mut s, c);
    s
}

/// An error reply with the given message.
pub open spec fn err(msg: Seq<char>) -> RespView {
    RespView::Error(msg)
}

/// A stored count: the value parsed as `usize`, 0 when it is missing or
/// no number (`v.parse().unwrap_or(0)`).
pub open spec fn usize_or_zero(o: Option<Seq<char>>) -> int {
    match o {
        Some(v) => match parse_usize(v) {
            Ok(n) => n,
            Err(_) => 0,
        },
        None => 0,
    }
}

/// Reads the count stored under `key`, as `usize_or_zero` says.
pub fn read_count(db: &RocksDB, key: &str) -> (r: usize)
    requires
        db.wf(),
    ensures
        r == usize_or_zero(lookup(db@, key@)),
{
    match db.get(key) {
        Ok(Some(v)) => match parse_usize_str(v.as_str()) {
            Ok(n) => n,
            Err(_) => 0,
        },
        Ok(None) => 0,
        Err(_) => 0,
    }
}

/// A range bound given as an argument: a number in a bulk or simple string
/// (`dflt_text` when it is no number), an integer (cast to `isize`), or
/// `dflt_other` for anything else.
pub open spec fn index_arg(v: RespView, dflt_text: int, dflt_other: int) -> int {
    match v {
        RespView::BulkString(Some(s)) => match parse_isize(s) {
            Ok(n) => n,
            Err(_) => dflt_text,
        },
        RespView::SimpleString(s) => match parse_isize(s) {
            Ok(n) => n,
            Err(_) => dflt_text,
        },
        RespView::Integer(n) => (n as isize) as int,
        _ => dflt_other,
    }
}

/// Reads a range bound, as `index_arg` says.
pub fn read_index(a: &RespValue, dflt_text: isize, dflt_other: isize) -> (r: isize)
    ensures
        r == index_arg(a@, dflt_text as int, dflt_other as int),
{
    match a {
        RespValue::BulkString(Some(v)) => match parse_isize_str(v.as_str()) {
            Ok(n) => n,
            Err(_) => dflt_text,
        },
        RespValue::SimpleString(v) => match parse_isize_str(v.as_str()) {
            Ok(n) => n,
            Err(_) => dflt_text,
        },
        RespValue::Integer(n) => *n as isize,
        _ => dflt_other,
    }
}

/// A range index with a negative value counted back from `len`, in the
/// release build's wrapping `isize` arithmetic.
pub open spec fn from_end(len: usize, i: isize) -> isize {
    if i < 0 {
        vstd::wrapping::isize_specs::wrapping_add(len as isize, i)
    } else {
        i
    }
}

/// Computes `from_end`.
pub fn index_from_end(len: usize, i: isize) -> (r: isize)
    ensures
        r == from_end(len, i),
{
    if i < 0 {
        (len as isize).wrapping_add(i)
    } else {
        i
    }
}

/// The part of `k` between the prefix `p` and the suffix `x`, when `k` has
/// both and they do not overlap (`strip_prefix`, then `strip_suffix`).
pub open spec fn middle(k: Seq<char>, p: Seq<char>, x: Seq<char>) -> Option<Seq<char>> {
    if k.len() >= p.len() + x.len() && has_prefix(k, p) && has_suffix(k, x) {
        Some(k.subrange(p.len() as int, k.len() - x.len()))
    } else {
        None
    }
}

/// Computes `middle`.
pub fn strip_both(k: &String, p: &Vec<char>, x: &Vec<char>) -> (r: Option<String>)
    ensures
        match r {
            Some(m) => middle(k@, p@, x@) == Some(m@),
            None => middle(k@, p@, x@) is None,
        },
{
    let c = chars_of(k.as_str());
    if c.len() >= p.len() && c.len() - p.len() >= x.len() && starts_with(&c, p) && ends_with(&c, x) {
        Some(string_of_range(&c, p.len(), c.len() - x.len()))
    } else {
        None
    }
}

/// A stored number read as `i64`, 0 when missing or no number.
pub open spec fn i64_or_zero(o: Option<Seq<char>>) -> i64 {
    match o {
        Some(v) => match crate::text::parse_i64(v) {
            Ok(n) => n as i64,
            Err(_) => 0,
        },
        None => 0,
    }
}

/// Reads the number stored under `key`, as `i64_or_zero` says.
pub fn read_i64(db: &RocksDB, key: &str) -> (r: i64)
    requires
        db.wf(),
    ensures
        r == i64_or_zero(lookup(db@, key@)),
{
    match db.get(key) {
        Ok(Some(v)) => match crate::text::parse_i64_str(v.as_str()) {
            Ok(n) => n,
            Err(_) => 0,
        },
        Ok(None) => 0,
        Err(_) => 0,
    }
}

// ---------------------------------------------------------------------------
// Commands that remove what each argument names
// ---------------------------------------------------------------------------

/// Whether a value is a bulk string.
pub open spec fn is_bulk(a: RespValue) -> bool {
    bulk_of(a@) is Some
}

/// The number of bulk-string arguments in `args[from..]`.
pub open spec fn bulk_count(args: Seq<RespValue>, from: int) -> nat {
    args.subrange(from, args.len() as int).filter(|a: RespValue| is_bulk(a)).len()
}

/// The keys that the bulk-string arguments in `args[from..]` name, each
/// text `t` naming the keys `keys(t)`.
pub open spec fn named_keys(
    args: Seq<RespValue>,
    from: int,
    keys: spec_fn(Seq<char>) -> Set<Seq<char>>,
) -> Set<Seq<char>> {
    Set::new(
        |q: Seq<char>|
            exists|i: int|
                from <= i < args.len() && #[trigger] arg(args, i) is Some && keys(
                    arg(args, i)->Some_0,
                ).contains(q),
    )
}

/// The keys `probe(t)` for the bulk-string arguments `t` in `args[from..]`.
pub open spec fn named_probes(
    args: Seq<RespValue>,
    from: int,
    probe: spec_fn(Seq<char>) -> Seq<char>,
) -> Set<Seq<char>> {
    Set::new(
        |q: Seq<char>|
            exists|i: int|
                from <= i < args.len() && #[trigger] arg(args, i) is Some && q == probe(
                    arg(args, i)->Some_0,
                ),
    )
}

/// Removes from `m` the keys that each bulk-string argument `t` of
/// `args[i..]` names, counting after `n` the arguments whose key `probe(t)`
/// was there to remove.
pub open spec fn removal_run(
    m: StoreMap,
    args: Seq<RespValue>,
    i: int,
    n: int,
    keys: spec_fn(Seq<char>) -> Set<Seq<char>>,
    probe: spec_fn(Seq<char>) -> Seq<char>,
) -> (StoreMap, int)
    decreases args.len() - i,
{
    if i >= args.len() || i < 0 {
        (m, n)
    } else {
        match arg(args, i) {
            Some(t) => removal_run(
                m.remove_keys(keys(t)),
                args,
                i + 1,
                if m.contains_key(probe(t)) {
                    n + 1
                } else {
                    n
                },
                keys,
                probe,
            ),
            None => removal_run(m, args, i + 1, n, keys, probe),
        }
    }
}

/// The count of `args[i..]` that pass `pred`, one argument after another.
pub proof fn lemma_filter_step(args: Seq<RespValue>, i: int, pred: spec_fn(RespValue) -> bool)
    requires
        0 <= i < args.len(),
    ensures
        args.subrange(i, args.len() as int).filter(pred).len() == (if pred(args[i]) {
            1int
        } else {
            0int
        }) + args.subrange(i + 1, args.len() as int).filter(pred).len(),
{
    let a = seq![args[i]];
    let b = args.subrange(i + 1, args.len() as int);
    assert(args.subrange(i, args.len() as int) =~= a + b);
    Seq::filter_distributes_over_add(a, b, pred);
    reveal_with_fuel(Seq::filter, 2);
    assert(a.drop_last() =~= Seq::<RespValue>::empty());
    assert(Seq::<RespValue>::empty().filter(pred) =~= Seq::<RespValue>::empty());
}

/// `removal_run` removes exactly the keys named, and counts the distinct
/// probe keys named that were stored.
pub proof fn lemma_removal_run(
    m: StoreMap,
    args: Seq<RespValue>,
    i: int,
    n: int,
    keys: spec_fn(Seq<char>) -> Set<Seq<char>>,
    probe: spec_fn(Seq<char>) -> Seq<char>,
)
    requires
        0 <= i <= args.len(),
        m.dom().finite(),
        forall|t: Seq<char>| #[trigger] keys(t).contains(probe(t)),
        forall|t: Seq<char>, u: Seq<char>| #[trigger] keys(t).contains(#[trigger] probe(u)) ==> probe(u)
            == probe(t),
    ensures
        removal_run(m, args, i, n, keys, probe) == (
            m.remove_keys(named_keys(args, i, keys)),
            n + named_probes(args, i, probe).intersect(m.dom()).len(),
        ),
    decreases args.len() - i,
{
    if i == args.len() {
        assert(named_keys(args, i, keys) =~= Set::<Seq<char>>::empty());
        assert(m.remove_keys(Set::<Seq<char>>::empty()) =~= m);
        assert(named_probes(args, i, probe).intersect(m.dom()) =~= Set::<Seq<char>>::empty());
    } else {
        let rest = named_probes(args, i + 1, probe);
        let a = rest.intersect(m.dom());
        vstd::set::axiom_set_intersect_finite(rest, m.dom());
        match arg(args, i) {
            Some(t) => {
                let p = probe(t);
                let m1 = m.remove_keys(keys(t));
                assert(m1.dom().finite()) by {
                    assert(m1.dom() =~= m.dom().difference(keys(t)));
                    vstd::set::axiom_set_difference_finite(m.dom(), keys(t));
                }
                lemma_removal_run(m1, args, i + 1, if m.contains_key(p) { n + 1 } else { n }, keys, probe);
                assert(named_keys(args, i, keys) =~= keys(t).union(named_keys(args, i + 1, keys)));
                assert(m1.remove_keys(named_keys(args, i + 1, keys))
                    =~= m.remove_keys(named_keys(args, i, keys)));
                assert(rest.intersect(m1.dom()) =~= a.remove(p)) by {
                    assert forall|q: Seq<char>| rest.intersect(m1.dom()).contains(q) <==> a.remove(p).contains(q) by {
                        if rest.contains(q) {
                            let j = choose|j: int| i + 1 <= j < args.len() && #[trigger] arg(args, j) is Some && q == probe(
                                arg(args, j)->Some_0,
                            );
                            let u = arg(args, j)->Some_0;
                            if keys(t).contains(probe(u)) {
                                assert(probe(u) == probe(t));
                            }
                        }
                        if q == p {
                            assert(keys(t).contains(probe(t)));
                        }
                    }
                }
                vstd::set::axiom_set_remove_len(a, p);
                vstd::set::axiom_set_insert_len(a, p);
                if m.contains_key(p) {
                    assert(named_probes(args, i, probe).intersect(m.dom()) =~= a.insert(p));
                    if a.contains(p) {
                        assert(a.insert(p) =~= a);
                    }
                } else {
                    assert(named_probes(args, i, probe).intersect(m.dom()) =~= a);
                    assert(a.remove(p) =~= a);
                }
            },
            None => {
                lemma_removal_run(m, args, i + 1, n, keys, probe);
                assert(named_keys(args, i, keys) =~= named_keys(args, i + 1, keys));
                assert(named_probes(args, i, probe) =~= rest);
            },
        }
    }
}

/// A text with `p` in front and `x` behind has the middle in between.
pub proof fn lemma_middle(k: Seq<char>, p: Seq<char>, x: Seq<char>, mid: Seq<char>)
    ensures
        middle(k, p, x) == Some(mid) <==> k == p + mid + x,
{
    if middle(k, p, x) == Some(mid) {
        assert(k =~= p + mid + x) by {
            assert(k.subrange(0, p.len() as int) == p);
            assert(k.subrange(k.len() - x.len(), k.len() as int) == x);
        }
    }
    if k == p + mid + x {
        assert(k.subrange(0, p.len() as int) =~= p);
        assert(k.subrange(k.len() - x.len(), k.len() as int) =~= x);
        assert(k.subrange(p.len() as int, k.len() - x.len()) =~= mid);
    }
}

/// The keys named by finitely many arguments are finitely many, when each
/// argument names finitely many.
pub proof fn lemma_named_keys_finite(
    args: Seq<RespValue>,
    i: int,
    keys: spec_fn(Seq<char>) -> Set<Seq<char>>,
)
    requires
        0 <= i <= args.len(),
        forall|t: Seq<char>| #[trigger] keys(t).finite(),
    ensures
        named_keys(args, i, keys).finite(),
    decreases args.len() - i,
{
    if i == args.len() {
        assert(named_keys(args, i, keys) =~= Set::<Seq<char>>::empty());
    } else {
        lemma_named_keys_finite(args, i + 1, keys);
        match arg(args, i) {
            Some(t) => {
                assert(named_keys(args, i, keys) =~= keys(t).union(named_keys(args, i + 1, keys)));
                vstd::set::axiom_set_union_finite(keys(t), named_keys(args, i + 1, keys));
            },
            None => {
                assert(named_keys(args, i, keys) =~= named_keys(args, i + 1, keys));
            },
        }
    }
}

/// Writes the pairs of `args` from `i` on, each name `t` giving the key
/// `key(t)`, counting after `added` the keys that were new (pairs that are
/// not two bulk strings are skipped).
pub open spec fn pair_run(
    m: StoreMap,
    key: spec_fn(Seq<char>) -> Seq<char>,
    args: Seq<RespValue>,
    i: int,
    added: int,
) -> (StoreMap, int)
    decreases args.len() - i,
{
    if i + 1 >= args.len() || i < 0 {
        (m, added)
    } else {
        match (arg(args, i), arg(args, i + 1)) {
            (Some(t), Some(v)) => pair_run(
                m.insert(key(t), v),
                key,
                args,
                i + 2,
                if m.contains_key(key(t)) {
                    added
                } else {
                    added + 1
                },
            ),
            _ => pair_run(m, key, args, i + 2, added),
        }
    }
}

/// `j` is a pair position of `args` from `i` on: `i`, `i + 2`, ...
pub open spec fn pair_from(args: Seq<RespValue>, i: int, j: int) -> bool {
    i <= j && j + 1 < args.len() && (j - i) % 2 == 0
}

/// The pair at `j` is a name and a value, both bulk strings, and the name
/// stands for the key `q`.
pub open spec fn names_key(
    args: Seq<RespValue>,
    j: int,
    key: spec_fn(Seq<char>) -> Seq<char>,
    q: Seq<char>,
) -> bool {
    arg(args, j) is Some && arg(args, j + 1) is Some && q == key(arg(args, j)->Some_0)
}

/// The keys that the pairs of `args` from `i` on name.
pub open spec fn pair_keys(
    args: Seq<RespValue>,
    i: int,
    key: spec_fn(Seq<char>) -> Seq<char>,
) -> Set<Seq<char>> {
    Set::new(|q: Seq<char>| exists|j: int| pair_from(args, i, j) && #[trigger] names_key(args, j, key, q))
}

/// `r` is `m` with the pairs of `args` from `i` on written: each key named
/// holds the value of the last pair naming it, and every other key is as
/// it was.
pub open spec fn pairs_written(
    m: StoreMap,
    key: spec_fn(Seq<char>) -> Seq<char>,
    args: Seq<RespValue>,
    i: int,
    r: StoreMap,
) -> bool {
    let f = pair_keys(args, i, key);
    &&& r.dom() == m.dom().union(f)
    &&& forall|q: Seq<char>| #[trigger] r.contains_key(q) && !f.contains(q) ==> r[q] == m[q]
    &&& forall|q: Seq<char>|
        #[trigger] f.contains(q) ==> exists|j: int|
            pair_from(args, i, j) && #[trigger] names_key(args, j, key, q) && r[q] == arg(args, j + 1)->Some_0
                && forall|l: int| j < l && pair_from(args, i, l) ==> !names_key(args, l, key, q)
}

pub proof fn lemma_pair_run(
    m: StoreMap,
    key: spec_fn(Seq<char>) -> Seq<char>,
    args: Seq<RespValue>,
    i: int,
    added: int,
)
    requires
        0 <= i,
        m.dom().finite(),
    ensures
        pair_keys(args, i, key).finite(),
        pairs_written(m, key, args, i, pair_run(m, key, args, i, added).0),
        pair_run(m, key, args, i, added).1 == added + pair_keys(args, i, key).difference(m.dom()).len(),
    decreases args.len() - i,
{
    let f = pair_keys(args, i, key);
    if i + 1 >= args.len() {
        assert(f =~= Set::<Seq<char>>::empty());
        assert(m.dom().union(f) =~= m.dom());
        assert(f.difference(m.dom()) =~= Set::<Seq<char>>::empty());
    } else {
        let f1 = pair_keys(args, i + 2, key);
        assert forall|j: int| pair_from(args, i, j) && j != i implies pair_from(args, i + 2, j) by {}
        assert forall|j: int| pair_from(args, i + 2, j) implies pair_from(args, i, j) && j != i by {}
        if arg(args, i) is Some && arg(args, i + 1) is Some {
            let q0 = key(arg(args, i)->Some_0);
            let v0 = arg(args, i + 1)->Some_0;
            let m1 = m.insert(q0, v0);
            let a1 = if m.contains_key(q0) { added } else { added + 1 };
            assert(pair_run(m, key, args, i, added) == pair_run(m1, key, args, i + 2, a1));
            lemma_pair_run(m1, key, args, i + 2, a1);
            assert(names_key(args, i, key, q0));
            assert(f =~= f1.insert(q0)) by {
                assert forall|q: Seq<char>| f.contains(q) implies f1.insert(q0).contains(q) by {
                    let j = choose|j: int| pair_from(args, i, j) && #[trigger] names_key(args, j, key, q);
                    if j != i {
                        assert(pair_from(args, i + 2, j));
                    }
                }
                assert forall|q: Seq<char>| f1.contains(q) implies f.contains(q) by {
                    let j = choose|j: int| pair_from(args, i + 2, j) && #[trigger] names_key(args, j, key, q);
                    assert(pair_from(args, i, j));
                }
            }
            let r = pair_run(m1, key, args, i + 2, a1).0;
            assert(r.dom() =~= m.dom().union(f));
            assert forall|q: Seq<char>| #[trigger] f.contains(q) implies exists|j: int|
                pair_from(args, i, j) && #[trigger] names_key(args, j, key, q) && r[q] == arg(args, j + 1)->Some_0
                    && forall|l: int| j < l && pair_from(args, i, l) ==> !names_key(args, l, key, q) by {
                if f1.contains(q) {
                    let j = choose|j: int|
                        pair_from(args, i + 2, j) && #[trigger] names_key(args, j, key, q) && r[q] == arg(
                            args,
                            j + 1,
                        )->Some_0 && forall|l: int| j < l && pair_from(args, i + 2, l) ==> !names_key(args, l, key, q);
                    assert(pair_from(args, i, j));
                    assert forall|l: int| j < l && pair_from(args, i, l) implies !names_key(args, l, key, q) by {
                        assert(pair_from(args, i + 2, l));
                    }
                } else {
                    assert(q == q0);
                    assert forall|l: int| i < l && pair_from(args, i, l) implies !names_key(args, l, key, q) by {
                        assert(pair_from(args, i + 2, l));
                        if names_key(args, l, key, q) {
                            assert(f1.contains(q));
                        }
                    }
                    assert(r.contains_key(q0));
                    assert(r[q0] == m1[q0]);
                    assert(pair_from(args, i, i));
                    assert(pair_from(args, i, i) && names_key(args, i, key, q) && r[q] == arg(args, i + 1)->Some_0
                        && forall|l: int| i < l && pair_from(args, i, l) ==> !names_key(args, l, key, q));
                }
            }
            vstd::set::axiom_set_difference_finite(f, m.dom());
            if m.contains_key(q0) {
                assert(f1.difference(m1.dom()) =~= f.difference(m.dom()));
            } else {
                assert(f1.difference(m1.dom()) =~= f.difference(m.dom()).remove(q0));
                vstd::set::axiom_set_remove_len(f.difference(m.dom()), q0);
            }
        } else {
            assert(pair_run(m, key, args, i, added) == pair_run(m, key, args, i + 2, added));
            lemma_pair_run(m, key, args, i + 2, added);
            assert(f =~= f1) by {
                assert forall|q: Seq<char>| f.contains(q) implies f1.contains(q) by {
                    let j = choose|j: int| pair_from(args, i, j) && #[trigger] names_key(args, j, key, q);
                    if j == i {
                        assert(false);
                    }
                    assert(pair_from(args, i + 2, j));
                }
                assert forall|q: Seq<char>| f1.contains(q) implies f.contains(q) by {
                    let j = choose|j: int| pair_from(args, i + 2, j) && #[trigger] names_key(args, j, key, q);
                    assert(pair_from(args, i, j));
                }
            }
            let r = pair_run(m, key, args, i + 2, added).0;
            assert forall|q: Seq<char>| #[trigger] f.contains(q) implies exists|j: int|
                pair_from(args, i, j) && #[trigger] names_key(args, j, key, q) && r[q] == arg(args, j + 1)->Some_0
                    && forall|l: int| j < l && pair_from(args, i, l) ==> !names_key(args, l, key, q) by {
                let j = choose|j: int|
                    pair_from(args, i + 2, j) && #[trigger] names_key(args, j, key, q) && r[q] == arg(
                        args,
                        j + 1,
                    )->Some_0 && forall|l: int| j < l && pair_from(args, i + 2, l) ==> !names_key(args, l, key, q);
                assert(pair_from(args, i, j));
                assert forall|l: int| j < l && pair_from(args, i, l) implies !names_key(args, l, key, q) by {
                    assert(pair_from(args, i + 2, l));
                }
            }
        }
    }
}


} // verus!
