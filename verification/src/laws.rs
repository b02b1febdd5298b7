//! Properties of the command set that span several commands: what a read
//! gives back after a write, and which commands undo others.

use vstd::prelude::*;
use crate::commands::args::{arg, bulk_count, is_bulk, lemma_filter_step, lemma_middle, middle};
use crate::commands::hash::{
    hcount, hdel_run, hdel_spec, hfield, hget_spec, hgetall_item, hgetall_run, hgetall_spec, hkey,
    hlen_spec, hset_run, hset_spec, wrap_add,
};
use crate::commands::list::{
    elem_key, elements, len_key, list_len, llen_spec, lpop_spec, lpush_spec, lrange_spec, lkey,
    range_bounds,
    rpop_spec, rpush_spec, shift_by, store_front, store_run,
};
use crate::commands::args::index_arg;
use crate::commands::set::{
    member_key, sadd_run, sadd_spec, set_count_key, setkey, sismember_spec, smembers_item,
    scard_spec, smembers_run, smembers_spec, srem_run, srem_spec,
};
use crate::commands::string::{
    decr_spec, del_spec, get_spec, incr_spec, mget_item, mget_spec, mset_run, mset_spec, pred_i64,
    set_spec, skey, strlen_spec, succ_i64, value_reply,
};
use crate::commands::zset::{
    rank_of, select_run, zrange_finish_spec, zrange_spec, ZrangeStepView, zrank_finish_spec, score_key, zadd_run, zadd_spec, zcount_key, zmember_key, zrem_run, zrem_spec, zscore_spec};
use crate::db::rocksdb::{keys_with, lookup, sorted_seq, RocksDB, StoreMap};
use crate::server::protocol::{utf8_len, RespValue, RespView};
use crate::text::{
    has_prefix, int_text, is_digit, lemma_nat_text_digits, lemma_parse_int_range, lemma_parse_int_text,
    lemma_parse_nat_text, nat_text, parse_i64,
};

verus! {

/// `args` are bulk strings holding exactly the texts `ts`.
pub open spec fn bulk_args(args: Seq<RespValue>, ts: Seq<Seq<char>>) -> bool {
    args.len() == ts.len() && forall|i: int| 0 <= i < ts.len() ==> #[trigger] arg(args, i) == Some(ts[i])
}

/// The number stored as text under a string key, as INCR and DECR read it
/// (0 when there is none).
pub open spec fn stored_number(m: StoreMap, k: Seq<char>) -> i64 {
    match lookup(m, skey(k)) {
        Some(v) => parse_i64(v)->Ok_0 as i64,
        None => 0,
    }
}

proof fn lemma_differ_at(a: Seq<char>, b: Seq<char>, i: int)
    requires
        0 <= i < a.len(),
        0 <= i < b.len(),
        a[i] != b[i],
    ensures
        a != b,
{
}

proof fn lemma_differ_last(a: Seq<char>, b: Seq<char>)
    requires
        a.len() > 0,
        b.len() > 0,
        a[a.len() - 1] != b[b.len() - 1],
    ensures
        a != b,
{
}

// ---------------------------------------------------------------------------
// Strings
// ---------------------------------------------------------------------------

/// GET after SET gives back the value that was set.
pub proof fn law_get_after_set(
    m: StoreMap,
    set_args: Seq<RespValue>,
    get_args: Seq<RespValue>,
    k: Seq<char>,
    v: Seq<char>,
)
    requires
        bulk_args(set_args, seq![k, v]),
        bulk_args(get_args, seq![k]),
    ensures
        set_spec(m, set_args).1 == RespView::SimpleString("OK"@),
        get_spec(set_spec(m, set_args).0, get_args) == RespView::BulkString(Some(v)),
{
    assert(arg(set_args, 0) == Some(k));
    assert(arg(set_args, 1) == Some(v));
    assert(arg(get_args, 0) == Some(k));
}

/// GET after DEL of the same key finds nothing; DEL replies 1 when the key
/// was there and 0 when it was not.
pub proof fn law_get_after_del(
    m: StoreMap,
    del_args: Seq<RespValue>,
    get_args: Seq<RespValue>,
    k: Seq<char>,
)
    requires
        bulk_args(del_args, seq![k]),
        bulk_args(get_args, seq![k]),
    ensures
        del_spec(m, del_args).1 == RespView::Integer(if m.contains_key(skey(k)) { 1 } else { 0 }),
        get_spec(del_spec(m, del_args).0, get_args) == RespView::Null,
{
    assert(arg(del_args, 0) == Some(k));
    assert(arg(get_args, 0) == Some(k));
    let m1 = m.remove(skey(k));
    let c: int = if m.contains_key(skey(k)) { 1 } else { 0 };
    assert(crate::commands::string::del_run(m1, del_args, 1, c) == (m1, c));
    assert(crate::commands::string::del_run(m, del_args, 0, 0) == (m1, c));
}

/// `args` are the bulk-string pairs `ks[j]`, `vs[j]`, one after another.
pub open spec fn pair_args(args: Seq<RespValue>, ks: Seq<Seq<char>>, vs: Seq<Seq<char>>) -> bool {
    &&& ks.len() == vs.len()
    &&& args.len() == 2 * ks.len()
    &&& forall|j: int| 0 <= j < ks.len() ==> #[trigger] arg(args, 2 * j) == Some(ks[j]) && arg(args, 2 * j + 1) == Some(vs[j])
}

proof fn lemma_skey_injective(a: Seq<char>, b: Seq<char>)
    requires
        skey(a) == skey(b),
    ensures
        a == b,
{
    reveal_strlit("s:");
    assert(a =~= skey(a).subrange(2, skey(a).len() as int));
    assert(b =~= skey(b).subrange(2, skey(b).len() as int));
}

/// MSET from pair `h` on stores each of those pairs, and keeps the pairs
/// already stored, where no key is paired with two values.
proof fn lemma_mset_run_stores(
    m: StoreMap,
    args: Seq<RespValue>,
    h: int,
    ks: Seq<Seq<char>>,
    vs: Seq<Seq<char>>,
)
    requires
        pair_args(args, ks, vs),
        0 <= h <= ks.len(),
        forall|j: int, l: int| 0 <= j < ks.len() && 0 <= l < ks.len() && ks[j] == ks[l] ==> vs[j] == vs[l],
    ensures
        mset_run(m, args, 2 * h).1 == RespView::SimpleString("OK"@),
        forall|j: int|
            0 <= j < ks.len() && (j >= h || lookup(m, skey(ks[j])) == Some(vs[j])) ==> lookup(
                #[trigger] mset_run(m, args, 2 * h).0,
                skey(ks[j]),
            ) == Some(vs[j]),
    decreases ks.len() - h,
{
    if h < ks.len() {
        assert(arg(args, 2 * h) == Some(ks[h]) && arg(args, 2 * h + 1) == Some(vs[h]));
        let m1 = m.insert(skey(ks[h]), vs[h]);
        assert(mset_run(m, args, 2 * h) == mset_run(m1, args, 2 * (h + 1)));
        lemma_mset_run_stores(m1, args, h + 1, ks, vs);
        assert forall|j: int|
            0 <= j < ks.len() && (j >= h || lookup(m, skey(ks[j])) == Some(vs[j])) implies lookup(
            mset_run(m1, args, 2 * (h + 1)).0,
            skey(ks[j]),
        ) == Some(vs[j]) by {
            if j > h {
            } else if j == h {
                assert(lookup(m1, skey(ks[h])) == Some(vs[h]));
            } else if skey(ks[j]) == skey(ks[h]) {
                lemma_skey_injective(ks[j], ks[h]);
                assert(lookup(m1, skey(ks[j])) == Some(vs[j]));
            } else {
                assert(lookup(m1, skey(ks[j])) == lookup(m, skey(ks[j])));
            }
        }
    }
}

proof fn lemma_mset_check_pairs(args: Seq<RespValue>, h: int, ks: Seq<Seq<char>>, vs: Seq<Seq<char>>)
    requires
        pair_args(args, ks, vs),
        0 <= h <= ks.len(),
    ensures
        crate::commands::string::mset_check(args, 2 * h) is None,
    decreases ks.len() - h,
{
    if h < ks.len() {
        assert(arg(args, 2 * h) == Some(ks[h]) && arg(args, 2 * h + 1) == Some(vs[h]));
        lemma_mset_check_pairs(args, h + 1, ks, vs);
        assert(2 * h + 2 == 2 * (h + 1));
    }
}

/// MGET after MSET gives back the values that were set, key by key, where
/// no key is paired with two different values.
pub proof fn law_mget_after_mset(
    m: StoreMap,
    set_args: Seq<RespValue>,
    get_args: Seq<RespValue>,
    ks: Seq<Seq<char>>,
    vs: Seq<Seq<char>>,
)
    requires
        ks.len() >= 1,
        pair_args(set_args, ks, vs),
        bulk_args(get_args, ks),
        forall|j: int, l: int| 0 <= j < ks.len() && 0 <= l < ks.len() && ks[j] == ks[l] ==> vs[j] == vs[l],
    ensures
        mset_spec(m, set_args).1 == RespView::SimpleString("OK"@),
        mget_spec(mset_spec(m, set_args).0, get_args) == RespView::Array(
            Seq::new(ks.len(), |j: int| RespView::BulkString(Some(vs[j]))),
        ),
{
    lemma_mset_run_stores(m, set_args, 0, ks, vs);
    let m2 = mset_spec(m, set_args).0;
    lemma_mset_check_pairs(set_args, 0, ks, vs);
    assert(mset_run(m, set_args, 0int) == mset_spec(m, set_args));
    assert forall|j: int| 0 <= j < ks.len() implies mget_item(m2, #[trigger] get_args[j]@)
        == RespView::BulkString(Some(vs[j])) by {
        assert(arg(get_args, j) == Some(ks[j]));
        assert(lookup(mset_run(m, set_args, 0int).0, skey(ks[j])) == Some(vs[j]));
    }
    assert(mget_spec(m2, get_args) =~= RespView::Array(
        Seq::new(ks.len(), |j: int| RespView::BulkString(Some(vs[j]))),
    )) by {
        let a = Seq::new(get_args.len(), |i: int| mget_item(m2, get_args[i]@));
        let b = Seq::new(ks.len(), |j: int| RespView::BulkString(Some(vs[j])));
        assert(a =~= b);
    }
}

/// STRLEN after SET is the byte length of the value.
pub proof fn law_strlen_after_set(
    m: StoreMap,
    set_args: Seq<RespValue>,
    len_args: Seq<RespValue>,
    k: Seq<char>,
    v: Seq<char>,
)
    requires
        bulk_args(set_args, seq![k, v]),
        bulk_args(len_args, seq![k]),
    ensures
        strlen_spec(set_spec(m, set_args).0, len_args) == RespView::Integer(utf8_len(v) as i64),
{
    assert(arg(set_args, 0) == Some(k));
    assert(arg(set_args, 1) == Some(v));
    assert(arg(len_args, 0) == Some(k));
}

/// INCR of a key with no value replies 1 and stores "1".
pub proof fn law_incr_of_missing(m: StoreMap, args: Seq<RespValue>, k: Seq<char>)
    requires
        bulk_args(args, seq![k]),
        !m.contains_key(skey(k)),
    ensures
        incr_spec(m, args).1 == RespView::Integer(1),
        lookup(incr_spec(m, args).0, skey(k)) == Some(int_text(1)),
{
    assert(arg(args, 0) == Some(k));
}

/// DECR undoes INCR: after an INCR that succeeds, DECR replies with the
/// number the key held before and stores it back.
pub proof fn law_decr_undoes_incr(m: StoreMap, args: Seq<RespValue>, k: Seq<char>)
    requires
        bulk_args(args, seq![k]),
    ensures
        incr_spec(m, args).1 is Integer ==> {
            let m1 = incr_spec(m, args).0;
            &&& decr_spec(m1, args).1 == RespView::Integer(stored_number(m, k))
            &&& lookup(decr_spec(m1, args).0, skey(k)) == Some(int_text(stored_number(m, k) as int))
        },
{
    assert(arg(args, 0) == Some(k));
    if incr_spec(m, args).1 is Integer {
        let c = stored_number(m, k);
        let n = succ_i64(c);
        lemma_parse_int_text(n);
        assert(pred_i64(n) == c);
    }
}

// ---------------------------------------------------------------------------
// Lists
// ---------------------------------------------------------------------------

proof fn lemma_len_key_not_elem(k: Seq<char>, i: nat)
    ensures
        len_key(k) != elem_key(k, i),
{
    reveal_strlit(":len");
    lemma_nat_text_digits(i);
    let a = len_key(k);
    let b = elem_key(k, i);
    assert(a[a.len() - 1] == 'n');
    assert(b[b.len() - 1] == nat_text(i)[nat_text(i).len() - 1]);
    assert(is_digit(nat_text(i)[nat_text(i).len() - 1]));
    lemma_differ_last(a, b);
}

proof fn lemma_list_len_written(m: StoreMap, k: Seq<char>, n: nat)
    requires
        n <= usize::MAX,
    ensures
        list_len(m.insert(len_key(k), nat_text(n)), k) == n,
{
    lemma_parse_nat_text(n, usize::MAX as int, false, 0);
}

/// RPOP undoes RPUSH of one value: it gives that value back and leaves the
/// list as long as before (when the length can grow by one).
pub proof fn law_rpop_undoes_rpush(
    m: StoreMap,
    push_args: Seq<RespValue>,
    pop_args: Seq<RespValue>,
    k: Seq<char>,
    v: Seq<char>,
)
    requires
        bulk_args(push_args, seq![k, v]),
        bulk_args(pop_args, seq![k]),
        list_len(m, k) < usize::MAX,
    ensures
        ({
            let (m1, r1) = rpush_spec(m, push_args);
            let (m2, r2) = rpop_spec(m1, pop_args);
            &&& r1 == RespView::Integer((list_len(m, k) + 1) as i64)
            &&& r2 == RespView::BulkString(Some(v))
            &&& list_len(m2, k) == list_len(m, k)
        }),
{
    assert(arg(push_args, 0) == Some(k));
    assert(arg(push_args, 1) == Some(v));
    assert(arg(pop_args, 0) == Some(k));
    let n = list_len(m, k);
    assert(0 <= n) by {
        if let Some(t) = lookup(m, len_key(k)) {
            lemma_parse_int_range(t, 0, usize::MAX as int, false);
        }
    }
    assert(wrap_add(n, 0) == n);
    assert(wrap_add(n, 1) == n + 1);
    let m0 = m.insert(elem_key(k, n as nat), v);
    let m1 = m0.insert(len_key(k), nat_text((n + 1) as nat));
    assert(crate::commands::list::store_run(m0, k, push_args, n, 2, 1) == (m0, 1int));
    assert(crate::commands::list::store_run(m, k, push_args, n, 1, 0) == (m0, 1int));
    assert(rpush_spec(m, push_args).0 == m1);
    lemma_list_len_written(m0, k, (n + 1) as nat);
    lemma_len_key_not_elem(k, n as nat);
    let m2 = m1.remove(elem_key(k, n as nat)).insert(len_key(k), nat_text(n as nat));
    assert(rpop_spec(m1, pop_args).0 == m2);
    lemma_list_len_written(m1.remove(elem_key(k, n as nat)), k, n as nat);
}

/// LPOP undoes LPUSH of one value: it gives that value back and leaves the
/// list as long as before (when the length can grow by one).
pub proof fn law_lpop_undoes_lpush(
    m: StoreMap,
    push_args: Seq<RespValue>,
    pop_args: Seq<RespValue>,
    k: Seq<char>,
    v: Seq<char>,
)
    requires
        bulk_args(push_args, seq![k, v]),
        bulk_args(pop_args, seq![k]),
        list_len(m, k) < usize::MAX,
    ensures
        ({
            let (m1, r1) = lpush_spec(m, push_args);
            let (m2, r2) = lpop_spec(m1, pop_args);
            &&& r1 == RespView::Integer((list_len(m, k) + 1) as i64)
            &&& r2 == RespView::BulkString(Some(v))
            &&& list_len(m2, k) == list_len(m, k)
        }),
{
    assert(arg(push_args, 0) == Some(k));
    assert(arg(push_args, 1) == Some(v));
    assert(arg(pop_args, 0) == Some(k));
    let n = list_len(m, k);
    assert(0 <= n) by {
        if let Some(t) = lookup(m, len_key(k)) {
            lemma_parse_int_range(t, 0, usize::MAX as int, false);
        }
    }
    assert(wrap_add(n, 1) == n + 1);
    assert(crate::commands::args::bulk_count(push_args, 1) == 1) by {
        crate::commands::args::lemma_filter_step(push_args, 1, |a: RespValue| crate::commands::args::is_bulk(a));
        reveal_with_fuel(Seq::filter, 1);
        assert(push_args.subrange(2, 2) =~= Seq::<RespValue>::empty());
    }
    let ms = shift_by(m, k, n, 1);
    let m0 = ms.insert(elem_key(k, 0), v);
    let m1 = m0.insert(len_key(k), nat_text((n + 1) as nat));
    assert(store_front(m0, k, push_args, 1, 2, 1) == (m0, 1int));
    assert(store_front(ms, k, push_args, 1, 1, 0) == (m0, 1int));
    assert(lpush_spec(m, push_args).0 == m1);
    lemma_list_len_written(m0, k, (n + 1) as nat);
    lemma_len_key_not_elem(k, 0);
    let (m2, r2) = lpop_spec(m1, pop_args);
    assert(r2 == RespView::BulkString(Some(v)));
    lemma_list_len_written(
        crate::commands::list::shift_left(m1, k, 1, n + 1).remove(elem_key(k, n as nat)),
        k,
        n as nat,
    );
}

proof fn lemma_elem_key_injective(k: Seq<char>, a: nat, b: nat)
    requires
        elem_key(k, a) == elem_key(k, b),
        a <= usize::MAX,
        b <= usize::MAX,
    ensures
        a == b,
{
    let p = lkey(k) + ":"@;
    assert(elem_key(k, a) == p + nat_text(a));
    assert(elem_key(k, b) == p + nat_text(b));
    assert((p + nat_text(a)).subrange(p.len() as int, (p + nat_text(a)).len() as int) =~= nat_text(a));
    assert((p + nat_text(b)).subrange(p.len() as int, (p + nat_text(b)).len() as int) =~= nat_text(b));
    lemma_parse_nat_text(a, usize::MAX as int, false, 0);
    lemma_parse_nat_text(b, usize::MAX as int, false, 0);
}

/// Storing bulk-string values from index `n` puts value `t` at index
/// `n + t` and leaves every other key as it was.
proof fn lemma_store_all(
    m: StoreMap,
    k: Seq<char>,
    args: Seq<RespValue>,
    vs: Seq<Seq<char>>,
    n: int,
    j: int,
    c: int,
)
    requires
        1 <= j <= args.len(),
        c == j - 1,
        args.len() == vs.len() + 1,
        0 <= n,
        n + vs.len() <= isize::MAX,
        forall|i: int| 1 <= i < args.len() ==> #[trigger] arg(args, i) == Some(vs[i - 1]),
    ensures
        store_run(m, k, args, n, j, c).1 == c + args.len() - j,
        forall|t: int|
            j - 1 <= t < vs.len() ==> lookup(
                store_run(m, k, args, n, j, c).0,
                #[trigger] elem_key(k, (n + t) as nat),
            ) == Some(vs[t]),
        forall|q: Seq<char>|
            (forall|t: int| j - 1 <= t < vs.len() ==> q != #[trigger] elem_key(k, (n + t) as nat))
                ==> lookup(store_run(m, k, args, n, j, c).0, q) == lookup(m, q),
    decreases args.len() - j,
{
    if j < args.len() {
        assert(arg(args, j) == Some(vs[j - 1]));
        assert(wrap_add(n, j - 1) == n + j - 1);
        let m1 = m.insert(elem_key(k, (n + j - 1) as nat), vs[j - 1]);
        lemma_store_all(m1, k, args, vs, n, j + 1, c + 1);
        let res = store_run(m, k, args, n, j, c).0;
        assert(res == store_run(m1, k, args, n, j + 1, c + 1).0);
        let res1 = store_run(m1, k, args, n, j + 1, c + 1).0;
        assert forall|t: int| j - 1 <= t < vs.len() implies lookup(
            res,
            #[trigger] elem_key(k, (n + t) as nat),
        ) == Some(vs[t]) by {
            if t == j - 1 {
                let q = elem_key(k, (n + t) as nat);
                assert forall|u: int| j <= u < vs.len() implies q != #[trigger] elem_key(
                    k,
                    (n + u) as nat,
                ) by {
                    if q == elem_key(k, (n + u) as nat) {
                        lemma_elem_key_injective(k, (n + t) as nat, (n + u) as nat);
                    }
                }
                assert(lookup(res1, q) == lookup(m1, q));
            }
        }
        assert forall|q: Seq<char>|
            (forall|t: int| j - 1 <= t < vs.len() ==> q != #[trigger] elem_key(k, (n + t) as nat))
                implies lookup(res, q) == lookup(m, q) by {
            assert(q != elem_key(k, (n + j - 1) as nat));
            assert forall|t: int| j <= t < vs.len() implies q != #[trigger] elem_key(
                k,
                (n + t) as nat,
            ) by {
                assert(j - 1 <= t);
            }
            assert(lookup(res1, q) == lookup(m1, q));
        }
    }
}

proof fn lemma_list_len_range(m: StoreMap, k: Seq<char>)
    ensures
        0 <= list_len(m, k) <= usize::MAX,
{
    if let Some(t) = lookup(m, len_key(k)) {
        lemma_parse_int_range(t, 0, usize::MAX as int, false);
    }
}

/// What LRANGE over the whole list (from 0 to -1) gives: the elements
/// from index 0 to the stored length less one.
pub open spec fn whole_list(m: StoreMap, k: Seq<char>) -> Seq<RespView> {
    let n = list_len(m, k);
    if n == 0 {
        Seq::empty()
    } else {
        elements(m, k, 0, n - 1)
    }
}

/// LRANGE over the whole list (from 0 to -1) gives `whole_list`.
proof fn lemma_lrange_whole(m: StoreMap, range_args: Seq<RespValue>, k: Seq<char>)
    requires
        list_len(m, k) <= isize::MAX,
        range_args.len() == 3,
        arg(range_args, 0) == Some(k),
        index_arg(range_args[1]@, 0, 0) == 0,
        index_arg(range_args[2]@, 0, -1) == -1,
    ensures
        lrange_spec(m, range_args) == RespView::Array(whole_list(m, k)),
{
    let n = list_len(m, k);
    lemma_list_len_range(m, k);
    if n > 0 {
        let (s, e) = range_bounds(n as usize, 0isize, -1isize);
        assert(s == 0 && e == n - 1);
    }
}

/// RPUSH then LRANGE over the whole list (from 0 to -1) gives what LRANGE
/// gave before, followed by the pushed values in order; RPUSH and LLEN
/// reply with the old length plus the number of values.  This holds while
/// the new length stays within `isize::MAX`.
pub proof fn law_lrange_after_rpush(
    m: StoreMap,
    push_args: Seq<RespValue>,
    range_args: Seq<RespValue>,
    len_args: Seq<RespValue>,
    k: Seq<char>,
    vs: Seq<Seq<char>>,
)
    requires
        1 <= vs.len(),
        list_len(m, k) + vs.len() <= isize::MAX,
        bulk_args(push_args, seq![k] + vs),
        range_args.len() == 3,
        arg(range_args, 0) == Some(k),
        index_arg(range_args[1]@, 0, 0) == 0,
        index_arg(range_args[2]@, 0, -1) == -1,
        bulk_args(len_args, seq![k]),
    ensures
        rpush_spec(m, push_args).1 == RespView::Integer((list_len(m, k) + vs.len()) as i64),
        lrange_spec(rpush_spec(m, push_args).0, range_args) == RespView::Array(
            lrange_spec(m, range_args)->Array_0 + Seq::new(
                vs.len(),
                |t: int| RespView::BulkString(Some(vs[t])),
            ),
        ),
        llen_spec(rpush_spec(m, push_args).0, len_args) == RespView::Integer(
            (list_len(m, k) + vs.len()) as i64,
        ),
{
    let all = seq![k] + vs;
    assert(arg(push_args, 0) == Some(k)) by {
        assert(all[0] == k);
    }
    assert forall|i: int| 1 <= i < push_args.len() implies #[trigger] arg(push_args, i) == Some(
        vs[i - 1],
    ) by {
        assert(all[i] == vs[i - 1]);
    }
    assert(arg(len_args, 0) == Some(k));
    let n = list_len(m, k);
    let L = vs.len();
    lemma_list_len_range(m, k);
    lemma_store_all(m, k, push_args, vs, n, 1, 0);
    let res = store_run(m, k, push_args, n, 1, 0).0;
    assert(wrap_add(n, L as int) == n + L);
    let m2 = res.insert(len_key(k), nat_text((n + L) as nat));
    assert(rpush_spec(m, push_args).0 == m2);
    lemma_list_len_written(res, k, (n + L) as nat);
    lemma_parse_nat_text((n + L) as nat, i64::MAX as int, true, i64::MIN as int);
    lemma_lrange_whole(m, range_args, k);
    lemma_lrange_whole(m2, range_args, k);
    let before = whole_list(m, k);
    let new_vals = Seq::new(L, |t: int| RespView::BulkString(Some(vs[t])));
    let after = whole_list(m2, k);
    assert(after =~= before + new_vals) by {
        assert forall|t: int| 0 <= t < n + L implies after[t] == (before + new_vals)[t] by {
            let q = elem_key(k, t as nat);
            lemma_len_key_not_elem(k, t as nat);
            assert(lookup(m2, q) == lookup(res, q));
            if t < n {
                assert forall|u: int| 0 <= u < L implies q != #[trigger] elem_key(k, (n + u) as nat) by {
                    if q == elem_key(k, (n + u) as nat) {
                        lemma_elem_key_injective(k, t as nat, (n + u) as nat);
                    }
                }
                assert(lookup(res, q) == lookup(m, q));
                assert(after[t] == value_reply(lookup(m2, elem_key(k, (0 + t) as nat))));
                assert(before[t] == value_reply(lookup(m, elem_key(k, (0 + t) as nat))));
            } else {
                assert(elem_key(k, (n + (t - n)) as nat) == q);
                assert(lookup(res, q) == Some(vs[t - n]));
                assert(after[t] == value_reply(lookup(m2, elem_key(k, (0 + t) as nat))));
            }
        }
    }
}

/// Moving the first `i` elements up by `c` puts element `t` at `t + c`,
/// and leaves every key it does not write as it was.
proof fn lemma_shift_by(m: StoreMap, k: Seq<char>, i: int, c: int, orig: Seq<Seq<char>>)
    requires
        0 <= i <= orig.len(),
        0 <= c,
        orig.len() + c <= isize::MAX,
        forall|t: int| 0 <= t < i ==> lookup(m, #[trigger] elem_key(k, t as nat)) == Some(orig[t]),
    ensures
        forall|t: int|
            0 <= t < i ==> lookup(shift_by(m, k, i, c), #[trigger] elem_key(k, (t + c) as nat))
                == Some(orig[t]),
        forall|q: Seq<char>|
            (forall|t: int| 0 <= t < i ==> q != #[trigger] elem_key(k, (t + c) as nat)) ==> lookup(
                shift_by(m, k, i, c),
                q,
            ) == lookup(m, q),
    decreases i,
{
    if i > 0 {
        let j = i - 1;
        assert(lookup(m, elem_key(k, j as nat)) == Some(orig[j]));
        assert(wrap_add(j, c) == j + c);
        let m1 = m.insert(elem_key(k, (j + c) as nat), orig[j]);
        assert(shift_by(m, k, i, c) == shift_by(m1, k, j, c));
        assert forall|t: int| 0 <= t < j implies lookup(m1, #[trigger] elem_key(k, t as nat)) == Some(orig[t]) by {
            if elem_key(k, t as nat) == elem_key(k, (j + c) as nat) {
                lemma_elem_key_injective(k, t as nat, (j + c) as nat);
            }
        }
        lemma_shift_by(m1, k, j, c, orig);
        let r = shift_by(m1, k, j, c);
        assert forall|t: int| 0 <= t < i implies lookup(r, #[trigger] elem_key(k, (t + c) as nat)) == Some(orig[t]) by {
            if t == j {
                assert forall|u: int| 0 <= u < j implies elem_key(k, (j + c) as nat) != #[trigger] elem_key(
                    k,
                    (u + c) as nat,
                ) by {
                    if elem_key(k, (j + c) as nat) == elem_key(k, (u + c) as nat) {
                        lemma_elem_key_injective(k, (j + c) as nat, (u + c) as nat);
                    }
                }
            }
        }
        assert forall|q: Seq<char>|
            (forall|t: int| 0 <= t < i ==> q != #[trigger] elem_key(k, (t + c) as nat)) implies lookup(r, q)
            == lookup(m, q) by {
            assert(q != elem_key(k, (j + c) as nat));
            assert forall|t: int| 0 <= t < j implies q != #[trigger] elem_key(k, (t + c) as nat) by {
                assert(0 <= t < i);
            }
            assert(lookup(r, q) == lookup(m1, q));
            assert(lookup(m1, q) == lookup(m, q));
        }
    }
}

/// Storing bulk-string values in front, from the argument after `j - 1`
/// values on, puts value `t` at index `c - 1 - t`, and leaves every key it
/// does not write as it was.
proof fn lemma_store_front(
    m: StoreMap,
    k: Seq<char>,
    args: Seq<RespValue>,
    vs: Seq<Seq<char>>,
    j: int,
)
    requires
        1 <= j <= args.len(),
        args.len() == vs.len() + 1,
        vs.len() <= isize::MAX,
        forall|i: int| 1 <= i < args.len() ==> #[trigger] arg(args, i) == Some(vs[i - 1]),
    ensures
        store_front(m, k, args, vs.len() as int, j, j - 1).1 == vs.len(),
        forall|t: int|
            j - 1 <= t < vs.len() ==> lookup(
                store_front(m, k, args, vs.len() as int, j, j - 1).0,
                #[trigger] elem_key(k, (vs.len() - 1 - t) as nat),
            ) == Some(vs[t]),
        forall|q: Seq<char>|
            (forall|t: int| j - 1 <= t < vs.len() ==> q != #[trigger] elem_key(k, (vs.len() - 1 - t) as nat))
                ==> lookup(store_front(m, k, args, vs.len() as int, j, j - 1).0, q) == lookup(m, q),
    decreases args.len() - j,
{
    let c = vs.len() as int;
    if j < args.len() {
        assert(arg(args, j) == Some(vs[j - 1]));
        let m1 = m.insert(elem_key(k, (c - 1 - (j - 1)) as nat), vs[j - 1]);
        lemma_store_front(m1, k, args, vs, j + 1);
        let res = store_front(m, k, args, c, j, j - 1).0;
        assert(res == store_front(m1, k, args, c, j + 1, j).0);
        assert forall|t: int| j - 1 <= t < c implies lookup(res, #[trigger] elem_key(k, (c - 1 - t) as nat))
            == Some(vs[t]) by {
            if t == j - 1 {
                let q = elem_key(k, (c - 1 - t) as nat);
                assert forall|u: int| j <= u < c implies q != #[trigger] elem_key(k, (c - 1 - u) as nat) by {
                    if q == elem_key(k, (c - 1 - u) as nat) {
                        lemma_elem_key_injective(k, (c - 1 - t) as nat, (c - 1 - u) as nat);
                    }
                }
                assert(lookup(res, q) == lookup(m1, q));
            }
        }
        assert forall|q: Seq<char>|
            (forall|t: int| j - 1 <= t < c ==> q != #[trigger] elem_key(k, (c - 1 - t) as nat)) implies lookup(
            res,
            q,
        ) == lookup(m, q) by {
            assert(q != elem_key(k, (c - 1 - (j - 1)) as nat));
            assert forall|t: int| j <= t < c implies q != #[trigger] elem_key(k, (c - 1 - t) as nat) by {
                assert(j - 1 <= t);
            }
            assert(lookup(res, q) == lookup(m1, q));
        }
    }
}

/// All of `args[j..]` are bulk strings, so they all count.
proof fn lemma_bulk_count_all(args: Seq<RespValue>, j: int)
    requires
        1 <= j <= args.len(),
        forall|i: int| j <= i < args.len() ==> #[trigger] arg(args, i) is Some,
    ensures
        bulk_count(args, j) == args.len() - j,
    decreases args.len() - j,
{
    if j < args.len() {
        lemma_filter_step(args, j, |a: RespValue| is_bulk(a));
        assert(arg(args, j) is Some);
        lemma_bulk_count_all(args, j + 1);
    } else {
        reveal_with_fuel(Seq::filter, 1);
        assert(args.subrange(j, j) =~= Seq::<RespValue>::empty());
    }
}

/// LPUSH pushes each value onto the head of the list in turn: on a list
/// whose elements are `xs`, LPUSH of `vs` then LRANGE over the whole list
/// (from 0 to -1) gives `vs` in reverse order followed by `xs`, and LPUSH
/// and LLEN reply with the new length.  This holds while the new length
/// stays within `isize::MAX`.
pub proof fn law_lrange_after_lpush(
    m: StoreMap,
    push_args: Seq<RespValue>,
    range_args: Seq<RespValue>,
    len_args: Seq<RespValue>,
    k: Seq<char>,
    vs: Seq<Seq<char>>,
    xs: Seq<Seq<char>>,
)
    requires
        1 <= vs.len(),
        list_len(m, k) == xs.len(),
        forall|t: int| 0 <= t < xs.len() ==> lookup(m, #[trigger] elem_key(k, t as nat)) == Some(xs[t]),
        xs.len() + vs.len() <= isize::MAX,
        bulk_args(push_args, seq![k] + vs),
        range_args.len() == 3,
        arg(range_args, 0) == Some(k),
        index_arg(range_args[1]@, 0, 0) == 0,
        index_arg(range_args[2]@, 0, -1) == -1,
        bulk_args(len_args, seq![k]),
    ensures
        lpush_spec(m, push_args).1 == RespView::Integer((xs.len() + vs.len()) as i64),
        lrange_spec(lpush_spec(m, push_args).0, range_args) == RespView::Array(
            Seq::new(vs.len(), |t: int| RespView::BulkString(Some(vs[vs.len() - 1 - t]))) + Seq::new(
                xs.len(),
                |t: int| RespView::BulkString(Some(xs[t])),
            ),
        ),
        llen_spec(lpush_spec(m, push_args).0, len_args) == RespView::Integer(
            (xs.len() + vs.len()) as i64,
        ),
{
    let all = seq![k] + vs;
    assert(arg(push_args, 0) == Some(k)) by {
        assert(all[0] == k);
    }
    assert forall|i: int| 1 <= i < push_args.len() implies #[trigger] arg(push_args, i) == Some(vs[i - 1]) by {
        assert(all[i] == vs[i - 1]);
    }
    assert(arg(len_args, 0) == Some(k));
    let n = xs.len() as int;
    let c = vs.len() as int;
    lemma_bulk_count_all(push_args, 1);
    assert(bulk_count(push_args, 1) == c);
    lemma_shift_by(m, k, n, c, xs);
    let ms = shift_by(m, k, n, c);
    lemma_store_front(ms, k, push_args, vs, 1);
    let res = store_front(ms, k, push_args, c, 1, 0).0;
    assert(wrap_add(n, c) == n + c);
    let m2 = res.insert(len_key(k), nat_text((n + c) as nat));
    assert(lpush_spec(m, push_args).0 == m2);
    lemma_list_len_written(res, k, (n + c) as nat);
    lemma_parse_nat_text((n + c) as nat, i64::MAX as int, true, i64::MIN as int);
    lemma_lrange_whole(m2, range_args, k);
    let want = Seq::new(vs.len(), |t: int| RespView::BulkString(Some(vs[vs.len() - 1 - t]))) + Seq::new(
        xs.len(),
        |t: int| RespView::BulkString(Some(xs[t])),
    );
    let after = whole_list(m2, k);
    assert(after =~= want) by {
        assert forall|t: int| 0 <= t < n + c implies after[t] == want[t] by {
            let q = elem_key(k, t as nat);
            lemma_len_key_not_elem(k, t as nat);
            assert(lookup(m2, q) == lookup(res, q));
            assert(after[t] == value_reply(lookup(m2, elem_key(k, (0 + t) as nat))));
            if t < c {
                let u = c - 1 - t;
                assert(elem_key(k, (c - 1 - u) as nat) == q);
                assert(lookup(res, q) == Some(vs[u]));
            } else {
                assert forall|u: int| 0 <= u < c implies q != #[trigger] elem_key(k, (c - 1 - u) as nat) by {
                    if q == elem_key(k, (c - 1 - u) as nat) {
                        lemma_elem_key_injective(k, t as nat, (c - 1 - u) as nat);
                    }
                }
                assert(lookup(res, q) == lookup(ms, q));
                assert(elem_key(k, ((t - c) + c) as nat) == q);
                assert(lookup(ms, q) == Some(xs[t - c]));
            }
        }
    }
}

// ---------------------------------------------------------------------------
// Sets
// ---------------------------------------------------------------------------

proof fn lemma_member_not_count(k: Seq<char>, x: Seq<char>)
    ensures
        member_key(k, x) != set_count_key(k),
{
    reveal_strlit(":m");
    reveal_strlit(":count");
    let a = member_key(k, x);
    let b = set_count_key(k);
    assert(a[a.len() - 1] == 'm');
    assert(b[b.len() - 1] == 't');
    lemma_differ_last(a, b);
}

/// The scanned key behind a member that SMEMBERS lists.
proof fn lemma_smembers_item(k: Seq<char>, s: Seq<char>, y: RespView)
    requires
        smembers_item(k, s) == seq![y],
    ensures
        y matches RespView::BulkString(Some(x)) && s == member_key(k, x),
{
    assert(seq![y].len() == 1);
    assert(middle(s, setkey(k) + ":"@, ":m"@) is Some);
    let x = middle(s, setkey(k) + ":"@, ":m"@)->Some_0;
    lemma_middle(s, setkey(k) + ":"@, ":m"@, x);
    assert(seq![y][0] == y);
    assert(smembers_item(k, s)[0] == RespView::BulkString(Some(x)));
    assert(y == RespView::BulkString(Some(x)));
    assert(member_key(k, x) =~= setkey(k) + ":"@ + x + ":m"@);
}

proof fn lemma_smembers_run(k: Seq<char>, ks: Seq<Seq<char>>, i: int, acc: Seq<RespView>)
    requires
        ks.no_duplicates(),
        0 <= i <= ks.len(),
        acc.no_duplicates(),
        forall|a: int|
            0 <= a < acc.len() ==> exists|j: int|
                0 <= j < i && smembers_item(k, ks[j]) == seq![#[trigger] acc[a]],
    ensures
        smembers_run(k, ks, i, acc).no_duplicates(),
        forall|y: RespView|
            #[trigger] smembers_run(k, ks, i, acc).contains(y) <==> acc.contains(y) || exists|j: int|
                i <= j < ks.len() && smembers_item(k, ks[j]) == seq![y],
    decreases ks.len() - i,
{
    if i < ks.len() {
        let item = smembers_item(k, ks[i]);
        let acc2 = acc + item;
        if item.len() > 0 {
            let y = item[0];
            assert(item == seq![y]);
            assert(!acc.contains(y)) by {
                if acc.contains(y) {
                    let a = choose|a: int| 0 <= a < acc.len() && acc[a] == y;
                    let j = choose|j: int| 0 <= j < i && smembers_item(k, ks[j]) == seq![acc[a]];
                    lemma_smembers_item(k, ks[j], y);
                    lemma_smembers_item(k, ks[i], y);
                }
            }
            assert(acc2 == acc.push(y));
        } else {
            assert(acc2 =~= acc);
        }
        assert forall|a: int| 0 <= a < acc2.len() implies exists|j: int|
            0 <= j < i + 1 && smembers_item(k, ks[j]) == seq![#[trigger] acc2[a]] by {
            if a < acc.len() {
                assert(acc2[a] == acc[a]);
                let j = choose|j: int| 0 <= j < i && smembers_item(k, ks[j]) == seq![acc[a]];
                assert(0 <= j < i + 1);
            } else {
                assert(item == seq![acc2[a]]);
            }
        }
        lemma_smembers_run(k, ks, i + 1, acc2);
        assert forall|y: RespView|
            #[trigger] smembers_run(k, ks, i, acc).contains(y) <==> acc.contains(y) || exists|j: int|
                i <= j < ks.len() && smembers_item(k, ks[j]) == seq![y] by {
            if acc2.contains(y) && !acc.contains(y) {
                let a = choose|a: int| 0 <= a < acc2.len() && acc2[a] == y;
                assert(item == seq![y]);
            }
            if acc.contains(y) {
                let a = choose|a: int| 0 <= a < acc.len() && acc[a] == y;
                assert(acc2[a] == y);
            }
            if exists|j: int| i <= j < ks.len() && smembers_item(k, ks[j]) == seq![y] {
                let j = choose|j: int| i <= j < ks.len() && smembers_item(k, ks[j]) == seq![y];
                if j == i {
                    assert(acc2[acc.len() as int] == y);
                }
            }
        }
    }
}

/// SMEMBERS lists each member of the set exactly once, as a bulk string,
/// and nothing else: `x` is listed exactly when the set's member key for
/// `x` is stored.
pub proof fn law_smembers_lists_members(db: RocksDB, args: Seq<RespValue>, k: Seq<char>)
    requires
        db.wf(),
        args.len() >= 1,
        arg(args, 0) == Some(k),
    ensures
        smembers_spec(db@, args) is Array,
        smembers_spec(db@, args)->Array_0.no_duplicates(),
        forall|i: int|
            0 <= i < smembers_spec(db@, args)->Array_0.len() ==> #[trigger] smembers_spec(
                db@,
                args,
            )->Array_0[i] matches RespView::BulkString(Some(_)),
        forall|x: Seq<char>|
            #[trigger] smembers_spec(db@, args)->Array_0.contains(RespView::BulkString(Some(x)))
                <==> db@.contains_key(member_key(k, x)),
{
    let p = setkey(k);
    db.lemma_listing(p);
    let ks = sorted_seq(keys_with(db@, p));
    lemma_smembers_run(k, ks, 0, Seq::empty());
    let xs = smembers_spec(db@, args)->Array_0;
    assert(xs == smembers_run(k, ks, 0, Seq::empty()));
    assert forall|i: int| 0 <= i < xs.len() implies #[trigger] xs[i] matches RespView::BulkString(
        Some(_),
    ) by {
        assert(xs.contains(xs[i]));
        let j = choose|j: int| 0 <= j < ks.len() && smembers_item(k, ks[j]) == seq![xs[i]];
        lemma_smembers_item(k, ks[j], xs[i]);
    }
    assert forall|x: Seq<char>| #[trigger] xs.contains(RespView::BulkString(Some(x)))
        <== db@.contains_key(member_key(k, x)) by {
        let q = member_key(k, x);
        if db@.contains_key(q) {
            assert(q =~= setkey(k) + ":"@ + x + ":m"@);
            assert(has_prefix(q, p)) by {
                assert(q.subrange(0, p.len() as int) =~= p);
            }
            assert(keys_with(db@, p).contains(q));
            assert(ks.to_set().contains(q));
            let j = choose|j: int| 0 <= j < ks.len() && ks[j] == q;
            lemma_middle(q, setkey(k) + ":"@, ":m"@, x);
            assert(smembers_item(k, ks[j]) == seq![RespView::BulkString(Some(x))]);
        }
    }
    assert forall|x: Seq<char>| #[trigger] xs.contains(RespView::BulkString(Some(x)))
        ==> db@.contains_key(member_key(k, x)) by {
        if xs.contains(RespView::BulkString(Some(x))) {
            let j = choose|j: int|
                0 <= j < ks.len() && smembers_item(k, ks[j]) == seq![RespView::BulkString(Some(x))];
            lemma_smembers_item(k, ks[j], RespView::BulkString(Some(x)));
            assert(ks.to_set().contains(ks[j]));
        }
    }
}

/// After SADD of a member, SISMEMBER finds it.
pub proof fn law_sismember_after_sadd(
    m: StoreMap,
    add_args: Seq<RespValue>,
    is_args: Seq<RespValue>,
    k: Seq<char>,
    x: Seq<char>,
)
    requires
        bulk_args(add_args, seq![k, x]),
        bulk_args(is_args, seq![k, x]),
    ensures
        sismember_spec(sadd_spec(m, add_args).0, is_args) == RespView::Integer(1),
{
    assert(arg(add_args, 0) == Some(k));
    assert(arg(add_args, 1) == Some(x));
    assert(arg(is_args, 0) == Some(k));
    assert(arg(is_args, 1) == Some(x));
    lemma_member_not_count(k, x);
    let mk = member_key(k, x);
    let a: int = if m.contains_key(mk) {
        0
    } else {
        1
    };
    let m1 = if m.contains_key(mk) {
        m
    } else {
        m.insert(mk, "1"@)
    };
    assert(sadd_run(m1, k, add_args, 2, a) == (m1, a));
    assert(sadd_run(m, k, add_args, 1, 0) == (m1, a));
}

/// After SREM of a member, SISMEMBER does not find it.
pub proof fn law_sismember_after_srem(
    m: StoreMap,
    rem_args: Seq<RespValue>,
    is_args: Seq<RespValue>,
    k: Seq<char>,
    x: Seq<char>,
)
    requires
        bulk_args(rem_args, seq![k, x]),
        bulk_args(is_args, seq![k, x]),
    ensures
        sismember_spec(srem_spec(m, rem_args).0, is_args) == RespView::Integer(0),
{
    assert(arg(rem_args, 0) == Some(k));
    assert(arg(rem_args, 1) == Some(x));
    assert(arg(is_args, 0) == Some(k));
    assert(arg(is_args, 1) == Some(x));
    lemma_member_not_count(k, x);
    let m1 = m.remove(member_key(k, x));
    let c: int = if m.contains_key(member_key(k, x)) { 1 } else { 0 };
    assert(srem_run(m1, k, rem_args, 2, c) == (m1, c));
    assert(srem_run(m, k, rem_args, 1, 0) == (m1, c));
}

/// A second SADD of the same member adds nothing.
pub proof fn law_sadd_twice(m: StoreMap, add_args: Seq<RespValue>, k: Seq<char>, x: Seq<char>)
    requires
        bulk_args(add_args, seq![k, x]),
    ensures
        sadd_spec(sadd_spec(m, add_args).0, add_args).1 == RespView::Integer(0),
{
    assert(arg(add_args, 0) == Some(k));
    assert(arg(add_args, 1) == Some(x));
    lemma_member_not_count(k, x);
    let mk = member_key(k, x);
    let a: int = if m.contains_key(mk) {
        0
    } else {
        1
    };
    let m1 = if m.contains_key(mk) {
        m
    } else {
        m.insert(mk, "1"@)
    };
    assert(sadd_run(m1, k, add_args, 2, a) == (m1, a));
    assert(sadd_run(m, k, add_args, 1, 0) == (m1, a));
    let m2 = sadd_spec(m, add_args).0;
    assert(m2.contains_key(mk));
    assert(sadd_run(m2, k, add_args, 2, 0) == (m2, 0int));
    assert(sadd_run(m2, k, add_args, 1, 0) == (m2, 0int));
}

// ---------------------------------------------------------------------------
// Hashes
// ---------------------------------------------------------------------------

proof fn lemma_field_not_count(k: Seq<char>, f: Seq<char>)
    ensures
        hfield(k, f) != hcount(k),
{
    reveal_strlit(":f");
    reveal_strlit(":count");
    let a = hfield(k, f);
    let b = hcount(k);
    assert(a[a.len() - 1] == 'f');
    assert(b[b.len() - 1] == 't');
    lemma_differ_last(a, b);
}

/// The field half of the `a`-th field/value pair in a reply.
pub open spec fn field_of(xs: Seq<RespView>, a: int) -> RespView {
    xs[2 * a]
}

/// The value half of the `a`-th field/value pair in a reply.
pub open spec fn value_of(xs: Seq<RespView>, a: int) -> RespView {
    xs[2 * a + 1]
}

/// `xs` is field/value pairs of hash `k` in `m`: each field a bulk string
/// whose key is stored, followed by its stored value.
pub open spec fn hash_pairs(m: StoreMap, k: Seq<char>, xs: Seq<RespView>) -> bool {
    &&& xs.len() % 2 == 0
    &&& forall|a: int|
        0 <= a < xs.len() / 2 ==> (#[trigger] field_of(xs, a) matches RespView::BulkString(Some(f))
            && m.contains_key(hfield(k, f)) && value_of(xs, a) == RespView::BulkString(
            Some(m[hfield(k, f)]),
        ))
}

/// Field `f` heads one of the pairs of `xs`.
pub open spec fn lists_field(xs: Seq<RespView>, f: Seq<char>) -> bool {
    exists|a: int| 0 <= a < xs.len() / 2 && #[trigger] field_of(xs, a) == RespView::BulkString(Some(f))
}

/// No field heads two pairs of `xs`.
pub open spec fn fields_distinct(xs: Seq<RespView>) -> bool {
    forall|a: int, b: int| 0 <= a < b < xs.len() / 2 ==> #[trigger] field_of(xs, a) != #[trigger] field_of(xs, b)
}

proof fn lemma_hgetall_item(m: StoreMap, k: Seq<char>, s: Seq<char>)
    ensures
        hgetall_item(m, k, s).len() == 0 || ({
            let f = middle(s, hkey(k) + ":"@, ":f"@)->Some_0;
            &&& middle(s, hkey(k) + ":"@, ":f"@) is Some
            &&& s == hfield(k, f)
            &&& m.contains_key(s)
            &&& hgetall_item(m, k, s) == seq![
                RespView::BulkString(Some(f)),
                RespView::BulkString(Some(m[s])),
            ]
        }),
{
    if let Some(f) = middle(s, hkey(k) + ":"@, ":f"@) {
        lemma_middle(s, hkey(k) + ":"@, ":f"@, f);
        assert(hfield(k, f) =~= hkey(k) + ":"@ + f + ":f"@);
    }
}

proof fn lemma_hgetall_run(m: StoreMap, k: Seq<char>, ks: Seq<Seq<char>>, i: int, acc: Seq<RespView>)
    requires
        ks.no_duplicates(),
        0 <= i <= ks.len(),
        hash_pairs(m, k, acc),
        fields_distinct(acc),
        forall|f: Seq<char>|
            #[trigger] lists_field(acc, f) ==> exists|j: int| 0 <= j < i && ks[j] == hfield(k, f),
    ensures
        hash_pairs(m, k, hgetall_run(m, k, ks, i, acc)),
        fields_distinct(hgetall_run(m, k, ks, i, acc)),
        forall|f: Seq<char>|
            #[trigger] lists_field(hgetall_run(m, k, ks, i, acc), f) <==> lists_field(acc, f) || exists|j: int|
                i <= j < ks.len() && ks[j] == hfield(k, f) && m.contains_key(hfield(k, f)),
    decreases ks.len() - i,
{
    if i < ks.len() {
        let item = hgetall_item(m, k, ks[i]);
        let acc2 = acc + item;
        let h = (acc.len() / 2) as int;
        lemma_hgetall_item(m, k, ks[i]);
        assert forall|a: int| 0 <= a < h implies #[trigger] field_of(acc2, a) == field_of(acc, a) && value_of(acc2, a)
            == value_of(acc, a) by {
            assert(acc2[2 * a] == acc[2 * a]);
            assert(acc2[2 * a + 1] == acc[2 * a + 1]);
        }
        if item.len() > 0 {
            let f0 = middle(ks[i], hkey(k) + ":"@, ":f"@)->Some_0;
            assert(field_of(acc2, h) == RespView::BulkString(Some(f0)));
            assert(value_of(acc2, h) == RespView::BulkString(Some(m[ks[i]])));
            assert(!lists_field(acc, f0)) by {
                if lists_field(acc, f0) {
                    let j = choose|j: int| 0 <= j < i && ks[j] == hfield(k, f0);
                }
            }
            assert(acc2.len() / 2 == h + 1);
            assert forall|f: Seq<char>| #[trigger] lists_field(acc2, f) <==> lists_field(acc, f) || f == f0 by {
                if lists_field(acc2, f) {
                    let a = choose|a: int| 0 <= a < acc2.len() / 2 && #[trigger] field_of(acc2, a)
                        == RespView::BulkString(Some(f));
                    if a < h {
                        assert(field_of(acc, a) == RespView::BulkString(Some(f)));
                    }
                }
                if lists_field(acc, f) {
                    let a = choose|a: int| 0 <= a < acc.len() / 2 && #[trigger] field_of(acc, a)
                        == RespView::BulkString(Some(f));
                    assert(field_of(acc2, a) == RespView::BulkString(Some(f)));
                }
                if f == f0 {
                    assert(field_of(acc2, h) == RespView::BulkString(Some(f)));
                }
            }
            assert(fields_distinct(acc2)) by {
                assert forall|a: int, b: int| 0 <= a < b < acc2.len() / 2 implies #[trigger] field_of(acc2, a)
                    != #[trigger] field_of(acc2, b) by {
                    if b == h {
                        if field_of(acc2, a) == field_of(acc2, b) {
                            assert(field_of(acc, a) == RespView::BulkString(Some(f0)));
                            assert(lists_field(acc, f0));
                        }
                    } else {
                        assert(field_of(acc, a) != field_of(acc, b));
                    }
                }
            }
            assert(hash_pairs(m, k, acc2));
            assert forall|f: Seq<char>| #[trigger] lists_field(acc2, f) implies exists|j: int|
                0 <= j < i + 1 && ks[j] == hfield(k, f) by {
                if lists_field(acc, f) {
                    let j = choose|j: int| 0 <= j < i && ks[j] == hfield(k, f);
                    assert(0 <= j < i + 1);
                } else {
                    assert(f == f0);
                }
            }
        } else {
            assert(acc2 =~= acc);
        }
        lemma_hgetall_run(m, k, ks, i + 1, acc2);
        assert forall|f: Seq<char>|
            #[trigger] lists_field(hgetall_run(m, k, ks, i, acc), f) <==> lists_field(acc, f) || exists|j: int|
                i <= j < ks.len() && ks[j] == hfield(k, f) && m.contains_key(hfield(k, f)) by {
            if exists|j: int| i <= j < ks.len() && ks[j] == hfield(k, f) && m.contains_key(hfield(k, f)) {
                let j = choose|j: int| i <= j < ks.len() && ks[j] == hfield(k, f) && m.contains_key(hfield(k, f));
                if j == i {
                    lemma_middle(hfield(k, f), hkey(k) + ":"@, ":f"@, f);
                    assert(hfield(k, f) =~= hkey(k) + ":"@ + f + ":f"@);
                    assert(item.len() > 0);
                    assert(lists_field(acc2, f));
                }
            }
        }
    }
}

/// HGETALL lists each field of the hash exactly once, each followed by its
/// value: every pair is a stored field with its value, every stored field
/// of the hash is listed, and no field is listed twice.
pub proof fn law_hgetall_lists_fields(db: RocksDB, args: Seq<RespValue>, k: Seq<char>)
    requires
        db.wf(),
        args.len() >= 1,
        arg(args, 0) == Some(k),
    ensures
        hgetall_spec(db@, args) is Array,
        hash_pairs(db@, k, hgetall_spec(db@, args)->Array_0),
        fields_distinct(hgetall_spec(db@, args)->Array_0),
        forall|f: Seq<char>|
            #[trigger] lists_field(hgetall_spec(db@, args)->Array_0, f) <==> db@.contains_key(hfield(k, f)),
{
    let p = hkey(k);
    db.lemma_listing(p);
    let ks = sorted_seq(keys_with(db@, p));
    let e = Seq::<RespView>::empty();
    assert(hash_pairs(db@, k, e));
    assert forall|f: Seq<char>| #[trigger] lists_field(e, f) implies exists|j: int| 0 <= j < 0 && ks[j] == hfield(k, f) by {
        let a = choose|a: int| 0 <= a < e.len() / 2 && #[trigger] field_of(e, a) == RespView::BulkString(Some(f));
    }
    lemma_hgetall_run(db@, k, ks, 0, e);
    let xs = hgetall_spec(db@, args)->Array_0;
    assert(xs == hgetall_run(db@, k, ks, 0, e));
    assert forall|f: Seq<char>| #[trigger] lists_field(xs, f) <==> db@.contains_key(hfield(k, f)) by {
        let q = hfield(k, f);
        if lists_field(e, f) {
            let a = choose|a: int| 0 <= a < e.len() / 2 && #[trigger] field_of(e, a) == RespView::BulkString(Some(f));
        }
        if db@.contains_key(q) {
            assert(q =~= hkey(k) + ":"@ + f + ":f"@);
            assert(has_prefix(q, p)) by {
                assert(q.subrange(0, p.len() as int) =~= p);
            }
            assert(keys_with(db@, p).contains(q));
            assert(ks.to_set().contains(q));
            let j = choose|j: int| 0 <= j < ks.len() && ks[j] == q;
            assert(ks[j] == hfield(k, f) && db@.contains_key(hfield(k, f)));
        }
    }
}

/// HGET after HSET of a field gives back the value that was set.
pub proof fn law_hget_after_hset(
    m: StoreMap,
    set_args: Seq<RespValue>,
    get_args: Seq<RespValue>,
    k: Seq<char>,
    f: Seq<char>,
    v: Seq<char>,
)
    requires
        bulk_args(set_args, seq![k, f, v]),
        bulk_args(get_args, seq![k, f]),
    ensures
        hget_spec(hset_spec(m, set_args).0, get_args) == RespView::BulkString(Some(v)),
{
    assert(arg(set_args, 0) == Some(k));
    assert(arg(set_args, 1) == Some(f));
    assert(arg(set_args, 2) == Some(v));
    assert(arg(get_args, 0) == Some(k));
    assert(arg(get_args, 1) == Some(f));
    lemma_field_not_count(k, f);
    let a: int = if m.contains_key(hfield(k, f)) {
        0
    } else {
        1
    };
    let m1 = m.insert(hfield(k, f), v);
    assert(hset_run(m1, k, set_args, 3, a) == (m1, a));
    assert(hset_run(m, k, set_args, 1, 0) == (m1, a));
}

/// HGET after HDEL of a field finds nothing.
pub proof fn law_hget_after_hdel(
    m: StoreMap,
    del_args: Seq<RespValue>,
    get_args: Seq<RespValue>,
    k: Seq<char>,
    f: Seq<char>,
)
    requires
        bulk_args(del_args, seq![k, f]),
        bulk_args(get_args, seq![k, f]),
    ensures
        hget_spec(hdel_spec(m, del_args).0, get_args) == RespView::Null,
{
    assert(arg(del_args, 0) == Some(k));
    assert(arg(del_args, 1) == Some(f));
    assert(arg(get_args, 0) == Some(k));
    assert(arg(get_args, 1) == Some(f));
    lemma_field_not_count(k, f);
    let m1 = m.remove(hfield(k, f));
    let c: int = if m.contains_key(hfield(k, f)) { 1 } else { 0 };
    assert(hdel_run(m1, k, del_args, 2, c) == (m1, c));
    assert(hdel_run(m, k, del_args, 1, 0) == (m1, c));
}

// ---------------------------------------------------------------------------
// Sorted sets
// ---------------------------------------------------------------------------

proof fn lemma_score_keys_differ(k: Seq<char>, x: Seq<char>)
    ensures
        score_key(k, x) != zcount_key(k),
        score_key(k, x) != zmember_key(k, x),
{
    reveal_strlit(":s");
    reveal_strlit(":count");
    reveal_strlit("z:");
    reveal_strlit("zm:");
    let a = score_key(k, x);
    let b = zcount_key(k);
    let c = zmember_key(k, x);
    assert(a[a.len() - 1] == 's');
    assert(b[b.len() - 1] == 't');
    lemma_differ_last(a, b);
    assert(a[1] == ':');
    assert(c[1] == 'm');
    lemma_differ_at(a, c, 1);
}

/// ZSCORE after ZADD of a member gives back the score text that was added.
pub proof fn law_zscore_after_zadd(
    m: StoreMap,
    add_args: Seq<RespValue>,
    score_args: Seq<RespValue>,
    k: Seq<char>,
    s: Seq<char>,
    x: Seq<char>,
)
    requires
        bulk_args(add_args, seq![k, s, x]),
        bulk_args(score_args, seq![k, x]),
    ensures
        zscore_spec(zadd_spec(m, add_args).0, score_args) == RespView::BulkString(Some(s)),
{
    assert(arg(add_args, 0) == Some(k));
    assert(arg(add_args, 1) == Some(s));
    assert(arg(add_args, 2) == Some(x));
    assert(arg(score_args, 0) == Some(k));
    assert(arg(score_args, 1) == Some(x));
    lemma_score_keys_differ(k, x);
    let a: int = if m.contains_key(score_key(k, x)) {
        0
    } else {
        1
    };
    let m1 = m.insert(score_key(k, x), s).insert(zmember_key(k, x), s);
    assert(zadd_run(m1, k, add_args, 3, a) == (m1, a));
    assert(zadd_run(m, k, add_args, 1, 0) == (m1, a));
}

/// ZSCORE after ZREM of a member finds nothing.
pub proof fn law_zscore_after_zrem(
    m: StoreMap,
    rem_args: Seq<RespValue>,
    score_args: Seq<RespValue>,
    k: Seq<char>,
    x: Seq<char>,
)
    requires
        bulk_args(rem_args, seq![k, x]),
        bulk_args(score_args, seq![k, x]),
    ensures
        zscore_spec(zrem_spec(m, rem_args).0, score_args) == RespView::Null,
{
    assert(arg(rem_args, 0) == Some(k));
    assert(arg(rem_args, 1) == Some(x));
    assert(arg(score_args, 0) == Some(k));
    assert(arg(score_args, 1) == Some(x));
    lemma_score_keys_differ(k, x);
    let m1 = m.remove(score_key(k, x)).remove(zmember_key(k, x));
    let c: int = if m.contains_key(score_key(k, x)) { 1 } else { 0 };
    assert(zrem_run(m1, k, rem_args, 2, c) == (m1, c));
    assert(zrem_run(m, k, rem_args, 1, 0) == (m1, c));
}

// ---------------------------------------------------------------------------
// Ranks, counts and steps
// ---------------------------------------------------------------------------

proof fn lemma_rank_of(ranked: Seq<(Seq<char>, Seq<char>)>, x: Seq<char>, i: int, t: int)
    requires
        0 <= i <= t,
        forall|j: int| i <= j < t ==> (#[trigger] ranked[j]).0 != x,
    ensures
        t < ranked.len() && ranked[t].0 == x ==> rank_of(ranked, x, i) == Some(t),
        t == ranked.len() ==> rank_of(ranked, x, i) is None,
    decreases t - i,
{
    if i < t {
        lemma_rank_of(ranked, x, i + 1, t);
    }
}

/// ZRANK gives the 0-based position of the member among the members ranked
/// by score: the first position that holds `x`, counted from 0, and nil
/// when no ranked member is `x`.
pub proof fn law_zrank_is_position(ranked: Seq<(Seq<char>, Seq<char>)>, x: Seq<char>, i: int)
    requires
        0 <= i <= ranked.len(),
        forall|j: int| 0 <= j < i ==> (#[trigger] ranked[j]).0 != x,
    ensures
        i < ranked.len() && ranked[i].0 == x ==> zrank_finish_spec(ranked, x) == RespView::Integer(
            i as i64,
        ),
        i == ranked.len() ==> zrank_finish_spec(ranked, x) == RespView::Null,
{
    lemma_rank_of(ranked, x, 0, i);
}

/// `xs` lists the members ranked `s`, `s + 1`, ... (`cnt` of them), each
/// followed by its score when `ws`.
pub open spec fn ranks_listed(
    ranked: Seq<(Seq<char>, Seq<char>)>,
    s: int,
    cnt: int,
    ws: bool,
    xs: Seq<RespView>,
) -> bool {
    if ws {
        &&& xs.len() == 2 * cnt
        &&& forall|j: int|
            0 <= j < cnt ==> #[trigger] field_of(xs, j) == RespView::BulkString(Some(ranked[s + j].0))
                && value_of(xs, j) == RespView::BulkString(Some(ranked[s + j].1))
    } else {
        &&& xs.len() == cnt
        &&& forall|j: int| 0 <= j < cnt ==> #[trigger] xs[j] == RespView::BulkString(Some(ranked[s + j].0))
    }
}

proof fn lemma_select_run(
    ranked: Seq<(Seq<char>, Seq<char>)>,
    s: int,
    i: int,
    e: int,
    ws: bool,
    acc: Seq<RespView>,
)
    requires
        0 <= s <= i <= e + 1,
        e < ranked.len(),
        ranks_listed(ranked, s, i - s, ws, acc),
    ensures
        ranks_listed(ranked, s, e + 1 - s, ws, select_run(ranked, i, e, ws, acc)),
    decreases e + 1 - i,
{
    if i <= e {
        let item = seq![RespView::BulkString(Some(ranked[i].0))] + if ws {
            seq![RespView::BulkString(Some(ranked[i].1))]
        } else {
            Seq::empty()
        };
        let acc2 = acc + item;
        let cnt = i - s;
        if ws {
            assert forall|j: int| 0 <= j < cnt + 1 implies #[trigger] field_of(acc2, j) == RespView::BulkString(
                Some(ranked[s + j].0),
            ) && value_of(acc2, j) == RespView::BulkString(Some(ranked[s + j].1)) by {
                if j < cnt {
                    assert(field_of(acc, j) == RespView::BulkString(Some(ranked[s + j].0)));
                    assert(acc2[2 * j] == acc[2 * j]);
                    assert(acc2[2 * j + 1] == acc[2 * j + 1]);
                } else {
                    assert(acc2[2 * j] == item[0]);
                    assert(acc2[2 * j + 1] == item[1]);
                }
            }
        } else {
            assert forall|j: int| 0 <= j < cnt + 1 implies #[trigger] acc2[j] == RespView::BulkString(
                Some(ranked[s + j].0),
            ) by {
                if j < cnt {
                    assert(acc[j] == RespView::BulkString(Some(ranked[s + j].0)));
                } else {
                    assert(acc2[j] == item[0]);
                }
            }
        }
        assert(ranks_listed(ranked, s, i + 1 - s, ws, acc2));
        lemma_select_run(ranked, s, i + 1, e, ws, acc2);
    }
}

/// ZRANGE from rank `start` to rank `stop` (both within the ranked members)
/// lists exactly the members ranked `start` to `stop`, in rank order, each
/// followed by its score when WITHSCORES is asked for.
pub proof fn law_zrange_lists_ranks(
    ranked: Seq<(Seq<char>, Seq<char>)>,
    start: usize,
    stop: usize,
    ws: bool,
)
    requires
        start <= stop < ranked.len(),
    ensures
        zrange_finish_spec(ranked, start, stop, ws) is Array,
        ranks_listed(ranked, start as int, stop - start + 1, ws, zrange_finish_spec(ranked, start, stop, ws)->Array_0),
{
    let e = Seq::<RespView>::empty();
    assert(ranks_listed(ranked, start as int, 0, ws, e));
    lemma_select_run(ranked, start as int, start as int, stop as int, ws, e);
}

proof fn lemma_hfield_injective(k: Seq<char>, a: Seq<char>, b: Seq<char>)
    requires
        hfield(k, a) == hfield(k, b),
    ensures
        a == b,
{
    reveal_strlit(":");
    reveal_strlit(":f");
    let p = hkey(k) + ":"@;
    assert(hfield(k, a) =~= p + a + ":f"@);
    assert(hfield(k, b) =~= p + b + ":f"@);
    assert(a =~= hfield(k, a).subrange(p.len() as int, hfield(k, a).len() - 2));
    assert(b =~= hfield(k, b).subrange(p.len() as int, hfield(k, b).len() - 2));
}

proof fn lemma_member_key_injective(k: Seq<char>, a: Seq<char>, b: Seq<char>)
    requires
        member_key(k, a) == member_key(k, b),
    ensures
        a == b,
{
    reveal_strlit(":");
    reveal_strlit(":m");
    let p = setkey(k) + ":"@;
    assert(member_key(k, a) =~= p + a + ":m"@);
    assert(member_key(k, b) =~= p + b + ":m"@);
    assert(a =~= member_key(k, a).subrange(p.len() as int, member_key(k, a).len() - 2));
    assert(b =~= member_key(k, b).subrange(p.len() as int, member_key(k, b).len() - 2));
}

/// HSET of the distinct new fields `fs` from pair `h` on counts each of them.
proof fn lemma_hset_counts(
    m: StoreMap,
    k: Seq<char>,
    args: Seq<RespValue>,
    fs: Seq<Seq<char>>,
    vs: Seq<Seq<char>>,
    h: int,
    a: int,
)
    requires
        0 <= h <= fs.len(),
        fs.len() == vs.len(),
        args.len() == 2 * fs.len() + 1,
        forall|j: int| 0 <= j < fs.len() ==> #[trigger] arg(args, 2 * j + 1) == Some(fs[j]) && arg(args, 2 * j + 2) == Some(vs[j]),
        forall|j: int, l: int| 0 <= j < l < fs.len() ==> fs[j] != fs[l],
        forall|j: int| h <= j < fs.len() ==> !m.contains_key(#[trigger] hfield(k, fs[j])),
    ensures
        hset_run(m, k, args, 2 * h + 1, a).1 == a + fs.len() - h,
    decreases fs.len() - h,
{
    if h < fs.len() {
        assert(arg(args, 2 * h + 1) == Some(fs[h]) && arg(args, 2 * h + 2) == Some(vs[h]));
        let m1 = m.insert(hfield(k, fs[h]), vs[h]);
        assert forall|j: int| h + 1 <= j < fs.len() implies !m1.contains_key(#[trigger] hfield(k, fs[j])) by {
            if hfield(k, fs[j]) == hfield(k, fs[h]) {
                lemma_hfield_injective(k, fs[j], fs[h]);
            }
        }
        lemma_hset_counts(m1, k, args, fs, vs, h + 1, a + 1);
        assert(2 * (h + 1) + 1 == 2 * h + 1 + 2);
    }
}

/// HLEN after HSET of `n` distinct new fields into a hash that had no count
/// replies `n`: the stored count is read back whole, whatever its number of
/// digits.
pub proof fn law_hlen_after_hset(
    m: StoreMap,
    set_args: Seq<RespValue>,
    len_args: Seq<RespValue>,
    k: Seq<char>,
    fs: Seq<Seq<char>>,
    vs: Seq<Seq<char>>,
)
    requires
        1 <= fs.len() <= isize::MAX,
        fs.len() == vs.len(),
        set_args.len() == 2 * fs.len() + 1,
        arg(set_args, 0) == Some(k),
        forall|j: int| 0 <= j < fs.len() ==> #[trigger] arg(set_args, 2 * j + 1) == Some(fs[j]) && arg(
            set_args,
            2 * j + 2,
        ) == Some(vs[j]),
        forall|j: int, l: int| 0 <= j < l < fs.len() ==> fs[j] != fs[l],
        forall|j: int| 0 <= j < fs.len() ==> !m.contains_key(#[trigger] hfield(k, fs[j])),
        !m.contains_key(hcount(k)),
        bulk_args(len_args, seq![k]),
    ensures
        hset_spec(m, set_args).1 == RespView::Integer(fs.len() as i64),
        hlen_spec(hset_spec(m, set_args).0, len_args) == RespView::Integer(fs.len() as i64),
{
    let n = fs.len() as int;
    lemma_hset_counts(m, k, set_args, fs, vs, 0, 0);
    assert(arg(len_args, 0) == Some(k));
    assert(wrap_add(0, n) == n);
    lemma_parse_nat_text(n as nat, i64::MAX as int, true, i64::MIN as int);
}

/// SADD of the distinct new members `xs` from argument `h` on counts each.
proof fn lemma_sadd_counts(
    m: StoreMap,
    k: Seq<char>,
    args: Seq<RespValue>,
    xs: Seq<Seq<char>>,
    h: int,
    a: int,
)
    requires
        0 <= h <= xs.len(),
        args.len() == xs.len() + 1,
        forall|j: int| 0 <= j < xs.len() ==> #[trigger] arg(args, j + 1) == Some(xs[j]),
        forall|j: int, l: int| 0 <= j < l < xs.len() ==> xs[j] != xs[l],
        forall|j: int| h <= j < xs.len() ==> !m.contains_key(#[trigger] member_key(k, xs[j])),
    ensures
        sadd_run(m, k, args, h + 1, a).1 == a + xs.len() - h,
    decreases xs.len() - h,
{
    if h < xs.len() {
        assert(arg(args, h + 1) == Some(xs[h]));
        let m1 = m.insert(member_key(k, xs[h]), "1"@);
        assert forall|j: int| h + 1 <= j < xs.len() implies !m1.contains_key(#[trigger] member_key(k, xs[j])) by {
            if member_key(k, xs[j]) == member_key(k, xs[h]) {
                lemma_member_key_injective(k, xs[j], xs[h]);
            }
        }
        lemma_sadd_counts(m1, k, args, xs, h + 1, a + 1);
    }
}

/// SCARD after SADD of `n` distinct new members into a set that had no
/// count replies `n`: the stored count is read back whole, whatever its
/// number of digits.
pub proof fn law_scard_after_sadd(
    m: StoreMap,
    add_args: Seq<RespValue>,
    card_args: Seq<RespValue>,
    k: Seq<char>,
    xs: Seq<Seq<char>>,
)
    requires
        1 <= xs.len() <= isize::MAX,
        bulk_args(add_args, seq![k] + xs),
        forall|j: int, l: int| 0 <= j < l < xs.len() ==> xs[j] != xs[l],
        forall|j: int| 0 <= j < xs.len() ==> !m.contains_key(#[trigger] member_key(k, xs[j])),
        !m.contains_key(set_count_key(k)),
        bulk_args(card_args, seq![k]),
    ensures
        sadd_spec(m, add_args).1 == RespView::Integer(xs.len() as i64),
        scard_spec(sadd_spec(m, add_args).0, card_args) == RespView::Integer(xs.len() as i64),
{
    let all = seq![k] + xs;
    assert(arg(add_args, 0) == Some(k)) by {
        assert(all[0] == k);
    }
    assert forall|j: int| 0 <= j < xs.len() implies #[trigger] arg(add_args, j + 1) == Some(xs[j]) by {
        assert(all[j + 1] == xs[j]);
    }
    let n = xs.len() as int;
    lemma_sadd_counts(m, k, add_args, xs, 0, 0);
    assert(arg(card_args, 0) == Some(k));
    assert(wrap_add(0, n) == n);
    lemma_parse_nat_text(n as nat, i64::MAX as int, true, i64::MIN as int);
}

/// INCR of a key that holds any number `c` below `i64::MAX`, negative ones
/// included, replies `c + 1` and stores it; DECR of any number above
/// `i64::MIN` replies `c - 1` and stores it.
pub proof fn law_incr_decr_step(m: StoreMap, args: Seq<RespValue>, k: Seq<char>, c: i64)
    requires
        bulk_args(args, seq![k]),
        lookup(m, skey(k)) == Some(int_text(c as int)),
    ensures
        c < i64::MAX ==> incr_spec(m, args) == (
            m.insert(skey(k), int_text(c + 1)),
            RespView::Integer((c + 1) as i64),
        ),
        c > i64::MIN ==> decr_spec(m, args) == (
            m.insert(skey(k), int_text(c - 1)),
            RespView::Integer((c - 1) as i64),
        ),
{
    assert(arg(args, 0) == Some(k));
    lemma_parse_int_text(c);
}

/// The first index a range from `a` reads in a list of `n` elements: a
/// negative `a` counts back from the end, and the index is at least 0.
pub open spec fn slice_start(n: int, a: int) -> int {
    let s = if a < 0 {
        n + a
    } else {
        a
    };
    if s < 0 {
        0
    } else {
        s
    }
}

/// The last index a range to `b` reads in a list of `n` elements: a
/// negative `b` counts back from the end, and the index is at most `n - 1`.
pub open spec fn slice_stop(n: int, b: int) -> int {
    let e = if b < 0 {
        n + b
    } else {
        b
    };
    if e < n - 1 {
        e
    } else {
        n - 1
    }
}

/// The elements of `xs` from index `s` to index `e`, both included;
/// nothing when `e` comes before `s`.
pub open spec fn slice(xs: Seq<Seq<char>>, s: int, e: int) -> Seq<RespView> {
    Seq::new(
        if e >= s {
            (e - s + 1) as nat
        } else {
            0
        },
        |i: int| RespView::BulkString(Some(xs[s + i])),
    )
}

/// LRANGE from `a` to `b` on a list whose elements are `xs` gives the
/// elements from index `a` to index `b`, both included, where a negative
/// index counts back from the end; indexes before the first element or
/// after the last are cut off, and an empty range gives an empty array.
pub proof fn law_lrange_slice(
    m: StoreMap,
    range_args: Seq<RespValue>,
    k: Seq<char>,
    xs: Seq<Seq<char>>,
    a: isize,
    b: isize,
)
    requires
        list_len(m, k) == xs.len(),
        xs.len() <= isize::MAX,
        forall|t: int| 0 <= t < xs.len() ==> lookup(m, #[trigger] elem_key(k, t as nat)) == Some(xs[t]),
        range_args.len() == 3,
        arg(range_args, 0) == Some(k),
        index_arg(range_args[1]@, 0, 0) == a,
        index_arg(range_args[2]@, 0, -1) == b,
    ensures
        lrange_spec(m, range_args) == RespView::Array(
            slice(xs, slice_start(xs.len() as int, a as int), slice_stop(xs.len() as int, b as int)),
        ),
{
    let n = xs.len() as int;
    let s = slice_start(n, a as int);
    let e = slice_stop(n, b as int);
    let got = lrange_spec(m, range_args);
    if n == 0 {
        assert(slice(xs, s, e) =~= Seq::<RespView>::empty());
    } else {
        let (s2, e2) = range_bounds(n as usize, a, b);
        assert(s2 == s && e2 == e);
        if s2 <= e2 {
            assert(got->Array_0 =~= slice(xs, s, e)) by {
                assert forall|i: int| 0 <= i < e - s + 1 implies got->Array_0[i] == slice(xs, s, e)[i] by {
                    assert(lookup(m, elem_key(k, (s + i) as nat)) == Some(xs[s + i]));
                }
            }
        } else {
            assert(slice(xs, s, e) =~= Seq::<RespView>::empty());
        }
    }
}

/// ZRANGE from `a` to `b` on a sorted set holding `n` members asks for the
/// ranks from `a` to `b`, counted as LRANGE counts indexes; an empty range
/// is answered at once with an empty array.
pub proof fn law_zrange_ranks(m: StoreMap, range_args: Seq<RespValue>, k: Seq<char>, n: int, a: isize, b: isize)
    requires
        1 <= n <= isize::MAX,
        lookup(m, zcount_key(k)) == Some(nat_text(n as nat)),
        range_args.len() >= 3,
        arg(range_args, 0) == Some(k),
        index_arg(range_args[1]@, 0, 0) == a,
        index_arg(range_args[2]@, -1, -1) == b,
    ensures
        slice_start(n, a as int) <= slice_stop(n, b as int) ==> (zrange_spec(m, range_args) matches ZrangeStepView::Rank(
            k2,
            s,
            e,
            _,
        ) && k2 == k && s == slice_start(n, a as int) && e == slice_stop(n, b as int)),
        slice_start(n, a as int) > slice_stop(n, b as int) ==> zrange_spec(m, range_args)
            == ZrangeStepView::Reply(RespView::Array(Seq::empty())),
{
    lemma_parse_nat_text(n as nat, usize::MAX as int, false, 0);
    let (s2, e2) = range_bounds(n as usize, a, b);
    assert(s2 == slice_start(n, a as int) && e2 == slice_stop(n, b as int));
}

/// ZRANGE with a last rank past the ranked members stops at the last of
/// them, and with a first rank past them gives an empty array.
pub proof fn law_zrange_cut_off(
    ranked: Seq<(Seq<char>, Seq<char>)>,
    start: usize,
    stop: usize,
    ws: bool,
)
    requires
        ranked.len() >= 1,
    ensures
        start < ranked.len() <= stop ==> zrange_finish_spec(ranked, start, stop, ws) == zrange_finish_spec(
            ranked,
            start,
            (ranked.len() - 1) as usize,
            ws,
        ),
        start >= ranked.len() ==> zrange_finish_spec(ranked, start, stop, ws) == RespView::Array(
            Seq::empty(),
        ),
{
}

/// ECHO replies with its first argument when it is a bulk string, and with
/// an error otherwise.
pub proof fn law_echo(args: Seq<RespValue>, s: Seq<char>)
    ensures
        args.len() > 0 && args[0]@ == RespView::BulkString(Some(s)) ==> crate::commands::executor::echo_spec(args)
            == RespView::BulkString(Some(s)),
        !(args.len() > 0 && args[0]@ is BulkString && args[0]@->BulkString_0 is Some)
            ==> crate::commands::executor::echo_spec(args) is Error,
{
}

/// DECR of a key with no value replies -1 and stores "-1".
pub proof fn law_decr_of_missing(m: StoreMap, args: Seq<RespValue>, k: Seq<char>)
    requires
        bulk_args(args, seq![k]),
        !m.contains_key(skey(k)),
    ensures
        decr_spec(m, args) == (m.insert(skey(k), int_text(-1)), RespView::Integer(-1i64)),
{
    assert(arg(args, 0) == Some(k));
}

} // verus!
