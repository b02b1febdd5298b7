//! List command implementations.
//!
//! Supported commands: LPUSH, RPUSH, LPOP, RPOP, LRANGE, LLEN
//!
//! A list `k` keeps its length under `l:k:len` and the element at index `i`
//! under `l:k:i`.

use vstd::prelude::*;
use crate::commands::args::{
    arg, bulk_arg, bulk_count, concat, concat3, err, from_end, i64_or_zero, index_arg, index_from_end,
    is_bulk, lemma_filter_step,
    read_count, read_i64, read_index, usize_or_zero,
};
use crate::commands::hash::wrap_add;
use crate::commands::string::value_reply;
use crate::db::rocksdb::{lookup, RocksDB, StoreMap};
use crate::server::protocol::{lemma_resp_views_push, resp_views, RespValue, RespView};
use crate::text::{nat_text, usize_to_string};

verus! {

/// `l:` then `k`.
pub open spec fn lkey(k: Seq<char>) -> Seq<char> {
    "l:"@ + k
}

/// Where the length of list `k` is stored.
pub open spec fn len_key(k: Seq<char>) -> Seq<char> {
    lkey(k) + ":len"@
}

/// Where the element at index `i` of list `k` is stored.
pub open spec fn elem_key(k: Seq<char>, i: nat) -> Seq<char> {
    lkey(k) + ":"@ + nat_text(i)
}

fn get_key(key: &str) -> (r: String)
    ensures
        r@ == lkey(key@),
{
    concat("l:", key)
}

fn get_list_len_key(key: &str) -> (r: String)
    ensures
        r@ == len_key(key@),
{
    let k = get_key(key);
    concat(k.as_str(), ":len")
}

fn get_list_element_key(key: &str, index: usize) -> (r: String)
    ensures
        r@ == elem_key(key@, index as nat),
{
    let k = get_key(key);
    let n = usize_to_string(index);
    concat3(k.as_str(), ":", n.as_str())
}

/// The stored length of list `k`.
pub open spec fn list_len(m: StoreMap, k: Seq<char>) -> int {
    usize_or_zero(lookup(m, len_key(k)))
}

/// Copies each element `j` to `j + c`, for `j` from `i - 1` down to 0
/// (elements that are missing are not copied).
pub open spec fn shift_by(m: StoreMap, k: Seq<char>, i: int, c: int) -> StoreMap
    decreases i,
{
    if i <= 0 {
        m
    } else {
        let j = i - 1;
        let m1 = match lookup(m, elem_key(k, j as nat)) {
            Some(v) => m.insert(elem_key(k, wrap_add(j, c) as nat), v),
            None => m,
        };
        shift_by(m1, k, j, c)
    }
}

/// Copies each element `j` to `j - 1`, for `j` from `i` up to `n - 1`.
pub open spec fn shift_left(m: StoreMap, k: Seq<char>, i: int, n: int) -> StoreMap
    decreases n - i,
{
    if i >= n || i < 1 {
        m
    } else {
        let m1 = match lookup(m, elem_key(k, i as nat)) {
            Some(v) => m.insert(elem_key(k, (i - 1) as nat), v),
            None => m,
        };
        shift_left(m1, k, i + 1, n)
    }
}

/// Stores the bulk-string arguments `args[j..]` one after another from index
/// `base + count` on (other arguments are skipped), counting those stored.
pub open spec fn store_run(
    m: StoreMap,
    k: Seq<char>,
    args: Seq<RespValue>,
    base: int,
    j: int,
    count: int,
) -> (StoreMap, int)
    decreases args.len() - j,
{
    if j >= args.len() || j < 1 {
        (m, count)
    } else {
        match arg(args, j) {
            Some(v) => store_run(
                m.insert(elem_key(k, wrap_add(base, count) as nat), v),
                k,
                args,
                base,
                j + 1,
                count + 1,
            ),
            None => store_run(m, k, args, base, j + 1, count),
        }
    }
}

/// Stores the bulk-string arguments `args[j..]` in front, the first of them
/// at index `c - 1 - count` and each next one just before it, counting
/// those stored.
pub open spec fn store_front(
    m: StoreMap,
    k: Seq<char>,
    args: Seq<RespValue>,
    c: int,
    j: int,
    count: int,
) -> (StoreMap, int)
    decreases args.len() - j,
{
    if j >= args.len() || j < 1 {
        (m, count)
    } else {
        match arg(args, j) {
            Some(v) => store_front(
                m.insert(elem_key(k, (c - 1 - count) as nat), v),
                k,
                args,
                c,
                j + 1,
                count + 1,
            ),
            None => store_front(m, k, args, c, j + 1, count),
        }
    }
}

/// LPUSH (`left`) and RPUSH.
pub open spec fn push_spec(m: StoreMap, args: Seq<RespValue>, left: bool) -> (StoreMap, RespView) {
    if args.len() < 2 {
        (
            m,
            err(
                if left {
                    "Wrong number of arguments for 'lpush'"@
                } else {
                    "Wrong number of arguments for 'rpush'"@
                },
            ),
        )
    } else {
        match arg(args, 0) {
            None => (m, err("Invalid key"@)),
            Some(k) => {
                let n = list_len(m, k);
                let c = bulk_count(args, 1) as int;
                let (m2, count) = if left {
                    store_front(shift_by(m, k, n, c), k, args, c, 1, 0)
                } else {
                    store_run(m, k, args, n, 1, 0)
                };
                let new_len = wrap_add(n, count);
                (m2.insert(len_key(k), nat_text(new_len as nat)), RespView::Integer(new_len as i64))
            },
        }
    }
}

pub open spec fn lpush_spec(m: StoreMap, args: Seq<RespValue>) -> (StoreMap, RespView) {
    push_spec(m, args, true)
}

pub open spec fn rpush_spec(m: StoreMap, args: Seq<RespValue>) -> (StoreMap, RespView) {
    push_spec(m, args, false)
}

fn store_values(db: &mut RocksDB, key: &str, args: &[RespValue], base: usize) -> (count: usize)
    requires
        old(db).wf(),
        args.len() >= 1,
    ensures
        final(db).wf(),
        (final(db)@, count as int) == store_run(old(db)@, key@, args@, base as int, 1, 0),
{
    let ghost m0 = db@;
    let mut count: usize = 0;
    let mut j: usize = 1;
    while j < args.len()
        invariant
            db.wf(),
            1 <= j <= args.len(),
            count < j,
            store_run(m0, key@, args@, base as int, 1, 0) == store_run(
                db@,
                key@,
                args@,
                base as int,
                j as int,
                count as int,
            ),
        decreases args.len() - j,
    {
        match bulk_arg(&args[j]) {
            Some(value) => {
                let ek = get_list_element_key(key, base.wrapping_add(count));
                match db.put(ek.as_str(), value.as_str()) {
                    Ok(()) => {
                        count = count + 1;
                    },
                    Err(_) => {},
                }
            },
            None => {},
        }
        j = j + 1;
    }
    count
}

/// The number of bulk-string values in `args[1..]`.
fn count_values(args: &[RespValue]) -> (c: usize)
    requires
        args.len() >= 1,
    ensures
        c as int == bulk_count(args@, 1),
{
    let mut c: usize = 0;
    let mut j: usize = 1;
    while j < args.len()
        invariant
            1 <= j <= args.len(),
            c < j,
            c + bulk_count(args@, j as int) == bulk_count(args@, 1),
        decreases args.len() - j,
    {
        proof {
            lemma_filter_step(args@, j as int, |a: RespValue| is_bulk(a));
        }
        if bulk_arg(&args[j]).is_some() {
            c = c + 1;
        }
        j = j + 1;
    }
    proof {
        lemma_bulk_count_end(args@);
    }
    c
}

proof fn lemma_bulk_count_end(args: Seq<RespValue>)
    ensures
        bulk_count(args, args.len() as int) == 0,
{
    reveal_with_fuel(Seq::filter, 1);
    assert(args.subrange(args.len() as int, args.len() as int) =~= Seq::<RespValue>::empty());
}

fn store_front_values(db: &mut RocksDB, key: &str, args: &[RespValue], c: usize) -> (count: usize)
    requires
        old(db).wf(),
        args.len() >= 1,
        c as int == bulk_count(args@, 1),
    ensures
        final(db).wf(),
        (final(db)@, count as int) == store_front(old(db)@, key@, args@, c as int, 1, 0),
{
    let ghost m0 = db@;
    let mut count: usize = 0;
    let mut j: usize = 1;
    while j < args.len()
        invariant
            db.wf(),
            1 <= j <= args.len(),
            count + bulk_count(args@, j as int) == c,
            store_front(m0, key@, args@, c as int, 1, 0) == store_front(
                db@,
                key@,
                args@,
                c as int,
                j as int,
                count as int,
            ),
        decreases args.len() - j,
    {
        proof {
            lemma_filter_step(args@, j as int, |a: RespValue| is_bulk(a));
        }
        match bulk_arg(&args[j]) {
            Some(value) => {
                let ek = get_list_element_key(key, c - 1 - count);
                let _ = db.put(ek.as_str(), value.as_str());
                count = count + 1;
            },
            None => {},
        }
        j = j + 1;
    }
    count
}

fn push(db: &mut RocksDB, args: &[RespValue], left: bool) -> (r: RespValue)
    requires
        old(db).wf(),
    ensures
        final(db).wf(),
        (final(db)@, r@) == push_spec(old(db)@, args@, left),
{
    if args.len() < 2 {
        if left {
            return RespValue::error("Wrong number of arguments for 'lpush'");
        } else {
            return RespValue::error("Wrong number of arguments for 'rpush'");
        }
    }
    let key = match bulk_arg(&args[0]) {
        Some(k) => k,
        None => {
            return RespValue::error("Invalid key");
        },
    };
    let len_key = get_list_len_key(key.as_str());
    let current_len = read_count(db, len_key.as_str());
    let count = if left {
        let c = count_values(args);
        // Move the elements up by the number of values
        let ghost m0 = db@;
        let mut i: usize = current_len;
        while i > 0
            invariant
                db.wf(),
                i <= current_len,
                c as int == bulk_count(args@, 1),
                shift_by(m0, key@, current_len as int, c as int) == shift_by(
                    db@,
                    key@,
                    i as int,
                    c as int,
                ),
            decreases i,
        {
            i = i - 1;
            match db.get(get_list_element_key(key.as_str(), i).as_str()) {
                Ok(Some(value)) => {
                    let _ = db.put(
                        get_list_element_key(key.as_str(), i.wrapping_add(c)).as_str(),
                        value.as_str(),
                    );
                },
                _ => {},
            }
        }
        // Put the values in front, the last one first
        store_front_values(db, key.as_str(), args, c)
    } else {
        // Insert new elements at the end
        store_values(db, key.as_str(), args, current_len)
    };
    let new_len = current_len.wrapping_add(count);
    let _ = db.put(len_key.as_str(), usize_to_string(new_len).as_str());
    RespValue::Integer(new_len as i64)
}

/// LPUSH command - pushes each value onto the head of the list in turn, so
/// the values end up in front in reverse order: LPUSH k a b c on an empty
/// list gives c, b, a.
pub fn lpush(db: &mut RocksDB, args: &[RespValue]) -> (r: RespValue)
    requires
        old(db).wf(),
    ensures
        final(db).wf(),
        (final(db)@, r@) == lpush_spec(old(db)@, args@),
{
    push(db, args, true)
}

/// RPUSH command - stores the values after the last element, in argument
/// order.
pub fn rpush(db: &mut RocksDB, args: &[RespValue]) -> (r: RespValue)
    requires
        old(db).wf(),
    ensures
        final(db).wf(),
        (final(db)@, r@) == rpush_spec(old(db)@, args@),
{
    push(db, args, false)
}

// ---------------------------------------------------------------------------
// LPOP / RPOP
// ---------------------------------------------------------------------------

/// LPOP (`left`) and RPOP.
pub open spec fn pop_spec(m: StoreMap, args: Seq<RespValue>, left: bool) -> (StoreMap, RespView) {
    if args.len() < 1 {
        (
            m,
            err(
                if left {
                    "Wrong number of arguments for 'lpop'"@
                } else {
                    "Wrong number of arguments for 'rpop'"@
                },
            ),
        )
    } else {
        match arg(args, 0) {
            None => (m, err("Invalid key"@)),
            Some(k) => {
                let n = list_len(m, k);
                if n == 0 {
                    (m, RespView::Null)
                } else {
                    let taken = if left {
                        0
                    } else {
                        n - 1
                    };
                    let reply = value_reply(lookup(m, elem_key(k, taken as nat)));
                    let m1 = if left {
                        shift_left(m, k, 1, n)
                    } else {
                        m
                    };
                    let m2 = m1.remove(elem_key(k, (n - 1) as nat));
                    (m2.insert(len_key(k), nat_text((n - 1) as nat)), reply)
                }
            },
        }
    }
}

pub open spec fn lpop_spec(m: StoreMap, args: Seq<RespValue>) -> (StoreMap, RespView) {
    pop_spec(m, args, true)
}

pub open spec fn rpop_spec(m: StoreMap, args: Seq<RespValue>) -> (StoreMap, RespView) {
    pop_spec(m, args, false)
}

fn pop(db: &mut RocksDB, args: &[RespValue], left: bool) -> (r: RespValue)
    requires
        old(db).wf(),
    ensures
        final(db).wf(),
        (final(db)@, r@) == pop_spec(old(db)@, args@, left),
{
    if args.len() < 1 {
        if left {
            return RespValue::error("Wrong number of arguments for 'lpop'");
        } else {
            return RespValue::error("Wrong number of arguments for 'rpop'");
        }
    }
    let key = match bulk_arg(&args[0]) {
        Some(k) => k,
        None => {
            return RespValue::error("Invalid key");
        },
    };
    let len_key = get_list_len_key(key.as_str());
    let current_len = read_count(db, len_key.as_str());
    if current_len == 0 {
        return RespValue::Null;
    }
    let taken: usize = if left {
        0
    } else {
        current_len - 1
    };
    let element_key = get_list_element_key(key.as_str(), taken);
    let result = match db.get(element_key.as_str()) {
        Ok(Some(v)) => RespValue::BulkString(Some(v)),
        _ => RespValue::Null,
    };
    if left {
        // Shift elements to the left
        let ghost m0 = db@;
        let mut i: usize = 1;
        while i < current_len
            invariant
                db.wf(),
                1 <= i <= current_len,
                shift_left(m0, key@, 1, current_len as int) == shift_left(
                    db@,
                    key@,
                    i as int,
                    current_len as int,
                ),
            decreases current_len - i,
        {
            match db.get(get_list_element_key(key.as_str(), i).as_str()) {
                Ok(Some(value)) => {
                    let _ = db.put(get_list_element_key(key.as_str(), i - 1).as_str(), value.as_str());
                },
                _ => {},
            }
            i = i + 1;
        }
    }
    // Delete the last element
    let _ = db.delete(get_list_element_key(key.as_str(), current_len - 1).as_str());
    // Update length
    let _ = db.put(len_key.as_str(), usize_to_string(current_len - 1).as_str());
    result
}

/// LPOP command - the first element; the others move down one index.
pub fn lpop(db: &mut RocksDB, args: &[RespValue]) -> (r: RespValue)
    requires
        old(db).wf(),
    ensures
        final(db).wf(),
        (final(db)@, r@) == lpop_spec(old(db)@, args@),
{
    pop(db, args, true)
}

/// RPOP command - the last element.
pub fn rpop(db: &mut RocksDB, args: &[RespValue]) -> (r: RespValue)
    requires
        old(db).wf(),
    ensures
        final(db).wf(),
        (final(db)@, r@) == rpop_spec(old(db)@, args@),
{
    pop(db, args, false)
}

// ---------------------------------------------------------------------------
// LRANGE / LLEN
// ---------------------------------------------------------------------------

/// The first and last index that LRANGE reads for a list of `n` elements:
/// a negative bound counts from the end, the first index is raised to 0 and
/// the last is capped at `n - 1`.  When the first comes after the last,
/// which includes a stop before the first element, nothing is read.
pub open spec fn range_bounds(n: usize, start: isize, stop: isize) -> (isize, isize) {
    let s = from_end(n, start);
    let e = from_end(n, stop);
    let s2: isize = if s < 0 {
        0
    } else {
        s
    };
    let cap = vstd::wrapping::isize_specs::wrapping_sub(n as isize, 1);
    let e2: isize = if e < cap {
        e
    } else {
        cap
    };
    (s2, e2)
}

/// The replies for the elements at indexes `from..=to` of list `k`.
pub open spec fn elements(m: StoreMap, k: Seq<char>, from: int, to: int) -> Seq<RespView> {
    Seq::new((to - from + 1) as nat, |t: int| value_reply(lookup(m, elem_key(k, (from + t) as nat))))
}

pub open spec fn lrange_spec(m: StoreMap, args: Seq<RespValue>) -> RespView {
    if args.len() < 3 {
        err("Wrong number of arguments for 'lrange'"@)
    } else {
        match arg(args, 0) {
            None => err("Invalid key"@),
            Some(k) => {
                let start = index_arg(args[1]@, 0, 0);
                let stop = index_arg(args[2]@, 0, -1);
                let n = list_len(m, k);
                if n == 0 {
                    RespView::Array(Seq::empty())
                } else {
                    let (s, e) = range_bounds(n as usize, start as isize, stop as isize);
                    if s > e {
                        RespView::Array(Seq::empty())
                    } else {
                        RespView::Array(elements(m, k, s as int, e as int))
                    }
                }
            },
        }
    }
}

/// The replies for the elements at `from..=to`.
fn read_elements(db: &RocksDB, key: &str, from: usize, to: usize) -> (r: Vec<RespValue>)
    requires
        db.wf(),
        from <= to,
    ensures
        resp_views(r@) == elements(db@, key@, from as int, to as int),
{
    let mut results: Vec<RespValue> = Vec::new();
    let mut i: usize = from;
    assert(resp_views(results@) =~= elements(db@, key@, from as int, from as int - 1));
    loop
        invariant
            db.wf(),
            from <= i <= to,
            resp_views(results@) =~= elements(db@, key@, from as int, i as int - 1),
        decreases to - i,
    {
        let item = match db.get(get_list_element_key(key, i).as_str()) {
            Ok(Some(value)) => RespValue::BulkString(Some(value)),
            _ => RespValue::Null,
        };
        proof {
            lemma_resp_views_push(results@, item);
        }
        results.push(item);
        if i == to {
            assert(resp_views(results@) =~= elements(db@, key@, from as int, to as int));
            return results;
        }
        i = i + 1;
    }
}

/// LRANGE command - the elements from a start to a stop index, both
/// inclusive; negative indexes count from the end.
pub fn lrange(db: &RocksDB, args: &[RespValue]) -> (r: RespValue)
    requires
        db.wf(),
    ensures
        r@ == lrange_spec(db@, args@),
{
    if args.len() < 3 {
        return RespValue::error("Wrong number of arguments for 'lrange'");
    }
    let key = match bulk_arg(&args[0]) {
        Some(k) => k,
        None => {
            return RespValue::error("Invalid key");
        },
    };
    let start = read_index(&args[1], 0, 0);
    let stop = read_index(&args[2], 0, -1);
    let len_key = get_list_len_key(key.as_str());
    let current_len = read_count(db, len_key.as_str());
    if current_len == 0 {
        return RespValue::Array(Vec::new());
    }
    // Normalize indices
    let s = index_from_end(current_len, start);
    let e = index_from_end(current_len, stop);
    let s2: isize = if s < 0 {
        0
    } else {
        s
    };
    let cap = (current_len as isize).wrapping_sub(1);
    let e2: isize = if e < cap {
        e
    } else {
        cap
    };
    if s2 > e2 {
        return RespValue::Array(Vec::new());
    }
    RespValue::Array(read_elements(db, key.as_str(), s2 as usize, e2 as usize))
}

pub open spec fn llen_spec(m: StoreMap, args: Seq<RespValue>) -> RespView {
    if args.len() < 1 {
        err("Wrong number of arguments for 'llen'"@)
    } else {
        match arg(args, 0) {
            None => err("Invalid key"@),
            Some(k) => RespView::Integer(i64_or_zero(lookup(m, len_key(k)))),
        }
    }
}

/// LLEN command - the stored length of a list.
pub fn llen(db: &RocksDB, args: &[RespValue]) -> (r: RespValue)
    requires
        db.wf(),
    ensures
        r@ == llen_spec(db@, args@),
{
    if args.len() < 1 {
        return RespValue::error("Wrong number of arguments for 'llen'");
    }
    let key = match bulk_arg(&args[0]) {
        Some(k) => k,
        None => {
            return RespValue::error("Invalid key");
        },
    };
    let len_key = get_list_len_key(key.as_str());
    RespValue::Integer(read_i64(db, len_key.as_str()))
}

} // verus!
