//! String command implementations.
//!
//! Supported commands: GET, SET, DEL, MGET, MSET, INCR, DECR, EXISTS, STRLEN

use vstd::prelude::*;
use crate::commands::args::{
    arg, bulk_arg, bulk_of, named_probes, concat, err, lemma_filter_step, lemma_removal_run,
    named_keys, pair_run, pairs_written, lemma_pair_run, removal_run,
};
use crate::db::rocksdb::{lookup, RocksDB, StoreMap};
use crate::server::protocol::{
    lemma_resp_views_push, resp_views, utf8_len, RespValue, RespView,
};
use crate::text::{i64_to_string, int_text, owned, parse_i64, parse_i64_str};

verus! {

/// The storage key of string `k`: `s:` then `k`.
pub open spec fn skey(k: Seq<char>) -> Seq<char> {
    "s:"@ + k
}

/// Constructs the storage key for a string.
fn get_key(key: &str) -> (r: String)
    ensures
        r@ == skey(key@),
{
    concat("s:", key)
}

/// The reply to a value looked up under a key.
pub open spec fn value_reply(o: Option<Seq<char>>) -> RespView {
    match o {
        Some(v) => RespView::BulkString(Some(v)),
        None => RespView::Null,
    }
}

// ---------------------------------------------------------------------------
// GET
// ---------------------------------------------------------------------------

pub open spec fn get_spec(m: StoreMap, args: Seq<RespValue>) -> RespView {
    if args.len() < 1 {
        err("Wrong number of arguments for 'get'"@)
    } else {
        match arg(args, 0) {
            None => err("Invalid key"@),
            Some(k) => value_reply(lookup(m, skey(k))),
        }
    }
}

/// GET command - retrieves a string value by key.
pub fn get(db: &RocksDB, args: &[RespValue]) -> (r: RespValue)
    requires
        db.wf(),
    ensures
        r@ == get_spec(db@, args@),
{
    if args.len() < 1 {
        return RespValue::error("Wrong number of arguments for 'get'");
    }
    let key = match bulk_arg(&args[0]) {
        Some(k) => k,
        None => {
            return RespValue::error("Invalid key");
        },
    };
    match db.get(get_key(key.as_str()).as_str()) {
        Ok(Some(value)) => RespValue::BulkString(Some(value)),
        Ok(None) => RespValue::Null,
        Err(_) => RespValue::error("RocksDB error"),
    }
}

// ---------------------------------------------------------------------------
// SET
// ---------------------------------------------------------------------------

pub open spec fn set_spec(m: StoreMap, args: Seq<RespValue>) -> (StoreMap, RespView) {
    if args.len() < 2 {
        (m, err("Wrong number of arguments for 'set'"@))
    } else {
        match arg(args, 0) {
            None => (m, err("Invalid key"@)),
            Some(k) => match arg(args, 1) {
                None => (m, err("Invalid value"@)),
                Some(v) => (m.insert(skey(k), v), RespView::SimpleString("OK"@)),
            },
        }
    }
}

/// SET command - stores a string value under a key.
pub fn set(db: &mut RocksDB, args: &[RespValue]) -> (r: RespValue)
    requires
        old(db).wf(),
    ensures
        final(db).wf(),
        (final(db)@, r@) == set_spec(old(db)@, args@),
{
    if args.len() < 2 {
        return RespValue::error("Wrong number of arguments for 'set'");
    }
    let key = match bulk_arg(&args[0]) {
        Some(k) => k,
        None => {
            return RespValue::error("Invalid key");
        },
    };
    let value = match bulk_arg(&args[1]) {
        Some(v) => v,
        None => {
            return RespValue::error("Invalid value");
        },
    };
    match db.put(get_key(key.as_str()).as_str(), value.as_str()) {
        Ok(()) => RespValue::ok(),
        Err(_) => RespValue::error("RocksDB error"),
    }
}

// ---------------------------------------------------------------------------
// DEL
// ---------------------------------------------------------------------------

/// Deletes the keys named by `args[i..]` from `m`, counting those that
/// were there.
pub open spec fn del_run(m: StoreMap, args: Seq<RespValue>, i: int, n: int) -> (StoreMap, int)
    decreases args.len() - i,
{
    if i >= args.len() || i < 0 {
        (m, n)
    } else {
        match arg(args, i) {
            Some(k) => del_run(
                m.remove(skey(k)),
                args,
                i + 1,
                if m.contains_key(skey(k)) {
                    n + 1
                } else {
                    n
                },
            ),
            None => del_run(m, args, i + 1, n),
        }
    }
}

pub open spec fn del_spec(m: StoreMap, args: Seq<RespValue>) -> (StoreMap, RespView) {
    if args.len() == 0 {
        (m, err("Wrong number of arguments for 'del'"@))
    } else {
        let (m2, n) = del_run(m, args, 0, 0);
        (m2, RespView::Integer(n as i64))
    }
}

/// The key that a string command's argument `k` names.
pub open spec fn string_keys() -> spec_fn(Seq<char>) -> Set<Seq<char>> {
    |k: Seq<char>| set![skey(k)]
}

/// The key of a string command's argument `k`.
pub open spec fn string_probe() -> spec_fn(Seq<char>) -> Seq<char> {
    |k: Seq<char>| skey(k)
}

proof fn lemma_del_run(m: StoreMap, args: Seq<RespValue>, i: int, n: int)
    requires
        0 <= i <= args.len(),
    ensures
        del_run(m, args, i, n) == removal_run(m, args, i, n, string_keys(), string_probe()),
    decreases args.len() - i,
{
    if i < args.len() {
        match arg(args, i) {
            Some(k) => {
                assert(m.remove(skey(k)) =~= m.remove_keys(string_keys()(k)));
                lemma_del_run(
                    m.remove(skey(k)),
                    args,
                    i + 1,
                    if m.contains_key(skey(k)) {
                        n + 1
                    } else {
                        n
                    },
                );
            },
            None => {
                lemma_del_run(m, args, i + 1, n);
            },
        }
    }
}

/// DEL command - deletes keys; replies with the number of distinct keys
/// that were there to delete.
pub fn del(db: &mut RocksDB, args: &[RespValue]) -> (r: RespValue)
    requires
        old(db).wf(),
    ensures
        final(db).wf(),
        (final(db)@, r@) == del_spec(old(db)@, args@),
        args@.len() > 0 ==> final(db)@ == old(db)@.remove_keys(named_keys(args@, 0, string_keys()))
            && r@ == RespView::Integer(
            named_probes(args@, 0, string_probe()).intersect(old(db)@.dom()).len() as i64,
        ),
{
    if args.len() == 0 {
        return RespValue::error("Wrong number of arguments for 'del'");
    }
    proof {
        old(db).lemma_listing(Seq::empty());
    }
    let ghost m0 = db@;
    let mut deleted: usize = 0;
    let mut i: usize = 0;
    while i < args.len()
        invariant
            db.wf(),
            i <= args.len(),
            deleted <= i,
            del_run(m0, args@, 0, 0) == del_run(db@, args@, i as int, deleted as int),
        decreases args.len() - i,
    {
        match bulk_arg(&args[i]) {
            Some(key) => {
                let k = get_key(key.as_str());
                let present = match db.get(k.as_str()) {
                    Ok(Some(_)) => true,
                    _ => false,
                };
                match db.delete(k.as_str()) {
                    Ok(()) => {
                        if present {
                            deleted = deleted + 1;
                        }
                    },
                    Err(_) => {},
                }
            },
            None => {},
        }
        i = i + 1;
    }
    proof {
        lemma_del_run(m0, args@, 0, 0);
        lemma_removal_run(m0, args@, 0, 0, string_keys(), string_probe());
    }
    RespValue::Integer(deleted as i64)
}

// ---------------------------------------------------------------------------
// MGET
// ---------------------------------------------------------------------------

pub open spec fn mget_item(m: StoreMap, a: RespView) -> RespView {
    match a {
        RespView::BulkString(Some(k)) => value_reply(lookup(m, skey(k))),
        _ => RespView::Null,
    }
}

pub open spec fn mget_spec(m: StoreMap, args: Seq<RespValue>) -> RespView {
    if args.len() == 0 {
        err("Wrong number of arguments for 'mget'"@)
    } else {
        RespView::Array(Seq::new(args.len(), |i: int| mget_item(m, args[i]@)))
    }
}

/// MGET command - the values of several keys, `Null` where there is none.
pub fn mget(db: &RocksDB, args: &[RespValue]) -> (r: RespValue)
    requires
        db.wf(),
    ensures
        r@ == mget_spec(db@, args@),
{
    if args.len() == 0 {
        return RespValue::error("Wrong number of arguments for 'mget'");
    }
    let mut results: Vec<RespValue> = Vec::new();
    let mut i: usize = 0;
    assert(resp_views(results@) =~= Seq::new(0, |j: int| mget_item(db@, args@[j]@)));
    while i < args.len()
        invariant
            db.wf(),
            i <= args.len(),
            resp_views(results@) =~= Seq::new(i as nat, |j: int| mget_item(db@, args@[j]@)),
        decreases args.len() - i,
    {
        let item = match bulk_arg(&args[i]) {
            None => RespValue::Null,
            Some(key) => match db.get(get_key(key.as_str()).as_str()) {
                Ok(Some(value)) => RespValue::BulkString(Some(value)),
                Ok(None) => RespValue::Null,
                Err(_) => RespValue::Null,
            },
        };
        proof {
            lemma_resp_views_push(results@, item);
        }
        results.push(item);
        i = i + 1;
    }
    RespValue::Array(results)
}

// ---------------------------------------------------------------------------
// MSET
// ---------------------------------------------------------------------------

/// Stores the pairs `args[i..]`, stopping at the first that is no pair of
/// bulk strings.
pub open spec fn mset_run(m: StoreMap, args: Seq<RespValue>, i: int) -> (StoreMap, RespView)
    decreases args.len() - i,
{
    if i + 1 >= args.len() || i < 0 {
        (m, RespView::SimpleString("OK"@))
    } else {
        match arg(args, i) {
            None => (m, err("Invalid key"@)),
            Some(k) => match arg(args, i + 1) {
                None => (m, err("Invalid value"@)),
                Some(v) => mset_run(m.insert(skey(k), v), args, i + 2),
            },
        }
    }
}

/// The error for the first pair of `args[i..]` that is not two bulk
/// strings, if there is one.
pub open spec fn mset_check(args: Seq<RespValue>, i: int) -> Option<RespView>
    decreases args.len() - i,
{
    if i + 1 >= args.len() || i < 0 {
        None
    } else if arg(args, i) is None {
        Some(err("Invalid key"@))
    } else if arg(args, i + 1) is None {
        Some(err("Invalid value"@))
    } else {
        mset_check(args, i + 2)
    }
}

pub open spec fn mset_spec(m: StoreMap, args: Seq<RespValue>) -> (StoreMap, RespView) {
    if args.len() < 2 || args.len() % 2 != 0 {
        (m, err("Wrong number of arguments for 'mset'"@))
    } else {
        match mset_check(args, 0) {
            Some(e) => (m, e),
            None => mset_run(m, args, 0),
        }
    }
}

proof fn lemma_mset_pair_run(m: StoreMap, args: Seq<RespValue>, i: int, added: int)
    requires
        0 <= i,
        mset_check(args, i) is None,
    ensures
        mset_run(m, args, i) == (pair_run(m, string_probe(), args, i, added).0, RespView::SimpleString(
            "OK"@,
        )),
    decreases args.len() - i,
{
    if !(i + 1 >= args.len()) {
        let k = arg(args, i)->Some_0;
        lemma_mset_pair_run(
            m.insert(skey(k), arg(args, i + 1)->Some_0),
            args,
            i + 2,
            if m.contains_key(skey(k)) {
                added
            } else {
                added + 1
            },
        );
    }
}

/// MSET command - stores several key/value pairs, all of them or none: a
/// pair that is not two bulk strings is answered with an error before
/// anything is stored.  Where a key comes twice, its last value stays.
pub fn mset(db: &mut RocksDB, args: &[RespValue]) -> (r: RespValue)
    requires
        old(db).wf(),
    ensures
        final(db).wf(),
        (final(db)@, r@) == mset_spec(old(db)@, args@),
        args@.len() >= 2 && args@.len() % 2 == 0 ==> if mset_check(args@, 0) is None {
            &&& pairs_written(old(db)@, string_probe(), args@, 0, final(db)@)
            &&& r@ == RespView::SimpleString("OK"@)
        } else {
            &&& final(db)@ == old(db)@
            &&& r@ is Error
        },
{
    proof {
        if args@.len() >= 2 && args@.len() % 2 == 0 && mset_check(args@, 0) is None {
            old(db).lemma_listing(Seq::empty());
            lemma_mset_pair_run(db@, args@, 0, 0);
            lemma_pair_run(db@, string_probe(), args@, 0, 0);
        }
    }
    if args.len() < 2 || args.len() % 2 != 0 {
        return RespValue::error("Wrong number of arguments for 'mset'");
    }
    let mut j: usize = 0;
    while j < args.len()
        invariant
            db.wf(),
            *db == *old(db),
            j <= args.len(),
            j % 2 == 0,
            args.len() % 2 == 0,
            mset_check(args@, 0) == mset_check(args@, j as int),
        decreases args.len() - j,
    {
        if bulk_arg(&args[j]).is_none() {
            return RespValue::error("Invalid key");
        }
        if bulk_arg(&args[j + 1]).is_none() {
            return RespValue::error("Invalid value");
        }
        j = j + 2;
    }
    let ghost m0 = db@;
    let mut i: usize = 0;
    while i < args.len()
        invariant
            db.wf(),
            i <= args.len(),
            i % 2 == 0,
            args.len() % 2 == 0,
            m0 == old(db)@,
            mset_check(args@, i as int) is None,
            mset_run(m0, args@, 0) == mset_run(db@, args@, i as int),
        decreases args.len() - i,
    {
        let key = match bulk_arg(&args[i]) {
            Some(k) => k,
            None => {
                return RespValue::error("Invalid key");
            },
        };
        let value = match bulk_arg(&args[i + 1]) {
            Some(v) => v,
            None => {
                return RespValue::error("Invalid value");
            },
        };
        match db.put(get_key(key.as_str()).as_str(), value.as_str()) {
            Ok(()) => {},
            Err(_) => {
                return RespValue::error("RocksDB error");
            },
        }
        i = i + 2;
    }
    RespValue::ok()
}

// ---------------------------------------------------------------------------
// INCR / DECR
// ---------------------------------------------------------------------------

/// `n + 1`, for `n` below `i64::MAX`.
pub open spec fn succ_i64(n: i64) -> i64 {
    (n + 1) as i64
}

/// `n - 1`, for `n` above `i64::MIN`.
pub open spec fn pred_i64(n: i64) -> i64 {
    (n - 1) as i64
}

/// INCR (`up`) or DECR: the stored number moved by one and stored back as
/// text; a missing key counts as 0.  A step past the end of the `i64`
/// range is refused with an error, and the value is left as it was.
pub open spec fn step_spec(m: StoreMap, args: Seq<RespValue>, up: bool, name: Seq<char>) -> (
    StoreMap,
    RespView,
) {
    if args.len() < 1 {
        (m, err("Wrong number of arguments for '"@ + name + "'"@))
    } else {
        match arg(args, 0) {
            None => (m, err("Invalid key"@)),
            Some(k) => {
                let current: Option<i64> = match lookup(m, skey(k)) {
                    Some(v) => match parse_i64(v) {
                        Ok(n) => Some(n as i64),
                        Err(_) => None,
                    },
                    None => Some(0i64),
                };
                match current {
                    None => (m, err("Value is not an integer"@)),
                    Some(c) => if (up && c == i64::MAX) || (!up && c == i64::MIN) {
                        (m, err("increment or decrement would overflow"@))
                    } else {
                        let n = if up {
                            succ_i64(c)
                        } else {
                            pred_i64(c)
                        };
                        (m.insert(skey(k), int_text(n as int)), RespView::Integer(n))
                    },
                }
            },
        }
    }
}

pub open spec fn incr_spec(m: StoreMap, args: Seq<RespValue>) -> (StoreMap, RespView) {
    step_spec(m, args, true, "incr"@)
}

pub open spec fn decr_spec(m: StoreMap, args: Seq<RespValue>) -> (StoreMap, RespView) {
    step_spec(m, args, false, "decr"@)
}

fn step(db: &mut RocksDB, args: &[RespValue], up: bool, usage: &str) -> (r: RespValue)
    requires
        old(db).wf(),
        usage@ == "Wrong number of arguments for '"@ + (if up {
            "incr"@
        } else {
            "decr"@
        }) + "'"@,
    ensures
        final(db).wf(),
        (final(db)@, r@) == step_spec(
            old(db)@,
            args@,
            up,
            if up {
                "incr"@
            } else {
                "decr"@
            },
        ),
{
    if args.len() < 1 {
        return RespValue::error(usage);
    }
    let key = match bulk_arg(&args[0]) {
        Some(k) => k,
        None => {
            return RespValue::error("Invalid key");
        },
    };
    let db_key = get_key(key.as_str());
    let current: i64 = match db.get(db_key.as_str()) {
        Ok(Some(v)) => match parse_i64_str(v.as_str()) {
            Ok(n) => n,
            Err(_) => {
                return RespValue::error("Value is not an integer");
            },
        },
        Ok(None) => 0,
        Err(_) => {
            return RespValue::error("RocksDB error");
        },
    };
    if (up && current == i64::MAX) || (!up && current == i64::MIN) {
        return RespValue::error("increment or decrement would overflow");
    }
    let new_value = if up {
        current + 1
    } else {
        current - 1
    };
    assert(new_value == if up {
        succ_i64(current)
    } else {
        pred_i64(current)
    });
    let text = i64_to_string(new_value);
    match db.put(db_key.as_str(), text.as_str()) {
        Ok(()) => {},
        Err(_) => {
            return RespValue::error("RocksDB error");
        },
    }
    RespValue::Integer(new_value)
}

/// INCR command - adds one to the number stored under a key.
pub fn incr(db: &mut RocksDB, args: &[RespValue]) -> (r: RespValue)
    requires
        old(db).wf(),
    ensures
        final(db).wf(),
        (final(db)@, r@) == incr_spec(old(db)@, args@),
{
    let usage = owned("Wrong number of arguments for 'incr'");
    proof {
        reveal_strlit("Wrong number of arguments for 'incr'");
        reveal_strlit("Wrong number of arguments for '");
        reveal_strlit("incr");
        reveal_strlit("'");
        assert(usage@ =~= "Wrong number of arguments for '"@ + "incr"@ + "'"@);
    }
    step(db, args, true, usage.as_str())
}

/// DECR command - subtracts one from the number stored under a key.
pub fn decr(db: &mut RocksDB, args: &[RespValue]) -> (r: RespValue)
    requires
        old(db).wf(),
    ensures
        final(db).wf(),
        (final(db)@, r@) == decr_spec(old(db)@, args@),
{
    let usage = owned("Wrong number of arguments for 'decr'");
    proof {
        reveal_strlit("Wrong number of arguments for 'decr'");
        reveal_strlit("Wrong number of arguments for '");
        reveal_strlit("decr");
        reveal_strlit("'");
        assert(usage@ =~= "Wrong number of arguments for '"@ + "decr"@ + "'"@);
    }
    step(db, args, false, usage.as_str())
}

// ---------------------------------------------------------------------------
// EXISTS / STRLEN
// ---------------------------------------------------------------------------

/// The number of the key arguments `args[i..]` that are stored.
pub open spec fn exists_run(m: StoreMap, args: Seq<RespValue>, i: int) -> int
    decreases args.len() - i,
{
    if i >= args.len() || i < 0 {
        0
    } else {
        (match arg(args, i) {
            Some(k) => if m.contains_key(skey(k)) {
                1int
            } else {
                0int
            },
            None => 0int,
        }) + exists_run(m, args, i + 1)
    }
}

pub open spec fn exists_spec(m: StoreMap, args: Seq<RespValue>) -> RespView {
    if args.len() == 0 {
        err("Wrong number of arguments for 'exists'"@)
    } else {
        RespView::Integer(exists_run(m, args, 0) as i64)
    }
}

proof fn lemma_exists_run_bound(m: StoreMap, args: Seq<RespValue>, i: int)
    requires
        0 <= i <= args.len(),
    ensures
        0 <= exists_run(m, args, i) <= args.len() - i,
    decreases args.len() - i,
{
    if i < args.len() {
        lemma_exists_run_bound(m, args, i + 1);
    }
}

/// Whether argument `a` names a string key that holds a value in `m`.
pub open spec fn names_stored(m: StoreMap, a: RespValue) -> bool {
    match bulk_of(a@) {
        Some(k) => m.contains_key(skey(k)),
        None => false,
    }
}

proof fn lemma_exists_run(m: StoreMap, args: Seq<RespValue>, i: int)
    requires
        0 <= i <= args.len(),
    ensures
        exists_run(m, args, i) == args.subrange(i, args.len() as int).filter(
            |a: RespValue| names_stored(m, a),
        ).len(),
    decreases args.len() - i,
{
    if i < args.len() {
        lemma_filter_step(args, i, |a: RespValue| names_stored(m, a));
        lemma_exists_run(m, args, i + 1);
    } else {
        reveal_with_fuel(Seq::filter, 1);
        assert(args.subrange(i, i) =~= Seq::<RespValue>::empty());
    }
}

/// EXISTS command - counts the key arguments that hold a value.
pub fn exists_count(db: &RocksDB, args: &[RespValue]) -> (r: RespValue)
    requires
        db.wf(),
    ensures
        r@ == exists_spec(db@, args@),
        args@.len() > 0 ==> r@ == RespView::Integer(
            args@.filter(|a: RespValue| names_stored(db@, a)).len() as i64,
        ),
{
    if args.len() == 0 {
        return RespValue::error("Wrong number of arguments for 'exists'");
    }
    let mut count: usize = 0;
    let mut i: usize = 0;
    while i < args.len()
        invariant
            db.wf(),
            i <= args.len(),
            count <= i,
            exists_run(db@, args@, 0) == count + exists_run(db@, args@, i as int),
        decreases args.len() - i,
    {
        match bulk_arg(&args[i]) {
            Some(key) => match db.get(get_key(key.as_str()).as_str()) {
                Ok(Some(_)) => {
                    count = count + 1;
                },
                _ => {},
            },
            None => {},
        }
        i = i + 1;
    }
    proof {
        lemma_exists_run(db@, args@, 0);
        assert(args@.subrange(0, args@.len() as int) =~= args@);
    }
    RespValue::Integer(count as i64)
}

pub open spec fn strlen_spec(m: StoreMap, args: Seq<RespValue>) -> RespView {
    if args.len() < 1 {
        err("Wrong number of arguments for 'strlen'"@)
    } else {
        match arg(args, 0) {
            None => err("Invalid key"@),
            Some(k) => match lookup(m, skey(k)) {
                Some(v) => RespView::Integer(utf8_len(v) as i64),
                None => RespView::Integer(0),
            },
        }
    }
}

/// STRLEN command - the length in bytes of the value stored under a key.
pub fn strlen(db: &RocksDB, args: &[RespValue]) -> (r: RespValue)
    requires
        db.wf(),
    ensures
        r@ == strlen_spec(db@, args@),
{
    if args.len() < 1 {
        return RespValue::error("Wrong number of arguments for 'strlen'");
    }
    let key = match bulk_arg(&args[0]) {
        Some(k) => k,
        None => {
            return RespValue::error("Invalid key");
        },
    };
    match db.get(get_key(key.as_str()).as_str()) {
        Ok(Some(value)) => RespValue::Integer(value.as_str().as_bytes().len() as i64),
        Ok(None) => RespValue::Integer(0),
        Err(_) => RespValue::error("RocksDB error"),
    }
}

} // verus!
