//! Hash command implementations.
//!
//! Supported commands: HSET, HGET, HGETALL, HDEL, HLEN
//!
//! A hash `k` keeps field `f` under `h:k:f:f` and its field count under
//! `h:k:count`.

use vstd::prelude::*;
use crate::commands::args::{
    arg, bulk_arg, concat, concat3, err, i64_or_zero, lemma_pair_run, lemma_removal_run, middle,
    named_keys, named_probes, pair_keys, pair_run, pairs_written, read_count, read_i64, removal_run,
    strip_both, usize_or_zero,
};
use crate::commands::string::value_reply;
use crate::db::rocksdb::{keys_with, lookup, sorted_seq, RocksDB, StoreMap};
use crate::server::protocol::{lemma_resp_views_push, resp_views, RespValue, RespView};
use crate::text::{chars_of, nat_text, usize_to_string};

verus! {

/// `h:` then `k`.
pub open spec fn hkey(k: Seq<char>) -> Seq<char> {
    "h:"@ + k
}

/// Where field `f` of hash `k` is stored.
pub open spec fn hfield(k: Seq<char>, f: Seq<char>) -> Seq<char> {
    hkey(k) + ":"@ + f + ":f"@
}

/// Where the field count of hash `k` is stored.
pub open spec fn hcount(k: Seq<char>) -> Seq<char> {
    hkey(k) + ":count"@
}

fn get_key(key: &str) -> (r: String)
    ensures
        r@ == hkey(key@),
{
    concat("h:", key)
}

fn get_field_key(key: &str, field: &str) -> (r: String)
    ensures
        r@ == hfield(key@, field@),
{
    let k = get_key(key);
    let r = concat3(k.as_str(), ":", field);
    let t = concat(r.as_str(), ":f");
    t
}

fn get_count_key(key: &str) -> (r: String)
    ensures
        r@ == hcount(key@),
{
    let k = get_key(key);
    concat(k.as_str(), ":count")
}

/// `a + b` in the release build's wrapping `usize` arithmetic.
pub open spec fn wrap_add(a: int, b: int) -> usize {
    vstd::wrapping::usize_specs::wrapping_add(a as usize, b as usize)
}

// ---------------------------------------------------------------------------
// HSET
// ---------------------------------------------------------------------------

/// Stores the field/value pairs of `args[i..]` (skipping pairs that are not
/// both bulk strings), counting the fields that were new.
pub open spec fn hset_run(m: StoreMap, k: Seq<char>, args: Seq<RespValue>, i: int, added: int) -> (
    StoreMap,
    int,
)
    decreases args.len() - i,
{
    if i + 1 >= args.len() || i < 0 {
        (m, added)
    } else {
        match (arg(args, i), arg(args, i + 1)) {
            (Some(f), Some(v)) => hset_run(
                m.insert(hfield(k, f), v),
                k,
                args,
                i + 2,
                if m.contains_key(hfield(k, f)) {
                    added
                } else {
                    added + 1
                },
            ),
            _ => hset_run(m, k, args, i + 2, added),
        }
    }
}

pub open spec fn hset_spec(m: StoreMap, args: Seq<RespValue>) -> (StoreMap, RespView) {
    if args.len() < 3 || args.len() % 2 != 1 {
        (m, err("Wrong number of arguments for 'hset'"@))
    } else {
        match arg(args, 0) {
            None => (m, err("Invalid key"@)),
            Some(k) => {
                let count = usize_or_zero(lookup(m, hcount(k)));
                let (m2, added) = hset_run(m, k, args, 1, 0);
                (
                    m2.insert(hcount(k), nat_text(wrap_add(count, added) as nat)),
                    RespView::Integer(added as i64),
                )
            },
        }
    }
}

/// The key that holds field `f` of hash `k`.
pub open spec fn hash_field_key(k: Seq<char>) -> spec_fn(Seq<char>) -> Seq<char> {
    |f: Seq<char>| hfield(k, f)
}

proof fn lemma_hset_pair_run(m: StoreMap, k: Seq<char>, args: Seq<RespValue>, i: int, added: int)
    ensures
        hset_run(m, k, args, i, added) == pair_run(m, hash_field_key(k), args, i, added),
    decreases args.len() - i,
{
    if !(i + 1 >= args.len() || i < 0) {
        match (arg(args, i), arg(args, i + 1)) {
            (Some(f), Some(v)) => {
                lemma_hset_pair_run(
                    m.insert(hfield(k, f), v),
                    k,
                    args,
                    i + 2,
                    if m.contains_key(hfield(k, f)) {
                        added
                    } else {
                        added + 1
                    },
                );
            },
            _ => {
                lemma_hset_pair_run(m, k, args, i + 2, added);
            },
        }
    }
}

/// HSET command - sets fields of a hash; replies with the number of fields
/// that were new.
pub fn hset(db: &mut RocksDB, args: &[RespValue]) -> (r: RespValue)
    requires
        old(db).wf(),
    ensures
        final(db).wf(),
        (final(db)@, r@) == hset_spec(old(db)@, args@),
        args@.len() >= 3 && args@.len() % 2 == 1 && arg(args@, 0) is Some ==> ({
            let k = arg(args@, 0)->Some_0;
            let f = pair_keys(args@, 1, hash_field_key(k));
            let added = f.difference(old(db)@.dom()).len();
            let count = usize_or_zero(lookup(old(db)@, hcount(k)));
            &&& exists|w: StoreMap|
                pairs_written(old(db)@, hash_field_key(k), args@, 1, w) && final(db)@ == w.insert(
                    hcount(k),
                    nat_text(wrap_add(count, added as int) as nat),
                )
            &&& r@ == RespView::Integer(added as i64)
        }),
{
    proof {
        if args@.len() >= 3 && args@.len() % 2 == 1 && arg(args@, 0) is Some {
            old(db).lemma_listing(Seq::empty());
            lemma_hset_pair_run(db@, arg(args@, 0)->Some_0, args@, 1, 0);
            lemma_pair_run(db@, hash_field_key(arg(args@, 0)->Some_0), args@, 1, 0);
        }
    }
    if args.len() < 3 || args.len() % 2 != 1 {
        return RespValue::error("Wrong number of arguments for 'hset'");
    }
    let key = match bulk_arg(&args[0]) {
        Some(k) => k,
        None => {
            return RespValue::error("Invalid key");
        },
    };
    let count_key = get_count_key(key.as_str());
    let current_count = read_count(db, count_key.as_str());
    let ghost m0 = db@;
    let mut added: usize = 0;
    let mut i: usize = 1;
    while i < args.len() - 1
        invariant
            db.wf(),
            1 <= i <= args.len(),
            args.len() >= 3,
            added <= i,
            hset_run(m0, key@, args@, 1, 0) == hset_run(db@, key@, args@, i as int, added as int),
        decreases args.len() - i,
    {
        let field = match bulk_arg(&args[i]) {
            Some(f) => f,
            None => {
                i = i + 2;
                continue;
            },
        };
        let value = match bulk_arg(&args[i + 1]) {
            Some(v) => v,
            None => {
                i = i + 2;
                continue;
            },
        };
        let field_key = get_field_key(key.as_str(), field.as_str());
        let is_new = match db.get(field_key.as_str()) {
            Ok(None) => true,
            _ => false,
        };
        match db.put(field_key.as_str(), value.as_str()) {
            Ok(()) => {
                if is_new {
                    added = added + 1;
                }
            },
            Err(_) => {},
        }
        i = i + 2;
    }
    let new_count = current_count.wrapping_add(added);
    let text = usize_to_string(new_count);
    let _ = db.put(count_key.as_str(), text.as_str());
    RespValue::Integer(added as i64)
}

// ---------------------------------------------------------------------------
// HGET
// ---------------------------------------------------------------------------

pub open spec fn hget_spec(m: StoreMap, args: Seq<RespValue>) -> RespView {
    if args.len() < 2 {
        err("Wrong number of arguments for 'hget'"@)
    } else {
        match arg(args, 0) {
            None => err("Invalid key"@),
            Some(k) => match arg(args, 1) {
                None => err("Invalid field"@),
                Some(f) => value_reply(lookup(m, hfield(k, f))),
            },
        }
    }
}

/// HGET command - the value of one field of a hash.
pub fn hget(db: &RocksDB, args: &[RespValue]) -> (r: RespValue)
    requires
        db.wf(),
    ensures
        r@ == hget_spec(db@, args@),
{
    if args.len() < 2 {
        return RespValue::error("Wrong number of arguments for 'hget'");
    }
    let key = match bulk_arg(&args[0]) {
        Some(k) => k,
        None => {
            return RespValue::error("Invalid key");
        },
    };
    let field = match bulk_arg(&args[1]) {
        Some(f) => f,
        None => {
            return RespValue::error("Invalid field");
        },
    };
    let field_key = get_field_key(key.as_str(), field.as_str());
    match db.get(field_key.as_str()) {
        Ok(Some(v)) => RespValue::BulkString(Some(v)),
        Ok(None) => RespValue::Null,
        Err(_) => RespValue::error("RocksDB error"),
    }
}

// ---------------------------------------------------------------------------
// HGETALL
// ---------------------------------------------------------------------------

/// The field and value for one scanned key, if it is a field key of `k`.
pub open spec fn hgetall_item(m: StoreMap, k: Seq<char>, scanned: Seq<char>) -> Seq<RespView> {
    match middle(scanned, hkey(k) + ":"@, ":f"@) {
        Some(f) => match lookup(m, hfield(k, f)) {
            Some(v) => seq![RespView::BulkString(Some(f)), RespView::BulkString(Some(v))],
            None => Seq::empty(),
        },
        None => Seq::empty(),
    }
}

/// The fields and values for the scanned keys `ks[i..]`, after `acc`.
pub open spec fn hgetall_run(
    m: StoreMap,
    k: Seq<char>,
    ks: Seq<Seq<char>>,
    i: int,
    acc: Seq<RespView>,
) -> Seq<RespView>
    decreases ks.len() - i,
{
    if i >= ks.len() || i < 0 {
        acc
    } else {
        hgetall_run(m, k, ks, i + 1, acc + hgetall_item(m, k, ks[i]))
    }
}

pub open spec fn hgetall_spec(m: StoreMap, args: Seq<RespValue>) -> RespView {
    if args.len() < 1 {
        err("Wrong number of arguments for 'hgetall'"@)
    } else {
        match arg(args, 0) {
            None => err("Invalid key"@),
            Some(k) => RespView::Array(
                hgetall_run(m, k, sorted_seq(keys_with(m, hkey(k))), 0, Seq::empty()),
            ),
        }
    }
}

/// HGETALL command - all fields of a hash with their values, in key order.
pub fn hgetall(db: &RocksDB, args: &[RespValue]) -> (r: RespValue)
    requires
        db.wf(),
    ensures
        r@ == hgetall_spec(db@, args@),
{
    if args.len() < 1 {
        return RespValue::error("Wrong number of arguments for 'hgetall'");
    }
    let key = match bulk_arg(&args[0]) {
        Some(k) => k,
        None => {
            return RespValue::error("Invalid key");
        },
    };
    let hash_prefix = get_key(key.as_str());
    let keys = match db.keys_with_prefix(hash_prefix.as_str()) {
        Ok(keys) => keys,
        Err(_) => {
            return RespValue::error("RocksDB error");
        },
    };
    let ghost ks = keys@.map_values(|s: String| s@);
    let p = chars_of(concat(hash_prefix.as_str(), ":").as_str());
    let x = chars_of(":f");
    let mut results: Vec<RespValue> = Vec::new();
    let mut i: usize = 0;
    assert(resp_views(results@) =~= Seq::<RespView>::empty());
    while i < keys.len()
        invariant
            db.wf(),
            i <= keys.len(),
            ks == keys@.map_values(|s: String| s@),
            p@ == hkey(key@) + ":"@,
            x@ == ":f"@,
            hgetall_run(db@, key@, ks, 0, Seq::empty()) == hgetall_run(
                db@,
                key@,
                ks,
                i as int,
                resp_views(results@),
            ),
        decreases keys.len() - i,
    {
        let ghost before = resp_views(results@);
        match strip_both(&keys[i], &p, &x) {
            Some(field) => {
                let field_key = get_field_key(key.as_str(), field.as_str());
                match db.get(field_key.as_str()) {
                    Ok(Some(value)) => {
                        let a = RespValue::BulkString(Some(field));
                        let b = RespValue::BulkString(Some(value));
                        proof {
                            lemma_resp_views_push(results@, a);
                            lemma_resp_views_push(results@.push(a), b);
                        }
                        results.push(a);
                        results.push(b);
                    },
                    _ => {},
                }
            },
            None => {},
        }
        assert(resp_views(results@) =~= before + hgetall_item(db@, key@, ks[i as int]));
        i = i + 1;
    }
    RespValue::Array(results)
}

// ---------------------------------------------------------------------------
// HDEL / HLEN
// ---------------------------------------------------------------------------

/// Deletes the fields named by `args[i..]`, counting those that were there.
pub open spec fn hdel_run(m: StoreMap, k: Seq<char>, args: Seq<RespValue>, i: int, n: int) -> (
    StoreMap,
    int,
)
    decreases args.len() - i,
{
    if i >= args.len() || i < 0 {
        (m, n)
    } else {
        match arg(args, i) {
            Some(x) => hdel_run(
                m.remove(hfield(k, x)),
                k,
                args,
                i + 1,
                if m.contains_key(hfield(k, x)) {
                    n + 1
                } else {
                    n
                },
            ),
            None => hdel_run(m, k, args, i + 1, n),
        }
    }
}

pub open spec fn hdel_spec(m: StoreMap, args: Seq<RespValue>) -> (StoreMap, RespView) {
    if args.len() < 2 {
        (m, err("Wrong number of arguments for 'hdel'"@))
    } else {
        match arg(args, 0) {
            None => (m, err("Invalid key"@)),
            Some(k) => {
                let count = usize_or_zero(lookup(m, hcount(k)));
                let (m2, n) = hdel_run(m, k, args, 1, 0);
                let left = if count >= n {
                    count - n
                } else {
                    0
                };
                (m2.insert(hcount(k), nat_text(left as nat)), RespView::Integer(n as i64))
            },
        }
    }
}

/// The key that holds field `x` of hash `k`.
pub open spec fn hash_field_keys(k: Seq<char>) -> spec_fn(Seq<char>) -> Set<Seq<char>> {
    |x: Seq<char>| set![hfield(k, x)]
}

/// The key of field `x` of hash `k`, whose presence HDEL counts.
pub open spec fn hash_field_probe(k: Seq<char>) -> spec_fn(Seq<char>) -> Seq<char> {
    |x: Seq<char>| hfield(k, x)
}

proof fn lemma_hdel_run(m: StoreMap, k: Seq<char>, args: Seq<RespValue>, i: int, n: int)
    requires
        0 <= i <= args.len(),
    ensures
        hdel_run(m, k, args, i, n) == removal_run(m, args, i, n, hash_field_keys(k), hash_field_probe(k)),
    decreases args.len() - i,
{
    if i < args.len() {
        match arg(args, i) {
            Some(x) => {
                assert(hash_field_keys(k)(x) == set![hfield(k, x)]);
                lemma_hdel_run(
                    m.remove(hfield(k, x)),
                    k,
                    args,
                    i + 1,
                    if m.contains_key(hfield(k, x)) {
                        n + 1
                    } else {
                        n
                    },
                );
                assert(m.remove(hfield(k, x)) =~= m.remove_keys(hash_field_keys(k)(x)));
            },
            None => {
                lemma_hdel_run(m, k, args, i + 1, n);
            },
        }
    }
}

/// HDEL command - removes fields of a hash; replies with the number of
/// distinct fields that were there, and lowers the stored field count by it.
pub fn hdel(db: &mut RocksDB, args: &[RespValue]) -> (r: RespValue)
    requires
        old(db).wf(),
    ensures
        final(db).wf(),
        (final(db)@, r@) == hdel_spec(old(db)@, args@),
        args@.len() >= 2 && arg(args@, 0) is Some ==> ({
            let k = arg(args@, 0)->Some_0;
            let n = named_probes(args@, 1, hash_field_probe(k)).intersect(old(db)@.dom()).len();
            let count = usize_or_zero(lookup(old(db)@, hcount(k)));
            &&& final(db)@ == old(db)@.remove_keys(named_keys(args@, 1, hash_field_keys(k))).insert(
                hcount(k),
                nat_text((if count >= n { count - n } else { 0 }) as nat),
            )
            &&& r@ == RespView::Integer(n as i64)
        }),
{
    proof {
        if args@.len() >= 2 && arg(args@, 0) is Some {
            lemma_hdel_run(db@, arg(args@, 0)->Some_0, args@, 1, 0);
            old(db).lemma_listing(Seq::empty());
            lemma_removal_run(
                db@,
                args@,
                1,
                0,
                hash_field_keys(arg(args@, 0)->Some_0),
                hash_field_probe(arg(args@, 0)->Some_0),
            );
        }
    }
    if args.len() < 2 {
        return RespValue::error("Wrong number of arguments for 'hdel'");
    }
    let key = match bulk_arg(&args[0]) {
        Some(k) => k,
        None => {
            return RespValue::error("Invalid key");
        },
    };
    let count_key = get_count_key(key.as_str());
    let current_count = read_count(db, count_key.as_str());
    let ghost m0 = db@;
    let mut deleted: usize = 0;
    let mut i: usize = 1;
    while i < args.len()
        invariant
            db.wf(),
            1 <= i <= args.len(),
            deleted <= i,
            hdel_run(m0, key@, args@, 1, 0) == hdel_run(db@, key@, args@, i as int, deleted as int),
        decreases args.len() - i,
    {
        match bulk_arg(&args[i]) {
            Some(field) => {
                let field_key = get_field_key(key.as_str(), field.as_str());
                let present = match db.get(field_key.as_str()) {
                    Ok(Some(_)) => true,
                    _ => false,
                };
                match db.delete(field_key.as_str()) {
                    Ok(()) => {
                        if present {
                            deleted = deleted + 1;
                        }
                    },
                    Err(_) => {},
                }
            },
            None => {},
        }
        i = i + 1;
    }
    let new_count = current_count.saturating_sub(deleted);
    let text = usize_to_string(new_count);
    let _ = db.put(count_key.as_str(), text.as_str());
    RespValue::Integer(deleted as i64)
}

pub open spec fn hlen_spec(m: StoreMap, args: Seq<RespValue>) -> RespView {
    if args.len() < 1 {
        err("Wrong number of arguments for 'hlen'"@)
    } else {
        match arg(args, 0) {
            None => err("Invalid key"@),
            Some(k) => RespView::Integer(i64_or_zero(lookup(m, hcount(k)))),
        }
    }
}

/// HLEN command - the stored field count of a hash.
pub fn hlen(db: &RocksDB, args: &[RespValue]) -> (r: RespValue)
    requires
        db.wf(),
    ensures
        r@ == hlen_spec(db@, args@),
{
    if args.len() < 1 {
        return RespValue::error("Wrong number of arguments for 'hlen'");
    }
    let key = match bulk_arg(&args[0]) {
        Some(k) => k,
        None => {
            return RespValue::error("Invalid key");
        },
    };
    let count_key = get_count_key(key.as_str());
    RespValue::Integer(read_i64(db, count_key.as_str()))
}

} // verus!
