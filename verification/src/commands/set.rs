//! Set command implementations.
//!
//! Supported commands: SADD, SREM, SMEMBERS, SISMEMBER, SCARD
//!
//! A set `k` marks member `x` with the key `set:k:x:m` and keeps its member
//! count under `set:k:count`.

use vstd::prelude::*;
use crate::commands::args::{
    arg, bulk_arg, named_probes, concat, concat3, err, i64_or_zero, lemma_named_keys_finite, lemma_removal_run, middle,
    named_keys, read_count, read_i64, removal_run, strip_both, usize_or_zero,
};
use crate::commands::hash::wrap_add;
use crate::db::rocksdb::{keys_with, lookup, sorted_seq, RocksDB, StoreMap};
use crate::server::protocol::{lemma_resp_views_push, resp_views, RespValue, RespView};
use crate::text::{chars_of, nat_text, usize_to_string};

verus! {

/// `set:` then `k`.
pub open spec fn setkey(k: Seq<char>) -> Seq<char> {
    "set:"@ + k
}

/// The key that marks `x` as a member of set `k`.
pub open spec fn member_key(k: Seq<char>, x: Seq<char>) -> Seq<char> {
    setkey(k) + ":"@ + x + ":m"@
}

/// Where the member count of set `k` is stored.
pub open spec fn set_count_key(k: Seq<char>) -> Seq<char> {
    setkey(k) + ":count"@
}

fn get_key(key: &str) -> (r: String)
    ensures
        r@ == setkey(key@),
{
    concat("set:", key)
}

fn get_member_key(key: &str, member: &str) -> (r: String)
    ensures
        r@ == member_key(key@, member@),
{
    let k = get_key(key);
    let r = concat3(k.as_str(), ":", member);
    concat(r.as_str(), ":m")
}

fn get_count_key(key: &str) -> (r: String)
    ensures
        r@ == set_count_key(key@),
{
    let k = get_key(key);
    concat(k.as_str(), ":count")
}

// ---------------------------------------------------------------------------
// SADD
// ---------------------------------------------------------------------------

/// Marks the members named by `args[i..]`, counting those that were new.
pub open spec fn sadd_run(m: StoreMap, k: Seq<char>, args: Seq<RespValue>, i: int, added: int) -> (
    StoreMap,
    int,
)
    decreases args.len() - i,
{
    if i >= args.len() || i < 0 {
        (m, added)
    } else {
        match arg(args, i) {
            Some(x) => if m.contains_key(member_key(k, x)) {
                sadd_run(m, k, args, i + 1, added)
            } else {
                sadd_run(m.insert(member_key(k, x), "1"@), k, args, i + 1, added + 1)
            },
            None => sadd_run(m, k, args, i + 1, added),
        }
    }
}

pub open spec fn sadd_spec(m: StoreMap, args: Seq<RespValue>) -> (StoreMap, RespView) {
    if args.len() < 2 {
        (m, err("Wrong number of arguments for 'sadd'"@))
    } else {
        match arg(args, 0) {
            None => (m, err("Invalid key"@)),
            Some(k) => {
                let count = usize_or_zero(lookup(m, set_count_key(k)));
                let (m2, added) = sadd_run(m, k, args, 1, 0);
                (
                    m2.insert(set_count_key(k), nat_text(wrap_add(count, added) as nat)),
                    RespView::Integer(added as i64),
                )
            },
        }
    }
}

/// `m` with each of the keys `ks` that it lacks added, holding `v`.
pub open spec fn with_new_keys(m: StoreMap, ks: Set<Seq<char>>, v: Seq<char>) -> StoreMap {
    Map::new(
        |q: Seq<char>| m.contains_key(q) || ks.contains(q),
        |q: Seq<char>|
            if m.contains_key(q) {
                m[q]
            } else {
                v
            },
    )
}

proof fn lemma_sadd_run(m: StoreMap, k: Seq<char>, args: Seq<RespValue>, i: int, added: int)
    requires
        0 <= i <= args.len(),
        m.dom().finite(),
    ensures
        ({
            let n = named_keys(args, i, set_member_keys(k));
            sadd_run(m, k, args, i, added) == (
                with_new_keys(m, n, "1"@),
                added + n.difference(m.dom()).len(),
            )
        }),
    decreases args.len() - i,
{
    let n = named_keys(args, i, set_member_keys(k));
    assert forall|t: Seq<char>| #[trigger] set_member_keys(k)(t).finite() by {
        assert(set_member_keys(k)(t) == Set::<Seq<char>>::empty().insert(member_key(k, t)));
    }
    lemma_named_keys_finite(args, i, set_member_keys(k));
    vstd::set::axiom_set_difference_finite(n, m.dom());
    if i == args.len() {
        assert(n =~= Set::<Seq<char>>::empty());
        assert(with_new_keys(m, n, "1"@) =~= m);
        assert(n.difference(m.dom()) =~= Set::<Seq<char>>::empty());
    } else {
        let n1 = named_keys(args, i + 1, set_member_keys(k));
        match arg(args, i) {
            Some(x) => {
                let q = member_key(k, x);
                assert(n =~= set_member_keys(k)(x).union(n1));
                if m.contains_key(q) {
                    lemma_sadd_run(m, k, args, i + 1, added);
                    assert(with_new_keys(m, n1, "1"@) =~= with_new_keys(m, n, "1"@));
                    assert(n1.difference(m.dom()) =~= n.difference(m.dom()));
                } else {
                    let m1 = m.insert(q, "1"@);
                    lemma_sadd_run(m1, k, args, i + 1, added + 1);
                    assert(with_new_keys(m1, n1, "1"@) =~= with_new_keys(m, n, "1"@));
                    assert(n1.difference(m1.dom()) =~= n.difference(m.dom()).remove(q));
                    vstd::set::axiom_set_remove_len(n.difference(m.dom()), q);
                }
            },
            None => {
                lemma_sadd_run(m, k, args, i + 1, added);
                assert(n =~= n1);
            },
        }
    }
}

/// SADD command - adds members to a set; replies with the number of
/// members that were new.
pub fn sadd(db: &mut RocksDB, args: &[RespValue]) -> (r: RespValue)
    requires
        old(db).wf(),
    ensures
        final(db).wf(),
        (final(db)@, r@) == sadd_spec(old(db)@, args@),
        args@.len() >= 2 && arg(args@, 0) is Some ==> ({
            let k = arg(args@, 0)->Some_0;
            let n = named_keys(args@, 1, set_member_keys(k));
            let added = n.difference(old(db)@.dom()).len();
            let count = usize_or_zero(lookup(old(db)@, set_count_key(k)));
            &&& final(db)@ == with_new_keys(old(db)@, n, "1"@).insert(
                set_count_key(k),
                nat_text(wrap_add(count, added as int) as nat),
            )
            &&& r@ == RespView::Integer(added as i64)
        }),
{
    proof {
        if args@.len() >= 2 && arg(args@, 0) is Some {
            old(db).lemma_listing(Seq::empty());
            lemma_sadd_run(db@, arg(args@, 0)->Some_0, args@, 1, 0);
        }
    }
    if args.len() < 2 {
        return RespValue::error("Wrong number of arguments for 'sadd'");
    }
    let key = match bulk_arg(&args[0]) {
        Some(k) => k,
        None => {
            return RespValue::error("Invalid key");
        },
    };
    let count_key = get_count_key(key.as_str());
    let current_count = read_count(db, count_key.as_str());
    let ghost m0 = db@;
    let mut added: usize = 0;
    let mut i: usize = 1;
    while i < args.len()
        invariant
            db.wf(),
            1 <= i <= args.len(),
            added <= i,
            sadd_run(m0, key@, args@, 1, 0) == sadd_run(db@, key@, args@, i as int, added as int),
        decreases args.len() - i,
    {
        match bulk_arg(&args[i]) {
            Some(member) => {
                let mk = get_member_key(key.as_str(), member.as_str());
                let present = match db.get(mk.as_str()) {
                    Ok(Some(_)) => true,
                    _ => false,
                };
                if !present {
                    match db.put(mk.as_str(), "1") {
                        Ok(()) => {
                            added = added + 1;
                        },
                        Err(_) => {},
                    }
                }
            },
            None => {},
        }
        i = i + 1;
    }
    let new_count = current_count.wrapping_add(added);
    let text = usize_to_string(new_count);
    let _ = db.put(count_key.as_str(), text.as_str());
    RespValue::Integer(added as i64)
}

// ---------------------------------------------------------------------------
// SREM
// ---------------------------------------------------------------------------

/// Unmarks the members named by `args[i..]`, counting those that were there.
pub open spec fn srem_run(m: StoreMap, k: Seq<char>, args: Seq<RespValue>, i: int, n: int) -> (
    StoreMap,
    int,
)
    decreases args.len() - i,
{
    if i >= args.len() || i < 0 {
        (m, n)
    } else {
        match arg(args, i) {
            Some(x) => srem_run(
                m.remove(member_key(k, x)),
                k,
                args,
                i + 1,
                if m.contains_key(member_key(k, x)) {
                    n + 1
                } else {
                    n
                },
            ),
            None => srem_run(m, k, args, i + 1, n),
        }
    }
}

pub open spec fn srem_spec(m: StoreMap, args: Seq<RespValue>) -> (StoreMap, RespView) {
    if args.len() < 2 {
        (m, err("Wrong number of arguments for 'srem'"@))
    } else {
        match arg(args, 0) {
            None => (m, err("Invalid key"@)),
            Some(k) => {
                let count = usize_or_zero(lookup(m, set_count_key(k)));
                let (m2, n) = srem_run(m, k, args, 1, 0);
                let left = if count >= n {
                    count - n
                } else {
                    0
                };
                (m2.insert(set_count_key(k), nat_text(left as nat)), RespView::Integer(n as i64))
            },
        }
    }
}

/// The key that marks member `x` of set `k`.
pub open spec fn set_member_keys(k: Seq<char>) -> spec_fn(Seq<char>) -> Set<Seq<char>> {
    |x: Seq<char>| set![member_key(k, x)]
}

/// The key that marks member `x` of set `k`, whose presence SREM counts.
pub open spec fn set_member_probe(k: Seq<char>) -> spec_fn(Seq<char>) -> Seq<char> {
    |x: Seq<char>| member_key(k, x)
}

proof fn lemma_srem_run(m: StoreMap, k: Seq<char>, args: Seq<RespValue>, i: int, n: int)
    requires
        0 <= i <= args.len(),
    ensures
        srem_run(m, k, args, i, n) == removal_run(m, args, i, n, set_member_keys(k), set_member_probe(k)),
    decreases args.len() - i,
{
    if i < args.len() {
        match arg(args, i) {
            Some(x) => {
                assert(set_member_keys(k)(x) == set![member_key(k, x)]);
                lemma_srem_run(
                    m.remove(member_key(k, x)),
                    k,
                    args,
                    i + 1,
                    if m.contains_key(member_key(k, x)) {
                        n + 1
                    } else {
                        n
                    },
                );
                assert(m.remove(member_key(k, x)) =~= m.remove_keys(set_member_keys(k)(x)));
            },
            None => {
                lemma_srem_run(m, k, args, i + 1, n);
            },
        }
    }
}

/// SREM command - removes members from a set; replies with the number of
/// distinct members that were there, and lowers the stored count by it.
pub fn srem(db: &mut RocksDB, args: &[RespValue]) -> (r: RespValue)
    requires
        old(db).wf(),
    ensures
        final(db).wf(),
        (final(db)@, r@) == srem_spec(old(db)@, args@),
        args@.len() >= 2 && arg(args@, 0) is Some ==> ({
            let k = arg(args@, 0)->Some_0;
            let n = named_probes(args@, 1, set_member_probe(k)).intersect(old(db)@.dom()).len();
            let count = usize_or_zero(lookup(old(db)@, set_count_key(k)));
            &&& final(db)@ == old(db)@.remove_keys(named_keys(args@, 1, set_member_keys(k))).insert(
                set_count_key(k),
                nat_text((if count >= n { count - n } else { 0 }) as nat),
            )
            &&& r@ == RespView::Integer(n as i64)
        }),
{
    proof {
        if args@.len() >= 2 && arg(args@, 0) is Some {
            lemma_srem_run(db@, arg(args@, 0)->Some_0, args@, 1, 0);
            old(db).lemma_listing(Seq::empty());
            lemma_removal_run(
                db@,
                args@,
                1,
                0,
                set_member_keys(arg(args@, 0)->Some_0),
                set_member_probe(arg(args@, 0)->Some_0),
            );
        }
    }
    if args.len() < 2 {
        return RespValue::error("Wrong number of arguments for 'srem'");
    }
    let key = match bulk_arg(&args[0]) {
        Some(k) => k,
        None => {
            return RespValue::error("Invalid key");
        },
    };
    let count_key = get_count_key(key.as_str());
    let current_count = read_count(db, count_key.as_str());
    let ghost m0 = db@;
    let mut removed: usize = 0;
    let mut i: usize = 1;
    while i < args.len()
        invariant
            db.wf(),
            1 <= i <= args.len(),
            removed <= i,
            srem_run(m0, key@, args@, 1, 0) == srem_run(db@, key@, args@, i as int, removed as int),
        decreases args.len() - i,
    {
        match bulk_arg(&args[i]) {
            Some(member) => {
                let mk = get_member_key(key.as_str(), member.as_str());
                let present = match db.get(mk.as_str()) {
                    Ok(Some(_)) => true,
                    _ => false,
                };
                match db.delete(mk.as_str()) {
                    Ok(()) => {
                        if present {
                            removed = removed + 1;
                        }
                    },
                    Err(_) => {},
                }
            },
            None => {},
        }
        i = i + 1;
    }
    let new_count = current_count.saturating_sub(removed);
    let text = usize_to_string(new_count);
    let _ = db.put(count_key.as_str(), text.as_str());
    RespValue::Integer(removed as i64)
}

// ---------------------------------------------------------------------------
// SMEMBERS
// ---------------------------------------------------------------------------

/// The member named by one scanned key, if it is a member key of `k`.
pub open spec fn smembers_item(k: Seq<char>, scanned: Seq<char>) -> Seq<RespView> {
    match middle(scanned, setkey(k) + ":"@, ":m"@) {
        Some(x) => seq![RespView::BulkString(Some(x))],
        None => Seq::empty(),
    }
}

/// The members named by the scanned keys `ks[i..]`, after `acc`.
pub open spec fn smembers_run(k: Seq<char>, ks: Seq<Seq<char>>, i: int, acc: Seq<RespView>) -> Seq<
    RespView,
>
    decreases ks.len() - i,
{
    if i >= ks.len() || i < 0 {
        acc
    } else {
        smembers_run(k, ks, i + 1, acc + smembers_item(k, ks[i]))
    }
}

pub open spec fn smembers_spec(m: StoreMap, args: Seq<RespValue>) -> RespView {
    if args.len() < 1 {
        err("Wrong number of arguments for 'smembers'"@)
    } else {
        match arg(args, 0) {
            None => err("Invalid key"@),
            Some(k) => RespView::Array(
                smembers_run(k, sorted_seq(keys_with(m, setkey(k))), 0, Seq::empty()),
            ),
        }
    }
}

/// SMEMBERS command - the members of a set, in key order.
pub fn smembers(db: &RocksDB, args: &[RespValue]) -> (r: RespValue)
    requires
        db.wf(),
    ensures
        r@ == smembers_spec(db@, args@),
{
    if args.len() < 1 {
        return RespValue::error("Wrong number of arguments for 'smembers'");
    }
    let key = match bulk_arg(&args[0]) {
        Some(k) => k,
        None => {
            return RespValue::error("Invalid key");
        },
    };
    let set_prefix = get_key(key.as_str());
    let keys = match db.keys_with_prefix(set_prefix.as_str()) {
        Ok(keys) => keys,
        Err(_) => {
            return RespValue::error("RocksDB error");
        },
    };
    let ghost ks = keys@.map_values(|s: String| s@);
    let p = chars_of(concat(set_prefix.as_str(), ":").as_str());
    let x = chars_of(":m");
    let mut members: Vec<RespValue> = Vec::new();
    let mut i: usize = 0;
    assert(resp_views(members@) =~= Seq::<RespView>::empty());
    while i < keys.len()
        invariant
            i <= keys.len(),
            ks == keys@.map_values(|s: String| s@),
            p@ == setkey(key@) + ":"@,
            x@ == ":m"@,
            smembers_run(key@, ks, 0, Seq::empty()) == smembers_run(
                key@,
                ks,
                i as int,
                resp_views(members@),
            ),
        decreases keys.len() - i,
    {
        let ghost before = resp_views(members@);
        match strip_both(&keys[i], &p, &x) {
            Some(member) => {
                let a = RespValue::BulkString(Some(member));
                proof {
                    lemma_resp_views_push(members@, a);
                }
                members.push(a);
            },
            None => {},
        }
        assert(resp_views(members@) =~= before + smembers_item(key@, ks[i as int]));
        i = i + 1;
    }
    RespValue::Array(members)
}

// ---------------------------------------------------------------------------
// SISMEMBER / SCARD
// ---------------------------------------------------------------------------

pub open spec fn sismember_spec(m: StoreMap, args: Seq<RespValue>) -> RespView {
    if args.len() < 2 {
        err("Wrong number of arguments for 'sismember'"@)
    } else {
        match arg(args, 0) {
            None => err("Invalid key"@),
            Some(k) => match arg(args, 1) {
                None => err("Invalid member"@),
                Some(x) => RespView::Integer(
                    if m.contains_key(member_key(k, x)) {
                        1
                    } else {
                        0
                    },
                ),
            },
        }
    }
}

/// SISMEMBER command - 1 when the member is marked in the set, else 0.
pub fn sismember(db: &RocksDB, args: &[RespValue]) -> (r: RespValue)
    requires
        db.wf(),
    ensures
        r@ == sismember_spec(db@, args@),
{
    if args.len() < 2 {
        return RespValue::error("Wrong number of arguments for 'sismember'");
    }
    let key = match bulk_arg(&args[0]) {
        Some(k) => k,
        None => {
            return RespValue::error("Invalid key");
        },
    };
    let member = match bulk_arg(&args[1]) {
        Some(m) => m,
        None => {
            return RespValue::error("Invalid member");
        },
    };
    let mk = get_member_key(key.as_str(), member.as_str());
    match db.get(mk.as_str()) {
        Ok(Some(_)) => RespValue::Integer(1),
        Ok(None) => RespValue::Integer(0),
        Err(_) => RespValue::error("RocksDB error"),
    }
}

pub open spec fn scard_spec(m: StoreMap, args: Seq<RespValue>) -> RespView {
    if args.len() < 1 {
        err("Wrong number of arguments for 'scard'"@)
    } else {
        match arg(args, 0) {
            None => err("Invalid key"@),
            Some(k) => RespView::Integer(i64_or_zero(lookup(m, set_count_key(k)))),
        }
    }
}

/// SCARD command - the stored member count of a set.
pub fn scard(db: &RocksDB, args: &[RespValue]) -> (r: RespValue)
    requires
        db.wf(),
    ensures
        r@ == scard_spec(db@, args@),
{
    if args.len() < 1 {
        return RespValue::error("Wrong number of arguments for 'scard'");
    }
    let key = match bulk_arg(&args[0]) {
        Some(k) => k,
        None => {
            return RespValue::error("Invalid key");
        },
    };
    let count_key = get_count_key(key.as_str());
    RespValue::Integer(read_i64(db, count_key.as_str()))
}

} // verus!
