//! Sorted Set (ZSET) command implementations.
//!
//! Supported commands: ZADD, ZRANGE, ZRANK, ZSCORE, ZREM
//!
//! A sorted set `k` keeps the score of member `x` under `z:k:x:s`, a copy
//! of it under `zm::kx`, and its member count under `z:k:count`.
//!
//! Scores are floating-point numbers.  Reading score arguments as numbers,
//! writing numbers back as text and ordering members by score are left to
//! the caller: ZADD takes score arguments already in their stored text
//! form, and ZRANGE and ZRANK run in two steps around the caller's ranking
//! of the members that `zset_members` lists.

use vstd::prelude::*;
use crate::commands::args::{
    arg, bulk_arg, named_probes, concat, concat3, err, index_arg, lemma_removal_run, named_keys,
    pair_from, read_count, read_index, removal_run, usize_or_zero,
};
use crate::commands::hash::wrap_add;
use crate::commands::list::range_bounds;
use crate::commands::string::value_reply;
use crate::db::rocksdb::{keys_with, lookup, sorted_seq, RocksDB, StoreMap};
use crate::server::protocol::{lemma_resp_views_push, resp_views, RespValue, RespView};
use crate::text::{
    chars_eq, chars_of, has_prefix, int_text, i64_to_string, nat_text, starts_with, str_eq,
    string_of_range, to_uppercase, uppercase, usize_to_string,
};

verus! {

/// `z:` then `k`.
pub open spec fn zkey(k: Seq<char>) -> Seq<char> {
    "z:"@ + k
}

/// Where the member count of sorted set `k` is stored.
pub open spec fn zcount_key(k: Seq<char>) -> Seq<char> {
    zkey(k) + ":count"@
}

/// Where the score of member `x` of sorted set `k` is stored.
pub open spec fn score_key(k: Seq<char>, x: Seq<char>) -> Seq<char> {
    zkey(k) + ":"@ + x + ":s"@
}

/// Where the copy of the score of member `x` of sorted set `k` is stored.
pub open spec fn zmember_key(k: Seq<char>, x: Seq<char>) -> Seq<char> {
    "zm:"@ + ":"@ + k + x
}

fn get_key(key: &str) -> (r: String)
    ensures
        r@ == zkey(key@),
{
    concat("z:", key)
}

fn get_count_key(key: &str) -> (r: String)
    ensures
        r@ == zcount_key(key@),
{
    let k = get_key(key);
    concat(k.as_str(), ":count")
}

fn get_score_key(key: &str, member: &str) -> (r: String)
    ensures
        r@ == score_key(key@, member@),
{
    let k = get_key(key);
    let r = concat3(k.as_str(), ":", member);
    concat(r.as_str(), ":s")
}

fn get_member_key(key: &str, member: &str) -> (r: String)
    ensures
        r@ == zmember_key(key@, member@),
{
    let r = concat3("zm:", ":", key);
    concat(r.as_str(), member)
}

// ---------------------------------------------------------------------------
// ZADD
// ---------------------------------------------------------------------------

/// The text a score argument is stored as: a bulk or simple string as it
/// stands, an integer in decimal; `None` for other values (the pair is
/// skipped).
pub open spec fn score_text(v: RespView) -> Option<Seq<char>> {
    match v {
        RespView::BulkString(Some(s)) => Some(s),
        RespView::SimpleString(s) => Some(s),
        RespView::Integer(n) => Some(int_text(n as int)),
        _ => None,
    }
}

fn read_score(a: &RespValue) -> (r: Option<String>)
    ensures
        match r {
            Some(s) => score_text(a@) == Some(s@),
            None => score_text(a@) is None,
        },
{
    match a {
        RespValue::BulkString(Some(v)) => Some(v.clone()),
        RespValue::SimpleString(v) => Some(v.clone()),
        RespValue::Integer(n) => Some(i64_to_string(*n)),
        _ => None,
    }
}

/// Stores the score/member pairs of `args[i..]`, counting the members that
/// had no score yet.
pub open spec fn zadd_run(m: StoreMap, k: Seq<char>, args: Seq<RespValue>, i: int, added: int) -> (
    StoreMap,
    int,
)
    decreases args.len() - i,
{
    if i + 1 >= args.len() || i < 0 {
        (m, added)
    } else {
        match (score_text(args[i]@), arg(args, i + 1)) {
            (Some(t), Some(x)) => zadd_run(
                m.insert(score_key(k, x), t).insert(zmember_key(k, x), t),
                k,
                args,
                i + 2,
                if m.contains_key(score_key(k, x)) {
                    added
                } else {
                    added + 1
                },
            ),
            _ => zadd_run(m, k, args, i + 2, added),
        }
    }
}

pub open spec fn zadd_spec(m: StoreMap, args: Seq<RespValue>) -> (StoreMap, RespView) {
    if args.len() < 3 || (args.len() - 1) % 2 != 0 {
        (m, err("Wrong number of arguments for 'zadd'"@))
    } else {
        match arg(args, 0) {
            None => (m, err("Invalid key"@)),
            Some(k) => {
                let count = usize_or_zero(lookup(m, zcount_key(k)));
                let (m2, added) = zadd_run(m, k, args, 1, 0);
                (
                    m2.insert(zcount_key(k), nat_text(wrap_add(count, added) as nat)),
                    RespView::Integer(added as i64),
                )
            },
        }
    }
}

/// The pair at `j` is a score and the member `x`.
pub open spec fn names_member(args: Seq<RespValue>, j: int, x: Seq<char>) -> bool {
    score_text(args[j]@) is Some && arg(args, j + 1) == Some(x)
}

/// The members that the pairs of `args` from `i` on name.
pub open spec fn zadd_members(args: Seq<RespValue>, i: int) -> Set<Seq<char>> {
    Set::new(|x: Seq<char>| exists|j: int| pair_from(args, i, j) && #[trigger] names_member(args, j, x))
}

/// The keys that hold the scores of the members `xs` of sorted set `k`.
pub open spec fn score_keys(k: Seq<char>, xs: Set<Seq<char>>) -> Set<Seq<char>> {
    Set::new(
        |q: Seq<char>|
            exists|x: Seq<char>| #[trigger] xs.contains(x) && (q == score_key(k, x) || q == zmember_key(k, x)),
    )
}

/// `r` is `m` with the scores of the pairs of `args` from `i` on written
/// into sorted set `k`: both keys of each member named hold the score text
/// of the last pair naming it, and every other key is as it was.
pub open spec fn scores_written(m: StoreMap, k: Seq<char>, args: Seq<RespValue>, i: int, r: StoreMap) -> bool {
    let xs = zadd_members(args, i);
    &&& r.dom() == m.dom().union(score_keys(k, xs))
    &&& forall|q: Seq<char>| #[trigger] r.contains_key(q) && !score_keys(k, xs).contains(q) ==> r[q] == m[q]
    &&& forall|x: Seq<char>|
        #[trigger] xs.contains(x) ==> exists|j: int|
            pair_from(args, i, j) && #[trigger] names_member(args, j, x) && r[score_key(k, x)]
                == score_text(args[j]@)->Some_0 && r[zmember_key(k, x)] == score_text(args[j]@)->Some_0
                && forall|l: int| j < l && pair_from(args, i, l) ==> !names_member(args, l, x)
}

/// The members among `xs` that have no score in `m`.
pub open spec fn unscored(m: StoreMap, k: Seq<char>, xs: Set<Seq<char>>) -> Set<Seq<char>> {
    xs.filter(|x: Seq<char>| !m.contains_key(score_key(k, x)))
}

proof fn lemma_zset_keys_distinct(k: Seq<char>, x: Seq<char>, y: Seq<char>)
    ensures
        score_key(k, x) != zmember_key(k, y),
        score_key(k, x) == score_key(k, y) ==> x == y,
        zmember_key(k, x) == zmember_key(k, y) ==> x == y,
{
    reveal_strlit("z:");
    reveal_strlit("zm:");
    reveal_strlit(":");
    reveal_strlit(":s");
    let a = score_key(k, x);
    let b = zmember_key(k, y);
    assert(a[1] == ':');
    assert(b[1] == 'm');
    if score_key(k, x) == score_key(k, y) {
        let p = zkey(k) + ":"@;
        assert(score_key(k, x) =~= p + x + ":s"@);
        assert(score_key(k, y) =~= p + y + ":s"@);
        assert(x =~= score_key(k, x).subrange(p.len() as int, score_key(k, x).len() - 2));
        assert(y =~= score_key(k, y).subrange(p.len() as int, score_key(k, y).len() - 2));
    }
    if zmember_key(k, x) == zmember_key(k, y) {
        let p = "zm:"@ + ":"@ + k;
        assert(x =~= zmember_key(k, x).subrange(p.len() as int, zmember_key(k, x).len() as int));
        assert(y =~= zmember_key(k, y).subrange(p.len() as int, zmember_key(k, y).len() as int));
    }
}

proof fn lemma_zadd_run(m: StoreMap, k: Seq<char>, args: Seq<RespValue>, i: int, added: int)
    requires
        0 <= i,
        m.dom().finite(),
    ensures
        zadd_members(args, i).finite(),
        scores_written(m, k, args, i, zadd_run(m, k, args, i, added).0),
        zadd_run(m, k, args, i, added).1 == added + unscored(m, k, zadd_members(args, i)).len(),
    decreases args.len() - i,
{
    let xs = zadd_members(args, i);
    if i + 1 >= args.len() {
        assert(xs =~= Set::<Seq<char>>::empty());
        assert(score_keys(k, xs) =~= Set::<Seq<char>>::empty());
        assert(m.dom().union(score_keys(k, xs)) =~= m.dom());
        assert(unscored(m, k, xs) =~= Set::<Seq<char>>::empty());
    } else {
        let xs1 = zadd_members(args, i + 2);
        assert forall|j: int| pair_from(args, i, j) && j != i implies pair_from(args, i + 2, j) by {}
        assert forall|j: int| pair_from(args, i + 2, j) implies pair_from(args, i, j) && j != i by {}
        match (score_text(args[i]@), arg(args, i + 1)) {
            (Some(t0), Some(x0)) => {
                let sk0 = score_key(k, x0);
                let mk0 = zmember_key(k, x0);
                let m1 = m.insert(sk0, t0).insert(mk0, t0);
                let a1 = if m.contains_key(sk0) { added } else { added + 1 };
                assert(zadd_run(m, k, args, i, added) == zadd_run(m1, k, args, i + 2, a1));
                lemma_zadd_run(m1, k, args, i + 2, a1);
                assert(names_member(args, i, x0));
                assert(xs =~= xs1.insert(x0)) by {
                    assert forall|x: Seq<char>| xs.contains(x) implies xs1.insert(x0).contains(x) by {
                        let j = choose|j: int| pair_from(args, i, j) && #[trigger] names_member(args, j, x);
                        if j != i {
                            assert(pair_from(args, i + 2, j));
                        }
                    }
                    assert forall|x: Seq<char>| xs1.contains(x) implies xs.contains(x) by {
                        let j = choose|j: int| pair_from(args, i + 2, j) && #[trigger] names_member(args, j, x);
                        assert(pair_from(args, i, j));
                    }
                }
                assert(score_keys(k, xs) =~= score_keys(k, xs1).insert(sk0).insert(mk0)) by {
                    assert forall|q: Seq<char>| score_keys(k, xs).contains(q) implies score_keys(k, xs1).insert(
                        sk0,
                    ).insert(mk0).contains(q) by {
                        let x = choose|x: Seq<char>| #[trigger] xs.contains(x) && (q == score_key(k, x) || q
                            == zmember_key(k, x));
                        if x != x0 {
                            assert(xs1.contains(x));
                        }
                    }
                    assert forall|q: Seq<char>| score_keys(k, xs1).insert(sk0).insert(mk0).contains(q) implies score_keys(
                        k,
                        xs,
                    ).contains(q) by {
                        if score_keys(k, xs1).contains(q) {
                            let x = choose|x: Seq<char>| #[trigger] xs1.contains(x) && (q == score_key(k, x) || q
                                == zmember_key(k, x));
                            assert(xs.contains(x));
                        } else {
                            assert(xs.contains(x0));
                        }
                    }
                }
                let r = zadd_run(m1, k, args, i + 2, a1).0;
                assert(r.dom() =~= m.dom().union(score_keys(k, xs)));
                if !xs1.contains(x0) {
                    assert(!score_keys(k, xs1).contains(sk0)) by {
                        if score_keys(k, xs1).contains(sk0) {
                            let y = choose|y: Seq<char>| #[trigger] xs1.contains(y) && (sk0 == score_key(k, y) || sk0
                                == zmember_key(k, y));
                            lemma_zset_keys_distinct(k, x0, y);
                        }
                    }
                    assert(!score_keys(k, xs1).contains(mk0)) by {
                        if score_keys(k, xs1).contains(mk0) {
                            let y = choose|y: Seq<char>| #[trigger] xs1.contains(y) && (mk0 == score_key(k, y) || mk0
                                == zmember_key(k, y));
                            lemma_zset_keys_distinct(k, x0, y);
                            lemma_zset_keys_distinct(k, y, x0);
                        }
                    }
                }
                lemma_zset_keys_distinct(k, x0, x0);
                assert forall|x: Seq<char>| #[trigger] xs.contains(x) implies exists|j: int|
                    pair_from(args, i, j) && #[trigger] names_member(args, j, x) && r[score_key(k, x)]
                        == score_text(args[j]@)->Some_0 && r[zmember_key(k, x)] == score_text(args[j]@)->Some_0
                        && forall|l: int| j < l && pair_from(args, i, l) ==> !names_member(args, l, x) by {
                    if xs1.contains(x) {
                        let j = choose|j: int|
                            pair_from(args, i + 2, j) && #[trigger] names_member(args, j, x) && r[score_key(k, x)]
                                == score_text(args[j]@)->Some_0 && r[zmember_key(k, x)] == score_text(
                                args[j]@,
                            )->Some_0 && forall|l: int| j < l && pair_from(args, i + 2, l) ==> !names_member(
                                args,
                                l,
                                x,
                            );
                        assert(pair_from(args, i, j));
                        assert forall|l: int| j < l && pair_from(args, i, l) implies !names_member(args, l, x) by {
                            assert(pair_from(args, i + 2, l));
                        }
                    } else {
                        assert(x == x0);
                        assert forall|l: int| i < l && pair_from(args, i, l) implies !names_member(args, l, x) by {
                            assert(pair_from(args, i + 2, l));
                            if names_member(args, l, x) {
                                assert(xs1.contains(x));
                            }
                        }
                        assert(r.contains_key(sk0) && r.contains_key(mk0));
                        assert(r[sk0] == m1[sk0]);
                        assert(r[mk0] == m1[mk0]);
                        assert(pair_from(args, i, i));
                        assert(pair_from(args, i, i) && names_member(args, i, x) && r[score_key(k, x)]
                            == score_text(args[i]@)->Some_0 && r[zmember_key(k, x)] == score_text(args[i]@)->Some_0
                            && forall|l: int| i < l && pair_from(args, i, l) ==> !names_member(args, l, x));
                    }
                }
                // the count
                vstd::set::axiom_set_insert_finite(xs1, x0);
                assert forall|x: Seq<char>| x != x0 implies (#[trigger] m1.contains_key(score_key(k, x))
                    == m.contains_key(score_key(k, x))) by {
                    lemma_zset_keys_distinct(k, x, x0);
                }
                let u = unscored(m, k, xs);
                let u1 = unscored(m1, k, xs1);
                xs.lemma_len_filter(|x: Seq<char>| !m.contains_key(score_key(k, x)));
                xs1.lemma_len_filter(|x: Seq<char>| !m1.contains_key(score_key(k, x)));
                if m.contains_key(sk0) {
                    assert(u1 =~= u);
                } else {
                    assert(u1 =~= u.remove(x0));
                    vstd::set::axiom_set_remove_len(u, x0);
                }
            },
            _ => {
                assert(zadd_run(m, k, args, i, added) == zadd_run(m, k, args, i + 2, added));
                lemma_zadd_run(m, k, args, i + 2, added);
                assert(xs =~= xs1) by {
                    assert forall|x: Seq<char>| xs.contains(x) implies xs1.contains(x) by {
                        let j = choose|j: int| pair_from(args, i, j) && #[trigger] names_member(args, j, x);
                        if j == i {
                            assert(false);
                        }
                        assert(pair_from(args, i + 2, j));
                    }
                    assert forall|x: Seq<char>| xs1.contains(x) implies xs.contains(x) by {
                        let j = choose|j: int| pair_from(args, i + 2, j) && #[trigger] names_member(args, j, x);
                        assert(pair_from(args, i, j));
                    }
                }
                let r = zadd_run(m, k, args, i + 2, added).0;
                assert forall|x: Seq<char>| #[trigger] xs.contains(x) implies exists|j: int|
                    pair_from(args, i, j) && #[trigger] names_member(args, j, x) && r[score_key(k, x)]
                        == score_text(args[j]@)->Some_0 && r[zmember_key(k, x)] == score_text(args[j]@)->Some_0
                        && forall|l: int| j < l && pair_from(args, i, l) ==> !names_member(args, l, x) by {
                    let j = choose|j: int|
                        pair_from(args, i + 2, j) && #[trigger] names_member(args, j, x) && r[score_key(k, x)]
                            == score_text(args[j]@)->Some_0 && r[zmember_key(k, x)] == score_text(
                            args[j]@,
                        )->Some_0 && forall|l: int| j < l && pair_from(args, i + 2, l) ==> !names_member(
                            args,
                            l,
                            x,
                        );
                    assert(pair_from(args, i, j));
                    assert forall|l: int| j < l && pair_from(args, i, l) implies !names_member(args, l, x) by {
                        assert(pair_from(args, i + 2, l));
                    }
                }
            },
        }
    }
}

/// ZADD command - sets the scores of members; replies with the number of
/// members that were new.  Score arguments are stored as their text (see
/// the module documentation).
pub fn zadd(db: &mut RocksDB, args: &[RespValue]) -> (r: RespValue)
    requires
        old(db).wf(),
    ensures
        final(db).wf(),
        (final(db)@, r@) == zadd_spec(old(db)@, args@),
        args@.len() >= 3 && (args@.len() - 1) % 2 == 0 && arg(args@, 0) is Some ==> ({
            let k = arg(args@, 0)->Some_0;
            let added = unscored(old(db)@, k, zadd_members(args@, 1)).len();
            let count = usize_or_zero(lookup(old(db)@, zcount_key(k)));
            &&& exists|w: StoreMap|
                scores_written(old(db)@, k, args@, 1, w) && final(db)@ == w.insert(
                    zcount_key(k),
                    nat_text(wrap_add(count, added as int) as nat),
                )
            &&& r@ == RespView::Integer(added as i64)
        }),
{
    proof {
        if args@.len() >= 3 && (args@.len() - 1) % 2 == 0 && arg(args@, 0) is Some {
            old(db).lemma_listing(Seq::empty());
            lemma_zadd_run(db@, arg(args@, 0)->Some_0, args@, 1, 0);
        }
    }
    if args.len() < 3 || (args.len() - 1) % 2 != 0 {
        return RespValue::error("Wrong number of arguments for 'zadd'");
    }
    let key = match bulk_arg(&args[0]) {
        Some(k) => k,
        None => {
            return RespValue::error("Invalid key");
        },
    };
    let count_key = get_count_key(key.as_str());
    let current_count = read_count(db, count_key.as_str());
    let ghost m0 = db@;
    let mut added: usize = 0;
    let mut i: usize = 1;
    while i < args.len() - 1
        invariant
            db.wf(),
            1 <= i <= args.len(),
            args.len() >= 3,
            added <= i,
            zadd_run(m0, key@, args@, 1, 0) == zadd_run(db@, key@, args@, i as int, added as int),
        decreases args.len() - i,
    {
        let score = match read_score(&args[i]) {
            Some(s) => s,
            None => {
                i = i + 2;
                continue;
            },
        };
        let member = match bulk_arg(&args[i + 1]) {
            Some(m) => m,
            None => {
                i = i + 2;
                continue;
            },
        };
        let sk = get_score_key(key.as_str(), member.as_str());
        let mk = get_member_key(key.as_str(), member.as_str());
        let is_new = match db.get(sk.as_str()) {
            Ok(None) => true,
            _ => false,
        };
        match db.put(sk.as_str(), score.as_str()) {
            Ok(()) => match db.put(mk.as_str(), score.as_str()) {
                Ok(()) => {
                    if is_new {
                        added = added + 1;
                    }
                },
                Err(_) => {},
            },
            Err(_) => {},
        }
        i = i + 2;
    }
    let new_count = current_count.wrapping_add(added);
    let _ = db.put(count_key.as_str(), usize_to_string(new_count).as_str());
    RespValue::Integer(added as i64)
}

// ---------------------------------------------------------------------------
// Members with their scores
// ---------------------------------------------------------------------------

/// `s` with every leading repetition of `p` removed (`trim_start_matches`).
pub open spec fn trim_start(s: Seq<char>, p: Seq<char>) -> Seq<char>
    decreases s.len(),
{
    if p.len() > 0 && has_prefix(s, p) {
        trim_start(s.subrange(p.len() as int, s.len() as int), p)
    } else {
        s
    }
}

fn trim_start_chars(s: &Vec<char>, p: &Vec<char>) -> (r: String)
    ensures
        r@ == trim_start(s@, p@),
{
    let mut from: usize = 0;
    let n = s.len();
    assert(s@.subrange(0, n as int) =~= s@);
    if p.len() > 0 {
        loop
            invariant
                p.len() > 0,
                n == s.len(),
                from <= n,
                trim_start(s@, p@) == trim_start(s@.subrange(from as int, n as int), p@),
            decreases n - from,
        {
            let rest = string_of_range(s, from, n);
            let rc = chars_of(rest.as_str());
            if !starts_with(&rc, p) {
                return rest;
            }
            proof {
                let t = s@.subrange(from as int, n as int);
                assert(t.subrange(p.len() as int, t.len() as int) =~= s@.subrange(
                    from + p.len(),
                    n as int,
                ));
            }
            from = from + p.len();
        }
    }
    string_of_range(s, 0, n)
}

/// The scanned member keys `ks[i..]` turned into members paired with their
/// stored scores (members without a stored score are left out), after `acc`.
pub open spec fn members_run(
    m: StoreMap,
    k: Seq<char>,
    ks: Seq<Seq<char>>,
    i: int,
    acc: Seq<(Seq<char>, Seq<char>)>,
) -> Seq<(Seq<char>, Seq<char>)>
    decreases ks.len() - i,
{
    if i >= ks.len() || i < 0 {
        acc
    } else {
        let x = trim_start(ks[i], zmember_key(k, Seq::empty()));
        match lookup(m, score_key(k, x)) {
            Some(t) => members_run(m, k, ks, i + 1, acc.push((x, t))),
            None => members_run(m, k, ks, i + 1, acc),
        }
    }
}

/// The members of sorted set `k` with their stored score texts, in the
/// order of their member keys.
pub open spec fn members_spec(m: StoreMap, k: Seq<char>) -> Seq<(Seq<char>, Seq<char>)> {
    members_run(m, k, sorted_seq(keys_with(m, zmember_key(k, Seq::empty()))), 0, Seq::empty())
}

/// The view of a list of member/score pairs.
pub open spec fn pairs_view(v: Seq<(String, String)>) -> Seq<(Seq<char>, Seq<char>)> {
    v.map_values(|p: (String, String)| (p.0@, p.1@))
}

/// Lists the members of sorted set `key` with their stored score texts,
/// as `members_spec` says; ZRANGE and ZRANK rank these by score.
pub fn zset_members(db: &RocksDB, key: &str) -> (r: Vec<(String, String)>)
    requires
        db.wf(),
    ensures
        pairs_view(r@) == members_spec(db@, key@),
{
    let zm_prefix = get_member_key(key, "");
    proof {
        assert(zmember_key(key@, ""@) =~= zmember_key(key@, Seq::empty())) by {
            reveal_strlit("");
        }
    }
    let keys = match db.keys_with_prefix(zm_prefix.as_str()) {
        Ok(keys) => keys,
        Err(_) => Vec::new(),
    };
    let ghost ks = keys@.map_values(|s: String| s@);
    let p = chars_of(zm_prefix.as_str());
    let mut out: Vec<(String, String)> = Vec::new();
    let mut i: usize = 0;
    assert(pairs_view(out@) =~= Seq::<(Seq<char>, Seq<char>)>::empty());
    while i < keys.len()
        invariant
            db.wf(),
            i <= keys.len(),
            ks == keys@.map_values(|s: String| s@),
            p@ == zmember_key(key@, Seq::empty()),
            members_run(db@, key@, ks, 0, Seq::empty()) == members_run(
                db@,
                key@,
                ks,
                i as int,
                pairs_view(out@),
            ),
        decreases keys.len() - i,
    {
        let kc = chars_of(keys[i].as_str());
        let member = trim_start_chars(&kc, &p);
        match db.get(get_score_key(key, member.as_str()).as_str()) {
            Ok(Some(score)) => {
                proof {
                    assert(pairs_view(out@.push((member, score))) =~= pairs_view(out@).push(
                        (member@, score@),
                    ));
                }
                out.push((member, score));
            },
            _ => {},
        }
        i = i + 1;
    }
    out
}

// ---------------------------------------------------------------------------
// ZRANGE
// ---------------------------------------------------------------------------

/// A ZRANGE that needs the members ranked: the set, the first and last
/// rank to answer, and whether scores go with the members.
pub struct ZrangeRequest {
    pub key: String,
    pub start: usize,
    pub stop: usize,
    pub withscores: bool,
}

/// The first step of ZRANGE: either its reply, or what to answer once the
/// members are ranked.
pub enum ZrangeStep {
    Reply(RespValue),
    Rank(ZrangeRequest),
}

/// The view of the first step of ZRANGE.
pub enum ZrangeStepView {
    Reply(RespView),
    Rank(Seq<char>, usize, usize, bool),
}

pub open spec fn zrange_step_view(s: ZrangeStep) -> ZrangeStepView {
    match s {
        ZrangeStep::Reply(r) => ZrangeStepView::Reply(r@),
        ZrangeStep::Rank(q) => ZrangeStepView::Rank(q.key@, q.start, q.stop, q.withscores),
    }
}

/// Whether the fourth argument asks for scores.
pub open spec fn withscores_arg(args: Seq<RespValue>) -> bool {
    args.len() > 3 && match args[3]@ {
        RespView::BulkString(Some(v)) => uppercase(v) == "WITHSCORES"@,
        RespView::SimpleString(v) => uppercase(v) == "WITHSCORES"@,
        _ => false,
    }
}

pub open spec fn zrange_spec(m: StoreMap, args: Seq<RespValue>) -> ZrangeStepView {
    if args.len() < 3 {
        ZrangeStepView::Reply(err("Wrong number of arguments for 'zrange'"@))
    } else {
        match arg(args, 0) {
            None => ZrangeStepView::Reply(err("Invalid key"@)),
            Some(k) => {
                let start = index_arg(args[1]@, 0, 0);
                let stop = index_arg(args[2]@, -1, -1);
                let n = usize_or_zero(lookup(m, zcount_key(k)));
                if n == 0 {
                    ZrangeStepView::Reply(RespView::Array(Seq::empty()))
                } else {
                    let (s, e) = range_bounds(n as usize, start as isize, stop as isize);
                    if s > e {
                        ZrangeStepView::Reply(RespView::Array(Seq::empty()))
                    } else {
                        ZrangeStepView::Rank(k, s as usize, e as usize, withscores_arg(args))
                    }
                }
            },
        }
    }
}

fn is_withscores(a: &RespValue) -> (r: bool)
    ensures
        r == match a@ {
            RespView::BulkString(Some(v)) => uppercase(v) == "WITHSCORES"@,
            RespView::SimpleString(v) => uppercase(v) == "WITHSCORES"@,
            _ => false,
        },
{
    match a {
        RespValue::BulkString(Some(v)) => str_eq(to_uppercase(v.as_str()).as_str(), "WITHSCORES"),
        RespValue::SimpleString(v) => str_eq(to_uppercase(v.as_str()).as_str(), "WITHSCORES"),
        _ => false,
    }
}

/// ZRANGE command, first step: checks the arguments, reads the member count
/// and works out the ranks to answer (negative indexes count from the end).
pub fn zrange(db: &RocksDB, args: &[RespValue]) -> (r: ZrangeStep)
    requires
        db.wf(),
    ensures
        zrange_step_view(r) == zrange_spec(db@, args@),
{
    if args.len() < 3 {
        return ZrangeStep::Reply(RespValue::error("Wrong number of arguments for 'zrange'"));
    }
    let key = match bulk_arg(&args[0]) {
        Some(k) => k,
        None => {
            return ZrangeStep::Reply(RespValue::error("Invalid key"));
        },
    };
    let start = read_index(&args[1], 0, 0);
    let stop = read_index(&args[2], -1, -1);
    let withscores = args.len() > 3 && is_withscores(&args[3]);
    let current_count = read_count(db, get_count_key(key.as_str()).as_str());
    if current_count == 0 {
        return ZrangeStep::Reply(RespValue::Array(Vec::new()));
    }
    let s = crate::commands::args::index_from_end(current_count, start);
    let e = crate::commands::args::index_from_end(current_count, stop);
    let s2: isize = if s < 0 {
        0
    } else {
        s
    };
    let cap = (current_count as isize).wrapping_sub(1);
    let e2: isize = if e < cap {
        e
    } else {
        cap
    };
    if s2 > e2 {
        return ZrangeStep::Reply(RespValue::Array(Vec::new()));
    }
    ZrangeStep::Rank(
        ZrangeRequest { key: key.clone(), start: s2 as usize, stop: e2 as usize, withscores },
    )
}

/// The replies for ranks `i..=to` of `ranked` (member, then score when
/// `ws`), after `acc`.
pub open spec fn select_run(
    ranked: Seq<(Seq<char>, Seq<char>)>,
    i: int,
    to: int,
    ws: bool,
    acc: Seq<RespView>,
) -> Seq<RespView>
    decreases to + 1 - i,
{
    if i > to {
        acc
    } else {
        let item = seq![RespView::BulkString(Some(ranked[i].0))] + if ws {
            seq![RespView::BulkString(Some(ranked[i].1))]
        } else {
            Seq::empty()
        };
        select_run(ranked, i + 1, to, ws, acc + item)
    }
}

/// The reply of ZRANGE for members ranked by score: `ranked` holds each
/// member with its score as it is to be shown.  The ranks asked for are
/// capped at the number of ranked members.
pub open spec fn zrange_finish_spec(
    ranked: Seq<(Seq<char>, Seq<char>)>,
    start: usize,
    stop: usize,
    ws: bool,
) -> RespView {
    let n = ranked.len();
    let s = if start < n {
        start as int
    } else {
        n as int
    };
    let e = if stop < n - 1 {
        stop as int
    } else {
        n - 1
    };
    RespView::Array(select_run(ranked, s, e, ws, Seq::empty()))
}

/// ZRANGE command, second step.  With no ranked members the server
/// panics (an index out of bounds), so `ranked` must not be empty.
pub fn zrange_finish(req: &ZrangeRequest, ranked: &[(String, String)]) -> (r: RespValue)
    requires
        ranked@.len() > 0,
    ensures
        r@ == zrange_finish_spec(pairs_view(ranked@), req.start, req.stop, req.withscores),
{
    let n = ranked.len();
    let ghost rv = pairs_view(ranked@);
    let start = if req.start < n {
        req.start
    } else {
        n
    };
    let stop = if req.stop < n - 1 {
        req.stop
    } else {
        n - 1
    };
    let mut results: Vec<RespValue> = Vec::new();
    assert(resp_views(results@) =~= Seq::<RespView>::empty());
    if start > stop {
        return RespValue::Array(results);
    }
    let mut i = start;
    loop
        invariant
            start <= i <= stop < n,
            n == ranked@.len(),
            rv == pairs_view(ranked@),
            zrange_finish_spec(rv, req.start, req.stop, req.withscores) == RespView::Array(
                select_run(rv, start as int, stop as int, req.withscores, Seq::empty()),
            ),
            select_run(rv, start as int, stop as int, req.withscores, Seq::empty()) == select_run(
                rv,
                i as int,
                stop as int,
                req.withscores,
                resp_views(results@),
            ),
        decreases stop - i,
    {
        let ghost before = resp_views(results@);
        let a = RespValue::BulkString(Some(ranked[i].0.clone()));
        proof {
            lemma_resp_views_push(results@, a);
        }
        results.push(a);
        if req.withscores {
            let b = RespValue::BulkString(Some(ranked[i].1.clone()));
            proof {
                lemma_resp_views_push(results@, b);
            }
            results.push(b);
        }
        assert(resp_views(results@) =~= before + (seq![RespView::BulkString(Some(rv[i as int].0))]
            + if req.withscores {
            seq![RespView::BulkString(Some(rv[i as int].1))]
        } else {
            Seq::empty()
        }));
        if i == stop {
            assert(select_run(rv, i + 1, stop as int, req.withscores, resp_views(results@))
                == resp_views(results@));
            return RespValue::Array(results);
        }
        i = i + 1;
    }
}

// ---------------------------------------------------------------------------
// ZRANK
// ---------------------------------------------------------------------------

/// The first step of ZRANK: either its reply, or the set and member whose
/// rank is asked once the members are ranked.
pub enum ZrankStep {
    Reply(RespValue),
    Rank(String, String),
}

pub enum ZrankStepView {
    Reply(RespView),
    Rank(Seq<char>, Seq<char>),
}

pub open spec fn zrank_step_view(s: ZrankStep) -> ZrankStepView {
    match s {
        ZrankStep::Reply(r) => ZrankStepView::Reply(r@),
        ZrankStep::Rank(k, x) => ZrankStepView::Rank(k@, x@),
    }
}

pub open spec fn zrank_spec(m: StoreMap, args: Seq<RespValue>) -> ZrankStepView {
    if args.len() < 2 {
        ZrankStepView::Reply(err("Wrong number of arguments for 'zrank'"@))
    } else {
        match arg(args, 0) {
            None => ZrankStepView::Reply(err("Invalid key"@)),
            Some(k) => match arg(args, 1) {
                None => ZrankStepView::Reply(err("Invalid member"@)),
                Some(x) => if m.contains_key(score_key(k, x)) {
                    ZrankStepView::Rank(k, x)
                } else {
                    ZrankStepView::Reply(RespView::Null)
                },
            },
        }
    }
}

/// ZRANK command, first step: a member without a score has no rank.
pub fn zrank(db: &RocksDB, args: &[RespValue]) -> (r: ZrankStep)
    requires
        db.wf(),
    ensures
        zrank_step_view(r) == zrank_spec(db@, args@),
{
    if args.len() < 2 {
        return ZrankStep::Reply(RespValue::error("Wrong number of arguments for 'zrank'"));
    }
    let key = match bulk_arg(&args[0]) {
        Some(k) => k,
        None => {
            return ZrankStep::Reply(RespValue::error("Invalid key"));
        },
    };
    let member = match bulk_arg(&args[1]) {
        Some(m) => m,
        None => {
            return ZrankStep::Reply(RespValue::error("Invalid member"));
        },
    };
    match db.get(get_score_key(key.as_str(), member.as_str()).as_str()) {
        Ok(Some(_)) => ZrankStep::Rank(key.clone(), member.clone()),
        Ok(None) => ZrankStep::Reply(RespValue::Null),
        Err(_) => ZrankStep::Reply(RespValue::error("RocksDB error")),
    }
}

/// The first rank at or after `i` that holds `x`, if any.
pub open spec fn rank_of(ranked: Seq<(Seq<char>, Seq<char>)>, x: Seq<char>, i: int) -> Option<int>
    decreases ranked.len() - i,
{
    if i >= ranked.len() || i < 0 {
        None
    } else if ranked[i].0 == x {
        Some(i)
    } else {
        rank_of(ranked, x, i + 1)
    }
}

pub open spec fn zrank_finish_spec(ranked: Seq<(Seq<char>, Seq<char>)>, x: Seq<char>) -> RespView {
    match rank_of(ranked, x, 0) {
        Some(i) => RespView::Integer(i as i64),
        None => RespView::Null,
    }
}

/// ZRANK command, second step: the rank of `member` among the ranked
/// members, counted from 0.
pub fn zrank_finish(ranked: &[(String, String)], member: &str) -> (r: RespValue)
    ensures
        r@ == zrank_finish_spec(pairs_view(ranked@), member@),
{
    let ghost rv = pairs_view(ranked@);
    let mc = chars_of(member);
    let mut i: usize = 0;
    while i < ranked.len()
        invariant
            i <= ranked@.len(),
            rv == pairs_view(ranked@),
            mc@ == member@,
            rank_of(rv, member@, 0) == rank_of(rv, member@, i as int),
        decreases ranked.len() - i,
    {
        let c = chars_of(ranked[i].0.as_str());
        if chars_eq(&c, &mc) {
            return RespValue::Integer(i as i64);
        }
        i = i + 1;
    }
    RespValue::Null
}

// ---------------------------------------------------------------------------
// ZSCORE / ZREM
// ---------------------------------------------------------------------------

pub open spec fn zscore_spec(m: StoreMap, args: Seq<RespValue>) -> RespView {
    if args.len() < 2 {
        err("Wrong number of arguments for 'zscore'"@)
    } else {
        match arg(args, 0) {
            None => err("Invalid key"@),
            Some(k) => match arg(args, 1) {
                None => err("Invalid member"@),
                Some(x) => value_reply(lookup(m, score_key(k, x))),
            },
        }
    }
}

/// ZSCORE command - the stored score of a member.
pub fn zscore(db: &RocksDB, args: &[RespValue]) -> (r: RespValue)
    requires
        db.wf(),
    ensures
        r@ == zscore_spec(db@, args@),
{
    if args.len() < 2 {
        return RespValue::error("Wrong number of arguments for 'zscore'");
    }
    let key = match bulk_arg(&args[0]) {
        Some(k) => k,
        None => {
            return RespValue::error("Invalid key");
        },
    };
    let member = match bulk_arg(&args[1]) {
        Some(m) => m,
        None => {
            return RespValue::error("Invalid member");
        },
    };
    match db.get(get_score_key(key.as_str(), member.as_str()).as_str()) {
        Ok(Some(v)) => RespValue::BulkString(Some(v)),
        Ok(None) => RespValue::Null,
        Err(_) => RespValue::error("RocksDB error"),
    }
}

/// Removes the members named by `args[i..]`, counting those that had a score.
pub open spec fn zrem_run(m: StoreMap, k: Seq<char>, args: Seq<RespValue>, i: int, n: int) -> (
    StoreMap,
    int,
)
    decreases args.len() - i,
{
    if i >= args.len() || i < 0 {
        (m, n)
    } else {
        match arg(args, i) {
            Some(x) => zrem_run(
                m.remove(score_key(k, x)).remove(zmember_key(k, x)),
                k,
                args,
                i + 1,
                if m.contains_key(score_key(k, x)) {
                    n + 1
                } else {
                    n
                },
            ),
            None => zrem_run(m, k, args, i + 1, n),
        }
    }
}

pub open spec fn zrem_spec(m: StoreMap, args: Seq<RespValue>) -> (StoreMap, RespView) {
    if args.len() < 2 {
        (m, err("Wrong number of arguments for 'zrem'"@))
    } else {
        match arg(args, 0) {
            None => (m, err("Invalid key"@)),
            Some(k) => {
                let count = usize_or_zero(lookup(m, zcount_key(k)));
                let (m2, n) = zrem_run(m, k, args, 1, 0);
                let left = if count >= n {
                    count - n
                } else {
                    0
                };
                (m2.insert(zcount_key(k), nat_text(left as nat)), RespView::Integer(n as i64))
            },
        }
    }
}

/// The keys that hold the score of member `x` of sorted set `k`.
pub open spec fn zset_member_keys(k: Seq<char>) -> spec_fn(Seq<char>) -> Set<Seq<char>> {
    |x: Seq<char>| set![score_key(k, x), zmember_key(k, x)]
}

/// The key of the score of member `x` of sorted set `k`, whose presence
/// ZREM counts.
pub open spec fn zset_member_probe(k: Seq<char>) -> spec_fn(Seq<char>) -> Seq<char> {
    |x: Seq<char>| score_key(k, x)
}

/// A member key of a sorted set is never a score key.
proof fn lemma_zset_keys_apart(k: Seq<char>)
    ensures
        forall|t: Seq<char>| #[trigger] zset_member_keys(k)(t).contains(zset_member_probe(k)(t)),
        forall|t: Seq<char>, u: Seq<char>|
            #[trigger] zset_member_keys(k)(t).contains(#[trigger] zset_member_probe(k)(u))
                ==> zset_member_probe(k)(u) == zset_member_probe(k)(t),
{
    reveal_strlit("z:");
    reveal_strlit("zm:");
    assert forall|t: Seq<char>, u: Seq<char>|
        #[trigger] zset_member_keys(k)(t).contains(#[trigger] zset_member_probe(k)(u))
            implies zset_member_probe(k)(u) == zset_member_probe(k)(t) by {
        let a = score_key(k, u);
        let b = zmember_key(k, t);
        assert(a[1] == ':');
        assert(b[1] == 'm');
        assert(a != b);
    }
}

proof fn lemma_zrem_run(m: StoreMap, k: Seq<char>, args: Seq<RespValue>, i: int, n: int)
    requires
        0 <= i <= args.len(),
    ensures
        zrem_run(m, k, args, i, n) == removal_run(m, args, i, n, zset_member_keys(k), zset_member_probe(k)),
    decreases args.len() - i,
{
    if i < args.len() {
        match arg(args, i) {
            Some(x) => {
                let m1 = m.remove(score_key(k, x)).remove(zmember_key(k, x));
                assert(m1 =~= m.remove_keys(zset_member_keys(k)(x)));
                lemma_zrem_run(
                    m1,
                    k,
                    args,
                    i + 1,
                    if m.contains_key(score_key(k, x)) {
                        n + 1
                    } else {
                        n
                    },
                );
            },
            None => {
                lemma_zrem_run(m, k, args, i + 1, n);
            },
        }
    }
}

/// ZREM command - removes members; replies with the number of
/// distinct members that had a score, and lowers the stored count by it.
pub fn zrem(db: &mut RocksDB, args: &[RespValue]) -> (r: RespValue)
    requires
        old(db).wf(),
    ensures
        final(db).wf(),
        (final(db)@, r@) == zrem_spec(old(db)@, args@),
        args@.len() >= 2 && arg(args@, 0) is Some ==> ({
            let k = arg(args@, 0)->Some_0;
            let n = named_probes(args@, 1, zset_member_probe(k)).intersect(old(db)@.dom()).len();
            let count = usize_or_zero(lookup(old(db)@, zcount_key(k)));
            &&& final(db)@ == old(db)@.remove_keys(named_keys(args@, 1, zset_member_keys(k))).insert(
                zcount_key(k),
                nat_text((if count >= n { count - n } else { 0 }) as nat),
            )
            &&& r@ == RespView::Integer(n as i64)
        }),
{
    proof {
        if args@.len() >= 2 && arg(args@, 0) is Some {
            lemma_zrem_run(db@, arg(args@, 0)->Some_0, args@, 1, 0);
            old(db).lemma_listing(Seq::empty());
            lemma_zset_keys_apart(arg(args@, 0)->Some_0);
            lemma_removal_run(
                db@,
                args@,
                1,
                0,
                zset_member_keys(arg(args@, 0)->Some_0),
                zset_member_probe(arg(args@, 0)->Some_0),
            );
        }
    }
    if args.len() < 2 {
        return RespValue::error("Wrong number of arguments for 'zrem'");
    }
    let key = match bulk_arg(&args[0]) {
        Some(k) => k,
        None => {
            return RespValue::error("Invalid key");
        },
    };
    let count_key = get_count_key(key.as_str());
    let current_count = read_count(db, count_key.as_str());
    let ghost m0 = db@;
    let mut removed: usize = 0;
    let mut i: usize = 1;
    while i < args.len()
        invariant
            db.wf(),
            1 <= i <= args.len(),
            removed <= i,
            zrem_run(m0, key@, args@, 1, 0) == zrem_run(db@, key@, args@, i as int, removed as int),
        decreases args.len() - i,
    {
        match bulk_arg(&args[i]) {
            Some(member) => {
                let sk = get_score_key(key.as_str(), member.as_str());
                let mk = get_member_key(key.as_str(), member.as_str());
                let present = match db.get(sk.as_str()) {
                    Ok(Some(_)) => true,
                    _ => false,
                };
                match db.delete(sk.as_str()) {
                    Ok(()) => match db.delete(mk.as_str()) {
                        Ok(()) => {
                            if present {
                                removed = removed + 1;
                            }
                        },
                        Err(_) => {},
                    },
                    Err(_) => {},
                }
            },
            None => {},
        }
        i = i + 1;
    }
    let new_count = current_count.saturating_sub(removed);
    let _ = db.put(count_key.as_str(), usize_to_string(new_count).as_str());
    RespValue::Integer(removed as i64)
}

} // verus!
