use redisrs::commands::executor::{CommandExecutor, Outcome};
use redisrs::commands::hash::{hdel, hget, hgetall, hlen, hset};
use redisrs::commands::list::{llen, lpop, lpush, lrange, rpop, rpush};
use redisrs::commands::set::{sadd, scard, sismember, smembers, srem};
use redisrs::commands::string::{decr, del, exists_count, get, incr, mget, mset, strlen};
use redisrs::commands::zset::{
    zadd, zrange, zrange_finish, zrank, zrank_finish, zrem, zscore, zset_members, ZrangeStep,
    ZrankStep,
};
use redisrs::db::rocksdb::RocksDB;
use redisrs::server::connection::Connection;
use redisrs::server::protocol::RespValue;

fn b(s: &str) -> RespValue {
    RespValue::BulkString(Some(s.to_string()))
}

fn num(n: i64) -> RespValue {
    RespValue::Integer(n)
}

fn err(s: &str) -> RespValue {
    RespValue::Error(s.to_string())
}

fn arr(items: Vec<RespValue>) -> RespValue {
    RespValue::Array(items)
}

fn ok() -> RespValue {
    RespValue::SimpleString("OK".to_string())
}

fn db() -> RocksDB {
    RocksDB::new().unwrap()
}

fn reply(o: Outcome) -> RespValue {
    match o {
        Outcome::Reply(r) => r,
        _ => panic!("expected a reply"),
    }
}

// --- strings ---------------------------------------------------------------

#[test]
fn get_after_set() {
    let mut d = db();
    assert_eq!(redisrs::commands::string::set(&mut d, &[b("foo"), b("bar")]), ok());
    assert_eq!(get(&d, &[b("foo")]), b("bar"));
    assert_eq!(get(&d, &[b("nope")]), RespValue::Null);
    assert_eq!(d.get("s:foo").unwrap(), Some("bar".to_string()));
}

#[test]
fn string_argument_errors() {
    let mut d = db();
    assert_eq!(get(&d, &[]), err("Wrong number of arguments for 'get'"));
    assert_eq!(get(&d, &[num(1)]), err("Invalid key"));
    assert_eq!(redisrs::commands::string::set(&mut d, &[b("k")]), err("Wrong number of arguments for 'set'"));
    assert_eq!(redisrs::commands::string::set(&mut d, &[b("k"), num(3)]), err("Invalid value"));
    assert_eq!(del(&mut d, &[]), err("Wrong number of arguments for 'del'"));
    assert_eq!(mget(&d, &[]), err("Wrong number of arguments for 'mget'"));
    assert_eq!(mset(&mut d, &[b("a"), b("1"), b("b")]), err("Wrong number of arguments for 'mset'"));
    assert_eq!(incr(&mut d, &[]), err("Wrong number of arguments for 'incr'"));
    assert_eq!(decr(&mut d, &[]), err("Wrong number of arguments for 'decr'"));
    assert_eq!(exists_count(&d, &[]), err("Wrong number of arguments for 'exists'"));
    assert_eq!(strlen(&d, &[]), err("Wrong number of arguments for 'strlen'"));
}

#[test]
fn del_counts_only_keys_that_were_there() {
    let mut d = db();
    redisrs::commands::string::set(&mut d, &[b("a"), b("1")]);
    assert_eq!(del(&mut d, &[b("a"), b("missing"), num(5), b("a")]), num(1));
    assert_eq!(get(&d, &[b("a")]), RespValue::Null);
}

#[test]
fn mset_then_mget() {
    let mut d = db();
    assert_eq!(mset(&mut d, &[b("a"), b("1"), b("b"), b("2")]), ok());
    assert_eq!(mget(&d, &[b("a"), b("x"), num(1), b("b")]), arr(vec![b("1"), RespValue::Null, RespValue::Null, b("2")]));
}

#[test]
fn mget_after_mset_with_a_repeated_key() {
    let mut d = db();
    assert_eq!(mset(&mut d, &[b("a"), b("1"), b("b"), b("2"), b("a"), b("1")]), ok());
    assert_eq!(mget(&d, &[b("a"), b("b"), b("a")]), arr(vec![b("1"), b("2"), b("1")]));
    assert_eq!(mset(&mut d, &[b("c"), b("1"), b("c"), b("2")]), ok());
    assert_eq!(mget(&d, &[b("c"), b("c")]), arr(vec![b("2"), b("2")]));
}

#[test]
fn mset_with_an_invalid_pair_stores_nothing() {
    let mut d = db();
    assert_eq!(mset(&mut d, &[b("a"), b("1"), num(2), b("2")]), err("Invalid key"));
    assert_eq!(get(&d, &[b("a")]), RespValue::Null);
    assert_eq!(mset(&mut d, &[b("c"), b("1"), b("d"), RespValue::Null]), err("Invalid value"));
    assert_eq!(get(&d, &[b("c")]), RespValue::Null);
}

#[test]
fn incr_and_decr() {
    let mut d = db();
    assert_eq!(incr(&mut d, &[b("n")]), num(1));
    assert_eq!(incr(&mut d, &[b("n")]), num(2));
    assert_eq!(decr(&mut d, &[b("n")]), num(1));
    assert_eq!(decr(&mut d, &[b("m")]), num(-1));
    assert_eq!(get(&d, &[b("m")]), b("-1"));
    redisrs::commands::string::set(&mut d, &[b("t"), b("abc")]);
    assert_eq!(incr(&mut d, &[b("t")]), err("Value is not an integer"));
    redisrs::commands::string::set(&mut d, &[b("p"), b("+007")]);
    assert_eq!(incr(&mut d, &[b("p")]), num(8));
    assert_eq!(get(&d, &[b("p")]), b("8"));
}

#[test]
fn incr_and_decr_refuse_to_overflow() {
    let mut d = db();
    redisrs::commands::string::set(&mut d, &[b("n"), b("9223372036854775807")]);
    assert_eq!(incr(&mut d, &[b("n")]), err("increment or decrement would overflow"));
    assert_eq!(get(&d, &[b("n")]), b("9223372036854775807"));
    assert_eq!(decr(&mut d, &[b("n")]), num(i64::MAX - 1));
    redisrs::commands::string::set(&mut d, &[b("m"), b("-9223372036854775808")]);
    assert_eq!(decr(&mut d, &[b("m")]), err("increment or decrement would overflow"));
    assert_eq!(get(&d, &[b("m")]), b("-9223372036854775808"));
}

#[test]
fn exists_and_strlen() {
    let mut d = db();
    redisrs::commands::string::set(&mut d, &[b("a"), b("héllo")]);
    assert_eq!(exists_count(&d, &[b("a"), b("b"), b("a")]), num(2));
    assert_eq!(strlen(&d, &[b("a")]), num(6));
    assert_eq!(strlen(&d, &[b("b")]), num(0));
}

// --- lists -----------------------------------------------------------------

#[test]
fn rpush_lrange_llen() {
    let mut d = db();
    assert_eq!(rpush(&mut d, &[b("l"), b("a"), b("b"), b("c")]), num(3));
    assert_eq!(lrange(&d, &[b("l"), b("0"), b("-1")]), arr(vec![b("a"), b("b"), b("c")]));
    assert_eq!(lrange(&d, &[b("l"), num(1), num(1)]), arr(vec![b("b")]));
    assert_eq!(lrange(&d, &[b("l"), b("-2"), b("10")]), arr(vec![b("b"), b("c")]));
    assert_eq!(lrange(&d, &[b("l"), b("2"), b("1")]), arr(vec![]));
    assert_eq!(lrange(&d, &[b("none"), b("0"), b("-1")]), arr(vec![]));
    assert_eq!(llen(&d, &[b("l")]), num(3));
    assert_eq!(llen(&d, &[b("none")]), num(0));
}

#[test]
fn rpush_appends_to_what_lrange_gave() {
    let mut d = db();
    rpush(&mut d, &[b("l"), b("a"), b("b")]);
    let before = lrange(&d, &[b("l"), b("0"), b("-1")]);
    assert_eq!(before, arr(vec![b("a"), b("b")]));
    assert_eq!(rpush(&mut d, &[b("l"), b("c"), b("d")]), num(4));
    assert_eq!(lrange(&d, &[b("l"), b("0"), b("-1")]), arr(vec![b("a"), b("b"), b("c"), b("d")]));
    assert_eq!(llen(&d, &[b("l")]), num(4));
}

#[test]
fn lpush_pushes_each_value_onto_the_head() {
    let mut d = db();
    assert_eq!(rpush(&mut d, &[b("l"), b("x")]), num(1));
    assert_eq!(lpush(&mut d, &[b("l"), b("a")]), num(2));
    assert_eq!(lrange(&d, &[b("l"), b("0"), b("-1")]), arr(vec![b("a"), b("x")]));
    assert_eq!(lpush(&mut d, &[b("l"), b("p"), b("q")]), num(4));
    assert_eq!(lrange(&d, &[b("l"), b("0"), b("-1")]), arr(vec![b("q"), b("p"), b("a"), b("x")]));
}

#[test]
fn pops() {
    let mut d = db();
    rpush(&mut d, &[b("l"), b("a"), b("b"), b("c")]);
    assert_eq!(lpop(&mut d, &[b("l")]), b("a"));
    assert_eq!(rpop(&mut d, &[b("l")]), b("c"));
    assert_eq!(lrange(&d, &[b("l"), b("0"), b("-1")]), arr(vec![b("b")]));
    assert_eq!(rpop(&mut d, &[b("l")]), b("b"));
    assert_eq!(lpop(&mut d, &[b("l")]), RespValue::Null);
    assert_eq!(rpop(&mut d, &[b("never")]), RespValue::Null);
    assert_eq!(llen(&d, &[b("l")]), num(0));
}

#[test]
fn list_argument_errors() {
    let mut d = db();
    assert_eq!(lpush(&mut d, &[b("l")]), err("Wrong number of arguments for 'lpush'"));
    assert_eq!(rpush(&mut d, &[num(1), b("x")]), err("Invalid key"));
    assert_eq!(lpop(&mut d, &[]), err("Wrong number of arguments for 'lpop'"));
    assert_eq!(rpop(&mut d, &[]), err("Wrong number of arguments for 'rpop'"));
    assert_eq!(lrange(&d, &[b("l"), b("0")]), err("Wrong number of arguments for 'lrange'"));
    assert_eq!(llen(&d, &[]), err("Wrong number of arguments for 'llen'"));
}

#[test]
fn non_bulk_values_are_skipped() {
    let mut d = db();
    assert_eq!(rpush(&mut d, &[b("l"), b("a"), num(1), b("c")]), num(2));
    assert_eq!(lrange(&d, &[b("l"), b("0"), b("-1")]), arr(vec![b("a"), b("c")]));
    assert_eq!(lpush(&mut d, &[b("l"), num(1), b("x"), RespValue::Null, b("y")]), num(4));
    assert_eq!(lrange(&d, &[b("l"), b("0"), b("-1")]), arr(vec![b("y"), b("x"), b("a"), b("c")]));
}

// --- sets ------------------------------------------------------------------

#[test]
fn sets() {
    let mut d = db();
    assert_eq!(sadd(&mut d, &[b("s"), b("b"), b("a"), b("b")]), num(2));
    assert_eq!(sadd(&mut d, &[b("s"), b("a")]), num(0));
    assert_eq!(scard(&d, &[b("s")]), num(2));
    assert_eq!(sismember(&d, &[b("s"), b("a")]), num(1));
    assert_eq!(sismember(&d, &[b("s"), b("z")]), num(0));
    assert_eq!(smembers(&d, &[b("s")]), arr(vec![b("a"), b("b")]));
    assert_eq!(srem(&mut d, &[b("s"), b("a"), b("zz")]), num(1));
    assert_eq!(scard(&d, &[b("s")]), num(1));
    assert_eq!(smembers(&d, &[b("s")]), arr(vec![b("b")]));
    assert_eq!(sismember(&d, &[b("s"), num(1)]), err("Invalid member"));
    assert_eq!(sadd(&mut d, &[b("s")]), err("Wrong number of arguments for 'sadd'"));
}

// --- hashes ----------------------------------------------------------------

#[test]
fn hashes() {
    let mut d = db();
    assert_eq!(hset(&mut d, &[b("h"), b("f1"), b("v1"), b("f2"), b("v2")]), num(2));
    assert_eq!(hset(&mut d, &[b("h"), b("f1"), b("w")]), num(0));
    assert_eq!(hget(&d, &[b("h"), b("f1")]), b("w"));
    assert_eq!(hget(&d, &[b("h"), b("zz")]), RespValue::Null);
    assert_eq!(hlen(&d, &[b("h")]), num(2));
    assert_eq!(hgetall(&d, &[b("h")]), arr(vec![b("f1"), b("w"), b("f2"), b("v2")]));
    assert_eq!(hdel(&mut d, &[b("h"), b("f1")]), num(1));
    assert_eq!(hget(&d, &[b("h"), b("f1")]), RespValue::Null);
    assert_eq!(hlen(&d, &[b("h")]), num(1));
    assert_eq!(hset(&mut d, &[b("h"), b("f")]), err("Wrong number of arguments for 'hset'"));
    assert_eq!(hget(&d, &[b("h"), num(2)]), err("Invalid field"));
}

// --- sorted sets -----------------------------------------------------------

#[test]
fn zadd_zscore_zrem() {
    let mut d = db();
    assert_eq!(zadd(&mut d, &[b("z"), b("1.5"), b("a"), b("2"), b("b")]), num(2));
    assert_eq!(zadd(&mut d, &[b("z"), b("3"), b("a")]), num(0));
    assert_eq!(zscore(&d, &[b("z"), b("a")]), b("3"));
    assert_eq!(zscore(&d, &[b("z"), b("x")]), RespValue::Null);
    assert_eq!(zrem(&mut d, &[b("z"), b("a")]), num(1));
    assert_eq!(zscore(&d, &[b("z"), b("a")]), RespValue::Null);
    assert_eq!(zadd(&mut d, &[b("z"), b("1")]), err("Wrong number of arguments for 'zadd'"));
}

#[test]
fn zrange_in_two_steps() {
    let mut d = db();
    zadd(&mut d, &[b("z"), b("2"), b("b"), b("1"), b("a"), b("3"), b("c")]);
    let members = zset_members(&d, "z");
    assert_eq!(
        members,
        vec![("a".to_string(), "1".to_string()), ("b".to_string(), "2".to_string()), ("c".to_string(), "3".to_string())]
    );
    let req = match zrange(&d, &[b("z"), b("0"), b("-1"), b("withscores")]) {
        ZrangeStep::Rank(q) => q,
        ZrangeStep::Reply(r) => panic!("unexpected {:?}", r),
    };
    assert_eq!((req.start, req.stop, req.withscores), (0, 2, true));
    let ranked = vec![("a".to_string(), "1".to_string()), ("b".to_string(), "2".to_string())];
    assert_eq!(zrange_finish(&req, &ranked), arr(vec![b("a"), b("1"), b("b"), b("2")]));
    match zrange(&d, &[b("empty"), b("0"), b("-1")]) {
        ZrangeStep::Reply(r) => assert_eq!(r, arr(vec![])),
        ZrangeStep::Rank(_) => panic!("no ranking needed"),
    }
}

#[test]
fn zrank_in_two_steps() {
    let mut d = db();
    zadd(&mut d, &[b("z"), b("5"), b("a")]);
    match zrank(&d, &[b("z"), b("x")]) {
        ZrankStep::Reply(r) => assert_eq!(r, RespValue::Null),
        ZrankStep::Rank(_, _) => panic!("x has no score"),
    }
    match zrank(&d, &[b("z"), b("a")]) {
        ZrankStep::Rank(k, m) => {
            assert_eq!((k.as_str(), m.as_str()), ("z", "a"));
        }
        ZrankStep::Reply(r) => panic!("unexpected {:?}", r),
    }
    let ranked = vec![("q".to_string(), "1".to_string()), ("a".to_string(), "5".to_string())];
    assert_eq!(zrank_finish(&ranked, "a"), num(1));
    assert_eq!(zrank_finish(&ranked, "zz"), RespValue::Null);
}

// --- dispatch --------------------------------------------------------------

#[test]
fn execute_dispatches_by_name() {
    let mut ex = CommandExecutor::new(db());
    assert_eq!(reply(ex.execute("PING", &[])), RespValue::SimpleString("PONG".to_string()));
    assert_eq!(reply(ex.execute("ECHO", &[b("hi")])), b("hi"));
    assert_eq!(reply(ex.execute("ECHO", &[num(1)])), err("Invalid argument for ECHO"));
    assert_eq!(reply(ex.execute("SET", &[b("k"), b("v")])), ok());
    assert_eq!(reply(ex.execute("GET", &[b("k")])), b("v"));
    assert_eq!(reply(ex.execute("FLY", &[])), err("Unknown command: FLY"));
    assert!(matches!(ex.execute("ZADD", &[b("z"), b("1"), b("a")]), Outcome::ScoreZadd));
}

#[test]
fn process_command_reads_the_name_in_any_case() {
    let mut c = Connection::new(db());
    assert_eq!(reply(c.process_command(arr(vec![b("set"), b("k"), b("v")]))), ok());
    assert_eq!(reply(c.process_command(arr(vec![RespValue::SimpleString("Get".to_string()), b("k")]))), b("v"));
    assert_eq!(reply(c.process_command(b("GET"))), err("Protocol error: expected array"));
    assert_eq!(reply(c.process_command(arr(vec![]))), err("Wrong number of arguments"));
    assert_eq!(reply(c.process_command(arr(vec![num(1)]))), err("Invalid command"));
}

#[test]
fn quick_start_session() {
    let mut c = Connection::new(db());
    assert_eq!(reply(c.process_command(arr(vec![b("PING")]))), RespValue::SimpleString("PONG".to_string()));
    assert_eq!(reply(c.process_command(arr(vec![b("SET"), b("foo"), b("bar")]))), ok());
    assert_eq!(reply(c.process_command(arr(vec![b("GET"), b("foo")]))), b("bar"));
    assert_eq!(reply(c.process_command(arr(vec![b("LPUSH"), b("mylist"), b("a"), b("b"), b("c")]))), num(3));
    assert_eq!(
        reply(c.process_command(arr(vec![b("LRANGE"), b("mylist"), b("0"), b("-1")]))),
        arr(vec![b("c"), b("b"), b("a")])
    );
}

#[test]
fn smembers_lists_each_member_once_and_no_other_set() {
    let mut d = db();
    sadd(&mut d, &[b("s"), b("x"), b("y"), b("x")]);
    sadd(&mut d, &[b("t"), b("z")]);
    sadd(&mut d, &[b("st"), b("w")]);
    assert_eq!(smembers(&d, &[b("s")]), arr(vec![b("x"), b("y")]));
    assert_eq!(smembers(&d, &[b("none")]), arr(vec![]));
}

#[test]
fn hgetall_lists_each_field_once_with_its_value() {
    let mut d = db();
    hset(&mut d, &[b("h"), b("b"), b("1"), b("a"), b("2"), b("b"), b("3")]);
    hset(&mut d, &[b("hh"), b("c"), b("4")]);
    assert_eq!(hgetall(&d, &[b("h")]), arr(vec![b("a"), b("2"), b("b"), b("3")]));
}

#[test]
fn removals_count_only_what_was_there() {
    let mut d = db();
    mset(&mut d, &[b("a"), b("1"), b("b"), b("2")]);
    assert_eq!(exists_count(&d, &[b("a"), b("a"), b("zz"), num(1)]), num(2));
    assert_eq!(del(&mut d, &[b("a"), b("zz"), num(1), b("a")]), num(1));
    assert_eq!(get(&d, &[b("a")]), RespValue::Null);
    assert_eq!(get(&d, &[b("b")]), b("2"));
    hset(&mut d, &[b("h"), b("f"), b("v"), b("g"), b("w")]);
    assert_eq!(hdel(&mut d, &[b("h"), b("f"), b("nope"), num(3), b("f")]), num(1));
    assert_eq!(hlen(&d, &[b("h")]), num(1));
    assert_eq!(hget(&d, &[b("h"), b("g")]), b("w"));
}

#[test]
fn dispatch_names_match_case_sensitively() {
    let mut ex = CommandExecutor::new(db());
    assert_eq!(reply(ex.execute("SET", &[b("k"), b("v")])), ok());
    assert_eq!(reply(ex.execute("get", &[b("k")])), err("Unknown command: get"));
    assert_eq!(reply(ex.execute("GET", &[b("k")])), b("v"));
}

#[test]
fn zrem_counts_only_members_that_were_there() {
    let mut d = db();
    assert_eq!(zadd(&mut d, &[b("z"), b("1"), b("a")]), num(1));
    assert_eq!(zrem(&mut d, &[b("z"), b("a"), b("x")]), num(1));
    assert_eq!(zscore(&d, &[b("z"), b("a")]), RespValue::Null);
}

#[test]
fn lrange_with_a_stop_before_the_first_element_is_empty() {
    let mut d = db();
    rpush(&mut d, &[b("l"), b("a"), b("b"), b("c")]);
    assert_eq!(lrange(&d, &[b("l"), b("0"), b("-10")]), arr(vec![]));
    assert_eq!(lrange(&d, &[b("l"), b("-10"), b("-4")]), arr(vec![]));
    assert_eq!(lrange(&d, &[b("l"), b("-10"), b("-3")]), arr(vec![b("a")]));
    zadd(&mut d, &[b("z"), b("1"), b("a")]);
    assert!(matches!(zrange(&d, &[b("z"), b("0"), b("-5")]), ZrangeStep::Reply(_)));
}

#[test]
fn scard_follows_the_members_after_srem() {
    let mut d = db();
    assert_eq!(sadd(&mut d, &[b("s"), b("a"), b("b")]), num(2));
    assert_eq!(srem(&mut d, &[b("s"), b("a"), b("c")]), num(1));
    assert_eq!(scard(&d, &[b("s")]), num(1));
    assert_eq!(smembers(&d, &[b("s")]), arr(vec![b("b")]));
}
