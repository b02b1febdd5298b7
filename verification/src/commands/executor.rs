//! Dispatching a command by name to its handler.

use vstd::prelude::*;
use crate::commands::args::err;
use crate::commands::hash::{hdel, hdel_spec, hget, hget_spec, hgetall, hgetall_spec, hlen, hlen_spec, hset, hset_spec};
use crate::commands::list::{llen, llen_spec, lpop, lpop_spec, lpush, lpush_spec, lrange, lrange_spec, rpop, rpop_spec, rpush, rpush_spec};
use crate::commands::set::{sadd, sadd_spec, scard, scard_spec, sismember, sismember_spec, smembers, smembers_spec, srem, srem_spec};
use crate::commands::string::{
    decr, decr_spec, del, del_spec, exists_count, exists_spec, get, get_spec, incr, incr_spec,
    mget, mget_spec, mset, mset_spec, set_spec, strlen, strlen_spec,
};
use crate::commands::zset::{
    zrange, zrange_spec, zrank, zrank_spec, zrem, zrem_spec, zscore, zscore_spec, ZrangeRequest,
    ZrangeStep, ZrangeStepView, ZrankStep, ZrankStepView,
};
use crate::db::rocksdb::{RocksDB, StoreMap};
use crate::server::protocol::{RespValue, RespView};
use crate::text::{push_str, owned, str_eq};

verus! {

/// What a command comes to: its reply, or a sorted-set command that needs
/// floating-point work from the caller before it can be answered.
pub enum Outcome {
    /// The reply to send.
    Reply(RespValue),
    /// ZADD: convert the score arguments to their stored text, then call
    /// `zset::zadd`.
    ScoreZadd,
    /// ZRANGE: rank `zset::zset_members` by score, then call
    /// `zset::zrange_finish`.
    RankZrange(ZrangeRequest),
    /// ZRANK: rank `zset::zset_members` of the set by score, then call
    /// `zset::zrank_finish` for the member.
    RankZrank(String, String),
}

/// The view of an `Outcome`.
pub enum OutcomeView {
    Reply(RespView),
    ScoreZadd,
    RankZrange(Seq<char>, usize, usize, bool),
    RankZrank(Seq<char>, Seq<char>),
}

pub open spec fn outcome_view(o: Outcome) -> OutcomeView {
    match o {
        Outcome::Reply(r) => OutcomeView::Reply(r@),
        Outcome::ScoreZadd => OutcomeView::ScoreZadd,
        Outcome::RankZrange(q) => OutcomeView::RankZrange(q.key@, q.start, q.stop, q.withscores),
        Outcome::RankZrank(k, x) => OutcomeView::RankZrank(k@, x@),
    }
}

/// A store change and a reply, as the outcome of a command.
pub open spec fn replied(p: (StoreMap, RespView)) -> (StoreMap, OutcomeView) {
    (p.0, OutcomeView::Reply(p.1))
}

pub open spec fn echo_spec(args: Seq<RespValue>) -> RespView {
    if args.len() > 0 && args[0]@ matches RespView::BulkString(Some(s)) {
        RespView::BulkString(Some(args[0]@->BulkString_0->Some_0))
    } else {
        err("Invalid argument for ECHO"@)
    }
}

/// What the command named `cmd` does to the store `m`, and its outcome.
pub open spec fn execute_spec(m: StoreMap, cmd: Seq<char>, args: Seq<RespValue>) -> (
    StoreMap,
    OutcomeView,
) {
    if cmd == "PING"@ {
        (m, OutcomeView::Reply(RespView::SimpleString("PONG"@)))
    } else if cmd == "ECHO"@ {
        (m, OutcomeView::Reply(echo_spec(args)))
    } else if cmd == "GET"@ {
        (m, OutcomeView::Reply(get_spec(m, args)))
    } else if cmd == "SET"@ {
        replied(set_spec(m, args))
    } else if cmd == "DEL"@ {
        replied(del_spec(m, args))
    } else if cmd == "MGET"@ {
        (m, OutcomeView::Reply(mget_spec(m, args)))
    } else if cmd == "MSET"@ {
        replied(mset_spec(m, args))
    } else if cmd == "INCR"@ {
        replied(incr_spec(m, args))
    } else if cmd == "DECR"@ {
        replied(decr_spec(m, args))
    } else if cmd == "EXISTS"@ {
        (m, OutcomeView::Reply(exists_spec(m, args)))
    } else if cmd == "STRLEN"@ {
        (m, OutcomeView::Reply(strlen_spec(m, args)))
    } else if cmd == "LPUSH"@ {
        replied(lpush_spec(m, args))
    } else if cmd == "RPUSH"@ {
        replied(rpush_spec(m, args))
    } else if cmd == "LPOP"@ {
        replied(lpop_spec(m, args))
    } else if cmd == "RPOP"@ {
        replied(rpop_spec(m, args))
    } else if cmd == "LRANGE"@ {
        (m, OutcomeView::Reply(lrange_spec(m, args)))
    } else if cmd == "LLEN"@ {
        (m, OutcomeView::Reply(llen_spec(m, args)))
    } else if cmd == "SADD"@ {
        replied(sadd_spec(m, args))
    } else if cmd == "SREM"@ {
        replied(srem_spec(m, args))
    } else if cmd == "SMEMBERS"@ {
        (m, OutcomeView::Reply(smembers_spec(m, args)))
    } else if cmd == "SISMEMBER"@ {
        (m, OutcomeView::Reply(sismember_spec(m, args)))
    } else if cmd == "SCARD"@ {
        (m, OutcomeView::Reply(scard_spec(m, args)))
    } else if cmd == "ZADD"@ {
        (m, OutcomeView::ScoreZadd)
    } else if cmd == "ZRANGE"@ {
        (
            m,
            match zrange_spec(m, args) {
                ZrangeStepView::Reply(r) => OutcomeView::Reply(r),
                ZrangeStepView::Rank(k, s, e, w) => OutcomeView::RankZrange(k, s, e, w),
            },
        )
    } else if cmd == "ZRANK"@ {
        (
            m,
            match zrank_spec(m, args) {
                ZrankStepView::Reply(r) => OutcomeView::Reply(r),
                ZrankStepView::Rank(k, x) => OutcomeView::RankZrank(k, x),
            },
        )
    } else if cmd == "ZSCORE"@ {
        (m, OutcomeView::Reply(zscore_spec(m, args)))
    } else if cmd == "ZREM"@ {
        replied(zrem_spec(m, args))
    } else if cmd == "HSET"@ {
        replied(hset_spec(m, args))
    } else if cmd == "HGET"@ {
        (m, OutcomeView::Reply(hget_spec(m, args)))
    } else if cmd == "HGETALL"@ {
        (m, OutcomeView::Reply(hgetall_spec(m, args)))
    } else if cmd == "HDEL"@ {
        replied(hdel_spec(m, args))
    } else if cmd == "HLEN"@ {
        (m, OutcomeView::Reply(hlen_spec(m, args)))
    } else {
        (m, OutcomeView::Reply(err("Unknown command: "@ + cmd)))
    }
}

/// The names `execute` dispatches on, in upper case.
pub open spec fn command_names() -> Set<Seq<char>> {
    set![
        "PING"@,
        "ECHO"@,
        "GET"@,
        "SET"@,
        "DEL"@,
        "MGET"@,
        "MSET"@,
        "INCR"@,
        "DECR"@,
        "EXISTS"@,
        "STRLEN"@,
        "LPUSH"@,
        "RPUSH"@,
        "LPOP"@,
        "RPOP"@,
        "LRANGE"@,
        "LLEN"@,
        "SADD"@,
        "SREM"@,
        "SMEMBERS"@,
        "SISMEMBER"@,
        "SCARD"@,
        "ZADD"@,
        "ZRANGE"@,
        "ZRANK"@,
        "ZSCORE"@,
        "ZREM"@,
        "HSET"@,
        "HGET"@,
        "HGETALL"@,
        "HDEL"@,
        "HLEN"@,
    ]
}

/// The dispatch table: each name runs its handler, with that handler's
/// change of the store and reply (ZADD hands its floating-point step to the
/// caller, as ZRANGE and ZRANK do through `zrange_spec` and `zrank_spec`).
pub proof fn law_dispatch_table(m: StoreMap, args: Seq<RespValue>)
    ensures
        execute_spec(m, "PING"@, args) == (m, OutcomeView::Reply(RespView::SimpleString("PONG"@))),
        execute_spec(m, "ECHO"@, args) == (m, OutcomeView::Reply(echo_spec(args))),
        execute_spec(m, "GET"@, args) == (m, OutcomeView::Reply(get_spec(m, args))),
        execute_spec(m, "SET"@, args) == replied(set_spec(m, args)),
        execute_spec(m, "DEL"@, args) == replied(del_spec(m, args)),
        execute_spec(m, "MGET"@, args) == (m, OutcomeView::Reply(mget_spec(m, args))),
        execute_spec(m, "MSET"@, args) == replied(mset_spec(m, args)),
        execute_spec(m, "INCR"@, args) == replied(incr_spec(m, args)),
        execute_spec(m, "DECR"@, args) == replied(decr_spec(m, args)),
        execute_spec(m, "EXISTS"@, args) == (m, OutcomeView::Reply(exists_spec(m, args))),
        execute_spec(m, "STRLEN"@, args) == (m, OutcomeView::Reply(strlen_spec(m, args))),
        execute_spec(m, "LPUSH"@, args) == replied(lpush_spec(m, args)),
        execute_spec(m, "RPUSH"@, args) == replied(rpush_spec(m, args)),
        execute_spec(m, "LPOP"@, args) == replied(lpop_spec(m, args)),
        execute_spec(m, "RPOP"@, args) == replied(rpop_spec(m, args)),
        execute_spec(m, "LRANGE"@, args) == (m, OutcomeView::Reply(lrange_spec(m, args))),
        execute_spec(m, "LLEN"@, args) == (m, OutcomeView::Reply(llen_spec(m, args))),
        execute_spec(m, "SADD"@, args) == replied(sadd_spec(m, args)),
        execute_spec(m, "SREM"@, args) == replied(srem_spec(m, args)),
        execute_spec(m, "SMEMBERS"@, args) == (m, OutcomeView::Reply(smembers_spec(m, args))),
        execute_spec(m, "SISMEMBER"@, args) == (m, OutcomeView::Reply(sismember_spec(m, args))),
        execute_spec(m, "SCARD"@, args) == (m, OutcomeView::Reply(scard_spec(m, args))),
        execute_spec(m, "ZSCORE"@, args) == (m, OutcomeView::Reply(zscore_spec(m, args))),
        execute_spec(m, "ZREM"@, args) == replied(zrem_spec(m, args)),
        execute_spec(m, "HSET"@, args) == replied(hset_spec(m, args)),
        execute_spec(m, "HGET"@, args) == (m, OutcomeView::Reply(hget_spec(m, args))),
        execute_spec(m, "HGETALL"@, args) == (m, OutcomeView::Reply(hgetall_spec(m, args))),
        execute_spec(m, "HDEL"@, args) == replied(hdel_spec(m, args)),
        execute_spec(m, "HLEN"@, args) == (m, OutcomeView::Reply(hlen_spec(m, args))),
        execute_spec(m, "ZADD"@, args) == (m, OutcomeView::ScoreZadd),
        execute_spec(m, "ZRANGE"@, args) == (
            m,
            match zrange_spec(m, args) {
                ZrangeStepView::Reply(r) => OutcomeView::Reply(r),
                ZrangeStepView::Rank(k, s, e, w) => OutcomeView::RankZrange(k, s, e, w),
            },
        ),
        execute_spec(m, "ZRANK"@, args) == (
            m,
            match zrank_spec(m, args) {
                ZrankStepView::Reply(r) => OutcomeView::Reply(r),
                ZrankStepView::Rank(k, x) => OutcomeView::RankZrank(k, x),
            },
        ),
{
    reveal_strlit("PING");
    assert("PING"@[0] == 'P' && "PING"@[1] == 'I');
    reveal_strlit("ECHO");
    assert("ECHO"@[0] == 'E' && "ECHO"@[1] == 'C');
    reveal_strlit("GET");
    assert("GET"@[0] == 'G' && "GET"@[1] == 'E');
    reveal_strlit("SET");
    assert("SET"@[0] == 'S' && "SET"@[1] == 'E');
    reveal_strlit("DEL");
    assert("DEL"@[0] == 'D' && "DEL"@[1] == 'E');
    reveal_strlit("MGET");
    assert("MGET"@[0] == 'M' && "MGET"@[1] == 'G');
    reveal_strlit("MSET");
    assert("MSET"@[0] == 'M' && "MSET"@[1] == 'S');
    reveal_strlit("INCR");
    assert("INCR"@[0] == 'I' && "INCR"@[1] == 'N');
    reveal_strlit("DECR");
    assert("DECR"@[0] == 'D' && "DECR"@[1] == 'E');
    reveal_strlit("EXISTS");
    assert("EXISTS"@[0] == 'E' && "EXISTS"@[1] == 'X');
    reveal_strlit("STRLEN");
    assert("STRLEN"@[0] == 'S' && "STRLEN"@[1] == 'T');
    reveal_strlit("LPUSH");
    assert("LPUSH"@[0] == 'L' && "LPUSH"@[1] == 'P');
    reveal_strlit("RPUSH");
    assert("RPUSH"@[0] == 'R' && "RPUSH"@[1] == 'P');
    reveal_strlit("LPOP");
    assert("LPOP"@[0] == 'L' && "LPOP"@[1] == 'P');
    reveal_strlit("RPOP");
    assert("RPOP"@[0] == 'R' && "RPOP"@[1] == 'P');
    reveal_strlit("LRANGE");
    assert("LRANGE"@[0] == 'L' && "LRANGE"@[1] == 'R');
    reveal_strlit("LLEN");
    assert("LLEN"@[0] == 'L' && "LLEN"@[1] == 'L');
    reveal_strlit("SADD");
    assert("SADD"@[0] == 'S' && "SADD"@[1] == 'A');
    reveal_strlit("SREM");
    assert("SREM"@[0] == 'S' && "SREM"@[1] == 'R');
    reveal_strlit("SMEMBERS");
    assert("SMEMBERS"@[0] == 'S' && "SMEMBERS"@[1] == 'M');
    reveal_strlit("SISMEMBER");
    assert("SISMEMBER"@[0] == 'S' && "SISMEMBER"@[1] == 'I');
    reveal_strlit("SCARD");
    assert("SCARD"@[0] == 'S' && "SCARD"@[1] == 'C');
    reveal_strlit("ZADD");
    assert("ZADD"@[0] == 'Z' && "ZADD"@[1] == 'A');
    reveal_strlit("ZRANGE");
    assert("ZRANGE"@[0] == 'Z' && "ZRANGE"@[1] == 'R');
    reveal_strlit("ZRANK");
    assert("ZRANK"@[0] == 'Z' && "ZRANK"@[1] == 'R');
    reveal_strlit("ZSCORE");
    assert("ZSCORE"@[0] == 'Z' && "ZSCORE"@[1] == 'S');
    reveal_strlit("ZREM");
    assert("ZREM"@[0] == 'Z' && "ZREM"@[1] == 'R');
    reveal_strlit("HSET");
    assert("HSET"@[0] == 'H' && "HSET"@[1] == 'S');
    reveal_strlit("HGET");
    assert("HGET"@[0] == 'H' && "HGET"@[1] == 'G');
    reveal_strlit("HGETALL");
    assert("HGETALL"@[0] == 'H' && "HGETALL"@[1] == 'G');
    reveal_strlit("HDEL");
    assert("HDEL"@[0] == 'H' && "HDEL"@[1] == 'D');
    reveal_strlit("HLEN");
    assert("HLEN"@[0] == 'H' && "HLEN"@[1] == 'L');
}

/// Names match exactly, case included: any other name, such as `get`, is
/// answered with an unknown-command error and leaves the store as it was.
pub proof fn law_unknown_command(m: StoreMap, cmd: Seq<char>, args: Seq<RespValue>)
    requires
        !command_names().contains(cmd),
    ensures
        execute_spec(m, cmd, args) == (m, OutcomeView::Reply(RespView::Error("Unknown command: "@ + cmd))),
{
}

/// Executes Redis commands against the store.
pub struct CommandExecutor {
    pub db: RocksDB,
}

impl CommandExecutor {
    /// Creates a new CommandExecutor with the given store.
    pub fn new(db: RocksDB) -> (r: Self)
        ensures
            r.db == db,
    {
        Self { db }
    }

    /// Dispatches a command to the appropriate handler.
    ///
    /// `command` is the command name (e.g., "GET", "SET"); `args` are the
    /// command arguments, without the name.
    pub fn execute(&mut self, command: &str, args: &[RespValue]) -> (r: Outcome)
        requires
            old(self).db.wf(),
        ensures
            final(self).db.wf(),
            (final(self).db@, outcome_view(r)) == execute_spec(old(self).db@, command@, args@),
    {
        let db = &mut self.db;
        if str_eq(command, "PING") {
            Outcome::Reply(RespValue::simple_string("PONG"))
        } else if str_eq(command, "ECHO") {
            if args.len() > 0 {
                match &args[0] {
                    RespValue::BulkString(Some(s)) => {
                        return Outcome::Reply(RespValue::bulk_string(Some(s.clone())));
                    },
                    _ => {},
                }
            }
            Outcome::Reply(RespValue::error("Invalid argument for ECHO"))
        } else if str_eq(command, "GET") {
            Outcome::Reply(get(db, args))
        } else if str_eq(command, "SET") {
            Outcome::Reply(crate::commands::string::set(db, args))
        } else if str_eq(command, "DEL") {
            Outcome::Reply(del(db, args))
        } else if str_eq(command, "MGET") {
            Outcome::Reply(mget(db, args))
        } else if str_eq(command, "MSET") {
            Outcome::Reply(mset(db, args))
        } else if str_eq(command, "INCR") {
            Outcome::Reply(incr(db, args))
        } else if str_eq(command, "DECR") {
            Outcome::Reply(decr(db, args))
        } else if str_eq(command, "EXISTS") {
            Outcome::Reply(exists_count(db, args))
        } else if str_eq(command, "STRLEN") {
            Outcome::Reply(strlen(db, args))
        } else if str_eq(command, "LPUSH") {
            Outcome::Reply(lpush(db, args))
        } else if str_eq(command, "RPUSH") {
            Outcome::Reply(rpush(db, args))
        } else if str_eq(command, "LPOP") {
            Outcome::Reply(lpop(db, args))
        } else if str_eq(command, "RPOP") {
            Outcome::Reply(rpop(db, args))
        } else if str_eq(command, "LRANGE") {
            Outcome::Reply(lrange(db, args))
        } else if str_eq(command, "LLEN") {
            Outcome::Reply(llen(db, args))
        } else if str_eq(command, "SADD") {
            Outcome::Reply(sadd(db, args))
        } else if str_eq(command, "SREM") {
            Outcome::Reply(srem(db, args))
        } else if str_eq(command, "SMEMBERS") {
            Outcome::Reply(smembers(db, args))
        } else if str_eq(command, "SISMEMBER") {
            Outcome::Reply(sismember(db, args))
        } else if str_eq(command, "SCARD") {
            Outcome::Reply(scard(db, args))
        } else if str_eq(command, "ZADD") {
            Outcome::ScoreZadd
        } else if str_eq(command, "ZRANGE") {
            match zrange(db, args) {
                ZrangeStep::Reply(r) => Outcome::Reply(r),
                ZrangeStep::Rank(q) => Outcome::RankZrange(q),
            }
        } else if str_eq(command, "ZRANK") {
            match zrank(db, args) {
                ZrankStep::Reply(r) => Outcome::Reply(r),
                ZrankStep::Rank(k, x) => Outcome::RankZrank(k, x),
            }
        } else if str_eq(command, "ZSCORE") {
            Outcome::Reply(zscore(db, args))
        } else if str_eq(command, "ZREM") {
            Outcome::Reply(zrem(db, args))
        } else if str_eq(command, "HSET") {
            Outcome::Reply(hset(db, args))
        } else if str_eq(command, "HGET") {
            Outcome::Reply(hget(db, args))
        } else if str_eq(command, "HGETALL") {
            Outcome::Reply(hgetall(db, args))
        } else if str_eq(command, "HDEL") {
            Outcome::Reply(hdel(db, args))
        } else if str_eq(command, "HLEN") {
            Outcome::Reply(hlen(db, args))
        } else {
            let mut m = owned("Unknown command: ");
            push_str(&mut m, command);
            Outcome::Reply(RespValue::Error(m))
        }
    }
}

} // verus!
