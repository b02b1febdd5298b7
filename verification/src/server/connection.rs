//! The handling of the commands a client sends.
//!
//! Reading from and writing to the client's socket is the server
//! program's part; here a parsed request becomes the command's outcome.

use vstd::prelude::*;
use crate::commands::args::err;
use crate::commands::executor::{execute_spec, CommandExecutor, Outcome, OutcomeView};
use crate::db::rocksdb::{RocksDB, StoreMap};
use crate::server::protocol::{ParseOutcome, ProtocolError, RespParser, RespValue};
use crate::text::{to_uppercase, uppercase};

verus! {

/// What a request does to the store `m`, and its outcome: an array whose
/// first item names the command (in any case) and whose rest are its
/// arguments.
pub open spec fn process_spec(m: StoreMap, value: RespValue) -> (StoreMap, OutcomeView) {
    match value {
        RespValue::Array(args) => {
            if args@.len() == 0 {
                (m, OutcomeView::Reply(err("Wrong number of arguments"@)))
            } else {
                match args@[0] {
                    RespValue::BulkString(Some(s)) => execute_spec(
                        m,
                        uppercase(s@),
                        args@.subrange(1, args@.len() as int),
                    ),
                    RespValue::SimpleString(s) => execute_spec(
                        m,
                        uppercase(s@),
                        args@.subrange(1, args@.len() as int),
                    ),
                    _ => (m, OutcomeView::Reply(err("Invalid command"@))),
                }
            }
        },
        _ => (m, OutcomeView::Reply(err("Protocol error: expected array"@))),
    }
}

/// The command side of a client connection.
pub struct Connection {
    pub executor: CommandExecutor,
}

impl Connection {
    /// Creates a new Connection over the given store.
    pub fn new(db: RocksDB) -> (r: Self)
        ensures
            r.executor.db == db,
    {
        Self { executor: CommandExecutor::new(db) }
    }

    /// Runs one request.
    pub fn process_command(&mut self, value: RespValue) -> (r: Outcome)
        requires
            old(self).executor.db.wf(),
        ensures
            final(self).executor.db.wf(),
            (final(self).executor.db@, crate::commands::executor::outcome_view(r)) == process_spec(
                old(self).executor.db@,
                value,
            ),
    {
        let args = match value {
            RespValue::Array(args) => args,
            _ => {
                return Outcome::Reply(RespValue::error("Protocol error: expected array"));
            },
        };
        if args.len() == 0 {
            return Outcome::Reply(RespValue::error("Wrong number of arguments"));
        }
        let command = match &args[0] {
            RespValue::BulkString(Some(s)) => to_uppercase(s.as_str()),
            RespValue::SimpleString(s) => to_uppercase(s.as_str()),
            _ => {
                return Outcome::Reply(RespValue::error("Invalid command"));
            },
        };
        let rest = vstd::slice::slice_subrange(args.as_slice(), 1, args.len());
        self.executor.execute(command.as_str(), rest)
    }
}

/// What a client connection does next, once the bytes received so far have
/// been looked at.
pub enum Action {
    /// Wait for more bytes from the client.
    Read,
    /// Run this request and send its reply, then look at the bytes again.
    Run(RespValue),
    /// Send this protocol error to the client, then wait for more bytes.
    Fail(ProtocolError),
    /// The request holds a negative length other than -1, on which the
    /// server gives up the connection.
    Abort,
}

/// One step of a client connection: parses the next request from the bytes
/// received so far.  A complete request is handed out and its bytes are
/// dropped from the parser; otherwise the parser keeps its bytes.  When the
/// request is not all there yet the position stays at its start, so that it
/// is read whole once the rest has come.
pub fn next_action(parser: &mut RespParser) -> (r: Action)
    requires
        old(parser).position <= old(parser).buffer@.len(),
    ensures
        final(parser).position <= final(parser).buffer@.len(),
        match old(parser).spec_parse().0 {
            ParseOutcome::Complete(v) => r matches Action::Run(x) && x@ == v
                && final(parser).buffer@ == old(parser).buffer@.subrange(
                old(parser).spec_parse().1,
                old(parser).buffer@.len() as int,
            ) && final(parser).position == 0,
            ParseOutcome::Partial => r is Read && final(parser).buffer == old(parser).buffer
                && final(parser).position == old(parser).spec_parse().1,
            ParseOutcome::Failed(e) => r matches Action::Fail(x) && x@ == e && final(parser).buffer
                == old(parser).buffer && final(parser).position == old(parser).spec_parse().1,
            ParseOutcome::Crash => r is Abort,
        },
{
    match parser.try_parse() {
        None => Action::Abort,
        Some(Ok(Some(v))) => {
            parser.reset();
            Action::Run(v)
        },
        Some(Ok(None)) => Action::Read,
        Some(Err(e)) => Action::Fail(e),
    }
}

} // verus!
