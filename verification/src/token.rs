//! The writer token of a backend without a journal over its whole life.

use vstd::prelude::*;
use crate::commit::committed_directly;
use crate::device::Event;
use crate::direct_range::range_committed;
use crate::error::{ErrCode, Result};
use crate::journal_transaction::{CommitError, DirectTransactionCore, Transaction};
use crate::PBlockId;

verus! {

/// One use of a backend: a transaction is started, or one that lives is given up or committed.
#[allow(inconsistent_fields)]
pub ghost enum Turn {
    Start { credits: usize, originals: bool, outcome: Result<Transaction> },
    Abort,
    Commit {
        transaction: Transaction,
        log: Seq<Event>,
        log_after: Seq<Event>,
        outcome: core::result::Result<(), CommitError>,
    },
    CommitRange {
        transaction: Transaction,
        homes: Seq<PBlockId>,
        inode_home: PBlockId,
        log: Seq<Event>,
        log_after: Seq<Event>,
        outcome: core::result::Result<(), CommitError>,
    },
}

/// What one use does to the backend.
pub open spec fn turned(
    before: DirectTransactionCore,
    after: DirectTransactionCore,
    turn: Turn,
) -> bool {
    match turn {
        Turn::Start { credits, originals, outcome } => before.started(
            &after,
            credits,
            originals,
            outcome,
        ),
        Turn::Abort => {
            &&& !after.writing()
            &&& after.poisoned() == before.poisoned()
            &&& after.target() == before.target()
        },
        Turn::Commit { transaction, log, log_after, outcome } => committed_directly(
            transaction,
            before,
            after,
            log,
            log_after,
            outcome,
        ),
        Turn::CommitRange { transaction, homes, inode_home, log, log_after, outcome } =>
            range_committed(
            before,
            after,
            transaction.staged(),
            homes,
            inode_home,
            log,
            log_after,
            outcome,
        ),
    }
}

/// The transactions that live after some uses.
pub open spec fn alive(turns: Seq<Turn>) -> int
    decreases turns.len(),
{
    if turns.len() == 0 {
        0
    } else {
        alive(turns.drop_last()) + match turns.last() {
            Turn::Start { credits, originals, outcome } => if outcome is Ok {
                1int
            } else {
                0
            },
            _ => -1,
        }
    }
}

/// Whether a backend went through some uses, and each transaction that ended lived.
pub open spec fn life(cores: Seq<DirectTransactionCore>, turns: Seq<Turn>) -> bool {
    &&& cores.len() == turns.len() + 1
    &&& forall|i: int|
        0 <= i < turns.len() ==> {
            &&& turned(cores[i], cores[i + 1], #[trigger] turns[i])
            &&& !(turns[i] is Start) ==> alive(turns.take(i)) > 0
        }
}

/// The token is taken while a transaction lives, and at no other time, so at most one lives.
proof fn lemma_token_counts(cores: Seq<DirectTransactionCore>, turns: Seq<Turn>)
    requires
        life(cores, turns),
        !cores[0].writing(),
    ensures
        0 <= alive(turns) <= 1,
        cores.last().writing() == (alive(turns) == 1),
    decreases turns.len(),
{
    if turns.len() > 0 {
        let rest = turns.drop_last();
        let i = turns.len() - 1;
        lemma_life_before(cores, turns, i);
        assert(turns.take(i) =~= rest);
        assert(cores.take(i + 1).last() == cores[i]);
        lemma_token_counts(cores.take(i + 1), rest);
        assert(turned(cores[i], cores[i + 1], turns[i]));
    }
}

/// The start of a life is a life.
proof fn lemma_life_before(cores: Seq<DirectTransactionCore>, turns: Seq<Turn>, at: int)
    requires
        life(cores, turns),
        0 <= at <= turns.len(),
    ensures
        life(cores.take(at + 1), turns.take(at)),
        cores.take(at + 1)[0] == cores[0],
        cores.take(at + 1).last() == cores[at],
{
    assert forall|i: int| 0 <= i < at implies {
        &&& turned(cores.take(at + 1)[i], cores.take(at + 1)[i + 1], #[trigger] turns.take(at)[i])
        &&& !(turns.take(at)[i] is Start) ==> alive(turns.take(at).take(i)) > 0
    } by {
        assert(turns.take(at)[i] == turns[i]);
        assert(turns.take(at).take(i) =~= turns.take(i));
    }
}

/// Through the whole life of a new backend: nothing hinders a shutdown exactly while no
/// transaction lives and nothing went wrong; while one lives no other starts; and once something
/// went wrong none starts, and that stays so.
pub proof fn lemma_shutdown_waits_for_transactions(
    cores: Seq<DirectTransactionCore>,
    turns: Seq<Turn>,
    at: int,
    later: int,
    credits: usize,
)
    requires
        life(cores, turns),
        cores[0].at_rest(),
        0 <= at <= later < cores.len(),
        credits > 0,
    ensures
        0 <= alive(turns.take(at)) <= 1,
        cores[at].at_rest() == (alive(turns.take(at)) == 0 && !cores[at].poisoned()),
        alive(turns.take(at)) > 0 && !cores[at].poisoned() ==> cores[at].start_refusal(credits)
            == Some(ErrCode::EAGAIN),
        alive(turns.take(at)) == 0 && !cores[at].poisoned() ==> cores[at].start_refusal(credits)
            is None,
        cores[at].poisoned() ==> cores[at].start_refusal(credits) == Some(ErrCode::EROFS),
        cores[at].poisoned() ==> cores[later].poisoned(),
    decreases later - at,
{
    lemma_life_before(cores, turns, at);
    lemma_token_counts(cores.take(at + 1), turns.take(at));
    if at < later {
        assert(turned(cores[at], cores[at + 1], turns[at]));
        lemma_shutdown_waits_for_transactions(cores, turns, at + 1, later, credits);
    }
}

} // verus!
