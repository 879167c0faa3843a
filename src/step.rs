use vstd::prelude::*;
use crate::pool::{singleton_mask, singleton_word, MaskPool};

verus! {

/// What a constraint machine reported after a token was committed to it.
pub struct CommitReport {
    pub backtrack: u32,
    pub stop: bool,
    pub ff_tokens: Vec<u32>,
}

/// How a sequence's step goes on after a commit.
#[derive(PartialEq, Eq, Structural, Clone, Copy, Debug)]
pub enum CommitDecision {
    /// The grammar is complete: no mask is computed.
    Stop,
    /// The commit was accepted: compute the next mask.
    Continue,
    /// The machine asked for a backtrack or a multi-token fast-forward.
    Unsupported,
}

/// The token to commit before computing a mask: the newest one, once the
/// sequence has grown past its prompt.
pub fn token_to_commit(prompt_len: usize, tokens: &Vec<u32>) -> (r: Option<u32>)
    ensures
        r == (if tokens@.len() > prompt_len { Some(tokens@.last()) } else { None::<u32> }),
{
    if tokens.len() > prompt_len {
        Some(tokens[tokens.len() - 1])
    } else {
        None
    }
}

pub open spec fn commit_decision(backtrack: u32, stop: bool, ff: Seq<u32>, tok: u32) -> CommitDecision {
    if backtrack != 0 {
        CommitDecision::Unsupported
    } else if stop {
        CommitDecision::Stop
    } else if ff.len() == 1 && ff[0] == tok {
        CommitDecision::Continue
    } else {
        CommitDecision::Unsupported
    }
}

/// Judges the report of committing `tok`: no backtrack is allowed, and a
/// commit that does not stop must echo exactly the committed token.
pub fn judge_commit(report: &CommitReport, tok: u32) -> (r: CommitDecision)
    ensures
        r == commit_decision(report.backtrack, report.stop, report.ff_tokens@, tok),
{
    if report.backtrack != 0 {
        CommitDecision::Unsupported
    } else if report.stop {
        CommitDecision::Stop
    } else if report.ff_tokens.len() == 1 && report.ff_tokens[0] == tok {
        CommitDecision::Continue
    } else {
        CommitDecision::Unsupported
    }
}

/// How the computation of one sequence ended.
pub enum ItemOutcome {
    /// A mask was computed; its words.
    Mask(Vec<u32>),
    /// The grammar signalled completion.
    Stopped,
    /// The computation failed; the message.
    Fault(String),
}

/// What is handed back for one sequence: the pool buffer that holds its
/// mask, whether it stopped, and the error it ran into.
pub struct ItemResult {
    pub buf: usize,
    pub stopped: bool,
    pub error: Option<String>,
}

/// The mask of `n` words in which only `eos` is allowed.
pub open spec fn eos_only(n: nat, eos: u32) -> Seq<u32> {
    Seq::new(n, |i: int| singleton_word(eos, i))
}

/// The words that end up in the output for an outcome.
pub open spec fn outcome_mask(o: ItemOutcome, n: nat, eos: u32) -> Seq<u32> {
    match o {
        ItemOutcome::Mask(b) => if b@.len() >= n { b@.subrange(0, n as int) } else { eos_only(n, eos) },
        _ => eos_only(n, eos),
    }
}

/// Whether an outcome is recorded as an error.
pub open spec fn outcome_failed(o: ItemOutcome, n: nat) -> bool {
    match o {
        ItemOutcome::Mask(b) => b@.len() < n,
        ItemOutcome::Stopped => false,
        ItemOutcome::Fault(_) => true,
    }
}

pub open spec fn outcome_stopped(o: ItemOutcome, n: nat) -> bool {
    match o {
        ItemOutcome::Mask(b) => b@.len() < n,
        _ => true,
    }
}

/// Turns one outcome into an output: a computed mask is copied into the
/// pool; a stop or a fault gets the mask that allows end-of-sequence only,
/// and a fault keeps its message.
pub fn finish_item(pool: &mut MaskPool, outcome: ItemOutcome, eos: u32) -> (r: ItemResult)
    requires
        old(pool).wf(),
        old(pool).free() > 0,
        (eos / 32) < old(pool).n_words,
    ensures
        final(pool).wf(),
        final(pool).n_words == old(pool).n_words,
        final(pool).bufs@.len() == old(pool).bufs@.len(),
        r.buf == old(pool).next,
        final(pool).next == old(pool).next + 1,
        final(pool).bufs@[r.buf as int]@ == outcome_mask(outcome, old(pool).n_words as nat, eos),
        forall|i: int| 0 <= i < old(pool).bufs@.len() && i != r.buf ==> final(pool).bufs@[i] == old(pool).bufs@[i],
        r.stopped == outcome_stopped(outcome, old(pool).n_words as nat),
        r.error.is_some() == outcome_failed(outcome, old(pool).n_words as nat),
        outcome matches ItemOutcome::Fault(m) ==> r.error == Some(m),
{
    let n = pool.n_words;
    match outcome {
        ItemOutcome::Mask(bits) => {
            if bits.len() >= n {
                let buf = pool.allocate_copy(&bits);
                ItemResult { buf, stopped: false, error: None }
            } else {
                let m = singleton_mask(n, eos);
                let buf = pool.allocate_copy(&m);
                proof {
                    assert(m@.subrange(0, n as int) =~= eos_only(n as nat, eos));
                }
                ItemResult { buf, stopped: true, error: Some("mask shorter than the vocabulary".to_string()) }
            }
        }
        ItemOutcome::Stopped => {
            let m = singleton_mask(n, eos);
            let buf = pool.allocate_copy(&m);
            proof {
                assert(m@.subrange(0, n as int) =~= eos_only(n as nat, eos));
            }
            ItemResult { buf, stopped: true, error: None }
        }
        ItemOutcome::Fault(msg) => {
            let m = singleton_mask(n, eos);
            let buf = pool.allocate_copy(&m);
            proof {
                assert(m@.subrange(0, n as int) =~= eos_only(n as nat, eos));
            }
            ItemResult { buf, stopped: true, error: Some(msg) }
        }
    }
}

/// Finishes every item of a batch step, in order. Each item's output depends
/// on its own outcome alone: a fault in one item gives that item the
/// end-of-sequence-only mask and an error, and leaves the others as they are.
pub fn finish_batch(pool: &mut MaskPool, outcomes: Vec<ItemOutcome>, eos: u32) -> (r: Vec<ItemResult>)
    requires
        old(pool).wf(),
        old(pool).free() >= outcomes@.len(),
        (eos / 32) < old(pool).n_words,
    ensures
        final(pool).wf(),
        final(pool).n_words == old(pool).n_words,
        final(pool).next == old(pool).next + outcomes@.len(),
        r@.len() == outcomes@.len(),
        forall|i: int| #![trigger r@[i]] 0 <= i < r@.len() ==> {
            &&& r@[i].buf == old(pool).next + i
            &&& final(pool).bufs@[r@[i].buf as int]@ == outcome_mask(outcomes@[i], old(pool).n_words as nat, eos)
            &&& r@[i].stopped == outcome_stopped(outcomes@[i], old(pool).n_words as nat)
            &&& r@[i].error.is_some() == outcome_failed(outcomes@[i], old(pool).n_words as nat)
            &&& (outcomes@[i] matches ItemOutcome::Fault(m) ==> r@[i].error == Some(m))
        },
{
    let ghost orig = outcomes@;
    let ghost start = pool.next;
    let ghost n = pool.n_words as nat;
    let mut outcomes = outcomes;
    let mut r: Vec<ItemResult> = Vec::new();
    while outcomes.len() > 0
        invariant
            pool.wf(),
            pool.n_words == n,
            pool.bufs@.len() == old(pool).bufs@.len(),
            (eos / 32) < n,
            outcomes@ == orig.subrange(r@.len() as int, orig.len() as int),
            r@.len() <= orig.len(),
            pool.next == start + r@.len(),
            start + orig.len() <= pool.bufs@.len(),
            forall|i: int| #![trigger r@[i]] 0 <= i < r@.len() ==> {
                &&& r@[i].buf == start + i
                &&& pool.bufs@[r@[i].buf as int]@ == outcome_mask(orig[i], n, eos)
                &&& r@[i].stopped == outcome_stopped(orig[i], n)
                &&& r@[i].error.is_some() == outcome_failed(orig[i], n)
                &&& (orig[i] matches ItemOutcome::Fault(m) ==> r@[i].error == Some(m))
            },
        decreases outcomes@.len(),
    {
        let o = outcomes.remove(0);
        let ghost k = r@.len() as int;
        let ghost r0 = r@;
        let ghost bufs0 = pool.bufs@;
        assert(o == orig[k]);
        let item = finish_item(pool, o, eos);
        r.push(item);
        proof {
            assert(outcomes@ =~= orig.subrange(r@.len() as int, orig.len() as int));
            assert forall|i: int| #![trigger r@[i]] 0 <= i < r@.len() implies {
                &&& r@[i].buf == start + i
                &&& pool.bufs@[r@[i].buf as int]@ == outcome_mask(orig[i], n, eos)
            } by {
                if i < k {
                    assert(r@[i] == r0[i]);
                    assert(pool.bufs@[r@[i].buf as int] == bufs0[r@[i].buf as int]);
                }
            }
        }
    }
    r
}

} // verus!
