//! Operations in flight: each waits for the reply to one call, and fails
//! when that reply does not come within the timeout.
use vstd::prelude::*;
use crate::message::Message;

verus! {

/// How long an operation waits for one reply, in milliseconds.
pub const RPC_TIMEOUT_MS: u64 = 1000;

/// A timer event: the node's clock reads `now_ms`.
pub struct Tick {
    pub now_ms: u64,
}

/// An operation in flight: the id of the call it waits on, when that call
/// was sent, the request it serves, and where it stands.
pub struct Pending<P, Op> {
    pub awaiting: usize,
    pub since: u64,
    pub request: Message<P>,
    pub op: Op,
}

/// The first position of an operation waiting on call `a`, or -1.
pub open spec fn index_awaiting<P, Op>(p: Seq<Pending<P, Op>>, a: usize) -> int
    decreases p.len(),
{
    if p.len() == 0 {
        -1
    } else {
        let i = index_awaiting(p.drop_last(), a);
        if i >= 0 {
            i
        } else if p.last().awaiting == a {
            p.len() - 1
        } else {
            -1
        }
    }
}

pub proof fn lemma_index_awaiting<P, Op>(p: Seq<Pending<P, Op>>, a: usize)
    ensures
        -1 <= index_awaiting(p, a) < p.len(),
        index_awaiting(p, a) >= 0 ==> p[index_awaiting(p, a)].awaiting == a,
        index_awaiting(p, a) == -1 ==> forall|j: int| 0 <= j < p.len() ==> #[trigger] p[j].awaiting != a,
        forall|j: int| 0 <= j < index_awaiting(p, a) ==> #[trigger] p[j].awaiting != a,
    decreases p.len(),
{
    if p.len() > 0 {
        lemma_index_awaiting(p.drop_last(), a);
        assert forall|j: int| 0 <= j < p.len() - 1 implies #[trigger] p[j] == p.drop_last()[j] by {}
    }
}

/// The position of the first operation waiting on call `a`, if any.
pub fn find_awaiting<P, Op>(p: &Vec<Pending<P, Op>>, a: usize) -> (r: Option<usize>)
    ensures
        r matches Some(i) ==> i as int == index_awaiting(p@, a) && i < p@.len(),
        r is None ==> index_awaiting(p@, a) == -1,
{
    proof {
        lemma_index_awaiting(p@, a);
    }
    let mut i: usize = 0;
    while i < p.len()
        invariant
            i <= p@.len(),
            forall|j: int| 0 <= j < i ==> #[trigger] p@[j].awaiting != a,
            -1 <= index_awaiting(p@, a) < p@.len(),
            index_awaiting(p@, a) >= 0 ==> p@[index_awaiting(p@, a)].awaiting == a,
            index_awaiting(p@, a) == -1 ==> forall|j: int| 0 <= j < p@.len() ==> #[trigger] p@[j].awaiting != a,
            forall|j: int| 0 <= j < index_awaiting(p@, a) ==> #[trigger] p@[j].awaiting != a,
        decreases p@.len() - i,
    {
        if p[i].awaiting == a {
            return Some(i);
        }
        i = i + 1;
    }
    None
}

/// Whether an operation whose call went out at `since` may still wait at
/// time `now`.
pub open spec fn still_waits<P, Op>(now: u64) -> spec_fn(Pending<P, Op>) -> bool {
    |p: Pending<P, Op>| (now as int) < (p.since as int) + (RPC_TIMEOUT_MS as int)
}

/// Drops every operation that has waited the timeout or longer at time
/// `now`, keeping the others in order; returns how many were dropped.
pub fn expire<P, Op>(p: &mut Vec<Pending<P, Op>>, now: u64) -> (n: usize)
    ensures
        final(p)@ == old(p)@.filter(still_waits::<P, Op>(now)),
        n == old(p)@.len() - final(p)@.len(),
{
    let ghost pred = still_waits::<P, Op>(now);
    let ghost orig = p@;
    let n0 = p.len();
    let mut i: usize = 0;
    let ghost mut j: int = 0;
    proof {
        reveal(Seq::filter);
        assert(orig.subrange(0, 0).filter(pred) =~= Seq::<Pending<P, Op>>::empty());
        assert(p@ =~= orig.subrange(0, 0).filter(pred) + orig.subrange(0, orig.len() as int));
    }
    while i < p.len()
        invariant
            0 <= j <= orig.len(),
            n0 == orig.len(),
            pred == still_waits::<P, Op>(now),
            p@ == orig.subrange(0, j).filter(pred) + orig.subrange(j, orig.len() as int),
            i == orig.subrange(0, j).filter(pred).len(),
        decreases p@.len() - i,
    {
        let ghost before = p@;
        assert(p@[i as int] == orig[j]);
        let keep = (now as u128) < (p[i].since as u128) + (RPC_TIMEOUT_MS as u128);
        proof {
            assert(orig.subrange(0, j + 1) =~= orig.subrange(0, j).push(orig[j]));
            orig.subrange(0, j).lemma_filter_push(orig[j], pred);
        }
        if keep {
            i = i + 1;
            proof {
                j = j + 1;
                assert(p@ =~= orig.subrange(0, j).filter(pred) + orig.subrange(j, orig.len() as int));
            }
        } else {
            p.remove(i);
            proof {
                j = j + 1;
                assert(p@ =~= orig.subrange(0, j).filter(pred) + orig.subrange(j, orig.len() as int));
            }
        }
    }
    proof {
        assert(j == orig.len()) by {
            if j < orig.len() {
                assert(p@.len() > i);
            }
        }
        assert(orig.subrange(0, j) =~= orig);
        assert(p@ =~= orig.filter(pred));
        orig.lemma_filter_len(pred);
    }
    n0 - p.len()
}

} // verus!
