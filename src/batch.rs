//! The batch-formation policy: which pending requests go into the next batch,
//! and the flat buffers that a batch hands to the backend.
use crate::entry::Metadata;
use vstd::prelude::*;

verus! {

/// The flattened, backend-ready form of a set of requests.
pub struct Batch {
    /// The token ids of every request, one after the other.
    pub input_ids: Vec<u32>,
    /// The token type ids, laid out as `input_ids`.
    pub token_type_ids: Vec<u32>,
    /// The position ids, laid out as `input_ids`.
    pub position_ids: Vec<u32>,
    /// Request `i` occupies `[cumulative_seq_lengths[i], cumulative_seq_lengths[i + 1])`.
    pub cumulative_seq_lengths: Vec<u32>,
    /// The longest request, in tokens.
    pub max_length: u32,
}

/// The requests of a batch, in batch order, with the batch itself.
pub type NextBatch<T> = (Vec<Metadata<T>>, Batch);

/// The two budgets that bound one batch.
#[derive(Clone, Copy, Debug)]
pub struct Limits {
    /// The most tokens that one batch may hold.
    pub max_batch_tokens: usize,
    /// The number of requests after which a batch is closed, if any.
    pub max_batch_requests: Option<usize>,
}

/// What happens to the request at the head of the pending queue.
#[derive(Clone, Copy, Debug, PartialEq, Eq, Structural)]
pub enum Admission {
    /// Its caller has gone: discard it and look at the next one.
    Drop,
    /// It does not fit: leave it at the head and close the batch.
    Defer,
    /// Add it and look at the next one.
    Take,
    /// Add it; the batch has then reached its request budget.
    TakeLast,
}

/// The decision for a request of `tokens` tokens, when `used` tokens and
/// `taken` requests are already in the batch.
pub open spec fn admission(used: nat, taken: nat, tokens: nat, closed: bool, lim: Limits) -> Admission {
    if closed {
        Admission::Drop
    } else if used + tokens > lim.max_batch_tokens {
        Admission::Defer
    } else if lim.max_batch_requests is Some && taken + 1 == lim.max_batch_requests->0 {
        Admission::TakeLast
    } else {
        Admission::Take
    }
}

/// Decides what to do with the request at the head of the pending queue;
/// `closed` tells whether its caller has gone.
pub fn decide(used: usize, taken: usize, tokens: usize, closed: bool, lim: Limits) -> (r: Admission)
    requires
        used <= lim.max_batch_tokens,
    ensures
        r == admission(used as nat, taken as nat, tokens as nat, closed, lim),
{
    if closed {
        Admission::Drop
    } else if tokens > lim.max_batch_tokens - used {
        Admission::Defer
    } else {
        match lim.max_batch_requests {
            Some(r) => {
                if r > 0 && taken == r - 1 {
                    Admission::TakeLast
                } else {
                    Admission::Take
                }
            },
            None => Admission::Take,
        }
    }
}

/// The state of one formation round over a pending queue whose requests have
/// the token counts `toks`.
pub struct Round {
    /// The position of the next request to look at.
    pub next: nat,
    /// The tokens taken so far.
    pub used: nat,
    /// The positions of the requests taken so far, in order.
    pub picked: Seq<int>,
    /// Whether the batch has been closed.
    pub stopped: bool,
}

impl Round {
    /// Nothing more will be taken in this round.
    pub open spec fn done(self, toks: Seq<nat>) -> bool {
        self.stopped || self.next >= toks.len()
    }
}

/// The round after looking at the next request, whose caller has gone if `closed`.
pub open spec fn advance(p: Round, toks: Seq<nat>, closed: bool, lim: Limits) -> Round {
    if p.done(toks) {
        p
    } else {
        let t = toks[p.next as int];
        match admission(p.used, p.picked.len(), t, closed, lim) {
            Admission::Drop => Round { next: p.next + 1, ..p },
            Admission::Defer => Round { stopped: true, ..p },
            Admission::Take => Round {
                next: p.next + 1,
                used: p.used + t,
                picked: p.picked.push(p.next as int),
                stopped: false,
            },
            Admission::TakeLast => Round {
                next: p.next + 1,
                used: p.used + t,
                picked: p.picked.push(p.next as int),
                stopped: true,
            },
        }
    }
}

/// The round after looking at one request per element of `closed`, starting
/// from an empty batch at the head of the queue.
pub open spec fn trace(toks: Seq<nat>, closed: Seq<bool>, lim: Limits) -> Round
    decreases closed.len(),
{
    if closed.len() == 0 {
        Round { next: 0, used: 0, picked: Seq::empty(), stopped: false }
    } else {
        advance(trace(toks, closed.drop_last(), lim), toks, closed.last(), lim)
    }
}

/// The sum of `s`.
pub open spec fn total(s: Seq<nat>) -> nat
    decreases s.len(),
{
    if s.len() == 0 {
        0
    } else {
        total(s.drop_last()) + s.last()
    }
}

/// The largest element of `s`, or 0.
pub open spec fn largest(s: Seq<nat>) -> nat
    decreases s.len(),
{
    if s.len() == 0 {
        0
    } else {
        let m = largest(s.drop_last());
        if m >= s.last() { m } else { s.last() }
    }
}

/// The elements of `toks` at the positions `picked`, in that order.
pub open spec fn at(toks: Seq<nat>, picked: Seq<int>) -> Seq<nat> {
    picked.map_values(|i: int| toks[i])
}

/// The sum of `toks` over the positions `picked`.
pub open spec fn sum_at(toks: Seq<nat>, picked: Seq<int>) -> nat {
    total(at(toks, picked))
}

/// The sequences of `parts`, one after the other.
pub open spec fn concat(parts: Seq<Seq<u32>>) -> Seq<u32>
    decreases parts.len(),
{
    if parts.len() == 0 {
        Seq::empty()
    } else {
        concat(parts.drop_last()) + parts.last()
    }
}

/// What holds of a round after any number of steps.
pub open spec fn round_facts(toks: Seq<nat>, closed: Seq<bool>, lim: Limits, p: Round) -> bool {
    &&& p.next <= toks.len()
    &&& p.next <= closed.len()
    &&& !p.done(toks) ==> p.next == closed.len()
    &&& p.used == sum_at(toks, p.picked)
    &&& p.used <= lim.max_batch_tokens
    &&& forall|k: int| 0 <= k < p.picked.len() ==> 0 <= #[trigger] p.picked[k] < p.next
    &&& forall|j: int, k: int| 0 <= j < k < p.picked.len() ==> p.picked[j] < p.picked[k]
    &&& forall|i: int| 0 <= i < p.next ==> (#[trigger] p.picked.contains(i) <==> !closed[i])
    &&& lim.max_batch_requests is Some && lim.max_batch_requests->0 >= 1 ==> {
        &&& p.picked.len() <= lim.max_batch_requests->0
        &&& !p.stopped ==> p.picked.len() < lim.max_batch_requests->0
    }
    &&& p.stopped ==> {
        ||| p.picked.len() >= 1 && lim.max_batch_requests == Some(p.picked.len() as usize)
        ||| {
            &&& p.next < toks.len()
            &&& p.next < closed.len()
            &&& !closed[p.next as int]
            &&& p.used + toks[p.next as int] > lim.max_batch_tokens
        }
    }
}

/// The sum and the largest element after one more element.
pub proof fn lemma_total_push(s: Seq<nat>, x: nat)
    ensures
        total(s.push(x)) == total(s) + x,
        largest(s.push(x)) == if largest(s) >= x { largest(s) } else { x },
{
    assert(s.push(x).drop_last() =~= s);
}

/// Taking one more position adds its token count.
pub proof fn lemma_sum_push(toks: Seq<nat>, picked: Seq<int>, i: int)
    ensures
        at(toks, picked.push(i)) == at(toks, picked).push(toks[i]),
        sum_at(toks, picked.push(i)) == sum_at(toks, picked) + toks[i],
{
    assert(at(toks, picked.push(i)) =~= at(toks, picked).push(toks[i]));
    lemma_total_push(at(toks, picked), toks[i]);
}

/// Every round reached from an empty batch satisfies `round_facts`.
pub proof fn lemma_round_facts(toks: Seq<nat>, closed: Seq<bool>, lim: Limits)
    ensures
        round_facts(toks, closed, lim, trace(toks, closed, lim)),
    decreases closed.len(),
{
    let p = trace(toks, closed, lim);
    if closed.len() == 0 {
        assert(p.picked.len() == 0);
    } else {
        let c0 = closed.drop_last();
        let q = trace(toks, c0, lim);
        lemma_round_facts(toks, c0, lim);
        assert forall|i: int| 0 <= i < c0.len() implies closed[i] == c0[i] by {}
        if !q.done(toks) {
            let t = toks[q.next as int];
            assert(closed[q.next as int] == closed.last());
            match admission(q.used, q.picked.len(), t, closed.last(), lim) {
                Admission::Drop => {
                    assert forall|i: int| 0 <= i < p.next implies (#[trigger] p.picked.contains(i) <==> !closed[i]) by {
                        if i == q.next {
                            if p.picked.contains(i) {
                                let k = choose|k: int| 0 <= k < p.picked.len() && p.picked[k] == i;
                            }
                        }
                    }
                },
                Admission::Defer => {},
                _ => {
                    lemma_sum_push(toks, q.picked, q.next as int);
                    assert forall|i: int| 0 <= i < p.next implies (#[trigger] p.picked.contains(i) <==> !closed[i]) by {
                        if i == q.next {
                            assert(p.picked[p.picked.len() - 1] == i);
                        } else {
                            if p.picked.contains(i) {
                                let k = choose|k: int| 0 <= k < p.picked.len() && p.picked[k] == i;
                                assert(q.picked[k] == i);
                            }
                            if q.picked.contains(i) {
                                let k = choose|k: int| 0 <= k < q.picked.len() && q.picked[k] == i;
                                assert(p.picked[k] == i);
                            }
                        }
                    }
                },
            }
        }
    }
}

/// Steps taken after the batch is closed change nothing.
pub proof fn lemma_trace_settled(toks: Seq<nat>, closed: Seq<bool>, more: Seq<bool>, lim: Limits)
    requires
        trace(toks, closed, lim).done(toks),
    ensures
        trace(toks, closed + more, lim) == trace(toks, closed, lim),
    decreases more.len(),
{
    if more.len() > 0 {
        let shorter = more.drop_last();
        lemma_trace_settled(toks, closed, shorter, lim);
        assert((closed + more).drop_last() =~= closed + shorter);
    }
}

/// Laying one more sequence at the end appends it.
pub proof fn lemma_concat_push(parts: Seq<Seq<u32>>, x: Seq<u32>)
    ensures
        concat(parts.push(x)) == concat(parts) + x,
{
    assert(parts.push(x).drop_last() =~= parts);
}

} // verus!
