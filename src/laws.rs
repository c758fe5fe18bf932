//! What holds of every formation round, whichever callers have gone.
use crate::batch::{
    at, concat, lemma_round_facts, total, trace, Limits, Round,
};
use crate::entry::Entry;
use crate::queue::{chosen, formed, token_counts, Formed};
use vstd::prelude::*;

verus! {

/// Requests are taken in arrival order: the positions taken increase, every
/// request passed over was one whose caller had gone, and the round stops
/// short of the end of the queue only at a live request that does not fit, or
/// when the request budget is met. The oldest live request is always taken
/// when it fits the token budget on its own.
pub proof fn lemma_fifo(toks: Seq<nat>, closed: Seq<bool>, lim: Limits)
    requires
        closed.len() == toks.len(),
    ensures
        ({
            let p = trace(toks, closed, lim);
            &&& forall|j: int, k: int| 0 <= j < k < p.picked.len() ==> p.picked[j] < p.picked[k]
            &&& forall|k: int| 0 <= k < p.picked.len() ==> 0 <= #[trigger] p.picked[k] < p.next
            &&& forall|i: int| 0 <= i < p.next ==> (#[trigger] p.picked.contains(i) <==> !closed[i])
            &&& p.next < toks.len() ==> {
                ||| p.picked.len() >= 1 && lim.max_batch_requests == Some(p.picked.len() as usize)
                ||| !closed[p.next as int] && p.used + toks[p.next as int] > lim.max_batch_tokens
            }
            &&& forall|i: int|
                0 <= i < toks.len() && !closed[i] && toks[i] <= lim.max_batch_tokens
                    && (forall|j: int| 0 <= j < i ==> closed[j])
                    ==> p.picked.len() >= 1 && #[trigger] p.picked[0] == i
        }),
{
    let p = trace(toks, closed, lim);
    lemma_round_facts(toks, closed, lim);
    assert forall|i: int|
        0 <= i < toks.len() && !closed[i] && toks[i] <= lim.max_batch_tokens
            && (forall|j: int| 0 <= j < i ==> closed[j])
            implies p.picked.len() >= 1 && #[trigger] p.picked[0] == i by {
        if p.next <= i {
            if p.picked.len() > 0 {
                assert(closed[p.picked[0]]);
                assert(p.picked.contains(p.picked[0]));
            }
            assert(p.next == i);
        }
        assert(p.picked.contains(i));
        let k = choose|k: int| 0 <= k < p.picked.len() && p.picked[k] == i;
        if k > 0 {
            assert(p.picked.contains(p.picked[0]));
            assert(!closed[p.picked[0]]);
        }
    }
}

/// The length of sequences laid end to end is the sum of their lengths.
pub proof fn lemma_concat_len(parts: Seq<Seq<u32>>)
    ensures
        concat(parts).len() == total(parts.map_values(|x: Seq<u32>| x.len())),
    decreases parts.len(),
{
    if parts.len() > 0 {
        lemma_concat_len(parts.drop_last());
        assert(parts.map_values(|x: Seq<u32>| x.len()).drop_last()
            =~= parts.drop_last().map_values(|x: Seq<u32>| x.len()));
    }
}

/// In every batch the token counts of its requests add up to the length of
/// each flat buffer and to the last offset, and that sum is within the token
/// budget.
pub proof fn lemma_batch_tokens<T>(
    before: Seq<Entry<T>>,
    lim: Limits,
    closed: Seq<bool>,
    t: std::time::Instant,
    after: Seq<Entry<T>>,
    r: Formed<T>,
)
    requires
        forall|i: int| 0 <= i < before.len() ==> #[trigger] before[i].wf(),
        formed(before, lim, closed, t, after, r),
        r.batch is Some,
    ensures
        ({
            let b = (r.batch->0).1;
            let sel = chosen(before, trace(token_counts(before), closed, lim).picked);
            &&& total(token_counts(sel)) == b.input_ids@.len()
            &&& b.token_type_ids@.len() == b.input_ids@.len()
            &&& b.position_ids@.len() == b.input_ids@.len()
            &&& b.cumulative_seq_lengths@.last() == b.input_ids@.len()
            &&& b.input_ids@.len() <= lim.max_batch_tokens
        }),
{
    let toks = token_counts(before);
    let p = trace(toks, closed, lim);
    let sel = chosen(before, p.picked);
    let b = (r.batch->0).1;
    lemma_round_facts(toks, closed, lim);
    assert(token_counts(sel) =~= at(toks, p.picked));
    let ids = sel.map_values(|e: Entry<T>| e.encoding.input_ids@);
    let types = sel.map_values(|e: Entry<T>| e.encoding.token_type_ids@);
    let pos = sel.map_values(|e: Entry<T>| e.encoding.position_ids@);
    lemma_concat_len(ids);
    lemma_concat_len(types);
    lemma_concat_len(pos);
    assert forall|k: int| 0 <= k < sel.len() implies #[trigger] sel[k].wf() by {
        assert(before[p.picked[k]].wf());
    }
    assert forall|k: int| 0 <= k < sel.len() implies types[k].len() == #[trigger] token_counts(sel)[k]
        && pos[k].len() == token_counts(sel)[k] by {
        assert(sel[k].wf());
    }
    assert(ids.map_values(|x: Seq<u32>| x.len()) =~= token_counts(sel));
    assert(types.map_values(|x: Seq<u32>| x.len()) =~= token_counts(sel));
    assert(pos.map_values(|x: Seq<u32>| x.len()) =~= token_counts(sel));
    assert(token_counts(sel).take(sel.len() as int) =~= token_counts(sel));
    assert(b.cumulative_seq_lengths@[sel.len() as int] == total(token_counts(sel)));
}

/// Every batch has one offset more than it has requests and, under a request
/// budget of at least one, no more requests than the budget.
pub proof fn lemma_batch_requests<T>(
    before: Seq<Entry<T>>,
    lim: Limits,
    closed: Seq<bool>,
    t: std::time::Instant,
    after: Seq<Entry<T>>,
    r: Formed<T>,
)
    requires
        formed(before, lim, closed, t, after, r),
        r.batch is Some,
    ensures
        ({
            let (meta, b) = r.batch->0;
            &&& meta@.len() == b.cumulative_seq_lengths@.len() - 1
            &&& lim.max_batch_requests is Some && lim.max_batch_requests->0 >= 1
                ==> meta@.len() <= lim.max_batch_requests->0
        }),
{
    lemma_round_facts(token_counts(before), closed, lim);
}

/// The positions `picked` of a queue from which position `i` was removed,
/// as positions of the queue before the removal.
pub open spec fn shifted(picked: Seq<int>, i: int) -> Seq<int> {
    picked.map_values(|j: int| if j < i { j } else { j + 1 })
}

/// Round `a` over a queue, and round `b` over the same queue without
/// position `i`, have taken the same requests.
pub open spec fn same_round(a: Round, b: Round, i: int) -> bool {
    &&& a.used == b.used
    &&& a.stopped == b.stopped
    &&& a.picked == shifted(b.picked, i)
    &&& if a.next > i { a.next == b.next + 1 } else { a.next == b.next }
}

proof fn lemma_without_prefix(toks: Seq<nat>, closed: Seq<bool>, lim: Limits, i: int, k: int)
    requires
        closed.len() == toks.len(),
        0 <= i < toks.len(),
        closed[i],
        0 <= k <= toks.len(),
    ensures
        same_round(
            trace(toks, closed.take(k), lim),
            trace(toks.remove(i), closed.remove(i).take(if k <= i { k } else { k - 1 }), lim),
            i,
        ),
    decreases k,
{
    let toks2 = toks.remove(i);
    let closed2 = closed.remove(i);
    if k == 0 {
        assert(shifted(Seq::<int>::empty(), i) =~= Seq::<int>::empty());
    } else {
        lemma_without_prefix(toks, closed, lim, i, k - 1);
        lemma_round_facts(toks, closed.take(k - 1), lim);
        assert(closed.take(k).drop_last() =~= closed.take(k - 1));
        let a = trace(toks, closed.take(k - 1), lim);
        if k - 1 <= i {
            let b = trace(toks2, closed2.take(k - 1), lim);
            if k - 1 < i {
                assert(closed2.take(k).drop_last() =~= closed2.take(k - 1));
                assert(closed2.take(k).last() == closed.take(k).last());
                if !a.done(toks) {
                    assert(toks2[b.next as int] == toks[a.next as int]);
                    assert(shifted(b.picked.push(b.next as int), i) =~= shifted(b.picked, i).push(a.next as int));
                }
            }
        } else {
            let b = trace(toks2, closed2.take(k - 2), lim);
            assert(closed2.take(k - 1).drop_last() =~= closed2.take(k - 2));
            assert(closed2.take(k - 1).last() == closed.take(k).last());
            if !a.done(toks) {
                assert(toks2[b.next as int] == toks[a.next as int]);
                assert(shifted(b.picked.push(b.next as int), i) =~= shifted(b.picked, i).push(a.next as int));
            }
        }
    }
}

/// A request whose caller has gone counts toward neither budget: the round
/// takes the same requests, with the same tokens, as it would on the queue
/// without that request, and never takes the request itself.
pub proof fn lemma_cancelled_is_skipped(toks: Seq<nat>, closed: Seq<bool>, lim: Limits, i: int)
    requires
        closed.len() == toks.len(),
        0 <= i < toks.len(),
        closed[i],
    ensures
        ({
            let a = trace(toks, closed, lim);
            let b = trace(toks.remove(i), closed.remove(i), lim);
            &&& a.used == b.used
            &&& a.picked == shifted(b.picked, i)
            &&& !a.picked.contains(i)
        }),
{
    lemma_without_prefix(toks, closed, lim, i, toks.len() as int);
    assert(closed.take(toks.len() as int) =~= closed);
    assert(closed.remove(i).take(toks.len() - 1) =~= closed.remove(i));
    let a = trace(toks, closed, lim);
    if a.picked.contains(i) {
        let k = choose|k: int| 0 <= k < a.picked.len() && a.picked[k] == i;
    }
}

} // verus!
