//! The state owned by the queue's worker: the pending requests, in arrival
//! order, and the formation of one batch at a time from their head.
use crate::batch::{
    at, concat, decide, largest, lemma_concat_push, lemma_round_facts, lemma_sum_push,
    lemma_total_push, lemma_trace_settled, round_facts, total, trace, Admission, Batch, Limits,
    NextBatch,
};
use crate::entry::{Entry, Metadata};
use std::collections::VecDeque;
use vstd::prelude::*;

verus! {

/// The token counts of `entries`, in order.
pub open spec fn token_counts<T>(entries: Seq<Entry<T>>) -> Seq<nat> {
    entries.map_values(|e: Entry<T>| e.tokens())
}

/// The requests of `entries` at the positions `picked`, in that order.
pub open spec fn chosen<T>(entries: Seq<Entry<T>>, picked: Seq<int>) -> Seq<Entry<T>> {
    picked.map_values(|i: int| entries[i])
}

/// `nb` holds exactly the requests `sel`, in order, each stamped with the
/// batch time `t`, and their ids laid end to end.
pub open spec fn batch_of<T>(sel: Seq<Entry<T>>, t: std::time::Instant, nb: NextBatch<T>) -> bool {
    let toks = token_counts(sel);
    &&& nb.0@ == sel.map_values(|e: Entry<T>| e.metadata.stamped(t))
    &&& nb.1.input_ids@ == concat(sel.map_values(|e: Entry<T>| e.encoding.input_ids@))
    &&& nb.1.token_type_ids@ == concat(sel.map_values(|e: Entry<T>| e.encoding.token_type_ids@))
    &&& nb.1.position_ids@ == concat(sel.map_values(|e: Entry<T>| e.encoding.position_ids@))
    &&& nb.1.cumulative_seq_lengths@.len() == sel.len() + 1
    &&& forall|k: int|
        0 <= k <= sel.len() ==> #[trigger] nb.1.cumulative_seq_lengths@[k] == total(toks.take(k))
    &&& nb.1.max_length == largest(toks)
}

/// The result of one formation round.
#[verifier::reject_recursive_types(T)]
pub struct Formed<T> {
    /// The batch, or `None` when no request was taken.
    pub batch: Option<NextBatch<T>>,
    /// How many requests were discarded because their caller had gone.
    pub dropped: usize,
}

/// A round over `before`, under `lim`, in which the callers of the requests
/// looked at had gone as `closed` says, left `after` pending and produced `r`.
pub open spec fn formed<T>(
    before: Seq<Entry<T>>,
    lim: Limits,
    closed: Seq<bool>,
    t: std::time::Instant,
    after: Seq<Entry<T>>,
    r: Formed<T>,
) -> bool {
    let p = trace(token_counts(before), closed, lim);
    &&& closed.len() == before.len()
    &&& after == before.skip(p.next as int)
    &&& r.dropped == p.next - p.picked.len()
    &&& (r.batch is None <==> p.picked.len() == 0)
    &&& r.batch is Some ==> batch_of(chosen(before, p.picked), t, r.batch->0)
}

/// The pending requests of a queue and the budgets of its batches.
#[verifier::reject_recursive_types(T)]
pub struct QueueState<T> {
    entries: VecDeque<Entry<T>>,
    limits: Limits,
    capacity: usize,
}

impl<T> QueueState<T> {
    /// The pending requests, oldest first.
    pub closed spec fn pending(&self) -> Seq<Entry<T>> {
        self.entries@
    }

    /// The budgets of each batch.
    pub closed spec fn spec_limits(&self) -> Limits {
        self.limits
    }

    /// Every pending request is well formed, and offsets into a batch fit in `u32`.
    pub open spec fn wf(&self) -> bool {
        &&& self.spec_limits().max_batch_tokens <= u32::MAX
        &&& forall|i: int| 0 <= i < self.pending().len() ==> #[trigger] self.pending()[i].wf()
    }

    /// An empty queue; `max_concurrent_requests` sizes its initial storage.
    pub fn new(max_batch_tokens: usize, max_batch_requests: Option<usize>, max_concurrent_requests: usize) -> (r: Self)
        requires
            max_batch_tokens <= u32::MAX,
        ensures
            r.wf(),
            r.pending() == Seq::<Entry<T>>::empty(),
            r.spec_limits() == (Limits { max_batch_tokens, max_batch_requests }),
    {
        let capacity = match max_batch_requests {
            Some(n) => n,
            None => max_concurrent_requests,
        };
        QueueState {
            entries: VecDeque::with_capacity(max_concurrent_requests),
            limits: Limits { max_batch_tokens, max_batch_requests },
            capacity,
        }
    }

    /// The budgets of each batch.
    pub fn limits(&self) -> (r: Limits)
        ensures
            r == self.spec_limits(),
    {
        self.limits
    }

    /// The number of pending requests.
    pub fn len(&self) -> (r: usize)
        ensures
            r == self.pending().len(),
    {
        self.entries.len()
    }

    /// Adds `entry` behind every pending request.
    pub fn append(&mut self, entry: Entry<T>)
        requires
            old(self).wf(),
            entry.wf(),
        ensures
            final(self).wf(),
            final(self).pending() == old(self).pending().push(entry),
            final(self).spec_limits() == old(self).spec_limits(),
    {
        self.entries.push_back(entry);
        assert forall|i: int| 0 <= i < self.pending().len() implies #[trigger] self.pending()[i].wf() by {
            if i < old(self).pending().len() {
                assert(self.pending()[i] == old(self).pending()[i]);
            }
        }
    }

    /// Forms the next batch from the head of the pending requests.
    ///
    /// Requests are looked at oldest first. One whose caller has gone is
    /// discarded. One that would take the batch over its token budget stays at
    /// the head and closes the batch. Any other is added, and closes the batch
    /// when it brings the number of requests to the request budget.
    pub fn next_batch(&mut self) -> (r: Formed<T>)
        requires
            old(self).wf(),
        ensures
            final(self).wf(),
            final(self).spec_limits() == old(self).spec_limits(),
            exists|closed: Seq<bool>, t: std::time::Instant|
                #[trigger] formed(old(self).pending(), old(self).spec_limits(), closed, t, final(self).pending(), r),
            old(self).pending().len() == 0 ==> r.batch is None && r.dropped == 0 && final(self).pending() == old(self).pending(),
            r.batch is Some ==> {
                let (meta, b) = r.batch->0;
                &&& meta.len() >= 1
                &&& b.cumulative_seq_lengths@.len() == meta.len() + 1
                &&& b.cumulative_seq_lengths@[0] == 0
                &&& b.cumulative_seq_lengths@.last() == b.input_ids@.len()
                &&& b.token_type_ids@.len() == b.input_ids@.len()
                &&& b.position_ids@.len() == b.input_ids@.len()
                &&& b.input_ids@.len() <= old(self).spec_limits().max_batch_tokens
                &&& old(self).spec_limits().max_batch_requests is Some && old(self).spec_limits().max_batch_requests->0 >= 1
                    ==> meta.len() <= old(self).spec_limits().max_batch_requests->0
            },
    {
        let lim = self.limits;
        let n_pending = self.entries.len();
        let batch_time = std::time::Instant::now();
        let mut input_ids: Vec<u32> = Vec::with_capacity(lim.max_batch_tokens);
        let mut token_type_ids: Vec<u32> = Vec::with_capacity(lim.max_batch_tokens);
        let mut position_ids: Vec<u32> = Vec::with_capacity(lim.max_batch_tokens);
        let mut metadata: Vec<Metadata<T>> = Vec::with_capacity(self.capacity);
        let mut cu_seq_lengths: Vec<u32> = Vec::with_capacity(self.capacity);
        cu_seq_lengths.push(0);
        let mut current_tokens: usize = 0;
        let mut max_length: u32 = 0;
        let mut dropped: usize = 0;
        let ghost orig = self.entries@;
        let ghost toks = token_counts(orig);
        let ghost mut seen: Seq<bool> = Seq::empty();
        proof {
            lemma_round_facts(toks, seen, lim);
            assert forall|i: int| 0 <= i < orig.len() implies #[trigger] orig[i].wf() by {
                assert(old(self).pending()[i].wf());
            }
            assert(orig.skip(0) =~= orig);
            assert(at(toks, Seq::empty()) =~= Seq::empty());
        }
        loop
            invariant_except_break
                !trace(toks, seen, lim).stopped,
            invariant
                self.limits == lim,
                self.capacity == old(self).capacity,
                lim.max_batch_tokens <= u32::MAX,
                orig == old(self).entries@,
                n_pending == orig.len(),
                seen.len() <= orig.len(),
                toks == token_counts(orig),
                forall|i: int| 0 <= i < orig.len() ==> #[trigger] orig[i].wf(),
                round_facts(toks, seen, lim, trace(toks, seen, lim)),
                self.entries@ == orig.skip(trace(toks, seen, lim).next as int),
                current_tokens == trace(toks, seen, lim).used,
                input_ids@.len() == current_tokens,
                token_type_ids@.len() == current_tokens,
                position_ids@.len() == current_tokens,
                dropped == trace(toks, seen, lim).next - trace(toks, seen, lim).picked.len(),
                metadata@ == chosen(orig, trace(toks, seen, lim).picked).map_values(
                    |e: Entry<T>| e.metadata.stamped(batch_time),
                ),
                input_ids@ == concat(chosen(orig, trace(toks, seen, lim).picked).map_values(
                    |e: Entry<T>| e.encoding.input_ids@,
                )),
                token_type_ids@ == concat(chosen(orig, trace(toks, seen, lim).picked).map_values(
                    |e: Entry<T>| e.encoding.token_type_ids@,
                )),
                position_ids@ == concat(chosen(orig, trace(toks, seen, lim).picked).map_values(
                    |e: Entry<T>| e.encoding.position_ids@,
                )),
                token_counts(chosen(orig, trace(toks, seen, lim).picked)) == at(toks, trace(toks, seen, lim).picked),
                cu_seq_lengths@.len() == metadata@.len() + 1,
                forall|k: int|
                    0 <= k <= metadata@.len() ==> #[trigger] cu_seq_lengths@[k] == total(
                        at(toks, trace(toks, seen, lim).picked).take(k),
                    ),
                max_length == largest(at(toks, trace(toks, seen, lim).picked)),
            ensures
                trace(toks, seen, lim).done(toks),
            decreases self.entries@.len(),
        {
            let ghost p = trace(toks, seen, lim);
            match self.entries.pop_front() {
                None => {
                    break;
                },
                Some(entry) => {
                    let ghost i = p.next as int;
                    assert(entry == orig[i]);
                    let Entry { mut encoding, metadata: mut meta } = entry;
                    let closed = meta.response_tx.is_closed();
                    let entry_tokens = encoding.input_ids.len();
                    let step = decide(current_tokens, metadata.len(), entry_tokens, closed, lim);
                    proof {
                        assert(seen.push(closed).drop_last() =~= seen);
                        seen = seen.push(closed);
                        lemma_round_facts(toks, seen, lim);
                        assert(toks[i] == entry_tokens);
                        assert(orig[i].wf());
                    }
                    let ghost q = trace(toks, seen, lim);
                    match step {
                        Admission::Drop => {
                            dropped = dropped + 1;
                            assert(self.entries@ =~= orig.skip(q.next as int));
                        },
                        Admission::Defer => {
                            self.entries.push_front(Entry { encoding, metadata: meta });
                            assert(self.entries@ =~= orig.skip(q.next as int));
                            break;
                        },
                        _ => {
                            let ghost sel = chosen(orig, p.picked);
                            proof {
                                lemma_sum_push(toks, p.picked, i);
                                lemma_total_push(at(toks, p.picked), toks[i]);
                                assert(chosen(orig, q.picked) =~= sel.push(orig[i]));
                                assert(token_counts(chosen(orig, q.picked)) =~= at(toks, q.picked));
                                lemma_concat_push(sel.map_values(|e: Entry<T>| e.encoding.input_ids@), encoding.input_ids@);
                                assert(chosen(orig, q.picked).map_values(|e: Entry<T>| e.encoding.input_ids@)
                                    =~= sel.map_values(|e: Entry<T>| e.encoding.input_ids@).push(encoding.input_ids@));
                                lemma_concat_push(sel.map_values(|e: Entry<T>| e.encoding.token_type_ids@), encoding.token_type_ids@);
                                assert(chosen(orig, q.picked).map_values(|e: Entry<T>| e.encoding.token_type_ids@)
                                    =~= sel.map_values(|e: Entry<T>| e.encoding.token_type_ids@).push(encoding.token_type_ids@));
                                lemma_concat_push(sel.map_values(|e: Entry<T>| e.encoding.position_ids@), encoding.position_ids@);
                                assert(chosen(orig, q.picked).map_values(|e: Entry<T>| e.encoding.position_ids@)
                                    =~= sel.map_values(|e: Entry<T>| e.encoding.position_ids@).push(encoding.position_ids@));
                            }
                            let tokens32 = entry_tokens as u32;
                            if max_length < tokens32 {
                                max_length = tokens32;
                            }
                            meta.batch_time = Some(batch_time);
                            input_ids.append(&mut encoding.input_ids);
                            token_type_ids.append(&mut encoding.token_type_ids);
                            position_ids.append(&mut encoding.position_ids);
                            current_tokens = current_tokens + entry_tokens;
                            metadata.push(meta);
                            cu_seq_lengths.push(current_tokens as u32);
                            proof {
                                assert(metadata@ =~= chosen(orig, q.picked).map_values(
                                    |e: Entry<T>| e.metadata.stamped(batch_time),
                                ));
                                assert forall|k: int| 0 <= k <= metadata@.len() implies #[trigger] cu_seq_lengths@[k] == total(
                                    at(toks, q.picked).take(k),
                                ) by {
                                    if k < metadata@.len() {
                                        assert(at(toks, q.picked).take(k) =~= at(toks, p.picked).take(k));
                                    } else {
                                        assert(at(toks, q.picked).take(k) =~= at(toks, q.picked));
                                    }
                                }
                                assert(self.entries@ =~= orig.skip(q.next as int));
                            }
                            if step == Admission::TakeLast {
                                break;
                            }
                        },
                    }
                },
            }
        }
        let r = if metadata.len() == 0 {
            Formed { batch: None, dropped }
        } else {
            Formed {
                batch: Some((
                    metadata,
                    Batch {
                        input_ids,
                        token_type_ids,
                        position_ids,
                        cumulative_seq_lengths: cu_seq_lengths,
                        max_length,
                    },
                )),
                dropped,
            }
        };
        proof {
            let p = trace(toks, seen, lim);
            let pad = Seq::new((orig.len() - seen.len()) as nat, |i: int| false);
            lemma_trace_settled(toks, seen, pad, lim);
            assert(at(toks, p.picked).take(p.picked.len() as int) =~= at(toks, p.picked));
            assert(at(toks, p.picked).take(0) =~= Seq::<nat>::empty());
            assert(formed(orig, lim, seen + pad, batch_time, self.entries@, r));
            assert(old(self).pending() == orig);
            assert(formed(old(self).pending(), old(self).spec_limits(), seen + pad, batch_time, self.pending(), r));
        }
        r
    }
}

} // verus!
