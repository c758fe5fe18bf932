//! A pending request: its token ids and the bookkeeping that outlives them.
use vstd::prelude::*;

verus! {

/// The tokenizer's output for one request: three sequences of equal length.
pub struct Encoding {
    pub input_ids: Vec<u32>,
    pub token_type_ids: Vec<u32>,
    pub position_ids: Vec<u32>,
}

impl Encoding {
    /// The three id sequences have one element per token.
    pub open spec fn wf(&self) -> bool {
        &&& self.token_type_ids@.len() == self.input_ids@.len()
        &&& self.position_ids@.len() == self.input_ids@.len()
    }

    /// The number of tokens.
    pub open spec fn tokens(&self) -> nat {
        self.input_ids@.len()
    }
}

/// Per-request bookkeeping; `T` is what is eventually sent back to the caller.
#[verifier::reject_recursive_types(T)]
pub struct Metadata<T> {
    /// Where the result for this request is delivered.
    pub response_tx: tokio::sync::oneshot::Sender<T>,
    /// Tracing context that lives as long as the request.
    pub span: tracing::Span,
    /// Time spent tokenizing.
    pub tokenization: std::time::Duration,
    /// When the request was queued.
    pub queue_time: std::time::Instant,
    /// When the request was placed into a batch.
    pub batch_time: Option<std::time::Instant>,
    /// The number of tokens in the prompt.
    pub prompt_tokens: usize,
}

impl<T> Metadata<T> {
    /// These metadata with the batch time set to `t`.
    pub open spec fn stamped(self, t: std::time::Instant) -> Metadata<T> {
        Metadata { batch_time: Some(t), ..self }
    }
}

/// A queued request.
#[verifier::reject_recursive_types(T)]
pub struct Entry<T> {
    /// The token ids.
    pub encoding: Encoding,
    /// The bookkeeping that travels into the batch.
    pub metadata: Metadata<T>,
}

impl<T> Entry<T> {
    /// Its encoding is well formed.
    pub open spec fn wf(&self) -> bool {
        self.encoding.wf()
    }

    /// The number of tokens of its encoding.
    pub open spec fn tokens(&self) -> nat {
        self.encoding.tokens()
    }
}

} // verus!
