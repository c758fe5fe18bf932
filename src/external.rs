//! Outside types that the queue carries through without looking inside, and
//! the few outside calls that batch formation makes.
use vstd::prelude::*;

verus! {

/// The reply half of a one-shot channel, held by each pending request.
#[verifier::external_type_specification]
#[verifier::external_body]
#[verifier::reject_recursive_types(T)]
pub struct ExOneshotSender<T>(tokio::sync::oneshot::Sender<T>);

/// The tracing context that travels with each request.
#[verifier::external_type_specification]
#[verifier::external_body]
pub struct ExSpan(tracing::Span);

/// A point in monotonic time.
#[verifier::external_type_specification]
#[verifier::external_body]
pub struct ExInstant(std::time::Instant);

/// Relies on tokio's `oneshot::Sender::is_closed`: it reports whether the
/// receiving side is gone. That depends on another task, so nothing is
/// promised of the answer.
pub assume_specification<T>[ tokio::sync::oneshot::Sender::<T>::is_closed ](
    s: &tokio::sync::oneshot::Sender<T>,
) -> bool;

/// Relies on `Instant::now`: the current time, of which nothing is promised.
pub assume_specification[ std::time::Instant::now ]() -> std::time::Instant;

} // verus!
