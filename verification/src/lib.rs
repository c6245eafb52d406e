//! A linearizability checker for histories of concurrent operations.
//!
//! A history is linearizable when its operations can be put in one order
//! that respects real time (an operation that returned before another was
//! invoked comes first) and that the model accepts step by step.
pub mod bitset;
pub mod skip_list;
pub mod model;
pub mod history;
pub mod partition;
pub mod cache;
pub mod linearizer;
pub mod coverage;
pub mod checker;
pub mod linearization_info;
pub mod events;
pub mod visualization;
pub mod etcd;
pub mod kv;
pub mod jepsen;
pub mod log_format;
pub mod wing_gong;
pub mod locality;

pub use linearization_info::{Annotation, LinearizationInfo};
pub use model::{CheckResult, Event, EventModel, Model, Operation};

use checker::{
    all_events_linearizable, all_events_wf, all_linearizable, build_event_partitions,
    build_operation_partitions, check_partitions, holds_parts, lemma_all_events_permutation,
    lemma_all_linearizable_permutation,
};
use events::events_to_ops;
use history::{is_linearization, linearizable};
use linearizer::as_order;
use model::{events_wf, parts_view, splits};
use vstd::laws_eq::obeys_concrete_eq;
use vstd::prelude::*;

verus! {

/// Returns `true` if `history` is linearizable.
///
/// The history is checked in the parts that the model splits it into
/// (`Model::partition_spec`), and the answer is `true` exactly when every
/// part is linearizable (when the model's states compare as they are).
pub fn check_operations<M: Model>(history: Vec<Operation<M>>) -> (r: bool)
    requires
        history@.len() < usize::MAX / 2,
    ensures
        r ==> all_linearizable(M::partition_spec(history@)),
        obeys_concrete_eq::<M::State>() ==> (r <==> all_linearizable(M::partition_spec(history@))),
{
    let ghost h = history@;
    let partitions = build_operation_partitions(history);
    let ghost ps = partitions@;
    let ghost parts = checker::partition_histories(ps);
    let (verdict, _info) = check_partitions(partitions, false);
    proof {
        assert(all_linearizable(parts) <==> forall|p: int|
            0 <= p < ps.len() ==> linearizable(#[trigger] ps[p].ops@)) by {
            assert forall|p: int| 0 <= p < ps.len() implies parts[p] == (#[trigger] ps[p]).ops@ by {}
        }
        lemma_all_linearizable_permutation(parts, M::partition_spec(h));
    }
    verdict == CheckResult::Legal
}

/// Check `history` and return both the verdict and [`LinearizationInfo`].
///
/// The info holds the parts that the model split the history into, and for
/// each the partial linearizations that the search recorded: every
/// operation that lies on a partial linearization of its part lies on a
/// listed one at least as long (when the model's states compare as they
/// are).  The verdict is `Legal` exactly when every part is linearizable (when the
/// model's states compare as they are), and `Illegal` otherwise; a `Legal`
/// verdict comes with complete linearizations only.
pub fn check_operations_info<M: Model>(history: Vec<Operation<M>>) -> (r: (
    CheckResult,
    LinearizationInfo<M>,
))
    requires
        history@.len() < usize::MAX / 2,
    ensures
        r.1.wf(),
        r.1.annotations@.len() == 0,
        obeys_concrete_eq::<M::State>() ==> r.1.lists_longest(),
        splits(history@, parts_view(r.1.partition_ops@)),
        parts_view(r.1.partition_ops@).to_multiset() == M::partition_spec(history@).to_multiset(),
        r.0 != CheckResult::Unknown,
        r.0 == CheckResult::Legal ==> all_linearizable(M::partition_spec(history@)),
        obeys_concrete_eq::<M::State>() ==> (r.0 == CheckResult::Legal <==> all_linearizable(
            M::partition_spec(history@),
        )),
        r.0 == CheckResult::Legal ==> forall|p: int, k: int|
            0 <= p < r.1.partial_linearizations@.len() && 0 <= k
                < r.1.partial_linearizations@[p]@.len() ==> is_linearization(
                r.1.partition_ops@[p]@,
                as_order(#[trigger] r.1.partial_linearizations@[p]@[k]@),
            ),
{
    let ghost h = history@;
    let partitions = build_operation_partitions(history);
    let ghost ps = partitions@;
    let ghost parts = checker::partition_histories(ps);
    let r = check_partitions(partitions, true);
    proof {
        assert(parts_view(r.1.partition_ops@) =~= parts);
        assert(all_linearizable(parts) <==> forall|p: int|
            0 <= p < ps.len() ==> linearizable(#[trigger] ps[p].ops@)) by {
            assert forall|p: int| 0 <= p < ps.len() implies parts[p] == (#[trigger] ps[p]).ops@ by {}
        }
        lemma_all_linearizable_permutation(parts, M::partition_spec(h));
    }
    r
}

/// Returns `true` if the event history is linearizable.
///
/// The history is checked in the parts that the model splits it into
/// (`Model::partition_events_spec`), each of which must keep every call
/// with its return; the answer is `true` exactly when the operations of
/// every part are linearizable (when the model's states compare as they
/// are).
pub fn check_events<M: EventModel>(history: Vec<Event<M>>) -> (r: bool)
    requires
        events_wf(history@),
        all_events_wf(M::partition_events_spec(history@)),
        history@.len() < usize::MAX / 2,
    ensures
        r ==> all_events_linearizable(M::partition_events_spec(history@)),
        obeys_concrete_eq::<M::State>() ==> (r <==> all_events_linearizable(
            M::partition_events_spec(history@),
        )),
{
    let ghost h = history@;
    match build_event_partitions(history) {
        None => {
            proof {
                assert(false);
            }
            false
        },
        Some(partitions) => {
            let ghost ps = partitions@;
            let (verdict, _info) = check_partitions(partitions, false);
            proof {
                let parts = choose|parts: Seq<Seq<Event<M>>>|
                    #[trigger] splits(h, parts) && parts.to_multiset() == M::partition_events_spec(
                        h,
                    ).to_multiset() && all_events_wf(parts) && holds_parts(ps, parts);
                assert(all_events_linearizable(parts) <==> forall|p: int|
                    0 <= p < ps.len() ==> linearizable(#[trigger] ps[p].ops@)) by {
                    if forall|p: int| 0 <= p < ps.len() ==> linearizable(#[trigger] ps[p].ops@) {
                        assert forall|p: int| 0 <= p < parts.len() implies events_wf(#[trigger] parts[p])
                            && linearizable(events_to_ops(parts[p])) by {
                            assert(events_to_ops(parts[p]) == ps[p].ops@);
                            assert(linearizable(ps[p].ops@));
                        }
                    }
                    if all_events_linearizable(parts) {
                        assert forall|p: int| 0 <= p < ps.len() implies linearizable(
                            #[trigger] ps[p].ops@,
                        ) by {
                            assert(events_to_ops(parts[p]) == ps[p].ops@);
                            assert(events_wf(parts[p]) && linearizable(events_to_ops(parts[p])));
                        }
                    }
                }
                lemma_all_events_permutation(parts, M::partition_events_spec(h));
            }
            verdict == CheckResult::Legal
        },
    }
}

/// Check an event history and return both the verdict and
/// [`LinearizationInfo`].
///
/// The parts that the model splits the history into must each keep every
/// call with its return.  The info holds the operations of those parts
/// and, as for `check_operations_info`, for every operation a listed
/// partial linearization as long as any that holds it; the verdict is `Legal` exactly when every part is linearizable (when
/// the model's states compare as they are), and `Illegal` otherwise; a
/// `Legal` verdict comes with complete linearizations only.
pub fn check_events_info<M: EventModel>(history: Vec<Event<M>>) -> (r: (
    CheckResult,
    LinearizationInfo<M>,
))
    requires
        events_wf(history@),
        all_events_wf(M::partition_events_spec(history@)),
        history@.len() < usize::MAX / 2,
    ensures
        r.1.wf(),
        r.1.annotations@.len() == 0,
        obeys_concrete_eq::<M::State>() ==> r.1.lists_longest(),
        r.0 != CheckResult::Unknown,
        exists|parts: Seq<Seq<Event<M>>>|
            #[trigger] splits(history@, parts) && parts.to_multiset() == M::partition_events_spec(
                history@,
            ).to_multiset() && parts.len() == r.1.partition_ops@.len() && forall|p: int|
                0 <= p < parts.len() ==> (#[trigger] r.1.partition_ops@[p])@ == events_to_ops(
                    parts[p],
                ),
        r.0 == CheckResult::Legal ==> all_events_linearizable(M::partition_events_spec(history@)),
        obeys_concrete_eq::<M::State>() ==> (r.0 == CheckResult::Legal
            <==> all_events_linearizable(M::partition_events_spec(history@))),
        r.0 == CheckResult::Legal ==> forall|p: int, k: int|
            0 <= p < r.1.partial_linearizations@.len() && 0 <= k
                < r.1.partial_linearizations@[p]@.len() ==> is_linearization(
                r.1.partition_ops@[p]@,
                as_order(#[trigger] r.1.partial_linearizations@[p]@[k]@),
            ),
{
    let ghost h = history@;
    match build_event_partitions(history) {
        None => {
            proof {
                assert(false);
            }
            (CheckResult::Unknown, LinearizationInfo::empty())
        },
        Some(partitions) => {
            let ghost ps = partitions@;
            let r = check_partitions(partitions, true);
            proof {
                let parts = choose|parts: Seq<Seq<Event<M>>>|
                    #[trigger] splits(h, parts) && parts.to_multiset() == M::partition_events_spec(
                        h,
                    ).to_multiset() && all_events_wf(parts) && holds_parts(ps, parts);
                assert forall|p: int| 0 <= p < parts.len() implies (#[trigger] r.1.partition_ops@[p])@
                    == events_to_ops(parts[p]) by {
                    assert(r.1.partition_ops@[p]@ == ps[p].ops@);
                }
                assert(splits(h, parts));
                assert(all_events_linearizable(parts) <==> forall|p: int|
                    0 <= p < ps.len() ==> linearizable(#[trigger] ps[p].ops@)) by {
                    if forall|p: int| 0 <= p < ps.len() ==> linearizable(#[trigger] ps[p].ops@) {
                        assert forall|p: int| 0 <= p < parts.len() implies events_wf(#[trigger] parts[p])
                            && linearizable(events_to_ops(parts[p])) by {
                            assert(events_to_ops(parts[p]) == ps[p].ops@);
                            assert(linearizable(ps[p].ops@));
                        }
                    }
                    if all_events_linearizable(parts) {
                        assert forall|p: int| 0 <= p < ps.len() implies linearizable(
                            #[trigger] ps[p].ops@,
                        ) by {
                            assert(events_to_ops(parts[p]) == ps[p].ops@);
                            assert(events_wf(parts[p]) && linearizable(events_to_ops(parts[p])));
                        }
                    }
                }
                lemma_all_events_permutation(parts, M::partition_events_spec(h));
            }
            r
        },
    }
}

} // verus!

