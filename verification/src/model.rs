//! The sequential specification that a history is checked against, and the
//! shapes in which histories are recorded.
use core::fmt::Debug;
use core::hash::Hash;
use vstd::laws_eq::obeys_concrete_eq;
use vstd::prelude::*;

verus! {

/// The `{:?}` rendering of a value, made by `format!` through the value's
/// `Debug` impl.  Nothing is claimed of the text: it is the impl's.
#[verifier::external_body]
pub(crate) fn debug_string<T: Debug>(value: &T) -> String {
    format!("{:?}", value)
}

/// A sequential specification: a state machine whose `step` says whether an
/// operation is accepted from a state and what state it leads to.
///
/// `step_spec` and `init_spec` name, for the verifier, what `step` and
/// `init` compute.  A model whose functions are verified overrides them with
/// their definitions; the contracts of `step` and `init` bind every model.
pub trait Model: Sized + Clone + Send + Sync {
    type State: Clone + Send + Sync + Debug + Hash + Eq;
    type Op: Clone + Send + Sync + Debug;
    type Metadata: Clone + Send + Sync + Debug;

    /// The parts that `partition_operations` makes of `history`: unless the
    /// model says otherwise, the whole history as one part.  A model that
    /// splits histories overrides this with the parts it makes.
    open spec fn partition_spec(history: Seq<Operation<Self>>) -> Seq<Seq<Operation<Self>>> {
        seq![history]
    }

    /// Partition an operation history into independent sub-histories that can
    /// be checked in isolation; `whole_history` gives the single partition
    /// that a model without a finer split returns.
    ///
    /// Every operation of the history lands in exactly one part, and the
    /// parts are those of `partition_spec`, in some order.
    fn partition_operations(history: Vec<Operation<Self>>) -> (r: Vec<Vec<Operation<Self>>>)
        ensures
            splits(history@, parts_view(r@)),
            parts_view(r@).to_multiset() == Self::partition_spec(history@).to_multiset(),
    ;

    /// The initial state.
    open spec fn init_spec() -> Self::State {
        vstd::pervasive::arbitrary()
    }

    /// Whether `op` is accepted from `state`, and the state it leads to.
    open spec fn step_spec(state: Self::State, op: Self::Op) -> (bool, Self::State) {
        vstd::pervasive::arbitrary()
    }

    fn init() -> (s: Self::State)
        ensures
            s == Self::init_spec(),
    ;

    /// Pure step function — returns (accepted, next_state).
    fn step(state: &Self::State, op: &Self::Op) -> (r: (bool, Self::State))
        ensures
            r == Self::step_spec(*state, *op),
    ;

    /// State equality. Defaults to `==`.
    fn equal(s1: &Self::State, s2: &Self::State) -> (r: bool)
        ensures
            obeys_concrete_eq::<Self::State>() ==> (r <==> *s1 == *s2),
    {
        proof {
            reveal(obeys_concrete_eq);
        }
        s1 == s2
    }

    fn describe_operation(op: &Self::Op) -> String {
        debug_string(op)
    }

    fn describe_state(state: &Self::State) -> String {
        debug_string(state)
    }

    /// The description of an operation's metadata; without metadata, the
    /// empty text (unless the model says otherwise).
    fn describe_metadata(info: Option<&Self::Metadata>) -> (r: String)
        default_ensures
            info is None ==> r@ == Seq::<char>::empty(),
    {
        match info {
            Some(i) => debug_string(i),
            None => String::new(),
        }
    }
}

/// A model whose histories are recorded as separate call and return events,
/// each pair combined into one operation.
pub trait EventModel: Model {
    type Input: Clone + Send + Sync + Debug;
    type Output: Clone + Send + Sync + Debug;

    /// Whether `combine` accepts this pair of input and output.
    open spec fn combines(input: Self::Input, output: Self::Output) -> bool {
        true
    }

    /// The operation that `combine` builds from an input and an output.
    open spec fn combine_spec(input: Self::Input, output: Self::Output) -> Self::Op {
        vstd::pervasive::arbitrary()
    }

    fn combine(input: &Self::Input, output: &Self::Output) -> (op: Self::Op)
        requires
            Self::combines(*input, *output),
        ensures
            op == Self::combine_spec(*input, *output),
    ;

    /// The parts that `partition_events` makes of `history`: unless the
    /// model says otherwise, the whole history as one part.  A model that
    /// splits event histories overrides this with the parts it makes.
    open spec fn partition_events_spec(history: Seq<Event<Self>>) -> Seq<Seq<Event<Self>>> {
        seq![history]
    }

    /// Same as [`Model::partition_operations`] but for event histories;
    /// `whole_history` gives the single partition.
    ///
    /// Every event lands in exactly one part, and the parts are those of
    /// `partition_events_spec`, in some order.
    fn partition_events(history: Vec<Event<Self>>) -> (r: Vec<Vec<Event<Self>>>)
        ensures
            splits(history@, parts_view(r@)),
            parts_view(r@).to_multiset() == Self::partition_events_spec(history@).to_multiset(),
    ;
}

/// The whole history as a single partition.
pub fn whole_history<T>(history: Vec<T>) -> (r: Vec<Vec<T>>)
    ensures
        parts_view(r@) == seq![history@],
        splits(history@, parts_view(r@)),
{
    let ghost h = history@;
    let mut parts: Vec<Vec<T>> = Vec::new();
    parts.push(history);
    proof {
        assert(parts_view(parts@) =~= seq![h]);
        seq![h].lemma_flatten_one_element();
    }
    parts
}

/// The contents of each part.
pub open spec fn parts_view<T>(parts: Seq<Vec<T>>) -> Seq<Seq<T>> {
    parts.map_values(|p: Vec<T>| p@)
}

/// `parts` splits `whole`: every element of `whole` lands in exactly one
/// part, and the parts hold nothing else.
pub open spec fn splits<T>(whole: Seq<T>, parts: Seq<Seq<T>>) -> bool {
    parts.flatten().to_multiset() == whole.to_multiset()
}

/// The input of a call event.
pub open spec fn input_of<M: EventModel>(e: Event<M>) -> M::Input {
    match e {
        Event::Call { value, .. } => value,
        Event::Return { .. } => vstd::pervasive::arbitrary(),
    }
}

/// The output of a return event.
pub open spec fn output_of<M: EventModel>(e: Event<M>) -> M::Output {
    match e {
        Event::Return { value, .. } => value,
        Event::Call { .. } => vstd::pervasive::arbitrary(),
    }
}

/// Every event has exactly one partner with the same id: a call, then
/// later its return.
pub open spec fn events_paired<M: EventModel>(evs: Seq<Event<M>>) -> bool {
    &&& forall|a: int, b: int|
        0 <= a < b < evs.len() && (#[trigger] evs[a]).event_id() == (#[trigger] evs[b]).event_id()
            ==> evs[a] is Call && evs[b] is Return
    &&& forall|a: int| 0 <= a < evs.len() ==> #[trigger] has_partner(evs, a)
}

/// The event at `a` has a partner: another event with its id.
pub open spec fn has_partner<M: EventModel>(evs: Seq<Event<M>>, a: int) -> bool {
    exists|b: int| 0 <= b < evs.len() && b != a && (#[trigger] evs[b]).event_id() == evs[a].event_id()
}

/// A well-formed event history: paired, and the model can combine the input
/// of each call with the output of its return.
pub open spec fn events_wf<M: EventModel>(evs: Seq<Event<M>>) -> bool {
    &&& events_paired(evs)
    &&& forall|a: int, b: int|
        0 <= a < b < evs.len() && (#[trigger] evs[a]).event_id() == (#[trigger] evs[b]).event_id()
            ==> M::combines(input_of(evs[a]), output_of(evs[b]))
}

/// One completed operation: what was done, by whom, and when it was invoked
/// and when it returned.
#[derive(Debug, Clone)]
pub struct Operation<M: Model> {
    pub client_id: Option<u32>,
    pub call_time: i64,
    pub return_time: i64,
    pub op: M::Op,
    pub metadata: Option<M::Metadata>,
}

/// A call or a return, matched to each other by `id`.
#[derive(Debug, Clone)]
pub enum Event<M: EventModel> {
    Call { client_id: Option<u32>, value: M::Input, id: usize, metadata: Option<M::Metadata> },
    Return { client_id: Option<u32>, value: M::Output, id: usize, metadata: Option<M::Metadata> },
}

impl<M: EventModel> Event<M> {
    /// The id that matches a call with its return.
    pub open spec fn event_id(self) -> usize {
        match self {
            Event::Call { id, .. } => id,
            Event::Return { id, .. } => id,
        }
    }
}

/// The verdict of a check.
#[derive(Clone, Copy, Debug, PartialEq, Eq, Structural)]
pub enum CheckResult {
    Unknown,
    Legal,
    Illegal,
}

} // verus!
