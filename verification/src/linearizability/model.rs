use std::collections::HashSet;
use vstd::prelude::*;

verus! {

/// One event of a history: a call carries the input, a return the output.
#[derive(Debug)]
pub enum Value<I, O> {
    Input(I),
    Output(O),
    /// Neither input nor output.
    Empty,
}

impl<I, O> Value<I, O> {
    /// The input of a call.
    pub fn input(&self) -> (r: &I)
        requires
            self is Input,
        ensures
            *r == self->Input_0,
    {
        match self {
            Value::Input(i) => i,
            _ => vstd::pervasive::unreached(),
        }
    }

    /// The output of a return.
    pub fn output(&self) -> (r: &O)
        requires
            self is Output,
        ensures
            *r == self->Output_0,
    {
        match self {
            Value::Output(o) => o,
            _ => vstd::pervasive::unreached(),
        }
    }
}

/// A completed operation: its input and output, and the times of its
/// invocation and response.
#[derive(Debug, Clone)]
pub struct Operation<I, O> {
    pub input: I,
    /// invocation time
    pub call: i64,
    pub output: O,
    /// response time
    pub finish: i64,
}

/// Whether an event invokes or completes an operation.
pub enum EventKind {
    CallEvent,
    ReturnEvent,
}

/// An event of a history, tagged with the operation it belongs to.
pub struct Event<T> {
    pub kind: EventKind,
    pub value: T,
    pub id: usize,
}

pub type Operations<I, O> = Vec<Operation<I, O>>;

pub type Events<I, O> = Vec<Event<Value<I, O>>>;

/// The sequences held by the vectors `v`.
pub open spec fn views<T>(v: Seq<Vec<T>>) -> Seq<Seq<T>> {
    v.map_values(|p: Vec<T>| p@)
}

/// `parts` together hold exactly the items of `whole`.
pub open spec fn splits<T>(whole: Seq<T>, parts: Seq<Seq<T>>) -> bool {
    parts.flatten().to_multiset() == whole.to_multiset()
}

/// The whole history as its only part: how a model that does not split its
/// histories partitions them.
pub fn no_partition<T>(history: Vec<T>) -> (parts: Vec<Vec<T>>)
    ensures
        views(parts@) == seq![history@],
        splits(history@, views(parts@)),
{
    let ghost h = history@;
    let parts = vec![history];
    proof {
        assert(views(parts@) =~= seq![h]);
        seq![h].lemma_flatten_one_element();
    }
    parts
}

/// Each call carries an input and each return an output, and each return
/// follows a call of the same operation.
pub open spec fn events_paired<I, O>(h: Seq<Event<Value<I, O>>>) -> bool {
    &&& forall|j: int| 0 <= j < h.len() ==> match (#[trigger] h[j]).kind {
        EventKind::CallEvent => h[j].value is Input,
        EventKind::ReturnEvent => h[j].value is Output,
    }
    &&& forall|j: int| 0 <= j < h.len() && (#[trigger] h[j]).kind is ReturnEvent ==> exists|i: int| 0 <= i < j && h[i].kind is CallEvent && h[i].id == h[j].id
}

/// Event `j` of `h` is paired: it carries the right kind of value, and a
/// return follows a call of the same operation.
pub open spec fn paired_at<I, O>(h: Seq<Event<Value<I, O>>>, j: int) -> bool {
    &&& match h[j].kind {
        EventKind::CallEvent => h[j].value is Input,
        EventKind::ReturnEvent => h[j].value is Output,
    }
    &&& h[j].kind is ReturnEvent ==> exists|i: int| 0 <= i < j && h[i].kind is CallEvent && h[i].id == h[j].id
}

/// The events of `h` are paired exactly when each of them is.
proof fn lemma_paired_all<I, O>(h: Seq<Event<Value<I, O>>>)
    ensures
        events_paired(h) <==> forall|j: int| 0 <= j < h.len() ==> #[trigger] paired_at(h, j),
{
    if events_paired(h) {
        assert forall|j: int| 0 <= j < h.len() implies #[trigger] paired_at(h, j) by {}
    }
    if forall|j: int| 0 <= j < h.len() ==> #[trigger] paired_at(h, j) {
        assert forall|j: int| 0 <= j < h.len() implies match (#[trigger] h[j]).kind {
            EventKind::CallEvent => h[j].value is Input,
            EventKind::ReturnEvent => h[j].value is Output,
        } by {
            assert(paired_at(h, j));
        }
        assert forall|j: int| 0 <= j < h.len() && (#[trigger] h[j]).kind is ReturnEvent implies exists|i: int|
            0 <= i < j && h[i].kind is CallEvent && h[i].id == h[j].id by {
            assert(paired_at(h, j));
        }
    }
}

/// Whether each call of `h` carries an input and each return an output,
/// and each return follows a call of the same operation.
pub fn events_are_paired<I, O>(h: &Vec<Event<Value<I, O>>>) -> (r: bool)
    ensures
        r == events_paired(h@),
{
    broadcast use vstd::std_specs::hash::group_hash_axioms;

    let mut called: HashSet<usize> = HashSet::new();
    let mut j: usize = 0;
    while j < h.len()
        invariant
            j <= h@.len(),
            forall|k: int| 0 <= k < j ==> #[trigger] paired_at(h@, k),
            forall|id: usize| #[trigger] called@.contains(id) ==> exists|i: int| 0 <= i < j && h@[i].kind is CallEvent && h@[i].id == id,
            forall|i: int| 0 <= i < j && (#[trigger] h@[i]).kind is CallEvent ==> called@.contains(h@[i].id),
        decreases h@.len() - j,
    {
        let e = &h[j];
        let ok = match e.kind {
            EventKind::CallEvent => matches!(e.value, Value::Input(_)),
            EventKind::ReturnEvent => matches!(e.value, Value::Output(_)) && called.contains(&e.id),
        };
        if !ok {
            proof {
                assert(!paired_at(h@, j as int)) by {
                    if h@[j as int].kind is ReturnEvent && h@[j as int].value is Output {
                        if exists|i: int| 0 <= i < j && h@[i].kind is CallEvent && h@[i].id == h@[j as int].id {
                            let i = choose|i: int| 0 <= i < j && h@[i].kind is CallEvent && h@[i].id == h@[j as int].id;
                            assert(called@.contains(h@[i].id));
                        }
                    }
                }
                lemma_paired_all(h@);
            }
            return false;
        }
        proof {
            if h@[j as int].kind is ReturnEvent {
                assert(called@.contains(h@[j as int].id));
            }
            assert(paired_at(h@, j as int));
        }
        if matches!(e.kind, EventKind::CallEvent) {
            called.insert(e.id);
        }
        j = j + 1;
    }
    proof {
        lemma_paired_all(h@);
    }
    true
}

/// A sequential model of a shared object.
pub trait Model: Sized {
    type State: Clone;
    type Input;
    type Output;

    /// Whether `s` is the initial state of the system.
    spec fn init_spec(&self, s: Self::State) -> bool;

    /// Whether the system can take a step with the given input and output
    /// from `state`, reaching `next`.
    spec fn steps_to(&self, state: Self::State, input: Self::Input, output: Self::Output, next: Self::State) -> bool;

    /// Equality on states.
    spec fn equal_spec(&self, state1: Self::State, state2: Self::State) -> bool;

    /// Whether `parts` is how this model splits the history of operations
    /// `whole`.
    spec fn partitioned(&self, whole: Seq<Operation<Self::Input, Self::Output>>, parts: Seq<Seq<Operation<Self::Input, Self::Output>>>) -> bool;

    /// Whether `parts` is how this model splits the history of events
    /// `whole`.
    spec fn partitioned_events(&self, whole: Seq<Event<Value<Self::Input, Self::Output>>>, parts: Seq<Seq<Event<Value<Self::Input, Self::Output>>>>) -> bool;

    /// Partition function, such that a history is linearizable if and only if
    /// each partition is linearizable. A model that does not split its
    /// histories returns `no_partition(history)`.
    fn partition(&self, history: Operations<Self::Input, Self::Output>) -> (parts: Vec<Operations<Self::Input, Self::Output>>)
        ensures
            splits(history@, views(parts@)),
            self.partitioned(history@, views(parts@)),
    ;

    /// Partition function on events, such that a history is linearizable if
    /// and only if each partition is linearizable. A model that does not
    /// split its histories returns `no_partition(history)`.
    fn partition_event(&self, history: Events<Self::Input, Self::Output>) -> (parts: Vec<Events<Self::Input, Self::Output>>)
        requires
            events_paired(history@),
        ensures
            splits(history@, views(parts@)),
            self.partitioned_events(history@, views(parts@)),
    ;

    /// Initial state of the system.
    fn init(&self) -> (s: Self::State)
        ensures
            self.init_spec(s),
    ;

    /// Step function for the system. Returns whether or not the system could
    /// take this step with the given inputs and outputs and also returns the
    /// new state. This does not mutate the existing state.
    fn step(&self, state: &Self::State, input: &Self::Input, output: &Self::Output) -> (r: (bool, Self::State))
        ensures
            r.0 <==> exists|next: Self::State| self.steps_to(*state, *input, *output, next),
            r.0 ==> self.steps_to(*state, *input, *output, r.1),
    ;

    /// Equality on states.
    fn equal(&self, state1: &Self::State, state2: &Self::State) -> (r: bool)
        ensures
            r == self.equal_spec(*state1, *state2),
    ;
}

} // verus!
