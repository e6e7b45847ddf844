//! Synthetic events: one listener on the document for each kind of native
//! event, which hands the event to the nearest node that has a handler.

use vstd::hash_set::StringHashSet;
use vstd::prelude::*;

verus! {

/// The kinds of native event that are forwarded already.
pub struct SyntheticEvents {
    configured: StringHashSet,
}

impl View for SyntheticEvents {
    type V = Set<Seq<char>>;

    closed spec fn view(&self) -> Set<Seq<char>> {
        self.configured@
    }
}

impl SyntheticEvents {
    /// The registry in which no kind of event is forwarded yet.
    pub fn new() -> (events: SyntheticEvents)
        ensures
            events@ == Set::<Seq<char>>::empty(),
    {
        SyntheticEvents { configured: StringHashSet::new() }
    }

    /// Whether events of the kind `name` are forwarded already.
    pub fn is_configured(&self, name: &str) -> (known: bool)
        ensures
            known == self@.contains(name@),
    {
        self.configured.contains(name)
    }
}

/// Notes that events of the kind `name` are forwarded from now on, and says
/// whether a listener has to be attached for them: it has to be the first
/// time that the kind is set up, and never again.
pub fn setup_synthetic_event(events: &mut SyntheticEvents, name: &str) -> (attach: bool)
    ensures
        attach == !old(events)@.contains(name@),
        final(events)@ == old(events)@.insert(name@),
{
    if events.configured.contains(name) {
        assert(events@.insert(name@) =~= events@);
        false
    } else {
        events.configured.insert(name.to_owned());
        true
    }
}

/// The name of the property under which a node holds its handler for events
/// of the kind `name`: the kind behind two underscores.
pub fn event_key(name: &str) -> (key: String)
    ensures
        key@ == seq!['_', '_'] + name@,
{
    let mut key = String::new();
    proof {
        reveal_strlit("__");
    }
    key.append("__");
    key.append(name);
    proof {
        assert(key@ =~= seq!['_', '_'] + name@);
    }
    key
}

/// Finds the node that an event is delivered to. `handlers` says, for the
/// event's target and then for each of its ancestors in turn, whether the
/// node has a handler: the event goes to the first that has one, and to none
/// where none has.
pub fn native_to_synthetic_event(handlers: &[bool]) -> (receiver: Option<usize>)
    ensures
        match receiver {
            Some(at) => at < handlers@.len() && handlers@[at as int] && forall|k: int|
                0 <= k < at ==> !handlers@[k],
            None => forall|k: int| 0 <= k < handlers@.len() ==> !handlers@[k],
        },
{
    let mut at: usize = 0;
    while at < handlers.len()
        invariant
            at <= handlers@.len(),
            forall|k: int| 0 <= k < at ==> !handlers@[k],
        decreases handlers@.len() - at,
    {
        if handlers[at] {
            return Some(at);
        }
        at += 1;
    }
    None
}

} // verus!
