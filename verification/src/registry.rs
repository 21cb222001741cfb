//! The registry of message kinds the server listens for. Each registered kind
//! has a queue of the messages received for it, with the connection each came
//! from, kept in order of arrival until they are drained.
use vstd::prelude::*;
use crate::assoc::{assoc_map, distinct_keys, has_key, keys, lemma_assoc_empty, lemma_assoc_index,
    lemma_assoc_keys, lemma_assoc_push, lemma_assoc_update};
use crate::connections::ConnectionId;

verus! {

/// The messages received for one kind, oldest first.
pub type Queue<M> = Vec<(ConnectionId, M)>;

/// A registered kind and its queue, as plain values.
pub open spec fn entry_view<M>(e: (String, Queue<M>)) -> (Seq<char>, Seq<(ConnectionId, M)>) {
    (e.0@, e.1@)
}

/// The registered kinds and their queues, in order of registration.
pub open spec fn entries_view<M>(entries: Seq<(String, Queue<M>)>) -> Seq<(Seq<char>, Seq<(ConnectionId, M)>)> {
    entries.map_values(|e: (String, Queue<M>)| entry_view(e))
}

/// Message kinds and the messages waiting under each.
pub struct MessageRegistry<M> {
    entries: Vec<(String, Queue<M>)>,
}

impl<M> View for MessageRegistry<M> {
    type V = Map<Seq<char>, Seq<(ConnectionId, M)>>;

    closed spec fn view(&self) -> Map<Seq<char>, Seq<(ConnectionId, M)>> {
        assoc_map(entries_view(self.entries@))
    }
}

/// Where `kind` stands in the list, if it does.
fn position_of_kind<M>(entries: &Vec<(String, Queue<M>)>, kind: &String) -> (r: Option<usize>)
    ensures
        match r {
            Some(i) => i < entries.len() && entries@[i as int].0@ == kind@,
            None => !has_key(entries_view(entries@), kind@),
        },
{
    let mut i: usize = 0;
    while i < entries.len()
        invariant
            i <= entries.len(),
            forall|j: int| 0 <= j < i ==> entries@[j].0@ != kind@,
        decreases entries.len() - i,
    {
        if entries[i].0.eq(kind) {
            return Some(i);
        }
        i = i + 1;
    }
    proof {
        let v = entries_view(entries@);
        assert forall|j: int| 0 <= j < v.len() implies v[j].0 != kind@ by {
            assert(v[j].0 == entries@[j].0@);
        }
    }
    None
}

impl<M> MessageRegistry<M> {
    #[verifier::type_invariant]
    spec fn well_formed(self) -> bool {
        distinct_keys(entries_view(self.entries@))
    }

    /// A registry with no kind registered.
    pub fn new() -> (registry: Self)
        ensures
            registry@ == Map::<Seq<char>, Seq<(ConnectionId, M)>>::empty(),
    {
        let registry = MessageRegistry { entries: Vec::new() };
        proof {
            lemma_assoc_empty(entries_view(registry.entries@));
        }
        registry
    }

    /// Whether messages of `kind` are listened for.
    pub fn is_registered(&self, kind: &str) -> (r: bool)
        ensures
            r == self@.contains_key(kind@),
    {
        proof {
            use_type_invariant(self);
        }
        let kind = kind.to_owned();
        match position_of_kind(&self.entries, &kind) {
            Some(i) => {
                proof {
                    lemma_assoc_index(entries_view(self.entries@), i as int);
                }
                true
            },
            None => false,
        }
    }

    /// Starts listening for messages of `kind`, with an empty queue.
    pub fn register(&mut self, kind: &str)
        requires
            !old(self)@.contains_key(kind@),
        ensures
            final(self)@ == old(self)@.insert(kind@, Seq::empty()),
    {
        proof {
            use_type_invariant(&*self);
        }
        let mut entries: Vec<(String, Queue<M>)> = Vec::new();
        std::mem::swap(&mut entries, &mut self.entries);
        let ghost s = entries@;
        let kind = kind.to_owned();
        let queue: Queue<M> = Vec::new();
        entries.push((kind, queue));
        proof {
            assert(entries_view(entries@) =~= entries_view(s).push((kind@, Seq::empty())));
            lemma_assoc_push(entries_view(s), kind@, Seq::<(ConnectionId, M)>::empty());
        }
        self.entries = entries;
    }

    /// Queues `message`, received from `from`, under `kind`. A message of a
    /// kind that is not registered is dropped; the result says whether it was
    /// queued.
    pub fn dispatch(&mut self, kind: &str, from: ConnectionId, message: M) -> (queued: bool)
        ensures
            queued == old(self)@.contains_key(kind@),
            queued ==> final(self)@ == old(self)@.insert(kind@, old(self)@[kind@].push((from, message))),
            !queued ==> final(self)@ == old(self)@,
            final(self)@ == dispatch_step(old(self)@, kind@, from, message),
    {
        proof {
            use_type_invariant(&*self);
        }
        let mut entries: Vec<(String, Queue<M>)> = Vec::new();
        std::mem::swap(&mut entries, &mut self.entries);
        let ghost s = entries@;
        let kind = kind.to_owned();
        match position_of_kind(&entries, &kind) {
            Some(i) => {
                let (key, mut queue) = entries.remove(i);
                queue.push((from, message));
                entries.insert(i, (key, queue));
                proof {
                    let v = entries_view(s);
                    lemma_assoc_index(v, i as int);
                    assert(entries_view(entries@) =~= v.update(i as int, (v[i as int].0, v[i as int].1.push((from, message)))));
                    lemma_assoc_update(v, i as int, v[i as int].1.push((from, message)));
                }
                self.entries = entries;
                true
            },
            None => {
                self.entries = entries;
                false
            },
        }
    }

    /// Takes every message queued under `kind`, oldest first, and leaves its
    /// queue empty; `None` where `kind` is not registered.
    pub fn drain(&mut self, kind: &str) -> (drained: Option<Queue<M>>)
        ensures
            old(self)@.contains_key(kind@) <==> drained is Some,
            match drained {
                Some(messages) => messages@ == old(self)@[kind@] && final(self)@ == old(self)@.insert(kind@, Seq::empty()),
                None => final(self)@ == old(self)@,
            },
    {
        proof {
            use_type_invariant(&*self);
        }
        let mut entries: Vec<(String, Queue<M>)> = Vec::new();
        std::mem::swap(&mut entries, &mut self.entries);
        let ghost s = entries@;
        let kind = kind.to_owned();
        match position_of_kind(&entries, &kind) {
            Some(i) => {
                let (key, queue) = entries.remove(i);
                let empty: Queue<M> = Vec::new();
                entries.insert(i, (key, empty));
                proof {
                    let v = entries_view(s);
                    lemma_assoc_index(v, i as int);
                    assert(entries_view(entries@) =~= v.update(i as int, (v[i as int].0, Seq::empty())));
                    lemma_assoc_update(v, i as int, Seq::<(ConnectionId, M)>::empty());
                }
                self.entries = entries;
                Some(queue)
            },
            None => {
                self.entries = entries;
                None
            },
        }
    }

    /// Drops every queued message and keeps every kind registered.
    pub fn clear_queues(&mut self)
        ensures
            final(self)@.dom() == old(self)@.dom(),
            forall|k: Seq<char>| #[trigger] final(self)@.contains_key(k) ==> final(self)@[k] == Seq::<(ConnectionId, M)>::empty(),
    {
        proof {
            use_type_invariant(&*self);
        }
        let mut entries: Vec<(String, Queue<M>)> = Vec::new();
        std::mem::swap(&mut entries, &mut self.entries);
        let ghost s = entries@;
        let mut cleared: Vec<(String, Queue<M>)> = Vec::new();
        let mut i: usize = 0;
        let n = entries.len();
        while i < n
            invariant
                i <= n,
                n == s.len(),
                entries@ == s.subrange(i as int, n as int),
                cleared@.len() == i,
                forall|j: int| 0 <= j < i ==> (#[trigger] cleared@[j]).0 == s[j].0 && cleared@[j].1@ == Seq::<(ConnectionId, M)>::empty(),
            decreases n - i,
        {
            let (key, _queue) = entries.remove(0);
            let empty: Queue<M> = Vec::new();
            cleared.push((key, empty));
            proof {
                assert(entries@ =~= s.subrange(i + 1, n as int));
            }
            i = i + 1;
        }
        proof {
            let v = entries_view(s);
            let w = entries_view(cleared@);
            assert(keys(w) =~= keys(v));
            assert(distinct_keys(w)) by {
                assert forall|a: int, b: int| 0 <= a < b < w.len() implies w[a].0 != w[b].0 by {
                    assert(w[a].0 == v[a].0 && w[b].0 == v[b].0);
                }
            }
            lemma_assoc_keys(v);
            lemma_assoc_keys(w);
            assert forall|k: Seq<char>| #[trigger] assoc_map(w).contains_key(k) implies assoc_map(w)[k] == Seq::<(ConnectionId, M)>::empty() by {
                let j = choose|j: int| 0 <= j < w.len() && w[j].0 == k;
                lemma_assoc_index(w, j);
            }
        }
        self.entries = cleared;
    }
}

/// The registry after a message of `kind` from `from` arrives: queued at the
/// back of its kind's queue, or dropped where the kind is not registered.
pub open spec fn dispatch_step<M>(
    r: Map<Seq<char>, Seq<(ConnectionId, M)>>,
    kind: Seq<char>,
    from: ConnectionId,
    message: M,
) -> Map<Seq<char>, Seq<(ConnectionId, M)>> {
    if r.contains_key(kind) {
        r.insert(kind, r[kind].push((from, message)))
    } else {
        r
    }
}

/// The registry after the messages `received` (kind, sender, message) arrive
/// one after the other.
pub open spec fn dispatch_run<M>(
    r: Map<Seq<char>, Seq<(ConnectionId, M)>>,
    received: Seq<(Seq<char>, ConnectionId, M)>,
) -> Map<Seq<char>, Seq<(ConnectionId, M)>>
    decreases received.len(),
{
    if received.len() == 0 {
        r
    } else {
        let last = received.last();
        dispatch_step(dispatch_run(r, received.drop_last()), last.0, last.1, last.2)
    }
}

/// The messages of `kind` among `received`, with their senders, in order.
pub open spec fn arrivals_of<M>(received: Seq<(Seq<char>, ConnectionId, M)>, kind: Seq<char>) -> Seq<(ConnectionId, M)>
    decreases received.len(),
{
    if received.len() == 0 {
        Seq::empty()
    } else {
        let rest = arrivals_of(received.drop_last(), kind);
        let last = received.last();
        if last.0 == kind {
            rest.push((last.1, last.2))
        } else {
            rest
        }
    }
}

/// Messages wait in order of arrival: after any run of arrivals, the queue of
/// each registered kind is what it held before followed by the messages of
/// that kind, in the order they came, and no kind is registered or dropped.
pub proof fn lemma_dispatch_in_order<M>(
    r: Map<Seq<char>, Seq<(ConnectionId, M)>>,
    received: Seq<(Seq<char>, ConnectionId, M)>,
)
    ensures
        dispatch_run(r, received).dom() == r.dom(),
        forall|k: Seq<char>| #[trigger] r.contains_key(k) ==> dispatch_run(r, received)[k] == r[k] + arrivals_of(received, k),
    decreases received.len(),
{
    if received.len() == 0 {
        assert forall|k: Seq<char>| #[trigger] r.contains_key(k) implies dispatch_run(r, received)[k] == r[k] + arrivals_of(received, k) by {
            assert(r[k] + Seq::<(ConnectionId, M)>::empty() =~= r[k]);
        }
    } else {
        let prev = received.drop_last();
        lemma_dispatch_in_order(r, prev);
        let mid = dispatch_run(r, prev);
        let last = received.last();
        if mid.contains_key(last.0) {
            assert(dispatch_run(r, received).dom() =~= r.dom());
        }
        assert forall|k: Seq<char>| #[trigger] r.contains_key(k) implies dispatch_run(r, received)[k] == r[k] + arrivals_of(received, k) by {
            if last.0 == k {
                assert(r[k] + arrivals_of(prev, k).push((last.1, last.2)) =~= (r[k] + arrivals_of(prev, k)).push((last.1, last.2)));
            }
        }
    }
}

/// Draining a kind's queue after a run of arrivals that began with it empty
/// (just registered, or just drained) gives exactly the messages of that kind
/// in the order they came, each with its sender.
pub proof fn lemma_drain_after_arrivals<M>(
    r: Map<Seq<char>, Seq<(ConnectionId, M)>>,
    received: Seq<(Seq<char>, ConnectionId, M)>,
    kind: Seq<char>,
)
    requires
        r.contains_key(kind),
        r[kind] == Seq::<(ConnectionId, M)>::empty(),
    ensures
        dispatch_run(r, received).contains_key(kind),
        dispatch_run(r, received)[kind] == arrivals_of(received, kind),
{
    lemma_dispatch_in_order(r, received);
    assert(r[kind] + arrivals_of(received, kind) =~= arrivals_of(received, kind));
}

/// The messages of a kind among two runs of arrivals, one after the other,
/// are those of the first run followed by those of the second; a single
/// arrival counts for its own kind only.
pub proof fn lemma_arrivals_of_concat<M>(
    s: Seq<(Seq<char>, ConnectionId, M)>,
    t: Seq<(Seq<char>, ConnectionId, M)>,
    kind: Seq<char>,
    from: ConnectionId,
    message: M,
)
    ensures
        arrivals_of(s + t, kind) == arrivals_of(s, kind) + arrivals_of(t, kind),
        arrivals_of(seq![(kind, from, message)], kind) == seq![(from, message)],
        forall|other: Seq<char>| other != kind ==> arrivals_of(seq![(other, from, message)], kind)
            == Seq::<(ConnectionId, M)>::empty(),
    decreases t.len(),
{
    let one = seq![(kind, from, message)];
    let none = Seq::<(Seq<char>, ConnectionId, M)>::empty();
    assert(arrivals_of(none, kind) == Seq::<(ConnectionId, M)>::empty());
    assert(one.drop_last() =~= none);
    assert(one.last() == (kind, from, message));
    assert(Seq::<(ConnectionId, M)>::empty().push((from, message)) =~= seq![(from, message)]);
    assert forall|other: Seq<char>| other != kind implies arrivals_of(seq![(other, from, message)], kind)
        == Seq::<(ConnectionId, M)>::empty() by {
        assert(seq![(other, from, message)].drop_last() =~= none);
        assert(seq![(other, from, message)].last() == (other, from, message));
    }
    if t.len() == 0 {
        assert(s + t =~= s);
        assert(arrivals_of(s, kind) + Seq::<(ConnectionId, M)>::empty() =~= arrivals_of(s, kind));
    } else {
        lemma_arrivals_of_concat(s, t.drop_last(), kind, from, message);
        assert((s + t).drop_last() =~= s + t.drop_last());
        assert((s + t).last() == t.last());
        let last = t.last();
        if last.0 == kind {
            assert(arrivals_of(s, kind) + arrivals_of(t.drop_last(), kind).push((last.1, last.2))
                =~= (arrivals_of(s, kind) + arrivals_of(t.drop_last(), kind)).push((last.1, last.2)));
        }
    }
}

} // verus!
