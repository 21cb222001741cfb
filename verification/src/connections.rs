//! The table of established connections, and the decisions the server takes
//! on it: where a message goes, which connections a batch of disconnection
//! notices ends, and which entities to despawn.
use vstd::prelude::*;
use crate::assoc::{assoc_map, distinct_keys, has_key, keys, lemma_assoc_empty, lemma_assoc_index,
    lemma_assoc_keys, lemma_assoc_push, lemma_assoc_remove, lemma_assoc_update};

verus! {

/// Identifies one client connection: the entity that stands for the client.
#[derive(Clone, Copy, Debug, PartialEq, Eq, Hash, Structural)]
pub struct ConnectionId {
    pub entity: u64,
}

/// What the server reports to the game about its clients.
#[derive(Clone, Copy, Debug, PartialEq, Eq, Structural)]
pub enum ServerNetworkEvent {
    Connected { entity: u64 },
    Disconnected { entity: u64 },
}

/// The established connections, each under its id.
pub struct ConnectionTable<C> {
    entries: Vec<(ConnectionId, C)>,
}

impl<C> View for ConnectionTable<C> {
    type V = Map<ConnectionId, C>;

    closed spec fn view(&self) -> Map<ConnectionId, C> {
        assoc_map(self.entries@)
    }
}

/// Where `id` stands in the list, if it does.
fn position_of<C>(entries: &Vec<(ConnectionId, C)>, id: ConnectionId) -> (r: Option<usize>)
    ensures
        match r {
            Some(i) => i < entries.len() && entries@[i as int].0 == id,
            None => !has_key(entries@, id),
        },
{
    let mut i: usize = 0;
    while i < entries.len()
        invariant
            i <= entries.len(),
            forall|j: int| 0 <= j < i ==> entries@[j].0 != id,
        decreases entries.len() - i,
    {
        if entries[i].0 == id {
            return Some(i);
        }
        i = i + 1;
    }
    None
}

impl<C> ConnectionTable<C> {
    #[verifier::type_invariant]
    spec fn well_formed(self) -> bool {
        distinct_keys(self.entries@)
    }

    /// An empty table.
    pub fn new() -> (table: Self)
        ensures
            table@ == Map::<ConnectionId, C>::empty(),
    {
        let table = ConnectionTable { entries: Vec::new() };
        proof {
            lemma_assoc_empty(table.entries@);
        }
        table
    }

    /// The number of established connections.
    pub fn len(&self) -> (n: usize)
        ensures
            self@.dom().finite(),
            n == self@.dom().len(),
    {
        proof {
            use_type_invariant(self);
            lemma_assoc_keys(self.entries@);
        }
        self.entries.len()
    }

    /// Whether `id` is established.
    pub fn contains(&self, id: ConnectionId) -> (r: bool)
        ensures
            r == self@.contains_key(id),
    {
        proof {
            use_type_invariant(self);
        }
        match position_of(&self.entries, id) {
            Some(i) => {
                proof {
                    lemma_assoc_index(self.entries@, i as int);
                }
                true
            },
            None => false,
        }
    }

    /// The connection established under `id`.
    pub fn get(&self, id: ConnectionId) -> (r: Option<&C>)
        ensures
            match r {
                Some(c) => self@.contains_key(id) && *c == self@[id],
                None => !self@.contains_key(id),
            },
    {
        proof {
            use_type_invariant(self);
        }
        match position_of(&self.entries, id) {
            Some(i) => {
                proof {
                    lemma_assoc_index(self.entries@, i as int);
                }
                Some(&self.entries[i].1)
            },
            None => None,
        }
    }

    /// Stores `conn` under `id`, and hands back what was stored there before.
    pub fn insert(&mut self, id: ConnectionId, conn: C) -> (previous: Option<C>)
        ensures
            final(self)@ == old(self)@.insert(id, conn),
            previous == (if old(self)@.contains_key(id) {
                Some(old(self)@[id])
            } else {
                None::<C>
            }),
    {
        proof {
            use_type_invariant(&*self);
        }
        let mut entries: Vec<(ConnectionId, C)> = Vec::new();
        std::mem::swap(&mut entries, &mut self.entries);
        let ghost s = entries@;
        match position_of(&entries, id) {
            Some(i) => {
                let (key, previous) = entries.remove(i);
                entries.insert(i, (key, conn));
                proof {
                    assert(entries@ =~= s.update(i as int, (s[i as int].0, conn)));
                    lemma_assoc_index(s, i as int);
                    lemma_assoc_update(s, i as int, conn);
                }
                self.entries = entries;
                Some(previous)
            },
            None => {
                entries.push((id, conn));
                proof {
                    lemma_assoc_push(s, id, conn);
                }
                self.entries = entries;
                None
            },
        }
    }

    /// Takes the connection under `id` out of the table.
    pub fn remove(&mut self, id: ConnectionId) -> (removed: Option<C>)
        ensures
            final(self)@ == old(self)@.remove(id),
            removed == (if old(self)@.contains_key(id) {
                Some(old(self)@[id])
            } else {
                None::<C>
            }),
    {
        proof {
            use_type_invariant(&*self);
        }
        let mut entries: Vec<(ConnectionId, C)> = Vec::new();
        std::mem::swap(&mut entries, &mut self.entries);
        let ghost s = entries@;
        match position_of(&entries, id) {
            Some(i) => {
                let (_, removed) = entries.remove(i);
                proof {
                    lemma_assoc_index(s, i as int);
                    lemma_assoc_remove(s, i as int);
                }
                self.entries = entries;
                Some(removed)
            },
            None => {
                proof {
                    assert(!assoc_map(s).contains_key(id));
                    assert(assoc_map(s).remove(id) =~= assoc_map(s));
                }
                self.entries = entries;
                None
            },
        }
    }

    /// The ids of all established connections, each once.
    pub fn ids(&self) -> (ids: Vec<ConnectionId>)
        ensures
            ids@.no_duplicates(),
            ids@.to_set() == self@.dom(),
            ids@.len() == self@.dom().len(),
    {
        proof {
            use_type_invariant(self);
            lemma_assoc_keys(self.entries@);
        }
        let mut ids: Vec<ConnectionId> = Vec::new();
        let mut i: usize = 0;
        while i < self.entries.len()
            invariant
                i <= self.entries.len(),
                ids@ == keys(self.entries@).subrange(0, i as int),
            decreases self.entries.len() - i,
        {
            ids.push(self.entries[i].0);
            i = i + 1;
        }
        assert(ids@ == keys(self.entries@));
        ids
    }

    /// Registers a newly established connection under `id` and reports it.
    pub fn connect(&mut self, id: ConnectionId, conn: C) -> (event: ServerNetworkEvent)
        ensures
            final(self)@ == old(self)@.insert(id, conn),
            event == (ServerNetworkEvent::Connected { entity: id.entity }),
    {
        let _ = self.insert(id, conn);
        ServerNetworkEvent::Connected { entity: id.entity }
    }

    /// The clients that a message for `ids` reaches: every listed id that is
    /// established, in the order listed.
    pub fn send_many_targets(&self, ids: &[ConnectionId]) -> (targets: Vec<ConnectionId>)
        ensures
            targets@ == ids@.filter(|i: ConnectionId| self@.contains_key(i)),
    {
        let ghost pred = |i: ConnectionId| self@.contains_key(i);
        let mut targets: Vec<ConnectionId> = Vec::new();
        let mut i: usize = 0;
        while i < ids.len()
            invariant
                i <= ids.len(),
                pred == (|i: ConnectionId| self@.contains_key(i)),
                targets@ == ids@.subrange(0, i as int).filter(pred),
            decreases ids.len() - i,
        {
            proof {
                reveal(Seq::filter);
                assert(ids@.subrange(0, i + 1).drop_last() == ids@.subrange(0, i as int));
                assert(ids@.subrange(0, i + 1).last() == ids@[i as int]);
            }
            if self.contains(ids[i]) {
                targets.push(ids[i]);
            }
            i = i + 1;
        }
        assert(ids@.subrange(0, ids@.len() as int) == ids@);
        targets
    }

    /// Ends the connections that the notices in `ids` name: each that is
    /// still established is taken out of the table and handed back, in the
    /// order of the notices; a notice for an id that is not established is
    /// passed over.
    pub fn end_connections(&mut self, ids: &[ConnectionId]) -> (ended: Vec<(ConnectionId, C)>)
        ensures
            (final(self)@, ended@) == end_run(old(self)@, ids@),
    {
        let mut ended: Vec<(ConnectionId, C)> = Vec::new();
        let mut i: usize = 0;
        while i < ids.len()
            invariant
                i <= ids.len(),
                (self@, ended@) == end_run(old(self)@, ids@.subrange(0, i as int)),
            decreases ids.len() - i,
        {
            let id = ids[i];
            proof {
                assert(ids@.subrange(0, i + 1).drop_last() == ids@.subrange(0, i as int));
            }
            match self.remove(id) {
                Some(conn) => {
                    ended.push((id, conn));
                },
                None => {},
            }
            i = i + 1;
        }
        assert(ids@.subrange(0, ids@.len() as int) == ids@);
        ended
    }

    /// Ends every connection: empties the table and hands back each
    /// connection it held, once, under its id.
    pub fn end_all(&mut self) -> (ended: Vec<(ConnectionId, C)>)
        ensures
            final(self)@ == Map::<ConnectionId, C>::empty(),
            distinct_keys(ended@),
            assoc_map(ended@) == old(self)@,
            forall|k: ConnectionId| has_key(ended@, k) <==> old(self)@.contains_key(k),
            forall|j: int| 0 <= j < ended@.len() ==> old(self)@[#[trigger] ended@[j].0] == ended@[j].1,
    {
        proof {
            use_type_invariant(&*self);
        }
        let mut ended: Vec<(ConnectionId, C)> = Vec::new();
        std::mem::swap(&mut ended, &mut self.entries);
        proof {
            lemma_assoc_empty(self.entries@);
            assert forall|j: int| 0 <= j < ended@.len() implies old(self)@[#[trigger] ended@[j].0] == ended@[j].1 by {
                lemma_assoc_index(ended@, j);
            }
        }
        ended
    }
}

/// What ending the connections named by `ids`, one after the other, leaves
/// of the table `m`, and the connections it ends, in order.
pub open spec fn end_run<C>(m: Map<ConnectionId, C>, ids: Seq<ConnectionId>) -> (Map<ConnectionId, C>, Seq<(ConnectionId, C)>)
    decreases ids.len(),
{
    if ids.len() == 0 {
        (m, Seq::empty())
    } else {
        let (rest, ended) = end_run(m, ids.drop_last());
        let id = ids.last();
        if rest.contains_key(id) {
            (rest.remove(id), ended.push((id, rest[id])))
        } else {
            (rest, ended)
        }
    }
}

/// The entities of the clients that `events` report disconnected, in order.
pub open spec fn despawned_entities(events: Seq<ServerNetworkEvent>) -> Seq<u64>
    decreases events.len(),
{
    if events.len() == 0 {
        Seq::empty()
    } else {
        let rest = despawned_entities(events.drop_last());
        match events.last() {
            ServerNetworkEvent::Disconnected { entity } => rest.push(entity),
            ServerNetworkEvent::Connected { .. } => rest,
        }
    }
}

/// The entities to despawn after `events`: those of the disconnected clients.
pub fn entities_to_despawn(events: &[ServerNetworkEvent]) -> (entities: Vec<u64>)
    ensures
        entities@ == despawned_entities(events@),
{
    let mut entities: Vec<u64> = Vec::new();
    let mut i: usize = 0;
    while i < events.len()
        invariant
            i <= events.len(),
            entities@ == despawned_entities(events@.subrange(0, i as int)),
        decreases events.len() - i,
    {
        proof {
            assert(events@.subrange(0, i + 1).drop_last() == events@.subrange(0, i as int));
        }
        match events[i] {
            ServerNetworkEvent::Disconnected { entity } => entities.push(entity),
            ServerNetworkEvent::Connected { .. } => {},
        }
        i = i + 1;
    }
    assert(events@.subrange(0, events@.len() as int) == events@);
    entities
}

/// Ending the connections named by `ids` leaves every other connection as it
/// was and none of the named ones; it hands back each named connection that
/// was established, once, with the connection it held, and no other.
pub proof fn lemma_end_run<C>(m: Map<ConnectionId, C>, ids: Seq<ConnectionId>)
    ensures
        end_run(m, ids).0 == m.remove_keys(ids.to_set()),
        distinct_keys(end_run(m, ids).1),
        forall|k: ConnectionId| has_key(end_run(m, ids).1, k) <==> (ids.contains(k) && m.contains_key(k)),
        forall|j: int| 0 <= j < end_run(m, ids).1.len() ==> (m.contains_key(#[trigger] end_run(m, ids).1[j].0)
            && m[end_run(m, ids).1[j].0] == end_run(m, ids).1[j].1),
    decreases ids.len(),
{
    if ids.len() == 0 {
        assert(m.remove_keys(ids.to_set()) =~= m);
    } else {
        let prev = ids.drop_last();
        lemma_end_run(m, prev);
        let (rest, ended) = end_run(m, prev);
        let id = ids.last();
        assert forall|k: ConnectionId| ids.contains(k) <==> (prev.contains(k) || k == id) by {
            if ids.contains(k) {
                let j = choose|j: int| 0 <= j < ids.len() && ids[j] == k;
                if j < ids.len() - 1 {
                    assert(prev[j] == k);
                }
            }
            if prev.contains(k) {
                let j = choose|j: int| 0 <= j < prev.len() && prev[j] == k;
                assert(ids[j] == k);
            }
            if k == id {
                assert(ids[ids.len() - 1] == k);
            }
        }
        if rest.contains_key(id) {
            let out = ended.push((id, rest[id]));
            assert(m.remove_keys(ids.to_set()) =~= rest.remove(id));
            assert forall|i: int, j: int| 0 <= i < j < out.len() implies out[i].0 != out[j].0 by {
                if j == ended.len() {
                    if ended[i].0 == id {
                        assert(has_key(ended, id));
                    }
                } else {
                    assert(ended[i].0 != ended[j].0);
                }
            }
            assert forall|k: ConnectionId| has_key(out, k) <==> (ids.contains(k) && m.contains_key(k)) by {
                if has_key(out, k) {
                    let j = choose|j: int| 0 <= j < out.len() && out[j].0 == k;
                    if j < ended.len() {
                        assert(has_key(ended, k));
                    }
                }
                if ids.contains(k) && m.contains_key(k) {
                    if k == id {
                        assert(out[ended.len() as int].0 == k);
                    } else {
                        assert(has_key(ended, k));
                        let j = choose|j: int| 0 <= j < ended.len() && ended[j].0 == k;
                        assert(out[j].0 == k);
                    }
                }
            }
            assert forall|j: int| 0 <= j < out.len() implies (m.contains_key(#[trigger] out[j].0)
                && m[out[j].0] == out[j].1) by {
                if j < ended.len() {
                    assert(out[j] == ended[j]);
                }
            }
        } else {
            assert(m.remove_keys(ids.to_set()) =~= rest);
            assert forall|k: ConnectionId| has_key(ended, k) <==> (ids.contains(k) && m.contains_key(k)) by {
                if k == id && m.contains_key(k) && !prev.contains(k) {
                    assert(rest.contains_key(k));
                }
            }
        }
    }
}

/// The entities to despawn after two batches of events, one after the
/// other, are those of the first batch followed by those of the second.
pub proof fn lemma_despawned_entities_concat(s: Seq<ServerNetworkEvent>, t: Seq<ServerNetworkEvent>)
    ensures
        despawned_entities(s + t) == despawned_entities(s) + despawned_entities(t),
    decreases t.len(),
{
    if t.len() == 0 {
        assert(s + t =~= s);
        assert(despawned_entities(s) + Seq::<u64>::empty() =~= despawned_entities(s));
    } else {
        lemma_despawned_entities_concat(s, t.drop_last());
        assert((s + t).drop_last() =~= s + t.drop_last());
        assert((s + t).last() == t.last());
        match t.last() {
            ServerNetworkEvent::Disconnected { entity } => {
                assert(despawned_entities(s) + despawned_entities(t.drop_last()).push(entity)
                    =~= (despawned_entities(s) + despawned_entities(t.drop_last())).push(entity));
            },
            ServerNetworkEvent::Connected { .. } => {},
        }
    }
}

/// Every client reported disconnected has its entity despawned, once per
/// report, in the order of the reports; a client reported connected does not:
/// no events give nothing, a lone disconnection gives its entity, a lone
/// connection gives nothing, and batches add up.
pub proof fn lemma_despawned_entities(s: Seq<ServerNetworkEvent>, t: Seq<ServerNetworkEvent>, e: u64)
    ensures
        despawned_entities(Seq::empty()) == Seq::<u64>::empty(),
        despawned_entities(seq![ServerNetworkEvent::Disconnected { entity: e }]) == seq![e],
        despawned_entities(seq![ServerNetworkEvent::Connected { entity: e }]) == Seq::<u64>::empty(),
        despawned_entities(s + t) == despawned_entities(s) + despawned_entities(t),
        despawned_entities(s + seq![ServerNetworkEvent::Disconnected { entity: e }] + t)
            == despawned_entities(s) + seq![e] + despawned_entities(t),
{
    let d = seq![ServerNetworkEvent::Disconnected { entity: e }];
    let c = seq![ServerNetworkEvent::Connected { entity: e }];
    assert(d.drop_last() =~= Seq::<ServerNetworkEvent>::empty());
    assert(c.drop_last() =~= Seq::<ServerNetworkEvent>::empty());
    assert(Seq::<u64>::empty().push(e) =~= seq![e]);
    lemma_despawned_entities_concat(s, t);
    lemma_despawned_entities_concat(s, d);
    lemma_despawned_entities_concat(s + d, t);
}

/// Ending the connections named by two batches of notices, one after the
/// other, is ending those of the first batch and then, on what is left, those
/// of the second: the connections ended are those of the first batch
/// followed by those of the second.
pub proof fn lemma_end_run_concat<C>(m: Map<ConnectionId, C>, s: Seq<ConnectionId>, t: Seq<ConnectionId>)
    ensures
        end_run(m, s + t) == (end_run(end_run(m, s).0, t).0, end_run(m, s).1 + end_run(end_run(m, s).0, t).1),
    decreases t.len(),
{
    let mid = end_run(m, s).0;
    if t.len() == 0 {
        assert(s + t =~= s);
        assert(end_run(m, s).1 + end_run(mid, t).1 =~= end_run(m, s).1);
    } else {
        lemma_end_run_concat(m, s, t.drop_last());
        assert((s + t).drop_last() =~= s + t.drop_last());
        assert((s + t).last() == t.last());
        let (rest, ended) = end_run(mid, t.drop_last());
        let id = t.last();
        if rest.contains_key(id) {
            assert(end_run(m, s).1 + ended.push((id, rest[id])) =~= (end_run(m, s).1 + ended).push((id, rest[id])));
        }
    }
}

/// A single notice ends its connection, if it is established, and hands it
/// back; a notice for an id that is not established changes nothing.
pub proof fn lemma_end_run_single<C>(m: Map<ConnectionId, C>, id: ConnectionId)
    ensures
        m.contains_key(id) ==> end_run(m, seq![id]) == (m.remove(id), seq![(id, m[id])]),
        !m.contains_key(id) ==> end_run(m, seq![id]) == (m, Seq::<(ConnectionId, C)>::empty()),
{
    assert(seq![id].drop_last() =~= Seq::<ConnectionId>::empty());
    assert(seq![id].last() == id);
    assert(end_run(m, Seq::<ConnectionId>::empty()) == (m, Seq::<(ConnectionId, C)>::empty()));
    if m.contains_key(id) {
        assert(Seq::<(ConnectionId, C)>::empty().push((id, m[id])) =~= seq![(id, m[id])]);
    }
}

} // verus!
