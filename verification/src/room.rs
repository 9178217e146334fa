//! The server-side room: one canonical grid engine and the registry of the
//! clients sharing it. The room decides who receives a broadcast and whether
//! an inbound batch is applied or dropped as divergent; the transport around
//! it only carries out those decisions.

use vstd::prelude::*;
use crate::engine_events::subs_without;
use crate::error::GridError;
use crate::error::GridErrorKind;
use crate::grid_engine::BatchChangeValue;
use crate::grid_engine::EventName;
use crate::grid_engine::GridEngine;
use crate::grid_engine::changes_view;
use crate::grid_engine::ids_view;
use crate::model::GridModel;
use crate::model::items_after;
use crate::model::state_ok;
use crate::ser::hash_str;

verus! {

/// One connected client: its identifier and the handle of its subscription
/// on the grid's event bus.
pub struct ClientEntry {
    pub id: String,
    pub listener_id: u64,
}

/// The first position of the client with the given identifier, or the number
/// of clients when none has it.
pub open spec fn find_client(s: Seq<ClientEntry>, id: Seq<char>) -> int
    decreases s.len(),
{
    if s.len() == 0 {
        0
    } else if s[0].id@ == id {
        0
    } else {
        1 + find_client(s.skip(1), id)
    }
}

pub proof fn lemma_find_client(s: Seq<ClientEntry>, id: Seq<char>)
    ensures
        0 <= find_client(s, id) <= s.len(),
        find_client(s, id) < s.len() ==> s[find_client(s, id)].id@ == id,
        forall|i: int| 0 <= i < find_client(s, id) ==> (#[trigger] s[i]).id@ != id,
        find_client(s, id) == s.len() ==> forall|i: int|
            0 <= i < s.len() ==> (#[trigger] s[i]).id@ != id,
    decreases s.len(),
{
    if s.len() > 0 && s[0].id@ != id {
        lemma_find_client(s.skip(1), id);
        assert(forall|i: int| 1 <= i < s.len() ==> s[i] == s.skip(1)[i - 1]);
    }
}

/// The identifiers a broadcast reaches: every client but the originator, in
/// registration order.
pub open spec fn broadcast_targets_of(s: Seq<ClientEntry>, from: Seq<char>) -> Seq<Seq<char>>
    decreases s.len(),
{
    if s.len() == 0 {
        Seq::empty()
    } else if s[0].id@ == from {
        broadcast_targets_of(s.skip(1), from)
    } else {
        seq![s[0].id@] + broadcast_targets_of(s.skip(1), from)
    }
}

/// A broadcast never reaches its originator, and reaches every other
/// connected client.
pub proof fn lemma_broadcast_exclusion(s: Seq<ClientEntry>, from: Seq<char>)
    ensures
        !broadcast_targets_of(s, from).contains(from),
        forall|i: int|
            0 <= i < s.len() && (#[trigger] s[i]).id@ != from
                ==> broadcast_targets_of(s, from).contains(s[i].id@),
    decreases s.len(),
{
    if s.len() > 0 {
        lemma_broadcast_exclusion(s.skip(1), from);
        let r = broadcast_targets_of(s, from);
        let rest = broadcast_targets_of(s.skip(1), from);
        if s[0].id@ == from {
            assert(r == rest);
        } else {
            assert(r[0] == s[0].id@);
            assert(forall|q: int| 0 <= q < rest.len() ==> r[q + 1] == rest[q]);
            if r.contains(from) {
                let q = choose|q: int| 0 <= q < r.len() && r[q] == from;
                assert(q >= 1);
                assert(rest[q - 1] == from);
            }
        }
        assert forall|i: int|
            0 <= i < s.len() && (#[trigger] s[i]).id@ != from
            implies r.contains(s[i].id@) by {
            if i == 0 {
                assert(s[0].id@ != from);
                assert(r[0] == s[0].id@);
            } else {
                assert(s.skip(1)[i - 1] == s[i]);
                assert(rest.contains(s[i].id@));
                let q = choose|q: int| 0 <= q < rest.len() && rest[q] == s[i].id@;
                if s[0].id@ == from {
                    assert(r[q] == s[i].id@);
                } else {
                    assert(r[q + 1] == s[i].id@);
                }
            }
        }
    }
}

/// A room: the canonical grid engine for one grid identifier and the clients
/// connected to it.
pub struct Room {
    pub clients: Vec<ClientEntry>,
    pub grid: GridEngine,
}

impl Room {
    /// The room's well-formedness: its engine is well formed and no two
    /// clients share an identifier.
    pub open spec fn wf(&self) -> bool {
        &&& self.grid.wf()
        &&& forall|i: int, j: int|
            0 <= i < j < self.clients@.len()
                ==> (#[trigger] self.clients@[i]).id@ != (#[trigger] self.clients@[j]).id@
    }

    /// A fresh room of the given dimensions with no clients.
    pub fn new(rows: usize, cols: usize) -> (r: Room)
        requires
            rows * cols <= usize::MAX,
        ensures
            r.wf(),
            r.clients@.len() == 0,
            r.grid@.items.len() == 0,
    {
        Room { clients: Vec::new(), grid: GridEngine::new(rows, cols) }
    }

    /// A room around an existing engine with no clients.
    pub fn from_engine(grid: GridEngine) -> (r: Room)
        requires
            grid.wf(),
        ensures
            r.wf(),
            r.clients@.len() == 0,
            r.grid@ == grid@,
    {
        Room { clients: Vec::new(), grid }
    }

    /// Registers a client: subscribes it to the grid's published batches and
    /// records its handle. Any client already registered under the
    /// identifier is closed first.
    pub fn add_client(&mut self, id: String) -> (listener_id: u64)
        requires
            old(self).wf(),
            old(self).grid.bus().next_id < u64::MAX,
        ensures
            final(self).wf(),
            final(self).grid@ == old(self).grid@,
            final(self).clients@.len() >= 1,
            final(self).clients@[final(self).clients@.len() - 1].id@ == id@,
            final(self).clients@[final(self).clients@.len() - 1].listener_id == listener_id,
            forall|i: int| 0 <= i < final(self).clients@.len() - 1
                ==> (#[trigger] final(self).clients@[i]).id@ != id@,
    {
        self.close_connection(id.as_str());
        let listener_id = self.grid.subscribe();
        let ghost before = self.clients@;
        self.clients.push(ClientEntry { id, listener_id });
        proof {
            assert forall|i: int| 0 <= i < self.clients@.len() - 1
                implies (#[trigger] self.clients@[i]).id@
                    != self.clients@[self.clients@.len() - 1].id@ by {
                assert(self.clients@[i] == before[i]);
            }
            assert forall|i: int, j: int| 0 <= i < j < self.clients@.len()
                implies (#[trigger] self.clients@[i]).id@
                    != (#[trigger] self.clients@[j]).id@ by {
                if j < self.clients@.len() - 1 {
                    assert(self.clients@[i] == before[i] && self.clients@[j] == before[j]);
                }
            }
        }
        listener_id
    }

    /// Drops the client with the given identifier and unsubscribes its
    /// handler from the grid's event bus; with an unknown identifier neither
    /// the client list nor the bus changes.
    pub fn close_connection(&mut self, id: &str)
        requires
            old(self).wf(),
        ensures
            final(self).wf(),
            final(self).grid@ == old(self).grid@,
            final(self).grid.bus().next_id == old(self).grid.bus().next_id,
            forall|i: int| 0 <= i < final(self).clients@.len()
                ==> (#[trigger] final(self).clients@[i]).id@ != id@,
            ({
                let k = find_client(old(self).clients@, id@);
                if k < old(self).clients@.len() {
                    &&& final(self).clients@ == old(self).clients@.remove(k)
                    &&& final(self).grid.bus().subs == subs_without(
                        old(self).grid.bus().subs,
                        EventName::BatchChange,
                        old(self).clients@[k].listener_id as int,
                    )
                } else {
                    &&& final(self).clients@ == old(self).clients@
                    &&& final(self).grid.bus() == old(self).grid.bus()
                }
            }),
            forall|i: int|
                0 <= i < final(self).clients@.len()
                    && (#[trigger] final(self).clients@[i]).id@ != id@
                    ==> old(self).clients@.contains(final(self).clients@[i]),
    {
        let ghost cs = old(self).clients@;
        proof {
            lemma_find_client(cs, id@);
        }
        let n = self.clients.len();
        let mut i: usize = 0;
        while i < n
            invariant
                i <= n,
                n == self.clients@.len(),
                self.clients@ == cs,
                self.grid == old(self).grid,
                old(self).wf(),
                cs == old(self).clients@,
                forall|p: int| 0 <= p < i ==> (#[trigger] cs[p]).id@ != id@,
            decreases n - i,
        {
            if crate::text::str_eq(self.clients[i].id.as_str(), id) {
                proof {
                    assert(cs[i as int].id@ == id@);
                    assert(find_client(cs, id@) == i) by {
                        lemma_find_client(cs, id@);
                        let k = find_client(cs, id@);
                        if k < i {
                            assert(cs[k].id@ != id@);
                        }
                        if k > i && k < cs.len() {
                            assert(cs[k].id@ == id@);
                            assert(cs[i as int].id@ != id@);
                        }
                    }
                }
                let entry = self.clients.remove(i);
                assert(entry == cs[i as int]);
                self.grid.unsubscribe(entry.listener_id);
                proof {
                    assert(self.clients@ =~= cs.remove(i as int));
                    assert forall|p: int| 0 <= p < self.clients@.len()
                        implies (#[trigger] self.clients@[p]).id@ != id@ by {
                        if p < i {
                            assert(self.clients@[p] == cs[p]);
                        } else {
                            assert(self.clients@[p] == cs[p + 1]);
                            assert(cs[i as int].id@ == id@);
                        }
                    }
                    assert forall|p: int|
                        0 <= p < self.clients@.len()
                            && (#[trigger] self.clients@[p]).id@ != id@
                        implies cs.contains(self.clients@[p]) by {
                        if p < i {
                            assert(self.clients@[p] == cs[p]);
                        } else {
                            assert(self.clients@[p] == cs[p + 1]);
                        }
                    }
                    assert forall|p: int, q: int| 0 <= p < q < self.clients@.len()
                        implies (#[trigger] self.clients@[p]).id@
                            != (#[trigger] self.clients@[q]).id@ by {
                        let pp = if p < i { p } else { p + 1 };
                        let qq = if q < i { q } else { q + 1 };
                        assert(self.clients@[p] == cs[pp] && self.clients@[q] == cs[qq]);
                    }
                }
                return;
            }
            i = i + 1;
        }
    }

    /// The identifiers a broadcast from the given originator must reach:
    /// every connected client but the originator, in registration order.
    pub fn broadcast_targets(&self, from: &str) -> (r: Vec<String>)
        ensures
            ids_view(r@) == broadcast_targets_of(self.clients@, from@),
    {
        let ghost cs = self.clients@;
        let mut r: Vec<String> = Vec::new();
        let n = self.clients.len();
        let mut i: usize = 0;
        proof {
            assert(cs.skip(0) =~= cs);
            assert(ids_view(r@) =~= Seq::<Seq<char>>::empty());
        }
        while i < n
            invariant
                i <= n,
                n == self.clients@.len(),
                self.clients@ == cs,
                broadcast_targets_of(cs, from@) == ids_view(r@) + broadcast_targets_of(
                    cs.skip(i as int),
                    from@,
                ),
            decreases n - i,
        {
            assert(cs.skip(i as int)[0] == cs[i as int]);
            if !crate::text::str_eq(self.clients[i].id.as_str(), from) {
                let ghost before = ids_view(r@);
                r.push(self.clients[i].id.clone());
                proof {
                    assert(ids_view(r@) =~= before.push(cs[i as int].id@));
                    assert(ids_view(r@) + broadcast_targets_of(cs.skip(i + 1), from@)
                        =~= before + (seq![cs[i as int].id@] + broadcast_targets_of(
                            cs.skip(i + 1), from@)));
                }
            }
            proof {
                assert(cs.skip(i as int).skip(1) =~= cs.skip(i + 1));
            }
            i = i + 1;
        }
        proof {
            assert(cs.skip(n as int).len() == 0);
            assert(broadcast_targets_of(cs, from@) =~= ids_view(r@));
        }
        r
    }

    /// Handles a batch received from a peer: drops it as divergent when its
    /// recorded pre-hash does not match this room's current view hash,
    /// otherwise applies it verbatim. On either failure nothing is published
    /// to the grid's event bus, so no broadcast arises for a dropped batch.
    pub fn handle_remote_batch(&mut self, value: &BatchChangeValue) -> (r: Result<
        (),
        GridError,
    >)
        requires
            old(self).wf(),
        ensures
            final(self).wf(),
            final(self).clients@ == old(self).clients@,
            ({
                let sim = items_after(old(self).grid@.items, changes_view(value.changes@));
                let accept = state_ok(
                    GridModel {
                        rows: old(self).grid@.rows,
                        cols: old(self).grid@.cols,
                        items: sim,
                    },
                );
                match r {
                    Ok(_) => {
                        &&& value.hash_before@ == hash_str(old(self).grid@)
                        &&& accept
                        &&& final(self).grid@.items == sim
                        &&& final(self).grid.bus() == GridEngine::bus_after_batch(
                            old(self).grid.bus(),
                            old(self).grid@,
                            sim,
                            changes_view(value.changes@),
                        )
                    },
                    Err(e) => {
                        &&& final(self).grid@ == old(self).grid@
                        &&& final(self).grid.bus() == old(self).grid.bus()
                        &&& e.kind == GridErrorKind::Divergence
                            ==> value.hash_before@ != hash_str(old(self).grid@)
                        &&& e.kind == GridErrorKind::Malformed ==> !accept
                        &&& (e.kind == GridErrorKind::Divergence || e.kind
                            == GridErrorKind::Malformed)
                    },
                }
            }),
    {
        let current = self.grid.get_grid_view().hash();
        if !(value.hash_before == current) {
            return Err(GridError::new(GridErrorKind::Divergence));
        }
        self.grid.apply_changes(&value.changes)
    }
}

/// An error of the synchronization layer around the engine.
#[derive(Debug)]
pub struct GridMultiplayerError {
    pub message: String,
    pub description: String,
}

impl GridMultiplayerError {
    /// Wraps a message and a longer description.
    pub fn new(message: &str, description: &str) -> (r: GridMultiplayerError)
        ensures
            r.message@ == message@,
            r.description@ == description@,
    {
        GridMultiplayerError {
            message: String::from_str(message),
            description: String::from_str(description),
        }
    }

    /// The message followed by the description.
    pub fn get_message(&self) -> (r: String)
        ensures
            r@ == self.message@ + ": "@ + self.description@,
    {
        let mut s = self.message.clone();
        proof {
            reveal_strlit(": ");
        }
        s.append(": ");
        s.append(self.description.as_str());
        s
    }
}

} // verus!
