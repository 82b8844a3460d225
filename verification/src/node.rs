//! The document session: one document's tree, its journal and its attached
//! sinks, kept in step.

use vstd::prelude::*;
use crate::broadcast::{deliveries_view, fan_out, fan_out_spec, Delivery};
use crate::change::{
    apply_all, changes_view, clone_changes, lemma_replay_concat, replay, ApplyError, ChangeView,
};
use crate::journal::{changes_from, concat, Journal, Record};
use crate::sockets::{attached, holds_id, ids_of, only_ids, ordered, without_ids, NodeSockets};
use crate::value::{lemma_member_absent_all, lemma_tree_of, members_tree, Tree, Value};
use crate::wire::{
    ClientUpdate, Incoming, ServerHandshake, ServerHandshakeView, ServerUpdate, ServerUpdateView,
};

verus! {

/// The tree of a document without updates: the empty mapping.
pub open spec fn empty_tree() -> Tree {
    Tree::Object(Map::empty())
}

/// What a committed update leaves to be done: the record to be made durable
/// and the frames to be sent.
#[derive(Debug, PartialEq, Eq)]
pub struct Committed {
    pub record: Record,
    pub deliveries: Vec<Delivery>,
}

/// Why an update was not committed.
#[derive(Clone, Copy, Debug, PartialEq, Eq)]
pub enum HandleError {
    /// The descriptor is poisoned and takes no update.
    Poisoned,
    /// A change of the update cannot be applied.
    Rejected(ApplyError),
}

/// Why a sink was not attached.
#[derive(Clone, Copy, Debug, PartialEq, Eq)]
pub enum AttachError {
    /// The descriptor is poisoned and takes no sink.
    Poisoned,
    /// The sink ids are used up.
    Exhausted,
}

/// Why a connection was closed.
#[derive(Clone, Copy, Debug, PartialEq, Eq)]
pub enum CloseReason {
    /// The descriptor is poisoned.
    Poisoned,
    /// The peer sent a close, a ping or a pong.
    Finished,
    /// The peer sent a binary frame, or text that holds no update.
    Malformed,
    /// The peer sent an update with a change that cannot be applied.
    Rejected(ApplyError),
}

/// What became of a message.
pub enum Outcome<S> {
    /// The update was committed and the connection goes on.
    Committed(Committed),
    /// The connection is over. Its sink is detached and handed back, unless
    /// it was not attached in the first place.
    Closed { sink: Option<S>, reason: CloseReason },
}

/// A document descriptor.
///
/// A descriptor whose last update could not be made durable is ahead of the
/// durable journal and has to be given up: it is poisoned. A poisoned
/// descriptor holds no sinks and takes neither updates nor sinks; the
/// document is opened again from its durable journal.
pub struct Node<S> {
    id: usize,
    key: String,
    data: Value,
    journal: Journal,
    sockets: NodeSockets<S>,
    poisoned: bool,
}

/// The mathematical model of a document descriptor.
pub ghost struct NodeView<S> {
    /// The internal id of the document.
    pub id: usize,
    /// The handle of the document.
    pub key: Seq<char>,
    /// The current tree.
    pub tree: Tree,
    /// The updates committed so far, oldest first.
    pub journal: Seq<Seq<ChangeView>>,
    /// The attached sinks with their ids, oldest first.
    pub sinks: Seq<(usize, S)>,
    /// The id that the next sink will get.
    pub next_sink: usize,
    /// Whether the descriptor has been given up.
    pub poisoned: bool,
}

impl<S> NodeView<S> {
    /// The current version: the number of updates committed so far.
    pub open spec fn version(self) -> nat {
        self.journal.len()
    }

    /// The tree is what the journal replays to from the empty mapping, and
    /// the registry is in order.
    pub open spec fn wf(self) -> bool {
        &&& replay(empty_tree(), concat(self.journal)) == Ok::<Tree, ApplyError>(self.tree)
        &&& ordered(self.sinks, self.next_sink)
        &&& self.poisoned ==> self.sinks.len() == 0
    }

    /// The descriptor after an update with the given changes: the changes
    /// applied in order and appended to the journal as one update. A
    /// poisoned descriptor refuses every update, and any descriptor refuses
    /// an update with a change that cannot be applied; a refused update
    /// changes nothing.
    pub open spec fn commit(self, changes: Seq<ChangeView>) -> Result<NodeView<S>, HandleError> {
        if self.poisoned {
            Err(HandleError::Poisoned)
        } else {
            match replay(self.tree, changes) {
                Ok(t) => Ok(NodeView { tree: t, journal: self.journal.push(changes), ..self }),
                Err(e) => Err(HandleError::Rejected(e)),
            }
        }
    }

    /// The handshake for a client whose last-known version is `head`: the
    /// handle, the current version and the changes of all updates at
    /// versions `head` and above, in (version, ordering) order.
    pub open spec fn handshake(self, head: nat) -> ServerHandshakeView {
        ServerHandshakeView {
            id: Some(self.key),
            update: ServerUpdateView {
                version: self.version(),
                changes: Some(changes_from(self.journal, head)),
            },
        }
    }

    /// Whether `after` is this descriptor with the sink `id` detached and
    /// handed out as `sink`: if the sink was attached, it is gone from the
    /// registry and handed out; if it was not, nothing changed and nothing
    /// is handed out.
    pub open spec fn detached(self, after: NodeView<S>, id: usize, sink: Option<S>) -> bool {
        &&& !attached(after.sinks, id)
        &&& sink is Some <==> attached(self.sinks, id)
        &&& sink is None ==> after == self
        &&& forall|i: int| #[trigger]
            holds_id(self.sinks, id, i) ==> sink == Some(self.sinks[i].1) && after == (NodeView {
                sinks: self.sinks.remove(i),
                ..self
            })
    }

    /// The descriptor after a run of updates, each committed or refused.
    pub open spec fn run(self, updates: Seq<Seq<ChangeView>>) -> NodeView<S>
        decreases updates.len(),
    {
        if updates.len() == 0 {
            self
        } else {
            let before = self.run(updates.drop_last());
            match before.commit(updates.last()) {
                Ok(after) => after,
                Err(_) => before,
            }
        }
    }

    /// The versions given out during a run of updates, in order: one for
    /// each update that was committed.
    pub open spec fn emitted(self, updates: Seq<Seq<ChangeView>>) -> Seq<nat>
        decreases updates.len(),
    {
        if updates.len() == 0 {
            Seq::empty()
        } else {
            let before = self.run(updates.drop_last());
            match before.commit(updates.last()) {
                Ok(after) => self.emitted(updates.drop_last()).push(after.version()),
                Err(_) => self.emitted(updates.drop_last()),
            }
        }
    }
}

impl<S> View for Node<S> {
    type V = NodeView<S>;

    closed spec fn view(&self) -> NodeView<S> {
        NodeView {
            id: self.id,
            key: self.key@,
            tree: self.data@,
            journal: self.journal@,
            sinks: self.sockets@,
            next_sink: self.sockets.next_id(),
            poisoned: self.poisoned,
        }
    }
}

impl<S> Node<S> {
    /// Makes the descriptor of the document with the given journal: its tree
    /// is the journal replayed from the empty mapping. With an empty journal
    /// this is a new document at version 0. A journal that does not replay
    /// gives the error of its first change that cannot be applied.
    pub fn new(id: usize, key: String, journal: Journal) -> (r: Result<Node<S>, ApplyError>)
        ensures
            match replay(empty_tree(), concat(journal@)) {
                Ok(t) => r matches Ok(node) && node@.wf() && node@ == (NodeView::<S> {
                    id,
                    key: key@,
                    tree: t,
                    journal: journal@,
                    sinks: Seq::empty(),
                    next_sink: 0,
                    poisoned: false,
                }),
                Err(e) => r matches Err(f) && f == e,
            },
    {
        let mut data = Value::Object(Vec::new());
        proof {
            lemma_tree_of(data);
            lemma_member_absent_all(data->Object_0@);
            assert(members_tree(data->Object_0@) =~= Map::<Seq<char>, Tree>::empty());
        }
        let history = journal.load_changes(0);
        assert(journal@.skip(0) == journal@);
        match apply_all(&mut data, &history) {
            Ok(()) => {
                let node = Node { id, key, data, journal, sockets: NodeSockets::new(), poisoned: false };
                assert(node@.sinks =~= Seq::<(usize, S)>::empty());
                Ok(node)
            },
            Err(e) => Err(e),
        }
    }

    /// The internal id of the document.
    pub fn id(&self) -> (id: usize)
        ensures
            id == self@.id,
    {
        self.id
    }

    /// The handle of the document.
    pub fn key(&self) -> (key: &String)
        ensures
            key@ == self@.key,
    {
        &self.key
    }

    /// The current version.
    pub fn version(&self) -> (version: usize)
        ensures
            version == self@.version(),
    {
        self.journal.load_version()
    }

    /// The current tree.
    pub fn data(&self) -> (data: &Value)
        ensures
            data@ == self@.tree,
    {
        &self.data
    }

    /// The journal.
    pub fn journal(&self) -> (journal: &Journal)
        ensures
            journal@ == self@.journal,
    {
        &self.journal
    }

    /// The connection registry.
    pub fn sockets(&self) -> (sockets: &NodeSockets<S>)
        ensures
            sockets@ == self@.sinks,
            sockets.next_id() == self@.next_sink,
    {
        &self.sockets
    }

    /// Whether the descriptor has been given up.
    pub fn is_poisoned(&self) -> (poisoned: bool)
        ensures
            poisoned == self@.poisoned,
    {
        self.poisoned
    }

    /// Whether another sink can be attached: the descriptor is not poisoned
    /// and sink ids are not used up.
    pub fn can_attach(&self) -> (free: bool)
        ensures
            free == (!self@.poisoned && self@.next_sink < usize::MAX),
    {
        !self.poisoned && self.sockets.has_free_id()
    }

    /// Takes an update from the sink `from`: applies its changes in order,
    /// commits them at the next version and prepares the frames for all
    /// attached sinks. An update with a change that cannot be applied is
    /// refused as a whole and leaves the document as it was; so is every
    /// update to a poisoned descriptor.
    pub fn handle(&mut self, update: ClientUpdate, from: usize) -> (r: Result<Committed, HandleError>)
        requires
            old(self)@.wf(),
        ensures
            final(self)@.wf(),
            match old(self)@.commit(changes_view(update.changes@)) {
                Ok(next) => r matches Ok(done) && {
                    &&& final(self)@ == next
                    &&& done.record.node == next.id
                    &&& done.record.version == next.version()
                    &&& changes_view(done.record.changes@) == changes_view(update.changes@)
                    &&& deliveries_view(done.deliveries@) == fan_out_spec(
                        ids_of(next.sinks),
                        next.version(),
                        changes_view(update.changes@),
                        from,
                    )
                },
                Err(e) => r matches Err(f) && f == e && final(self)@ == old(self)@,
            },
    {
        if self.poisoned {
            return Err(HandleError::Poisoned);
        }
        let mut draft = self.data.clone();
        match apply_all(&mut draft, &update.changes) {
            Ok(()) => {
                proof {
                    lemma_replay_concat(
                        empty_tree(),
                        concat(self.journal@),
                        changes_view(update.changes@),
                    );
                    let after = self.journal@.push(changes_view(update.changes@));
                    assert(after.drop_last() == self.journal@);
                }
                let version = self.journal.append(clone_changes(&update.changes));
                self.data = draft;
                let deliveries = fan_out(&self.sockets, version, &update.changes, from);
                Ok(
                    Committed {
                        record: Record { node: self.id, version, changes: update.changes },
                        deliveries,
                    },
                )
            },
            Err(e) => Err(HandleError::Rejected(e)),
        }
    }

    /// The handshake for a client whose last-known version is `head`.
    pub fn handshake(&self, head: usize) -> (handshake: ServerHandshake)
        ensures
            handshake@ == self@.handshake(head as nat),
    {
        let changes = self.journal.load_changes(head);
        let version = self.journal.load_version();
        ServerHandshake {
            id: Some(self.key.clone()),
            update: ServerUpdate { version, changes: Some(changes) },
        }
    }

    /// Attaches a sink to the document. Returns the sink's id and the
    /// handshake for it. A poisoned descriptor, or one whose sink ids are
    /// used up, hands the sink back and stays as it was.
    pub fn attach(&mut self, sink: S, head: usize) -> (r: Result<
        (usize, ServerHandshake),
        (AttachError, S),
    >)
        requires
            old(self)@.wf(),
        ensures
            final(self)@.wf(),
            match r {
                Ok((id, handshake)) => {
                    &&& !old(self)@.poisoned
                    &&& old(self)@.next_sink < usize::MAX
                    &&& id == old(self)@.next_sink
                    &&& final(self)@ == (NodeView {
                        sinks: old(self)@.sinks.push((id, sink)),
                        next_sink: (id + 1) as usize,
                        ..old(self)@
                    })
                    &&& handshake@ == old(self)@.handshake(head as nat)
                },
                Err((why, back)) => {
                    &&& back == sink
                    &&& final(self)@ == old(self)@
                    &&& why == (if old(self)@.poisoned {
                        AttachError::Poisoned
                    } else {
                        AttachError::Exhausted
                    })
                    &&& old(self)@.poisoned || old(self)@.next_sink == usize::MAX
                },
            },
    {
        if self.poisoned {
            return Err((AttachError::Poisoned, sink));
        }
        if !self.sockets.has_free_id() {
            return Err((AttachError::Exhausted, sink));
        }
        let handshake = self.handshake(head);
        let id = self.sockets.add(sink);
        Ok((id, handshake))
    }

    /// Detaches the sink with the given id and hands it back; a missing id
    /// changes nothing.
    pub fn detach(&mut self, id: usize) -> (r: Option<S>)
        requires
            old(self)@.wf(),
        ensures
            final(self)@.wf(),
            old(self)@.detached(final(self)@, id, r),
    {
        self.sockets.remove(id)
    }

    /// Detaches the sinks whose ids are among `ids`, such as those that a
    /// frame could not be sent to, and hands them back with their ids,
    /// oldest first. An id that is not attached counts for nothing.
    pub fn detach_all(&mut self, ids: &Vec<usize>) -> (gone: Vec<(usize, S)>)
        requires
            old(self)@.wf(),
        ensures
            final(self)@.wf(),
            final(self)@ == (NodeView {
                sinks: without_ids(old(self)@.sinks, ids@),
                ..old(self)@
            }),
            gone@ == only_ids(old(self)@.sinks, ids@),
    {
        let gone = self.sockets.remove_all(ids);
        proof {
            crate::sockets::lemma_without_ids_len(old(self)@.sinks, ids@);
        }
        gone
    }

    /// Gives the descriptor up: marks it poisoned and detaches all its
    /// sinks, which are handed back with their ids, oldest first, to be
    /// closed.
    pub fn poison(&mut self) -> (gone: Vec<(usize, S)>)
        requires
            old(self)@.wf(),
        ensures
            final(self)@.wf(),
            final(self)@ == (NodeView { poisoned: true, sinks: Seq::empty(), ..old(self)@ }),
            gone@ == old(self)@.sinks,
    {
        self.poisoned = true;
        let gone = self.sockets.take_all();
        assert(self@.sinks =~= Seq::<(usize, S)>::empty());
        gone
    }

    /// Takes one message of the connection whose sink has the id `from`. An
    /// update goes through `handle`. Whatever ends the connection (a
    /// poisoned descriptor; a close, a ping or a pong; a binary frame or text
    /// that holds no update; an update that is refused) also detaches its
    /// sink.
    pub fn receive(&mut self, incoming: Incoming, from: usize) -> (r: Outcome<S>)
        requires
            old(self)@.wf(),
        ensures
            final(self)@.wf(),
            match close_reason(old(self)@, incoming) {
                None => r matches Outcome::Committed(done) && incoming matches Incoming::Update(
                    update,
                ) && old(self)@.commit(changes_view(update.changes@)) matches Ok(next) && {
                    &&& final(self)@ == next
                    &&& done.record.node == next.id
                    &&& done.record.version == next.version()
                    &&& changes_view(done.record.changes@) == changes_view(update.changes@)
                    &&& deliveries_view(done.deliveries@) == fan_out_spec(
                        ids_of(next.sinks),
                        next.version(),
                        changes_view(update.changes@),
                        from,
                    )
                },
                Some(why) => r matches Outcome::Closed { sink, reason } && reason == why && old(
                    self,
                )@.detached(final(self)@, from, sink),
            },
    {
        let reason = if self.poisoned {
            CloseReason::Poisoned
        } else {
            match incoming {
                Incoming::Update(update) => {
                    match self.handle(update, from) {
                        Ok(done) => {
                            return Outcome::Committed(done);
                        },
                        Err(HandleError::Rejected(e)) => CloseReason::Rejected(e),
                        Err(HandleError::Poisoned) => CloseReason::Poisoned,
                    }
                },
                Incoming::Malformed => CloseReason::Malformed,
                Incoming::Binary => CloseReason::Malformed,
                Incoming::Ping => CloseReason::Finished,
                Incoming::Pong => CloseReason::Finished,
                Incoming::Close => CloseReason::Finished,
            }
        };
        let sink = self.detach(from);
        Outcome::Closed { sink, reason }
    }
}

/// Why a message ends its connection, if it does. On a poisoned descriptor
/// every message does.
pub open spec fn close_reason<S>(node: NodeView<S>, incoming: Incoming) -> Option<CloseReason> {
    if node.poisoned {
        Some(CloseReason::Poisoned)
    } else {
        match incoming {
            Incoming::Update(update) => match replay(node.tree, changes_view(update.changes@)) {
                Ok(_) => None,
                Err(e) => Some(CloseReason::Rejected(e)),
            },
            Incoming::Malformed => Some(CloseReason::Malformed),
            Incoming::Binary => Some(CloseReason::Malformed),
            Incoming::Ping => Some(CloseReason::Finished),
            Incoming::Pong => Some(CloseReason::Finished),
            Incoming::Close => Some(CloseReason::Finished),
        }
    }
}

/// Catch-up at the handshake is exact: the handshake of a descriptor for the
/// head `head` carries the current version and the changes of the updates at
/// versions `head` and above and no others, each change of the update at
/// version `v` behind all changes of the versions from `head` up to `v`, at
/// its ordering.
pub proof fn lemma_handshake_catches_up<S>(node: NodeView<S>, head: nat, v: int, o: int)
    requires
        1 <= v <= node.version(),
        head <= v,
        0 <= o < node.journal[v - 1].len(),
    ensures
        node.handshake(head).id == Some(node.key),
        node.handshake(head).update.version == node.version(),
        node.handshake(head).update.changes matches Some(changes) && {
            let seen = crate::journal::seen(node.journal, head);
            &&& changes.len() == crate::journal::total(node.journal.skip(seen))
            &&& crate::journal::total(node.journal.subrange(seen, v - 1)) + o < changes.len()
            &&& changes[crate::journal::total(node.journal.subrange(seen, v - 1)) + o]
                == node.journal[v - 1][o]
        },
{
    crate::journal::lemma_catch_up(node.journal, head, v, o);
}

/// Journal and memory agree: a descriptor that is well formed stays so when
/// it commits an update, and the tree of a well-formed descriptor is what
/// its whole journal, read from version 0, replays to from the empty
/// mapping.
pub proof fn lemma_journal_agrees<S>(node: NodeView<S>, changes: Seq<ChangeView>)
    requires
        node.wf(),
    ensures
        replay(empty_tree(), changes_from(node.journal, 0)) == Ok::<Tree, ApplyError>(node.tree),
        node.commit(changes) matches Ok(next) ==> next.wf() && replay(
            empty_tree(),
            changes_from(next.journal, 0),
        ) == Ok::<Tree, ApplyError>(next.tree),
{
    assert(node.journal.skip(0) == node.journal);
    if let Ok(next) = node.commit(changes) {
        lemma_replay_concat(empty_tree(), concat(node.journal), changes);
        assert(next.journal.drop_last() == node.journal);
        assert(next.journal.skip(0) == next.journal);
    }
}

/// Versions count up without gaps and without repeats: during any run of
/// updates, the `i`-th update that is committed gets the version that is `i`
/// above the version at the start (counting from 1), and the descriptor ends
/// at the last version given out.
pub proof fn lemma_versions_count_up<S>(node: NodeView<S>, updates: Seq<Seq<ChangeView>>)
    ensures
        forall|i: int|
            0 <= i < node.emitted(updates).len() ==> #[trigger] node.emitted(updates)[i]
                == node.version() + 1 + i,
        node.run(updates).version() == node.version() + node.emitted(updates).len(),
    decreases updates.len(),
{
    if updates.len() > 0 {
        lemma_versions_count_up(node, updates.drop_last());
    }
}

} // verus!
