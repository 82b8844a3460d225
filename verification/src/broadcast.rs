//! Fan-out of a committed update to the attached sinks.

use vstd::prelude::*;
use crate::change::{changes_view, clone_changes, Change, ChangeView};
use crate::sockets::NodeSockets;
use crate::wire::{ServerUpdate, ServerUpdateView};

verus! {

/// One frame on its way to one sink.
#[derive(Debug, PartialEq, Eq)]
pub struct Delivery {
    /// The id of the sink that gets the frame.
    pub sink: usize,
    pub frame: ServerUpdate,
}

/// The mathematical model of a delivery.
pub ghost struct DeliveryView {
    pub sink: usize,
    pub frame: ServerUpdateView,
}

impl View for Delivery {
    type V = DeliveryView;

    open spec fn view(&self) -> DeliveryView {
        DeliveryView { sink: self.sink, frame: self.frame@ }
    }
}

/// The models of a list of deliveries.
pub open spec fn deliveries_view(deliveries: Seq<Delivery>) -> Seq<DeliveryView> {
    Seq::new(deliveries.len(), |i: int| deliveries[i]@)
}

/// The frame that the sink `sink` gets for the update at `version` that came
/// in on the sink `origin`: the version alone for the originator, the
/// version with the changes for everyone else.
pub open spec fn frame_for(sink: usize, version: nat, changes: Seq<ChangeView>, origin: usize)
    -> ServerUpdateView {
    ServerUpdateView { version, changes: if sink == origin { None } else { Some(changes) } }
}

/// The deliveries of one update: one frame for each attached sink, in the
/// order of the registry.
pub open spec fn fan_out_spec(
    ids: Seq<usize>,
    version: nat,
    changes: Seq<ChangeView>,
    origin: usize,
) -> Seq<DeliveryView> {
    Seq::new(
        ids.len(),
        |i: int| DeliveryView { sink: ids[i], frame: frame_for(ids[i], version, changes, origin) },
    )
}

/// Prepares the frames of the update at `version` for all attached sinks.
pub fn fan_out<S>(sockets: &NodeSockets<S>, version: usize, changes: &Vec<Change>, origin: usize)
    -> (deliveries: Vec<Delivery>)
    ensures
        deliveries_view(deliveries@) == fan_out_spec(
            sockets.ids(),
            version as nat,
            changes_view(changes@),
            origin,
        ),
{
    let ids = sockets.iter();
    let ghost want = fan_out_spec(ids@, version as nat, changes_view(changes@), origin);
    let mut deliveries: Vec<Delivery> = Vec::new();
    let mut i: usize = 0;
    while i < ids.len()
        invariant
            i <= ids.len(),
            want == fan_out_spec(ids@, version as nat, changes_view(changes@), origin),
            deliveries.len() == i,
            forall|j: int| 0 <= j < i ==> (#[trigger] deliveries[j])@ == want[j],
        decreases ids.len() - i,
    {
        let sink = ids[i];
        let frame = if sink == origin {
            ServerUpdate { version, changes: None }
        } else {
            ServerUpdate { version, changes: Some(clone_changes(changes)) }
        };
        deliveries.push(Delivery { sink, frame });
        i = i + 1;
    }
    assert(deliveries_view(deliveries@) =~= want);
    deliveries
}

/// Every attached sink gets exactly one frame of an update: the `i`-th
/// delivery goes to the `i`-th sink of the registry, and no other delivery
/// goes to that sink.
pub proof fn lemma_fan_out_covers<S>(
    sockets: NodeSockets<S>,
    version: nat,
    changes: Seq<ChangeView>,
    origin: usize,
)
    requires
        sockets.wf(),
    ensures
        fan_out_spec(sockets.ids(), version, changes, origin).len() == sockets@.len(),
        forall|i: int|
            0 <= i < sockets@.len() ==> (#[trigger] fan_out_spec(
                sockets.ids(),
                version,
                changes,
                origin,
            )[i]).sink == sockets@[i].0,
        forall|i: int, j: int|
            0 <= i < sockets@.len() && 0 <= j < sockets@.len() && i != j ==> (#[trigger] fan_out_spec(
                sockets.ids(),
                version,
                changes,
                origin,
            )[i]).sink != (#[trigger] fan_out_spec(sockets.ids(), version, changes, origin)[j]).sink,
{
    let plan = fan_out_spec(sockets.ids(), version, changes, origin);
    assert forall|i: int, j: int|
        0 <= i < sockets@.len() && 0 <= j < sockets@.len() && i != j implies (#[trigger] plan[i]).sink
        != (#[trigger] plan[j]).sink by {
        if plan[i].sink == plan[j].sink {
            crate::sockets::lemma_ids_distinct(sockets, i, j);
        }
    }
}

/// The originator's frame carries no changes; every other frame carries the
/// full list.
pub proof fn lemma_fan_out_elides<S>(
    sockets: NodeSockets<S>,
    version: nat,
    changes: Seq<ChangeView>,
    origin: usize,
)
    ensures
        forall|i: int|
            0 <= i < sockets@.len() ==> {
                let d = #[trigger] fan_out_spec(sockets.ids(), version, changes, origin)[i];
                &&& d.frame.version == version
                &&& d.sink == origin ==> d.frame.changes is None
                &&& d.sink != origin ==> d.frame.changes == Some(changes)
            },
{
}

} // verus!
