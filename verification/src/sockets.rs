//! The connection registry of one document: the attached sinks, each under a
//! local id that is never given out twice.

use vstd::prelude::*;

verus! {

/// The sinks attached to one document, in the order of their attachment.
pub struct NodeSockets<S> {
    next_id: usize,
    active: Vec<(usize, S)>,
}

/// The ids of a list of attached sinks.
pub open spec fn ids_of<S>(active: Seq<(usize, S)>) -> Seq<usize> {
    Seq::new(active.len(), |i: int| active[i].0)
}

/// Whether position `i` of the list holds the sink with the id `id`.
pub open spec fn holds_id<S>(active: Seq<(usize, S)>, id: usize, i: int) -> bool {
    0 <= i < active.len() && active[i].0 == id
}

/// Whether some sink of the list has the id `id`.
pub open spec fn attached<S>(active: Seq<(usize, S)>, id: usize) -> bool {
    exists|i: int| holds_id(active, id, i)
}

/// Ids grow along the list and stay below `next_id`, the next id to be given
/// out: no id is attached twice and none is ever used again.
pub open spec fn ordered<S>(active: Seq<(usize, S)>, next_id: usize) -> bool {
    &&& forall|i: int, j: int|
        0 <= i < j < active.len() ==> (#[trigger] active[i]).0 < (#[trigger] active[j]).0
    &&& forall|i: int| 0 <= i < active.len() ==> (#[trigger] active[i]).0 < next_id
}

/// The list without the sinks whose ids are among `ids`, the others in
/// their order.
pub open spec fn without_ids<S>(active: Seq<(usize, S)>, ids: Seq<usize>) -> Seq<(usize, S)>
    decreases active.len(),
{
    if active.len() == 0 {
        active
    } else if ids.contains(active.last().0) {
        without_ids(active.drop_last(), ids)
    } else {
        without_ids(active.drop_last(), ids).push(active.last())
    }
}

/// The sinks of the list whose ids are among `ids`, in their order.
pub open spec fn only_ids<S>(active: Seq<(usize, S)>, ids: Seq<usize>) -> Seq<(usize, S)>
    decreases active.len(),
{
    if active.len() == 0 {
        active
    } else if ids.contains(active.last().0) {
        only_ids(active.drop_last(), ids).push(active.last())
    } else {
        only_ids(active.drop_last(), ids)
    }
}

/// Whether `id` is in the list.
fn contains(ids: &Vec<usize>, id: usize) -> (r: bool)
    ensures
        r == ids@.contains(id),
{
    let mut i: usize = 0;
    while i < ids.len()
        invariant
            i <= ids.len(),
            forall|j: int| 0 <= j < i ==> ids[j] != id,
        decreases ids.len() - i,
    {
        if ids[i] == id {
            return true;
        }
        i = i + 1;
    }
    false
}

impl<S> NodeSockets<S> {
    /// The attached sinks with their ids, oldest first.
    pub closed spec fn view(&self) -> Seq<(usize, S)> {
        self.active@
    }

    /// The id that the next sink will get.
    pub closed spec fn next_id(&self) -> usize {
        self.next_id
    }

    /// The ids of the attached sinks, oldest first.
    pub open spec fn ids(&self) -> Seq<usize> {
        ids_of(self@)
    }

    /// The registry is in order.
    pub open spec fn wf(&self) -> bool {
        ordered(self@, self.next_id())
    }

    /// A registry without sinks, whose first id will be 0.
    pub fn new() -> (sockets: NodeSockets<S>)
        ensures
            sockets.wf(),
            sockets@.len() == 0,
            sockets.next_id() == 0,
    {
        NodeSockets { next_id: 0, active: Vec::new() }
    }

    /// The number of attached sinks.
    pub fn len(&self) -> (n: usize)
        ensures
            n == self@.len(),
    {
        self.active.len()
    }

    /// Whether another sink can be attached: ids are not used up.
    pub fn has_free_id(&self) -> (free: bool)
        ensures
            free == (self.next_id() < usize::MAX),
    {
        self.next_id < usize::MAX
    }

    /// Attaches a sink and returns its id.
    pub fn add(&mut self, sink: S) -> (id: usize)
        requires
            old(self).wf(),
            old(self).next_id() < usize::MAX,
        ensures
            final(self).wf(),
            id == old(self).next_id(),
            final(self).next_id() == id + 1,
            final(self)@ == old(self)@.push((id, sink)),
    {
        let id = self.next_id;
        self.next_id = id + 1;
        self.active.push((id, sink));
        proof {
            assert forall|i: int| 0 <= i < old(self)@.len() implies (#[trigger] self@[i]).0 < id by {
                assert(self@[i] == old(self)@[i]);
            }
        }
        id
    }

    /// The position of the sink with the given id.
    fn position(&self, id: usize) -> (r: Option<usize>)
        ensures
            match r {
                Some(i) => holds_id(self@, id, i as int),
                None => !attached(self@, id),
            },
    {
        let mut i: usize = 0;
        while i < self.active.len()
            invariant
                i <= self.active.len(),
                forall|j: int| 0 <= j < i ==> !holds_id(self@, id, j),
            decreases self.active.len() - i,
        {
            if self.active[i].0 == id {
                return Some(i);
            }
            i = i + 1;
        }
        None
    }

    /// Detaches the sink with the given id and hands it back; a missing id
    /// changes nothing.
    pub fn remove(&mut self, id: usize) -> (r: Option<S>)
        requires
            old(self).wf(),
        ensures
            final(self).wf(),
            final(self).next_id() == old(self).next_id(),
            !attached(final(self)@, id),
            r is Some <==> attached(old(self)@, id),
            r is None ==> final(self)@ == old(self)@,
            forall|i: int| #[trigger]
                holds_id(old(self)@, id, i) ==> r == Some(old(self)@[i].1) && final(self)@ == old(
                    self,
                )@.remove(i),
    {
        match self.position(id) {
            Some(i) => {
                let pair = self.active.remove(i);
                assert forall|j: int| !holds_id(self@, id, j) by {
                    if holds_id(self@, id, j) {
                        if j < i {
                            assert(old(self)@[j].0 < old(self)@[i as int].0);
                        } else {
                            assert(self@[j] == old(self)@[j + 1]);
                            assert(old(self)@[i as int].0 < old(self)@[j + 1].0);
                        }
                    }
                }
                assert(holds_id(old(self)@, id, i as int));
                Some(pair.1)
            },
            None => None,
        }
    }

    /// Detaches the sinks whose ids are among `ids` and hands them back with
    /// their ids, oldest first; an id that is not attached counts for
    /// nothing.
    pub fn remove_all(&mut self, ids: &Vec<usize>) -> (gone: Vec<(usize, S)>)
        requires
            old(self).wf(),
        ensures
            final(self).wf(),
            final(self).next_id() == old(self).next_id(),
            final(self)@ == without_ids(old(self)@, ids@),
            gone@ == only_ids(old(self)@, ids@),
    {
        let ghost before = self.active@;
        let ghost mut k: int = 0;
        let mut gone: Vec<(usize, S)> = Vec::new();
        let mut i: usize = 0;
        assert(before.take(0) == Seq::<(usize, S)>::empty());
        assert(before.skip(0) == before);
        while i < self.active.len()
            invariant
                0 <= k <= before.len(),
                self.next_id == old(self).next_id,
                ordered(self.active@, self.next_id),
                i == without_ids(before.take(k), ids@).len(),
                self.active@ == without_ids(before.take(k), ids@) + before.skip(k),
                gone@ == only_ids(before.take(k), ids@),
            decreases before.len() - k,
        {
            proof {
                assert(self.active@[i as int] == before.skip(k)[0]);
                assert(before.take(k + 1).drop_last() == before.take(k));
                assert(before.take(k + 1).last() == before[k]);
                assert(before.skip(k).skip(1) == before.skip(k + 1));
            }
            if contains(ids, self.active[i].0) {
                let pair = self.active.remove(i);
                gone.push(pair);
                assert(self.active@ == without_ids(before.take(k + 1), ids@) + before.skip(k + 1));
            } else {
                i = i + 1;
                assert(self.active@ == without_ids(before.take(k + 1), ids@) + before.skip(k + 1));
            }
            proof {
                k = k + 1;
            }
        }
        proof {
            assert(before.skip(k).len() == 0);
            assert(before.take(k) == before);
            assert(self.active@ == without_ids(before, ids@));
        }
        gone
    }

    /// Detaches every sink and hands them back with their ids, oldest first.
    pub fn take_all(&mut self) -> (gone: Vec<(usize, S)>)
        requires
            old(self).wf(),
        ensures
            final(self).wf(),
            final(self).next_id() == old(self).next_id(),
            final(self)@.len() == 0,
            gone@ == old(self)@,
    {
        let mut gone: Vec<(usize, S)> = Vec::new();
        core::mem::swap(&mut self.active, &mut gone);
        gone
    }

    /// The sink with the given id.
    pub fn get(&self, id: usize) -> (r: Option<&S>)
        ensures
            match r {
                Some(sink) => exists|i: int| holds_id(self@, id, i) && *sink == self@[i].1,
                None => !attached(self@, id),
            },
    {
        match self.position(id) {
            Some(i) => {
                assert(holds_id(self@, id, i as int));
                Some(&self.active[i].1)
            },
            None => None,
        }
    }

    /// The ids of all attached sinks, oldest first.
    pub fn iter(&self) -> (ids: Vec<usize>)
        ensures
            ids@ == self.ids(),
    {
        let mut ids: Vec<usize> = Vec::new();
        let mut i: usize = 0;
        while i < self.active.len()
            invariant
                i <= self.active.len(),
                ids@ == self.ids().take(i as int),
            decreases self.active.len() - i,
        {
            ids.push(self.active[i].0);
            assert(ids@ =~= self.ids().take(i + 1));
            i = i + 1;
        }
        assert(self.ids().take(self.active.len() as int) == self.ids());
        ids
    }

    /// The ids of all attached sinks but `id`, oldest first.
    pub fn iter_except(&self, id: usize) -> (ids: Vec<usize>)
        ensures
            ids@ == self.ids().filter(|other: usize| other != id),
    {
        let ghost keep = |other: usize| other != id;
        let mut ids: Vec<usize> = Vec::new();
        let mut i: usize = 0;
        assert(self.ids().take(0).filter(keep) =~= Seq::<usize>::empty()) by {
            reveal(Seq::filter);
        }
        while i < self.active.len()
            invariant
                i <= self.active.len(),
                keep == |other: usize| other != id,
                ids@ == self.ids().take(i as int).filter(keep),
            decreases self.active.len() - i,
        {
            proof {
                let next = self.ids().take(i + 1);
                assert(next.drop_last() == self.ids().take(i as int));
                assert(next.last() == self.active[i as int].0);
                reveal(Seq::filter);
            }
            if self.active[i].0 != id {
                ids.push(self.active[i].0);
            }
            i = i + 1;
        }
        assert(self.ids().take(self.active.len() as int) == self.ids());
        ids
    }
}

/// In a well-formed registry no id is attached twice.
pub proof fn lemma_ids_distinct<S>(sockets: NodeSockets<S>, i: int, j: int)
    requires
        sockets.wf(),
        0 <= i < sockets@.len(),
        0 <= j < sockets@.len(),
        sockets.ids()[i] == sockets.ids()[j],
    ensures
        i == j,
{
    if i < j {
        assert(sockets@[i].0 < sockets@[j].0);
    } else if j < i {
        assert(sockets@[j].0 < sockets@[i].0);
    }
}

/// Detaching a list of ids makes a registry no longer.
pub proof fn lemma_without_ids_len<S>(active: Seq<(usize, S)>, ids: Seq<usize>)
    ensures
        without_ids(active, ids).len() <= active.len(),
    decreases active.len(),
{
    if active.len() > 0 {
        lemma_without_ids_len(active.drop_last(), ids);
    }
}

/// What detaching a list of ids leaves and what it takes: a sink stays
/// attached exactly if it was attached and its id is not in the list, and it
/// is taken exactly if it was attached and its id is in the list.
pub proof fn lemma_without_ids<S>(active: Seq<(usize, S)>, ids: Seq<usize>, id: usize)
    ensures
        attached(without_ids(active, ids), id) <==> attached(active, id) && !ids.contains(id),
        attached(only_ids(active, ids), id) <==> attached(active, id) && ids.contains(id),
        without_ids(active, ids).len() + only_ids(active, ids).len() == active.len(),
    decreases active.len(),
{
    if active.len() > 0 {
        let front = active.drop_last();
        let last = active.last();
        lemma_without_ids(front, ids, id);
        let kept = without_ids(active, ids);
        let taken = only_ids(active, ids);
        if attached(active, id) {
            let i = choose|i: int| holds_id(active, id, i);
            if i < front.len() {
                assert(holds_id(front, id, i));
            }
        }
        if attached(front, id) {
            let i = choose|i: int| holds_id(front, id, i);
            assert(holds_id(active, id, i));
        }
        if last.0 == id {
            assert(holds_id(active, id, active.len() - 1));
        }
        if attached(kept, id) {
            let i = choose|i: int| holds_id(kept, id, i);
            if i < without_ids(front, ids).len() {
                assert(holds_id(without_ids(front, ids), id, i));
            }
        }
        if attached(without_ids(front, ids), id) {
            let i = choose|i: int| holds_id(without_ids(front, ids), id, i);
            assert(holds_id(kept, id, i));
        }
        if attached(taken, id) {
            let i = choose|i: int| holds_id(taken, id, i);
            if i < only_ids(front, ids).len() {
                assert(holds_id(only_ids(front, ids), id, i));
            }
        }
        if attached(only_ids(front, ids), id) {
            let i = choose|i: int| holds_id(only_ids(front, ids), id, i);
            assert(holds_id(taken, id, i));
        }
        if last.0 == id && !ids.contains(id) {
            assert(holds_id(kept, id, kept.len() - 1));
        }
        if last.0 == id && ids.contains(id) {
            assert(holds_id(taken, id, taken.len() - 1));
        }
    } else {
        if attached(active, id) {
            let i = choose|i: int| holds_id(active, id, i);
        }
    }
}

} // verus!
