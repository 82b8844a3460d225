//! The update journal of one document: an append-only log of updates, each a
//! batch of changes committed at one version. Versions count up from 1
//! without gaps, so the update at version `v` is the `v`-th record.

use vstd::prelude::*;
use crate::change::{changes_view, Change, ChangeView};

verus! {

/// Why an update was not appended.
#[derive(Clone, Copy, Debug, PartialEq, Eq)]
pub enum JournalError {
    /// The version is not the one that follows the journal's last.
    VersionOutOfOrder,
}

/// One journal record: the changes that a document took at one version, in
/// their order.
#[derive(Debug, PartialEq, Eq)]
pub struct Record {
    /// The internal id of the document.
    pub node: usize,
    pub version: usize,
    pub changes: Vec<Change>,
}

/// The journal of one document.
pub struct Journal {
    updates: Vec<Vec<Change>>,
}

/// All changes of a run of updates, in (version, ordering) order.
pub open spec fn concat(updates: Seq<Seq<ChangeView>>) -> Seq<ChangeView>
    decreases updates.len(),
{
    if updates.len() == 0 {
        Seq::empty()
    } else {
        concat(updates.drop_last()) + updates.last()
    }
}

/// The number of updates whose version is below `from`: they are the ones
/// that a reader at `from` has seen.
pub open spec fn seen(updates: Seq<Seq<ChangeView>>, from: nat) -> int {
    if from == 0 {
        0
    } else if from - 1 <= updates.len() {
        from - 1
    } else {
        updates.len() as int
    }
}

/// The changes of all updates at versions `from` and above, in
/// (version, ordering) order.
pub open spec fn changes_from(updates: Seq<Seq<ChangeView>>, from: nat) -> Seq<ChangeView> {
    concat(updates.skip(seen(updates, from)))
}

impl View for Journal {
    type V = Seq<Seq<ChangeView>>;

    closed spec fn view(&self) -> Seq<Seq<ChangeView>> {
        Seq::new(self.updates.len() as nat, |i: int| changes_view(self.updates[i]@))
    }
}

impl Journal {
    /// The journal of a document without updates.
    pub fn new() -> (journal: Journal)
        ensures
            journal@ == Seq::<Seq<ChangeView>>::empty(),
    {
        let journal = Journal { updates: Vec::new() };
        assert(journal@ =~= Seq::<Seq<ChangeView>>::empty());
        journal
    }

    /// The highest version in the journal; 0 while it has no update.
    pub fn load_version(&self) -> (version: usize)
        ensures
            version == self@.len(),
    {
        self.updates.len()
    }

    /// Appends an update at the next version and returns that version.
    pub fn append(&mut self, changes: Vec<Change>) -> (version: usize)
        ensures
            final(self)@ == old(self)@.push(changes_view(changes@)),
            version == old(self)@.len() + 1,
    {
        self.updates.push(changes);
        assert(self@ =~= old(self)@.push(changes_view(changes@)));
        self.updates.len()
    }

    /// Appends the update at `version`, which must be the one after the
    /// journal's last: versions are neither skipped nor written twice.
    pub fn append_update(&mut self, version: usize, changes: Vec<Change>) -> (r: Result<
        (),
        JournalError,
    >)
        ensures
            version == old(self)@.len() + 1 ==> r is Ok && final(self)@ == old(self)@.push(
                changes_view(changes@),
            ),
            version != old(self)@.len() + 1 ==> r == Err::<(), JournalError>(
                JournalError::VersionOutOfOrder,
            ) && final(self)@ == old(self)@,
    {
        if version >= 1 && version - 1 == self.updates.len() {
            self.append(changes);
            Ok(())
        } else {
            Err(JournalError::VersionOutOfOrder)
        }
    }

    /// Reads the changes of all updates at versions `from_version` and above,
    /// in (version, ordering) order; with 0 or 1, the whole history.
    pub fn load_changes(&self, from_version: usize) -> (changes: Vec<Change>)
        ensures
            changes_view(changes@) == changes_from(self@, from_version as nat),
    {
        let n = self.updates.len();
        let start: usize = if from_version == 0 {
            0
        } else if from_version - 1 <= n {
            from_version - 1
        } else {
            n
        };
        let ghost tail = self@.skip(start as int);
        let mut changes: Vec<Change> = Vec::new();
        let mut i: usize = start;
        assert(tail.take(0) == Seq::<Seq<ChangeView>>::empty());
        assert(changes_view(changes@) =~= concat(tail.take(0)));
        while i < n
            invariant
                start <= i <= n,
                n == self.updates.len(),
                tail == self@.skip(start as int),
                changes_view(changes@) == concat(tail.take(i - start)),
            decreases n - i,
        {
            let update = &self.updates[i];
            let ghost done = changes_view(changes@);
            let mut j: usize = 0;
            while j < update.len()
                invariant
                    j <= update.len(),
                    changes_view(changes@) == done + changes_view(update@).take(j as int),
                decreases update.len() - j,
            {
                let ghost prev = changes@;
                let change = update[j].clone();
                changes.push(change);
                assert(changes_view(changes@) =~= changes_view(prev).push(change@));
                assert(changes_view(update@).take(j + 1) =~= changes_view(update@).take(
                    j as int,
                ).push(update[j as int]@));
                j = j + 1;
            }
            proof {
                let next = tail.take(i + 1 - start);
                assert(next.drop_last() == tail.take(i - start));
                assert(next.last() == changes_view(update@));
                assert(changes_view(update@).take(update.len() as int) == changes_view(update@));
            }
            i = i + 1;
        }
        assert(tail.take(n - start) == tail);
        changes
    }
}

/// The number of changes in a run of updates.
pub open spec fn total(updates: Seq<Seq<ChangeView>>) -> nat
    decreases updates.len(),
{
    if updates.len() == 0 {
        0
    } else {
        total(updates.drop_last()) + updates.last().len()
    }
}

/// Where the changes of each update stand in the concatenation of a run:
/// the change at ordering `o` of the `i`-th update stands behind all changes
/// of the updates in front of it, at its ordering; and the concatenation
/// holds as many changes as the updates do together.
pub proof fn lemma_concat_index(updates: Seq<Seq<ChangeView>>, i: int, o: int)
    requires
        0 <= i < updates.len(),
        0 <= o < updates[i].len(),
    ensures
        concat(updates).len() == total(updates),
        total(updates.take(i)) + o < total(updates),
        concat(updates)[total(updates.take(i)) + o] == updates[i][o],
    decreases updates.len(),
{
    let front = updates.drop_last();
    lemma_concat_len(updates);
    lemma_concat_len(front);
    if i == updates.len() - 1 {
        assert(updates.take(i) == front);
    } else {
        lemma_concat_index(front, i, o);
        assert(front.take(i) == updates.take(i));
    }
}

/// The concatenation of a run holds as many changes as its updates do
/// together.
pub proof fn lemma_concat_len(updates: Seq<Seq<ChangeView>>)
    ensures
        concat(updates).len() == total(updates),
    decreases updates.len(),
{
    if updates.len() > 0 {
        lemma_concat_len(updates.drop_last());
    }
}

/// Catch-up is exact. Reading a journal from the version `from` gives the
/// changes of the updates at versions `from` and above and no others: as
/// many changes as those updates hold together, and the change at ordering
/// `o` of the update at version `v` behind all changes of the versions from
/// `from` up to `v`, at its ordering.
pub proof fn lemma_catch_up(updates: Seq<Seq<ChangeView>>, from: nat, v: int, o: int)
    requires
        1 <= v <= updates.len(),
        from <= v,
        0 <= o < updates[v - 1].len(),
    ensures
        changes_from(updates, from).len() == total(updates.skip(seen(updates, from))),
        total(updates.subrange(seen(updates, from), v - 1)) + o < changes_from(updates, from).len(),
        changes_from(updates, from)[total(updates.subrange(seen(updates, from), v - 1)) + o]
            == updates[v - 1][o],
{
    let s = seen(updates, from);
    let tail = updates.skip(s);
    lemma_concat_index(tail, v - 1 - s, o);
    assert(tail.take(v - 1 - s) == updates.subrange(s, v - 1));
}

} // verus!
