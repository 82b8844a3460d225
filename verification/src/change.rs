//! Changes: pointer-addressed set-or-delete mutations of a document tree.

use vstd::prelude::*;
use crate::path::{index_in, index_of, is_pointer, parse, pointer_segments, texts, IndexError};
use crate::value::{
    lemma_member_at, lemma_tree_of, lemma_update_member, members_tree, position, remove_member,
    set_member, trees, Tree, Value,
};

verus! {

/// Why a change could not be applied.
#[derive(Clone, Copy, Debug, PartialEq, Eq)]
pub enum ApplyError {
    /// The target is not a path, or it names the root.
    PathInvalid,
    /// The parent of the target does not exist.
    PathMissing,
    /// The parent is a sequence that has no element at the target's index.
    IndexOutOfRange,
    /// The parent is a sequence and the last segment is no index, or the
    /// parent is a scalar.
    TypeMismatch,
}

/// One mutation: set the target to a value, or, without a value, delete it.
#[derive(Debug, PartialEq, Eq)]
pub struct Change {
    pub target: String,
    pub value: Option<Value>,
}

/// The mathematical model of a change.
pub ghost struct ChangeView {
    pub target: Seq<char>,
    pub value: Option<Tree>,
}

/// The tree of an optional value.
pub open spec fn option_tree(value: Option<Value>) -> Option<Tree> {
    match value {
        Some(v) => Some(v@),
        None => None,
    }
}

impl View for Change {
    type V = ChangeView;

    open spec fn view(&self) -> ChangeView {
        ChangeView { target: self.target@, value: option_tree(self.value) }
    }
}

impl Change {
    pub fn new(target: String, value: Option<Value>) -> (change: Change)
        ensures
            change.target == target,
            change.value == value,
    {
        Change { target, value }
    }
}

impl Clone for Change {
    /// A copy that stands for the same change.
    fn clone(&self) -> (c: Change)
        ensures
            c@ == self@,
    {
        let value = match &self.value {
            Some(v) => Some(v.clone()),
            None => None,
        };
        Change { target: self.target.clone(), value }
    }
}

/// The models of a list of changes.
pub open spec fn changes_view(changes: Seq<Change>) -> Seq<ChangeView> {
    Seq::new(changes.len(), |i: int| changes[i]@)
}

/// Copies a list of changes.
pub fn clone_changes(changes: &Vec<Change>) -> (copy: Vec<Change>)
    ensures
        changes_view(copy@) == changes_view(changes@),
{
    let mut copy: Vec<Change> = Vec::new();
    let mut i: usize = 0;
    while i < changes.len()
        invariant
            i <= changes.len(),
            copy.len() == i,
            forall|j: int| 0 <= j < i ==> (#[trigger] copy[j])@ == changes[j]@,
        decreases changes.len() - i,
    {
        copy.push(changes[i].clone());
        i = i + 1;
    }
    assert(changes_view(copy@) =~= changes_view(changes@));
    copy
}

/// The child of `t` that the segment `seg` names: the entry with that key in
/// a mapping, the element at that index in a sequence.
pub open spec fn child(t: Tree, seg: Seq<char>) -> Option<Tree> {
    match t {
        Tree::Object(m) => if m.dom().contains(seg) {
            Some(m[seg])
        } else {
            None
        },
        Tree::Array(l) => match index_of(seg) {
            Some(i) => if i < l.len() {
                Some(l[i as int])
            } else {
                None
            },
            None => None,
        },
        _ => None,
    }
}

/// The subtree of `t` at the end of `path`.
pub open spec fn descend(t: Tree, path: Seq<Seq<char>>) -> Option<Tree>
    decreases path.len(),
{
    if path.len() == 0 {
        Some(t)
    } else {
        match child(t, path[0]) {
            Some(c) => descend(c, path.skip(1)),
            None => None,
        }
    }
}

/// `t` with its child at `seg` replaced by `c`.
pub open spec fn with_child(t: Tree, seg: Seq<char>, c: Tree) -> Tree {
    match t {
        Tree::Object(m) => Tree::Object(m.insert(seg, c)),
        Tree::Array(l) => match index_of(seg) {
            Some(i) => Tree::Array(l.update(i as int, c)),
            None => t,
        },
        _ => t,
    }
}

/// The mutation at the parent: in a mapping, set or remove the entry `key`;
/// in a sequence, overwrite or remove the element at the index `key`.
pub open spec fn mutate(parent: Tree, key: Seq<char>, value: Option<Tree>) -> Result<
    Tree,
    ApplyError,
> {
    match parent {
        Tree::Object(m) => Ok(
            Tree::Object(
                match value {
                    Some(v) => m.insert(key, v),
                    None => m.remove(key),
                },
            ),
        ),
        Tree::Array(l) => match index_of(key) {
            Some(i) => if i < l.len() {
                Ok(
                    Tree::Array(
                        match value {
                            Some(v) => l.update(i as int, v),
                            None => l.remove(i as int),
                        },
                    ),
                )
            } else {
                Err(ApplyError::IndexOutOfRange)
            },
            None => Err(ApplyError::TypeMismatch),
        },
        _ => Err(ApplyError::TypeMismatch),
    }
}

/// The tree after the mutation at the end of `path`: walk down all segments
/// but the last, mutate there with the last segment as the key, and put each
/// changed child back on the way up.
pub open spec fn apply_at(t: Tree, path: Seq<Seq<char>>, value: Option<Tree>) -> Result<
    Tree,
    ApplyError,
>
    decreases path.len(),
{
    if path.len() == 0 {
        Err(ApplyError::PathInvalid)
    } else if path.len() == 1 {
        mutate(t, path[0], value)
    } else {
        match child(t, path[0]) {
            Some(c) => match apply_at(c, path.skip(1), value) {
                Ok(changed) => Ok(with_child(t, path[0], changed)),
                Err(e) => Err(e),
            },
            None => Err(ApplyError::PathMissing),
        }
    }
}

/// The tree that a change makes of `t`, or the reason why it makes none.
pub open spec fn applied(t: Tree, change: ChangeView) -> Result<Tree, ApplyError> {
    if is_pointer(change.target) {
        apply_at(t, pointer_segments(change.target), change.value)
    } else {
        Err(ApplyError::PathInvalid)
    }
}

/// Follows `path` down from `node`; `None` where a segment names no child.
pub fn resolve<'a>(node: &'a Value, path: &[String]) -> (r: Option<&'a Value>)
    ensures
        match r {
            Some(found) => descend(node@, texts(path@)) == Some(found@),
            None => descend(node@, texts(path@)) is None,
        },
{
    let ghost segs = texts(path@);
    let mut cur: &Value = node;
    let mut i: usize = 0;
    assert(segs.skip(0) == segs);
    while i < path.len()
        invariant
            i <= path.len(),
            segs == texts(path@),
            descend(node@, segs) == descend(cur@, segs.skip(i as int)),
        decreases path.len() - i,
    {
        let ghost rest = segs.skip(i as int);
        assert(rest[0] == path[i as int]@);
        assert(rest.skip(1) == segs.skip(i + 1));
        proof {
            lemma_tree_of(*cur);
        }
        match cur {
            Value::Object(members) => {
                match position(members, &path[i]) {
                    Some(j) => {
                        proof {
                            lemma_member_at(members@, path[i as int]@, j as int);
                        }
                        cur = &members[j].1;
                    },
                    None => {
                        return None;
                    },
                }
            },
            Value::Array(items) => {
                match index_in(path[i].as_str(), items.len()) {
                    Ok(j) => {
                        cur = &items[j];
                    },
                    Err(_) => {
                        return None;
                    },
                }
            },
            _ => {
                return None;
            },
        }
        i = i + 1;
    }
    Some(cur)
}

/// Applies the mutation at `path[depth..]` below `node`.
fn apply_in(node: &mut Value, path: &Vec<String>, depth: usize, value: Option<Value>) -> (r:
    Result<(), ApplyError>)
    requires
        depth < path.len(),
    ensures
        match apply_at(old(node)@, texts(path@).skip(depth as int), option_tree(value)) {
            Ok(t) => r is Ok && final(node)@ == t,
            Err(e) => r == Err::<(), ApplyError>(e) && final(node)@ == old(node)@,
        },
    decreases path.len() - depth,
{
    let ghost rest = texts(path@).skip(depth as int);
    let ghost before = *node;
    assert(rest[0] == path[depth as int]@);
    assert(rest.len() == path.len() - depth);
    proof {
        lemma_tree_of(*node);
    }
    let key = &path[depth];
    if depth + 1 == path.len() {
        match node {
            Value::Object(members) => {
                match value {
                    Some(v) => {
                        set_member(members, key, v);
                    },
                    None => {
                        remove_member(members, key);
                    },
                }
                proof {
                    lemma_tree_of(*node);
                }
                Ok(())
            },
            Value::Array(items) => {
                match index_in(key.as_str(), items.len()) {
                    Ok(i) => {
                        let ghost old_items = items@;
                        match value {
                            Some(v) => {
                                items[i] = v;
                                assert(trees(items@) =~= trees(old_items).update(i as int, v@));
                            },
                            None => {
                                items.remove(i);
                                assert(trees(items@) =~= trees(old_items).remove(i as int));
                            },
                        }
                        proof {
                            lemma_tree_of(*node);
                        }
                        Ok(())
                    },
                    Err(IndexError::NotAnIndex) => Err(ApplyError::TypeMismatch),
                    Err(IndexError::OutOfRange) => Err(ApplyError::IndexOutOfRange),
                }
            },
            _ => Err(ApplyError::TypeMismatch),
        }
    } else {
        assert(rest.skip(1) == texts(path@).skip(depth + 1));
        match node {
            Value::Object(members) => {
                match position(members, key) {
                    Some(i) => {
                        let ghost old_members = members@;
                        proof {
                            lemma_member_at(old_members, key@, i as int);
                        }
                        let r = apply_in(&mut members[i].1, path, depth + 1, value);
                        proof {
                            lemma_update_member(old_members, members@, i as int);
                            lemma_tree_of(*node);
                            if r is Err {
                                assert(members_tree(members@) =~= members_tree(old_members));
                            }
                        }
                        r
                    },
                    None => Err(ApplyError::PathMissing),
                }
            },
            Value::Array(items) => {
                match index_in(key.as_str(), items.len()) {
                    Ok(i) => {
                        let ghost old_items = items@;
                        let r = apply_in(&mut items[i], path, depth + 1, value);
                        proof {
                            lemma_tree_of(*node);
                            assert(trees(items@) =~= trees(old_items).update(
                                i as int,
                                items@[i as int]@,
                            ));
                            if r is Err {
                                assert(trees(items@) =~= trees(old_items));
                            }
                        }
                        r
                    },
                    Err(_) => Err(ApplyError::PathMissing),
                }
            },
            _ => Err(ApplyError::PathMissing),
        }
    }
}

/// Applies one change to a tree. A change that cannot be applied leaves the
/// tree as it was.
pub fn apply(value: &mut Value, change: Change) -> (r: Result<(), ApplyError>)
    ensures
        match applied(old(value)@, change@) {
            Ok(t) => r is Ok && final(value)@ == t,
            Err(e) => r == Err::<(), ApplyError>(e) && final(value)@ == old(value)@,
        },
{
    let Change { target, value: new_value } = change;
    match parse(target.as_str()) {
        Ok(path) => {
            if path.len() == 0 {
                Err(ApplyError::PathInvalid)
            } else {
                assert(texts(path@).skip(0) == texts(path@));
                apply_in(value, &path, 0, new_value)
            }
        },
        Err(_) => Err(ApplyError::PathInvalid),
    }
}

/// The tree after a run of changes, applied in order; the first change that
/// cannot be applied gives its error to the whole run.
pub open spec fn replay(t: Tree, changes: Seq<ChangeView>) -> Result<Tree, ApplyError>
    decreases changes.len(),
{
    if changes.len() == 0 {
        Ok(t)
    } else {
        match replay(t, changes.drop_last()) {
            Ok(mid) => applied(mid, changes.last()),
            Err(e) => Err(e),
        }
    }
}

/// Replaying two runs one after the other is replaying their concatenation.
pub proof fn lemma_replay_concat(t: Tree, a: Seq<ChangeView>, b: Seq<ChangeView>)
    ensures
        replay(t, a + b) == (match replay(t, a) {
            Ok(mid) => replay(mid, b),
            Err(e) => Err(e),
        }),
    decreases b.len(),
{
    if b.len() == 0 {
        assert(a + b == a);
    } else {
        lemma_replay_concat(t, a, b.drop_last());
        assert((a + b).drop_last() == a + b.drop_last());
        assert((a + b).last() == b.last());
    }
}

/// Once a change of a run has failed, the rest of the run does not matter.
pub proof fn lemma_replay_failed(t: Tree, changes: Seq<ChangeView>, n: int)
    requires
        0 <= n <= changes.len(),
        replay(t, changes.take(n)) is Err,
    ensures
        replay(t, changes) == replay(t, changes.take(n)),
    decreases changes.len() - n,
{
    if n < changes.len() {
        assert(changes.take(n + 1).drop_last() == changes.take(n));
        lemma_replay_failed(t, changes, n + 1);
    } else {
        assert(changes.take(n) == changes);
    }
}

/// Applies a run of changes in order and stops at the first that cannot be
/// applied; the changes in front of that one stay applied, the others are
/// not tried.
pub fn apply_all(value: &mut Value, changes: &Vec<Change>) -> (r: Result<(), ApplyError>)
    ensures
        match replay(old(value)@, changes_view(changes@)) {
            Ok(t) => r is Ok && final(value)@ == t,
            Err(e) => r == Err::<(), ApplyError>(e) && exists|n: int|
                0 <= n < changes.len() && #[trigger] replay(
                    old(value)@,
                    changes_view(changes@).take(n),
                ) == Ok::<Tree, ApplyError>(final(value)@) && applied(
                    final(value)@,
                    changes_view(changes@)[n],
                ) == Err::<Tree, ApplyError>(e),
        },
{
    let ghost all = changes_view(changes@);
    let mut i: usize = 0;
    assert(all.take(0) == Seq::<ChangeView>::empty());
    while i < changes.len()
        invariant
            i <= changes.len(),
            all == changes_view(changes@),
            replay(old(value)@, all.take(i as int)) == Ok::<Tree, ApplyError>(value@),
        decreases changes.len() - i,
    {
        proof {
            assert(all.take(i + 1).drop_last() == all.take(i as int));
            assert(all.take(i + 1).last() == changes[i as int]@);
        }
        match apply(value, changes[i].clone()) {
            Ok(()) => {},
            Err(e) => {
                proof {
                    lemma_replay_failed(old(value)@, all, i + 1);
                }
                return Err(e);
            },
        }
        i = i + 1;
    }
    assert(all.take(changes.len() as int) == all);
    Ok(())
}

/// Whether the parent of the target at the end of `path` is a mapping.
pub open spec fn parent_is_mapping(t: Tree, path: Seq<Seq<char>>) -> bool {
    &&& path.len() > 0
    &&& descend(t, path.drop_last()) matches Some(parent)
    &&& parent is Object
}

/// Putting back the child that is there changes nothing, and of two children
/// put in the same place the second stays.
proof fn lemma_with_child(t: Tree, seg: Seq<char>, a: Tree, b: Tree)
    requires
        child(t, seg) is Some,
    ensures
        child(with_child(t, seg, a), seg) == Some(a),
        with_child(with_child(t, seg, a), seg, b) == with_child(t, seg, b),
        with_child(t, seg, child(t, seg)->Some_0) == t,
{
    match t {
        Tree::Object(m) => {
            assert(m.insert(seg, a).insert(seg, b) =~= m.insert(seg, b));
            assert(m.insert(seg, m[seg]) =~= m);
        },
        Tree::Array(l) => {
            let i = index_of(seg)->Some_0 as int;
            assert(l.update(i, a).update(i, b) =~= l.update(i, b));
            assert(l.update(i, l[i]) =~= l);
        },
        _ => {},
    }
}

/// A change works at the parent of its target. Where walking down all
/// segments but the last finds no parent, the change fails with
/// `PathMissing`; where it finds one, the change does what the mutation at
/// that parent does: it fails with the mutation's error, or it leaves the
/// mutated parent where the parent was.
pub proof fn lemma_apply_at_parent(t: Tree, path: Seq<Seq<char>>, value: Option<Tree>)
    requires
        path.len() > 0,
    ensures
        match descend(t, path.drop_last()) {
            Some(parent) => match mutate(parent, path.last(), value) {
                Ok(changed) => apply_at(t, path, value) matches Ok(after) && descend(
                    after,
                    path.drop_last(),
                ) == Some(changed),
                Err(e) => apply_at(t, path, value) == Err::<Tree, ApplyError>(e),
            },
            None => apply_at(t, path, value) == Err::<Tree, ApplyError>(ApplyError::PathMissing),
        },
    decreases path.len(),
{
    let k = path[0];
    let rest = path.skip(1);
    let front = path.drop_last();
    if path.len() == 1 {
        assert(front == Seq::<Seq<char>>::empty());
        match mutate(t, path.last(), value) {
            Ok(changed) => {
                assert(descend(changed, front) == Some(changed));
            },
            Err(_) => {},
        }
    } else {
        assert(front[0] == k);
        assert(front.skip(1) == rest.drop_last());
        assert(rest.last() == path.last());
        match child(t, k) {
            Some(c) => {
                lemma_apply_at_parent(c, rest, value);
                assert(descend(t, front) == descend(c, rest.drop_last()));
                if let Ok(after_c) = apply_at(c, rest, value) {
                    lemma_with_child(t, k, after_c, after_c);
                    let after = with_child(t, k, after_c);
                    assert(descend(after, front) == descend(after_c, rest.drop_last()));
                }
            },
            None => {},
        }
    }
}

/// Set, then delete, on a mapping: where the parent of the target is a
/// mapping, setting the target and then deleting it succeeds and leaves the
/// tree that deleting alone would have left; and where the target named
/// nothing before, it leaves the tree as it was before the two changes.
pub proof fn lemma_set_then_delete(t: Tree, path: Seq<Seq<char>>, v: Tree)
    requires
        parent_is_mapping(t, path),
    ensures
        apply_at(t, path, Some(v)) matches Ok(set) && apply_at(set, path, None) matches Ok(gone) && {
            &&& apply_at(t, path, None) == Ok::<Tree, ApplyError>(gone)
            &&& descend(gone, path) is None
            &&& descend(t, path) is None ==> gone == t
        },
        apply_at(t, path, Some(v)) matches Ok(set) && descend(set, path) == Some(v),
    decreases path.len(),
{
    let k = path[0];
    let rest = path.skip(1);
    if path.len() == 1 {
        assert(path.drop_last() == Seq::<Seq<char>>::empty());
        assert(rest == Seq::<Seq<char>>::empty());
        let m = t->Object_0;
        let set = Tree::Object(m.insert(k, v));
        let gone = Tree::Object(m.insert(k, v).remove(k));
        assert(apply_at(t, path, Some(v)) == Ok::<Tree, ApplyError>(set));
        assert(apply_at(set, path, None) == Ok::<Tree, ApplyError>(gone));
        assert(m.insert(k, v).remove(k) =~= m.remove(k));
        assert(child(gone, k) is None);
        assert(child(set, k) == Some(v));
        assert(descend(v, rest) == Some(v));
        if descend(t, path) is None {
            assert(child(t, k) is None) by {
                if child(t, k) is Some {
                    assert(descend(child(t, k)->Some_0, rest) is Some);
                }
            }
            assert(m.remove(k) =~= m);
        }
    } else {
        let front = path.drop_last();
        assert(front[0] == k);
        assert(front.skip(1) == rest.drop_last());
        assert(child(t, k) is Some);
        let c = child(t, k)->Some_0;
        assert(descend(t, front) == descend(c, rest.drop_last()));
        lemma_set_then_delete(c, rest, v);
        let set_c = apply_at(c, rest, Some(v))->Ok_0;
        let gone_c = apply_at(c, rest, None)->Ok_0;
        let set = with_child(t, k, set_c);
        let gone = with_child(t, k, gone_c);
        lemma_with_child(t, k, set_c, gone_c);
        lemma_with_child(t, k, gone_c, gone_c);
        assert(apply_at(t, path, Some(v)) == Ok::<Tree, ApplyError>(set));
        assert(child(set, k) == Some(set_c));
        assert(apply_at(set, path, None) == Ok::<Tree, ApplyError>(gone));
        assert(apply_at(t, path, None) == Ok::<Tree, ApplyError>(gone));
        assert(child(gone, k) == Some(gone_c));
        assert(descend(gone, path) == descend(gone_c, rest));
        assert(descend(set, path) == descend(set_c, rest));
        assert(descend(t, path) == descend(c, rest));
    }
}

/// Set, then delete, as two changes to one target: the law above, stated of
/// the target's text.
pub proof fn lemma_apply_delete_inverse(t: Tree, target: Seq<char>, v: Tree)
    requires
        is_pointer(target),
        parent_is_mapping(t, pointer_segments(target)),
    ensures
        applied(t, ChangeView { target, value: Some(v) }) matches Ok(set) && applied(
            set,
            ChangeView { target, value: None },
        ) matches Ok(gone) && {
            &&& applied(t, ChangeView { target, value: None }) == Ok::<Tree, ApplyError>(gone)
            &&& descend(gone, pointer_segments(target)) is None
            &&& descend(t, pointer_segments(target)) is None ==> gone == t
        },
{
    lemma_set_then_delete(t, pointer_segments(target), v);
}

} // verus!
