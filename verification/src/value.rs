//! The document tree: a JSON-shaped value and its mathematical model.

use vstd::prelude::*;

verus! {

/// A JSON number. A real number is held by the bits of its IEEE-754
/// double-precision encoding, so that every number is a plain integer.
#[derive(Clone, Copy, Debug, PartialEq, Eq)]
pub enum Number {
    /// A non-negative integer.
    PosInt(u64),
    /// A negative integer.
    NegInt(i64),
    /// The bit pattern of a finite double.
    Float(u64),
}

/// The mathematical model of a document tree.
pub ghost enum Tree {
    Null,
    Bool(bool),
    Number(Number),
    Text(Seq<char>),
    Array(Seq<Tree>),
    Object(Map<Seq<char>, Tree>),
}

/// A document tree as it is held in memory.
///
/// The members of an object are kept in the order in which they were
/// inserted; the order carries no meaning. Should a key occur more than once,
/// the object maps it to the value of its first occurrence.
#[derive(Debug, PartialEq, Eq)]
pub enum Value {
    Null,
    Bool(bool),
    Number(Number),
    Text(String),
    Array(Vec<Value>),
    Object(Vec<(String, Value)>),
}

/// Position `i` holds the first member whose key is `k`.
pub open spec fn first_key(members: Seq<(String, Value)>, k: Seq<char>, i: int) -> bool {
    &&& 0 <= i < members.len()
    &&& members[i].0@ == k
    &&& forall|j: int| 0 <= j < i ==> (#[trigger] members[j]).0@ != k
}

/// Whether some member of the list has the key `k`.
pub open spec fn has_key(members: Seq<(String, Value)>, k: Seq<char>) -> bool {
    exists|i: int| first_key(members, k, i)
}

/// The position of the first member with the key `k`, where there is one.
pub open spec fn key_index(members: Seq<(String, Value)>, k: Seq<char>) -> int {
    choose|i: int| first_key(members, k, i)
}

/// The tree that a value stands for.
pub open spec fn tree_of(v: Value) -> Tree
    decreases v,
{
    match v {
        Value::Null => Tree::Null,
        Value::Bool(b) => Tree::Bool(b),
        Value::Number(n) => Tree::Number(n),
        Value::Text(s) => Tree::Text(s@),
        Value::Array(items) => Tree::Array(
            Seq::new(
                items.len() as nat,
                |i: int| if 0 <= i < items.len() { tree_of(items[i]) } else { Tree::Null },
            ),
        ),
        Value::Object(members) => Tree::Object(
            Map::new(
                |k: Seq<char>| has_key(members@, k),
                |k: Seq<char>| {
                    let i = key_index(members@, k);
                    if 0 <= i < members.len() { tree_of(members[i].1) } else { Tree::Null }
                },
            ),
        ),
    }
}

impl View for Value {
    type V = Tree;

    open spec fn view(&self) -> Tree {
        tree_of(*self)
    }
}

/// The trees of a list of values.
pub open spec fn trees(items: Seq<Value>) -> Seq<Tree> {
    Seq::new(items.len(), |i: int| items[i]@)
}

/// The mapping that a member list stands for.
pub open spec fn members_tree(members: Seq<(String, Value)>) -> Map<Seq<char>, Tree> {
    Map::new(|k: Seq<char>| has_key(members, k), |k: Seq<char>| members[key_index(members, k)].1@)
}

/// A key has at most one first occurrence.
pub proof fn lemma_first_key_unique(members: Seq<(String, Value)>, k: Seq<char>, i: int, j: int)
    requires
        first_key(members, k, i),
        first_key(members, k, j),
    ensures
        i == j,
{
    if i < j {
        assert(members[i].0@ != k);
    } else if j < i {
        assert(members[j].0@ != k);
    }
}

/// The first occurrence of a key is where the mapping takes its value from.
pub proof fn lemma_member_at(members: Seq<(String, Value)>, k: Seq<char>, i: int)
    requires
        first_key(members, k, i),
    ensures
        has_key(members, k),
        key_index(members, k) == i,
        members_tree(members).dom().contains(k),
        members_tree(members)[k] == members[i].1@,
{
    lemma_first_key_unique(members, k, i, key_index(members, k));
}

/// A key that no member has is not in the mapping.
pub proof fn lemma_member_absent(members: Seq<(String, Value)>, k: Seq<char>)
    requires
        forall|j: int| 0 <= j < members.len() ==> (#[trigger] members[j]).0@ != k,
    ensures
        !has_key(members, k),
        !members_tree(members).dom().contains(k),
{
    if has_key(members, k) {
        let i = key_index(members, k);
        assert(members[i].0@ == k);
    }
}

/// An empty member list has no key.
pub proof fn lemma_member_absent_all(members: Seq<(String, Value)>)
    requires
        members.len() == 0,
    ensures
        forall|k: Seq<char>| !has_key(members, k),
{
    assert forall|k: Seq<char>| !has_key(members, k) by {
        lemma_member_absent(members, k);
    }
}

/// The tree of an array is the sequence of its items' trees; the tree of an
/// object is the mapping of its member list.
pub proof fn lemma_tree_of(v: Value)
    ensures
        v matches Value::Array(items) ==> v@ == Tree::Array(trees(items@)),
        v matches Value::Object(members) ==> v@ == Tree::Object(members_tree(members@)),
{
    match v {
        Value::Array(items) => {
            assert(v@->Array_0 =~= trees(items@));
        },
        Value::Object(members) => {
            assert(v@->Object_0 =~= members_tree(members@));
        },
        _ => {},
    }
}

/// Finds the first member with the given key.
pub fn position(members: &Vec<(String, Value)>, key: &String) -> (r: Option<usize>)
    ensures
        match r {
            Some(i) => first_key(members@, key@, i as int),
            None => !has_key(members@, key@),
        },
{
    let mut i: usize = 0;
    while i < members.len()
        invariant
            i <= members.len(),
            forall|j: int| 0 <= j < i ==> (#[trigger] members[j]).0@ != key@,
        decreases members.len() - i,
    {
        if members[i].0 == *key {
            return Some(i);
        }
        i = i + 1;
    }
    proof {
        lemma_member_absent(members@, key@);
    }
    None
}

/// Position `i` holds the first member with its key.
pub open spec fn first_key_at(members: Seq<(String, Value)>, i: int) -> bool {
    0 <= i < members.len() && first_key(members, members[i].0@, i)
}

/// Replacing the value of the first member with a key sets that key.
pub proof fn lemma_update_member(before: Seq<(String, Value)>, after: Seq<(String, Value)>, i: int)
    requires
        first_key_at(before, i),
        after.len() == before.len(),
        forall|j: int| 0 <= j < before.len() ==> (#[trigger] after[j]).0@ == before[j].0@,
        forall|j: int| 0 <= j < before.len() && j != i ==> (#[trigger] after[j]).1@ == before[j].1@,
    ensures
        first_key_at(after, i),
        members_tree(after) == members_tree(before).insert(before[i].0@, after[i].1@),
{
    let k = before[i].0@;
    assert forall|q: Seq<char>| has_key(before, q) implies has_key(after, q) && (q != k
        ==> members_tree(after)[q] == members_tree(before)[q]) by {
        let j = key_index(before, q);
        assert(first_key(after, q, j)) by {
            assert(after[j].0@ == before[j].0@);
            assert forall|h: int| 0 <= h < j implies (#[trigger] after[h]).0@ != q by {
                assert(after[h].0@ == before[h].0@);
            }
        }
        lemma_member_at(after, q, j);
        lemma_member_at(before, q, j);
    }
    assert forall|q: Seq<char>| has_key(after, q) implies has_key(before, q) by {
        let j = key_index(after, q);
        assert(first_key(before, q, j)) by {
            assert(after[j].0@ == before[j].0@);
            assert forall|h: int| 0 <= h < j implies (#[trigger] before[h]).0@ != q by {
                assert(after[h].0@ == before[h].0@);
            }
        }
    }
    assert(first_key(after, k, i)) by {
        assert(after[i].0@ == before[i].0@);
        assert forall|h: int| 0 <= h < i implies (#[trigger] after[h]).0@ != k by {
            assert(after[h].0@ == before[h].0@);
        }
    }
    lemma_member_at(after, k, i);
    lemma_member_at(before, k, i);
    assert(members_tree(after) =~= members_tree(before).insert(k, after[i].1@));
}

/// Appending a member with a new key sets that key.
pub proof fn lemma_push_member(before: Seq<(String, Value)>, member: (String, Value))
    requires
        !has_key(before, member.0@),
    ensures
        members_tree(before.push(member)) == members_tree(before).insert(member.0@, member.1@),
{
    let after = before.push(member);
    let k = member.0@;
    let n = before.len() as int;
    assert forall|j: int| 0 <= j < n implies (#[trigger] after[j]).0@ != k by {
        if before[j].0@ == k {
            lemma_has_key(before, k, j);
        }
    }
    assert(first_key(after, k, n));
    lemma_member_at(after, k, n);
    assert forall|q: Seq<char>| has_key(before, q) implies has_key(after, q) && members_tree(
        after,
    )[q] == members_tree(before)[q] by {
        let j = key_index(before, q);
        assert(first_key(after, q, j)) by {
            assert(after[j] == before[j]);
            assert forall|h: int| 0 <= h < j implies (#[trigger] after[h]).0@ != q by {
                assert(after[h] == before[h]);
            }
        }
        lemma_member_at(after, q, j);
        lemma_member_at(before, q, j);
    }
    assert forall|q: Seq<char>| has_key(after, q) && q != k implies has_key(before, q) by {
        let j = key_index(after, q);
        assert(j < n);
        assert(first_key(before, q, j)) by {
            assert(after[j] == before[j]);
            assert forall|h: int| 0 <= h < j implies (#[trigger] before[h]).0@ != q by {
                assert(after[h] == before[h]);
            }
        }
    }
    assert(members_tree(after) =~= members_tree(before).insert(k, member.1@));
}

/// A key that some member has, has a first occurrence.
pub proof fn lemma_has_key(members: Seq<(String, Value)>, k: Seq<char>, i: int)
    requires
        0 <= i < members.len(),
        members[i].0@ == k,
    ensures
        has_key(members, k),
    decreases i,
{
    if exists|j: int| 0 <= j < i && (#[trigger] members[j]).0@ == k {
        let j = choose|j: int| 0 <= j < i && (#[trigger] members[j]).0@ == k;
        lemma_has_key(members, k, j);
    } else {
        assert(first_key(members, k, i));
    }
}

/// Removing the first member with a key leaves every other key as it was.
pub proof fn lemma_remove_first(before: Seq<(String, Value)>, i: int)
    requires
        first_key_at(before, i),
    ensures
        members_tree(before.remove(i)).remove(before[i].0@) == members_tree(before).remove(
            before[i].0@,
        ),
{
    let after = before.remove(i);
    let k = before[i].0@;
    assert forall|q: Seq<char>| q != k && has_key(before, q) implies has_key(after, q)
        && members_tree(after)[q] == members_tree(before)[q] by {
        let j = key_index(before, q);
        let j2 = if j < i { j } else { j - 1 };
        assert(first_key(after, q, j2)) by {
            assert(after[j2] == before[j]);
            assert forall|h: int| 0 <= h < j2 implies (#[trigger] after[h]).0@ != q by {
                if h < i {
                    assert(after[h] == before[h]);
                } else {
                    assert(after[h] == before[h + 1]);
                }
            }
        }
        lemma_member_at(after, q, j2);
        lemma_member_at(before, q, j);
    }
    assert forall|q: Seq<char>| q != k && has_key(after, q) implies has_key(before, q) by {
        let j = key_index(after, q);
        let j0 = if j < i { j } else { j + 1 };
        assert(after[j] == before[j0]);
        lemma_has_key(before, q, j0);
    }
    assert(members_tree(after).remove(k) =~= members_tree(before).remove(k));
}

/// Sets the key of a member list to a value: the first member with that key
/// takes the value, or, if there is none, a new member is appended.
pub fn set_member(members: &mut Vec<(String, Value)>, key: &String, value: Value)
    ensures
        members_tree(final(members)@) == members_tree(old(members)@).insert(key@, value@),
{
    match position(members, key) {
        Some(i) => {
            let ghost before = members@;
            members[i].1 = value;
            proof {
                lemma_update_member(before, members@, i as int);
            }
        },
        None => {
            let ghost before = members@;
            let member = (key.clone(), value);
            members.push(member);
            proof {
                lemma_push_member(before, member);
            }
        },
    }
}

/// Removes a key from a member list, wherever it occurs.
pub fn remove_member(members: &mut Vec<(String, Value)>, key: &String)
    ensures
        members_tree(final(members)@) == members_tree(old(members)@).remove(key@),
{
    loop
        invariant
            members_tree(members@).remove(key@) == members_tree(old(members)@).remove(key@),
        ensures
            members_tree(members@) == members_tree(old(members)@).remove(key@),
        decreases members.len(),
    {
        match position(members, key) {
            Some(i) => {
                proof {
                    lemma_remove_first(members@, i as int);
                }
                members.remove(i);
            },
            None => {
                assert(members_tree(members@).remove(key@) =~= members_tree(members@));
                break ;
            },
        }
    }
}

impl Clone for Value {
    /// A copy that stands for the same tree.
    fn clone(&self) -> (c: Value)
        ensures
            c@ == self@,
        decreases self,
    {
        match self {
            Value::Null => Value::Null,
            Value::Bool(b) => Value::Bool(*b),
            Value::Number(n) => Value::Number(*n),
            Value::Text(s) => Value::Text(s.clone()),
            Value::Array(items) => {
                let mut copy: Vec<Value> = Vec::new();
                let mut i: usize = 0;
                while i < items.len()
                    invariant
                        *self == Value::Array(*items),
                        i <= items.len(),
                        copy.len() == i,
                        forall|j: int| 0 <= j < i ==> (#[trigger] copy[j])@ == items[j]@,
                    decreases items.len() - i,
                {
                    assert(self->Array_0 == *items);
                    copy.push(items[i].clone());
                    i = i + 1;
                }
                let c = Value::Array(copy);
                proof {
                    lemma_tree_of(c);
                    lemma_tree_of(*self);
                    assert(trees(copy@) =~= trees(items@));
                }
                c
            },
            Value::Object(members) => {
                let mut copy: Vec<(String, Value)> = Vec::new();
                let mut i: usize = 0;
                while i < members.len()
                    invariant
                        *self == Value::Object(*members),
                        i <= members.len(),
                        copy.len() == i,
                        forall|j: int|
                            0 <= j < i ==> (#[trigger] copy[j]).0@ == members[j].0@ && copy[j].1@
                                == members[j].1@,
                    decreases members.len() - i,
                {
                    assert(self->Object_0 == *members);
                    copy.push((members[i].0.clone(), members[i].1.clone()));
                    i = i + 1;
                }
                let c = Value::Object(copy);
                proof {
                    lemma_tree_of(c);
                    lemma_tree_of(*self);
                    lemma_same_members(copy@, members@);
                }
                c
            },
        }
    }
}

/// Two member lists with the same keys and the same trees, position by
/// position, stand for the same mapping.
pub proof fn lemma_same_members(a: Seq<(String, Value)>, b: Seq<(String, Value)>)
    requires
        a.len() == b.len(),
        forall|j: int| 0 <= j < a.len() ==> (#[trigger] a[j]).0@ == b[j].0@ && a[j].1@ == b[j].1@,
    ensures
        members_tree(a) == members_tree(b),
{
    assert forall|k: Seq<char>| has_key(a, k) implies has_key(b, k) && members_tree(a)[k]
        == members_tree(b)[k] by {
        let i = key_index(a, k);
        assert(first_key(b, k, i)) by {
            assert(b[i].0@ == a[i].0@);
            assert forall|j: int| 0 <= j < i implies (#[trigger] b[j]).0@ != k by {
                assert(a[j].0@ == b[j].0@);
            }
        }
        lemma_member_at(a, k, i);
        lemma_member_at(b, k, i);
    }
    assert forall|k: Seq<char>| has_key(b, k) implies has_key(a, k) by {
        let i = key_index(b, k);
        assert(first_key(a, k, i)) by {
            assert(b[i].0@ == a[i].0@);
            assert forall|j: int| 0 <= j < i implies (#[trigger] a[j]).0@ != k by {
                assert(a[j].0@ == b[j].0@);
            }
        }
    }
    assert(members_tree(a) =~= members_tree(b));
}

} // verus!
