use docserver::change::{apply, apply_all, clone_changes, resolve, ApplyError, Change};
use docserver::value::{position, remove_member, set_member, Number, Value};

fn num(n: u64) -> Value {
    Value::Number(Number::PosInt(n))
}

fn text(s: &str) -> Value {
    Value::Text(s.to_string())
}

fn object(members: Vec<(&str, Value)>) -> Value {
    Value::Object(members.into_iter().map(|(k, v)| (k.to_string(), v)).collect())
}

fn set(target: &str, value: Value) -> Change {
    Change::new(target.to_string(), Some(value))
}

fn delete(target: &str) -> Change {
    Change::new(target.to_string(), None)
}

fn keys(segments: &[&str]) -> Vec<String> {
    segments.iter().map(|s| s.to_string()).collect()
}

#[test]
fn change_new_keeps_its_parts() {
    let change = Change::new("/a".to_string(), Some(num(1)));
    assert_eq!(change.target, "/a");
    assert_eq!(change.value, Some(num(1)));
    let change = Change::new("/a".to_string(), None);
    assert_eq!(change.value, None);
}

#[test]
fn set_inserts_into_a_mapping() {
    let mut tree = object(vec![]);
    assert_eq!(apply(&mut tree, set("/hello", text("world"))), Ok(()));
    assert_eq!(tree, object(vec![("hello", text("world"))]));
}

#[test]
fn set_replaces_an_entry_of_a_mapping() {
    let mut tree = object(vec![("a", num(1)), ("b", num(2))]);
    assert_eq!(apply(&mut tree, set("/a", num(3))), Ok(()));
    assert_eq!(tree, object(vec![("a", num(3)), ("b", num(2))]));
}

#[test]
fn set_null_is_not_a_deletion() {
    let mut tree = object(vec![("a", num(1))]);
    assert_eq!(apply(&mut tree, set("/a", Value::Null)), Ok(()));
    assert_eq!(tree, object(vec![("a", Value::Null)]));
}

#[test]
fn delete_removes_an_entry_of_a_mapping() {
    let mut tree = object(vec![("a", num(1)), ("b", num(2))]);
    assert_eq!(apply(&mut tree, delete("/a")), Ok(()));
    assert_eq!(tree, object(vec![("b", num(2))]));
}

#[test]
fn delete_of_a_missing_entry_changes_nothing() {
    let mut tree = object(vec![("a", num(1))]);
    assert_eq!(apply(&mut tree, delete("/zzz")), Ok(()));
    assert_eq!(tree, object(vec![("a", num(1))]));
}

#[test]
fn escaped_target_reaches_keys_with_slash_and_tilde() {
    let mut tree = object(vec![]);
    assert_eq!(apply(&mut tree, set("/a~1b", object(vec![]))), Ok(()));
    assert_eq!(apply(&mut tree, set("/a~1b/c~0d", num(1))), Ok(()));
    assert_eq!(tree, object(vec![("a/b", object(vec![("c~d", num(1))]))]));
}

#[test]
fn a_trailing_slash_addresses_the_empty_key() {
    let mut tree = object(vec![("a", object(vec![("", num(1)), ("b", num(2))]))]);
    assert_eq!(apply(&mut tree, delete("/a/")), Ok(()));
    assert_eq!(tree, object(vec![("a", object(vec![("b", num(2))]))]));
    assert_eq!(apply(&mut tree, set("/a/", num(3))), Ok(()));
    assert_eq!(tree, object(vec![("a", object(vec![("b", num(2)), ("", num(3))]))]));
    assert_eq!(apply(&mut tree, set("//", num(4))), Err(ApplyError::PathMissing));
    assert_eq!(resolve(&tree, &keys(&["a", ""])), Some(&num(3)));
}

#[test]
fn apply_all_keeps_the_changes_in_front_of_the_failing_one() {
    let mut tree = object(vec![]);
    let changes = vec![set("/a", num(1)), set("/b", num(2)), set("/c/d", num(3)), set("/e", num(4))];
    assert_eq!(apply_all(&mut tree, &changes), Err(ApplyError::PathMissing));
    assert_eq!(tree, object(vec![("a", num(1)), ("b", num(2))]));
}

#[test]
fn delete_shifts_the_rest_of_a_sequence_down() {
    let mut tree = object(vec![]);
    assert_eq!(apply(&mut tree, set("/x", Value::Array(vec![num(1), num(2), num(3)]))), Ok(()));
    assert_eq!(apply(&mut tree, delete("/x/1")), Ok(()));
    assert_eq!(tree, object(vec![("x", Value::Array(vec![num(1), num(3)]))]));
}

#[test]
fn set_overwrites_an_element_of_a_sequence() {
    let mut tree = object(vec![("x", Value::Array(vec![num(1), num(2), num(3)]))]);
    assert_eq!(apply(&mut tree, set("/x/2", text("c"))), Ok(()));
    assert_eq!(tree, object(vec![("x", Value::Array(vec![num(1), num(2), text("c")]))]));
}

#[test]
fn changes_reach_through_sequences_and_mappings() {
    let mut tree = object(vec![("x", Value::Array(vec![object(vec![("k", num(1))])]))]);
    assert_eq!(apply(&mut tree, set("/x/0/k", num(2))), Ok(()));
    assert_eq!(apply(&mut tree, set("/x/0/l", Value::Bool(true))), Ok(()));
    assert_eq!(
        tree,
        object(vec![(
            "x",
            Value::Array(vec![object(vec![("k", num(2)), ("l", Value::Bool(true))])])
        )])
    );
}

#[test]
fn a_target_that_is_no_path_is_invalid() {
    let mut tree = object(vec![("a", num(1))]);
    assert_eq!(apply(&mut tree, set("a", num(2))), Err(ApplyError::PathInvalid));
    assert_eq!(tree, object(vec![("a", num(1))]));
}

#[test]
fn the_root_cannot_be_replaced_or_deleted() {
    let mut tree = object(vec![("a", num(1))]);
    assert_eq!(apply(&mut tree, set("", num(2))), Err(ApplyError::PathInvalid));
    assert_eq!(apply(&mut tree, delete("")), Err(ApplyError::PathInvalid));
    assert_eq!(apply(&mut tree, delete("/")), Err(ApplyError::PathInvalid));
    assert_eq!(tree, object(vec![("a", num(1))]));
}

#[test]
fn a_missing_parent_is_reported() {
    let mut tree = object(vec![("a", num(1)), ("x", Value::Array(vec![num(1)]))]);
    assert_eq!(apply(&mut tree, set("/b/c", num(2))), Err(ApplyError::PathMissing));
    // a scalar on the way down has no children
    assert_eq!(apply(&mut tree, set("/a/b/c", num(2))), Err(ApplyError::PathMissing));
    // neither has a sequence at a position it lacks, or at a key
    assert_eq!(apply(&mut tree, set("/x/5/c", num(2))), Err(ApplyError::PathMissing));
    assert_eq!(apply(&mut tree, set("/x/k/c", num(2))), Err(ApplyError::PathMissing));
    assert_eq!(tree, object(vec![("a", num(1)), ("x", Value::Array(vec![num(1)]))]));
}

#[test]
fn an_index_beyond_the_sequence_is_out_of_range() {
    let mut tree = object(vec![("x", Value::Array(vec![num(1)]))]);
    assert_eq!(apply(&mut tree, set("/x/1", num(2))), Err(ApplyError::IndexOutOfRange));
    assert_eq!(apply(&mut tree, delete("/x/1")), Err(ApplyError::IndexOutOfRange));
    assert_eq!(tree, object(vec![("x", Value::Array(vec![num(1)]))]));
}

#[test]
fn a_key_on_a_sequence_is_a_type_mismatch() {
    let mut tree = object(vec![("x", Value::Array(vec![num(1)]))]);
    assert_eq!(apply(&mut tree, set("/x/k", num(2))), Err(ApplyError::TypeMismatch));
    assert_eq!(apply(&mut tree, delete("/x/-1")), Err(ApplyError::TypeMismatch));
    assert_eq!(tree, object(vec![("x", Value::Array(vec![num(1)]))]));
}

#[test]
fn a_scalar_parent_is_a_type_mismatch() {
    let mut tree = object(vec![("a", num(1)), ("s", text("t")), ("n", Value::Null)]);
    assert_eq!(apply(&mut tree, set("/a/b", num(2))), Err(ApplyError::TypeMismatch));
    assert_eq!(apply(&mut tree, delete("/s/0")), Err(ApplyError::TypeMismatch));
    assert_eq!(apply(&mut tree, set("/n/x", num(2))), Err(ApplyError::TypeMismatch));
    let mut scalar = num(7);
    assert_eq!(apply(&mut scalar, set("/a", num(2))), Err(ApplyError::TypeMismatch));
    assert_eq!(scalar, num(7));
}

#[test]
fn set_then_delete_restores_a_mapping() {
    let before = object(vec![("a", num(1)), ("m", object(vec![("k", num(2))]))]);
    for target in ["/p", "/m/p", "/m/~0~1"] {
        let mut tree = before.clone();
        assert_eq!(apply(&mut tree, set(target, text("v"))), Ok(()));
        assert_ne!(tree, before);
        assert_eq!(apply(&mut tree, delete(target)), Ok(()));
        assert_eq!(tree, before);
    }
}

#[test]
fn set_then_delete_of_an_entry_that_was_there_removes_it() {
    let mut tree = object(vec![("a", num(1)), ("b", num(2))]);
    assert_eq!(apply(&mut tree, set("/a", num(5))), Ok(()));
    assert_eq!(apply(&mut tree, delete("/a")), Ok(()));
    assert_eq!(tree, object(vec![("b", num(2))]));
}

#[test]
fn resolve_walks_down_the_tree() {
    let tree = object(vec![("x", Value::Array(vec![num(1), object(vec![("k", text("v"))])]))]);
    assert_eq!(resolve(&tree, &keys(&[])), Some(&tree));
    assert_eq!(resolve(&tree, &keys(&["x", "0"])), Some(&num(1)));
    assert_eq!(resolve(&tree, &keys(&["x", "1", "k"])), Some(&text("v")));
    assert_eq!(resolve(&tree, &keys(&["y"])), None);
    assert_eq!(resolve(&tree, &keys(&["x", "2"])), None);
    assert_eq!(resolve(&tree, &keys(&["x", "k"])), None);
    assert_eq!(resolve(&tree, &keys(&["x", "0", "deeper"])), None);
}

#[test]
fn apply_all_applies_in_order() {
    let mut tree = object(vec![]);
    let changes = vec![set("/a", object(vec![])), set("/a/b", num(1)), delete("/a/b"), set("/c", num(2))];
    assert_eq!(apply_all(&mut tree, &changes), Ok(()));
    assert_eq!(tree, object(vec![("a", object(vec![])), ("c", num(2))]));
}

#[test]
fn apply_all_stops_at_the_first_failure() {
    let mut tree = object(vec![]);
    let changes = vec![set("/a", num(1)), set("/b/c", num(2)), set("bad", num(3))];
    assert_eq!(apply_all(&mut tree, &changes), Err(ApplyError::PathMissing));
}

#[test]
fn clones_equal_what_they_copy() {
    let tree = object(vec![
        ("n", Value::Number(Number::NegInt(-3))),
        ("f", Value::Number(Number::Float(0x3ff8000000000000))),
        ("l", Value::Array(vec![Value::Null, Value::Bool(false), text("t")])),
        ("o", object(vec![("k", num(1))])),
    ]);
    assert_eq!(tree.clone(), tree);
    let changes = vec![set("/a", tree.clone()), delete("/b")];
    assert_eq!(clone_changes(&changes), changes);
    assert_eq!(changes[0].clone(), changes[0]);
}

#[test]
fn member_lists_behave_as_mappings() {
    let mut members: Vec<(String, Value)> = Vec::new();
    set_member(&mut members, &"a".to_string(), num(1));
    set_member(&mut members, &"b".to_string(), num(2));
    set_member(&mut members, &"a".to_string(), num(3));
    assert_eq!(members, vec![("a".to_string(), num(3)), ("b".to_string(), num(2))]);
    assert_eq!(position(&members, &"b".to_string()), Some(1));
    assert_eq!(position(&members, &"c".to_string()), None);
    remove_member(&mut members, &"a".to_string());
    remove_member(&mut members, &"c".to_string());
    assert_eq!(members, vec![("b".to_string(), num(2))]);
}

#[test]
fn a_key_that_occurs_twice_counts_at_its_first_occurrence() {
    let mut members = vec![("a".to_string(), num(1)), ("a".to_string(), num(2))];
    assert_eq!(position(&members, &"a".to_string()), Some(0));
    set_member(&mut members, &"a".to_string(), num(3));
    assert_eq!(members, vec![("a".to_string(), num(3)), ("a".to_string(), num(2))]);
    remove_member(&mut members, &"a".to_string());
    assert_eq!(members, Vec::<(String, Value)>::new());
}
