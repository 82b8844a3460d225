use docserver::keys::{key_of, new_key};
use docserver::ok;
use docserver::routing::{
    join_route, known_document, require, route, Error, JoinQueryParameters, Route, BAD_REQUEST,
    INTERNAL_SERVER_ERROR,
    NOT_FOUND,
};

#[test]
fn ok_wraps_its_argument() {
    assert_eq!(ok(5), Ok(5));
    assert_eq!(ok("text"), Ok("text"));
}

#[test]
fn error_new_keeps_status_and_message() {
    let e = Error::new(NOT_FOUND, "unknown path");
    assert_eq!(e.status, 404);
    assert_eq!(e.message, "unknown path");
}

#[test]
fn status_codes() {
    assert_eq!(BAD_REQUEST, 400);
    assert_eq!(NOT_FOUND, 404);
    assert_eq!(INTERNAL_SERVER_ERROR, 500);
}

#[test]
fn require_hands_out_what_is_there() {
    assert_eq!(require(Some(3), BAD_REQUEST, "missing"), Ok(3));
}

#[test]
fn require_reports_what_is_missing() {
    assert_eq!(
        require(None::<u8>, BAD_REQUEST, "missing parameters"),
        Err(Error { status: 400, message: "missing parameters".to_string() })
    );
    assert_eq!(
        require(None::<u8>, NOT_FOUND, "unknown document"),
        Err(Error { status: 404, message: "unknown document".to_string() })
    );
}

#[test]
fn route_new() {
    assert_eq!(route("/new", "/new"), Ok(Route::New));
    assert_eq!(route("/new", "/new?whatever=1"), Ok(Route::New));
}

#[test]
fn route_join_hands_on_the_query() {
    assert_eq!(
        route("/join", "/join?id=000102030405060708090a0b0c0d0e0f&head=2"),
        Ok(Route::Join("id=000102030405060708090a0b0c0d0e0f&head=2".to_string()))
    );
    assert_eq!(route("/join", "/join?id=abc#frag"), Ok(Route::Join("id=abc".to_string())));
    assert_eq!(route("/join", "/join?"), Ok(Route::Join(String::new())));
}

#[test]
fn route_join_without_query_is_a_bad_request() {
    assert_eq!(
        route("/join", "/join"),
        Err(Error { status: 400, message: "missing parameters".to_string() })
    );
}

#[test]
fn route_of_an_unknown_path_is_not_found() {
    let not_found = Err(Error { status: 404, message: "unknown path".to_string() });
    assert_eq!(route("/", "/"), not_found);
    assert_eq!(route("/joined", "/joined?id=1"), not_found);
    assert_eq!(route("", ""), not_found);
    assert_eq!(route("/new/", "/new/"), not_found);
}

#[test]
fn head_defaults_to_zero() {
    let with = JoinQueryParameters { id: "k".to_string(), head: Some(4) };
    let without = JoinQueryParameters { id: "k".to_string(), head: None };
    assert_eq!(with.head(), 4);
    assert_eq!(without.head(), 0);
}

#[test]
fn key_of_writes_lowercase_hex() {
    let bits = [0, 1, 2, 3, 4, 5, 6, 7, 8, 9, 10, 11, 12, 13, 14, 15];
    assert_eq!(key_of(bits), "000102030405060708090a0b0c0d0e0f");
    assert_eq!(key_of([0xff; 16]), "ffffffffffffffffffffffffffffffff");
    assert_eq!(
        key_of([0x9f, 0xa0, 0x1b, 0xc2, 0xde, 0xad, 0xbe, 0xef, 0x10, 0x7f, 0x80, 0x00, 0x0a, 0xa0, 0x5c, 0xc5]),
        "9fa01bc2deadbeef107f80000aa05cc5"
    );
}

#[test]
fn new_keys_are_handles() {
    let a = new_key();
    let b = new_key();
    for key in [&a, &b] {
        assert_eq!(key.len(), 32);
        assert!(key.chars().all(|c| matches!(c, '0'..='9' | 'a'..='f')));
    }
    assert_ne!(a, b);
}

#[test]
fn join_route_hands_on_a_query() {
    assert_eq!(
        join_route(Ok(Some("id=abc&head=1".to_string()))),
        Ok(Route::Join("id=abc&head=1".to_string()))
    );
}

#[test]
fn join_route_without_query_is_a_bad_request() {
    assert_eq!(
        join_route(Ok(None)),
        Err(Error { status: 400, message: "missing parameters".to_string() })
    );
}

#[test]
fn join_route_reports_an_address_that_did_not_parse() {
    assert_eq!(
        join_route(Err("invalid port number".to_string())),
        Err(Error { status: 500, message: "invalid port number".to_string() })
    );
}

#[test]
fn known_document_hands_on_the_id() {
    assert_eq!(known_document(Some(12)), Ok(12));
    assert_eq!(known_document(Some(0)), Ok(0));
}

#[test]
fn an_unknown_handle_is_not_found() {
    assert_eq!(
        known_document(None),
        Err(Error { status: 404, message: "unknown document".to_string() })
    );
}
