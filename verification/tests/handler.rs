use flights::handler::{handle_put, Rejection, Response, RoutingKey, Stage};
use flights::segment::Segment;

fn key(database_name: &str, item_key: &str) -> RoutingKey {
    RoutingKey { database_name: database_name.to_string(), item_key: item_key.to_string() }
}

fn leg(origin: &str, destination: &str) -> Segment {
    Segment::new(origin.to_string(), destination.to_string())
}

fn error_by_serde_json(code: i64, message: &str) -> String {
    let mut error = serde_json::Map::new();
    error.insert("code".to_string(), serde_json::Value::from(code));
    error.insert("message".to_string(), serde_json::Value::from(message));
    let mut document = serde_json::Map::new();
    document.insert("error".to_string(), serde_json::Value::Object(error));
    serde_json::Value::Object(document).to_string()
}

#[test]
fn routing_mismatch_is_not_found() {
    let configured = "db".to_string();
    let bodies: [&[u8]; 4] = [b"", b"'A''B''B''C' ", b"anything", &[0xff, 0xfe]];
    for body in bodies {
        let response = handle_put(&configured, &key("wrongdb", "k1"), body);
        assert_eq!(response.status, 404);
        assert_eq!(
            response.body.as_deref(),
            Some("{\"error\":{\"code\":-404,\"message\":\"not found\"}}")
        );
    }
}

#[test]
fn database_name_must_match_exactly() {
    let configured = "db".to_string();
    for name in ["", "DB", "db ", "d", "dbx"] {
        let response = handle_put(&configured, &key(name, "k1"), b"'A''B' ");
        assert_eq!(response.status, 404);
    }
}

#[test]
fn chain_in_the_body_is_answered_with_one_segment() {
    let configured = "db".to_string();
    let response = handle_put(&configured, &key("db", "k1"), b"'A''B''B''C''C''D'\n");
    assert_eq!(response.status, 200);
    assert_eq!(response.body.as_deref(), Some("{\"result\":[[\"A\",\"D\"]]}"));
}

#[test]
fn item_key_does_not_matter() {
    let configured = "db".to_string();
    for item in ["k1", "", "another/key"] {
        let response = handle_put(&configured, &key("db", item), b"'A''B','C''D';");
        assert_eq!(response.status, 200);
        assert_eq!(
            response.body.as_deref(),
            Some("{\"result\":[[\"A\",\"B\"],[\"C\",\"D\"]]}")
        );
    }
}

#[test]
fn empty_body_is_answered_with_an_empty_result() {
    let configured = "db".to_string();
    let response = handle_put(&configured, &key("db", "k1"), b"");
    assert_eq!(response.status, 200);
    assert_eq!(response.body.as_deref(), Some("{\"result\":[]}"));
}

#[test]
fn body_that_is_not_text_is_a_bad_request() {
    let configured = "db".to_string();
    let response = handle_put(&configured, &key("db", "k1"), &[b'\'', 0xff, b'\'', b' ']);
    assert_eq!(response.status, 400);
    assert_eq!(
        response.body.as_deref(),
        Some("{\"error\":{\"code\":-400,\"message\":\"bad request\"}}")
    );
}

#[test]
fn rejections_have_fixed_answers() {
    let not_found = Response::rejected(Rejection::NotFound);
    assert_eq!(not_found.status, 404);
    assert_eq!(
        not_found.body.as_deref(),
        Some("{\"error\":{\"code\":-404,\"message\":\"not found\"}}")
    );
    let bad_request = Response::rejected(Rejection::BadRequest);
    assert_eq!(bad_request.status, 400);
    assert_eq!(
        bad_request.body.as_deref(),
        Some("{\"error\":{\"code\":-400,\"message\":\"bad request\"}}")
    );
    let internal = Response::rejected(Rejection::Internal);
    assert_eq!(internal.status, 500);
    assert_eq!(
        internal.body.as_deref(),
        Some("{\"error\":{\"code\":-500,\"message\":\"internal server error\"}}")
    );
}

#[test]
fn rejection_bodies_are_what_serde_json_writes() {
    assert_eq!(
        Response::rejected(Rejection::NotFound).body,
        Some(error_by_serde_json(-404, "not found"))
    );
    assert_eq!(
        Response::rejected(Rejection::BadRequest).body,
        Some(error_by_serde_json(-400, "bad request"))
    );
    assert_eq!(
        Response::rejected(Rejection::Internal).body,
        Some(error_by_serde_json(-500, "internal server error"))
    );
}

#[test]
fn success_carries_the_text() {
    let response = Response::success("{\"result\":[]}".to_string());
    assert_eq!(response.status, 200);
    assert_eq!(response.body.as_deref(), Some("{\"result\":[]}"));
}

#[test]
fn unknown_route_is_not_found_for_get_and_not_allowed_otherwise() {
    let get = Response::fallback(true);
    assert_eq!(get.status, 404);
    assert_eq!(
        get.body.as_deref(),
        Some("{\"error\":{\"code\":-404,\"message\":\"not found\"}}")
    );
    let other = Response::fallback(false);
    assert_eq!(other.status, 405);
    assert_eq!(other.body, None);
}

#[test]
fn stages_follow_one_another() {
    let configured = "db".to_string();
    let routing = key("db", "k1");
    let body = b"'A''B''B''C' ";

    let stage = Stage::Received;
    assert!(!stage.is_final());
    let stage = stage.advance(&configured, &routing, body);
    assert!(matches!(stage, Stage::Validated));
    assert!(!stage.is_final());
    let stage = stage.advance(&configured, &routing, body);
    match &stage {
        Stage::Parsed { segments } => assert_eq!(segments, &vec![leg("A", "B"), leg("B", "C")]),
        other => panic!("unexpected stage {:?}", other),
    }
    assert!(!stage.is_final());
    let stage = stage.advance(&configured, &routing, body);
    match &stage {
        Stage::Consolidated { segments } => assert_eq!(segments, &vec![leg("A", "C")]),
        other => panic!("unexpected stage {:?}", other),
    }
    assert!(!stage.is_final());
    let stage = stage.advance(&configured, &routing, body);
    assert!(stage.is_final());
    let again = stage.advance(&configured, &routing, body);
    assert!(again.is_final());
    let response = again.into_response();
    assert_eq!(response.status, 200);
    assert_eq!(response.body.as_deref(), Some("{\"result\":[[\"A\",\"C\"]]}"));
}

#[test]
fn mismatch_is_refused_right_after_receipt() {
    let configured = "db".to_string();
    let stage = Stage::Received.advance(&configured, &key("other", "k1"), b"'A''B' ");
    assert!(matches!(stage, Stage::Rejected { rejection: Rejection::NotFound }));
    assert!(stage.is_final());
    assert_eq!(stage.into_response().status, 404);
}

#[test]
fn malformed_body_is_refused_right_after_validation() {
    let configured = "db".to_string();
    let routing = key("db", "k1");
    let stage = Stage::Received.advance(&configured, &routing, &[0xff]);
    assert!(matches!(stage, Stage::Validated));
    let stage = stage.advance(&configured, &routing, &[0xff]);
    assert!(matches!(stage, Stage::Rejected { rejection: Rejection::BadRequest }));
    assert_eq!(stage.into_response().status, 400);
}
