use node_runtime::api_error::{Direction, Error};

fn invalid_body(direction: Direction, uri: &str, causes: &[&str]) -> Error {
    Error::InvalidBody {
        direction,
        uri: uri.to_string(),
        causes: causes.iter().map(|c| c.to_string()).collect(),
    }
}

#[test]
fn two_level_cause_chain_renders_joined() {
    let error = invalid_body(Direction::Request, "/eth/v1/node/health", &["cause1", "cause2"]);
    assert_eq!(error.format_sources(), "cause1: cause2");
}

#[test]
fn two_level_cause_chain_maps_to_400_for_any_uri_and_direction() {
    let combinations = [
        (Direction::Request, "/eth/v1/beacon/blocks"),
        (Direction::Request, ""),
        (Direction::Response, "/eth/v1/node/version"),
        (Direction::Response, "http://localhost:5052/"),
    ];
    for (direction, uri) in combinations {
        let error = invalid_body(direction, uri, &["cause1", "cause2"]);
        assert_eq!(error.status_code(), 400);
        assert_eq!(error.format_sources(), "cause1: cause2");
    }
}

#[test]
fn empty_cause_chain_renders_empty() {
    let error = invalid_body(Direction::Request, "/", &[]);
    assert_eq!(error.format_sources(), "");
}

#[test]
fn single_cause_renders_alone() {
    let error = invalid_body(Direction::Response, "/", &["unexpected end of input"]);
    assert_eq!(error.format_sources(), "unexpected end of input");
}

#[test]
fn three_level_cause_chain_keeps_order() {
    let error = invalid_body(
        Direction::Request,
        "/eth/v1/validator/duties",
        &["failed to read request body", "invalid json", "eof while parsing"],
    );
    assert_eq!(
        error.format_sources(),
        "failed to read request body: invalid json: eof while parsing"
    );
}
