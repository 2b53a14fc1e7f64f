use reviewmesh::token::{generate_invite_token, parse_invite_token};

#[test]
fn invite_token_exact_value() {
    assert_eq!(
        generate_invite_token("s1", "hunter2"),
        "s1.3a0ea511e627ec17"
    );
}

#[test]
fn invite_token_round_trip() {
    let token = generate_invite_token("session-abc", "shared-secret");
    assert_eq!(
        parse_invite_token(&token, "shared-secret"),
        Some("session-abc".to_string())
    );
}

#[test]
fn invite_token_round_trip_with_dots_in_id() {
    let token = generate_invite_token("a.b.c", "k");
    assert_eq!(parse_invite_token(&token, "k"), Some("a.b.c".to_string()));
}

#[test]
fn invite_token_empty_id() {
    let token = generate_invite_token("", "k");
    assert_eq!(parse_invite_token(&token, "k"), Some("".to_string()));
}

#[test]
fn wrong_secret_is_rejected() {
    let token = generate_invite_token("s1", "right");
    assert_eq!(parse_invite_token(&token, "wrong"), None);
}

#[test]
fn tampered_token_is_rejected() {
    let token = generate_invite_token("s1", "k");
    let tampered = token.replace("s1.", "s2.");
    assert_eq!(parse_invite_token(&tampered, "k"), None);
    let mut chopped = token.clone();
    chopped.pop();
    assert_eq!(parse_invite_token(&chopped, "k"), None);
}

#[test]
fn token_without_dot_is_rejected() {
    assert_eq!(parse_invite_token("nodotatall", "k"), None);
    assert_eq!(parse_invite_token("", "k"), None);
}
