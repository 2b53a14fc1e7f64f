use reviewmesh::mesh::MeshView;
use reviewmesh::order::str_lt;
use reviewmesh::strutil::str_eq;

#[test]
fn discovery_grows_and_expiry_shrinks_the_view() {
    let mut m = MeshView::new();
    assert!(!m.contains_peer(7));
    m.on_discovered(7);
    m.on_discovered(9);
    m.on_discovered(7);
    assert!(m.contains_peer(7));
    assert!(m.contains_peer(9));
    // expired but still discoverable: stays in the view
    m.on_expired(7, true);
    assert!(m.contains_peer(7));
    // gone for good
    m.on_expired(7, false);
    assert!(!m.contains_peer(7));
    assert!(m.contains_peer(9));
    // expiring an unknown peer changes nothing
    m.on_expired(42, false);
    assert!(m.contains_peer(9));
}

#[test]
fn dissemination_requires_topic_and_peer() {
    let mut m = MeshView::new();
    m.on_discovered(1);
    assert!(!m.delivers_to("reviewmesh-s1", 1));
    m.join("reviewmesh-s1");
    m.join("reviewmesh-s1");
    assert!(m.subscribed("reviewmesh-s1"));
    assert!(m.delivers_to("reviewmesh-s1", 1));
    assert!(!m.delivers_to("chatmesh-s1", 1));
    assert!(!m.delivers_to("reviewmesh-s1", 2));
}

#[test]
fn string_order_is_lexicographic() {
    assert!(str_lt("", "a"));
    assert!(str_lt("a", "b"));
    assert!(str_lt("a", "ab"));
    assert!(!str_lt("b", "a"));
    assert!(!str_lt("a", "a"));
    assert!(str_lt("Z", "a"));
}

#[test]
fn string_equality_by_characters() {
    assert!(str_eq("abc", "abc"));
    assert!(!str_eq("abc", "abd"));
    assert!(!str_eq("abc", "ab"));
    assert!(str_eq("", ""));
}
