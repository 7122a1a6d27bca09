use mole::detect::atspi::{node_element, registry_dest, registry_root, Walk, MAX_DEPTH, MAX_NODES};
use mole::geometry::Rect;

fn child(n: usize) -> (String, String) {
    (format!("bus{n}"), format!("/node/{n}"))
}

#[test]
fn the_walk_is_depth_first_from_the_registry() {
    let mut w = Walk::new();
    let root = w.next().unwrap();
    assert_eq!((root.dest.as_str(), root.path.as_str()), (registry_dest(), registry_root()));
    w.expand(root.depth, vec![child(1), child(2)]);
    let second = w.next().unwrap();
    assert_eq!((second.path.as_str(), second.depth), ("/node/2", 1));
    w.expand(second.depth, vec![child(3)]);
    assert_eq!(w.next().unwrap().path, "/node/3");
    assert_eq!(w.next().unwrap().path, "/node/1");
    assert!(w.next().is_none());
}

#[test]
fn the_walk_is_bounded() {
    // A chain that never ends is followed down to the depth bound.
    let mut w = Walk::new();
    let mut deepest = 0;
    while let Some(n) = w.next() {
        deepest = n.depth;
        w.expand(n.depth, vec![child(0)]);
    }
    assert_eq!(deepest, MAX_DEPTH);
    // A node that keeps growing siblings is cut at the node bound.
    let mut w = Walk::new();
    let mut visited = 0;
    while let Some(_) = w.next() {
        visited += 1;
        w.expand(0, vec![child(0), child(1)]);
    }
    assert_eq!(visited, MAX_NODES);
}

#[test]
fn only_nodes_worth_hinting_become_elements() {
    let screen = Rect::new(0, 0, 800, 600);
    let at = |r: Option<Rect>, interactive, plain, text: &str| {
        node_element(r, screen, interactive, plain, text.to_string()).is_some()
    };
    let r = Some(Rect::new(10, 10, 40, 20));
    assert!(at(r, true, false, ""));
    assert!(at(r, true, true, "text"));
    assert!(!at(r, true, true, "  "), "no role and no text");
    assert!(!at(r, false, false, "text"), "not interactive");
    assert!(!at(None, true, false, "text"), "no extents");
    assert!(!at(Some(Rect::new(10, 10, 0, 20)), true, false, "text"), "no width");
    assert!(!at(Some(Rect::new(900, 10, 40, 20)), true, false, "text"), "off screen");
}
