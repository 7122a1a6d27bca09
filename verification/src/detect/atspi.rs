//! Walking an accessibility tree.
//!
//! GTK, Qt and Firefox each publish an accessibility tree on the a11y D-Bus.
//! Walking it gives precise rectangles, roles and text with no image analysis.
//! Asking a node for its children, extents and role is a bus call; this module
//! decides which node is asked next and what becomes of the answers.
//!
//! Everything is best-effort: a node that errors (interface not implemented,
//! app quitting) is skipped, never fatal. Traversal is bounded in depth and node
//! count so a pathological tree can't stall a hint session.

use vstd::prelude::*;

use crate::detect::Element;
use crate::geometry::Rect;
use crate::text::{to_chars, trim_chars, trimmed};

verus! {

/// The bus name that owns the root of the tree.
pub fn registry_dest() -> (s: &'static str)
    ensures
        s@ == "org.a11y.atspi.Registry"@,
{
    "org.a11y.atspi.Registry"
}

/// The path of the root of the tree.
pub fn registry_root() -> (s: &'static str)
    ensures
        s@ == "/org/a11y/atspi/accessible/root"@,
{
    "/org/a11y/atspi/accessible/root"
}

/// No more nodes than this are visited.
pub const MAX_NODES: usize = 6000;

/// No node deeper than this is visited.
pub const MAX_DEPTH: u32 = 60;

/// A reference to a node in the tree: the bus name that owns it and its path.
#[derive(Debug, Clone)]
pub struct NodeRef {
    pub dest: String,
    pub path: String,
    pub depth: u32,
}

/// A depth-first traversal from the registry root: the nodes still to visit, the
/// next one last, and how many have been visited.
#[derive(Debug)]
pub struct Walk {
    pub stack: Vec<NodeRef>,
    pub visited: usize,
}

/// What a child is as a node at `depth`.
pub open spec fn is_child(n: NodeRef, child: (String, String), depth: int) -> bool {
    n.dest@ == child.0@ && n.path@ == child.1@ && n.depth == depth
}

impl Walk {
    /// The bounds have been kept to.
    pub open spec fn sound(self) -> bool {
        &&& self.visited <= MAX_NODES
        &&& forall|i: int| 0 <= i < self.stack@.len() ==> (#[trigger] self.stack@[i]).depth <= MAX_DEPTH
    }

    pub fn new() -> (w: Self)
        ensures
            w.sound(),
            w.visited == 0,
            w.stack@.len() == 1,
            w.stack@[0].dest@ == "org.a11y.atspi.Registry"@,
            w.stack@[0].path@ == "/org/a11y/atspi/accessible/root"@,
            w.stack@[0].depth == 0,
    {
        let mut stack: Vec<NodeRef> = Vec::new();
        stack.push(
            NodeRef {
                dest: String::from_str(registry_dest()),
                path: String::from_str(registry_root()),
                depth: 0,
            },
        );
        Walk { stack, visited: 0 }
    }

    /// The node to visit next: the last one found, unless there is none left or
    /// enough have been visited.
    pub fn next(&mut self) -> (r: Option<NodeRef>)
        requires
            old(self).sound(),
        ensures
            final(self).sound(),
            match r {
                Some(n) => old(self).stack@.len() > 0 && old(self).visited < MAX_NODES && n
                    == old(self).stack@.last() && final(self).stack@ == old(self).stack@.drop_last()
                    && final(self).visited == old(self).visited + 1 && n.depth <= MAX_DEPTH,
                None => final(self).visited == old(self).visited && final(self).stack@ == old(
                    self,
                ).stack@ && (old(self).stack@.len() == 0 || old(self).visited >= MAX_NODES),
            },
    {
        if self.visited >= MAX_NODES {
            return None;
        }
        match self.stack.pop() {
            Some(n) => {
                self.visited += 1;
                Some(n)
            },
            None => None,
        }
    }

    /// Take note of the `children` (owner and path) of a node at `depth`; those of
    /// a node at the depth bound are not visited.
    pub fn expand(&mut self, depth: u32, children: Vec<(String, String)>)
        requires
            old(self).sound(),
        ensures
            final(self).sound(),
            final(self).visited == old(self).visited,
            depth >= MAX_DEPTH ==> final(self).stack@ == old(self).stack@,
            depth < MAX_DEPTH ==> {
                &&& final(self).stack@.len() == old(self).stack@.len() + children@.len()
                &&& final(self).stack@.take(old(self).stack@.len() as int) == old(self).stack@
                &&& forall|i: int|
                    0 <= i < children@.len() ==> is_child(
                        final(self).stack@[old(self).stack@.len() + i],
                        #[trigger] children@[i],
                        depth + 1,
                    )
            },
    {
        if depth >= MAX_DEPTH {
            return;
        }
        let ghost before = self.stack@;
        let ghost given = children@;
        for child in it: children
            invariant
                it.seq() == given,
                self.sound(),
                depth < MAX_DEPTH,
                self.visited == old(self).visited,
                self.stack@.len() == before.len() + it.index(),
                self.stack@.take(before.len() as int) == before,
                forall|i: int|
                    0 <= i < it.index() ==> is_child(
                        self.stack@[before.len() + i],
                        #[trigger] given[i],
                        depth + 1,
                    ),
        {
            let ghost so_far = self.stack@;
            self.stack.push(NodeRef { dest: child.0, path: child.1, depth: depth + 1 });
            assert(self.stack@.take(before.len() as int) == so_far.take(before.len() as int));
        }
    }
}

/// The element that a node is, if it is worth hinting: it has extents on the
/// screen and a positive size, its role is interactive, and a node of no
/// particular role (`plain`) carries text.
pub fn node_element(
    rect: Option<Rect>,
    screen: Rect,
    interactive: bool,
    plain: bool,
    text: String,
) -> (r: Option<Element>)
    ensures
        match r {
            Some(e) => rect == Some(e.rect) && e.text@ == text@ && e.rect.width > 0 && e.rect.height
                > 0 && e.rect.visible_in(screen) && interactive && (!plain || trimmed(text@).len()
                > 0),
            None => rect is None || rect->0.width <= 0 || rect->0.height <= 0
                || !rect->0.visible_in(screen) || !interactive || (plain && trimmed(text@).len()
                == 0),
        },
{
    let rect = match rect {
        Some(r) => r,
        None => {
            return None;
        },
    };
    // Must overlap the screen and have a positive size.
    if rect.width <= 0 || rect.height <= 0 || rect.clamp_to(screen).is_none() {
        return None;
    }
    let bare = trim_chars(&to_chars(text.as_str()));
    if interactive && (!plain || bare.len() > 0) {
        Some(Element { rect, text })
    } else {
        None
    }
}

// --- Laws -----------------------------------------------------------------

/// A child is visited as the node that its parent named, one level down.
pub proof fn law_children_are_visited_by_name(n: NodeRef, child: (String, String), depth: int)
    ensures
        is_child(n, child, depth) <==> (n.dest@, n.path@, n.depth as int) == (
            child.0@,
            child.1@,
            depth,
        ),
{
}

/// The walk never goes beyond its bounds: a sound walk has visited no more nodes
/// than allowed, and waits for none that lies too deep.
pub proof fn law_the_walk_is_bounded(w: Walk, i: int)
    requires
        w.sound(),
    ensures
        w.visited <= 6000,
        0 <= i < w.stack@.len() ==> w.stack@[i].depth <= 60,
{
}

} // verus!
