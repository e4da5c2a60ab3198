//! The element being painted, and what its painting depends on.

use crate::geometry::{Insets, Rect};
use crate::ieee::Binary64;
use vstd::prelude::*;

verus! {

/// What painting reads of a node of the document tree.
#[derive(Clone, Copy, Debug, PartialEq, Eq)]
pub struct TreeNode {
    pub parent: Option<usize>,
    /// Whether the node has a resolved CSS transform.
    pub transformed: bool,
}

/// The two radii of a corner.
#[derive(Clone, Copy, Debug, PartialEq, Eq, Structural)]
pub struct CornerRadius {
    pub x: Binary64,
    pub y: Binary64,
}

/// The radii of the four corners.
#[derive(Clone, Copy, Debug, PartialEq, Eq, Structural)]
pub struct CornerRadii {
    pub top_left: CornerRadius,
    pub top_right: CornerRadius,
    pub bottom_right: CornerRadius,
    pub bottom_left: CornerRadius,
}

/// The boxes of an element in device pixels, with what its border geometry answers.
#[derive(Clone, Copy, Debug, PartialEq, Eq, Structural)]
pub struct Frame {
    pub border_box: Rect,
    pub padding_box: Rect,
    pub content_box: Rect,
    pub border_width: Insets,
    pub border_radii: CornerRadii,
    pub outline_width: Binary64,
    /// Whether every corner is a circular arc, sharp corners included.
    pub is_uniform_corner_border: bool,
    /// Whether the border box is a full ellipse.
    pub is_elliptical_border: bool,
    /// Whether any corner is rounded.
    pub has_border_radius: bool,
    /// The length of the closed path through the middle of the border.
    pub centerline_perimeter: Binary64,
}

/// The render surface: its size, and where the document was placed on it.
#[derive(Clone, Copy, Debug, PartialEq, Eq, Structural)]
pub struct Surface {
    pub width: u32,
    pub height: u32,
    pub initial_x: Binary64,
    pub initial_y: Binary64,
}

/// One element in the course of painting.
pub struct ElementCx<'a> {
    /// The document, by node id; ids of removed nodes are empty.
    pub nodes: &'a Vec<Option<TreeNode>>,
    /// The id of the element's node.
    pub node: usize,
    pub frame: Frame,
    /// Device pixels per CSS pixel.
    pub scale: Binary64,
    pub surface: Surface,
}

/// The node with the given id, where there is one.
pub open spec fn node_at(nodes: Seq<Option<TreeNode>>, id: int) -> Option<TreeNode> {
    if 0 <= id < nodes.len() {
        nodes[id]
    } else {
        None
    }
}

/// The id that `k` steps from a node towards the root lead to; the node itself for `k = 0`.
/// No step leads anywhere from an id without a node.
pub open spec fn ancestor(nodes: Seq<Option<TreeNode>>, id: usize, k: nat) -> Option<usize>
    decreases k,
{
    if k == 0 {
        Some(id)
    } else {
        match ancestor(nodes, id, (k - 1) as nat) {
            None => None,
            Some(below) => match node_at(nodes, below as int) {
                None => None,
                Some(node) => node.parent,
            },
        }
    }
}

/// The node `k` steps up from a node, where there is one.
pub open spec fn ancestor_node(nodes: Seq<Option<TreeNode>>, id: usize, k: nat) -> Option<
    TreeNode,
> {
    match ancestor(nodes, id, k) {
        None => None,
        Some(above) => node_at(nodes, above as int),
    }
}

/// Whether the node `k` steps up from a node has a transform.
pub open spec fn is_transformed_at(nodes: Seq<Option<TreeNode>>, id: usize, k: nat) -> bool {
    match ancestor_node(nodes, id, k) {
        None => false,
        Some(node) => node.transformed,
    }
}

/// Past the end of the chain there is nothing.
proof fn lemma_chain_ended(nodes: Seq<Option<TreeNode>>, id: usize, end: nat, k: nat)
    requires
        ancestor_node(nodes, id, end) is None,
        k >= end,
    ensures
        ancestor_node(nodes, id, k) is None,
    decreases k,
{
    if k > end {
        lemma_chain_ended(nodes, id, end, (k - 1) as nat);
    }
}

/// A chain that meets itself repeats.
proof fn lemma_chain_repeats(nodes: Seq<Option<TreeNode>>, id: usize, i: nat, j: nat, d: nat)
    requires
        ancestor(nodes, id, i) == ancestor(nodes, id, j),
    ensures
        ancestor(nodes, id, i + d) == ancestor(nodes, id, j + d),
    decreases d,
{
    if d > 0 {
        lemma_chain_repeats(nodes, id, i, j, (d - 1) as nat);
    }
}

/// A chain longer than there are nodes meets itself.
proof fn lemma_chain_meets_itself(nodes: Seq<Option<TreeNode>>, id: usize) -> (r: (nat, nat))
    requires
        forall|k: nat| k <= nodes.len() ==> ancestor_node(nodes, id, k) is Some,
    ensures
        r.0 < r.1 <= nodes.len(),
        ancestor(nodes, id, r.0) == ancestor(nodes, id, r.1),
{
    let n = nodes.len();
    let chain = Seq::new(n + 1, |k: int| ancestor(nodes, id, k as nat)->0 as int);
    assert forall|k: int| 0 <= k < chain.len() implies 0 <= #[trigger] chain[k] < n by {
        assert(ancestor_node(nodes, id, k as nat) is Some);
    }
    if chain.no_duplicates() {
        chain.unique_seq_to_set();
        vstd::set_lib::lemma_int_range(0, n as int);
        assert(chain.to_set().subset_of(vstd::set_lib::set_int_range(0, n as int)));
        vstd::set_lib::lemma_len_subset(
            chain.to_set(),
            vstd::set_lib::set_int_range(0, n as int),
        );
        assert(false);
    }
    let (i, j) = choose|i: int, j: int|
        0 <= i < chain.len() && 0 <= j < chain.len() && i != j && chain[i] == chain[j];
    assert(ancestor_node(nodes, id, i as nat) is Some);
    assert(ancestor_node(nodes, id, j as nat) is Some);
    if i < j {
        (i as nat, j as nat)
    } else {
        (j as nat, i as nat)
    }
}

/// Where no node of a chain as long as the document has a transform, none has.
proof fn lemma_chain_exhausted(nodes: Seq<Option<TreeNode>>, id: usize, k: nat)
    requires
        forall|k: nat| k <= nodes.len() ==> ancestor_node(nodes, id, k) is Some,
        forall|k: nat| k <= nodes.len() ==> !is_transformed_at(nodes, id, k),
    ensures
        !is_transformed_at(nodes, id, k),
    decreases k,
{
    if k > nodes.len() {
        let (i, j) = lemma_chain_meets_itself(nodes, id);
        lemma_chain_repeats(nodes, id, i, j, (k - j) as nat);
        lemma_chain_exhausted(nodes, id, (i + (k - j)) as nat);
    }
}

impl<'a> ElementCx<'a> {
    /// Whether this element or any of its ancestors has a CSS transform.
    pub fn is_transformed(&self) -> (r: bool)
        ensures
            r <==> exists|k: nat| is_transformed_at(self.nodes@, self.node, k),
    {
        let ghost nodes = self.nodes@;
        let ghost id = self.node;
        let len: u128 = self.nodes.len() as u128;
        let mut current: Option<usize> = Some(self.node);
        let mut steps: u128 = 0;
        while steps <= len
            invariant
                nodes == self.nodes@,
                id == self.node,
                len == nodes.len(),
                len <= u64::MAX,
                steps <= len + 1,
                current == ancestor(nodes, id, steps as nat),
                forall|k: nat| k < steps ==> ancestor_node(nodes, id, k) is Some,
                forall|k: nat| k < steps ==> !is_transformed_at(nodes, id, k),
            decreases len + 1 - steps,
        {
            let above: Option<TreeNode> = match current {
                None => None,
                Some(at) => if at < self.nodes.len() {
                    self.nodes[at]
                } else {
                    None
                },
            };
            assert(above == ancestor_node(nodes, id, steps as nat));
            match above {
                None => {
                    assert forall|k: nat| !is_transformed_at(nodes, id, k) by {
                        if k >= steps {
                            lemma_chain_ended(nodes, id, steps as nat, k);
                        }
                    }
                    return false;
                },
                Some(node) => {
                    if node.transformed {
                        assert(is_transformed_at(nodes, id, steps as nat));
                        return true;
                    }
                    current = node.parent;
                },
            }
            assert(ancestor(nodes, id, (steps + 1) as nat) == current);
            steps = steps + 1;
        }
        assert forall|k: nat| !is_transformed_at(nodes, id, k) by {
            lemma_chain_exhausted(nodes, id, k);
        }
        false
    }

    /// The render surface, in the coordinates that a fill's transform maps into.
    pub open spec fn spec_surface_rect(&self) -> Rect {
        let s = self.surface;
        Rect {
            x0: s.initial_x,
            y0: s.initial_y,
            x1: s.initial_x.plus(Binary64::from_unsigned(s.width as u64)),
            y1: s.initial_y.plus(Binary64::from_unsigned(s.height as u64)),
        }
    }

    /// The render surface, in the coordinates that a fill's transform maps into: the whole
    /// document is offset by the place it was given.
    #[verifier::when_used_as_spec(spec_surface_rect)]
    pub fn surface_rect(&self) -> (r: Rect)
        ensures
            r == self.spec_surface_rect(),
    {
        let s = self.surface;
        Rect {
            x0: s.initial_x,
            y0: s.initial_y,
            x1: s.initial_x.plus(Binary64::from_unsigned(s.width as u64)),
            y1: s.initial_y.plus(Binary64::from_unsigned(s.height as u64)),
        }
    }
}

} // verus!
