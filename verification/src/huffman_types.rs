//! The Huffman tree: leaves carry one symbol each, branches merge two
//! subtrees, and every node carries the weight (occurrence count) of the
//! symbols below it.

use vstd::prelude::*;

verus! {

/// A leaf: one symbol together with its occurrence count.
#[derive(Clone, Copy)]
pub struct HuffmanValue {
    pub ch: char,
    pub count: usize,
}

/// A branch: two exclusively owned subtrees and their combined weight.
/// The `t` subtree is reached by a `false` bit, the `f` subtree by `true`.
pub struct HuffmanBranch {
    pub t: Box<HuffmanNode>,
    pub f: Box<HuffmanNode>,
    pub count: usize,
}

/// A tree node: a branch, a leaf value, or the empty placeholder.
pub enum HuffmanNode {
    Branch(Box<HuffmanBranch>),
    Value(HuffmanValue),
    Empty,
}

/// The weight a node advertises.
pub open spec fn node_weight(n: HuffmanNode) -> int {
    match n {
        HuffmanNode::Branch(b) => b.count as int,
        HuffmanNode::Value(v) => v.count as int,
        HuffmanNode::Empty => 0,
    }
}

/// Well-formed tree: no empty placeholder anywhere, every leaf weight is at
/// least one, and every branch weight is the sum of its children's weights.
pub open spec fn wf_node(n: HuffmanNode) -> bool
    decreases n,
{
    match n {
        HuffmanNode::Branch(b) => wf_node(*b.t) && wf_node(*b.f) && b.count == node_weight(*b.t)
            + node_weight(*b.f),
        HuffmanNode::Value(v) => v.count >= 1,
        HuffmanNode::Empty => false,
    }
}

/// The leaf symbols, in leaf-visitation (pre-order) order.
pub open spec fn syms(n: HuffmanNode) -> Seq<char>
    decreases n,
{
    match n {
        HuffmanNode::Branch(b) => syms(*b.t) + syms(*b.f),
        HuffmanNode::Value(v) => seq![v.ch],
        HuffmanNode::Empty => Seq::empty(),
    }
}

/// The pre-order structural bit sequence: `true` opens a branch (left then
/// right follow), `false` marks a leaf.
pub open spec fn shape(n: HuffmanNode) -> Seq<bool>
    decreases n,
{
    match n {
        HuffmanNode::Branch(b) => seq![true] + shape(*b.t) + shape(*b.f),
        HuffmanNode::Value(_) => seq![false],
        HuffmanNode::Empty => Seq::empty(),
    }
}

/// The larger of two integers.
pub open spec fn int_max(a: int, b: int) -> int {
    if a >= b {
        a
    } else {
        b
    }
}

/// The depth of the deepest leaf, i.e. the longest code length.
pub open spec fn depth(n: HuffmanNode) -> int
    decreases n,
{
    match n {
        HuffmanNode::Branch(b) => 1 + int_max(depth(*b.t), depth(*b.f)),
        HuffmanNode::Value(_) => 0,
        HuffmanNode::Empty => 0,
    }
}

/// The code table of a tree: one `(code, symbol)` pair per leaf, in
/// leaf-visitation order; a code is the root-to-leaf path, `false` for the
/// `t` child and `true` for the `f` child.
pub open spec fn paths(n: HuffmanNode) -> Seq<(Seq<bool>, char)>
    decreases n,
{
    match n {
        HuffmanNode::Branch(b) => paths(*b.t).map_values(
            |p: (Seq<bool>, char)| (seq![false] + p.0, p.1),
        ) + paths(*b.f).map_values(|p: (Seq<bool>, char)| (seq![true] + p.0, p.1)),
        HuffmanNode::Value(v) => seq![(Seq::<bool>::empty(), v.ch)],
        HuffmanNode::Empty => Seq::empty(),
    }
}

/// The code of symbol `c`: the path to the leftmost leaf that carries it.
pub open spec fn code_of(n: HuffmanNode, c: char) -> Seq<bool>
    decreases n,
{
    match n {
        HuffmanNode::Branch(b) => if syms(*b.t).contains(c) {
            seq![false] + code_of(*b.t, c)
        } else {
            seq![true] + code_of(*b.f, c)
        },
        HuffmanNode::Value(_) => Seq::empty(),
        HuffmanNode::Empty => Seq::empty(),
    }
}

impl HuffmanBranch {
    /// Whether the `t` subtree is the empty placeholder.
    pub fn is_t_none(&self) -> (r: bool)
        ensures
            r == (*self.t matches HuffmanNode::Empty),
    {
        if let HuffmanNode::Empty = *self.t {
            return true;
        }
        false
    }

    /// Whether the `f` subtree is the empty placeholder.
    pub fn is_f_none(&self) -> (r: bool)
        ensures
            r == (*self.f matches HuffmanNode::Empty),
    {
        if let HuffmanNode::Empty = *self.f {
            return true;
        }
        false
    }
}

impl HuffmanNode {
    /// The weight recorded at this node.
    pub fn count_sub_branches(&self) -> (r: usize)
        ensures
            r as int == node_weight(*self),
    {
        match self {
            HuffmanNode::Branch(branch) => branch.count,
            HuffmanNode::Value(value) => value.count,
            _ => 0,
        }
    }
}

/// The code table has one entry per leaf.
pub proof fn lemma_paths_len(n: HuffmanNode)
    ensures
        paths(n).len() == syms(n).len(),
    decreases n,
{
    match n {
        HuffmanNode::Branch(b) => {
            lemma_paths_len(*b.t);
            lemma_paths_len(*b.f);
        },
        _ => {},
    }
}

} // verus!
