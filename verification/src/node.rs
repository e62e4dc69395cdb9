use vstd::prelude::*;

use crate::nibbles::Nibbles;
use crate::nibbles::nibs_valid;

verus! {

/// A trie node. Identical subtrees are tree-shaped in the logical key
/// space; children are owned by their parent. A `Hash` node is a lazy
/// pointer: the real subtree lives in the backing store keyed by digest.
#[derive(Debug)]
pub enum Node {
    Empty,
    Leaf(Box<LeafNode>),
    Extension(Box<ExtensionNode>),
    Branch(Box<BranchNode>),
    Hash(Box<HashNode>),
}

/// A terminal node: the remaining key suffix and its value.
#[derive(Debug)]
pub struct LeafNode {
    pub key: Nibbles,
    pub value: Vec<u8>,
}

/// A 16-way dispatch node with an optional value for a key ending here.
#[derive(Debug)]
pub struct BranchNode {
    pub children: Vec<Node>,
    pub value: Option<Vec<u8>>,
}

/// A shared, non-branching prefix above a branch.
#[derive(Debug)]
pub struct ExtensionNode {
    pub prefix: Nibbles,
    pub node: Node,
}

/// A content-addressed reference to a node persisted in the store.
#[derive(Debug)]
pub struct HashNode {
    pub hash: Vec<u8>,
}

/// True when `q` is a prefix of `p`.
pub open spec fn starts_with(p: Seq<u8>, q: Seq<u8>) -> bool {
    q.len() <= p.len() && p.subrange(0, q.len() as int) == q
}

/// The value stored under the nibble path `p` in the subtree rooted at
/// `n`, or `None`. This is the mathematical meaning of a node: lookups,
/// insertions and deletions are specified against it. A `Hash` node holds
/// no in-memory content, so it yields `None`; the engine only applies this
/// to fully materialized (concrete) subtrees.
pub open spec fn node_get(n: Node, p: Seq<u8>) -> Option<Seq<u8>>
    decreases n,
{
    match n {
        Node::Empty => None,
        Node::Leaf(l) => if p == l.key@ {
            Some(l.value@)
        } else {
            None
        },
        Node::Extension(e) => {
            if starts_with(p, e.prefix@) {
                node_get(e.node, p.skip(e.prefix@.len() as int))
            } else {
                None
            }
        },
        Node::Branch(b) => {
            if b.children@.len() == 16 {
                if p.len() == 0 {
                    match b.value {
                        Some(v) => Some(v@),
                        None => None,
                    }
                } else if p[0] < 16 {
                    node_get(b.children@[p[0] as int], p.skip(1))
                } else {
                    None
                }
            } else {
                None
            }
        },
        Node::Hash(_) => None,
    }
}

/// Well-formedness of a fully materialized subtree: nibble paths are
/// valid, extension prefixes are non-empty and sit directly above a
/// branch (extensions are maximal), branches have exactly 16 slots, and
/// no lazy `Hash` reference remains.
pub open spec fn node_wf(n: Node) -> bool
    decreases n,
{
    match n {
        Node::Empty => true,
        Node::Leaf(l) => nibs_valid(l.key@),
        Node::Extension(e) => nibs_valid(e.prefix@) && e.prefix@.len() >= 1 && node_wf(e.node)
            && e.node is Branch,
        Node::Branch(b) => b.children@.len() == 16 && forall|i: int|
            0 <= i < 16 ==> node_wf(#[trigger] b.children@[i]),
        Node::Hash(_) => false,
    }
}

impl Node {
    /// A terminal node holding `value` under the remaining suffix `key`.
    pub fn from_leaf(key: Nibbles, value: Vec<u8>) -> (r: Self)
        ensures
            r == Node::Leaf(Box::new(LeafNode { key, value })),
    {
        let leaf = Box::new(LeafNode { key, value });
        Node::Leaf(leaf)
    }

    /// A 16-way branch over `children` with an optional terminal `value`.
    pub fn from_branch(children: Vec<Node>, value: Option<Vec<u8>>) -> (r: Self)
        ensures
            r == Node::Branch(Box::new(BranchNode { children, value })),
    {
        let branch = Box::new(BranchNode { children, value });
        Node::Branch(branch)
    }

    /// A shared prefix `prefix` above the subtree `node`.
    pub fn from_extension(prefix: Nibbles, node: Node) -> (r: Self)
        ensures
            r == Node::Extension(Box::new(ExtensionNode { prefix, node })),
    {
        let ext = Box::new(ExtensionNode { prefix, node });
        Node::Extension(ext)
    }

    /// A lazy reference to the node stored under `hash`.
    pub fn from_hash(hash: Vec<u8>) -> (r: Self)
        ensures
            r == Node::Hash(Box::new(HashNode { hash })),
    {
        let hash_node = Box::new(HashNode { hash });
        Node::Hash(hash_node)
    }
}

impl BranchNode {
    /// Places `n` at child slot `i`, or, for the 17th slot (`i == 16`),
    /// moves a leaf's value into this branch's own value slot.
    pub fn insert(&mut self, i: usize, n: Node)
        requires
            i <= 16,
            old(self).children@.len() == 16,
            i == 16 ==> n is Leaf,
        ensures
            i < 16 ==> final(self).children@ == old(self).children@.update(i as int, n)
                && final(self).value == old(self).value,
            i == 16 ==> final(self).children == old(self).children && (n matches Node::Leaf(l)
                && final(self).value == Some(l.value)),
    {
        if i == 16 {
            match n {
                Node::Leaf(leaf) => {
                    self.value = Some(leaf.value);
                },
                _ => {
                    proof {
                        assert(false);
                    }
                },
            }
        } else {
            self.children[i] = n;
        }
    }
}

/// Sixteen empty child slots for a fresh branch.
pub fn empty_children() -> (r: Vec<Node>)
    ensures
        r@.len() == 16,
        forall|i: int| 0 <= i < 16 ==> r@[i] is Empty,
{
    let mut v: Vec<Node> = Vec::new();
    let mut i: usize = 0;
    while i < 16
        invariant
            i <= 16,
            v@.len() == i,
            forall|j: int| 0 <= j < i ==> v@[j] is Empty,
        decreases 16 - i,
    {
        v.push(Node::Empty);
        i += 1;
    }
    v
}

} // verus!
