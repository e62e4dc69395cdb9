use vstd::prelude::*;

use crate::db::MemoryDB;
use crate::encoding::commit_node;
use crate::encoding::committed;
use crate::encoding::db_extends;
use crate::encoding::lemma_committed_extends;
use crate::encoding::lemma_db_extends_trans;
use crate::encoding::node_encoded;
use crate::hashing::keccak;
use crate::hashing::keccak_of;
use crate::errors::TrieError;
use crate::nibbles::Nibbles;
use crate::nibbles::nibs_valid;
use crate::node::BranchNode;
use crate::node::ExtensionNode;
use crate::node::LeafNode;
use crate::node::Node;
use crate::node::empty_children;
use crate::node::node_get;
use crate::node::node_wf;
use crate::node::starts_with;

verus! {

/// The nibble path of a raw byte key: each byte contributes its high
/// nibble, then its low nibble.
pub open spec fn bytes_to_nibbles(b: Seq<u8>) -> Seq<u8> {
    Seq::new(
        2 * b.len(),
        |i: int|
            if i % 2 == 0 {
                (b[i / 2] / 16) as u8
            } else {
                (b[i / 2] % 16) as u8
            },
    )
}

/// The byte-string view of an optional owned value.
pub open spec fn opt_view(o: Option<Vec<u8>>) -> Option<Seq<u8>> {
    match o {
        Some(v) => Some(v@),
        None => None,
    }
}

pub proof fn lemma_skip_skip(p: Seq<u8>, a: int, b: int)
    requires
        0 <= a,
        0 <= b,
        a + b <= p.len(),
    ensures
        p.skip(a).skip(b) == p.skip(a + b),
{
    assert(p.skip(a).skip(b) =~= p.skip(a + b));
}

/// Two paths are equal exactly when they agree on a split point: same
/// first `c` elements and same remainder.
pub proof fn lemma_split_eq(p: Seq<u8>, x: Seq<u8>, c: int)
    requires
        0 <= c <= x.len(),
        c <= p.len(),
    ensures
        (p == x) <==> (p.subrange(0, c) == x.subrange(0, c) && p.skip(c) == x.skip(c)),
{
    if p.subrange(0, c) == x.subrange(0, c) && p.skip(c) == x.skip(c) {
        assert(p.skip(c).len() == p.len() - c);
        assert(x.skip(c).len() == x.len() - c);
        assert(p.len() == x.len());
        assert forall|j: int| 0 <= j < p.len() implies p[j] == x[j] by {
            if j < c {
                assert(p.subrange(0, c)[j] == x.subrange(0, c)[j]);
            } else {
                assert(p.skip(c)[j - c] == x.skip(c)[j - c]);
            }
        }
        assert(p =~= x);
    }
    if p == x {
        assert(p.subrange(0, c) =~= x.subrange(0, c));
        assert(p.skip(c) =~= x.skip(c));
    }
}

/// A path extends `x` exactly when it extends the first `c` elements of
/// `x` and its remainder extends the rest of `x`.
pub proof fn lemma_starts_split(p: Seq<u8>, x: Seq<u8>, c: int)
    requires
        0 <= c <= x.len(),
        c <= p.len(),
    ensures
        starts_with(p, x) <==> (p.subrange(0, c) == x.subrange(0, c) && starts_with(
            p.skip(c),
            x.skip(c),
        )),
{
    if p.subrange(0, c) == x.subrange(0, c) && starts_with(p.skip(c), x.skip(c)) {
        assert(x.len() <= p.len());
        assert forall|j: int| 0 <= j < x.len() implies p[j] == x[j] by {
            if j < c {
                assert(p.subrange(0, c)[j] == x.subrange(0, c)[j]);
            } else {
                assert(p.skip(c).subrange(0, x.len() - c)[j - c] == x.skip(c)[j - c]);
            }
        }
        assert(p.subrange(0, x.len() as int) =~= x);
    }
    if starts_with(p, x) {
        assert forall|j: int| 0 <= j < c implies p.subrange(0, c)[j] == x.subrange(0, c)[j] by {
            assert(p.subrange(0, x.len() as int)[j] == x[j]);
        }
        assert(p.subrange(0, c) =~= x.subrange(0, c));
        assert forall|j: int| 0 <= j < x.len() - c implies p.skip(c).subrange(
            0,
            x.len() - c,
        )[j] == x.skip(c)[j] by {
            assert(p.subrange(0, x.len() as int)[j + c] == x[j + c]);
        }
        assert(p.skip(c).subrange(0, x.len() - c) =~= x.skip(c));
    }
}

/// Splitting one element off a path remainder.
pub proof fn lemma_skip_parts(p: Seq<u8>, c: int)
    requires
        0 <= c < p.len(),
    ensures
        p.skip(c)[0] == p[c],
        p.skip(c).skip(1) == p.skip(c + 1),
        p.skip(c).len() == p.len() - c,
{
    assert(p.skip(c).skip(1) =~= p.skip(c + 1));
}

/// Two non-empty paths are equal exactly when their heads and tails are.
pub proof fn lemma_head_split(q: Seq<u8>, x: Seq<u8>)
    requires
        q.len() >= 1,
        x.len() >= 1,
    ensures
        (q == x) <==> (q[0] == x[0] && q.skip(1) == x.skip(1)),
{
    lemma_split_eq(q, x, 1);
    if q[0] == x[0] {
        assert(q.subrange(0, 1) =~= x.subrange(0, 1));
    }
    if q.subrange(0, 1) == x.subrange(0, 1) {
        assert(q.subrange(0, 1)[0] == x.subrange(0, 1)[0]);
    }
}

/// A path extends a non-empty prefix exactly when it is non-empty, the
/// heads agree, and its tail extends the prefix's tail.
pub proof fn lemma_starts_head(q: Seq<u8>, x: Seq<u8>)
    requires
        x.len() >= 1,
    ensures
        starts_with(q, x) <==> (q.len() >= 1 && q[0] == x[0] && starts_with(
            q.skip(1),
            x.skip(1),
        )),
{
    if q.len() >= 1 {
        lemma_starts_split(q, x, 1);
        if q[0] == x[0] {
            assert(q.subrange(0, 1) =~= x.subrange(0, 1));
        }
        if q.subrange(0, 1) == x.subrange(0, 1) {
            assert(q.subrange(0, 1)[0] == x.subrange(0, 1)[0]);
        }
    }
}

/// Every sub-path of a valid nibble path is valid.
pub proof fn lemma_nibs_valid_subrange(s: Seq<u8>, a: int, b: int)
    requires
        nibs_valid(s),
        0 <= a <= b <= s.len(),
    ensures
        nibs_valid(s.subrange(a, b)),
{
    assert forall|i: int| 0 <= i < b - a implies s.subrange(a, b)[i] < 16 by {
        assert(s[a + i] < 16);
    }
}

/// The nibble path of any byte key is valid.
pub proof fn lemma_b2n_valid(b: Seq<u8>)
    ensures
        nibs_valid(bytes_to_nibbles(b)),
{
    assert forall|i: int| 0 <= i < 2 * b.len() implies bytes_to_nibbles(b)[i] < 16 by {
        if i % 2 == 0 {
            assert(b[i / 2] / 16 < 16);
        } else {
            assert(b[i / 2] % 16 < 16);
        }
    }
}

/// Distinct byte keys have distinct nibble paths.
pub proof fn lemma_b2n_injective(a: Seq<u8>, b: Seq<u8>)
    requires
        bytes_to_nibbles(a) == bytes_to_nibbles(b),
    ensures
        a == b,
{
    assert(bytes_to_nibbles(a).len() == 2 * a.len());
    assert(bytes_to_nibbles(b).len() == 2 * b.len());
    assert(a.len() == b.len());
    assert forall|i: int| 0 <= i < a.len() implies a[i] == b[i] by {
        assert((2 * i) % 2 == 0 && (2 * i) / 2 == i);
        assert((2 * i + 1) % 2 == 1 && (2 * i + 1) / 2 == i);
        assert(bytes_to_nibbles(a)[2 * i] == (a[i] / 16) as u8);
        assert(bytes_to_nibbles(a)[2 * i + 1] == (a[i] % 16) as u8);
        assert(bytes_to_nibbles(b)[2 * i] == (b[i] / 16) as u8);
        assert(bytes_to_nibbles(b)[2 * i + 1] == (b[i] % 16) as u8);
        assert(a[i] / 16 == b[i] / 16 && a[i] % 16 == b[i] % 16);
        assert(a[i] == 16 * (a[i] / 16) + a[i] % 16) by (nonlinear_arith);
        assert(b[i] == 16 * (b[i] / 16) + b[i] % 16) by (nonlinear_arith);
    }
    assert(a =~= b);
}

/// Comparing a path against a target that extends a known prefix: on the
/// prefix the comparison reduces to the remainders; off it they differ.
pub proof fn lemma_split_eq_any(p: Seq<u8>, rest: Seq<u8>, px: Seq<u8>, c: int)
    requires
        0 <= c,
        c == px.len(),
        c <= rest.len(),
        rest.subrange(0, c) == px,
    ensures
        starts_with(p, px) ==> ((p == rest) <==> (p.skip(c) == rest.skip(c))),
        !starts_with(p, px) ==> p != rest,
{
    if starts_with(p, px) {
        lemma_split_eq(p, rest, c);
    } else {
        if p == rest {
            assert(p.subrange(0, c) =~= rest.subrange(0, c));
        }
    }
}

/// A Merkle Patricia Trie over an in-memory backing store. The current
/// root node starts as `Empty` for a fresh trie; mutations rebuild the
/// touched path bottom-up.
#[derive(Debug)]
pub struct EthTrie {
    pub root: Node,
    pub db: MemoryDB,
}

impl EthTrie {
    /// The trie's in-memory structure is fully materialized and well
    /// formed.
    pub open spec fn wf(&self) -> bool {
        node_wf(self.root)
    }

    /// The value stored under the byte key `key`, or `None`.
    pub open spec fn spec_get(&self, key: Seq<u8>) -> Option<Seq<u8>> {
        node_get(self.root, bytes_to_nibbles(key))
    }

    /// A fresh, empty trie over the given store.
    pub fn new(db: MemoryDB) -> (r: EthTrie)
        ensures
            r.wf(),
            r.root is Empty,
            r.db == db,
            forall|k: Seq<u8>| r.spec_get(k) is None,
    {
        EthTrie { root: Node::Empty, db }
    }

    /// Looks up `key`: the stored value, or `None` when absent. On a
    /// fully materialized trie this never fails.
    pub fn get(&self, key: &[u8]) -> (r: Result<Option<Vec<u8>>, TrieError>)
        requires
            self.wf(),
        ensures
            r matches Ok(v) && opt_view(v) == self.spec_get(key@),
    {
        let nibs = Nibbles::from_bytes(key);
        proof {
            assert forall|i: int| 0 <= i < nibs@.len() implies nibs@[i] == bytes_to_nibbles(
                key@,
            )[i] by {
                if i % 2 == 0 {
                    assert(nibs@[2 * (i / 2)] == key@[i / 2] / 16);
                } else {
                    assert(nibs@[2 * (i / 2) + 1] == key@[i / 2] % 16);
                }
            }
            assert(nibs@ =~= bytes_to_nibbles(key@));
            assert(nibs@.skip(0) =~= nibs@);
        }
        Ok(get_at(&self.root, &nibs, 0))
    }
}

/// Walks the subtree at `n` along the remainder of `key` from `pos`,
/// returning a copy of the value found there.
fn get_at(n: &Node, key: &Nibbles, pos: usize) -> (r: Option<Vec<u8>>)
    requires
        node_wf(*n),
        key.wf(),
        pos <= key@.len(),
    ensures
        opt_view(r) == node_get(*n, key@.skip(pos as int)),
    decreases *n,
{
    let ghost rest = key@.skip(pos as int);
    match n {
        Node::Empty => None,
        Node::Leaf(l) => {
            let c = key.common_prefix_from(pos, &l.key);
            if c == key.len() - pos && c == l.key.len() {
                proof {
                    assert(rest =~= l.key@);
                }
                Some(vstd::slice::slice_to_vec(l.value.as_slice()))
            } else {
                proof {
                    if rest == l.key@ {
                        assert(rest.len() == l.key@.len());
                        assert(rest[c as int] == key@[pos + c]);
                        assert(false);
                    }
                }
                None
            }
        },
        Node::Extension(e) => {
            let plen = e.prefix.len();
            let c = key.common_prefix_from(pos, &e.prefix);
            if c == plen {
                proof {
                    assert forall|j: int| 0 <= j < plen implies rest.subrange(0, plen as int)[j]
                        == e.prefix@[j] by {
                        assert(key@[pos + j] == e.prefix@[j]);
                    }
                    assert(rest.subrange(0, plen as int) =~= e.prefix@);
                    assert(starts_with(rest, e.prefix@));
                    lemma_skip_skip(key@, pos as int, plen as int);
                }
                let klen = key.len();
                proof {
                    assert(pos + c <= klen);
                }
                get_at(&e.node, key, pos + c)
            } else {
                proof {
                    if starts_with(rest, e.prefix@) {
                        assert(rest.subrange(0, plen as int)[c as int] == e.prefix@[c as int]);
                        assert(rest[c as int] == key@[pos + c]);
                        assert(false);
                    }
                }
                None
            }
        },
        Node::Branch(b) => {
            if pos == key.len() {
                proof {
                    assert(rest.len() == 0);
                }
                match &b.value {
                    Some(v) => Some(vstd::slice::slice_to_vec(v.as_slice())),
                    None => None,
                }
            } else {
                let i = key.at(pos);
                proof {
                    lemma_skip_parts(key@, pos as int);
                    lemma_skip_skip(key@, pos as int, 1);
                    assert(rest[0] == key@[pos as int]);
                }
                get_at(&b.children[i as usize], key, pos + 1)
            }
        },
        Node::Hash(_) => {
            proof {
                assert(false);
            }
            None
        },
    }
}


/// The lookup behaviour of the branch built when a leaf with suffix `lk`
/// (holding `lv`) and a new entry with suffix `rest` (holding `v`) part
/// ways after `c` shared nibbles: `rest` now maps to `v`, `lk` still maps
/// to `lv`, and every other path maps to nothing.
proof fn lemma_leaf_split(
    r: Node,
    branch: Node,
    cs: Seq<Node>,
    bv: Option<Vec<u8>>,
    lk: Seq<u8>,
    lv: Seq<u8>,
    rest: Seq<u8>,
    v: Seq<u8>,
    c: int,
    p: Seq<u8>,
)
    requires
        0 <= c <= lk.len(),
        c <= rest.len(),
        rest != lk,
        nibs_valid(lk),
        nibs_valid(rest),
        nibs_valid(p),
        c < lk.len() && c < rest.len() ==> lk[c] != rest[c],
        rest.subrange(0, c) == lk.subrange(0, c),
        cs.len() == 16,
        c < lk.len() ==> (cs[lk[c] as int] matches Node::Leaf(l) && l.key@ == lk.skip(c + 1)
            && l.value@ == lv),
        c < rest.len() ==> (cs[rest[c] as int] matches Node::Leaf(l) && l.key@ == rest.skip(c + 1)
            && l.value@ == v),
        forall|j: int|
            0 <= j < 16 && (c >= lk.len() || j != lk[c]) && (c >= rest.len() || j != rest[c])
                ==> (#[trigger] cs[j]) is Empty,
        opt_view(bv) == (if c == rest.len() {
            Some(v)
        } else if c == lk.len() {
            Some(lv)
        } else {
            None::<Seq<u8>>
        }),
        (branch matches Node::Branch(bb) && bb.children@ == cs && bb.value == bv),
        c > 0 ==> (r matches Node::Extension(e) && e.prefix@ == rest.subrange(0, c) && e.node
            == branch),
        c == 0 ==> r == branch,
    ensures
        node_get(r, p) == (if p == rest {
            Some(v)
        } else if p == lk {
            Some(lv)
        } else {
            None::<Seq<u8>>
        }),
{
    let pre = rest.subrange(0, c);
    if c > 0 && !starts_with(p, pre) {
        if p == rest {
            assert(p.subrange(0, c) =~= rest.subrange(0, c));
        }
        if p == lk {
            assert(p.subrange(0, c) =~= lk.subrange(0, c));
        }
        assert(node_get(r, p) is None);
    } else {
        let q = p.skip(c);
        if c == 0 {
            assert(q =~= p);
            assert(p.subrange(0, c) =~= rest.subrange(0, c));
        } else {
            assert(p.subrange(0, c) == pre);
            assert(node_get(r, p) == node_get(branch, q));
        }
        assert(p.subrange(0, c) == lk.subrange(0, c));
        lemma_split_eq(p, rest, c);
        lemma_split_eq(p, lk, c);
        if q.len() == 0 {
            if c == rest.len() {
                assert(q =~= rest.skip(c));
            } else {
                assert(rest.skip(c).len() > 0);
            }
            if c == lk.len() {
                assert(q =~= lk.skip(c));
            } else {
                assert(lk.skip(c).len() > 0);
            }
        } else {
            let j = q[0] as int;
            assert(q =~= p.subrange(c, p.len() as int));
            lemma_nibs_valid_subrange(p, c, p.len() as int);
            assert(q[0] < 16);
            assert(node_get(branch, q) == node_get(cs[j], q.skip(1)));
            if c < rest.len() {
                lemma_skip_parts(rest, c);
                lemma_head_split(q, rest.skip(c));
            } else {
                assert(q != rest.skip(c));
            }
            if c < lk.len() {
                lemma_skip_parts(lk, c);
                lemma_head_split(q, lk.skip(c));
            } else {
                assert(q != lk.skip(c));
            }
            if c < lk.len() && j == lk[c] {
                assert(p != rest);
                assert(node_get(cs[j], q.skip(1)) == (if q.skip(1) == lk.skip(c + 1) {
                    Some(lv)
                } else {
                    None::<Seq<u8>>
                }));
            } else if c < rest.len() && j == rest[c] {
                assert(p != lk);
                assert(node_get(cs[j], q.skip(1)) == (if q.skip(1) == rest.skip(c + 1) {
                    Some(v)
                } else {
                    None::<Seq<u8>>
                }));
            } else {
                assert(cs[j] is Empty);
                assert(p != rest);
                assert(p != lk);
            }
        }
    }
}

/// The lookup behaviour of the branch built when an extension with prefix
/// `px` above `child` and a new entry with suffix `rest` (holding `v`)
/// part ways after `c` shared nibbles: `rest` now maps to `v`, paths that
/// extend `px` still reach `child`, and every other path maps to nothing.
proof fn lemma_ext_split(
    r: Node,
    branch: Node,
    cs: Seq<Node>,
    bv: Option<Vec<u8>>,
    px: Seq<u8>,
    child: Node,
    rest: Seq<u8>,
    v: Seq<u8>,
    c: int,
    p: Seq<u8>,
)
    requires
        0 <= c < px.len(),
        c <= rest.len(),
        nibs_valid(px),
        nibs_valid(rest),
        nibs_valid(p),
        c < rest.len() ==> px[c] != rest[c],
        rest.subrange(0, c) == px.subrange(0, c),
        cs.len() == 16,
        c + 1 == px.len() ==> cs[px[c] as int] == child,
        c + 1 < px.len() ==> (cs[px[c] as int] matches Node::Extension(e2) && e2.prefix@
            == px.skip(c + 1) && e2.node == child),
        c < rest.len() ==> (cs[rest[c] as int] matches Node::Leaf(l) && l.key@ == rest.skip(c + 1)
            && l.value@ == v),
        forall|j: int|
            0 <= j < 16 && j != px[c] && (c >= rest.len() || j != rest[c]) ==> (
            #[trigger] cs[j]) is Empty,
        opt_view(bv) == (if c == rest.len() {
            Some(v)
        } else {
            None::<Seq<u8>>
        }),
        (branch matches Node::Branch(bb) && bb.children@ == cs && bb.value == bv),
        c > 0 ==> (r matches Node::Extension(e) && e.prefix@ == rest.subrange(0, c) && e.node
            == branch),
        c == 0 ==> r == branch,
    ensures
        node_get(r, p) == (if p == rest {
            Some(v)
        } else if starts_with(p, px) {
            node_get(child, p.skip(px.len() as int))
        } else {
            None::<Seq<u8>>
        }),
{
    let pre = rest.subrange(0, c);
    if c > 0 && !starts_with(p, pre) {
        if p == rest {
            assert(p.subrange(0, c) =~= rest.subrange(0, c));
        }
        if starts_with(p, px) {
            lemma_starts_split(p, px, c);
            assert(p.subrange(0, c) == px.subrange(0, c));
        }
        assert(node_get(r, p) is None);
    } else {
        let q = p.skip(c);
        if c == 0 {
            assert(q =~= p);
            assert(p.subrange(0, c) =~= rest.subrange(0, c));
        } else {
            assert(p.subrange(0, c) == pre);
        }
        assert(p.subrange(0, c) == px.subrange(0, c));
        if c > 0 {
            assert(node_get(r, p) == node_get(branch, q));
        }
        lemma_split_eq(p, rest, c);
        lemma_starts_split(p, px, c);
        lemma_starts_head(q, px.skip(c));
        lemma_skip_parts(px, c);
        if q.len() == 0 {
            if c == rest.len() {
                assert(q =~= rest.skip(c));
            } else {
                assert(rest.skip(c).len() > 0);
            }
            assert(!starts_with(p, px));
        } else {
            let j = q[0] as int;
            assert(q =~= p.subrange(c, p.len() as int));
            lemma_nibs_valid_subrange(p, c, p.len() as int);
            assert(q[0] < 16);
            assert(node_get(branch, q) == node_get(cs[j], q.skip(1)));
            if c < rest.len() {
                lemma_skip_parts(rest, c);
                lemma_head_split(q, rest.skip(c));
            } else {
                assert(q != rest.skip(c));
            }
            if j == px[c] {
                assert(p != rest);
                if c + 1 == px.len() {
                    assert(px.skip(c).len() == 1);
                    assert(q.skip(1).subrange(0, 0) =~= px.skip(c).skip(1));
                    assert(starts_with(q.skip(1), px.skip(c).skip(1)));
                    assert(starts_with(p, px));
                    lemma_skip_skip(p, c, 1);
                    assert(node_get(cs[j], q.skip(1)) == node_get(child, p.skip(px.len() as int)));
                } else {
                    lemma_skip_parts(q, 0);
                    assert(node_get(cs[j], q.skip(1)) == (if starts_with(
                        q.skip(1),
                        px.skip(c + 1),
                    ) {
                        node_get(child, q.skip(1).skip(px.len() - c - 1))
                    } else {
                        None::<Seq<u8>>
                    }));
                    lemma_skip_skip(p, c, 1);
                    assert(q.skip(1) == p.skip(c + 1));
                    if starts_with(q.skip(1), px.skip(c + 1)) {
                        assert(starts_with(q, px.skip(c)));
                        assert(starts_with(p, px));
                        lemma_skip_skip(p, c + 1, px.len() - c - 1);
                        assert(q.skip(1).skip(px.len() - c - 1) == p.skip(px.len() as int));
                    } else {
                        assert(!starts_with(q, px.skip(c)));
                        assert(!starts_with(p, px));
                    }
                }
            } else if c < rest.len() && j == rest[c] {
                assert(!starts_with(p, px));
                assert(node_get(cs[j], q.skip(1)) == (if q.skip(1) == rest.skip(c + 1) {
                    Some(v)
                } else {
                    None::<Seq<u8>>
                }));
            } else {
                assert(cs[j] is Empty);
                assert(p != rest);
                assert(!starts_with(p, px));
            }
        }
    }
}

/// Rebuilds the subtree at `n` so that the remainder of `key` from `pos`
/// maps to `value`: the minimal replacement subtree is constructed at the
/// divergence point, and every other path keeps its old value.
fn insert_at(n: Node, key: &Nibbles, pos: usize, value: Vec<u8>) -> (r: Node)
    requires
        node_wf(n),
        key.wf(),
        pos <= key@.len(),
    ensures
        node_wf(r),
        !(r is Empty),
        n is Branch ==> r is Branch,
        forall|p: Seq<u8>|
            nibs_valid(p) ==> node_get(r, p) == (if p == key@.skip(pos as int) {
                Some(value@)
            } else {
                node_get(n, p)
            }),
    decreases n,
{
    let ghost n0 = n;
    let ghost rest = key@.skip(pos as int);
    let ghost v = value@;
    let klen = key.len();
    proof {
        assert(rest =~= key@.subrange(pos as int, klen as int));
        lemma_nibs_valid_subrange(key@, pos as int, klen as int);
    }
    match n {
        Node::Empty => {
            let r = Node::from_leaf(key.slice(pos, klen), value);
            proof {
                assert(key@.subrange(pos as int, klen as int) =~= rest);
            }
            r
        },
        Node::Leaf(l) => {
            let lf = *l;
            let ghost lk = lf.key@;
            let ghost lv = lf.value@;
            let llen = lf.key.len();
            let c = key.common_prefix_from(pos, &lf.key);
            proof {
                assert forall|i: int| 0 <= i < c implies rest.subrange(0, c as int)[i]
                    == lk.subrange(0, c as int)[i] by {
                    assert(key@[pos + i] == lk[i]);
                    assert(rest[i] == key@[pos + i]);
                }
                assert(rest.subrange(0, c as int) =~= lk.subrange(0, c as int));
            }
            if c == klen - pos && c == llen {
                let r = Node::from_leaf(key.slice(pos, klen), value);
                proof {
                    assert(rest =~= lk);
                    assert(key@.subrange(pos as int, klen as int) =~= rest);
                }
                r
            } else {
                proof {
                    if rest == lk {
                        assert(rest.len() == lk.len());
                        assert(rest[c as int] == key@[pos + c]);
                        assert(false);
                    }
                }
                let ghost pre = rest.subrange(0, c as int);
                let mut children = empty_children();
                let mut bvalue: Option<Vec<u8>> = None;
                if c == llen {
                    bvalue = Some(lf.value);
                } else {
                    let idx = lf.key.at(c);
                    let sub = lf.key.slice(c + 1, llen);
                    proof {
                        lemma_nibs_valid_subrange(lk, c + 1, llen as int);
                        assert(sub@ =~= lk.skip(c + 1));
                    }
                    children[idx as usize] = Node::from_leaf(sub, lf.value);
                }
                if c == klen - pos {
                    bvalue = Some(value);
                } else {
                    let idx = key.at(pos + c);
                    let sub = key.slice(pos + c + 1, klen);
                    proof {
                        assert(key@[pos + c] == rest[c as int]);
                        assert(sub@ =~= rest.skip(c + 1));
                    }
                    children[idx as usize] = Node::from_leaf(sub, value);
                }
                let ghost cs = children@;
                let ghost bv = bvalue;
                let branch = Node::from_branch(children, bvalue);
                let ghost gbranch = branch;
                proof {
                    assert(node_wf(branch)) by {
                        assert forall|j: int| 0 <= j < 16 implies node_wf(#[trigger] cs[j]) by {}
                    }
                }
                let r = if c > 0 {
                    let prefix = key.slice(pos, pos + c);
                    proof {
                        assert(prefix@ =~= pre);
                        lemma_nibs_valid_subrange(rest, 0, c as int);
                    }
                    Node::from_extension(prefix, branch)
                } else {
                    branch
                };
                proof {
                    assert forall|p: Seq<u8>| nibs_valid(p) implies node_get(r, p) == (if p
                        == rest {
                        Some(v)
                    } else {
                        node_get(n0, p)
                    }) by {
                        lemma_leaf_split(r, gbranch, cs, bv, lk, lv, rest, v, c as int, p);
                    }
                }
                r
            }
        },
        Node::Extension(e) => {
            let ex = *e;
            let ghost px = ex.prefix@;
            let ghost child0 = ex.node;
            let plen = ex.prefix.len();
            let c = key.common_prefix_from(pos, &ex.prefix);
            proof {
                assert forall|i: int| 0 <= i < c implies rest.subrange(0, c as int)[i]
                    == px.subrange(0, c as int)[i] by {
                    assert(key@[pos + i] == px[i]);
                    assert(rest[i] == key@[pos + i]);
                }
                assert(rest.subrange(0, c as int) =~= px.subrange(0, c as int));
            }
            if c == plen {
                proof {
                    assert(rest.subrange(0, plen as int) =~= px);
                    assert(starts_with(rest, px));
                    lemma_skip_skip(key@, pos as int, plen as int);
                }
                let child2 = insert_at(ex.node, key, pos + c, value);
                let ghost ch2 = child2;
                let r = Node::from_extension(ex.prefix, child2);
                proof {
                    assert forall|p: Seq<u8>| nibs_valid(p) implies node_get(r, p) == (if p
                        == rest {
                        Some(v)
                    } else {
                        node_get(n0, p)
                    }) by {
                        lemma_split_eq_any(p, rest, px, c as int);
                        if starts_with(p, px) {
                            lemma_nibs_valid_subrange(p, plen as int, p.len() as int);
                            assert(p.skip(plen as int) =~= p.subrange(plen as int, p.len() as int));
                            assert(node_get(r, p) == node_get(ch2, p.skip(plen as int)));
                            assert(node_get(n0, p) == node_get(child0, p.skip(plen as int)));
                        } else {
                            assert(p != rest);
                        }
                    }
                }
                r
            } else {
                let ghost pre = rest.subrange(0, c as int);
                let idx_ext = ex.prefix.at(c);
                let mut children = empty_children();
                let sub_child = if c + 1 == plen {
                    ex.node
                } else {
                    let sub = ex.prefix.slice(c + 1, plen);
                    proof {
                        lemma_nibs_valid_subrange(px, c + 1, plen as int);
                        assert(sub@ =~= px.skip(c + 1));
                    }
                    Node::from_extension(sub, ex.node)
                };
                children[idx_ext as usize] = sub_child;
                let mut bvalue: Option<Vec<u8>> = None;
                if c == klen - pos {
                    bvalue = Some(value);
                } else {
                    let idx = key.at(pos + c);
                    let sub = key.slice(pos + c + 1, klen);
                    proof {
                        assert(key@[pos + c] == rest[c as int]);
                        assert(sub@ =~= rest.skip(c + 1));
                        assert(idx as int != idx_ext as int);
                    }
                    children[idx as usize] = Node::from_leaf(sub, value);
                }
                let ghost cs = children@;
                let ghost bv = bvalue;
                let branch = Node::from_branch(children, bvalue);
                let ghost gbranch = branch;
                proof {
                    assert(node_wf(branch)) by {
                        assert forall|j: int| 0 <= j < 16 implies node_wf(#[trigger] cs[j]) by {}
                    }
                }
                let r = if c > 0 {
                    let prefix = key.slice(pos, pos + c);
                    proof {
                        assert(prefix@ =~= pre);
                        lemma_nibs_valid_subrange(rest, 0, c as int);
                    }
                    Node::from_extension(prefix, branch)
                } else {
                    branch
                };
                proof {
                    assert forall|p: Seq<u8>| nibs_valid(p) implies node_get(r, p) == (if p
                        == rest {
                        Some(v)
                    } else {
                        node_get(n0, p)
                    }) by {
                        lemma_ext_split(r, gbranch, cs, bv, px, child0, rest, v, c as int, p);
                    }
                }
                r
            }
        },
        Node::Branch(b) => {
            let mut bb = *b;
            if pos == klen {
                bb.value = Some(value);
                let r = Node::from_branch(bb.children, bb.value);
                proof {
                    assert(rest.len() == 0);
                    assert forall|p: Seq<u8>| nibs_valid(p) implies node_get(r, p) == (if p
                        == rest {
                        Some(v)
                    } else {
                        node_get(n0, p)
                    }) by {
                        if p.len() == 0 {
                            assert(p =~= rest);
                        } else {
                            assert(p != rest);
                        }
                    }
                }
                r
            } else {
                let i = key.at(pos);
                proof {
                    lemma_skip_parts(key@, pos as int);
                    assert(rest[0] == key@[pos as int]);
                }
                let ghost ch0 = bb.children@;
                let child = bb.children.remove(i as usize);
                proof {
                    assert(child == ch0[i as int]);
                    assert(decreases_to!(n0 => child));
                }
                let child2 = insert_at(child, key, pos + 1, value);
                let ghost ch2 = child2;
                bb.children.insert(i as usize, child2);
                proof {
                    assert(bb.children@ =~= ch0.update(i as int, ch2));
                }
                let r = Node::from_branch(bb.children, bb.value);
                proof {
                    assert(node_wf(r)) by {
                        assert forall|j: int| 0 <= j < 16 implies node_wf(
                            #[trigger] ch0.update(i as int, ch2)[j],
                        ) by {
                            if j != i as int {
                                assert(ch0.update(i as int, ch2)[j] == ch0[j]);
                            }
                        }
                    }
                    assert forall|p: Seq<u8>| nibs_valid(p) implies node_get(r, p) == (if p
                        == rest {
                        Some(v)
                    } else {
                        node_get(n0, p)
                    }) by {
                        if p.len() == 0 {
                            assert(p != rest);
                        } else {
                            let j = p[0] as int;
                            lemma_nibs_valid_subrange(p, 1, p.len() as int);
                            assert(p.skip(1) =~= p.subrange(1, p.len() as int));
                            lemma_head_split(p, rest);
                            lemma_skip_parts(key@, pos as int);
                            assert(rest.skip(1) == key@.skip(pos + 1));
                            if j == i as int {
                                assert(node_get(r, p) == node_get(ch2, p.skip(1)));
                            } else {
                                assert(ch0.update(i as int, ch2)[j] == ch0[j]);
                                assert(p != rest);
                            }
                        }
                    }
                }
                r
            }
        },
        Node::Hash(_) => {
            proof {
                assert(false);
            }
            Node::Empty
        },
    }
}

/// Concatenation against a path: the path equals `a + b` exactly when it
/// extends `a` and its remainder is `b`; it extends `a + b` exactly when
/// it extends `a` and its remainder extends `b`.
pub proof fn lemma_concat_parts(p: Seq<u8>, a: Seq<u8>, b: Seq<u8>)
    ensures
        (p == a + b) <==> (starts_with(p, a) && p.skip(a.len() as int) == b),
        starts_with(p, a + b) <==> (starts_with(p, a) && starts_with(p.skip(a.len() as int), b)),
{
    let al = a.len() as int;
    let bl = b.len() as int;
    assert((a + b).len() == al + bl);
    if starts_with(p, a) && p.skip(al) == b {
        assert(p.skip(al).len() == p.len() - al);
        assert forall|j: int| 0 <= j < al + bl implies p[j] == (a + b)[j] by {
            if j < al {
                assert(p.subrange(0, al)[j] == a[j]);
            } else {
                assert(p.skip(al)[j - al] == b[j - al]);
            }
        }
        assert(p =~= a + b);
    }
    if p == a + b {
        assert(p.subrange(0, al) =~= a);
        assert(p.skip(al) =~= b);
    }
    if starts_with(p, a) && starts_with(p.skip(al), b) {
        assert forall|j: int| 0 <= j < al + bl implies p.subrange(0, al + bl)[j] == (a + b)[j] by {
            if j < al {
                assert(p.subrange(0, al)[j] == a[j]);
            } else {
                assert(p.skip(al).subrange(0, bl)[j - al] == b[j - al]);
            }
        }
        assert(p.subrange(0, al + bl) =~= a + b);
    }
    if starts_with(p, a + b) {
        assert forall|j: int| 0 <= j < al implies p.subrange(0, al)[j] == a[j] by {
            assert(p.subrange(0, al + bl)[j] == (a + b)[j]);
        }
        assert(p.subrange(0, al) =~= a);
        assert forall|j: int| 0 <= j < bl implies p.skip(al).subrange(0, bl)[j] == b[j] by {
            assert(p.subrange(0, al + bl)[j + al] == (a + b)[j + al]);
        }
        assert(p.skip(al).subrange(0, bl) =~= b);
    }
}

/// Concatenating valid nibble paths yields a valid nibble path.
pub proof fn lemma_nibs_valid_concat(a: Seq<u8>, b: Seq<u8>)
    requires
        nibs_valid(a),
        nibs_valid(b),
    ensures
        nibs_valid(a + b),
{
    assert forall|i: int| 0 <= i < a.len() + b.len() implies (a + b)[i] < 16 by {
        if i < a.len() {
            assert((a + b)[i] == a[i]);
        } else {
            assert((a + b)[i] == b[i - a.len()]);
        }
    }
}

/// Re-wraps `child` under the extension prefix `prefix`, merging with a
/// leaf or extension child and dissolving around an empty child, so that
/// the result observes the same paths while keeping extensions maximal.
fn merge_ext(prefix: Nibbles, child: Node) -> (r: Node)
    requires
        nibs_valid(prefix@),
        prefix@.len() >= 1,
        node_wf(child),
    ensures
        node_wf(r),
        forall|p: Seq<u8>|
            nibs_valid(p) ==> node_get(r, p) == (if starts_with(p, prefix@) {
                node_get(child, p.skip(prefix@.len() as int))
            } else {
                None::<Seq<u8>>
            }),
{
    let ghost px = prefix@;
    let ghost child0 = child;
    match child {
        Node::Empty => {
            proof {
                assert forall|p: Seq<u8>| nibs_valid(p) implies node_get(Node::Empty, p) == (
                if starts_with(p, px) {
                    node_get(child0, p.skip(px.len() as int))
                } else {
                    None::<Seq<u8>>
                }) by {}
            }
            Node::Empty
        },
        Node::Leaf(l2) => {
            let lf = *l2;
            let ghost lk = lf.key@;
            let nk = prefix.concat(&lf.key);
            let r = Node::from_leaf(nk, lf.value);
            proof {
                lemma_nibs_valid_concat(px, lk);
                assert forall|p: Seq<u8>| nibs_valid(p) implies node_get(r, p) == (if starts_with(
                    p,
                    px,
                ) {
                    node_get(child0, p.skip(px.len() as int))
                } else {
                    None::<Seq<u8>>
                }) by {
                    lemma_concat_parts(p, px, lk);
                }
            }
            r
        },
        Node::Extension(e2) => {
            let ex2 = *e2;
            let ghost p2 = ex2.prefix@;
            let ghost inner = ex2.node;
            let np = prefix.concat(&ex2.prefix);
            let r = Node::from_extension(np, ex2.node);
            proof {
                lemma_nibs_valid_concat(px, p2);
                assert forall|p: Seq<u8>| nibs_valid(p) implies node_get(r, p) == (if starts_with(
                    p,
                    px,
                ) {
                    node_get(child0, p.skip(px.len() as int))
                } else {
                    None::<Seq<u8>>
                }) by {
                    lemma_concat_parts(p, px, p2);
                    if starts_with(p, px + p2) {
                        lemma_skip_skip(p, px.len() as int, p2.len() as int);
                        assert(node_get(r, p) == node_get(inner, p.skip((px + p2).len() as int)));
                    }
                }
            }
            r
        },
        Node::Branch(_) => {
            let r = Node::from_extension(prefix, child);
            r
        },
        Node::Hash(_) => {
            proof {
                assert(false);
            }
            Node::Empty
        },
    }
}

/// Applies the shrink rules to a branch after a deletion: no children and
/// no value becomes `Empty`; only a value becomes a leaf with an empty
/// path; exactly one child and no value collapses into that child,
/// re-keyed by its slot nibble; anything else stays a branch.
fn normalize_branch(bb: BranchNode) -> (r: Node)
    requires
        bb.children@.len() == 16,
        forall|t: int| 0 <= t < 16 ==> node_wf(#[trigger] bb.children@[t]),
    ensures
        node_wf(r),
        forall|p: Seq<u8>|
            nibs_valid(p) ==> node_get(r, p) == node_get(Node::Branch(Box::new(bb)), p),
{
    let ghost bb0 = bb;
    let mut bb = bb;
    let mut count: usize = 0;
    let mut idx: usize = 0;
    let mut j: usize = 0;
    while j < 16
        invariant
            j <= 16,
            bb == bb0,
            bb.children@.len() == 16,
            count <= 2,
            idx < 16,
            count == 0 ==> forall|t: int| 0 <= t < j ==> (#[trigger] bb.children@[t]) is Empty,
            count == 1 ==> idx < j && !(bb.children@[idx as int] is Empty) && forall|t: int|
                0 <= t < j && t != idx ==> (#[trigger] bb.children@[t]) is Empty,
        decreases 16 - j,
    {
        let occupied = match &bb.children[j] {
            Node::Empty => false,
            _ => true,
        };
        if occupied && count < 2 {
            count += 1;
            idx = j;
        }
        j += 1;
    }
    if count == 0 {
        match bb.value {
            None => {
                proof {
                    assert forall|p: Seq<u8>| nibs_valid(p) implies node_get(Node::Empty, p)
                        == node_get(Node::Branch(Box::new(bb0)), p) by {
                        if p.len() > 0 {
                            assert(bb0.children@[p[0] as int] is Empty);
                            assert(node_get(Node::Branch(Box::new(bb0)), p) == node_get(
                                bb0.children@[p[0] as int],
                                p.skip(1),
                            ));
                            assert(node_get(bb0.children@[p[0] as int], p.skip(1)) is None);
                        }
                    }
                }
                Node::Empty
            },
            Some(v) => {
                let r = Node::from_leaf(Nibbles::new(), v);
                proof {
                    assert forall|p: Seq<u8>| nibs_valid(p) implies node_get(r, p) == node_get(
                        Node::Branch(Box::new(bb0)),
                        p,
                    ) by {
                        if p.len() == 0 {
                            assert(p =~= Seq::<u8>::empty());
                        } else {
                            assert(bb0.children@[p[0] as int] is Empty);
                            assert(node_get(Node::Branch(Box::new(bb0)), p) == node_get(
                                bb0.children@[p[0] as int],
                                p.skip(1),
                            ));
                            assert(node_get(bb0.children@[p[0] as int], p.skip(1)) is None);
                        }
                    }
                }
                r
            },
        }
    } else if count == 1 && bb.value.is_none() {
        let child = bb.children.remove(idx);
        let pref = Nibbles::prepend(idx as u8, &Nibbles::new());
        proof {
            assert(pref@ =~= seq![idx as u8]);
            assert(child == bb0.children@[idx as int]);
        }
        let r = merge_ext(pref, child);
        proof {
            assert forall|p: Seq<u8>| nibs_valid(p) implies node_get(r, p) == node_get(
                Node::Branch(Box::new(bb0)),
                p,
            ) by {
                if p.len() == 0 {
                    assert(!starts_with(p, seq![idx as u8]));
                } else {
                    if p[0] == idx as u8 {
                        assert(p.subrange(0, 1) =~= seq![idx as u8]);
                        assert(starts_with(p, seq![idx as u8]));
                        assert(node_get(r, p) == node_get(child, p.skip(1)));
                        assert(node_get(Node::Branch(Box::new(bb0)), p) == node_get(
                            bb0.children@[p[0] as int],
                            p.skip(1),
                        ));
                    } else {
                        if starts_with(p, seq![idx as u8]) {
                            assert(p.subrange(0, 1)[0] == idx as u8);
                            assert(false);
                        }
                        assert(bb0.children@[p[0] as int] is Empty);
                    }
                }
            }
        }
        r
    } else {
        let r = Node::from_branch(bb.children, bb.value);
        r
    }
}

/// Removes the remainder of `key` from `pos` from the subtree at `n`,
/// shrinking the structure bottom-up; reports whether a value was
/// actually removed. Every other path keeps its old value.
fn delete_at(n: Node, key: &Nibbles, pos: usize) -> (res: (Node, bool))
    requires
        node_wf(n),
        key.wf(),
        pos <= key@.len(),
    ensures
        node_wf(res.0),
        res.1 <==> node_get(n, key@.skip(pos as int)) is Some,
        forall|p: Seq<u8>|
            nibs_valid(p) ==> node_get(res.0, p) == (if p == key@.skip(pos as int) {
                None::<Seq<u8>>
            } else {
                node_get(n, p)
            }),
    decreases n,
{
    let ghost n0 = n;
    let ghost rest = key@.skip(pos as int);
    let klen = key.len();
    proof {
        assert(rest =~= key@.subrange(pos as int, klen as int));
        lemma_nibs_valid_subrange(key@, pos as int, klen as int);
    }
    match n {
        Node::Empty => (Node::Empty, false),
        Node::Leaf(l) => {
            let lf = *l;
            let ghost lk = lf.key@;
            let llen = lf.key.len();
            let c = key.common_prefix_from(pos, &lf.key);
            if c == klen - pos && c == llen {
                proof {
                    assert(rest =~= lk);
                }
                (Node::Empty, true)
            } else {
                proof {
                    if rest == lk {
                        assert(rest.len() == lk.len());
                        assert(rest[c as int] == key@[pos + c]);
                        assert(false);
                    }
                }
                let r = Node::from_leaf(lf.key, lf.value);
                (r, false)
            }
        },
        Node::Extension(e) => {
            let ex = *e;
            let ghost px = ex.prefix@;
            let ghost child0 = ex.node;
            let plen = ex.prefix.len();
            let c = key.common_prefix_from(pos, &ex.prefix);
            if c == plen {
                proof {
                    assert forall|i: int| 0 <= i < plen implies rest.subrange(0, plen as int)[i]
                        == px[i] by {
                        assert(key@[pos + i] == px[i]);
                        assert(rest[i] == key@[pos + i]);
                    }
                    assert(rest.subrange(0, plen as int) =~= px);
                    assert(starts_with(rest, px));
                    lemma_skip_skip(key@, pos as int, plen as int);
                }
                let (child2, found) = delete_at(ex.node, key, pos + c);
                let ghost ch2 = child2;
                let r = merge_ext(ex.prefix, child2);
                proof {
                    assert forall|p: Seq<u8>| nibs_valid(p) implies node_get(r, p) == (if p
                        == rest {
                        None::<Seq<u8>>
                    } else {
                        node_get(n0, p)
                    }) by {
                        lemma_split_eq_any(p, rest, px, plen as int);
                        if starts_with(p, px) {
                            lemma_nibs_valid_subrange(p, plen as int, p.len() as int);
                            assert(p.skip(plen as int) =~= p.subrange(plen as int, p.len() as int));
                            assert(node_get(r, p) == node_get(ch2, p.skip(plen as int)));
                            assert(node_get(n0, p) == node_get(child0, p.skip(plen as int)));
                        } else {
                            assert(p != rest);
                        }
                    }
                }
                (r, found)
            } else {
                proof {
                    if starts_with(rest, px) {
                        assert(rest.subrange(0, plen as int)[c as int] == px[c as int]);
                        assert(rest[c as int] == key@[pos + c]);
                        assert(false);
                    }
                }
                let r = Node::from_extension(ex.prefix, ex.node);
                (r, false)
            }
        },
        Node::Branch(b) => {
            let mut bb = *b;
            if pos == klen {
                proof {
                    assert(rest.len() == 0);
                }
                let found = bb.value.is_some();
                bb.value = None;
                let ghost bb1 = bb;
                let r = normalize_branch(bb);
                proof {
                    assert forall|p: Seq<u8>| nibs_valid(p) implies node_get(r, p) == (if p
                        == rest {
                        None::<Seq<u8>>
                    } else {
                        node_get(n0, p)
                    }) by {
                        assert(node_get(r, p) == node_get(Node::Branch(Box::new(bb1)), p));
                        if p.len() == 0 {
                            assert(p =~= rest);
                        } else {
                            assert(p != rest);
                        }
                    }
                }
                (r, found)
            } else {
                let i = key.at(pos);
                proof {
                    lemma_skip_parts(key@, pos as int);
                    assert(rest[0] == key@[pos as int]);
                }
                let ghost ch0 = bb.children@;
                let child = bb.children.remove(i as usize);
                proof {
                    assert(child == ch0[i as int]);
                    assert(decreases_to!(n0 => child));
                }
                let (child2, found) = delete_at(child, key, pos + 1);
                let ghost ch2 = child2;
                bb.children.insert(i as usize, child2);
                proof {
                    assert(bb.children@ =~= ch0.update(i as int, ch2));
                    assert forall|t: int| 0 <= t < 16 implies node_wf(
                        #[trigger] bb.children@[t],
                    ) by {
                        if t != i as int {
                            assert(bb.children@[t] == ch0[t]);
                        }
                    }
                }
                let ghost bb1 = bb;
                let r = normalize_branch(bb);
                proof {
                    assert forall|p: Seq<u8>| nibs_valid(p) implies node_get(r, p) == (if p
                        == rest {
                        None::<Seq<u8>>
                    } else {
                        node_get(n0, p)
                    }) by {
                        assert(node_get(r, p) == node_get(Node::Branch(Box::new(bb1)), p));
                        if p.len() == 0 {
                            assert(p != rest);
                        } else {
                            let j = p[0] as int;
                            lemma_nibs_valid_subrange(p, 1, p.len() as int);
                            assert(p.skip(1) =~= p.subrange(1, p.len() as int));
                            lemma_head_split(p, rest);
                            lemma_skip_parts(key@, pos as int);
                            assert(rest.skip(1) == key@.skip(pos + 1));
                            if j == i as int {
                                assert(node_get(Node::Branch(Box::new(bb1)), p) == node_get(
                                    ch2,
                                    p.skip(1),
                                ));
                            } else {
                                assert(bb1.children@[j] == ch0[j]);
                                assert(p != rest);
                            }
                        }
                    }
                    assert(node_get(n0, rest) == node_get(ch0[i as int], rest.skip(1)));
                }
                (r, found)
            }
        },
        Node::Hash(_) => {
            proof {
                assert(false);
            }
            (Node::Empty, false)
        },
    }
}

impl EthTrie {
    /// Stores `value` under `key`, overwriting any existing value for the
    /// same key; every other key keeps its binding, and the store is
    /// untouched. On a fully materialized trie this never fails.
    pub fn insert(&mut self, key: &[u8], value: Vec<u8>) -> (r: Result<(), TrieError>)
        requires
            old(self).wf(),
        ensures
            final(self).wf(),
            r is Ok,
            final(self).spec_get(key@) == Some(value@),
            forall|k: Seq<u8>| k != key@ ==> final(self).spec_get(k) == old(self).spec_get(k),
            final(self).db == old(self).db,
    {
        let nibs = Nibbles::from_bytes(key);
        proof {
            assert forall|i: int| 0 <= i < nibs@.len() implies nibs@[i] == bytes_to_nibbles(
                key@,
            )[i] by {
                if i % 2 == 0 {
                    assert(nibs@[2 * (i / 2)] == key@[i / 2] / 16);
                } else {
                    assert(nibs@[2 * (i / 2) + 1] == key@[i / 2] % 16);
                }
            }
            assert(nibs@ =~= bytes_to_nibbles(key@));
        }
        let mut root = Node::Empty;
        core::mem::swap(&mut self.root, &mut root);
        let new_root = insert_at(root, &nibs, 0, value);
        self.root = new_root;
        proof {
            assert(nibs@.skip(0) =~= nibs@);
            lemma_b2n_valid(key@);
            assert(self.spec_get(key@) == Some(value@));
            assert forall|k: Seq<u8>| k != key@ implies self.spec_get(k) == old(self).spec_get(
                k,
            ) by {
                lemma_b2n_valid(k);
                if bytes_to_nibbles(k) == nibs@ {
                    lemma_b2n_injective(k, key@);
                }
            }
        }
        Ok(())
    }

    /// Removes `key`'s binding if present, reporting whether a value was
    /// removed; deleting an absent key is a no-op, not an error. Every
    /// other key keeps its binding, and the store is untouched. On a
    /// fully materialized trie this never fails.
    pub fn delete(&mut self, key: &[u8]) -> (r: Result<bool, TrieError>)
        requires
            old(self).wf(),
        ensures
            final(self).wf(),
            r matches Ok(found) && (found <==> old(self).spec_get(key@) is Some),
            final(self).spec_get(key@) is None,
            forall|k: Seq<u8>| k != key@ ==> final(self).spec_get(k) == old(self).spec_get(k),
            final(self).db == old(self).db,
    {
        let nibs = Nibbles::from_bytes(key);
        proof {
            assert forall|i: int| 0 <= i < nibs@.len() implies nibs@[i] == bytes_to_nibbles(
                key@,
            )[i] by {
                if i % 2 == 0 {
                    assert(nibs@[2 * (i / 2)] == key@[i / 2] / 16);
                } else {
                    assert(nibs@[2 * (i / 2) + 1] == key@[i / 2] % 16);
                }
            }
            assert(nibs@ =~= bytes_to_nibbles(key@));
        }
        let mut root = Node::Empty;
        core::mem::swap(&mut self.root, &mut root);
        let (new_root, found) = delete_at(root, &nibs, 0);
        self.root = new_root;
        proof {
            assert(nibs@.skip(0) =~= nibs@);
            lemma_b2n_valid(key@);
            assert forall|k: Seq<u8>| k != key@ implies self.spec_get(k) == old(self).spec_get(
                k,
            ) by {
                lemma_b2n_valid(k);
                if bytes_to_nibbles(k) == nibs@ {
                    lemma_b2n_injective(k, key@);
                }
            }
        }
        Ok(found)
    }
}

impl EthTrie {
    /// The digest that commits to the current contents: the hash of the
    /// root node's canonical serialization.
    pub open spec fn spec_root_digest(&self) -> Seq<u8> {
        keccak_of(node_encoded(self.root))
    }

    /// Computes the root digest committing to the current contents: every
    /// live node is canonically encoded, hashed nodes are persisted
    /// digest→encoding, and the digest of the root's own encoding is
    /// returned and persisted too. The trie's contents are unchanged; the
    /// store only gains content-addressed entries. A fresh empty trie
    /// yields the fixed digest of the canonical empty encoding.
    pub fn root(&mut self) -> (r: Result<Vec<u8>, TrieError>)
        requires
            old(self).wf(),
        ensures
            final(self).wf(),
            final(self).root == old(self).root,
            r matches Ok(d) && d@ == old(self).spec_root_digest(),
            db_extends(final(self).db, old(self).db),
            final(self).db.spec_get(old(self).spec_root_digest()) == Some(
                node_encoded(old(self).root),
            ),
            committed(final(self).db, old(self).root),
    {
        let enc = commit_node(&self.root, &mut self.db);
        let ghost db_mid = self.db;
        let ghost ed = enc@;
        let d = keccak(enc.as_slice());
        let d2 = vstd::slice::slice_to_vec(d.as_slice());
        self.db.insert(d2, enc);
        proof {
            assert(self.db.spec_get(keccak_of(ed)) == Some(ed));
            assert(db_extends(self.db, db_mid));
            lemma_db_extends_trans(old(self).db, db_mid, self.db);
            lemma_committed_extends(db_mid, self.db, self.root);
        }
        Ok(d)
    }
}

/// Delete/insert inverse, contents part: after inserting two distinct
/// keys and then deleting the first, the first key is unbound and the
/// second still holds its value. The intermediate states are
/// characterized exactly as `insert` and `delete` promise them.
pub proof fn lemma_delete_insert_contents(
    t0: EthTrie,
    t1: EthTrie,
    t2: EthTrie,
    t3: EthTrie,
    k1: Seq<u8>,
    v1: Seq<u8>,
    k2: Seq<u8>,
    v2: Seq<u8>,
)
    requires
        k1 != k2,
        t1.spec_get(k1) == Some(v1),
        forall|k: Seq<u8>| k != k1 ==> t1.spec_get(k) == t0.spec_get(k),
        t2.spec_get(k2) == Some(v2),
        forall|k: Seq<u8>| k != k2 ==> t2.spec_get(k) == t1.spec_get(k),
        t3.spec_get(k1) is None,
        forall|k: Seq<u8>| k != k1 ==> t3.spec_get(k) == t2.spec_get(k),
    ensures
        t3.spec_get(k1) is None,
        t3.spec_get(k2) == Some(v2),
{
}

/// The empty trie's root digest is the fixed digest of the canonical
/// encoding of an `Empty` node, a single empty-string marker byte.
pub proof fn lemma_empty_root(t: EthTrie)
    requires
        t.root is Empty,
    ensures
        t.spec_root_digest() == keccak_of(seq![128u8]),
{
}

} // verus!
