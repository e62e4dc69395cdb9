use vstd::prelude::*;

use crate::db::MemoryDB;
use crate::db::bytes_eq;
use crate::encoding::commit_node;
use crate::encoding::node_encoded;
use crate::encoding::ref_is_digest;
use crate::errors::TrieError;
use crate::hashing::keccak;
use crate::hashing::keccak_of;
use crate::codec::parse_header;
use crate::codec::rlp_parse_header;
use crate::nibbles::Nibbles;
use crate::nibbles::hp_decode;
use crate::nibbles::nibs_valid;
use crate::node::Node;
use crate::node::node_wf;
use crate::node::starts_with;
use crate::trie::EthTrie;
use crate::trie::bytes_to_nibbles;
use crate::trie::lemma_skip_parts;
use crate::trie::lemma_skip_skip;
use crate::trie::opt_view;

verus! {

/// The byte-string views of a sequence of owned byte vectors.
pub open spec fn views(s: Seq<Vec<u8>>) -> Seq<Seq<u8>> {
    Seq::new(s.len(), |i: int| s[i]@)
}

/// The mathematical shape of a node as canonical bytes describe it:
/// what `decode_node` rebuilds, with paths and values as plain byte
/// sequences. A digest reference stays a digest.
pub enum SpecNode {
    Empty,
    Leaf { key: Seq<u8>, value: Seq<u8> },
    Extension { prefix: Seq<u8>, child: Box<SpecNode> },
    Branch { children: Seq<SpecNode>, value: Option<Seq<u8>> },
    Hash { digest: Seq<u8> },
}

/// The shapes of the first `k` children of a branch node.
pub open spec fn abs_children(cs: Seq<Node>, k: int) -> Seq<SpecNode>
    decreases cs, 1int, k,
{
    if k <= 0 || k > cs.len() {
        Seq::empty()
    } else {
        abs_children(cs, k - 1).push(abs(cs[k - 1]))
    }
}

/// The mathematical shape of an in-memory node.
pub open spec fn abs(n: Node) -> SpecNode
    decreases n, 0int, 0int,
{
    match n {
        Node::Empty => SpecNode::Empty,
        Node::Leaf(l) => SpecNode::Leaf { key: l.key@, value: l.value@ },
        Node::Extension(e) => SpecNode::Extension {
            prefix: e.prefix@,
            child: Box::new(abs(e.node)),
        },
        Node::Branch(b) => SpecNode::Branch {
            children: abs_children(b.children@, b.children@.len() as int),
            value: opt_view(b.value),
        },
        Node::Hash(h) => SpecNode::Hash { digest: h.hash@ },
    }
}

/// The item boundaries of a list payload running from `off` to the end of
/// `b`: each item's start, header length, payload length and kind, or
/// `None` when an item is malformed or empty.
pub open spec fn spec_items(b: Seq<u8>, off: int) -> Option<Seq<(int, int, int, bool)>>
    decreases b.len() - off,
{
    if off >= b.len() {
        Some(Seq::empty())
    } else {
        match parse_header(b.skip(off)) {
            None => None,
            Some((l, h, p)) => if h + p <= 0 || off + h + p > b.len() {
                None
            } else {
                match spec_items(b, off + h + p) {
                    None => None,
                    Some(rest) => Some(seq![(off, h, p, l)] + rest),
                }
            },
        }
    }
}

/// The shape a child-reference item denotes: a nested list is an inlined
/// node, a 32-byte string is a digest reference, anything else is
/// malformed.
pub open spec fn spec_ref(b: Seq<u8>, it: (int, int, int, bool)) -> Option<SpecNode>
    decreases b.len(), 2int, 0int,
{
    if it.0 < 1 || it.1 + it.2 < 1 || it.0 + it.1 + it.2 > b.len() {
        None
    } else if it.3 {
        spec_decode(b.subrange(it.0, it.0 + it.1 + it.2))
    } else if it.2 == 32 {
        Some(SpecNode::Hash { digest: b.subrange(it.0 + it.1, it.0 + it.1 + it.2) })
    } else {
        None
    }
}

/// The shape a branch slot denotes: the empty string is an empty slot,
/// anything else is a child reference.
pub open spec fn spec_slot(b: Seq<u8>, it: (int, int, int, bool)) -> Option<SpecNode>
    decreases b.len(), 2int, 1int,
{
    if !it.3 && it.2 == 0 {
        Some(SpecNode::Empty)
    } else {
        spec_ref(b, it)
    }
}

/// The shapes of the first `k` branch slots.
pub open spec fn spec_children(b: Seq<u8>, items: Seq<(int, int, int, bool)>, k: int) -> Option<
    Seq<SpecNode>,
>
    decreases b.len(), 2int, 1int + k,
{
    if k <= 0 || k > items.len() {
        Some(Seq::empty())
    } else {
        match spec_children(b, items, k - 1) {
            None => None,
            Some(cs) => match spec_slot(b, items[k - 1]) {
                None => None,
                Some(c) => Some(cs.push(c)),
            },
        }
    }
}

/// The node shape that canonical bytes `b` describe, or `None` when they
/// are malformed: the empty string marker stands for `Empty`, a two-item
/// list for a leaf or extension keyed by its hex-prefix path, and a
/// seventeen-item list for a branch.
pub open spec fn spec_decode(b: Seq<u8>) -> Option<SpecNode>
    decreases b.len(), 3int, 0int,
{
    match parse_header(b) {
        None => None,
        Some((is_list, h, p)) => if h + p != b.len() {
            None
        } else if !is_list {
            if p == 0 {
                Some(SpecNode::Empty)
            } else {
                None
            }
        } else {
            match spec_items(b, h) {
                None => None,
                Some(items) => if items.len() == 2 {
                    let it0 = items[0];
                    let it1 = items[1];
                    if it0.3 {
                        None
                    } else {
                        match hp_decode(b.subrange(it0.0 + it0.1, it0.0 + it0.1 + it0.2)) {
                            None => None,
                            Some((path, is_leaf)) => if is_leaf {
                                if it1.3 {
                                    None
                                } else {
                                    Some(
                                        SpecNode::Leaf {
                                            key: path,
                                            value: b.subrange(
                                                it1.0 + it1.1,
                                                it1.0 + it1.1 + it1.2,
                                            ),
                                        },
                                    )
                                }
                            } else if path.len() == 0 {
                                None
                            } else {
                                match spec_ref(b, it1) {
                                    None => None,
                                    Some(c) => Some(
                                        SpecNode::Extension { prefix: path, child: Box::new(c) },
                                    ),
                                }
                            },
                        }
                    }
                } else if items.len() == 17 {
                    let it16 = items[16];
                    match spec_children(b, items, 16) {
                        None => None,
                        Some(cs) => if it16.3 {
                            None
                        } else {
                            Some(
                                SpecNode::Branch {
                                    children: cs,
                                    value: if it16.2 == 0 {
                                        None
                                    } else {
                                        Some(b.subrange(it16.0 + it16.1, it16.0 + it16.1 + it16.2))
                                    },
                                },
                            )
                        },
                    }
                } else {
                    None
                },
            }
        },
    }
}

/// The integer views of collected item boundaries.
pub open spec fn item_views(s: Seq<(usize, usize, usize, bool)>) -> Seq<(int, int, int, bool)> {
    Seq::new(s.len(), |i: int| (s[i].0 as int, s[i].1 as int, s[i].2 as int, s[i].3))
}

/// A malformed slot keeps every longer slot sequence malformed.
proof fn lemma_children_none_mono(b: Seq<u8>, items: Seq<(int, int, int, bool)>, k: int, k2: int)
    requires
        0 <= k <= k2 <= items.len(),
        spec_children(b, items, k) is None,
    ensures
        spec_children(b, items, k2) is None,
    decreases k2 - k,
{
    if k2 > k {
        lemma_children_none_mono(b, items, k, k2 - 1);
    }
}

/// The proof entries contributed below `n` on the path `p`: each
/// digest-referenced node the walk crosses adds its canonical encoding,
/// in root-to-leaf order. Inlined nodes ride inside their parent's entry.
pub open spec fn proof_tail(n: Node, p: Seq<u8>) -> Seq<Seq<u8>>
    decreases n, 1int,
{
    match n {
        Node::Extension(e) => if starts_with(p, e.prefix@) {
            proof_step(e.node, p.skip(e.prefix@.len() as int))
        } else {
            Seq::empty()
        },
        Node::Branch(b) => if b.children@.len() == 16 && p.len() > 0 && p[0] < 16 {
            proof_step(b.children@[p[0] as int], p.skip(1))
        } else {
            Seq::empty()
        },
        _ => Seq::empty(),
    }
}

/// The proof entries contributed by `n` itself and everything below it.
pub open spec fn proof_step(n: Node, p: Seq<u8>) -> Seq<Seq<u8>>
    decreases n, 2int,
{
    if ref_is_digest(n) {
        seq![node_encoded(n)] + proof_tail(n, p)
    } else {
        proof_tail(n, p)
    }
}

/// Appends the proof entries contributed below `n` on the remainder of
/// `key` from `pos`.
fn prove_at(n: &Node, key: &Nibbles, pos: usize, out: &mut Vec<Vec<u8>>, scratch: &mut MemoryDB)
    requires
        node_wf(*n),
        key.wf(),
        pos <= key@.len(),
    ensures
        views(final(out)@) == views(old(out)@) + proof_tail(*n, key@.skip(pos as int)),
    decreases *n, 1int,
{
    let ghost rest = key@.skip(pos as int);
    match n {
        Node::Extension(e) => {
            let plen = e.prefix.len();
            let c = key.common_prefix_from(pos, &e.prefix);
            if c == plen {
                proof {
                    assert forall|j: int| 0 <= j < plen implies rest.subrange(0, plen as int)[j]
                        == e.prefix@[j] by {
                        assert(key@[pos + j] == e.prefix@[j]);
                        assert(rest[j] == key@[pos + j]);
                    }
                    assert(rest.subrange(0, plen as int) =~= e.prefix@);
                    assert(starts_with(rest, e.prefix@));
                    lemma_skip_skip(key@, pos as int, plen as int);
                }
                let klen = key.len();
                prove_step(&e.node, key, pos + c, out, scratch);
            } else {
                proof {
                    if starts_with(rest, e.prefix@) {
                        assert(rest.subrange(0, plen as int)[c as int] == e.prefix@[c as int]);
                        assert(rest[c as int] == key@[pos + c]);
                        assert(false);
                    }
                    assert(views(out@) =~= views(out@) + proof_tail(*n, rest));
                }
            }
        },
        Node::Branch(b) => {
            if pos < key.len() {
                let i = key.at(pos);
                proof {
                    assert(rest[0] == key@[pos as int]);
                    assert(rest.skip(1) =~= key@.skip(pos + 1));
                    assert(node_wf(b.children@[i as int]));
                }
                prove_step(&b.children[i as usize], key, pos + 1, out, scratch);
            } else {
                proof {
                    assert(rest.len() == 0);
                    assert(views(out@) =~= views(out@) + proof_tail(*n, rest));
                }
            }
        },
        _ => {
            proof {
                assert(proof_tail(*n, rest) =~= Seq::<Seq<u8>>::empty());
                assert(views(out@) =~= views(out@) + proof_tail(*n, rest));
            }
        },
    }
}

/// Appends the proof entries contributed by `n` itself (when its parent
/// references it by digest) and everything below it.
fn prove_step(n: &Node, key: &Nibbles, pos: usize, out: &mut Vec<Vec<u8>>, scratch: &mut MemoryDB)
    requires
        node_wf(*n),
        key.wf(),
        pos <= key@.len(),
    ensures
        views(final(out)@) == views(old(out)@) + proof_step(*n, key@.skip(pos as int)),
    decreases *n, 2int,
{
    let ghost rest = key@.skip(pos as int);
    let mut is_digest = false;
    match n {
        Node::Empty => {},
        Node::Hash(_) => {
            proof {
                assert(false);
            }
        },
        _ => {
            let enc = commit_node(n, scratch);
            if enc.len() >= 32 {
                is_digest = true;
                let ghost before = out@;
                out.push(enc);
                proof {
                    assert(views(out@) =~= views(before) + seq![node_encoded(*n)]);
                }
            }
        },
    }
    prove_at(n, key, pos, out, scratch);
    proof {
        if is_digest {
            assert(views(out@) =~= views(old(out)@) + proof_step(*n, rest));
        } else {
            assert(views(out@) =~= views(old(out)@) + proof_step(*n, rest));
        }
    }
}

impl EthTrie {
    /// The inclusion proof for `key`: the canonical encodings of the
    /// digest-referenced nodes along `key`'s path, root first (the root's
    /// encoding always leads). Nodes small enough to be inlined travel
    /// inside their parent's entry. The walk may end early: a proof of
    /// absence is simply shorter. Read-only: the trie and its store are
    /// untouched.
    pub fn prove(&self, key: &[u8]) -> (r: Result<Vec<Vec<u8>>, TrieError>)
        requires
            self.wf(),
        ensures
            r matches Ok(v) && views(v@) == seq![node_encoded(self.root)] + proof_tail(
                self.root,
                bytes_to_nibbles(key@),
            ),
    {
        let nibs = Nibbles::from_bytes(key);
        proof {
            assert forall|i: int| 0 <= i < nibs@.len() implies nibs@[i] == bytes_to_nibbles(
                key@,
            )[i] by {
                if i % 2 == 0 {
                    assert(nibs@[2 * (i / 2)] == key@[i / 2] / 16);
                } else {
                    assert(nibs@[2 * (i / 2) + 1] == key@[i / 2] % 16);
                }
            }
            assert(nibs@ =~= bytes_to_nibbles(key@));
        }
        let mut scratch = MemoryDB::new();
        let mut out: Vec<Vec<u8>> = Vec::new();
        let enc = commit_node(&self.root, &mut scratch);
        out.push(enc);
        proof {
            assert(views(out@) =~= seq![node_encoded(self.root)]);
            assert(nibs@.skip(0) =~= nibs@);
        }
        prove_at(&self.root, &nibs, 0, &mut out, &mut scratch);
        Ok(out)
    }
}

/// Structural soundness of a node rebuilt from canonical bytes: nibble
/// paths are valid, branches have 16 slots, digests are 32 bytes. Lazy
/// references may remain anywhere a subtree was referenced by digest.
pub open spec fn decoded_wf(n: Node) -> bool
    decreases n,
{
    match n {
        Node::Empty => true,
        Node::Leaf(l) => nibs_valid(l.key@),
        Node::Extension(e) => nibs_valid(e.prefix@) && decoded_wf(e.node),
        Node::Branch(b) => b.children@.len() == 16 && forall|i: int|
            0 <= i < 16 ==> decoded_wf(#[trigger] b.children@[i]),
        Node::Hash(h) => h.hash@.len() == 32,
    }
}

/// A parsed header never reaches past the buffer.
proof fn lemma_parse_header_fits(b: Seq<u8>)
    ensures
        match parse_header(b) {
            Some(h) => 0 <= h.1 && 0 <= h.2 && h.1 + h.2 <= b.len() && (h.0 ==> h.1 >= 1),
            None => true,
        },
{
}

/// Shapes of prefixes of a child list, elementwise.
proof fn lemma_abs_children(cs: Seq<Node>, k: int)
    requires
        0 <= k <= cs.len(),
    ensures
        abs_children(cs, k).len() == k,
        forall|t: int| 0 <= t < k ==> abs_children(cs, k)[t] == abs(cs[t]),
    decreases k,
{
    if k > 0 {
        lemma_abs_children(cs, k - 1);
    }
}

/// Prepends collected item boundaries to a parse of the remaining items.
pub open spec fn opt_prepend(
    pre: Seq<(int, int, int, bool)>,
    o: Option<Seq<(int, int, int, bool)>>,
) -> Option<Seq<(int, int, int, bool)>> {
    match o {
        None => None,
        Some(t) => Some(pre + t),
    }
}

/// Rebuilds one child reference inside a decoded node: a 32-byte string
/// is a lazy digest reference, a nested list is an inlined node decoded
/// in place, anything else is malformed — exactly `spec_ref`.
fn decode_ref(b: &[u8], start: usize, hlen: usize, plen: usize, is_list: bool) -> (r: Result<
    Node,
    TrieError,
>)
    requires
        1 <= start,
        start + hlen + plen <= b@.len(),
        is_list ==> hlen >= 1,
    ensures
        match r {
            Ok(n) => decoded_wf(n) && spec_ref(
                b@,
                (start as int, hlen as int, plen as int, is_list),
            ) == Some(abs(n)),
            Err(_) => spec_ref(b@, (start as int, hlen as int, plen as int, is_list)) is None,
        },
    decreases b@.len(), 0int,
{
    let blen = b.len();
    if is_list {
        let item = vstd::slice::slice_subrange(b, start, start + hlen + plen);
        decode_node_at(item)
    } else if plen == 32 {
        let d = vstd::slice::slice_to_vec(
            vstd::slice::slice_subrange(b, start + hlen, start + hlen + plen),
        );
        Ok(Node::from_hash(d))
    } else {
        Err(TrieError::Decoder)
    }
}

/// Rebuilds a node from its canonical serialization: the empty string
/// stands for `Empty`, a two-item list for a leaf or extension keyed by
/// its hex-prefix path, a seventeen-item list for a branch — exactly
/// `spec_decode`, with malformed framing or paths rejected, never guessed
/// at.
#[verifier::loop_isolation(false)]
fn decode_node_at(b: &[u8]) -> (r: Result<Node, TrieError>)
    ensures
        match r {
            Ok(n) => decoded_wf(n) && spec_decode(b@) == Some(abs(n)),
            Err(_) => spec_decode(b@) is None,
        },
    decreases b@.len(), 1int,
{
    let blen = b.len();
    proof {
        lemma_parse_header_fits(b@);
    }
    let (is_list, hlen, plen) = match rlp_parse_header(b) {
        Ok(h) => h,
        Err(e) => {
            return Err(e);
        },
    };
    if hlen + plen != blen {
        return Err(TrieError::Decoder);
    }
    if !is_list {
        if plen == 0 {
            return Ok(Node::Empty);
        }
        return Err(TrieError::Decoder);
    }
    proof {
        assert(hlen >= 1);
    }
    // collect the item boundaries of the list payload
    let endp = b.len();
    let mut items: Vec<(usize, usize, usize, bool)> = Vec::new();
    let mut off: usize = hlen;
    proof {
        match spec_items(b@, hlen as int) {
            Some(t) => {
                assert(item_views(items@) + t =~= t);
            },
            None => {},
        }
        assert(spec_items(b@, hlen as int) == opt_prepend(
            item_views(items@),
            spec_items(b@, off as int),
        ));
    }
    while off < endp
        invariant
            hlen <= off <= endp,
            spec_items(b@, hlen as int) == opt_prepend(
                item_views(items@),
                spec_items(b@, off as int),
            ),
            forall|t: int|
                0 <= t < items@.len() ==> {
                    let it = #[trigger] items@[t];
                    1 <= it.0 && it.0 + it.1 + it.2 <= endp && (it.3 ==> it.1 >= 1)
                },
        decreases endp - off,
    {
        let ghost items0 = items@;
        let ghost off0 = off as int;
        let sub = vstd::slice::slice_subrange(b, off, endp);
        proof {
            lemma_parse_header_fits(sub@);
            assert(b@.skip(off0) =~= sub@);
        }
        let (il, ih, ipl) = match rlp_parse_header(sub) {
            Ok(h) => h,
            Err(e) => {
                proof {
                    assert(spec_items(b@, off0) is None);
                }
                return Err(e);
            },
        };
        if ih + ipl == 0 {
            proof {
                assert(spec_items(b@, off0) is None);
            }
            return Err(TrieError::Decoder);
        }
        items.push((off, ih, ipl, il));
        off = off + ih + ipl;
        proof {
            let tp = (off0, ih as int, ipl as int, il);
            assert(item_views(items@) =~= item_views(items0).push(tp));
            assert(spec_items(b@, off0) == opt_prepend(seq![tp], spec_items(b@, off as int)));
            match spec_items(b@, off as int) {
                Some(t) => {
                    assert(item_views(items0) + (seq![tp] + t) =~= item_views(items@) + t);
                },
                None => {},
            }
        }
    }
    let ghost gitems = item_views(items@);
    proof {
        assert(spec_items(b@, endp as int) == Some(Seq::<(int, int, int, bool)>::empty()));
        assert(gitems + Seq::<(int, int, int, bool)>::empty() =~= gitems);
        assert(spec_items(b@, hlen as int) == Some(gitems));
        assert(gitems.len() == items@.len());
    }
    if items.len() == 2 {
        let (s0, h0, p0, l0) = (items[0].0, items[0].1, items[0].2, items[0].3);
        let (s1, h1, p1, l1) = (items[1].0, items[1].1, items[1].2, items[1].3);
        proof {
            assert(items@[0].0 + items@[0].1 + items@[0].2 <= endp);
            assert(items@[1].0 + items@[1].1 + items@[1].2 <= endp);
            assert(gitems[0] == (s0 as int, h0 as int, p0 as int, l0));
            assert(gitems[1] == (s1 as int, h1 as int, p1 as int, l1));
        }
        if l0 {
            return Err(TrieError::Decoder);
        }
        let hp = vstd::slice::slice_subrange(b, s0 + h0, s0 + h0 + p0);
        let (path, is_leaf) = match Nibbles::decode_compact(hp) {
            Ok(d) => d,
            Err(e) => {
                return Err(e);
            },
        };
        if is_leaf {
            if l1 {
                return Err(TrieError::Decoder);
            }
            let value = vstd::slice::slice_to_vec(
                vstd::slice::slice_subrange(b, s1 + h1, s1 + h1 + p1),
            );
            return Ok(Node::from_leaf(path, value));
        }
        if path.len() == 0 {
            return Err(TrieError::Decoder);
        }
        let child = match decode_ref(b, s1, h1, p1, l1) {
            Ok(n) => n,
            Err(e) => {
                return Err(e);
            },
        };
        return Ok(Node::from_extension(path, child));
    }
    if items.len() == 17 {
        let mut children: Vec<Node> = Vec::new();
        let ghost gcs = Seq::<SpecNode>::empty();
        let mut j: usize = 0;
        proof {
            assert(forall|t: int|
                0 <= t < 17 ==> #[trigger] gitems[t] == (
                items@[t].0 as int,
                items@[t].1 as int,
                items@[t].2 as int,
                items@[t].3,
            ));
        }
        while j < 16
            invariant
                j <= 16,
                children@.len() == j,
                gcs.len() == j,
                spec_children(b@, gitems, j as int) == Some(gcs),
                forall|t: int| 0 <= t < j ==> decoded_wf(#[trigger] children@[t]),
                forall|t: int| 0 <= t < j ==> #[trigger] gcs[t] == abs(children@[t]),
            decreases 16 - j,
        {
            let (sj, hj, pj, lj) = (items[j].0, items[j].1, items[j].2, items[j].3);
            proof {
                assert(items@[j as int].0 + items@[j as int].1 + items@[j as int].2 <= endp);
                assert(gitems[j as int] == (sj as int, hj as int, pj as int, lj));
            }
            let child = if !lj && pj == 0 {
                Node::Empty
            } else {
                match decode_ref(b, sj, hj, pj, lj) {
                    Ok(n) => n,
                    Err(e) => {
                        proof {
                            assert(spec_slot(b@, gitems[j as int]) is None);
                            assert(spec_children(b@, gitems, j + 1) is None);
                            lemma_children_none_mono(b@, gitems, j + 1, 16);
                        }
                        return Err(e);
                    },
                }
            };
            proof {
                assert(spec_slot(b@, gitems[j as int]) == Some(abs(child)));
                assert(spec_children(b@, gitems, j + 1) == Some(gcs.push(abs(child))));
            }
            children.push(child);
            proof {
                gcs = gcs.push(abs(children@[j as int]));
            }
            j += 1;
        }
        let (s16, h16, p16, l16) = (items[16].0, items[16].1, items[16].2, items[16].3);
        proof {
            assert(items@[16].0 + items@[16].1 + items@[16].2 <= endp);
            assert(gitems[16] == (s16 as int, h16 as int, p16 as int, l16));
        }
        if l16 {
            return Err(TrieError::Decoder);
        }
        let value: Option<Vec<u8>> = if p16 == 0 {
            None
        } else {
            Some(
                vstd::slice::slice_to_vec(
                    vstd::slice::slice_subrange(b, s16 + h16, s16 + h16 + p16),
                ),
            )
        };
        let r = Node::from_branch(children, value);
        proof {
            lemma_abs_children(children@, 16);
            assert(abs_children(children@, 16) =~= gcs);
            assert(abs(r) == SpecNode::Branch { children: gcs, value: opt_view(value) });
        }
        return Ok(r);
    }
    Err(TrieError::Decoder)
}

/// Rebuilds a node from its canonical serialization; the result is
/// exactly the shape `spec_decode` assigns to the bytes, and decoding
/// fails exactly when `spec_decode` does.
pub fn decode_node(b: &[u8]) -> (r: Result<Node, TrieError>)
    ensures
        match r {
            Ok(n) => decoded_wf(n) && spec_decode(b@) == Some(abs(n)),
            Err(_) => spec_decode(b@) is None,
        },
{
    decode_node_at(b)
}

/// The replay of a proof below a decoded node shape: the walk follows the
/// key's remaining nibbles, resolves each digest reference against the
/// next entry (which must hash to that digest and decode), and demands
/// that every entry be consumed by the time it concludes. `Some` carries
/// the proven value or a proven absence; `None` is an invalid proof.
pub open spec fn spec_verify_walk(
    sn: SpecNode,
    p: Seq<u8>,
    entries: Seq<Seq<u8>>,
    idx: int,
) -> Option<Option<Seq<u8>>>
    decreases entries.len() - idx, sn,
{
    match sn {
        SpecNode::Empty => if idx == entries.len() {
            Some(None)
        } else {
            None
        },
        SpecNode::Leaf { key, value } => if idx != entries.len() {
            None
        } else if p == key {
            Some(Some(value))
        } else {
            Some(None)
        },
        SpecNode::Extension { prefix, child } => if starts_with(p, prefix) {
            spec_verify_walk(*child, p.skip(prefix.len() as int), entries, idx)
        } else if idx == entries.len() {
            Some(None)
        } else {
            None
        },
        SpecNode::Branch { children, value } => if p.len() == 0 {
            if idx == entries.len() {
                Some(value)
            } else {
                None
            }
        } else if children.len() == 16 && p[0] < 16 {
            spec_verify_walk(children[p[0] as int], p.skip(1), entries, idx)
        } else {
            None
        },
        SpecNode::Hash { digest } => if idx >= entries.len() {
            None
        } else if keccak_of(entries[idx]) != digest {
            None
        } else {
            match spec_decode(entries[idx]) {
                None => None,
                Some(sn2) => spec_verify_walk(sn2, p, entries, idx + 1),
            }
        },
    }
}

/// The whole verification of a proof against a claimed root: the first
/// entry must hash to the root digest and decode; the replay then follows
/// the key. `Some` carries the verified result, `None` is an invalid
/// proof.
pub open spec fn spec_verify(root: Seq<u8>, key: Seq<u8>, entries: Seq<Seq<u8>>) -> Option<
    Option<Seq<u8>>,
> {
    if entries.len() < 1 {
        None
    } else if keccak_of(entries[0]) != root {
        None
    } else {
        match spec_decode(entries[0]) {
            None => None,
            Some(sn) => spec_verify_walk(sn, bytes_to_nibbles(key), entries, 1),
        }
    }
}

/// Replays the path below an already-authenticated decoded node — exactly
/// `spec_verify_walk` on the node's shape.
fn verify_walk(n: &Node, key: &Nibbles, pos: usize, proof: &Vec<Vec<u8>>, idx: usize) -> (r:
    Result<Option<Vec<u8>>, TrieError>)
    requires
        decoded_wf(*n),
        key.wf(),
        pos <= key@.len(),
        idx <= proof@.len(),
    ensures
        match spec_verify_walk(abs(*n), key@.skip(pos as int), views(proof@), idx as int) {
            Some(v) => r matches Ok(rv) && opt_view(rv) == v,
            None => r == Err::<Option<Vec<u8>>, TrieError>(TrieError::InvalidProof),
        },
    decreases proof@.len() - idx, *n,
{
    let ghost rest = key@.skip(pos as int);
    let ghost entries = views(proof@);
    match n {
        Node::Empty => {
            if idx == proof.len() {
                Ok(None)
            } else {
                Err(TrieError::InvalidProof)
            }
        },
        Node::Leaf(l) => {
            if idx != proof.len() {
                return Err(TrieError::InvalidProof);
            }
            let c = key.common_prefix_from(pos, &l.key);
            if c == key.len() - pos && c == l.key.len() {
                proof {
                    assert(rest =~= l.key@);
                }
                Ok(Some(vstd::slice::slice_to_vec(l.value.as_slice())))
            } else {
                proof {
                    if rest == l.key@ {
                        assert(rest.len() == l.key@.len());
                        assert(rest[c as int] == key@[pos + c]);
                        assert(false);
                    }
                }
                Ok(None)
            }
        },
        Node::Extension(e) => {
            let klen = key.len();
            let plen = e.prefix.len();
            let c = key.common_prefix_from(pos, &e.prefix);
            if c == plen {
                proof {
                    assert forall|j: int| 0 <= j < plen implies rest.subrange(0, plen as int)[j]
                        == e.prefix@[j] by {
                        assert(key@[pos + j] == e.prefix@[j]);
                        assert(rest[j] == key@[pos + j]);
                    }
                    assert(rest.subrange(0, plen as int) =~= e.prefix@);
                    assert(starts_with(rest, e.prefix@));
                    lemma_skip_skip(key@, pos as int, plen as int);
                }
                verify_walk(&e.node, key, pos + c, proof, idx)
            } else {
                proof {
                    if starts_with(rest, e.prefix@) {
                        assert(rest.subrange(0, plen as int)[c as int] == e.prefix@[c as int]);
                        assert(rest[c as int] == key@[pos + c]);
                        assert(false);
                    }
                }
                if idx == proof.len() {
                    Ok(None)
                } else {
                    Err(TrieError::InvalidProof)
                }
            }
        },
        Node::Branch(b) => {
            proof {
                lemma_abs_children(b.children@, 16);
            }
            if pos == key.len() {
                proof {
                    assert(rest.len() == 0);
                }
                if idx != proof.len() {
                    return Err(TrieError::InvalidProof);
                }
                match &b.value {
                    Some(v) => Ok(Some(vstd::slice::slice_to_vec(v.as_slice()))),
                    None => Ok(None),
                }
            } else {
                let i = key.at(pos);
                proof {
                    lemma_skip_parts(key@, pos as int);
                    assert(rest[0] == key@[pos as int]);
                    assert(decoded_wf(b.children@[i as int]));
                }
                verify_walk(&b.children[i as usize], key, pos + 1, proof, idx)
            }
        },
        Node::Hash(h) => {
            if idx >= proof.len() {
                return Err(TrieError::InvalidProof);
            }
            let entry = &proof[idx];
            proof {
                assert(entries[idx as int] == proof@[idx as int]@);
            }
            let d = keccak(entry.as_slice());
            if !bytes_eq(d.as_slice(), h.hash.as_slice()) {
                return Err(TrieError::InvalidProof);
            }
            let node = match decode_node_at(entry.as_slice()) {
                Ok(nd) => nd,
                Err(_) => {
                    return Err(TrieError::InvalidProof);
                },
            };
            verify_walk(&node, key, pos, proof, idx + 1)
        },
    }
}

/// Verifies an inclusion proof against a claimed root digest, with no
/// store access — exactly `spec_verify`: the first entry must hash to
/// `root_hash` and decode, each further entry must hash to the digest its
/// parent references, the decoded path must follow `key`, and no entry
/// may be left over. The result is the proven value, `None` for a proven
/// absence, and `InvalidProof` — the only error — for any inconsistency:
/// wrong digest linkage, malformed encoding, a stray or missing entry.
pub fn verify(root_hash: &[u8], key: &[u8], proof: &Vec<Vec<u8>>) -> (r: Result<
    Option<Vec<u8>>,
    TrieError,
>)
    ensures
        match spec_verify(root_hash@, key@, views(proof@)) {
            Some(v) => r matches Ok(rv) && opt_view(rv) == v,
            None => r == Err::<Option<Vec<u8>>, TrieError>(TrieError::InvalidProof),
        },
        r matches Err(e) ==> e == TrieError::InvalidProof,
{
    let ghost entries = views(proof@);
    if proof.len() == 0 {
        return Err(TrieError::InvalidProof);
    }
    let nibs = Nibbles::from_bytes(key);
    proof {
        assert forall|i: int| 0 <= i < nibs@.len() implies nibs@[i] == bytes_to_nibbles(key@)[i] by {
            if i % 2 == 0 {
                assert(nibs@[2 * (i / 2)] == key@[i / 2] / 16);
            } else {
                assert(nibs@[2 * (i / 2) + 1] == key@[i / 2] % 16);
            }
        }
        assert(nibs@ =~= bytes_to_nibbles(key@));
    }
    let entry = &proof[0];
    proof {
        assert(entries[0] == proof@[0]@);
    }
    let d = keccak(entry.as_slice());
    if !bytes_eq(d.as_slice(), root_hash) {
        return Err(TrieError::InvalidProof);
    }
    let node = match decode_node_at(entry.as_slice()) {
        Ok(nd) => nd,
        Err(_) => {
            return Err(TrieError::InvalidProof);
        },
    };
    let r = verify_walk(&node, &nibs, 0, proof, 1);
    proof {
        assert(nibs@.skip(0) =~= nibs@);
    }
    r
}

/// The resolution of the node stored under `digest`: its bytes fetched
/// from the store, decoded, and every reference below resolved in turn.
/// `None` when the digest is absent, its bytes are malformed, the shape
/// is not canonical, or `fuel` runs out.
pub open spec fn spec_resolve(db: MemoryDB, digest: Seq<u8>, fuel: nat) -> Option<SpecNode>
    decreases fuel, 0int, SpecNode::Empty, 0int,
{
    if fuel == 0 {
        None
    } else {
        match db.spec_get(digest) {
            None => None,
            Some(e) => match spec_decode(e) {
                None => None,
                Some(sn) => spec_resolve_node(db, sn, (fuel - 1) as nat),
            },
        }
    }
}

/// The resolution of every reference inside a decoded shape, insisting on
/// canonical form: an extension's prefix is non-empty and sits directly
/// above a branch. `fuel` bounds the depth of digest hops.
pub open spec fn spec_resolve_node(db: MemoryDB, sn: SpecNode, fuel: nat) -> Option<SpecNode>
    decreases fuel, 1int, sn, 17int,
{
    match sn {
        SpecNode::Empty => Some(SpecNode::Empty),
        SpecNode::Leaf { key, value } => Some(SpecNode::Leaf { key, value }),
        SpecNode::Extension { prefix, child } => if prefix.len() == 0 {
            None
        } else {
            match spec_resolve_node(db, *child, fuel) {
                None => None,
                Some(m) => if m is Branch {
                    Some(SpecNode::Extension { prefix, child: Box::new(m) })
                } else {
                    None
                },
            }
        },
        SpecNode::Branch { children, value } => if children.len() != 16 {
            None
        } else {
            match spec_resolve_children(db, sn, 16, fuel) {
                None => None,
                Some(ms) => Some(SpecNode::Branch { children: ms, value }),
            }
        },
        SpecNode::Hash { digest } => spec_resolve(db, digest, fuel),
    }
}

/// The resolutions of the first `k` slots of a branch shape.
pub open spec fn spec_resolve_children(
    db: MemoryDB,
    parent: SpecNode,
    k: int,
    fuel: nat,
) -> Option<Seq<SpecNode>>
    decreases fuel, 1int, parent, k,
{
    match parent {
        SpecNode::Branch { children, value } => if k <= 0 || k > children.len() {
            Some(Seq::empty())
        } else {
            match spec_resolve_children(db, parent, k - 1, fuel) {
                None => None,
                Some(ms) => match spec_resolve_node(db, children[k - 1], fuel) {
                    None => None,
                    Some(m) => Some(ms.push(m)),
                },
            }
        },
        _ => None,
    }
}

/// A failed slot keeps every longer slot sequence failed.
proof fn lemma_resolve_children_none_mono(
    db: MemoryDB,
    parent: SpecNode,
    k: int,
    k2: int,
    fuel: nat,
)
    requires
        0 <= k <= k2,
        parent matches SpecNode::Branch { children, value } && k2 <= children.len(),
        spec_resolve_children(db, parent, k, fuel) is None,
    ensures
        spec_resolve_children(db, parent, k2, fuel) is None,
    decreases k2 - k,
{
    if k2 > k {
        lemma_resolve_children_none_mono(db, parent, k, k2 - 1, fuel);
    }
}

/// The fuel that suffices for every honest store: one more digest hop
/// than the store has entries, since an acyclic store cannot chain deeper.
pub open spec fn resolve_fuel(db: MemoryDB) -> nat {
    if db.entries@.len() + 1 <= usize::MAX {
        (db.entries@.len() + 1) as nat
    } else {
        usize::MAX as nat
    }
}

/// Resolves the node stored under `digest`, then everything below it —
/// exactly `spec_resolve`. `fuel` bounds the depth of digest hops: any
/// honest content-addressed store is acyclic, so a fuel of one more than
/// the store's size never runs out; running out means the store's
/// references loop.
fn resolve_hash(db: &MemoryDB, digest: &[u8], fuel: usize, at: &Nibbles) -> (r: Result<
    Node,
    TrieError,
>)
    ensures
        match r {
            Ok(m) => node_wf(m) && spec_resolve(*db, digest@, fuel as nat) == Some(abs(m)),
            Err(_) => spec_resolve(*db, digest@, fuel as nat) is None,
        },
        db.spec_get(digest@) is None && fuel >= 1 ==> (r matches Err(e) && e matches
            TrieError::MissingTrieNode { node_hash, .. } && node_hash@ == digest@),
    decreases fuel, 0int, Node::Empty,
{
    if fuel == 0 {
        return Err(TrieError::InvalidData);
    }
    match db.get(digest) {
        None => Err(
            TrieError::MissingTrieNode {
                node_hash: vstd::slice::slice_to_vec(digest),
                traversed: Some(vstd::slice::slice_to_vec(at.data.as_slice())),
                root_hash: None,
                err_key: None,
            },
        ),
        Some(bytes) => {
            match decode_node_at(bytes.as_slice()) {
                Ok(n) => resolve_children(db, n, fuel - 1, at),
                Err(e) => Err(e),
            }
        },
    }
}

/// Replaces every lazy reference below `n` (and `n` itself, were it one)
/// by the concrete node fetched from the store — exactly
/// `spec_resolve_node` on the node's shape.
#[verifier::loop_isolation(false)]
fn resolve_children(db: &MemoryDB, n: Node, fuel: usize, at: &Nibbles) -> (r: Result<
    Node,
    TrieError,
>)
    requires
        decoded_wf(n),
    ensures
        match r {
            Ok(m) => node_wf(m) && spec_resolve_node(*db, abs(n), fuel as nat) == Some(abs(m)),
            Err(_) => spec_resolve_node(*db, abs(n), fuel as nat) is None,
        },
    decreases fuel, 1int, n,
{
    let ghost sn0 = abs(n);
    match n {
        Node::Empty => Ok(Node::Empty),
        Node::Leaf(l) => Ok(Node::Leaf(l)),
        Node::Extension(e) => {
            let ex = *e;
            proof {
                assert(sn0 == SpecNode::Extension {
                    prefix: ex.prefix@,
                    child: Box::new(abs(ex.node)),
                });
            }
            if ex.prefix.len() == 0 {
                proof {
                    assert(spec_resolve_node(*db, sn0, fuel as nat) is None);
                }
                return Err(TrieError::InvalidData);
            }
            let at2 = at.concat(&ex.prefix);
            let child = match ex.node {
                Node::Hash(h) => {
                    proof {
                        assert(abs(Node::Hash(h)) == SpecNode::Hash { digest: h.hash@ });
                    }
                    match resolve_hash(db, h.hash.as_slice(), fuel, &at2) {
                        Ok(m) => m,
                        Err(err) => {
                            proof {
                                assert(spec_resolve_node(*db, abs(Node::Hash(h)), fuel as nat)
                                    is None);
                                assert(spec_resolve_node(*db, sn0, fuel as nat) is None);
                            }
                            return Err(err);
                        },
                    }
                },
                other => {
                    match resolve_children(db, other, fuel, &at2) {
                        Ok(m) => m,
                        Err(err) => {
                            proof {
                                assert(spec_resolve_node(*db, sn0, fuel as nat) is None);
                            }
                            return Err(err);
                        },
                    }
                },
            };
            proof {
                assert(spec_resolve_node(*db, abs(ex.node), fuel as nat) == Some(abs(child)));
            }
            match &child {
                Node::Branch(_) => {
                    proof {
                        assert(abs(child) is Branch);
                    }
                    Ok(Node::from_extension(ex.prefix, child))
                },
                Node::Empty => {
                    proof {
                        assert(!(abs(child) is Branch));
                    }
                    Err(TrieError::InvalidData)
                },
                Node::Leaf(_) => {
                    proof {
                        assert(!(abs(child) is Branch));
                    }
                    Err(TrieError::InvalidData)
                },
                Node::Extension(_) => {
                    proof {
                        assert(!(abs(child) is Branch));
                    }
                    Err(TrieError::InvalidData)
                },
                Node::Hash(_) => {
                    proof {
                        assert(!(abs(child) is Branch));
                    }
                    Err(TrieError::InvalidData)
                },
            }
        },
        Node::Branch(b) => {
            let mut bb = *b;
            let ghost ch0 = bb.children@;
            let ghost acs = abs_children(ch0, 16);
            let ghost val0 = bb.value;
            proof {
                lemma_abs_children(ch0, 16);
                assert(sn0 == SpecNode::Branch { children: acs, value: opt_view(val0) });
                assert forall|t: int| 0 <= t < ch0.len() implies (decreases_to!(
                    n => ch0[t],
                )) by {}
                assert(bb.children@ =~= ch0.skip(0));
            }
            let mut resolved: Vec<Node> = Vec::new();
            let ghost gms = Seq::<SpecNode>::empty();
            let mut j: usize = 0;
            while j < 16
                invariant
                    j <= 16,
                    bb.children@ == ch0.skip(j as int),
                    bb.value == val0,
                    resolved@.len() == j,
                    gms.len() == j,
                    spec_resolve_children(*db, sn0, j as int, fuel as nat) == Some(gms),
                    forall|t: int| 0 <= t < j ==> node_wf(#[trigger] resolved@[t]),
                    forall|t: int| 0 <= t < j ==> #[trigger] gms[t] == abs(resolved@[t]),
                decreases 16 - j,
            {
                let child = bb.children.remove(0);
                proof {
                    assert(ch0.skip(j as int).remove(0) =~= ch0.skip(j + 1));
                    assert(child == ch0.skip(j as int)[0]);
                    assert(child == ch0[j as int]);
                    assert(decoded_wf(ch0[j as int]));
                    assert(acs[j as int] == abs(child));
                }
                let slot = Nibbles::prepend(j as u8, &Nibbles::new());
                let at2 = at.concat(&slot);
                let done = match child {
                    Node::Hash(h) => {
                        match resolve_hash(db, h.hash.as_slice(), fuel, &at2) {
                            Ok(m) => m,
                            Err(err) => {
                                proof {
                                    assert(spec_resolve_node(*db, acs[j as int], fuel as nat)
                                        is None);
                                    assert(spec_resolve_children(*db, sn0, j + 1, fuel as nat)
                                        is None);
                                    lemma_resolve_children_none_mono(
                                        *db,
                                        sn0,
                                        j + 1,
                                        16,
                                        fuel as nat,
                                    );
                                }
                                return Err(err);
                            },
                        }
                    },
                    other => {
                        match resolve_children(db, other, fuel, &at2) {
                            Ok(m) => m,
                            Err(err) => {
                                proof {
                                    assert(spec_resolve_node(*db, acs[j as int], fuel as nat)
                                        is None);
                                    assert(spec_resolve_children(*db, sn0, j + 1, fuel as nat)
                                        is None);
                                    lemma_resolve_children_none_mono(
                                        *db,
                                        sn0,
                                        j + 1,
                                        16,
                                        fuel as nat,
                                    );
                                }
                                return Err(err);
                            },
                        }
                    },
                };
                proof {
                    assert(spec_resolve_node(*db, acs[j as int], fuel as nat) == Some(abs(done)));
                    assert(spec_resolve_children(*db, sn0, j + 1, fuel as nat) == Some(
                        gms.push(abs(done)),
                    ));
                }
                resolved.push(done);
                proof {
                    gms = gms.push(abs(resolved@[j as int]));
                }
                j += 1;
            }
            let ghost rs0 = resolved@;
            let r = Node::from_branch(resolved, bb.value);
            proof {
                lemma_abs_children(rs0, 16);
                assert forall|t: int| 0 <= t < 16 implies abs_children(rs0, 16)[t] == gms[t] by {
                    assert(abs_children(rs0, 16)[t] == abs(rs0[t]));
                    assert(gms[t] == abs(rs0[t]));
                }
                assert(abs_children(rs0, 16) =~= gms);
                assert(acs.len() == 16);
                assert(spec_resolve_children(*db, sn0, 16, fuel as nat) == Some(gms));
                assert(spec_resolve_node(*db, sn0, fuel as nat) == Some(
                    SpecNode::Branch { children: gms, value: opt_view(val0) },
                ));
                assert(abs(r) == SpecNode::Branch {
                    children: abs_children(rs0, 16),
                    value: opt_view(val0),
                });
                assert(spec_resolve_node(*db, sn0, fuel as nat) == Some(abs(r)));
            }
            Ok(r)
        },
        Node::Hash(h) => resolve_hash(db, h.hash.as_slice(), fuel, at),
    }
}

impl EthTrie {
    /// Opens a trie persisted under `root_hash`: the root's encoding and
    /// every subtree below it are fetched from the store by digest and
    /// decoded into a fully materialized, well-formed structure — exactly
    /// `spec_resolve` of the root digest, so opening succeeds precisely
    /// when the store resolves the digest to a canonical tree (resolution
    /// is eager: a missing or malformed node anywhere is reported at open
    /// time rather than on first traversal). A digest absent from the
    /// store is reported as `MissingTrieNode` carrying that digest and
    /// the root digest; malformed stored bytes are a decode failure.
    pub fn from_root(db: MemoryDB, root_hash: &[u8]) -> (r: Result<EthTrie, TrieError>)
        ensures
            match r {
                Ok(t) => t.wf() && t.db == db && spec_resolve(db, root_hash@, resolve_fuel(db))
                    == Some(abs(t.root)),
                Err(_) => spec_resolve(db, root_hash@, resolve_fuel(db)) is None,
            },
            db.spec_get(root_hash@) is None ==> (r matches Err(e) && e matches
                TrieError::MissingTrieNode { node_hash, .. } && node_hash@ == root_hash@),
    {
        let fuel = if db.entries.len() < usize::MAX {
            db.entries.len() + 1
        } else {
            usize::MAX
        };
        proof {
            assert(fuel as nat == resolve_fuel(db));
        }
        let at = Nibbles::new();
        match resolve_hash(&db, root_hash, fuel, &at) {
            Ok(root) => Ok(EthTrie { root, db }),
            Err(TrieError::MissingTrieNode { node_hash, traversed, root_hash: _, err_key }) => Err(
                TrieError::MissingTrieNode {
                    node_hash,
                    traversed,
                    root_hash: Some(vstd::slice::slice_to_vec(root_hash)),
                    err_key,
                },
            ),
            Err(e) => Err(e),
        }
    }
}

/// Proof/root linkage: an honestly generated proof is never empty, and
/// its first entry hashes to the root digest that `root` computes for the
/// same trie, so verification's digest check on the first entry accepts
/// it.
pub proof fn lemma_proof_linked_to_root(t: EthTrie, key: Seq<u8>, entries: Seq<Seq<u8>>)
    requires
        entries == seq![node_encoded(t.root)] + proof_tail(t.root, bytes_to_nibbles(key)),
    ensures
        entries.len() >= 1,
        keccak_of(entries[0]) == t.spec_root_digest(),
{
    assert(entries[0] == node_encoded(t.root));
}

/// Proof soundness for the empty trie: the proof generated for any key is
/// the single canonical empty encoding, its digest is the empty trie's
/// root digest, and verification accepts exactly that pair with a
/// not-found result — which is what lookup answers on the empty trie.
pub proof fn lemma_empty_trie_proof(t: EthTrie, key: Seq<u8>, entries: Seq<Seq<u8>>)
    requires
        t.root is Empty,
        entries == seq![node_encoded(t.root)] + proof_tail(t.root, bytes_to_nibbles(key)),
    ensures
        entries.len() == 1,
        entries[0] == seq![128u8],
        keccak_of(entries[0]) == t.spec_root_digest(),
        spec_verify(t.spec_root_digest(), key, entries) == Some(None::<Seq<u8>>),
        t.spec_get(key) is None,
{
    assert(proof_tail(t.root, bytes_to_nibbles(key)) =~= Seq::<Seq<u8>>::empty());
    assert(entries =~= seq![seq![128u8]]);
    assert(parse_header(seq![128u8]) == Some((false, 1int, 0int)));
    assert(spec_decode(entries[0]) == Some(SpecNode::Empty));
    assert(spec_verify_walk(SpecNode::Empty, bytes_to_nibbles(key), entries, 1) == Some(
        None::<Seq<u8>>,
    ));
}

} // verus!
