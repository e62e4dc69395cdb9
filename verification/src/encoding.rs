use vstd::prelude::*;

use crate::codec::rlp_encode_bytes;
use crate::codec::rlp_header_bytes;
use crate::codec::rlp_header_encode;
use crate::codec::rlp_str;
use crate::db::MemoryDB;
use crate::hashing::keccak;
use crate::hashing::keccak_of;
use crate::nibbles::hp_encode;
use crate::node::Node;
use crate::node::node_wf;

verus! {

/// The canonical serialization of a node: the fixed empty encoding for
/// `Empty`, the stored digest as a string for a lazy reference, and
/// otherwise a list over the node's fields, with leaf and extension paths
/// in hex-prefix form and children in reference form.
pub open spec fn node_encoded(n: Node) -> Seq<u8>
    decreases n, 1int, 0int,
{
    match n {
        Node::Empty => seq![128u8],
        Node::Hash(h) => rlp_str(h.hash@),
        _ => rlp_header_bytes(true, node_payload(n).len() as int) + node_payload(n),
    }
}

/// The list payload of a node's canonical serialization.
pub open spec fn node_payload(n: Node) -> Seq<u8>
    decreases n, 0int, 0int,
{
    match n {
        Node::Empty => Seq::empty(),
        Node::Leaf(l) => rlp_str(hp_encode(l.key@, true)) + rlp_str(l.value@),
        Node::Extension(e) => rlp_str(hp_encode(e.prefix@, false)) + child_ref(e.node),
        Node::Branch(b) => children_payload(b.children@, 16) + rlp_str(
            match b.value {
                Some(v) => v@,
                None => Seq::empty(),
            },
        ),
        Node::Hash(h) => Seq::empty(),
    }
}

/// How a node appears inside its parent's serialization: small nodes
/// (under 32 bytes) are inlined as their raw encoding; larger ones appear
/// as the string of their digest.
pub open spec fn child_ref(n: Node) -> Seq<u8>
    decreases n, 2int, 0int,
{
    match n {
        Node::Empty => seq![128u8],
        Node::Hash(h) => rlp_str(h.hash@),
        _ => if node_encoded(n).len() < 32 {
            node_encoded(n)
        } else {
            rlp_str(keccak_of(node_encoded(n)))
        },
    }
}

/// The concatenated reference forms of the first `k` children.
pub open spec fn children_payload(cs: Seq<Node>, k: int) -> Seq<u8>
    decreases cs, 3int, k,
{
    if k <= 0 || k > cs.len() {
        Seq::empty()
    } else {
        children_payload(cs, k - 1) + child_ref(cs[k - 1])
    }
}

/// True when a parent embeds this child by digest rather than inline:
/// every non-empty node whose canonical encoding reaches 32 bytes, and
/// every lazy reference.
pub open spec fn ref_is_digest(n: Node) -> bool {
    match n {
        Node::Empty => false,
        Node::Hash(_) => true,
        _ => node_encoded(n).len() >= 32,
    }
}

/// The store holds, under `k`, bytes whose digest is `k` itself: a
/// correct content-addressed entry.
pub open spec fn stored_digest(db: MemoryDB, k: Seq<u8>) -> bool {
    db.spec_get(k) matches Some(e) && keccak_of(e) == k
}

/// Every subtree below `n` that its parent references by digest has been
/// persisted: the store holds a content-addressed entry under that
/// digest. Inlined subtrees ride inside their parent's encoding and lazy
/// references were persisted when they were created.
pub open spec fn committed(db: MemoryDB, n: Node) -> bool
    decreases n,
{
    match n {
        Node::Extension(e) => child_persisted(db, e.node) && committed(db, e.node),
        Node::Branch(b) => forall|i: int|
            0 <= i < b.children@.len() ==> child_persisted(db, #[trigger] b.children@[i])
                && committed(db, b.children@[i]),
        _ => true,
    }
}

/// A digest-referenced concrete child has its digest key populated.
pub open spec fn child_persisted(db: MemoryDB, c: Node) -> bool {
    match c {
        Node::Empty => true,
        Node::Hash(_) => true,
        _ => node_encoded(c).len() >= 32 ==> stored_digest(db, keccak_of(node_encoded(c))),
    }
}

/// One store extends another when every key either kept its old binding
/// or now holds bytes whose digest is that key: commits only add
/// content-addressed node encodings.
pub open spec fn db_extends(new: MemoryDB, old: MemoryDB) -> bool {
    forall|k: Seq<u8>|
        #![auto]
        new.spec_get(k) == old.spec_get(k) || (new.spec_get(k) is Some && k == keccak_of(
            new.spec_get(k).unwrap(),
        ))
}

pub proof fn lemma_db_extends_trans(a: MemoryDB, b: MemoryDB, c: MemoryDB)
    requires
        db_extends(b, a),
        db_extends(c, b),
    ensures
        db_extends(c, a),
{
    assert forall|k: Seq<u8>|
        #![auto]
        c.spec_get(k) == a.spec_get(k) || (c.spec_get(k) is Some && k == keccak_of(
            c.spec_get(k).unwrap(),
        )) by {
        assert(b.spec_get(k) == a.spec_get(k) || (b.spec_get(k) is Some && k == keccak_of(
            b.spec_get(k).unwrap(),
        )));
    }
}

/// A correct content-addressed entry survives a commit-style extension:
/// its key is either untouched or re-bound to content-addressed bytes.
pub proof fn lemma_stored_digest_extends(a: MemoryDB, b: MemoryDB, k: Seq<u8>)
    requires
        db_extends(b, a),
        stored_digest(a, k),
    ensures
        stored_digest(b, k),
{
    assert(b.spec_get(k) == a.spec_get(k) || (b.spec_get(k) is Some && k == keccak_of(
        b.spec_get(k).unwrap(),
    )));
}

/// Persistence of a subtree survives a commit-style extension.
pub proof fn lemma_committed_extends(a: MemoryDB, b: MemoryDB, n: Node)
    requires
        db_extends(b, a),
        committed(a, n),
    ensures
        committed(b, n),
    decreases n,
{
    match n {
        Node::Extension(e) => {
            lemma_child_persisted_extends(a, b, e.node);
            lemma_committed_extends(a, b, e.node);
        },
        Node::Branch(bb) => {
            assert forall|i: int| 0 <= i < bb.children@.len() implies child_persisted(
                b,
                #[trigger] bb.children@[i],
            ) && committed(b, bb.children@[i]) by {
                lemma_child_persisted_extends(a, b, bb.children@[i]);
                lemma_committed_extends(a, b, bb.children@[i]);
            }
        },
        _ => {},
    }
}

/// Persistence of one child reference survives a commit-style extension.
pub proof fn lemma_child_persisted_extends(a: MemoryDB, b: MemoryDB, c: Node)
    requires
        db_extends(b, a),
        child_persisted(a, c),
    ensures
        child_persisted(b, c),
{
    match c {
        Node::Empty => {},
        Node::Hash(_) => {},
        _ => {
            if node_encoded(c).len() >= 32 {
                lemma_stored_digest_extends(a, b, keccak_of(node_encoded(c)));
            }
        },
    }
}

/// Appends `src` to `dst`.
fn append_bytes(dst: &mut Vec<u8>, src: &[u8])
    ensures
        final(dst)@ == old(dst)@ + src@,
{
    let mut i: usize = 0;
    while i < src.len()
        invariant
            i <= src@.len(),
            dst@ =~= old(dst)@ + src@.subrange(0, i as int),
        decreases src@.len() - i,
    {
        dst.push(src[i]);
        proof {
            assert(dst@ =~= old(dst)@ + src@.subrange(0, i + 1));
        }
        i += 1;
    }
    proof {
        assert(src@.subrange(0, src@.len() as int) =~= src@);
        assert(dst@ =~= old(dst)@ + src@);
    }
}

/// Canonically encodes the subtree at `n`, persisting every hashed
/// descendant digest→encoding into the store; only content-addressed
/// entries are added.
#[verifier::loop_isolation(false)]
pub(crate) fn commit_node(n: &Node, db: &mut MemoryDB) -> (enc: Vec<u8>)
    requires
        node_wf(*n),
    ensures
        enc@ == node_encoded(*n),
        db_extends(*final(db), *old(db)),
        committed(*final(db), *n),
    decreases *n, 1int, 0int,
{
    match n {
        Node::Empty => {
            let mut v: Vec<u8> = Vec::new();
            v.push(128u8);
            proof {
                assert(v@ =~= seq![128u8]);
            }
            v
        },
        Node::Leaf(l) => {
            let hp = l.key.encode_compact(true);
            let a = rlp_encode_bytes(hp.as_slice());
            let bpart = rlp_encode_bytes(l.value.as_slice());
            let mut payload = a;
            append_bytes(&mut payload, bpart.as_slice());
            let mut enc = rlp_header_encode(true, payload.len());
            append_bytes(&mut enc, payload.as_slice());
            proof {
                assert(payload@ == node_payload(*n));
            }
            enc
        },
        Node::Extension(e) => {
            let hp = e.prefix.encode_compact(false);
            let a = rlp_encode_bytes(hp.as_slice());
            let cpart = commit_child(&e.node, db);
            let mut payload = a;
            append_bytes(&mut payload, cpart.as_slice());
            let mut enc = rlp_header_encode(true, payload.len());
            append_bytes(&mut enc, payload.as_slice());
            proof {
                assert(payload@ == node_payload(*n));
            }
            enc
        },
        Node::Branch(b) => {
            let ghost cs = b.children@;
            let ghost db0 = *db;
            let mut payload: Vec<u8> = Vec::new();
            let mut j: usize = 0;
            proof {
                assert(payload@ =~= children_payload(cs, 0));
            }
            while j < 16
                invariant
                    j <= 16,
                    node_wf(*n),
                    n matches Node::Branch(bb) && bb.children@ == cs,
                    cs.len() == 16,
                    payload@ == children_payload(cs, j as int),
                    db_extends(*db, db0),
                    forall|t: int|
                        0 <= t < j ==> child_persisted(*db, #[trigger] cs[t]) && committed(
                            *db,
                            cs[t],
                        ),
                decreases 16 - j,
            {
                let ghost db_before = *db;
                proof {
                    assert(node_wf(b.children@[j as int]));
                    assert(decreases_to!(*n => b.children@[j as int]));
                }
                let cr = commit_child(&b.children[j], db);
                append_bytes(&mut payload, cr.as_slice());
                proof {
                    lemma_db_extends_trans(db0, db_before, *db);
                    assert(payload@ == children_payload(cs, j + 1));
                    assert forall|t: int| 0 <= t < j + 1 implies child_persisted(
                        *db,
                        #[trigger] cs[t],
                    ) && committed(*db, cs[t]) by {
                        if t < j {
                            lemma_child_persisted_extends(db_before, *db, cs[t]);
                            lemma_committed_extends(db_before, *db, cs[t]);
                        }
                    }
                }
                j += 1;
            }
            let vpart = match &b.value {
                Some(v) => rlp_encode_bytes(v.as_slice()),
                None => {
                    let ev: Vec<u8> = Vec::new();
                    proof {
                        assert(ev@ =~= Seq::<u8>::empty());
                    }
                    rlp_encode_bytes(ev.as_slice())
                },
            };
            append_bytes(&mut payload, vpart.as_slice());
            let mut enc = rlp_header_encode(true, payload.len());
            append_bytes(&mut enc, payload.as_slice());
            proof {
                assert(payload@ == node_payload(*n));
            }
            enc
        },
        Node::Hash(h) => {
            proof {
                assert(false);
            }
            Vec::new()
        },
    }
}

/// Encodes the subtree at `n` in the reference form its parent embeds:
/// inline when the encoding is small, otherwise the digest string, with
/// the digest→encoding pair persisted into the store.
pub(crate) fn commit_child(n: &Node, db: &mut MemoryDB) -> (r: Vec<u8>)
    requires
        node_wf(*n),
    ensures
        r@ == child_ref(*n),
        db_extends(*final(db), *old(db)),
        committed(*final(db), *n),
        child_persisted(*final(db), *n),
    decreases *n, 2int, 0int,
{
    match n {
        Node::Empty => {
            let mut v: Vec<u8> = Vec::new();
            v.push(128u8);
            proof {
                assert(v@ =~= seq![128u8]);
            }
            v
        },
        Node::Hash(h) => {
            proof {
                assert(false);
            }
            Vec::new()
        },
        _ => {
            let ghost db0 = *db;
            let enc = commit_node(n, db);
            if enc.len() < 32 {
                enc
            } else {
                let ghost db1 = *db;
                let d = keccak(enc.as_slice());
                let d2 = vstd::slice::slice_to_vec(d.as_slice());
                let ghost ed = enc@;
                db.insert(d, enc);
                proof {
                    assert(db.spec_get(keccak_of(ed)) == Some(ed));
                    assert(db_extends(*db, db1));
                    lemma_db_extends_trans(db0, db1, *db);
                    lemma_committed_extends(db1, *db, *n);
                    assert(stored_digest(*db, keccak_of(node_encoded(*n))));
                    assert(child_persisted(*db, *n));
                }
                rlp_encode_bytes(d2.as_slice())
            }
        },
    }
}

} // verus!
