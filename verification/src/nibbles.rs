use vstd::prelude::*;

use crate::errors::TrieError;

verus! {

/// True when every element of `s` is a nibble, i.e. below 16.
pub open spec fn nibs_valid(s: Seq<u8>) -> bool {
    forall|i: int| 0 <= i < s.len() ==> s[i] < 16
}

/// A key path as a sequence of 4-bit values, most-significant nibble first.
#[derive(Debug)]
pub struct Nibbles {
    pub data: Vec<u8>,
}

impl View for Nibbles {
    type V = Seq<u8>;

    open spec fn view(&self) -> Seq<u8> {
        self.data@
    }
}

/// The hex-prefix (compact) encoding of a nibble path together with its
/// leaf flag: the first byte holds the flag bit (0x20), the parity bit
/// (0x10) and, for odd lengths, the first nibble; the remaining nibbles
/// are packed two per byte.
pub open spec fn hp_encode(n: Seq<u8>, is_leaf: bool) -> Seq<u8> {
    Seq::new(
        n.len() / 2 + 1,
        |i: int|
            if i == 0 {
                if n.len() % 2 == 1 {
                    ((if is_leaf { 48int } else { 16int }) + n[0]) as u8
                } else {
                    (if is_leaf { 32int } else { 0int }) as u8
                }
            } else {
                if n.len() % 2 == 1 {
                    (n[2 * i - 1] * 16 + n[2 * i]) as u8
                } else {
                    (n[2 * i - 2] * 16 + n[2 * i - 1]) as u8
                }
            },
    )
}

/// The nibble payload of a hex-prefix encoded byte string whose header
/// byte is already known to be well formed.
pub open spec fn hp_nibs(b: Seq<u8>) -> Seq<u8> {
    let odd = ((b[0] as int) / 16) % 2 == 1;
    Seq::new(
        (2 * (b.len() - 1) + if odd { 1int } else { 0int }) as nat,
        |j: int|
            if odd {
                if j == 0 {
                    (b[0] % 16) as u8
                } else if j % 2 == 1 {
                    (b[(j + 1) / 2] / 16) as u8
                } else {
                    (b[j / 2] % 16) as u8
                }
            } else {
                if j % 2 == 0 {
                    (b[j / 2 + 1] / 16) as u8
                } else {
                    (b[j / 2 + 1] % 16) as u8
                }
            },
    )
}

/// Hex-prefix decoding: the nibble path and the leaf flag, or `None` when
/// the bytes are not a well-formed hex-prefix encoding (empty input, a set
/// high bit in the header, or a nonzero padding nibble at even parity).
pub open spec fn hp_decode(b: Seq<u8>) -> Option<(Seq<u8>, bool)> {
    if b.len() == 0 {
        None
    } else {
        let b0 = b[0] as int;
        if b0 >= 64 {
            None
        } else {
            let is_leaf = b0 >= 32;
            let odd = (b0 / 16) % 2 == 1;
            if !odd && b0 % 16 != 0 {
                None
            } else {
                Some((hp_nibs(b), is_leaf))
            }
        }
    }
}

proof fn lemma_pack_unpack(a: int, b: int)
    requires
        0 <= a < 16,
        0 <= b < 16,
    ensures
        (a * 16 + b) / 16 == a,
        (a * 16 + b) % 16 == b,
{
    assert((a * 16 + b) / 16 == a && (a * 16 + b) % 16 == b) by (nonlinear_arith)
        requires
            0 <= a < 16,
            0 <= b < 16,
    ;
}

/// Hex-prefix decoding inverts hex-prefix encoding: every nibble path,
/// with either flag, is recovered exactly from its compact form.
pub proof fn lemma_hp_round_trip(n: Seq<u8>, is_leaf: bool)
    requires
        nibs_valid(n),
    ensures
        hp_decode(hp_encode(n, is_leaf)) == Some((n, is_leaf)),
{
    let b = hp_encode(n, is_leaf);
    let odd = n.len() % 2 == 1;
    assert(b.len() == n.len() / 2 + 1);
    let b0 = b[0] as int;
    if odd {
        assert(b0 == (if is_leaf { 48int } else { 16int }) + n[0]);
        assert(b0 < 64);
        assert((b0 / 16) % 2 == 1) by {
            lemma_pack_unpack((if is_leaf { 3int } else { 1int }), n[0] as int);
        }
        assert(b0 >= 32 <==> is_leaf);
    } else {
        assert(b0 == if is_leaf { 32int } else { 0int });
        assert(b0 < 64);
        assert((b0 / 16) % 2 == 0 && b0 % 16 == 0) by {
            lemma_pack_unpack((if is_leaf { 2int } else { 0int }), 0);
        }
        assert(b0 >= 32 <==> is_leaf);
    }
    let m = hp_nibs(b);
    assert(m.len() == n.len()) by {
        assert(2 * (b.len() - 1) + (if odd { 1int } else { 0int }) == n.len());
    }
    assert forall|j: int| 0 <= j < n.len() implies m[j] == n[j] by {
        if odd {
            if j == 0 {
                assert(b0 % 16 == n[0]) by {
                    lemma_pack_unpack((if is_leaf { 3int } else { 1int }), n[0] as int);
                }
            } else if j % 2 == 1 {
                let i = (j + 1) / 2;
                assert(1 <= i < b.len());
                assert(b[i] == (n[2 * i - 1] * 16 + n[2 * i]) as u8);
                assert(2 * i - 1 == j);
                lemma_pack_unpack(n[2 * i - 1] as int, n[2 * i] as int);
            } else {
                let i = j / 2;
                assert(1 <= i < b.len());
                assert(b[i] == (n[2 * i - 1] * 16 + n[2 * i]) as u8);
                assert(2 * i == j);
                lemma_pack_unpack(n[2 * i - 1] as int, n[2 * i] as int);
            }
        } else {
            let i = j / 2 + 1;
            assert(1 <= i < b.len());
            assert(b[i] == (n[2 * i - 2] * 16 + n[2 * i - 1]) as u8);
            lemma_pack_unpack(n[2 * i - 2] as int, n[2 * i - 1] as int);
            if j % 2 == 0 {
                assert(2 * i - 2 == j);
            } else {
                assert(2 * i - 1 == j);
            }
        }
    }
    assert(m =~= n);
}

impl Nibbles {
    /// True when every stored element is a nibble.
    pub open spec fn wf(&self) -> bool {
        nibs_valid(self@)
    }

    /// The empty nibble path.
    pub fn new() -> (r: Nibbles)
        ensures
            r@ == Seq::<u8>::empty(),
            r.wf(),
    {
        let r = Nibbles { data: Vec::new() };
        assert(r@ =~= Seq::<u8>::empty());
        r
    }

    /// Converts a raw key to its nibble path: each byte contributes its
    /// high nibble, then its low nibble.
    pub fn from_bytes(key: &[u8]) -> (r: Nibbles)
        ensures
            r@.len() == 2 * key@.len(),
            forall|i: int|
                0 <= i < key@.len() ==> r@[2 * i] == key@[i] / 16 && r@[2 * i + 1] == key@[i] % 16,
            r.wf(),
    {
        let mut data: Vec<u8> = Vec::new();
        let mut i: usize = 0;
        while i < key.len()
            invariant
                i <= key@.len(),
                data@.len() == 2 * i,
                forall|j: int|
                    0 <= j < i ==> data@[2 * j] == key@[j] / 16 && data@[2 * j + 1] == key@[j]
                        % 16,
                nibs_valid(data@),
            decreases key@.len() - i,
        {
            let hi = key[i] / 16;
            let lo = key[i] % 16;
            data.push(hi);
            data.push(lo);
            i += 1;
        }
        Nibbles { data }
    }

    /// The number of nibbles in the path.
    pub fn len(&self) -> (r: usize)
        ensures
            r == self@.len(),
    {
        self.data.len()
    }

    /// The nibble at position `i`.
    pub fn at(&self, i: usize) -> (r: u8)
        requires
            i < self@.len(),
        ensures
            r == self@[i as int],
    {
        self.data[i]
    }

    /// The sub-path from `from` (inclusive) to `to` (exclusive).
    pub fn slice(&self, from: usize, to: usize) -> (r: Nibbles)
        requires
            from <= to <= self@.len(),
        ensures
            r@ == self@.subrange(from as int, to as int),
    {
        let mut data: Vec<u8> = Vec::new();
        let mut i: usize = from;
        while i < to
            invariant
                from <= i <= to <= self@.len(),
                data@ =~= self@.subrange(from as int, i as int),
            decreases to - i,
        {
            data.push(self.data[i]);
            i += 1;
        }
        Nibbles { data }
    }

    /// The length of the longest common prefix of the two paths: all
    /// positions below the result agree, and either the result reaches the
    /// end of one path or the next positions differ.
    pub fn common_prefix_len(&self, other: &Nibbles) -> (r: usize)
        ensures
            r <= self@.len() && r <= other@.len(),
            forall|i: int| 0 <= i < r ==> self@[i] == other@[i],
            r < self@.len() && r < other@.len() ==> self@[r as int] != other@[r as int],
    {
        let mut i: usize = 0;
        while i < self.data.len() && i < other.data.len() && self.data[i] == other.data[i]
            invariant
                i <= self@.len() && i <= other@.len(),
                forall|j: int| 0 <= j < i ==> self@[j] == other@[j],
            decreases self@.len() - i,
        {
            i += 1;
        }
        i
    }

    /// The length of the longest common run between this path starting
    /// at `pos` and the whole of `other`.
    pub fn common_prefix_from(&self, pos: usize, other: &Nibbles) -> (r: usize)
        requires
            pos <= self@.len(),
        ensures
            r <= self@.len() - pos,
            r <= other@.len(),
            forall|i: int| 0 <= i < r ==> self@[pos + i] == other@[i],
            r < self@.len() - pos && r < other@.len() ==> self@[pos + r] != other@[r as int],
    {
        let n = self.data.len();
        let m = other.data.len();
        let mut i: usize = 0;
        while pos + i < n && i < m && self.data[pos + i] == other.data[i]
            invariant
                n == self@.len(),
                m == other@.len(),
                pos + i <= n,
                i <= m,
                forall|j: int| 0 <= j < i ==> self@[pos + j] == other@[j],
            decreases n - pos - i,
        {
            i += 1;
        }
        i
    }

    /// This path followed by `other`.
    pub fn concat(&self, other: &Nibbles) -> (r: Nibbles)
        ensures
            r@ == self@ + other@,
    {
        let mut data = vstd::slice::slice_to_vec(self.data.as_slice());
        let mut i: usize = 0;
        while i < other.data.len()
            invariant
                i <= other@.len(),
                data@ =~= self@ + other@.subrange(0, i as int),
            decreases other@.len() - i,
        {
            data.push(other.data[i]);
            proof {
                assert(data@ =~= self@ + other@.subrange(0, i + 1));
            }
            i += 1;
        }
        proof {
            assert(other@.subrange(0, other@.len() as int) =~= other@);
        }
        Nibbles { data }
    }

    /// The single nibble `x` followed by `other`.
    pub fn prepend(x: u8, other: &Nibbles) -> (r: Nibbles)
        ensures
            r@ == seq![x] + other@,
    {
        let mut data: Vec<u8> = Vec::new();
        data.push(x);
        let mut i: usize = 0;
        while i < other.data.len()
            invariant
                i <= other@.len(),
                data@ =~= seq![x] + other@.subrange(0, i as int),
            decreases other@.len() - i,
        {
            data.push(other.data[i]);
            proof {
                assert(data@ =~= seq![x] + other@.subrange(0, i + 1));
            }
            i += 1;
        }
        proof {
            assert(other@.subrange(0, other@.len() as int) =~= other@);
        }
        Nibbles { data }
    }

    /// The hex-prefix (compact) encoding of this path with the given flag.
    pub fn encode_compact(&self, is_leaf: bool) -> (r: Vec<u8>)
        requires
            self.wf(),
        ensures
            r@ == hp_encode(self@, is_leaf),
    {
        let n = &self.data;
        let len = n.len();
        let spec = Ghost(hp_encode(self@, is_leaf));
        let mut out: Vec<u8> = Vec::new();
        let odd = len % 2 == 1;
        if odd {
            let flag: u8 = if is_leaf {
                48
            } else {
                16
            };
            out.push(flag + n[0]);
        } else {
            let flag: u8 = if is_leaf {
                32
            } else {
                0
            };
            out.push(flag);
        }
        assert(out@[0] == spec@[0]);
        let start: usize = if odd {
            1
        } else {
            0
        };
        let pairs: usize = (len - start) / 2;
        assert(pairs == len / 2);
        let mut k: usize = 0;
        while k < pairs
            invariant
                k <= pairs,
                len == self@.len(),
                pairs == self@.len() / 2,
                start == self@.len() % 2,
                start + 2 * pairs <= len,
                self.wf(),
                spec@ == hp_encode(self@, is_leaf),
                out@.len() == k + 1,
                forall|j: int| 0 <= j < k + 1 ==> out@[j] == spec@[j],
            decreases pairs - k,
        {
            let a = self.data[start + 2 * k];
            let b = self.data[start + 2 * k + 1];
            assert(a < 16 && b < 16);
            out.push(a * 16 + b);
            assert(out@[k + 1] == spec@[k + 1]);
            k += 1;
        }
        assert(out@ =~= spec@);
        out
    }

    /// Hex-prefix decoding: the nibble path and its leaf flag, or
    /// `InvalidData` exactly when the bytes are not a well-formed
    /// hex-prefix encoding.
    pub fn decode_compact(b: &[u8]) -> (r: Result<(Nibbles, bool), TrieError>)
        ensures
            match r {
                Ok((n, is_leaf)) => hp_decode(b@) == Some((n@, is_leaf)) && n.wf(),
                Err(e) => hp_decode(b@) is None && e == TrieError::InvalidData,
            },
    {
        if b.len() == 0 {
            return Err(TrieError::InvalidData);
        }
        let b0 = b[0];
        if b0 >= 64 {
            return Err(TrieError::InvalidData);
        }
        let is_leaf = b0 >= 32;
        let odd = (b0 / 16) % 2 == 1;
        if !odd && b0 % 16 != 0 {
            return Err(TrieError::InvalidData);
        }
        let spec = Ghost(hp_nibs(b@));
        let mut data: Vec<u8> = Vec::new();
        if odd {
            data.push(b0 % 16);
            assert(data@[0] == spec@[0]);
        }
        let off: usize = if odd {
            1
        } else {
            0
        };
        let mut i: usize = 1;
        while i < b.len()
            invariant
                1 <= i <= b@.len(),
                off == if odd { 1int } else { 0int },
                odd == (((b@[0] as int) / 16) % 2 == 1),
                spec@ == hp_nibs(b@),
                data@.len() == off + 2 * (i - 1),
                forall|j: int| 0 <= j < data@.len() ==> data@[j] == spec@[j],
                nibs_valid(data@),
            decreases b@.len() - i,
        {
            let hi = b[i] / 16;
            let lo = b[i] % 16;
            data.push(hi);
            data.push(lo);
            proof {
                let j1 = off + 2 * (i - 1);
                let j2 = j1 + 1;
                if odd {
                    assert((j1 + 1) / 2 == i);
                    assert(j2 / 2 == i);
                    assert(spec@[j1] == (b@[i as int] / 16) as u8);
                    assert(spec@[j2] == (b@[i as int] % 16) as u8);
                } else {
                    assert(j1 / 2 + 1 == i);
                    assert(j2 / 2 + 1 == i);
                    assert(spec@[j1] == (b@[i as int] / 16) as u8);
                    assert(spec@[j2] == (b@[i as int] % 16) as u8);
                }
            }
            i += 1;
        }
        assert(data@ =~= spec@);
        Ok((Nibbles { data }, is_leaf))
    }
}

} // verus!
