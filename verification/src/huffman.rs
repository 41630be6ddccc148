//! Huffman codebooks: greedy tree construction with deterministic
//! tie-breaking, and the encoder- and decoder-side tree representations.
//!
//! Construction repeatedly merges the two entries of least weight, ties
//! broken on the lower original index, mirroring a min-heap keyed on
//! `(weight, index)`. The two sides store the same tree in the two shapes
//! the codecs need:
//!
//! * the *encoder* tree is a flat array of `2n - 1` parent links — entry
//!   `x != 0` means parent `x / 2` with branch bit `x % 2`, the root keeps
//!   `0` and sits at index `2n - 2`;
//! * the *decoder* tree is the list of the `n - 1` internal nodes in merge
//!   order — a child value `c < n` is the leaf for symbol `c`, any other
//!   value points to internal node `c - n`, and the root is the last entry.
//!
//! [`consistent`] ties the two shapes together edge by edge; both trees of
//! one [`codebook_pair`] call satisfy it, and
//! [`lemma_encode_decode_identity`] derives from it that decoding an encoded
//! symbol returns that symbol after consuming exactly its codeword.

use vstd::prelude::*;

verus! {

/// Failure of the encoder side: the symbol lies outside `0 .. num_symbols`.
#[derive(Clone, Copy, Debug, PartialEq, Eq)]
pub enum EncodingError {
    ImpossibleSymbol,
}

/// Failure of the decoder side: the bit source ended inside a codeword.
#[derive(Clone, Copy, Debug, PartialEq, Eq)]
pub enum DecodingError {
    OutOfCompressedData,
}

/// Probability weights that the tree builder can order and add. Nothing is
/// assumed of either operation in proofs; they only steer which entries
/// merge first. Beyond the unsigned weights implemented here, callers may
/// implement the trait for orderable floating-point wrappers of their own.
pub trait HuffmanWeight: Sized + Clone {
    /// Strict order on weights.
    fn less_than(&self, other: &Self) -> bool;

    /// Weight of a merged node.
    fn combine(&self, other: &Self) -> Self;
}

impl HuffmanWeight for u64 {
    fn less_than(&self, other: &Self) -> (r: bool)
        ensures
            r == (*self < *other),
    {
        *self < *other
    }

    /// Merged weights add with wrap-around, matching release-mode overflow
    /// behaviour of plain addition.
    fn combine(&self, other: &Self) -> (r: u64)
        ensures
            r == (*self + *other) % 0x1_0000_0000_0000_0000,
    {
        ((*self as u128 + *other as u128) % 0x1_0000_0000_0000_0000u128) as u64
    }
}

/// Conversion into an orderable weight, for probability types that must be
/// validated before they can be totally ordered.
pub trait TryIntoOrd {
    type Target;

    type Error;

    fn try_into(self) -> Result<Self::Target, Self::Error>;
}

/// Shape invariant of the encoder-side array: one odd-length array in which
/// exactly the last entry is the root marker `0`, and every parent link
/// points upwards into the internal half.
pub open spec fn encoder_wf(nodes: Seq<usize>) -> bool {
    &&& nodes.len() % 2 == 1
    &&& forall|i: int| 0 <= i < nodes.len() ==> ((#[trigger] nodes[i]) == 0 <==> i == nodes.len() - 1)
    &&& forall|i: int|
        0 <= i < nodes.len() - 1 ==> i < (#[trigger] nodes[i]) / 2 < nodes.len()
    &&& forall|i: int|
        0 <= i < nodes.len() - 1 ==> (#[trigger] nodes[i]) / 2 >= (nodes.len() + 1) / 2
}

/// Shape invariant of the decoder-side array: children point to leaves or to
/// earlier internal nodes, and the node count leaves the virtual root index
/// `2 * len` representable.
pub open spec fn decoder_wf(nodes: Seq<(usize, usize)>) -> bool {
    &&& 2 * nodes.len() < usize::MAX
    &&& forall|j: int|
        0 <= j < nodes.len() ==> (#[trigger] nodes[j]).0 < nodes.len() + 1 + j && nodes[j].1
            < nodes.len() + 1 + j
}

/// The encoder and decoder arrays describe the same tree: for every
/// non-root encoder entry, the decoder's record of its parent lists it as
/// the child on the recorded branch.
pub open spec fn consistent(enc: Seq<usize>, dec: Seq<(usize, usize)>) -> bool {
    &&& enc.len() == 2 * dec.len() + 1
    &&& forall|i: int|
        0 <= i < enc.len() - 1 ==> {
            let p = (#[trigger] enc[i]) / 2;
            &&& dec.len() + 1 <= p < enc.len()
            &&& (enc[i] % 2 == 0 ==> dec[p - dec.len() - 1].0 == i)
            &&& (enc[i] % 2 == 1 ==> dec[p - dec.len() - 1].1 == i)
        }
}

/// Whether some entry of the worklist carries tree index `i`.
pub open spec fn holds_index<P>(s: Seq<(P, usize)>, i: int) -> bool {
    exists|k: int| 0 <= k < s.len() && (#[trigger] s[k]).1 == i
}

/// Pairwise distinctness of the tree indices on the worklist.
pub open spec fn distinct_indices<P>(s: Seq<(P, usize)>) -> bool {
    forall|k1: int, k2: int|
        0 <= k1 < k2 < s.len() ==> (#[trigger] s[k1]).1 != (#[trigger] s[k2]).1
}

proof fn lemma_remove_effect<P>(s: Seq<(P, usize)>, pos: int)
    requires
        0 <= pos < s.len(),
        distinct_indices(s),
    ensures
        s.remove(pos).len() == s.len() - 1,
        distinct_indices(s.remove(pos)),
        forall|k: int|
            0 <= k < s.len() - 1 ==> (#[trigger] s.remove(pos)[k]).1 != s[pos].1,
        forall|k: int| 0 <= k < pos ==> #[trigger] s.remove(pos)[k] == s[k],
        forall|k: int| pos <= k < s.len() - 1 ==> #[trigger] s.remove(pos)[k] == s[k + 1],
        forall|i: int| #[trigger]
            holds_index(s.remove(pos), i) ==> holds_index(s, i),
        forall|i: int| #[trigger]
            holds_index(s, i) && i != s[pos].1 ==> holds_index(s.remove(pos), i),
    decreases s.len(),
{
    s.remove_ensures(pos);
    let t = s.remove(pos);
    assert forall|k: int| 0 <= k < s.len() - 1 implies (#[trigger] t[k]).1 != s[pos].1 by {
        if k < pos {
            assert(t[k] == s[k]);
        } else {
            assert(t[k] == s[k + 1]);
        }
    }
    assert forall|k1: int, k2: int| 0 <= k1 < k2 < t.len() implies (#[trigger] t[k1]).1 != (
    #[trigger] t[k2]).1 by {
        let m1 = if k1 < pos {
            k1
        } else {
            k1 + 1
        };
        let m2 = if k2 < pos {
            k2
        } else {
            k2 + 1
        };
        assert(t[k1] == s[m1]);
        assert(t[k2] == s[m2]);
    }
    assert forall|i: int| #[trigger] holds_index(t, i) implies holds_index(s, i) by {
        let k = choose|k: int| 0 <= k < t.len() && (#[trigger] t[k]).1 == i;
        if k < pos {
            assert(s[k].1 == i);
        } else {
            assert(s[k + 1].1 == i);
        }
    }
    assert forall|i: int| #[trigger] holds_index(s, i) && i != s[pos].1 implies holds_index(
        t,
        i,
    ) by {
        let k = choose|k: int| 0 <= k < s.len() && (#[trigger] s[k]).1 == i;
        if k < pos {
            assert(t[k].1 == i);
        } else {
            assert(k > pos);
            assert(t[k - 1].1 == i);
        }
    }
}

/// Position of the entry with the least `(weight, index)` pair, ties broken
/// towards the earlier position; equals the pop order of a min-heap keyed on
/// `(weight, index)` because distinct indices make the order strict.
fn min_weight_position<P: HuffmanWeight>(active: &Vec<(P, usize)>) -> (r: usize)
    requires
        active@.len() >= 1,
    ensures
        r < active@.len(),
{
    let mut best: usize = 0;
    let mut k: usize = 1;
    while k < active.len()
        invariant
            best < active@.len(),
            1 <= k,
        decreases active@.len() - k,
    {
        let cand = &active[k];
        let incumbent = &active[best];
        if cand.0.less_than(&incumbent.0) || (!incumbent.0.less_than(&cand.0) && cand.1
            < incumbent.1) {
            best = k;
        }
        k = k + 1;
    }
    best
}

/// The encoder-side representation of a Huffman tree. See the module
/// documentation for the array layout.
#[derive(Debug, Clone)]
pub struct EncoderHuffmanTree {
    nodes: Vec<usize>,
}

impl View for EncoderHuffmanTree {
    type V = Seq<usize>;

    closed spec fn view(&self) -> Seq<usize> {
        self.nodes@
    }
}

/// The codeword of node `i`, root branch first: empty at the root,
/// otherwise the parent's codeword followed by the node's branch bit.
pub open spec fn enc_path(nodes: Seq<usize>, i: int) -> Seq<bool>
    decreases nodes.len() - i,
{
    if 0 <= i < nodes.len() && nodes[i] != 0 && i < nodes[i] as int / 2 < nodes.len() {
        enc_path(nodes, nodes[i] as int / 2).push(nodes[i] % 2 == 1)
    } else {
        Seq::empty()
    }
}

impl EncoderHuffmanTree {
    /// Shape invariant; see [`encoder_wf`].
    pub open spec fn wf(&self) -> bool {
        encoder_wf(self@)
    }

    /// Number of symbols the tree encodes.
    pub open spec fn num_syms(&self) -> int {
        (self@.len() as int) / 2 + 1
    }

    /// Builds the encoder tree for the given probability weights; the
    /// decoder tree built from equal weights describes the same tree.
    pub fn from_probabilities<P: HuffmanWeight>(probabilities: &Vec<P>) -> (r: Self)
        requires
            1 <= probabilities@.len() <= usize::MAX / 4,
        ensures
            r.wf(),
            r.num_syms() == probabilities@.len(),
    {
        codebook_pair(probabilities).0
    }

    /// Builds the encoder tree from pre-validated probability weights,
    /// failing exactly when some weight failed its validation.
    pub fn try_from_probabilities<P: HuffmanWeight>(probabilities: &Vec<Result<P, ()>>) -> (r:
        Result<Self, ()>)
        requires
            1 <= probabilities@.len() <= usize::MAX / 4,
        ensures
            (r is Ok) <==> (forall|k: int|
                0 <= k < probabilities@.len() ==> (#[trigger] probabilities@[k]) is Ok),
            r matches Ok(t) ==> t.wf() && t.num_syms() == probabilities@.len(),
    {
        let validated = collect_weights(probabilities);
        match validated {
            Ok(ps) => Ok(Self::from_probabilities(&ps)),
            Err(e) => Err(e),
        }
    }

    /// The stored parent-link array.
    pub fn nodes(&self) -> (r: &Vec<usize>)
        ensures
            r@ == self@,
    {
        &self.nodes
    }

    /// Number of symbols the tree encodes.
    pub fn num_symbols(&self) -> (r: usize)
        ensures
            r == self.num_syms(),
    {
        self.nodes.len() / 2 + 1
    }

    /// Emits the codeword of `symbol`, first bit first, by walking from the
    /// symbol's leaf up to the root and reversing the collected branch
    /// bits. Fails exactly on symbols outside the alphabet; the codeword of
    /// a one-symbol alphabet is empty.
    pub fn encode_symbol(&self, symbol: usize) -> (r: Result<Vec<bool>, EncodingError>)
        requires
            self.wf(),
        ensures
            (symbol < self.num_syms()) <==> (r is Ok),
            r matches Err(e) ==> e == EncodingError::ImpossibleSymbol,
            r matches Ok(bits) ==> bits@ == enc_path(self@, symbol as int),
    {
        if symbol > self.nodes.len() / 2 {
            return Err(EncodingError::ImpossibleSymbol);
        }
        let mut reverse_codeword: Vec<bool> = Vec::new();
        let mut node_index = symbol;
        proof {
            assert(enc_path(self@, symbol as int) =~= enc_path(self@, symbol as int)
                + reverse_codeword@.reverse());
        }
        while self.nodes[node_index] != 0
            invariant
                self.wf(),
                node_index < self@.len(),
                enc_path(self@, symbol as int) == enc_path(self@, node_index as int)
                    + reverse_codeword@.reverse(),
            decreases self@.len() - node_index,
        {
            let node = self.nodes[node_index];
            let ghost rev0 = reverse_codeword@;
            reverse_codeword.push(node % 2 == 1);
            proof {
                assert(reverse_codeword@.reverse() =~= seq![(node % 2 == 1)] + rev0.reverse());
                assert(enc_path(self@, node_index as int) == enc_path(
                    self@,
                    node as int / 2,
                ).push(node % 2 == 1));
                assert(enc_path(self@, node_index as int) + rev0.reverse() =~= enc_path(
                    self@,
                    node as int / 2,
                ) + reverse_codeword@.reverse());
            }
            node_index = node / 2;
        }
        let total = reverse_codeword.len();
        let mut codeword: Vec<bool> = Vec::new();
        let mut k: usize = 0;
        while k < total
            invariant
                total == reverse_codeword@.len(),
                codeword@.len() == k <= total,
                forall|j: int|
                    0 <= j < k ==> #[trigger] codeword@[j] == reverse_codeword@[total - 1 - j],
            decreases total - k,
        {
            codeword.push(reverse_codeword[total - 1 - k]);
            k = k + 1;
        }
        proof {
            assert(codeword@ =~= reverse_codeword@.reverse());
            assert(enc_path(self@, node_index as int) =~= Seq::<bool>::empty());
            assert(enc_path(self@, symbol as int) =~= codeword@);
        }
        Ok(codeword)
    }
}

/// Validates a list of weight candidates, failing on the first invalid one.
fn collect_weights<P: HuffmanWeight>(probabilities: &Vec<Result<P, ()>>) -> (r: Result<
    Vec<P>,
    (),
>)
    ensures
        (r is Ok) <==> (forall|k: int|
            0 <= k < probabilities@.len() ==> (#[trigger] probabilities@[k]) is Ok),
        r matches Ok(ps) ==> ps@.len() == probabilities@.len(),
{
    let mut ps: Vec<P> = Vec::new();
    let mut i: usize = 0;
    while i < probabilities.len()
        invariant
            ps@.len() == i <= probabilities@.len(),
            forall|k: int| 0 <= k < i ==> (#[trigger] probabilities@[k]) is Ok,
        decreases probabilities@.len() - i,
    {
        match &probabilities[i] {
            Ok(p) => ps.push(p.clone()),
            Err(_) => {
                return Err(());
            },
        }
        i = i + 1;
    }
    Ok(ps)
}

/// The decoder-side representation of a Huffman tree. See the module
/// documentation for the array layout.
#[derive(Debug, Clone)]
pub struct DecoderHuffmanTree {
    nodes: Vec<(usize, usize)>,
}

impl View for DecoderHuffmanTree {
    type V = Seq<(usize, usize)>;

    closed spec fn view(&self) -> Seq<(usize, usize)> {
        self.nodes@
    }
}

/// The result of walking the decoder tree from node `idx` along `bits`:
/// the leaf symbol reached and the number of bits consumed, or `None` when
/// the bits run out first.
pub open spec fn dec_walk(nodes: Seq<(usize, usize)>, idx: int, bits: Seq<bool>) -> Option<
    (int, int),
>
    decreases bits.len(),
{
    let n = nodes.len() + 1;
    if idx < n {
        Some((idx, 0))
    } else if idx - n >= nodes.len() || bits.len() == 0 {
        None
    } else {
        let child = if bits[0] {
            nodes[idx - n].1 as int
        } else {
            nodes[idx - n].0 as int
        };
        shift_walk(dec_walk(nodes, child, bits.drop_first()), 1)
    }
}

/// Adds `k` to the consumed-bits count of a walk result.
pub open spec fn shift_walk(w: Option<(int, int)>, k: int) -> Option<(int, int)> {
    match w {
        Some(p) => Some((p.0, p.1 + k)),
        None => None,
    }
}

impl DecoderHuffmanTree {
    /// Shape invariant; see [`decoder_wf`].
    pub open spec fn wf(&self) -> bool {
        decoder_wf(self@)
    }

    /// Number of symbols the tree decodes.
    pub open spec fn num_syms(&self) -> int {
        self@.len() as int + 1
    }

    /// Builds the decoder tree for the given probability weights; the
    /// encoder tree built from equal weights describes the same tree.
    pub fn from_probabilities<P: HuffmanWeight>(probabilities: &Vec<P>) -> (r: Self)
        requires
            1 <= probabilities@.len() <= usize::MAX / 4,
        ensures
            r.wf(),
            r.num_syms() == probabilities@.len(),
    {
        codebook_pair(probabilities).1
    }

    /// Builds the decoder tree from pre-validated probability weights,
    /// failing exactly when some weight failed its validation.
    pub fn try_from_probabilities<P: HuffmanWeight>(probabilities: &Vec<Result<P, ()>>) -> (r:
        Result<Self, ()>)
        requires
            1 <= probabilities@.len() <= usize::MAX / 4,
        ensures
            (r is Ok) <==> (forall|k: int|
                0 <= k < probabilities@.len() ==> (#[trigger] probabilities@[k]) is Ok),
            r matches Ok(t) ==> t.wf() && t.num_syms() == probabilities@.len(),
    {
        let validated = collect_weights(probabilities);
        match validated {
            Ok(ps) => Ok(Self::from_probabilities(&ps)),
            Err(e) => Err(e),
        }
    }

    /// The stored internal nodes, each a pair of child values.
    pub fn nodes(&self) -> (r: &Vec<(usize, usize)>)
        ensures
            r@ == self@,
    {
        &self.nodes
    }

    /// Number of symbols the tree decodes.
    pub fn num_symbols(&self) -> (r: usize)
        requires
            self.wf(),
        ensures
            r == self.num_syms(),
    {
        self.nodes.len() + 1
    }

    /// Reads one codeword from `bits`, starting at position `start`, by
    /// walking the tree from the root; returns the decoded symbol and the
    /// position of the first bit after the codeword. Fails exactly when the
    /// bits run out before a leaf is reached; a one-symbol alphabet decodes
    /// to symbol `0` without consuming anything.
    pub fn decode_symbol(&self, bits: &Vec<bool>, start: usize) -> (r: Result<
        (usize, usize),
        DecodingError,
    >)
        requires
            self.wf(),
            start <= bits@.len(),
        ensures
            ({
                let w = dec_walk(
                    self@,
                    2 * (self@.len() as int),
                    bits@.subrange(start as int, bits@.len() as int),
                );
                &&& ((w is Some) <==> (r is Ok))
                &&& (r matches Ok(p) ==> w matches Some(q) && p.0 == q.0 && p.1 == start + q.1)
                &&& (r matches Err(e) ==> e == DecodingError::OutOfCompressedData)
            }),
    {
        let num_nodes = self.nodes.len();
        let num_symbols = num_nodes + 1;
        let mut node_index: usize = 2 * num_nodes;
        let mut pos = start;
        let ghost w0 = dec_walk(
            self@,
            2 * (self@.len() as int),
            bits@.subrange(start as int, bits@.len() as int),
        );
        while node_index >= num_symbols
            invariant
                self.wf(),
                num_symbols == self@.len() + 1,
                start <= pos <= bits@.len(),
                node_index <= 2 * self@.len(),
                w0 == dec_walk(
                    self@,
                    2 * (self@.len() as int),
                    bits@.subrange(start as int, bits@.len() as int),
                ),
                w0 == shift_walk(
                    dec_walk(
                        self@,
                        node_index as int,
                        bits@.subrange(pos as int, bits@.len() as int),
                    ),
                    pos - start,
                ),
            decreases bits@.len() - pos,
        {
            let ghost tail = bits@.subrange(pos as int, bits@.len() as int);
            if pos == bits.len() {
                proof {
                    assert(tail.len() == 0);
                    assert(dec_walk(self@, node_index as int, tail) is None);
                    assert(w0 is None);
                }
                return Err(DecodingError::OutOfCompressedData);
            }
            let bit = bits[pos];
            let j = node_index - num_symbols;
            let children = self.nodes[j];
            proof {
                assert(tail[0] == bit);
                assert(tail.drop_first() =~= bits@.subrange(pos + 1, bits@.len() as int));
            }
            node_index = if bit {
                children.1
            } else {
                children.0
            };
            pos = pos + 1;
        }
        proof {
            assert(dec_walk(
                self@,
                node_index as int,
                bits@.subrange(pos as int, bits@.len() as int),
            ) == Some((node_index as int, 0int)));
        }
        Ok((node_index, pos))
    }
}

/// Round-trip law of a consistent codebook pair: decoding any bit sequence
/// that begins with the codeword of a symbol yields exactly that symbol and
/// consumes exactly the codeword, leaving the remaining bits for the next
/// symbol. Stated over the walk specs that `encode_symbol` and
/// `decode_symbol` are proved against.
pub proof fn lemma_encode_decode_identity(
    enc: Seq<usize>,
    dec: Seq<(usize, usize)>,
    symbol: int,
    rest: Seq<bool>,
)
    requires
        encoder_wf(enc),
        decoder_wf(dec),
        consistent(enc, dec),
        0 <= symbol < (enc.len() as int) / 2 + 1,
    ensures
        dec_walk(dec, 2 * (dec.len() as int), enc_path(enc, symbol) + rest) == Some(
            (symbol, enc_path(enc, symbol).len() as int),
        ),
{
    lemma_walk_prefix(enc, dec, symbol, rest);
    assert(dec_walk(dec, symbol, rest) == Some((symbol, 0int)));
}

/// Walking the decoder tree from the root along the codeword of any node
/// `i` — leaf or internal — reaches `i`, after which the walk continues on
/// the remaining bits.
proof fn lemma_walk_prefix(enc: Seq<usize>, dec: Seq<(usize, usize)>, i: int, rest: Seq<bool>)
    requires
        encoder_wf(enc),
        decoder_wf(dec),
        consistent(enc, dec),
        0 <= i < enc.len(),
    ensures
        dec_walk(dec, 2 * (dec.len() as int), enc_path(enc, i) + rest) == shift_walk(
            dec_walk(dec, i, rest),
            enc_path(enc, i).len() as int,
        ),
    decreases enc_path(enc, i).len(),
{
    let n = dec.len() + 1;
    let root = 2 * (dec.len() as int);
    if enc[i] == 0 {
        assert(i == enc.len() - 1);
        assert(i == root);
        assert(enc_path(enc, i) =~= Seq::<bool>::empty());
        assert(enc_path(enc, i) + rest =~= rest);
    } else {
        let p = enc[i] as int / 2;
        let b = enc[i] as int % 2 == 1;
        assert(enc_path(enc, i) == enc_path(enc, p).push(b));
        let with_bit = seq![b] + rest;
        lemma_walk_prefix(enc, dec, p, with_bit);
        assert(enc_path(enc, i) + rest =~= enc_path(enc, p) + with_bit);
        assert(with_bit[0] == b);
        assert(with_bit.drop_first() =~= rest);
        assert(p >= n);
        assert(p - n < dec.len());
        assert(dec_walk(dec, p, with_bit) == shift_walk(dec_walk(dec, i, rest), 1));
    }
}

/// Builds the encoder and decoder representation of one Huffman tree in a
/// single pass, so that the pair is [`consistent`] by construction.
pub fn codebook_pair<P: HuffmanWeight>(probabilities: &Vec<P>) -> (r: (
    EncoderHuffmanTree,
    DecoderHuffmanTree,
))
    requires
        1 <= probabilities@.len() <= usize::MAX / 4,
    ensures
        r.0.wf(),
        r.1.wf(),
        consistent(r.0@, r.1@),
        r.0.num_syms() == probabilities@.len(),
        r.1.num_syms() == probabilities@.len(),
{
    let n = probabilities.len();
    let mut enc_nodes: Vec<usize> = Vec::new();
    let mut i: usize = 0;
    while i < 2 * n - 1
        invariant
            1 <= n <= usize::MAX / 4,
            enc_nodes@.len() == i <= 2 * n - 1,
            forall|j: int| 0 <= j < enc_nodes@.len() ==> #[trigger] enc_nodes@[j] == 0,
        decreases 2 * n - 1 - i,
    {
        enc_nodes.push(0);
        i = i + 1;
    }
    let mut dec_nodes: Vec<(usize, usize)> = Vec::new();
    let mut active: Vec<(P, usize)> = Vec::new();
    let mut i: usize = 0;
    while i < n
        invariant
            n == probabilities@.len(),
            active@.len() == i <= n,
            forall|k: int| 0 <= k < active@.len() ==> (#[trigger] active@[k]).1 == k,
        decreases n - i,
    {
        active.push((probabilities[i].clone(), i));
        i = i + 1;
    }
    let mut next_node_index = n;
    proof {
        assert forall|i: int| 0 <= i < n implies #[trigger] holds_index(active@, i) by {
            assert(active@[i].1 == i);
        }
        assert(holds_index(active@, n - 1));
    }
    while active.len() >= 2
        invariant
            1 <= n <= usize::MAX / 4,
            enc_nodes@.len() == 2 * n - 1,
            next_node_index == n + dec_nodes@.len(),
            active@.len() + dec_nodes@.len() == n,
            active@.len() >= 1,
            distinct_indices(active@),
            forall|k: int|
                0 <= k < active@.len() ==> (#[trigger] active@[k]).1 < next_node_index,
            holds_index(active@, next_node_index - 1),
            forall|i: int|
                0 <= i < next_node_index ==> ((#[trigger] enc_nodes@[i]) == 0 <==> holds_index(
                    active@,
                    i,
                )),
            forall|i: int|
                next_node_index <= i < enc_nodes@.len() ==> (#[trigger] enc_nodes@[i]) == 0,
            forall|i: int|
                0 <= i < enc_nodes@.len() && (#[trigger] enc_nodes@[i]) != 0 ==> {
                    let p = enc_nodes@[i] / 2;
                    &&& i < p < next_node_index
                    &&& n <= p
                    &&& p - n < dec_nodes@.len()
                    &&& (enc_nodes@[i] % 2 == 0 ==> dec_nodes@[p - n].0 == i)
                    &&& (enc_nodes@[i] % 2 == 1 ==> dec_nodes@[p - n].1 == i)
                },
            forall|j: int|
                0 <= j < dec_nodes@.len() ==> (#[trigger] dec_nodes@[j]).0 < n + j
                    && dec_nodes@[j].1 < n + j,
        decreases active@.len(),
    {
        let ghost a0 = active@;
        let pos0 = min_weight_position(&active);
        proof {
            lemma_remove_effect(a0, pos0 as int);
        }
        let entry0 = active.remove(pos0);
        let ghost a1 = active@;
        let pos1 = min_weight_position(&active);
        proof {
            lemma_remove_effect(a1, pos1 as int);
        }
        let entry1 = active.remove(pos1);
        let ghost a2 = active@;
        let (weight0, index0) = entry0;
        let (weight1, index1) = entry1;
        proof {
            assert(holds_index(a0, index0 as int));
            assert(holds_index(a1, index1 as int));
            assert(index0 != index1);
            assert(!holds_index(a1, index0 as int));
            assert(!holds_index(a2, index0 as int));
            assert(!holds_index(a2, index1 as int));
            assert(enc_nodes@[index0 as int] == 0);
            assert(enc_nodes@[index1 as int] == 0);
        }
        let ghost enc0 = enc_nodes@;
        enc_nodes.set(index0, next_node_index * 2);
        enc_nodes.set(index1, next_node_index * 2 + 1);
        let ghost d0 = dec_nodes@;
        dec_nodes.push((index0, index1));
        active.push((weight0.combine(&weight1), next_node_index));
        let ghost a3 = active@;
        proof {
            assert forall|i: int|
                0 <= i < next_node_index + 1 implies ((#[trigger] enc_nodes@[i]) == 0
                <==> holds_index(a3, i)) by {
                if i == next_node_index {
                    assert(a3[a3.len() - 1].1 == i);
                    assert(holds_index(a3, i));
                } else if i == index0 || i == index1 {
                    assert(enc_nodes@[i] != 0);
                    if holds_index(a3, i) {
                        let k = choose|k: int| 0 <= k < a3.len() && (#[trigger] a3[k]).1 == i;
                        assert(a3[k] == a2[k]);
                        assert(holds_index(a2, i));
                    }
                } else {
                    assert(enc_nodes@[i] == enc0[i]);
                    if holds_index(a3, i) {
                        let k = choose|k: int| 0 <= k < a3.len() && (#[trigger] a3[k]).1 == i;
                        assert(a3[k] == a2[k]);
                        assert(holds_index(a2, i));
                        assert(holds_index(a0, i));
                    }
                    if holds_index(a0, i) {
                        assert(holds_index(a1, i));
                        assert(holds_index(a2, i));
                        let k = choose|k: int| 0 <= k < a2.len() && (#[trigger] a2[k]).1 == i;
                        assert(a3[k] == a2[k]);
                        assert(holds_index(a3, i));
                    }
                }
            }
            assert forall|k1: int, k2: int| 0 <= k1 < k2 < a3.len() implies (#[trigger] a3[k1]).1
                != (#[trigger] a3[k2]).1 by {
                if k2 == a3.len() - 1 {
                    assert(a3[k1] == a2[k1]);
                    assert(a2[k1].1 < next_node_index);
                } else {
                    assert(a3[k1] == a2[k1]);
                    assert(a3[k2] == a2[k2]);
                }
            }
            assert(a3[a3.len() - 1].1 == next_node_index as int);
            assert(holds_index(a3, next_node_index as int));
        }
        next_node_index = next_node_index + 1;
    }
    proof {
        let last = enc_nodes@.len() - 1;
        assert(active@.len() == 1);
        assert(next_node_index == 2 * n - 1);
        assert(active@[0].1 == last) by {
            let k = choose|k: int|
                0 <= k < active@.len() && (#[trigger] active@[k]).1 == next_node_index - 1;
            assert(k == 0);
        }
        assert forall|i: int| 0 <= i < enc_nodes@.len() implies ((#[trigger] enc_nodes@[i]) == 0
            <==> i == last) by {
            if enc_nodes@[i] == 0 {
                assert(holds_index(active@, i));
                let k = choose|k: int|
                    0 <= k < active@.len() && (#[trigger] active@[k]).1 == i;
                assert(k == 0);
            }
            if i == last {
                assert(holds_index(active@, i));
            }
        }
        assert(encoder_wf(enc_nodes@));
        assert(decoder_wf(dec_nodes@));
        assert(consistent(enc_nodes@, dec_nodes@));
    }
    (EncoderHuffmanTree { nodes: enc_nodes }, DecoderHuffmanTree { nodes: dec_nodes })
}

} // verus!
