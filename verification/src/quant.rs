//! Multi-resolution quantization tiers and the byte layout of quantized payloads.

use vstd::prelude::*;

verus! {

/// Multi-resolution quantization tier per fractal layer.
#[derive(Debug, Clone, Copy, PartialEq, Eq, Structural)]
pub enum QuantTier {
    U8,
    U16,
    F32,
}

impl Default for QuantTier {
    fn default() -> (r: Self)
        ensures
            r == QuantTier::U8,
    {
        QuantTier::U8
    }
}

/// The tier a layer is stored at: the outermost layer at `U8`, the innermost
/// (and any layer past it) at `F32`, the layers between at `U16`.
pub open spec fn tier_for_layer(layer: nat, max_layers: nat) -> QuantTier {
    if layer == 0 {
        QuantTier::U8
    } else if layer + 1 >= max_layers {
        QuantTier::F32
    } else {
        QuantTier::U16
    }
}

pub open spec fn tier_bytes(t: QuantTier) -> nat {
    match t {
        QuantTier::U8 => 1,
        QuantTier::U16 => 2,
        QuantTier::F32 => 4,
    }
}

impl QuantTier {
    pub fn for_layer(layer: u8, max_layers: u8) -> (r: Self)
        ensures
            r == tier_for_layer(layer as nat, max_layers as nat),
    {
        if layer == 0 {
            QuantTier::U8
        } else if layer as u16 + 1 >= max_layers as u16 {
            QuantTier::F32
        } else {
            QuantTier::U16
        }
    }

    pub fn bytes_per_dim(&self) -> (r: usize)
        ensures
            r == tier_bytes(*self),
    {
        match self {
            QuantTier::U8 => 1,
            QuantTier::U16 => 2,
            QuantTier::F32 => 4,
        }
    }
}

/// Quantization tier as seen by the distance kernels.
#[derive(Debug, Clone, Copy, PartialEq, Eq, Structural)]
pub enum QuantTierKind {
    U8,
    U16,
    F32,
}


/// Little-endian bytes of a sequence of 16-bit codes.
pub open spec fn le_bytes_u16(codes: Seq<u16>) -> Seq<u8>
    decreases codes.len(),
{
    if codes.len() == 0 {
        Seq::empty()
    } else {
        le_bytes_u16(codes.drop_last()) + seq![
            (codes.last() % 256) as u8,
            (codes.last() / 256) as u8,
        ]
    }
}

/// Little-endian bytes of a sequence of 32-bit words.
pub open spec fn le_bytes_u32(words: Seq<u32>) -> Seq<u8>
    decreases words.len(),
{
    if words.len() == 0 {
        Seq::empty()
    } else {
        le_bytes_u32(words.drop_last()) + seq![
            (words.last() % 256) as u8,
            ((words.last() / 256) % 256) as u8,
            ((words.last() / 65536) % 256) as u8,
            (words.last() / 16777216) as u8,
        ]
    }
}

/// The 16-bit code stored at slot `i` of a little-endian payload.
pub open spec fn u16_at(data: Seq<u8>, i: int) -> u16 {
    (data[2 * i] as nat + 256 * data[2 * i + 1] as nat) as u16
}

/// The 32-bit word stored at slot `i` of a little-endian payload.
pub open spec fn u32_at(data: Seq<u8>, i: int) -> u32 {
    (data[4 * i] as nat + 256 * data[4 * i + 1] as nat + 65536 * data[4 * i + 2] as nat
        + 16777216 * data[4 * i + 3] as nat) as u32
}

pub proof fn lemma_le_bytes_u16_len(codes: Seq<u16>)
    ensures
        le_bytes_u16(codes).len() == 2 * codes.len(),
    decreases codes.len(),
{
    if codes.len() > 0 {
        lemma_le_bytes_u16_len(codes.drop_last());
    }
}

pub proof fn lemma_le_bytes_u32_len(words: Seq<u32>)
    ensures
        le_bytes_u32(words).len() == 4 * words.len(),
    decreases words.len(),
{
    if words.len() > 0 {
        lemma_le_bytes_u32_len(words.drop_last());
    }
}

proof fn lemma_le_bytes_u16_index(codes: Seq<u16>, i: int)
    requires
        0 <= i < codes.len(),
    ensures
        le_bytes_u16(codes)[2 * i] == (codes[i] % 256) as u8,
        le_bytes_u16(codes)[2 * i + 1] == (codes[i] / 256) as u8,
    decreases codes.len(),
{
    let init = codes.drop_last();
    lemma_le_bytes_u16_len(init);
    if i < codes.len() - 1 {
        lemma_le_bytes_u16_index(init, i);
        assert(init[i] == codes[i]);
    }
}

proof fn lemma_le_bytes_u32_index(words: Seq<u32>, i: int)
    requires
        0 <= i < words.len(),
    ensures
        le_bytes_u32(words)[4 * i] == (words[i] % 256) as u8,
        le_bytes_u32(words)[4 * i + 1] == ((words[i] / 256) % 256) as u8,
        le_bytes_u32(words)[4 * i + 2] == ((words[i] / 65536) % 256) as u8,
        le_bytes_u32(words)[4 * i + 3] == (words[i] / 16777216) as u8,
    decreases words.len(),
{
    let init = words.drop_last();
    lemma_le_bytes_u32_len(init);
    if i < words.len() - 1 {
        lemma_le_bytes_u32_index(init, i);
        assert(init[i] == words[i]);
    }
}

/// Reading back packed 16-bit codes gives the codes.
pub proof fn law_u16_pack_roundtrip(codes: Seq<u16>)
    ensures
        le_bytes_u16(codes).len() == 2 * codes.len(),
        forall|i: int| 0 <= i < codes.len() ==> #[trigger] u16_at(le_bytes_u16(codes), i) == codes[i],
{
    lemma_le_bytes_u16_len(codes);
    assert forall|i: int| 0 <= i < codes.len() implies #[trigger] u16_at(le_bytes_u16(codes), i)
        == codes[i] by {
        lemma_le_bytes_u16_index(codes, i);
        let q = codes[i];
        assert((q % 256) as nat + 256 * (q / 256) as nat == q as nat);
    }
}

/// Reading back packed 32-bit words gives the words.
pub proof fn law_u32_pack_roundtrip(words: Seq<u32>)
    ensures
        le_bytes_u32(words).len() == 4 * words.len(),
        forall|i: int| 0 <= i < words.len() ==> #[trigger] u32_at(le_bytes_u32(words), i) == words[i],
{
    lemma_le_bytes_u32_len(words);
    assert forall|i: int| 0 <= i < words.len() implies #[trigger] u32_at(le_bytes_u32(words), i)
        == words[i] by {
        lemma_le_bytes_u32_index(words, i);
        let w = words[i];
        assert((w % 256) as nat + 256 * ((w / 256) % 256) as nat + 65536 * ((w / 65536) % 256) as nat
            + 16777216 * (w / 16777216) as nat == w as nat);
    }
}

/// Packs 16-bit codes as little-endian byte pairs (`u16::to_le_bytes`, in order).
pub fn pack_u16_le(codes: &[u16]) -> (out: Vec<u8>)
    ensures
        out@ == le_bytes_u16(codes@),
        out@.len() == codes@.len() * tier_bytes(QuantTier::U16),
{
    let mut out: Vec<u8> = Vec::new();
    let mut i: usize = 0;
    while i < codes.len()
        invariant
            i <= codes@.len(),
            out@ == le_bytes_u16(codes@.take(i as int)),
        decreases codes@.len() - i,
    {
        let q = codes[i];
        out.push((q % 256) as u8);
        out.push((q / 256) as u8);
        proof {
            assert(codes@.take(i + 1).drop_last() =~= codes@.take(i as int));
        }
        i = i + 1;
    }
    proof {
        assert(codes@.take(codes@.len() as int) =~= codes@);
        lemma_le_bytes_u16_len(codes@);
    }
    out
}

/// Packs 32-bit words as little-endian byte quadruples (`u32::to_le_bytes`, in order).
pub fn pack_u32_le(words: &[u32]) -> (out: Vec<u8>)
    ensures
        out@ == le_bytes_u32(words@),
        out@.len() == words@.len() * tier_bytes(QuantTier::F32),
{
    let mut out: Vec<u8> = Vec::new();
    let mut i: usize = 0;
    while i < words.len()
        invariant
            i <= words@.len(),
            out@ == le_bytes_u32(words@.take(i as int)),
        decreases words@.len() - i,
    {
        let w = words[i];
        out.push((w % 256) as u8);
        out.push(((w / 256) % 256) as u8);
        out.push(((w / 65536) % 256) as u8);
        out.push((w / 16777216) as u8);
        proof {
            assert(words@.take(i + 1).drop_last() =~= words@.take(i as int));
        }
        i = i + 1;
    }
    proof {
        assert(words@.take(words@.len() as int) =~= words@);
        lemma_le_bytes_u32_len(words@);
    }
    out
}

/// Reads up to `dimension` little-endian 16-bit codes; stops at the first
/// slot that the payload does not fully hold.
pub fn unpack_u16_le(data: &[u8], dimension: usize) -> (out: Vec<u16>)
    ensures
        out@.len() == if dimension < data@.len() / 2 { dimension as nat } else { data@.len() / 2 },
        forall|i: int| 0 <= i < out@.len() ==> #[trigger] out@[i] == u16_at(data@, i),
{
    let mut out: Vec<u16> = Vec::new();
    let n = data.len() / 2;
    let mut i: usize = 0;
    while i < dimension && i < n
        invariant
            i <= dimension,
            i <= n,
            n == data@.len() / 2,
            out@.len() == i,
            forall|j: int| 0 <= j < i ==> #[trigger] out@[j] == u16_at(data@, j),
        decreases dimension - i,
    {
        assert(2 * i + 1 < data.len());
        let off = 2 * i;
        let q: u16 = (data[off] as u16) + 256 * (data[off + 1] as u16);
        out.push(q);
        i = i + 1;
    }
    out
}

/// Reads up to `dimension` little-endian 32-bit words; stops at the first
/// slot that the payload does not fully hold.
pub fn unpack_u32_le(data: &[u8], dimension: usize) -> (out: Vec<u32>)
    ensures
        out@.len() == if dimension < data@.len() / 4 { dimension as nat } else { data@.len() / 4 },
        forall|i: int| 0 <= i < out@.len() ==> #[trigger] out@[i] == u32_at(data@, i),
{
    let mut out: Vec<u32> = Vec::new();
    let n = data.len() / 4;
    let mut i: usize = 0;
    while i < dimension && i < n
        invariant
            i <= dimension,
            i <= n,
            n == data@.len() / 4,
            out@.len() == i,
            forall|j: int| 0 <= j < i ==> #[trigger] out@[j] == u32_at(data@, j),
        decreases dimension - i,
    {
        assert(4 * i + 3 < data.len());
        let off = 4 * i;
        let w: u32 = (data[off] as u32) + 256 * (data[off + 1] as u32) + 65536 * (
        data[off + 2] as u32) + 16777216 * (data[off + 3] as u32);
        out.push(w);
        i = i + 1;
    }
    out
}

} // verus!
