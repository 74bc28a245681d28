//! Vertex-format vocabulary and index-buffer assembly for baked meshes.

use vstd::prelude::*;

verus! {

/// Byte stride of one packed vertex — the value used in the GPU vertex buffer layout.
pub const VERT_STRIDE: u32 = 64;

/// Facade recipes understood by the procedural window shader.
#[derive(Clone, Copy, Debug, PartialEq, Eq, Structural)]
pub enum FacadeKind {
    /// Plain shaded surface, no windows.
    Plain,
    /// Curtain wall: near-continuous glazing on a fine grid.
    CurtainWall,
    /// Concrete frame with punched windows and spandrels.
    FrameGrid,
    /// Brick/stucco with sash windows and sills.
    Masonry,
    /// Shopfront: tall glazing, awning band, brightest at night.
    Shopfront,
    /// Multi-storey car park: open deck slots.
    CarPark,
    /// House: small windows in solid walls.
    House,
}

/// Surface character, packed into the specular byte of a vertex colour.
#[derive(Clone, Copy, Debug, PartialEq, Eq, Structural)]
pub enum Finish {
    Matte,
    Satin,
    Gloss,
    Chrome,
    Wet,
    Glass,
}

/// Specular byte of each finish.
pub open spec fn spec_finish_byte(f: Finish) -> u8 {
    match f {
        Finish::Matte => 12,
        Finish::Satin => 64,
        Finish::Gloss => 160,
        Finish::Chrome => 235,
        Finish::Wet => 200,
        Finish::Glass => 224,
    }
}

impl Finish {
    /// Value written into the colour's alpha byte.
    pub fn spec_byte(self) -> (r: u8)
        ensures
            r == spec_finish_byte(self),
    {
        match self {
            Finish::Matte => 12,
            Finish::Satin => 64,
            Finish::Gloss => 160,
            Finish::Chrome => 235,
            Finish::Wet => 200,
            Finish::Glass => 224,
        }
    }
}

/// Appends the three indices of a triangle whose vertices start at `base`.
pub fn push_tri(idx: &mut Vec<u32>, base: u32)
    requires
        base + 2 <= u32::MAX,
    ensures
        final(idx)@ == old(idx)@ + seq![base, (base + 1) as u32, (base + 2) as u32],
{
    idx.push(base);
    idx.push(base + 1);
    idx.push(base + 2);
    assert(idx@ =~= old(idx)@ + seq![base, (base + 1) as u32, (base + 2) as u32]);
}

/// Appends the six indices of a quad (two triangles sharing the diagonal 0–2) whose
/// four vertices start at `base`.
pub fn push_quad(idx: &mut Vec<u32>, base: u32)
    requires
        base + 3 <= u32::MAX,
    ensures
        final(idx)@ == old(idx)@ + seq![
            base,
            (base + 1) as u32,
            (base + 2) as u32,
            base,
            (base + 2) as u32,
            (base + 3) as u32,
        ],
{
    idx.push(base);
    idx.push(base + 1);
    idx.push(base + 2);
    idx.push(base);
    idx.push(base + 2);
    idx.push(base + 3);
    assert(idx@ =~= old(idx)@ + seq![
        base,
        (base + 1) as u32,
        (base + 2) as u32,
        base,
        (base + 2) as u32,
        (base + 3) as u32,
    ]);
}

/// `other` with every index shifted by `base`.
pub open spec fn spec_offset(other: Seq<u32>, base: u32) -> Seq<u32> {
    Seq::new(other.len(), |i: int| (other[i] + base) as u32)
}

/// Appends another mesh's indices, shifted past the `base` vertices already present.
pub fn append_offset(idx: &mut Vec<u32>, other: &[u32], base: u32)
    requires
        forall|i: int| 0 <= i < other@.len() ==> other@[i] + base <= u32::MAX,
    ensures
        final(idx)@ == old(idx)@ + spec_offset(other@, base),
        final(idx)@.len() == old(idx)@.len() + other@.len(),
        forall|i: int| 0 <= i < old(idx)@.len() ==> final(idx)@[i] == old(idx)@[i],
        forall|i: int|
            0 <= i < other@.len() ==> final(idx)@[old(idx)@.len() + i] == other@[i] + base,
{
    let mut k: usize = 0;
    while k < other.len()
        invariant
            k <= other@.len(),
            forall|i: int| 0 <= i < other@.len() ==> other@[i] + base <= u32::MAX,
            idx@ == old(idx)@ + spec_offset(other@, base).take(k as int),
        decreases other@.len() - k,
    {
        assert(other@[k as int] + base <= u32::MAX);
        idx.push(base + other[k]);
        assert(spec_offset(other@, base).take(k + 1) =~= spec_offset(other@, base).take(
            k as int,
        ).push((other@[k as int] + base) as u32));
        k += 1;
    }
    assert(spec_offset(other@, base).take(k as int) =~= spec_offset(other@, base));
    proof {
        lemma_offset_shifts(other@, base);
    }
}

/// Merging shifts, and only shifts: the merged indices are the other mesh's indices at the
/// same positions, each plus `base`, so a merged mesh keeps its own triangles.
pub proof fn lemma_offset_shifts(other: Seq<u32>, base: u32)
    requires
        forall|i: int| 0 <= i < other.len() ==> other[i] + base <= u32::MAX,
    ensures
        spec_offset(other, base).len() == other.len(),
        forall|i: int|
            0 <= i < other.len() ==> #[trigger] spec_offset(other, base)[i] == other[i] + base,
        forall|i: int, j: int|
            0 <= i < other.len() && 0 <= j < other.len() ==> (spec_offset(other, base)[i]
                == spec_offset(other, base)[j] <==> other[i] == other[j]),
{
}

/// The four little-endian bytes of `x`.
pub open spec fn spec_le_bytes(x: u32) -> Seq<u8> {
    seq![(x & 0xff) as u8, ((x >> 8) & 0xff) as u8, ((x >> 16) & 0xff) as u8, (x >> 24) as u8]
}

/// Index data as consecutive little-endian `u32` bytes.
pub open spec fn spec_index_bytes(idx: Seq<u32>) -> Seq<u8>
    decreases idx.len(),
{
    if idx.len() == 0 {
        Seq::empty()
    } else {
        spec_index_bytes(idx.drop_last()) + spec_le_bytes(idx.last())
    }
}

/// Index data as little-endian `u32` bytes, ready for upload.
pub fn index_bytes(idx: &[u32]) -> (r: Vec<u8>)
    ensures
        r@ == spec_index_bytes(idx@),
        r@.len() == 4 * idx@.len(),
        forall|k: int|
            0 <= k < idx@.len() ==> r@[4 * k] as int + 0x100 * r@[4 * k + 1] as int + 0x1_0000
                * r@[4 * k + 2] as int + 0x100_0000 * r@[4 * k + 3] as int == idx@[k] as int,
{
    let mut out: Vec<u8> = Vec::new();
    let mut k: usize = 0;
    while k < idx.len()
        invariant
            k <= idx@.len(),
            out@ == spec_index_bytes(idx@.take(k as int)),
            out@.len() == 4 * k,
        decreases idx@.len() - k,
    {
        let x = idx[k];
        out.push((x & 0xff) as u8);
        out.push(((x >> 8) & 0xff) as u8);
        out.push(((x >> 16) & 0xff) as u8);
        out.push((x >> 24) as u8);
        assert(idx@.take(k + 1).drop_last() =~= idx@.take(k as int));
        assert(out@ =~= spec_index_bytes(idx@.take(k as int)) + spec_le_bytes(x));
        k += 1;
    }
    assert(idx@.take(k as int) =~= idx@);
    proof {
        lemma_index_bytes_decode(idx@);
    }
    out
}

/// Reading the bytes back as little-endian words gives the indices back: the bytes of
/// index `k` are `4k .. 4k + 4`, least significant first.
pub proof fn lemma_index_bytes_decode(idx: Seq<u32>)
    ensures
        spec_index_bytes(idx).len() == 4 * idx.len(),
        forall|k: int|
            0 <= k < idx.len() ==> spec_index_bytes(idx)[4 * k] as int + 0x100 * spec_index_bytes(
                idx,
            )[4 * k + 1] as int + 0x1_0000 * spec_index_bytes(idx)[4 * k + 2] as int + 0x100_0000
                * spec_index_bytes(idx)[4 * k + 3] as int == idx[k] as int,
    decreases idx.len(),
{
    if idx.len() > 0 {
        let pre = idx.drop_last();
        lemma_index_bytes_decode(pre);
        let bp = spec_index_bytes(pre);
        let b = spec_index_bytes(idx);
        let x = idx.last();
        assert(b == bp + spec_le_bytes(x));
        assert((x & 0xff) as u8 as int + 0x100 * ((x >> 8) & 0xff) as u8 as int + 0x1_0000 * ((x
            >> 16) & 0xff) as u8 as int + 0x100_0000 * (x >> 24) as u8 as int == x as int)
            by (bit_vector);
        assert forall|k: int| 0 <= k < idx.len() implies b[4 * k] as int + 0x100 * b[4 * k
            + 1] as int + 0x1_0000 * b[4 * k + 2] as int + 0x100_0000 * b[4 * k + 3] as int
            == idx[k] as int by {
            if k < pre.len() {
                assert(b[4 * k] == bp[4 * k]);
                assert(b[4 * k + 1] == bp[4 * k + 1]);
                assert(b[4 * k + 2] == bp[4 * k + 2]);
                assert(b[4 * k + 3] == bp[4 * k + 3]);
                assert(idx[k] == pre[k]);
            } else {
                assert(b[4 * k] == spec_le_bytes(x)[0]);
                assert(b[4 * k + 1] == spec_le_bytes(x)[1]);
                assert(b[4 * k + 2] == spec_le_bytes(x)[2]);
                assert(b[4 * k + 3] == spec_le_bytes(x)[3]);
            }
        }
    }
}

} // verus!
