use vstd::prelude::*;

verus! {

/// The `u32` stored little-endian at `b[at..at + 4]`.
pub open spec fn le_u32(b: Seq<u8>, at: int) -> int {
    b[at] as int + 256 * b[at + 1] as int + 65536 * b[at + 2] as int + 16777216 * b[at + 3] as int
}

/// Number of `u32`s in one glyph row of a cell `width` pixels wide.
pub open spec fn row_u32s_for(width: int) -> int {
    (width + 7) / 8
}

/// A font blob of the given mode: a header of `header` bytes (mode, cell width,
/// cell height, one advance width per glyph, overhang, padding) followed by
/// exactly the packed pixel data of `glyph_count` glyphs, 4 bytes per `u32`.
pub open spec fn blob_ok(b: Seq<u8>, mode: u8, header: int, glyph_count: int) -> bool {
    &&& b.len() >= header
    &&& header >= 3 + glyph_count
    &&& b[0] == mode
    &&& b.len() - header == row_u32s_for(b[1] as int) * (b[2] as int) * glyph_count * 4
}

/// The `count` little-endian `u32`s stored from `b[start..]`.
pub fn read_le_u32s(b: &[u8], start: usize, count: usize) -> (r: Vec<u32>)
    requires
        start + 4 * count <= b.len(),
    ensures
        r.len() == count,
        forall|i: int| 0 <= i < count ==> #[trigger] r@[i] as int == le_u32(b@, start + 4 * i),
{
    let mut out: Vec<u32> = Vec::with_capacity(count);
    let mut i: usize = 0;
    while i < count
        invariant
            0 <= i <= count,
            start + 4 * count <= b.len(),
            out.len() == i,
            forall|j: int| 0 <= j < i ==> #[trigger] out@[j] as int == le_u32(b@, start + 4 * j),
        decreases count - i,
    {
        let at = start + 4 * i;
        let v: u32 = b[at] as u32 + 256 * (b[at + 1] as u32) + 65536 * (b[at + 2] as u32) + 16777216 * (
        b[at + 3] as u32);
        out.push(v);
        i = i + 1;
    }
    out
}

/// A copy of `b[start..start + count]`.
pub fn copy_bytes(b: &[u8], start: usize, count: usize) -> (r: Vec<u8>)
    requires
        start + count <= b.len(),
    ensures
        r@ == b@.subrange(start as int, start + count),
{
    let mut out: Vec<u8> = Vec::with_capacity(count);
    let mut i: usize = 0;
    while i < count
        invariant
            0 <= i <= count,
            start + count <= b.len(),
            out@ == b@.subrange(start as int, start + i),
        decreases count - i,
    {
        out.push(b[start + i]);
        i = i + 1;
        proof {
            assert(out@ =~= b@.subrange(start as int, start + i));
        }
    }
    out
}

} // verus!
