//! Writing a 32-bit BGRA pixel buffer as a Windows BMP file.
use vstd::prelude::*;

verus! {

/// The two little-endian bytes of the low 16 bits of `v`.
pub open spec fn le16(v: int) -> Seq<u8> {
    seq![(v % 256) as u8, ((v / 256) % 256) as u8]
}

/// The four little-endian bytes of the low 32 bits of `v`.
pub open spec fn le32(v: int) -> Seq<u8> {
    seq![
        (v % 256) as u8,
        ((v / 256) % 256) as u8,
        ((v / 65536) % 256) as u8,
        ((v / 16777216) % 256) as u8,
    ]
}

/// The number of pixel bytes of a `w` by `h` image, four bytes a pixel.
pub open spec fn pixel_bytes(w: int, h: int) -> int {
    (w * 4) * h
}

/// The 54-byte header of a BMP file for a `w` by `h` image of 32 bits a
/// pixel: the 14-byte file header (`BM`, file size, reserved, offset 54)
/// and the 40-byte `BITMAPINFOHEADER` (size 40, width, height, one plane,
/// 32 bits, no compression, image size, then zero resolution and palette
/// fields). Sizes are written modulo 2^32.
pub open spec fn bmp_header(w: int, h: int) -> Seq<u8> {
    seq![66u8, 77u8] + le32(54 + pixel_bytes(w, h)) + le32(0) + le32(54) + le32(40) + le32(w)
        + le32(h) + le16(1) + le16(32) + le32(0) + le32(pixel_bytes(w, h)) + Seq::new(
        16,
        |i: int| 0u8,
    )
}

/// Row `y` of a pixel buffer with `row` bytes a row.
pub open spec fn image_row(px: Seq<u8>, row: int, y: int) -> Seq<u8> {
    px.subrange(y * row, y * row + row)
}

/// Rows `hi - 1` down to `lo` of a pixel buffer, last row first.
pub open spec fn rows_down(px: Seq<u8>, row: int, hi: int, lo: int) -> Seq<u8>
    decreases hi - lo,
{
    if hi <= lo {
        seq![]
    } else {
        image_row(px, row, hi - 1) + rows_down(px, row, hi - 1, lo)
    }
}

/// A BMP file for a `w` by `h` image whose buffer lists the top row
/// first: BMP stores the bottom row first, so the rows are reversed.
pub open spec fn bmp_top_down(w: int, h: int, px: Seq<u8>) -> Seq<u8> {
    bmp_header(w, h) + rows_down(px, w * 4, h, 0)
}

/// A BMP file for a `w` by `h` image whose buffer already lists the
/// bottom row first: the buffer's pixel bytes are copied as they are.
pub open spec fn bmp_bottom_up(w: int, h: int, px: Seq<u8>) -> Seq<u8> {
    bmp_header(w, h) + px.subrange(0, pixel_bytes(w, h))
}

/// What the encoders need of their arguments: a non-negative size, a
/// buffer that holds every pixel, and a file size that fits in `usize`.
pub open spec fn encodable(w: int, h: int, len: int) -> bool {
    &&& 0 <= w
    &&& 0 <= h
    &&& w * 4 <= usize::MAX
    &&& pixel_bytes(w, h) <= len
    &&& 54 + pixel_bytes(w, h) <= usize::MAX
}

fn push_le16(out: &mut Vec<u8>, v: usize)
    ensures
        final(out)@ == old(out)@ + le16(v as int),
{
    out.push((v % 256) as u8);
    out.push(((v / 256) % 256) as u8);
}

fn push_le32(out: &mut Vec<u8>, v: usize)
    ensures
        final(out)@ == old(out)@ + le32(v as int),
{
    out.push((v % 256) as u8);
    out.push(((v / 256) % 256) as u8);
    out.push(((v / 65536) % 256) as u8);
    out.push(((v / 16777216) % 256) as u8);
}

fn push_header(out: &mut Vec<u8>, w: usize, h: usize, pixel: usize)
    requires
        pixel == pixel_bytes(w as int, h as int),
        54 + pixel <= usize::MAX,
    ensures
        final(out)@ == old(out)@ + bmp_header(w as int, h as int),
{
    let ghost start = out@;
    out.push(66u8);
    out.push(77u8);
    push_le32(out, 54 + pixel);
    push_le32(out, 0);
    push_le32(out, 54);
    push_le32(out, 40);
    push_le32(out, w);
    push_le32(out, h);
    push_le16(out, 1);
    push_le16(out, 32);
    push_le32(out, 0);
    push_le32(out, pixel);
    let ghost before_pad = out@;
    let mut k: usize = 0;
    while k < 16
        invariant
            k <= 16,
            out@ == before_pad + Seq::new(k as nat, |i: int| 0u8),
        decreases 16 - k,
    {
        out.push(0u8);
        assert(Seq::new((k + 1) as nat, |i: int| 0u8) == Seq::new(k as nat, |i: int| 0u8).push(
            0u8,
        ));
        k = k + 1;
    }
    assert(out@ == start + bmp_header(w as int, h as int));
}

fn push_range(out: &mut Vec<u8>, src: &[u8], from: usize, to: usize)
    requires
        from <= to <= src@.len(),
    ensures
        final(out)@ == old(out)@ + src@.subrange(from as int, to as int),
{
    let ghost start = out@;
    let mut i = from;
    while i < to
        invariant
            from <= i <= to <= src@.len(),
            out@ == start + src@.subrange(from as int, i as int),
        decreases to - i,
    {
        out.push(src[i]);
        assert(src@.subrange(from as int, i + 1) == src@.subrange(from as int, i as int).push(
            src@[i as int],
        ));
        i = i + 1;
    }
}

proof fn lemma_row_fits(y: int, h: int, row: int)
    requires
        0 <= y < h,
        0 <= row,
    ensures
        0 <= y * row,
        y * row + row == (y + 1) * row,
        (y + 1) * row <= h * row,
{
    assert(0 <= y * row) by (nonlinear_arith)
        requires
            0 <= y,
            0 <= row,
    ;
    assert(y * row + row == (y + 1) * row) by (nonlinear_arith);
    assert((y + 1) * row <= h * row) by (nonlinear_arith)
        requires
            y + 1 <= h,
            0 <= row,
    ;
}

/// Taking one more row from the bottom of the range appends it.
proof fn lemma_rows_down_extend(px: Seq<u8>, row: int, hi: int, lo: int)
    requires
        0 < lo <= hi,
    ensures
        rows_down(px, row, hi, lo - 1) == rows_down(px, row, hi, lo) + image_row(px, row, lo - 1),
    decreases hi - lo,
{
    if hi == lo {
        assert(rows_down(px, row, hi, lo - 1) == image_row(px, row, lo - 1) + rows_down(
            px,
            row,
            hi - 1,
            lo - 1,
        ));
        assert(rows_down(px, row, hi - 1, lo - 1) == Seq::<u8>::empty());
    } else {
        lemma_rows_down_extend(px, row, hi - 1, lo);
    }
}

/// The reversed rows are as many bytes as the rows themselves.
pub proof fn lemma_rows_down_len(px: Seq<u8>, row: int, h: int)
    requires
        0 <= h,
        0 <= row,
        h * row <= px.len(),
    ensures
        rows_down(px, row, h, 0).len() == h * row,
    decreases h,
{
    if h > 0 {
        lemma_row_fits(h - 1, h, row);
        lemma_rows_down_len(px, row, h - 1);
    } else {
        assert(h * row == 0) by (nonlinear_arith)
            requires
                h == 0,
        ;
    }
}

/// Writes a BMP file for a `width` by `height` image whose BGRA buffer
/// lists the top row first.
pub fn encode_bmp(width: i32, height: i32, bgra: &[u8]) -> (r: Vec<u8>)
    requires
        encodable(width as int, height as int, bgra@.len() as int),
    ensures
        r@ == bmp_top_down(width as int, height as int, bgra@),
{
    let w = width as usize;
    let h = height as usize;
    let row = w * 4;
    assert(pixel_bytes(width as int, height as int) == row * h);
    let pixel = row * h;
    let file_size = 14 + 40 + pixel;
    let mut out: Vec<u8> = Vec::with_capacity(file_size);
    push_header(&mut out, w, h, pixel);
    let ghost header = out@;
    let len = bgra.len();
    let mut y = h;
    while y > 0
        invariant
            y <= h,
            row == w * 4,
            h as int * row <= bgra@.len(),
            len == bgra@.len(),
            out@ == header + rows_down(bgra@, row as int, h as int, y as int),
        decreases y,
    {
        proof {
            lemma_row_fits(y - 1, h as int, row as int);
            lemma_rows_down_extend(bgra@, row as int, h as int, y as int);
        }
        assert((y - 1) as int * row as int + row as int <= bgra@.len());
        let start = (y - 1) * row;
        push_range(&mut out, bgra, start, start + row);
        y = y - 1;
    }
    out
}

/// Writes a BMP file for a `width` by `height` image whose BGRA buffer
/// already lists the bottom row first.
pub fn encode_bmp_bottom_up(width: i32, height: i32, bgra: &[u8]) -> (r: Vec<u8>)
    requires
        encodable(width as int, height as int, bgra@.len() as int),
    ensures
        r@ == bmp_bottom_up(width as int, height as int, bgra@),
{
    let w = width as usize;
    let h = height as usize;
    let row = w * 4;
    assert(pixel_bytes(width as int, height as int) == row * h);
    let pixel = row * h;
    let file_size = 14 + 40 + pixel;
    let mut out: Vec<u8> = Vec::with_capacity(file_size);
    push_header(&mut out, w, h, pixel);
    push_range(&mut out, bgra, 0, pixel);
    out
}

/// Every BMP header is 54 bytes long.
pub proof fn law_header_length(w: int, h: int)
    ensures
        bmp_header(w, h).len() == 54,
{
}

/// A BMP file is its 54-byte header followed by every pixel byte.
pub proof fn law_bmp_length(w: int, h: int, px: Seq<u8>)
    requires
        0 <= w,
        0 <= h,
        pixel_bytes(w, h) <= px.len(),
    ensures
        bmp_top_down(w, h, px).len() == 54 + pixel_bytes(w, h),
        bmp_bottom_up(w, h, px).len() == 54 + pixel_bytes(w, h),
{
    assert(0 <= w * 4);
    assert((w * 4) * h == h * (w * 4)) by (nonlinear_arith);
    lemma_rows_down_len(px, w * 4, h);
}

/// Writing a top-row-first buffer gives the same file as writing its
/// row-reversed copy bottom row first.
pub proof fn law_encoders_agree(w: int, h: int, px: Seq<u8>)
    requires
        0 <= w,
        0 <= h,
        pixel_bytes(w, h) <= px.len(),
    ensures
        bmp_top_down(w, h, px) == bmp_bottom_up(w, h, rows_down(px, w * 4, h, 0)),
{
    assert((w * 4) * h == h * (w * 4)) by (nonlinear_arith);
    lemma_rows_down_len(px, w * 4, h);
    let flipped = rows_down(px, w * 4, h, 0);
    assert(flipped.subrange(0, pixel_bytes(w, h)) == flipped);
}

} // verus!
