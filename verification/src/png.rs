//! Converting a clipboard device-independent bitmap (`CF_DIB`: a
//! `BITMAPINFOHEADER` and its pixels) into a PNG file: 8-bit RGB, no
//! interlace, each scanline unfiltered, and the image data in stored
//! (uncompressed) deflate blocks inside a zlib stream.
use vstd::prelude::*;

verus! {

/// A little-endian 16-bit value at `o`.
pub open spec fn le16(b: Seq<u8>, o: int) -> nat {
    (b[o] + 256 * b[o + 1]) as nat
}

/// A little-endian 32-bit value at `o`.
pub open spec fn le32(b: Seq<u8>, o: int) -> nat {
    (b[o] + 256 * b[o + 1] + 65536 * b[o + 2] + 16777216 * b[o + 3]) as nat
}

/// What the header says of the pixels.
pub struct DibLayout {
    pub width: nat,
    pub height: nat,
    /// Rows run from the top (negative `biHeight`) rather than from the bottom.
    pub top_down: bool,
    /// Bytes per pixel: 3 or 4 (blue, green, red, and an unused byte).
    pub bpp: nat,
    /// Where the pixels start.
    pub offset: nat,
    /// Bytes per row, a multiple of four.
    pub stride: nat,
}

/// The layout of a DIB that can be converted: a header of at least 40 bytes,
/// a positive width, a non-zero height, 24 or 32 bits per pixel, uncompressed
/// (`BI_RGB`) or, at 32 bits, `BI_BITFIELDS` with the standard red, green and
/// blue masks; the pixels follow the header, the masks that a 40-byte header is
/// followed by, and the colour table, and must all be present.
pub open spec fn dib_layout(b: Seq<u8>) -> Option<DibLayout> {
    if b.len() < 40 {
        None
    } else {
        let size = le32(b, 0);
        let w = le32(b, 4);
        let hr = le32(b, 8);
        let bits = le16(b, 14);
        let comp = le32(b, 16);
        let clr = le32(b, 32);
        let masks_ok = b.len() >= 52 && le32(b, 40) == 0xFF0000 && le32(b, 44) == 0xFF00 && le32(
            b,
            48,
        ) == 0xFF;
        let top_down = hr >= 0x80000000;
        let h: nat = if top_down {
            (0x100000000 - hr) as nat
        } else {
            hr
        };
        let bpp: nat = bits / 8;
        let stride: nat = ((w * bpp + 3) / 4 * 4) as nat;
        let offset: nat = size + (if comp == 3 && size == 40 {
            12nat
        } else {
            0nat
        }) + clr * 4;
        if size >= 40 && 1 <= w <= 0x7FFFFFFF && hr != 0 && hr != 0x80000000 && (bits == 24
            || bits == 32) && (comp == 0 || (comp == 3 && bits == 32 && masks_ok)) && offset + h
            * stride <= b.len() {
            Some(DibLayout { width: w, height: h, top_down, bpp, offset, stride })
        } else {
            None
        }
    }
}

/// `n` pixels from `pos` on, as red, green, blue bytes.
pub open spec fn row_rgb(b: Seq<u8>, pos: int, n: nat, bpp: nat) -> Seq<u8>
    decreases n,
{
    if n == 0 {
        Seq::<u8>::empty()
    } else {
        seq![b[pos + 2], b[pos + 1], b[pos]] + row_rgb(b, pos + bpp, (n - 1) as nat, bpp)
    }
}

/// Where the DIB row shown as image row `r` starts.
pub open spec fn row_start(l: DibLayout, r: nat) -> int {
    if l.top_down {
        (l.offset + r * l.stride) as int
    } else {
        l.offset + (l.height - 1 - r) * l.stride
    }
}

/// The PNG scanlines from image row `r` down: each a filter byte 0 and its pixels.
pub open spec fn scanlines_from(b: Seq<u8>, l: DibLayout, r: nat) -> Seq<u8>
    decreases l.height - r,
{
    if r >= l.height {
        Seq::<u8>::empty()
    } else {
        seq![0u8] + row_rgb(b, row_start(l, r), l.width, l.bpp) + scanlines_from(
            b,
            l,
            r + 1,
        )
    }
}

/// Stored deflate blocks of at most 65535 bytes, the last one marked final.
pub open spec fn stored_blocks(d: Seq<u8>) -> Seq<u8>
    decreases d.len(),
{
    if d.len() <= 65535 {
        let n = d.len();
        seq![1u8, (n % 256) as u8, (n / 256) as u8, ((65535 - n) % 256) as u8, ((65535 - n) / 256) as u8]
            + d
    } else {
        seq![0u8, 0xFFu8, 0xFFu8, 0u8, 0u8] + d.take(65535) + stored_blocks(d.skip(65535))
    }
}

/// The Adler-32 sums (a, b) of `d`.
pub open spec fn adler_sums(d: Seq<u8>) -> (nat, nat)
    decreases d.len(),
{
    if d.len() == 0 {
        (1, 0)
    } else {
        let (a, b) = adler_sums(d.drop_last());
        let a2 = ((a + d.last()) % 65521) as nat;
        (a2, ((b + a2) % 65521) as nat)
    }
}

/// Adler-32 of `d`.
pub open spec fn adler32(d: Seq<u8>) -> nat {
    adler_sums(d).1 * 65536 + adler_sums(d).0
}

/// A 32-bit value as four big-endian bytes.
pub open spec fn be32(v: nat) -> Seq<u8> {
    seq![(v / 16777216 % 256) as u8, (v / 65536 % 256) as u8, (v / 256 % 256) as u8, (v % 256) as u8]
}

/// A zlib stream (no preset dictionary) holding `d` in stored blocks.
pub open spec fn zlib_stored(d: Seq<u8>) -> Seq<u8> {
    seq![0x78u8, 0x01u8] + stored_blocks(d) + be32(adler32(d))
}

/// One step of the reflected CRC-32 (polynomial 0xEDB88320).
pub open spec fn crc_bit(c: u32) -> u32 {
    if c & 1 == 1 {
        (c >> 1) ^ 0xEDB88320u32
    } else {
        c >> 1
    }
}

pub open spec fn crc_bits(c: u32, k: nat) -> u32
    decreases k,
{
    if k == 0 {
        c
    } else {
        crc_bit(crc_bits(c, (k - 1) as nat))
    }
}

/// The CRC register after the bytes `d`, from `c0`.
pub open spec fn crc_update(c0: u32, d: Seq<u8>) -> u32
    decreases d.len(),
{
    if d.len() == 0 {
        c0
    } else {
        crc_bits(crc_update(c0, d.drop_last()) ^ (d.last() as u32), 8)
    }
}

/// CRC-32 of `d`, as PNG computes it.
pub open spec fn crc32(d: Seq<u8>) -> u32 {
    crc_update(0xFFFFFFFFu32, d) ^ 0xFFFFFFFFu32
}

/// A PNG chunk: length, type, data, and the CRC of type and data.
pub open spec fn chunk(ty: Seq<u8>, data: Seq<u8>) -> Seq<u8> {
    be32(data.len()) + ty + data + be32(crc32(ty + data) as nat)
}

/// The PNG signature.
pub open spec fn png_signature() -> Seq<u8> {
    seq![137u8, 80, 78, 71, 13, 10, 26, 10]
}

/// `IHDR` data: width, height, 8 bits per sample, truecolour, no interlace.
pub open spec fn ihdr(w: nat, h: nat) -> Seq<u8> {
    be32(w) + be32(h) + seq![8u8, 2, 0, 0, 0]
}

/// The PNG of an image of the given size with these scanlines.
pub open spec fn png_file(w: nat, h: nat, scanlines: Seq<u8>) -> Seq<u8> {
    png_signature() + chunk(seq![73u8, 72, 68, 82], ihdr(w, h)) + chunk(
        seq![73u8, 68, 65, 84],
        zlib_stored(scanlines),
    ) + chunk(seq![73u8, 69, 78, 68], Seq::<u8>::empty())
}

/// The PNG of a DIB, when its layout can be converted and the image data fits
/// in one chunk (at most 2^31 - 1 bytes).
pub open spec fn png_of_dib(b: Seq<u8>) -> Option<Seq<u8>> {
    match dib_layout(b) {
        None => None,
        Some(l) => {
            let z = zlib_stored(scanlines_from(b, l, 0));
            if z.len() <= 0x7FFFFFFF {
                Some(png_file(l.width, l.height, scanlines_from(b, l, 0)))
            } else {
                None
            }
        },
    }
}

fn read_le16(b: &[u8], o: usize) -> (r: u64)
    requires
        o + 2 <= b@.len(),
    ensures
        r == le16(b@, o as int),
{
    b[o] as u64 + 256 * b[o + 1] as u64
}

fn read_le32(b: &[u8], o: usize) -> (r: u64)
    requires
        o + 4 <= b@.len(),
    ensures
        r == le32(b@, o as int),
        r < 0x100000000,
{
    b[o] as u64 + 256 * b[o + 1] as u64 + 65536 * b[o + 2] as u64 + 16777216 * b[o + 3] as u64
}

fn push_be32(out: &mut Vec<u8>, v: u64)
    requires
        v < 0x100000000,
    ensures
        final(out)@ == old(out)@ + be32(v as nat),
{
    out.push((v / 16777216 % 256) as u8);
    out.push((v / 65536 % 256) as u8);
    out.push((v / 256 % 256) as u8);
    out.push((v % 256) as u8);
}

fn crc_of_byte(c: u32, x: u8) -> (r: u32)
    ensures
        r == crc_bits(c ^ (x as u32), 8),
{
    let mut r = c ^ (x as u32);
    let ghost r0 = r;
    let mut k: usize = 0;
    while k < 8
        invariant
            k <= 8,
            r == crc_bits(r0, k as nat),
        decreases 8 - k,
    {
        if r & 1 == 1 {
            r = (r >> 1) ^ 0xEDB88320u32;
        } else {
            r = r >> 1;
        }
        k = k + 1;
    }
    r
}

/// CRC-32 of `d`.
pub fn crc32_of(d: &[u8]) -> (r: u32)
    ensures
        r == crc32(d@),
{
    let mut c: u32 = 0xFFFFFFFF;
    let mut i: usize = 0;
    while i < d.len()
        invariant
            i <= d@.len(),
            c == crc_update(0xFFFFFFFFu32, d@.take(i as int)),
        decreases d.len() - i,
    {
        assert(d@.take(i + 1).drop_last() =~= d@.take(i as int));
        c = crc_of_byte(c, d[i]);
        i = i + 1;
    }
    assert(d@.take(d@.len() as int) =~= d@);
    c ^ 0xFFFFFFFF
}

fn adler32_of(d: &[u8]) -> (r: u64)
    ensures
        r == adler32(d@),
        r < 0x100000000,
{
    let mut a: u64 = 1;
    let mut b: u64 = 0;
    let mut i: usize = 0;
    while i < d.len()
        invariant
            i <= d@.len(),
            (a as nat, b as nat) == adler_sums(d@.take(i as int)),
            a < 65521,
            b < 65521,
        decreases d.len() - i,
    {
        assert(d@.take(i + 1).drop_last() =~= d@.take(i as int));
        a = (a + d[i] as u64) % 65521;
        b = (b + a) % 65521;
        i = i + 1;
    }
    assert(d@.take(d@.len() as int) =~= d@);
    b * 65536 + a
}

fn extend_bytes(out: &mut Vec<u8>, d: &[u8], a: usize, b: usize)
    requires
        a <= b <= d@.len(),
    ensures
        final(out)@ == old(out)@ + d@.subrange(a as int, b as int),
{
    let mut i = a;
    while i < b
        invariant
            a <= i <= b <= d@.len(),
            out@ == old(out)@ + d@.subrange(a as int, i as int),
        decreases b - i,
    {
        out.push(d[i]);
        i = i + 1;
        assert(out@ =~= old(out)@ + d@.subrange(a as int, i as int));
    }
}

fn push_stored_blocks(out: &mut Vec<u8>, d: &[u8])
    ensures
        final(out)@ == old(out)@ + stored_blocks(d@),
{
    let mut i: usize = 0;
    assert(d@.skip(0) =~= d@);
    loop
        invariant
            i <= d@.len(),
            out@ + stored_blocks(d@.skip(i as int)) == old(out)@ + stored_blocks(d@),
        decreases d@.len() - i,
    {
        let ghost rest = d@.skip(i as int);
        let ghost before = out@;
        let n = d.len() - i;
        assert(rest =~= d@.subrange(i as int, d@.len() as int));
        if n <= 65535 {
            out.push(1);
            out.push((n % 256) as u8);
            out.push((n / 256) as u8);
            out.push(((65535 - n) % 256) as u8);
            out.push(((65535 - n) / 256) as u8);
            extend_bytes(out, d, i, d.len());
            assert(out@ =~= before + stored_blocks(rest));
            return;
        }
        out.push(0);
        out.push(0xFF);
        out.push(0xFF);
        out.push(0);
        out.push(0);
        extend_bytes(out, d, i, i + 65535);
        assert(rest.take(65535) =~= d@.subrange(i as int, i + 65535));
        assert(rest.skip(65535) =~= d@.skip(i + 65535));
        i = i + 65535;
        assert(out@ + stored_blocks(d@.skip(i as int)) =~= before + stored_blocks(rest));
    }
}

struct Layout {
    width: u64,
    height: u64,
    top_down: bool,
    bpp: u64,
    offset: u64,
    stride: u64,
}

impl Layout {
    spec fn spec_layout(&self) -> DibLayout {
        DibLayout {
            width: self.width as nat,
            height: self.height as nat,
            top_down: self.top_down,
            bpp: self.bpp as nat,
            offset: self.offset as nat,
            stride: self.stride as nat,
        }
    }
}

fn parse_layout(b: &[u8]) -> (r: Option<Layout>)
    ensures
        match r {
            Some(l) => dib_layout(b@) == Some(l.spec_layout()),
            None => dib_layout(b@) is None,
        },
{
    if b.len() < 40 {
        return None;
    }
    let size = read_le32(b, 0);
    let w = read_le32(b, 4);
    let hr = read_le32(b, 8);
    let bits = read_le16(b, 14);
    let comp = read_le32(b, 16);
    let clr = read_le32(b, 32);
    let masks_ok = b.len() >= 52 && read_le32(b, 40) == 0xFF0000 && read_le32(b, 44) == 0xFF00
        && read_le32(b, 48) == 0xFF;
    let top_down = hr >= 0x80000000;
    let h: u64 = if top_down {
        0x100000000 - hr
    } else {
        hr
    };
    if !(size >= 40 && 1 <= w && w <= 0x7FFFFFFF && hr != 0 && hr != 0x80000000 && (bits == 24
        || bits == 32) && (comp == 0 || (comp == 3 && bits == 32 && masks_ok))) {
        return None;
    }
    let bpp = bits / 8;
    let stride = (w * bpp + 3) / 4 * 4;
    let extra: u64 = if comp == 3 && size == 40 {
        12
    } else {
        0
    };
    let offset = size + extra + clr * 4;
    let len = b.len() as u64;
    if offset > len {
        return None;
    }
    match h.checked_mul(stride) {
        None => {
            return None;
        },
        Some(total) => {
            if total > len - offset {
                return None;
            }
        },
    }
    Some(Layout { width: w, height: h, top_down, bpp, offset, stride })
}

fn push_row(out: &mut Vec<u8>, b: &[u8], start: usize, w: usize, bpp: usize)
    requires
        3 <= bpp <= 4,
        start + w * bpp <= b@.len(),
    ensures
        final(out)@ == old(out)@ + row_rgb(b@, start as int, w as nat, bpp as nat),
{
    let n = b.len();
    let mut pos = start;
    let mut p: usize = 0;
    assert(old(out)@ + row_rgb(b@, start as int, w as nat, bpp as nat) =~= out@ + row_rgb(
        b@,
        pos as int,
        (w - p) as nat,
        bpp as nat,
    ));
    while p < w
        invariant
            3 <= bpp <= 4,
            n == b@.len(),
            start + w * bpp <= b@.len(),
            p <= w,
            pos == start + p * bpp,
            out@ + row_rgb(b@, pos as int, (w - p) as nat, bpp as nat) == old(out)@ + row_rgb(
                b@,
                start as int,
                w as nat,
                bpp as nat,
            ),
        decreases w - p,
    {
        assert(p * bpp + bpp <= w * bpp) by (nonlinear_arith)
            requires
                p < w,
                bpp >= 0,
        ;
        assert((p + 1) * bpp == p * bpp + bpp) by (nonlinear_arith);
        assert(pos + bpp <= b@.len());
        let ghost before = out@;
        out.push(b[pos + 2]);
        out.push(b[pos + 1]);
        out.push(b[pos]);
        assert(out@ + row_rgb(b@, (pos + bpp) as int, (w - p - 1) as nat, bpp as nat) =~= before
            + row_rgb(b@, pos as int, (w - p) as nat, bpp as nat));
        pos = pos + bpp;
        p = p + 1;
    }
}

fn scanlines(b: &[u8], l: &Layout) -> (r: Vec<u8>)
    requires
        dib_layout(b@) == Some(l.spec_layout()),
    ensures
        r@ == scanlines_from(b@, l.spec_layout(), 0),
{
    let ghost sl = l.spec_layout();
    let len = b.len();
    assert(l.height >= 1);
    assert(l.width * l.bpp <= l.stride) by (nonlinear_arith)
        requires
            l.stride == (l.width * l.bpp + 3) / 4 * 4,
    ;
    assert(l.height * l.stride >= l.stride) by (nonlinear_arith)
        requires
            l.height >= 1,
    ;
    let h = l.height as usize;
    let w = l.width as usize;
    let bpp = l.bpp as usize;
    let stride = l.stride as usize;
    let offset = l.offset as usize;
    let mut out: Vec<u8> = Vec::new();
    let mut r: usize = 0;
    while r < h
        invariant
            sl == l.spec_layout(),
            dib_layout(b@) == Some(sl),
            h == l.height,
            w == l.width,
            bpp == l.bpp,
            stride == l.stride,
            offset == l.offset,
            3 <= bpp <= 4,
            len == b@.len(),
            w * bpp <= stride,
            offset + h * stride <= b@.len(),
            r <= h,
            out@ + scanlines_from(b@, sl, r as nat) == scanlines_from(b@, sl, 0),
        decreases h - r,
    {
        let k = if l.top_down {
            r
        } else {
            h - 1 - r
        };
        assert(k < h);
        assert(k * stride + stride <= h * stride) by (nonlinear_arith)
            requires
                k < h,
                stride >= 0,
        ;
        assert(offset + k * stride + stride <= b@.len());
        let start = offset + k * stride;
        assert(start == row_start(sl, r as nat));
        let ghost before = out@;
        out.push(0);
        push_row(&mut out, b, start, w, bpp);
        assert(out@ + scanlines_from(b@, sl, (r + 1) as nat) =~= before + scanlines_from(
            b@,
            sl,
            r as nat,
        ));
        r = r + 1;
    }
    assert(out@ + scanlines_from(b@, sl, r as nat) =~= out@);
    out
}

fn push_chunk(out: &mut Vec<u8>, ty: &[u8], data: &[u8])
    requires
        data@.len() < 0x100000000,
    ensures
        final(out)@ == old(out)@ + chunk(ty@, data@),
{
    push_be32(out, data.len() as u64);
    let mut td: Vec<u8> = Vec::new();
    extend_bytes(&mut td, ty, 0, ty.len());
    extend_bytes(&mut td, data, 0, data.len());
    assert(ty@.subrange(0, ty@.len() as int) =~= ty@);
    assert(data@.subrange(0, data@.len() as int) =~= data@);
    let crc = crc32_of(td.as_slice());
    extend_bytes(out, td.as_slice(), 0, td.len());
    assert(td@.subrange(0, td@.len() as int) =~= td@);
    push_be32(out, crc as u64);
    assert(final(out)@ =~= old(out)@ + chunk(ty@, data@));
}

/// Converts a `CF_DIB` clipboard bitmap to a PNG file, or `None` when its
/// layout is not one that can be converted (see `dib_layout`) or the image
/// data would not fit in one PNG chunk.
pub fn dib_to_png(dib: &[u8]) -> (r: Option<Vec<u8>>)
    ensures
        match r {
            Some(p) => png_of_dib(dib@) == Some(p@),
            None => png_of_dib(dib@) is None,
        },
{
    let l = match parse_layout(dib) {
        Some(l) => l,
        None => {
            return None;
        },
    };
    let lines = scanlines(dib, &l);
    let mut z: Vec<u8> = Vec::new();
    z.push(0x78);
    z.push(0x01);
    push_stored_blocks(&mut z, lines.as_slice());
    let adler = adler32_of(lines.as_slice());
    push_be32(&mut z, adler);
    assert(z@ =~= zlib_stored(lines@));
    if z.len() > 0x7FFFFFFF {
        return None;
    }
    let mut png: Vec<u8> = Vec::new();
    let sig: [u8; 8] = [137, 80, 78, 71, 13, 10, 26, 10];
    extend_bytes(&mut png, &sig, 0, 8);
    assert(sig@.subrange(0, 8) =~= png_signature());
    let mut hdr: Vec<u8> = Vec::new();
    push_be32(&mut hdr, l.width);
    push_be32(&mut hdr, l.height);
    hdr.push(8);
    hdr.push(2);
    hdr.push(0);
    hdr.push(0);
    hdr.push(0);
    assert(hdr@ =~= ihdr(l.width as nat, l.height as nat));
    let ihdr_ty: [u8; 4] = [73, 72, 68, 82];
    let idat_ty: [u8; 4] = [73, 68, 65, 84];
    let iend_ty: [u8; 4] = [73, 69, 78, 68];
    let empty: Vec<u8> = Vec::new();
    push_chunk(&mut png, &ihdr_ty, hdr.as_slice());
    push_chunk(&mut png, &idat_ty, z.as_slice());
    push_chunk(&mut png, &iend_ty, empty.as_slice());
    assert(ihdr_ty@ == seq![73u8, 72, 68, 82]);
    assert(idat_ty@ == seq![73u8, 68, 65, 84]);
    assert(iend_ty@ == seq![73u8, 69, 78, 68]);
    assert(empty@ =~= Seq::<u8>::empty());
    assert(png@ =~= png_file(l.width as nat, l.height as nat, lines@));
    Some(png)
}


proof fn lemma_row_rgb_len(b: Seq<u8>, pos: int, n: nat, bpp: nat)
    ensures
        row_rgb(b, pos, n, bpp).len() == 3 * n,
    decreases n,
{
    if n > 0 {
        lemma_row_rgb_len(b, pos + bpp, (n - 1) as nat, bpp);
    }
}

/// Pixel `p` of a row comes out as red, green, blue from the stored blue,
/// green, red bytes `bpp` apart.
proof fn lemma_row_rgb_at(b: Seq<u8>, pos: int, n: nat, bpp: nat, p: int, c: int)
    requires
        0 <= p < n,
        0 <= c < 3,
    ensures
        row_rgb(b, pos, n, bpp)[3 * p + c] == b[pos + p * bpp + 2 - c],
    decreases n,
{
    let head = seq![b[pos + 2], b[pos + 1], b[pos]];
    let tail = row_rgb(b, pos + bpp, (n - 1) as nat, bpp);
    lemma_row_rgb_len(b, pos + bpp, (n - 1) as nat, bpp);
    assert(row_rgb(b, pos, n, bpp) == head + tail);
    if p > 0 {
        lemma_row_rgb_at(b, pos + bpp, (n - 1) as nat, bpp, p - 1, c);
        assert(pos + bpp + (p - 1) * bpp == pos + p * bpp) by (nonlinear_arith);
        assert((head + tail)[3 * p + c] == tail[3 * (p - 1) + c]);
    }
}

proof fn lemma_scanlines_len(b: Seq<u8>, l: DibLayout, r0: nat)
    requires
        r0 <= l.height,
    ensures
        scanlines_from(b, l, r0).len() == (l.height - r0) * (3 * l.width as int + 1),
    decreases l.height - r0,
{
    if r0 < l.height {
        lemma_scanlines_len(b, l, r0 + 1);
        lemma_row_rgb_len(b, row_start(l, r0), l.width, l.bpp);
        let k: int = l.height - r0;
        let m: int = 3 * l.width as int + 1;
        assert(k * m == m + (k - 1) * m) by (nonlinear_arith);
        assert(scanlines_from(b, l, r0) == seq![0u8] + row_rgb(b, row_start(l, r0), l.width, l.bpp)
            + scanlines_from(b, l, r0 + 1));
        assert(scanlines_from(b, l, r0).len() == m + scanlines_from(b, l, r0 + 1).len());
        assert(scanlines_from(b, l, r0 + 1).len() == (k - 1) * m);
    } else {
        assert((l.height - r0) * (3 * l.width as int + 1) == 0) by (nonlinear_arith)
            requires
                l.height == r0,
        ;
    }
}

proof fn lemma_scanlines_at(b: Seq<u8>, l: DibLayout, r0: nat, r: nat, j: int)
    requires
        r0 <= r < l.height,
        0 <= j < 3 * l.width + 1,
    ensures
        scanlines_from(b, l, r0)[(r - r0) * (3 * l.width as int + 1) + j] == (seq![0u8] + row_rgb(
            b,
            row_start(l, r),
            l.width,
            l.bpp,
        ))[j],
    decreases r - r0,
{
    let m: int = 3 * l.width as int + 1;
    let row = seq![0u8] + row_rgb(b, row_start(l, r0), l.width, l.bpp);
    let rest = scanlines_from(b, l, r0 + 1);
    lemma_row_rgb_len(b, row_start(l, r0), l.width, l.bpp);
    lemma_scanlines_len(b, l, r0 + 1);
    assert(scanlines_from(b, l, r0) == row + rest);
    if r > r0 {
        lemma_scanlines_at(b, l, r0 + 1, r, j);
        let k: int = r - r0;
        assert(k * m == m + (k - 1) * m) by (nonlinear_arith);
        assert((k - 1) * m + j < (l.height - r0 - 1) * m) by (nonlinear_arith)
            requires
                k - 1 < l.height - r0 - 1,
                0 <= j < m,
                k >= 1,
        ;
        assert((row + rest)[k * m + j] == rest[(k - 1) * m + j]);
    } else {
        assert((r - r0) * m == 0) by (nonlinear_arith)
            requires
                r == r0,
        ;
    }
}

/// Each PNG scanline is a filter byte 0 and the pixels of one stored row, red,
/// green and blue taken from the stored blue, green and red bytes. Image row
/// `r` is stored row `r` when the header's height is negative (top-down) and
/// stored row `height - 1 - r` when it is positive (bottom-up), at any bit
/// depth; the PNG holds exactly these scanlines.
pub proof fn lemma_png_pixels(b: Seq<u8>, l: DibLayout, r: nat, p: nat, c: nat)
    requires
        dib_layout(b) == Some(l),
        r < l.height,
        p < l.width,
        c < 3,
    ensures
        ({
            let s = scanlines_from(b, l, 0);
            let m: int = 3 * l.width as int + 1;
            let stored: int = if le32(b, 8) < 0x80000000 {
                l.height - 1 - r
            } else {
                r as int
            };
            &&& s.len() == l.height * m
            &&& s[r * m] == 0
            &&& s[r * m + 1 + 3 * p + c] == b[l.offset + stored * l.stride + p * l.bpp + 2 - c]
            &&& png_of_dib(b) matches Some(f) ==> f == png_file(l.width, l.height, s)
        }),
{
    let m: int = 3 * l.width as int + 1;
    lemma_scanlines_len(b, l, 0);
    lemma_scanlines_at(b, l, 0, r, 0);
    lemma_scanlines_at(b, l, 0, r, 1 + 3 * p as int + c as int);
    let row = row_rgb(b, row_start(l, r), l.width, l.bpp);
    lemma_row_rgb_len(b, row_start(l, r), l.width, l.bpp);
    lemma_row_rgb_at(b, row_start(l, r), l.width, l.bpp, p as int, c as int);
    assert((seq![0u8] + row)[1 + 3 * p as int + c as int] == row[3 * p as int + c as int]);
}


proof fn lemma_stored_blocks_len(d: Seq<u8>)
    ensures
        stored_blocks(d).len() <= d.len() + 5 * (d.len() / 65535 + 1),
    decreases d.len(),
{
    if d.len() > 65535 {
        let rest = d.skip(65535);
        lemma_stored_blocks_len(rest);
        assert(rest.len() / 65535 == d.len() / 65535 - 1);
    }
}

/// The layout that the header fields announce for an uncompressed DIB.
pub open spec fn rgb_layout(b: Seq<u8>) -> DibLayout {
    let w = le32(b, 4);
    let hr = le32(b, 8);
    let stride: nat = (w * (le16(b, 14) / 8) + 3) / 4 * 4;
    DibLayout {
        width: w,
        height: if hr >= 0x80000000 { (0x100000000 - hr) as nat } else { hr },
        top_down: hr >= 0x80000000,
        bpp: le16(b, 14) / 8,
        offset: le32(b, 0) + le32(b, 32) * 4,
        stride,
    }
}

/// Every uncompressed (`BI_RGB`) DIB at 24 or 32 bits per pixel converts,
/// bottom-up or top-down, whatever its width and height, when its header is at
/// least 40 bytes, the pixels that its header announces are all present after
/// the header and the colour table, and the image data stays below 2^31 bytes
/// (here: at most 0x7F000000 bytes of scanlines). The PNG has the header's
/// width and, as its height, the magnitude of the header's height.
pub proof fn lemma_rgb_dib_converts(b: Seq<u8>)
    requires
        b.len() >= 40,
        le32(b, 0) >= 40,
        1 <= le32(b, 4) <= 0x7FFFFFFF,
        le32(b, 8) != 0,
        le32(b, 8) != 0x80000000,
        le16(b, 14) == 24 || le16(b, 14) == 32,
        le32(b, 16) == 0,
        rgb_layout(b).offset + rgb_layout(b).height * rgb_layout(b).stride <= b.len(),
        rgb_layout(b).height * (3 * le32(b, 4) + 1) <= 0x7F000000,
    ensures
        dib_layout(b) == Some(rgb_layout(b)),
        png_of_dib(b) == Some(
            png_file(le32(b, 4), rgb_layout(b).height, scanlines_from(b, rgb_layout(b), 0)),
        ),
{
    let l = rgb_layout(b);
    assert(dib_layout(b) == Some(l));
    let sl = scanlines_from(b, l, 0);
    lemma_scanlines_len(b, l, 0);
    lemma_stored_blocks_len(sl);
    let n: int = sl.len() as int;
    assert(n + 5 * (n / 65535 + 1) + 6 <= 0x7FFFFFFF) by (nonlinear_arith)
        requires
            0 <= n <= 0x7F000000,
    ;
    assert(zlib_stored(sl).len() <= 0x7FFFFFFF);
}

} // verus!
