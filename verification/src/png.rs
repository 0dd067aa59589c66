//! Writing a scene image as an uncompressed PNG.
//!
//! Each scanline becomes one stored-block IDAT chunk, so no real deflate
//! state is needed; the zlib and PNG checksums are computed here and the
//! exact output — and therefore its exact size — is pinned down byte for
//! byte.
use crate::image::MmapImageState;
use vstd::prelude::*;

verus! {

/// The Adler-32 base modulus.
pub const ADLER_MOD: u32 = 65521;

/// One step of Adler-32 over a byte: both sums advance modulo the base.
pub open spec fn adler_fold(a: int, b: int, s: Seq<u8>) -> (int, int)
    decreases s.len(),
{
    if s.len() == 0 {
        (a, b)
    } else {
        let a2 = (a + s[0]) % (ADLER_MOD as int);
        adler_fold(a2, (b + a2) % (ADLER_MOD as int), s.skip(1))
    }
}

/// The Adler-32 state after absorbing `s`, packed as the usual word.
pub open spec fn spec_adler32_update(st: u32, s: Seq<u8>) -> u32 {
    let p = adler_fold((st & 0xFFFF) as int, (st >> 16) as int, s);
    (p.1 * 0x1_0000 + p.0) as u32
}

/// A well-formed Adler-32 state: both packed sums are reduced.
pub open spec fn adler_wf(st: u32) -> bool {
    (st & 0xFFFF) < ADLER_MOD && (st >> 16) < ADLER_MOD
}

/// The running zlib checksum of the pixel data.
pub struct Adler32(u32);

impl Adler32 {
    pub closed spec fn view_state(self) -> u32 {
        self.0
    }

    pub closed spec fn wf(self) -> bool {
        adler_wf(self.0)
    }

    /// The empty-input state.
    pub fn new() -> (r: Adler32)
        ensures
            r.wf(),
            r.view_state() == 1u32,
    {
        proof {
            assert(1u32 & 0xFFFF == 1 && 1u32 >> 16 == 0) by (bit_vector);
        }
        Adler32(1)
    }

    /// Absorb bytes.
    pub fn add(&mut self, data: &[u8])
        requires
            old(self).wf(),
        ensures
            final(self).wf(),
            final(self).view_state() == spec_adler32_update(old(self).view_state(), data@),
    {
        let st = self.0;
        let mut a: u32 = st & 0xFFFF;
        let mut b: u32 = st >> 16;
        let mut i: usize = 0;
        proof {
            assert(data@.skip(0) =~= data@);
        }
        while i < data.len()
            invariant
                i <= data@.len(),
                a < ADLER_MOD,
                b < ADLER_MOD,
                adler_fold((old(self).view_state() & 0xFFFF) as int, (old(self).view_state()
                    >> 16) as int, data@) == adler_fold(a as int, b as int, data@.skip(i as int)),
            decreases data@.len() - i,
        {
            proof {
                assert(data@.skip(i as int)[0] == data@[i as int]);
                assert(data@.skip(i as int).skip(1) =~= data@.skip(i + 1));
            }
            a = (a + (data[i] as u32)) % ADLER_MOD;
            b = (b + a) % ADLER_MOD;
            i += 1;
        }
        proof {
            assert(data@.skip(data@.len() as int) =~= Seq::<u8>::empty());
        }
        let packed = (b << 16) | a;
        proof {
            assert((b << 16) | a == b * 0x1_0000 + a && ((b * 0x1_0000 + a) as u32) & 0xFFFF == a
                && ((b * 0x1_0000 + a) as u32) >> 16 == b) by (bit_vector)
                requires
                    a < 65521u32,
                    b < 65521u32,
            ;
        }
        self.0 = packed;
    }

    /// The packed checksum word.
    pub fn as_inner(&self) -> (r: u32)
        ensures
            r == self.view_state(),
    {
        self.0
    }
}

/// The reflected CRC-32 polynomial.
pub const CRC_POLY: u32 = 0xEDB8_8320;

/// One bit round of CRC-32.
pub open spec fn crc_round(c: u32) -> u32 {
    if c & 1 == 1 {
        (c >> 1) ^ CRC_POLY
    } else {
        c >> 1
    }
}

/// `k` bit rounds.
pub open spec fn crc_rounds(c: u32, k: nat) -> u32
    decreases k,
{
    if k == 0 {
        c
    } else {
        crc_rounds(crc_round(c), (k - 1) as nat)
    }
}

/// Absorbing one byte: mix it in, then eight bit rounds.
pub open spec fn crc_byte(c: u32, b: u8) -> u32 {
    crc_rounds(c ^ (b as u32), 8)
}

pub open spec fn crc_fold(c: u32, s: Seq<u8>) -> u32
    decreases s.len(),
{
    if s.len() == 0 {
        c
    } else {
        crc_fold(crc_byte(c, s[0]), s.skip(1))
    }
}

/// The CRC-32 state after absorbing `s`, with the usual pre- and
/// post-inversion.
pub open spec fn spec_crc32_update(st: u32, s: Seq<u8>) -> u32 {
    crc_fold(st ^ 0xFFFF_FFFFu32, s) ^ 0xFFFF_FFFFu32
}

/// The CRC-32 of a whole byte string.
pub open spec fn crc32_of(s: Seq<u8>) -> u32 {
    spec_crc32_update(0, s)
}

/// The big-endian bytes of a 32-bit word.
pub open spec fn be32(v: u32) -> Seq<u8> {
    seq![(v >> 24) as u8, (v >> 16) as u8, (v >> 8) as u8, v as u8]
}

/// The running chunk checksum.
pub struct Crc32(u32);

impl Crc32 {
    pub closed spec fn view_state(self) -> u32 {
        self.0
    }

    /// The empty-input state.
    pub fn new() -> (r: Crc32)
        ensures
            r.view_state() == 0u32,
    {
        Crc32(0)
    }

    /// Absorb bytes.
    pub fn add(&mut self, data: &[u8])
        ensures
            final(self).view_state() == spec_crc32_update(old(self).view_state(), data@),
    {
        let mut c: u32 = self.0 ^ 0xFFFF_FFFF;
        let mut i: usize = 0;
        proof {
            assert(data@.skip(0) =~= data@);
        }
        while i < data.len()
            invariant
                i <= data@.len(),
                crc_fold(old(self).view_state() ^ 0xFFFF_FFFFu32, data@) == crc_fold(
                    c,
                    data@.skip(i as int),
                ),
            decreases data@.len() - i,
        {
            proof {
                assert(data@.skip(i as int)[0] == data@[i as int]);
                assert(data@.skip(i as int).skip(1) =~= data@.skip(i + 1));
            }
            c = c ^ (data[i] as u32);
            let ghost c0 = c;
            let mut k: usize = 0;
            while k < 8
                invariant
                    k <= 8,
                    crc_rounds(c0, 8) == crc_rounds(c, (8 - k) as nat),
                decreases 8 - k,
            {
                proof {
                    assert(crc_rounds(c, (8 - k) as nat) == crc_rounds(
                        crc_round(c),
                        (8 - k - 1) as nat,
                    ));
                }
                if c & 1 == 1 {
                    c = (c >> 1) ^ CRC_POLY;
                } else {
                    c = c >> 1;
                }
                k += 1;
            }
            i += 1;
        }
        proof {
            assert(data@.skip(data@.len() as int) =~= Seq::<u8>::empty());
        }
        self.0 = c ^ 0xFFFF_FFFF;
    }

    /// Absorb bytes and also append them to the output.
    pub fn add_wt(&mut self, data: &[u8], target: &mut Vec<u8>)
        ensures
            final(self).view_state() == spec_crc32_update(old(self).view_state(), data@),
            final(target)@ == old(target)@ + data@,
    {
        self.add(data);
        target.extend_from_slice(data);
    }

    /// Append the checksum word, big endian.
    pub fn flush(&self, target: &mut Vec<u8>)
        ensures
            final(target)@ == old(target)@ + be32(self.view_state()),
    {
        target.push((self.0 >> 24) as u8);
        target.push((self.0 >> 16) as u8);
        target.push((self.0 >> 8) as u8);
        target.push(self.0 as u8);
        proof {
            assert(final(target)@ =~= old(target)@ + be32(self.0));
        }
    }
}


/// Composing CRC folds over concatenation.
proof fn lemma_crc_fold_append(c: u32, a: Seq<u8>, b: Seq<u8>)
    ensures
        crc_fold(c, a + b) == crc_fold(crc_fold(c, a), b),
    decreases a.len(),
{
    if a.len() == 0 {
        assert(a + b =~= b);
    } else {
        assert((a + b)[0] == a[0]);
        assert((a + b).skip(1) =~= a.skip(1) + b);
        lemma_crc_fold_append(crc_byte(c, a[0]), a.skip(1), b);
    }
}

/// Absorbing in two steps is absorbing the concatenation.
proof fn lemma_crc_update_append(st: u32, a: Seq<u8>, b: Seq<u8>)
    ensures
        spec_crc32_update(spec_crc32_update(st, a), b) == spec_crc32_update(st, a + b),
{
    let mid = crc_fold(st ^ 0xFFFF_FFFFu32, a);
    assert((mid ^ 0xFFFF_FFFFu32) ^ 0xFFFF_FFFFu32 == mid) by (bit_vector);
    lemma_crc_fold_append(st ^ 0xFFFF_FFFFu32, a, b);
}

/// Adler folds stay reduced and compose over concatenation.
proof fn lemma_adler_fold_append(a0: int, b0: int, x: Seq<u8>, y: Seq<u8>)
    ensures
        adler_fold(a0, b0, x + y) == adler_fold(
            adler_fold(a0, b0, x).0,
            adler_fold(a0, b0, x).1,
            y,
        ),
    decreases x.len(),
{
    if x.len() == 0 {
        assert(x + y =~= y);
    } else {
        assert((x + y)[0] == x[0]);
        assert((x + y).skip(1) =~= x.skip(1) + y);
        let a2 = (a0 + x[0]) % (ADLER_MOD as int);
        lemma_adler_fold_append(a2, (b0 + a2) % (ADLER_MOD as int), x.skip(1), y);
    }
}

proof fn lemma_adler_fold_reduced(a0: int, b0: int, x: Seq<u8>)
    requires
        0 <= a0 < ADLER_MOD,
        0 <= b0 < ADLER_MOD,
    ensures
        0 <= adler_fold(a0, b0, x).0 < ADLER_MOD,
        0 <= adler_fold(a0, b0, x).1 < ADLER_MOD,
    decreases x.len(),
{
    if x.len() > 0 {
        let a2 = (a0 + x[0]) % (ADLER_MOD as int);
        lemma_adler_fold_reduced(a2, (b0 + a2) % (ADLER_MOD as int), x.skip(1));
    }
}

/// Absorbing in two steps is absorbing the concatenation, for reduced
/// states.
proof fn lemma_adler_update_append(st: u32, x: Seq<u8>, y: Seq<u8>)
    requires
        adler_wf(st),
    ensures
        spec_adler32_update(spec_adler32_update(st, x), y) == spec_adler32_update(st, x + y),
        adler_wf(spec_adler32_update(st, x)),
{
    let a0 = (st & 0xFFFF) as int;
    let b0 = (st >> 16) as int;
    lemma_adler_fold_reduced(a0, b0, x);
    let p = adler_fold(a0, b0, x);
    let packed = (p.1 * 0x1_0000 + p.0) as u32;
    let pa = p.0 as u32;
    let pb = p.1 as u32;
    assert(((pb * 0x1_0000 + pa) as u32) & 0xFFFF == pa && ((pb * 0x1_0000 + pa) as u32) >> 16
        == pb) by (bit_vector)
        requires
            pa < 65521u32,
            pb < 65521u32,
    ;
    lemma_adler_fold_append(a0, b0, x, y);
}

/// The fixed zlib-header IDAT chunk.
pub open spec fn spec_first_idat() -> Seq<u8> {
    let content = seq![73u8, 68u8, 65u8, 84u8, 8u8, 29u8];
    seq![0u8, 0u8, 0u8, 2u8] + content + be32(crc32_of(content))
}

/// One scanline as a stored-block IDAT chunk: the deflate block header,
/// the filter byte and pixels, and on the last row the zlib checksum and
/// final-block flag.
pub open spec fn spec_scanline(sdata: Seq<u8>, adler_after: u32, bottom: bool) -> Seq<u8> {
    let bl = (sdata.len() + 1) as u16;
    let content = seq![
        73u8,
        68u8,
        65u8,
        84u8,
        (if bottom { 1u8 } else { 0u8 }),
        (bl & 0xFF) as u8,
        ((bl >> 8) & 0xFF) as u8,
        (!((bl & 0xFF) as u8)),
        (!(((bl >> 8) & 0xFF) as u8)),
        0u8,
    ] + sdata + (if bottom { be32(adler_after) } else { Seq::<u8>::empty() });
    be32((sdata.len() + 6 + if bottom { 4int } else { 0int }) as u32) + content + be32(
        crc32_of(content),
    )
}

/// The signature and header chunk.
pub open spec fn spec_ihdr(w: usize, h: usize) -> Seq<u8> {
    let content = seq![
        73u8,
        72u8,
        68u8,
        82u8,
        (w >> 24) as u8,
        (w >> 16) as u8,
        (w >> 8) as u8,
        w as u8,
        (h >> 24) as u8,
        (h >> 16) as u8,
        (h >> 8) as u8,
        h as u8,
        8u8,
        6u8,
        0u8,
        0u8,
        0u8,
    ];
    seq![137u8, 80u8, 78u8, 71u8, 13u8, 10u8, 26u8, 10u8, 0u8, 0u8, 0u8, 13u8] + content + be32(
        crc32_of(content),
    )
}

/// The closing chunk.
pub open spec fn spec_iend() -> Seq<u8> {
    let content = seq![73u8, 69u8, 78u8, 68u8];
    seq![0u8, 0u8, 0u8, 0u8] + content + be32(crc32_of(content))
}

/// Write the fixed first IDAT chunk.
pub fn write_first_idat(out: &mut Vec<u8>)
    ensures
        final(out)@ == old(out)@ + spec_first_idat(),
{
    let mut crc = Crc32::new();
    push_bytes(out, [0u8, 0, 0, 2].as_slice());
    let content: [u8; 6] = [73, 68, 65, 84, 8, 29];
    crc.add_wt(content.as_slice(), out);
    crc.flush(out);
    proof {
        assert(content@ =~= seq![73u8, 68u8, 65u8, 84u8, 8u8, 29u8]);
        assert([0u8, 0, 0, 2]@ =~= seq![0u8, 0u8, 0u8, 2u8]);
        assert(final(out)@ =~= old(out)@ + spec_first_idat());
    }
}

/// Write one scanline as a stored-block IDAT chunk, feeding the zlib
/// checksum with the filter byte and the pixels.  `sdata` must be one
/// whole scanline and fit a stored block.
pub fn write_scanline(out: &mut Vec<u8>, sdata: &[u8], chksum: &mut Adler32, bottom: bool)
    requires
        old(chksum).wf(),
        sdata@.len() <= 65534,
    ensures
        final(chksum).wf(),
        final(chksum).view_state() == spec_adler32_update(
            old(chksum).view_state(),
            seq![0u8] + sdata@,
        ),
        final(out)@ == old(out)@ + spec_scanline(
            sdata@,
            final(chksum).view_state(),
            bottom,
        ),
{
    let sdlen: u32 = (sdata.len() as u32) + 6 + if bottom {
        4
    } else {
        0
    };
    out.push((sdlen >> 24) as u8);
    out.push((sdlen >> 16) as u8);
    out.push((sdlen >> 8) as u8);
    out.push(sdlen as u8);
    proof {
        assert(seq![(sdlen >> 24) as u8, (sdlen >> 16) as u8, (sdlen >> 8) as u8, sdlen as u8]
            =~= be32((sdata@.len() + 6 + if bottom { 4int } else { 0int }) as u32));
    }
    let mut crc = Crc32::new();
    let bl: u16 = (sdata.len() + 1) as u16;
    let sdlena = ((bl >> 8) & 0xFF) as u8;
    let sdlenb = (bl & 0xFF) as u8;
    let hdr: [u8; 10] = [
        73,
        68,
        65,
        84,
        if bottom {
            1
        } else {
            0
        },
        sdlenb,
        sdlena,
        !sdlenb,
        !sdlena,
        0,
    ];
    crc.add_wt(hdr.as_slice(), out);
    chksum.add([0u8].as_slice());
    chksum.add(sdata);
    proof {
        assert([0u8]@ =~= seq![0u8]);
        lemma_adler_update_append(old(chksum).view_state(), seq![0u8], sdata@);
    }
    crc.add_wt(sdata, out);
    let ghost content_pre = hdr@ + sdata@;
    proof {
        lemma_crc_update_append(0, hdr@, sdata@);
    }
    if bottom {
        let cs = chksum.as_inner();
        let tail: [u8; 4] = [(cs >> 24) as u8, (cs >> 16) as u8, (cs >> 8) as u8, cs as u8];
        crc.add_wt(tail.as_slice(), out);
        proof {
            assert(tail@ =~= be32(cs));
            lemma_crc_update_append(0, content_pre, tail@);
        }
    }
    crc.flush(out);
    proof {
        let content = content_pre + (if bottom {
            be32(final(chksum).view_state())
        } else {
            Seq::<u8>::empty()
        });
        assert(content_pre + Seq::<u8>::empty() =~= content_pre);
        let blx = (sdata@.len() + 1) as u16;
        assert(hdr@ =~= seq![
            73u8,
            68u8,
            65u8,
            84u8,
            (if bottom { 1u8 } else { 0u8 }),
            (blx & 0xFF) as u8,
            ((blx >> 8) & 0xFF) as u8,
            (!((blx & 0xFF) as u8)),
            (!(((blx >> 8) & 0xFF) as u8)),
            0u8,
        ]);
        assert(final(out)@ =~= old(out)@ + spec_scanline(
            sdata@,
            final(chksum).view_state(),
            bottom,
        ));
    }
}

/// Write the signature and header chunk for an RGBA image.
pub fn write_ihdr(out: &mut Vec<u8>, w: usize, h: usize)
    ensures
        final(out)@ == old(out)@ + spec_ihdr(w, h),
{
    let mut crc = Crc32::new();
    push_bytes(out, [137u8, 80, 78, 71, 13, 10, 26, 10, 0, 0, 0, 13].as_slice());
    let content: [u8; 17] = [
        73,
        72,
        68,
        82,
        (w >> 24) as u8,
        (w >> 16) as u8,
        (w >> 8) as u8,
        w as u8,
        (h >> 24) as u8,
        (h >> 16) as u8,
        (h >> 8) as u8,
        h as u8,
        8,
        6,
        0,
        0,
        0,
    ];
    crc.add_wt(content.as_slice(), out);
    crc.flush(out);
    proof {
        assert([137u8, 80, 78, 71, 13, 10, 26, 10, 0, 0, 0, 13]@ =~= seq![
            137u8,
            80u8,
            78u8,
            71u8,
            13u8,
            10u8,
            26u8,
            10u8,
            0u8,
            0u8,
            0u8,
            13u8,
        ]);
        assert(content@ =~= seq![
            73u8,
            72u8,
            68u8,
            82u8,
            (w >> 24) as u8,
            (w >> 16) as u8,
            (w >> 8) as u8,
            w as u8,
            (h >> 24) as u8,
            (h >> 16) as u8,
            (h >> 8) as u8,
            h as u8,
            8u8,
            6u8,
            0u8,
            0u8,
            0u8,
        ]);
        assert(final(out)@ =~= old(out)@ + spec_ihdr(w, h));
    }
}

/// Write the closing chunk.
pub fn write_iend(out: &mut Vec<u8>)
    ensures
        final(out)@ == old(out)@ + spec_iend(),
{
    let mut crc = Crc32::new();
    push_bytes(out, [0u8, 0, 0, 0].as_slice());
    let content: [u8; 4] = [73, 69, 78, 68];
    crc.add_wt(content.as_slice(), out);
    crc.flush(out);
    proof {
        assert(content@ =~= seq![73u8, 69u8, 78u8, 68u8]);
        assert([0u8, 0, 0, 0]@ =~= seq![0u8, 0u8, 0u8, 0u8]);
        assert(final(out)@ =~= old(out)@ + spec_iend());
    }
}

/// Append a fixed group of bytes.
fn push_bytes(out: &mut Vec<u8>, bs: &[u8])
    ensures
        final(out)@ == old(out)@ + bs@,
{
    let mut i: usize = 0;
    proof {
        assert(out@ =~= old(out)@ + bs@.take(0));
    }
    while i < bs.len()
        invariant
            i <= bs@.len(),
            out@ == old(out)@ + bs@.take(i as int),
        decreases bs@.len() - i,
    {
        out.push(bs[i]);
        proof {
            assert(old(out)@ + bs@.take(i + 1) =~= (old(out)@ + bs@.take(i as int)).push(
                bs@[i as int],
            ));
        }
        i += 1;
    }
    proof {
        assert(bs@.take(bs@.len() as int) =~= bs@);
    }
}


/// One RGBA byte of a row.
pub open spec fn row_byte(img: MmapImageState, y: int, i: int) -> u8 {
    let p = img.pixel(i / 4, y);
    if i % 4 == 0 {
        (p >> 16) as u8
    } else if i % 4 == 1 {
        (p >> 8) as u8
    } else if i % 4 == 2 {
        p as u8
    } else {
        (p >> 24) as u8
    }
}

/// The RGBA bytes of one row.
pub open spec fn row_seq(img: MmapImageState, y: int) -> Seq<u8> {
    Seq::new((4 * img.spec_width()) as nat, |i: int| row_byte(img, y, i))
}

/// The IDAT chunks of the rows from `y` down, threading the zlib
/// checksum.
pub open spec fn spec_png_rows(img: MmapImageState, y: int, ad: u32) -> Seq<u8>
    decreases img.spec_height() - y when y <= img.spec_height()
{
    if y < 0 || y >= img.spec_height() {
        Seq::empty()
    } else {
        let ad2 = spec_adler32_update(ad, seq![0u8] + row_seq(img, y));
        spec_scanline(row_seq(img, y), ad2, y + 1 == img.spec_height()) + spec_png_rows(
            img,
            y + 1,
            ad2,
        )
    }
}

/// The whole PNG: signature and header, the fixed zlib-header chunk, one
/// stored-block chunk per row, and the closing chunk.
pub open spec fn spec_png_bytes(img: MmapImageState) -> Seq<u8> {
    spec_ihdr(img.spec_width() as usize, img.spec_height() as usize) + spec_first_idat()
        + spec_png_rows(img, 0, 1) + spec_iend()
}

/// The exact byte length of the image written as a PNG.
pub fn scan_image_as_png_size(img: &MmapImageState) -> (r: usize)
    requires
        img.wf(),
        4 * img.spec_width() + 18 <= usize::MAX,
        img.spec_height() * (18 + 4 * img.spec_width()) + 63 <= usize::MAX,
    ensures
        r == 63 + img.spec_height() * (18 + 4 * img.spec_width()),
{
    // PNG signature, IHDR, fixed IDAT, IDAT end overhead and IEND.
    let size: usize = 8 + 3 * 12 + 13 + 2 + 4;
    let (w, h) = img.get_size();
    proof {
        img.lemma_wf_bounds();
        assert(h * (18 + 4 * w) <= img.spec_height() * (18 + 4 * img.spec_width()))
            by (nonlinear_arith)
            requires
                h == img.spec_height(),
                w == img.spec_width(),
        ;
        assert(h * (18 + 4 * w) >= 0) by (nonlinear_arith)
            requires
                h >= 0,
                w >= 0,
        ;
    }
    // For each row, 18 bytes of overhead around the pixel bytes.
    size + h * (18 + 4 * w)
}

/// Write the whole image as a PNG.  The output is exactly
/// `spec_png_bytes`, whose length `scan_image_as_png_size` computes.
#[verifier::rlimit(100)]
#[verifier::loop_isolation(false)]
pub fn scan_image_as_png(out: &mut Vec<u8>, img: &MmapImageState)
    requires
        img.wf(),
        4 * img.spec_width() <= 65534,
    ensures
        final(out)@ == old(out)@ + spec_png_bytes(*img),
{
    let (w, h) = img.get_size();
    proof {
        img.lemma_wf_bounds();
    }
    let mut buf: Vec<u8> = vec![0u8; 4 * w];
    write_ihdr(out, w, h);
    write_first_idat(out);
    let mut chksum = Adler32::new();
    let mut y: usize = 0;
    while y < h
        invariant
            y <= h,
            buf@.len() == 4 * w,
            chksum.wf(),
            out@ + spec_png_rows(*img, y as int, chksum.view_state()) == old(out)@ + spec_ihdr(
                w,
                h,
            ) + spec_first_idat() + spec_png_rows(*img, 0, 1),
        decreases h - y,
    {
        img.read_row(y, &mut buf);
        proof {
            assert((4 * (w as int)) / 4 == w as int) by (nonlinear_arith);
            assert(buf@ =~= row_seq(*img, y as int)) by {
                assert((4 * (w as int)) / 4 == w as int) by (nonlinear_arith);
                assert forall|i: int| 0 <= i < 4 * w implies buf@[i] == row_byte(
                    *img,
                    y as int,
                    i,
                ) by {
                    let j = i / 4;
                    let r = i % 4;
                    assert(i == 4 * j + r && 0 <= r < 4 && 0 <= j < w) by (nonlinear_arith)
                        requires
                            j == i / 4,
                            r == i % 4,
                            0 <= i < 4 * w,
                    ;
                    assert(0 <= j < w);
                    assert(buf@.len() as int / 4 == w as int);
                    assert(buf@[4 * j] == ((img.pixel(j, y as int) >> 16) as u8));
                    assert(buf@[4 * j + 1] == ((img.pixel(j, y as int) >> 8) as u8));
                    assert(buf@[4 * j + 2] == (img.pixel(j, y as int) as u8));
                    assert(buf@[4 * j + 3] == ((img.pixel(j, y as int) >> 24) as u8));
                }
            }
        }
        let ghost ad0 = chksum.view_state();
        write_scanline(out, buf.as_slice(), &mut chksum, y + 1 == h);
        proof {
            assert(spec_png_rows(*img, y as int, ad0) == spec_scanline(
                row_seq(*img, y as int),
                chksum.view_state(),
                y + 1 == h,
            ) + spec_png_rows(*img, y as int + 1, chksum.view_state()));
        }
        y += 1;
    }
    write_iend(out);
    proof {
        assert(spec_png_rows(*img, h as int, chksum.view_state()) =~= Seq::<u8>::empty());
        assert(final(out)@ =~= old(out)@ + spec_png_bytes(*img));
    }
}

/// The emitted PNG's length is exactly what `scan_image_as_png_size`
/// computes: the fixed sixty-three bytes of framing plus eighteen bytes of
/// chunk overhead around each row's pixel bytes.
pub proof fn lemma_png_size_exact(img: MmapImageState)
    requires
        img.wf(),
        img.spec_height() >= 1,
    ensures
        spec_png_bytes(img).len() == 63 + img.spec_height() * (18 + 4 * img.spec_width()),
{
    img.lemma_wf_bounds();
    lemma_png_rows_len(img, 0, 1);
    assert((img.spec_height() - 0) * (18 + 4 * img.spec_width()) == img.spec_height() * (18 + 4
        * img.spec_width())) by (nonlinear_arith);
}

/// Length of the row chunks from `y` down: eighteen plus the row bytes per
/// chunk, and four more on the last row for the zlib checksum.
proof fn lemma_png_rows_len(img: MmapImageState, y: int, ad: u32)
    requires
        img.wf(),
        0 <= y <= img.spec_height(),
    ensures
        spec_png_rows(img, y, ad).len() == (img.spec_height() - y) * (18 + 4 * img.spec_width())
            + if y < img.spec_height() {
            4int
        } else {
            0int
        },
    decreases img.spec_height() - y,
{
    let w = img.spec_width();
    let h = img.spec_height();
    img.lemma_wf_bounds();
    if y < h {
        let ad2 = spec_adler32_update(ad, seq![0u8] + row_seq(img, y));
        lemma_png_rows_len(img, y + 1, ad2);
        let row = row_seq(img, y);
        let pad: Seq<u8> = if y + 1 == h {
            be32(ad2)
        } else {
            Seq::empty()
        };
        assert(w >= 0);
        assert(row.len() == (4 * img.spec_width()) as nat);
        assert(row.len() == 4 * w);
        let bl = (row.len() + 1) as u16;
        let content = seq![
            73u8,
            68u8,
            65u8,
            84u8,
            (if y + 1 == h { 1u8 } else { 0u8 }),
            (bl & 0xFF) as u8,
            ((bl >> 8) & 0xFF) as u8,
            (!((bl & 0xFF) as u8)),
            (!(((bl >> 8) & 0xFF) as u8)),
            0u8,
        ] + row + pad;
        assert(content.len() == 10 + 4 * w + (if y + 1 == h {
            4int
        } else {
            0int
        }));
        assert(spec_scanline(row, ad2, y + 1 == h).len() == 4 + content.len() + 4);
        assert((h - y) * (18 + 4 * w) == (18 + 4 * w) + (h - (y + 1)) * (18 + 4 * w))
            by (nonlinear_arith);
    } else {
        assert((h - y) * (18 + 4 * w) == 0) by (nonlinear_arith)
            requires
                y == h,
        ;
    }
}

} // verus!
