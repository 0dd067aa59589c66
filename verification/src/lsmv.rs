//! Writing a scene's event history as a movie container file: a magic
//! number, a few tagged members, then one frame record per emulated frame
//! with padding frames between events.
use crate::error::Error;
use crate::png::be32;
use crate::scene::spec_permute;
use crate::scene::Scene;
use vstd::prelude::*;

verus! {

/// The variable-length integer encoding: seven bits per byte, low bits
/// first, the top bit marking continuation.
pub open spec fn varint(b: u64) -> Seq<u8>
    decreases b,
    via varint_dec
{
    if b > 127 {
        seq![(128 | (b & 127)) as u8] + varint(b >> 7)
    } else {
        seq![b as u8]
    }
}

#[via_fn]
proof fn varint_dec(b: u64) {
    assert(b > 127 ==> b >> 7 < b) by (bit_vector);
}

/// Append one byte.
pub fn write_byte(out: &mut Vec<u8>, b: u8)
    ensures
        final(out)@ == old(out)@ + seq![b],
{
    out.push(b);
    proof {
        assert(final(out)@ =~= old(out)@ + seq![b]);
    }
}

/// Append a 32-bit word, big endian.
pub fn write_u32(out: &mut Vec<u8>, b: u32)
    ensures
        final(out)@ == old(out)@ + be32(b),
{
    out.push((b >> 24) as u8);
    out.push((b >> 16) as u8);
    out.push((b >> 8) as u8);
    out.push(b as u8);
    proof {
        assert(final(out)@ =~= old(out)@ + be32(b));
    }
}

/// Append a variable-length integer.
pub fn write_integer(out: &mut Vec<u8>, b: u64)
    ensures
        final(out)@ == old(out)@ + varint(b),
    decreases b,
{
    if b > 127 {
        proof {
            assert(b > 127 ==> b >> 7 < b) by (bit_vector);
            assert((128u64 | (b & 127)) <= 255 && ((128u64 | (b & 127)) as u8) == 128u8 | ((b
                & 127) as u8)) by (bit_vector);
        }
        out.push(128 | ((b & 127) as u8));
        write_integer(out, b >> 7);
        proof {
            assert(final(out)@ =~= old(out)@ + varint(b));
        }
    } else {
        out.push(b as u8);
        proof {
            assert(final(out)@ =~= old(out)@ + varint(b));
        }
    }
}

/// A member heading: the container magic, the member type, the length.
pub open spec fn spec_heading(htype: u32, size: u64) -> Seq<u8> {
    be32(0xADDB_2D86) + be32(htype) + varint(size)
}

/// Append a member heading.
pub fn write_heading(out: &mut Vec<u8>, htype: u32, size: u64)
    ensures
        final(out)@ == old(out)@ + spec_heading(htype, size),
{
    write_u32(out, 0xADDB_2D86);
    write_u32(out, htype);
    write_integer(out, size);
    proof {
        assert(final(out)@ =~= old(out)@ + spec_heading(htype, size));
    }
}

/// A whole member: its heading then its content.
pub open spec fn spec_member(htype: u32, content: Seq<u8>) -> Seq<u8> {
    spec_heading(htype, content.len() as u64) + content
}

/// Append a whole member.
pub fn write_member(out: &mut Vec<u8>, htype: u32, content: &[u8])
    ensures
        final(out)@ == old(out)@ + spec_member(htype, content@),
{
    write_heading(out, htype, content.len() as u64);
    out.extend_from_slice(content);
    proof {
        assert(final(out)@ =~= old(out)@ + spec_member(htype, content@));
    }
}

/// A length-prefixed string.
pub open spec fn spec_string(content: Seq<u8>) -> Seq<u8> {
    varint(content.len() as u64) + content
}

/// Append a length-prefixed string.
pub fn write_string(out: &mut Vec<u8>, content: &[u8])
    ensures
        final(out)@ == old(out)@ + spec_string(content@),
{
    write_integer(out, content.len() as u64);
    out.extend_from_slice(content);
    proof {
        assert(final(out)@ =~= old(out)@ + spec_string(content@));
    }
}

/// One eleven-byte frame record: the sync and spin flags, the position,
/// and the color spread over three channel pairs.
pub open spec fn spec_frame(x: u16, y: u16, color: u32, sync: bool, spin: bool) -> Seq<u8> {
    seq![
        ((if sync { 1u8 } else { 0u8 }) | (if spin { 2u8 } else { 0u8 })),
        x as u8,
        (x >> 8) as u8,
        y as u8,
        (y >> 8) as u8,
        (color >> 16) as u8,
        0u8,
        (color >> 8) as u8,
        0u8,
        color as u8,
        0u8,
    ]
}

/// Append one frame record.
pub fn write_frame(out: &mut Vec<u8>, x: u16, y: u16, color: u32, sync: bool, spin: bool)
    ensures
        final(out)@ == old(out)@ + spec_frame(x, y, color, sync, spin),
{
    let flags: u8 = if sync {
        1
    } else {
        0
    } | if spin {
        2
    } else {
        0
    };
    out.push(flags);
    out.push(x as u8);
    out.push((x >> 8) as u8);
    out.push(y as u8);
    out.push((y >> 8) as u8);
    out.push((color >> 16) as u8);
    out.push(0);
    out.push((color >> 8) as u8);
    out.push(0);
    out.push(color as u8);
    out.push(0);
    proof {
        assert(final(out)@ =~= old(out)@ + spec_frame(x, y, color, sync, spin));
    }
}

/// One event of the movie: a timestamped pixel write.
pub struct MovieEvent {
    pub timestamp: i64,
    pub x: u16,
    pub y: u16,
    pub color: u32,
}

/// The frame an event lands on: three frames per fifty time units past
/// the first event.
pub open spec fn frame_of(ts: i64, base: i64) -> int {
    3 * (ts - base) / 50
}

/// The movie's timestamps never run backwards and stay within a span the
/// frame arithmetic can carry.
pub open spec fn movie_wf(movie: Seq<MovieEvent>) -> bool {
    &&& movie.len() <= 0x1000_0000
    &&& forall|i: int, j: int|
        0 <= i <= j < movie.len() ==> #[trigger] movie[i].timestamp <= #[trigger] movie[j].timestamp
    &&& forall|i: int|
        0 <= i < movie.len() ==> #[trigger] movie[i].timestamp - movie[0].timestamp
            <= 0x10_0000_0000
}

/// The count of frame records the movie needs: one per event, plus one
/// padding frame per skipped frame number.
pub open spec fn spec_frame_count(movie: Seq<MovieEvent>, i: int, last: int, acc: int) -> int
    decreases movie.len() - i,
{
    if i < 0 || i >= movie.len() {
        acc
    } else {
        let fnum = frame_of(movie[i].timestamp, movie[0].timestamp);
        if fnum == last {
            spec_frame_count(movie, i + 1, last, acc + 1)
        } else {
            spec_frame_count(movie, i + 1, fnum, acc + fnum - last)
        }
    }
}

/// The frame records of the movie from event `i` on: padding sync frames
/// up to each event's frame, the event's frame, and subframes with a
/// spinning flag for events on the same frame.
pub open spec fn spec_frames(movie: Seq<MovieEvent>, i: int, last: int, spin: bool) -> Seq<u8>
    decreases movie.len() - i,
{
    if i < 0 || i >= movie.len() {
        Seq::empty()
    } else {
        let ev = movie[i];
        let fnum = frame_of(ev.timestamp, movie[0].timestamp);
        if fnum == last {
            spec_frame(ev.x, ev.y, ev.color, false, spin) + spec_frames(movie, i + 1, last, !spin)
        } else {
            pad_frames(fnum - last - 1) + spec_frame(ev.x, ev.y, ev.color, true, true)
                + spec_frames(movie, i + 1, fnum, false)
        }
    }
}

/// `k` padding sync frames.
pub open spec fn pad_frames(k: int) -> Seq<u8>
    decreases k,
{
    if k <= 0 {
        Seq::empty()
    } else {
        spec_frame(0, 0, 0, true, false) + pad_frames(k - 1)
    }
}

/// The digest line of the member describing the flat backing state: a
/// zero byte, then the hex digest text.
pub open spec fn rom_hash_member() -> Seq<u8> {
    seq![0u8] + seq![101u8, 51u8, 98u8, 48u8, 99u8, 52u8, 52u8, 50u8, 57u8, 56u8, 102u8, 99u8, 49u8, 99u8, 49u8, 52u8, 57u8, 97u8, 102u8, 98u8, 102u8, 52u8, 99u8, 56u8, 57u8, 57u8, 54u8, 102u8, 98u8, 57u8, 50u8, 52u8, 50u8, 55u8, 97u8, 101u8, 52u8, 49u8, 101u8, 52u8, 54u8, 52u8, 57u8, 98u8, 57u8, 51u8, 52u8, 99u8, 97u8, 52u8, 57u8, 53u8, 57u8, 57u8, 49u8, 98u8, 55u8, 56u8, 53u8, 50u8, 98u8, 56u8, 53u8, 53u8]
}

/// The whole movie file for a scene: magic, system name, the width and
/// height settings, the fixed descriptive members, the project id, and
/// the frame records.
pub open spec fn spec_lsmv_file(
    sceneid: Seq<u8>,
    width: u16,
    height: u16,
    movie: Seq<MovieEvent>,
) -> Seq<u8> {
    seq![0x6Cu8, 0x73u8, 0x6Du8, 0x76u8, 0x1Au8] + spec_string(seq![112u8, 98u8, 110u8])
        + seq![1u8] + spec_string(seq![119u8, 105u8, 100u8, 116u8, 104u8]) + spec_string(
        crate::decimal::dec_repr(width as nat),
    ) + seq![1u8] + spec_string(seq![104u8, 101u8, 105u8, 103u8, 104u8, 116u8]) + spec_string(
        crate::decimal::dec_repr(height as nat),
    ) + seq![0u8] + spec_member(0x18C3_A975, varint(1000000000) + varint(0)) + spec_member(
        0xE434_4C7E,
        seq![112u8, 98u8, 110u8],
    ) + spec_member(0x0428_ACFC, rom_hash_member()) + spec_member(
        0x6F71_5830,
        seq![0u8, 112u8, 98u8, 110u8],
    ) + spec_member(0xA3A0_7F71, seq![0x1Fu8, 0u8]) + spec_member(
        0x359B_FBAB,
        seq![115u8, 99u8, 101u8, 110u8, 101u8] + sceneid,
    ) + spec_heading(0xF3DC_A44B, (11 * spec_frame_count(movie, 0, -1, 0)) as u64) + spec_frames(
        movie,
        0,
        -1,
        true,
    )
}

/// Frame numbers are non-negative and bounded for a well-formed movie.
proof fn lemma_frame_bounds(movie: Seq<MovieEvent>, i: int)
    requires
        movie_wf(movie),
        0 <= i < movie.len(),
    ensures
        0 <= frame_of(movie[i].timestamp, movie[0].timestamp) <= 0x1000_0000_0000,
{
    let d = movie[i].timestamp - movie[0].timestamp;
    assert(movie[0].timestamp <= movie[i].timestamp);
    assert(0 <= d <= 0x10_0000_0000);
    assert(0 <= 3 * d / 50 <= 0x1000_0000_0000) by (nonlinear_arith)
        requires
            0 <= d <= 0x10_0000_0000,
    ;
}

/// Frames never run backwards for a well-formed movie.
proof fn lemma_frame_monotone(movie: Seq<MovieEvent>, i: int, j: int)
    requires
        movie_wf(movie),
        0 <= i <= j < movie.len(),
    ensures
        frame_of(movie[i].timestamp, movie[0].timestamp) <= frame_of(
            movie[j].timestamp,
            movie[0].timestamp,
        ),
{
    let d1 = movie[i].timestamp - movie[0].timestamp;
    let d2 = movie[j].timestamp - movie[0].timestamp;
    assert(movie[i].timestamp <= movie[j].timestamp);
    assert(3 * d1 / 50 <= 3 * d2 / 50) by (nonlinear_arith)
        requires
            d1 <= d2,
    ;
}

/// Write the whole movie file.
#[verifier::rlimit(100)]
#[verifier::loop_isolation(false)]
pub fn write_lsmv_file(
    sceneid: &[u8],
    width: u16,
    height: u16,
    movie: &Vec<MovieEvent>,
) -> (r: Vec<u8>)
    requires
        movie_wf(movie@),
    ensures
        r@ == spec_lsmv_file(sceneid@, width, height, movie@),
{
    let mut out: Vec<u8> = Vec::new();
    // Magic.
    push_lit(&mut out, [0x6Cu8, 0x73, 0x6D, 0x76, 0x1A].as_slice());
    proof {
        assert([0x6Cu8, 0x73, 0x6D, 0x76, 0x1A]@ =~= seq![0x6Cu8, 0x73u8, 0x6Du8, 0x76u8, 0x1Au8]);
    }
    // System name.
    write_string(&mut out, [112u8, 98, 110].as_slice());
    // Settings.
    write_byte(&mut out, 1);
    write_string(&mut out, [119u8, 105, 100, 116, 104].as_slice());
    let mut wtext: Vec<u8> = Vec::new();
    crate::decimal::push_u64_dec(&mut wtext, width as u64);
    write_string(&mut out, wtext.as_slice());
    write_byte(&mut out, 1);
    write_string(&mut out, [104u8, 101, 105, 103, 104, 116].as_slice());
    let mut htext: Vec<u8> = Vec::new();
    crate::decimal::push_u64_dec(&mut htext, height as u64);
    write_string(&mut out, htext.as_slice());
    write_byte(&mut out, 0);
    // Movie time.
    let mut out2: Vec<u8> = Vec::with_capacity(64);
    write_integer(&mut out2, 1000000000);
    write_integer(&mut out2, 0);
    write_member(&mut out, 0x18C3_A975, out2.as_slice());
    // Core version.
    write_member(&mut out, 0xE434_4C7E, [112u8, 98, 110].as_slice());
    // Backing state digest.
    let mut hash: Vec<u8> = Vec::new();
    hash.push(0);
    push_lit(&mut hash, [101u8, 51u8, 98u8, 48u8, 99u8, 52u8, 52u8, 50u8, 57u8, 56u8, 102u8, 99u8, 49u8, 99u8, 49u8, 52u8, 57u8, 97u8, 102u8, 98u8, 102u8, 52u8, 99u8, 56u8, 57u8, 57u8, 54u8, 102u8, 98u8, 57u8, 50u8, 52u8, 50u8, 55u8, 97u8, 101u8, 52u8, 49u8, 101u8, 52u8, 54u8, 52u8, 57u8, 98u8, 57u8, 51u8, 52u8, 99u8, 97u8, 52u8, 57u8, 53u8, 57u8, 57u8, 49u8, 98u8, 55u8, 56u8, 53u8, 50u8, 98u8, 56u8, 53u8, 53u8].as_slice());
    proof {
        assert(hash@ =~= rom_hash_member());
    }
    write_member(&mut out, 0x0428_ACFC, hash.as_slice());
    // System hint.
    write_member(&mut out, 0x6F71_5830, [0u8, 112, 98, 110].as_slice());
    // Reserved data.
    write_member(&mut out, 0xA3A0_7F71, [0x1Fu8, 0].as_slice());
    // Project id.
    let mut pid: Vec<u8> = Vec::new();
    push_lit(&mut pid, [115u8, 99, 101, 110, 101].as_slice());
    push_lit(&mut pid, sceneid);
    proof {
        assert(pid@ =~= seq![115u8, 99u8, 101u8, 110u8, 101u8] + sceneid@);
    }
    write_member(&mut out, 0x359B_FBAB, pid.as_slice());
    // Count the frame records.
    let base: i64 = if movie.len() > 0 {
        movie[0].timestamp
    } else {
        0
    };
    let mut iframecnt: i64 = 0;
    let mut lastframe: i64 = -1;
    let mut i: usize = 0;
    while i < movie.len()
        invariant
            i <= movie@.len(),
            movie@.len() > 0 ==> base == movie@[0].timestamp,
            -1 <= lastframe <= 0x1000_0000_0000,
            0 <= iframecnt <= i + lastframe + 1,
            i == 0 ==> lastframe == -1 && iframecnt == 0,
            i > 0 ==> lastframe == frame_of(movie@[i - 1].timestamp, movie@[0].timestamp),
            spec_frame_count(movie@, 0, -1, 0) == spec_frame_count(
                movie@,
                i as int,
                lastframe as int,
                iframecnt as int,
            ),
        decreases movie@.len() - i,
    {
        proof {
            lemma_frame_bounds(movie@, i as int);
            if i > 0 {
                lemma_frame_monotone(movie@, i - 1, i as int);
            }
        }
        let evtime = movie[i].timestamp - base;
        let framenum = 3 * evtime / 50;
        proof {
            assert(framenum == frame_of(movie@[i as int].timestamp, movie@[0].timestamp));
            assert(framenum >= lastframe);
        }
        if framenum == lastframe {
            iframecnt = iframecnt + 1;
        } else {
            iframecnt = iframecnt + (framenum - lastframe);
            lastframe = framenum;
        }
        i += 1;
    }
    write_heading(&mut out, 0xF3DC_A44B, (11 * iframecnt) as u64);
    // Emit the frame records.
    let mut spin: bool = true;
    lastframe = -1;
    let mut j: usize = 0;
    let ghost head = out@;
    while j < movie.len()
        invariant
            j <= movie@.len(),
            movie@.len() > 0 ==> base == movie@[0].timestamp,
            -1 <= lastframe <= 0x1000_0000_0000,
            j == 0 ==> lastframe == -1 && spin,
            j > 0 ==> lastframe == frame_of(movie@[j - 1].timestamp, movie@[0].timestamp),
            out@ + spec_frames(movie@, j as int, lastframe as int, spin) == head + spec_frames(
                movie@,
                0,
                -1,
                true,
            ),
        decreases movie@.len() - j,
    {
        proof {
            lemma_frame_bounds(movie@, j as int);
            if j > 0 {
                lemma_frame_monotone(movie@, j - 1, j as int);
            }
        }
        let evtime = movie[j].timestamp - base;
        let framenum = 3 * evtime / 50;
        if framenum == lastframe {
            write_frame(&mut out, movie[j].x, movie[j].y, movie[j].color, false, spin);
            spin = !spin;
        } else {
            spin = false;
            let mut k: i64 = lastframe + 1;
            let ghost head2 = out@;
            while k < framenum
                invariant
                    lastframe + 1 <= k <= framenum || (k == lastframe + 1 && framenum < k),
                    out@ == head2 + pad_frames((k - (lastframe + 1)) as int),
                decreases framenum - k,
            {
                write_frame(&mut out, 0, 0, 0, true, false);
                proof {
                    lemma_pad_frames_snoc((k - lastframe) as int);
                }
                k += 1;
            }
            proof {
                assert(out@ =~= head2 + pad_frames(framenum - lastframe - 1));
            }
            write_frame(&mut out, movie[j].x, movie[j].y, movie[j].color, true, true);
            lastframe = framenum;
        }
        j += 1;
    }
    proof {
        assert(spec_frames(movie@, movie@.len() as int, lastframe as int, spin)
            =~= Seq::<u8>::empty());
        assert(out@ =~= spec_lsmv_file(sceneid@, width, height, movie@));
    }
    out
}

/// Padding frames grow one frame at a time.
proof fn lemma_pad_frames_snoc(k: int)
    requires
        k >= 1,
    ensures
        pad_frames(k - 1) + spec_frame(0, 0, 0, true, false) == pad_frames(k),
    decreases k,
{
    if k == 1 {
        assert(pad_frames(0) =~= Seq::<u8>::empty());
        assert(pad_frames(1) == spec_frame(0, 0, 0, true, false) + pad_frames(0));
        assert(Seq::<u8>::empty() + spec_frame(0, 0, 0, true, false) =~= spec_frame(
            0,
            0,
            0,
            true,
            false,
        ) + pad_frames(0));
    } else {
        lemma_pad_frames_snoc(k - 1);
        assert((spec_frame(0, 0, 0, true, false) + pad_frames(k - 2)) + spec_frame(
            0,
            0,
            0,
            true,
            false,
        ) =~= spec_frame(0, 0, 0, true, false) + (pad_frames(k - 2) + spec_frame(
            0,
            0,
            0,
            true,
            false,
        )));
    }
}

/// Append a fixed group of bytes.
fn push_lit(out: &mut Vec<u8>, bs: &[u8])
    ensures
        final(out)@ == old(out)@ + bs@,
{
    out.extend_from_slice(bs);
}


/// A response body with a fixed content type.
#[derive(Debug)]
pub struct SendFileAs(pub &'static str, pub Vec<u8>);

/// The events of a movie: rows of (timestamp, color, x, y), keeping only
/// positions inside the scene.
pub open spec fn spec_movie_filter(rows: Seq<(i64, i32, i32, i32)>, w: i32, h: i32) -> Seq<
    MovieEvent,
>
    decreases rows.len(),
{
    if rows.len() == 0 {
        Seq::empty()
    } else {
        let row = rows[0];
        let rest = spec_movie_filter(rows.skip(1), w, h);
        if 0 <= row.2 < w && 0 <= row.3 < h {
            seq![
                MovieEvent {
                    timestamp: row.0,
                    x: row.2 as u16,
                    y: row.3 as u16,
                    color: row.1 as u32,
                },
            ] + rest
        } else {
            rest
        }
    }
}

/// Rows within a timestamp window filter to a well-behaved movie: order
/// kept, timestamps within the window, no more events than rows.
proof fn lemma_filter_bounds(rows: Seq<(i64, i32, i32, i32)>, w: i32, h: i32, lo: int, hi: int)
    requires
        forall|i: int| 0 <= i < rows.len() ==> lo <= #[trigger] rows[i].0 <= hi,
        forall|i: int, j: int| 0 <= i <= j < rows.len() ==> #[trigger] rows[i].0 <= #[trigger] rows[j].0,
    ensures
        ({
            let f = spec_movie_filter(rows, w, h);
            &&& f.len() <= rows.len()
            &&& forall|k: int| 0 <= k < f.len() ==> lo <= #[trigger] f[k].timestamp <= hi
            &&& forall|k1: int, k2: int|
                0 <= k1 <= k2 < f.len() ==> #[trigger] f[k1].timestamp <= #[trigger] f[k2].timestamp
            &&& (rows.len() > 0 ==> forall|k: int|
                0 <= k < f.len() ==> #[trigger] f[k].timestamp >= rows[0].0)
        }),
    decreases rows.len(),
{
    if rows.len() > 0 {
        let tail = rows.skip(1);
        assert(forall|i: int| 0 <= i < tail.len() ==> #[trigger] tail[i].0 == rows[i + 1].0);
        lemma_filter_bounds(tail, w, h, lo, hi);
    }
}

/// Build the movie of a scene's events: filter the rows to the scene's
/// bounds, and write them as a movie file named by the scrambled id.
/// The rows must be time-ordered and span a bounded window.
#[verifier::loop_isolation(false)]
pub fn scene_get_lsmv(
    scene: Scene,
    seed: &Vec<u8>,
    w: i32,
    h: i32,
    rows: &Vec<(i64, i32, i32, i32)>,
) -> (r: Result<SendFileAs, Error>)
    requires
        seed@.len() <= 52,
        0 <= w <= 0xFFFF,
        0 <= h <= 0xFFFF,
        rows@.len() <= 0x1000_0000,
        forall|i: int, j: int|
            0 <= i <= j < rows@.len() ==> #[trigger] rows@[i].0 <= #[trigger] rows@[j].0,
        forall|i: int|
            0 <= i < rows@.len() ==> #[trigger] rows@[i].0 - rows@[0].0 <= 0x10_0000_0000,
    ensures
        r matches Ok(f) ==> (f.0@ == "application/x-lsnes-movie"@ && f.1@ == spec_lsmv_file(
            spec_permute(scene.0, seed@),
            w as u16,
            h as u16,
            spec_movie_filter(rows@, w, h),
        )),
        r is Ok,
{
    let oldscene = scene.scramble(seed);
    let mut movie: Vec<MovieEvent> = Vec::new();
    let mut i: usize = 0;
    proof {
        assert(rows@.skip(0) =~= rows@);
    }
    while i < rows.len()
        invariant
            i <= rows@.len(),
            movie@.len() <= i,
            spec_movie_filter(rows@, w, h) == movie@ + spec_movie_filter(
                rows@.skip(i as int),
                w,
                h,
            ),
        decreases rows@.len() - i,
    {
        let row = rows[i];
        proof {
            assert(rows@.skip(i as int)[0] == rows@[i as int]);
            assert(rows@.skip(i as int).skip(1) =~= rows@.skip(i + 1));
        }
        let ghost m0 = movie@;
        if row.2 >= 0 && row.2 < w && row.3 >= 0 && row.3 < h {
            movie.push(
                MovieEvent {
                    timestamp: row.0,
                    x: row.2 as u16,
                    y: row.3 as u16,
                    color: #[verifier::truncate] (row.1 as u32),
                },
            );
            proof {
                assert(m0 + (seq![
                    MovieEvent {
                        timestamp: row.0,
                        x: row.2 as u16,
                        y: row.3 as u16,
                        color: row.1 as u32,
                    },
                ] + spec_movie_filter(rows@.skip(i + 1), w, h)) =~= movie@ + spec_movie_filter(
                    rows@.skip(i + 1),
                    w,
                    h,
                ));
            }
        }
        i += 1;
    }
    proof {
        assert(rows@.skip(rows@.len() as int) =~= Seq::<(i64, i32, i32, i32)>::empty());
        assert(spec_movie_filter(rows@, w, h) =~= movie@);
        if rows@.len() > 0 {
            lemma_filter_bounds(rows@, w, h, rows@[0].0 as int, rows@[0].0 + 0x10_0000_0000);
        }
        assert(movie_wf(movie@));
    }
    let lsmv = write_lsmv_file(oldscene.as_slice(), w as u16, h as u16, &movie);
    Ok(SendFileAs("application/x-lsnes-movie", lsmv))
}

} // verus!
