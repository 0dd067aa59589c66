//! Incremental UTF-8 validation for the buffered stream.
//!
//! Upload bodies arrive in chunks that may split a multi-byte character
//! anywhere.  The stream keeps the decoded-and-validated text in its buffer
//! and carries at most three bytes of a not-yet-complete character between
//! chunks; `utf8_feed` advances that state over one chunk.
use vstd::prelude::*;
use vstd::utf8::is_continuation_byte;
use vstd::utf8::is_leading_byte_width_2;
use vstd::utf8::is_leading_byte_width_3;
use vstd::utf8::is_leading_byte_width_4;
use vstd::utf8::length_of_first_codepoint;
use vstd::utf8::pop_first_scalar;
use vstd::utf8::valid_first_scalar;
use vstd::utf8::valid_utf8;

verus! {

/// The byte width announced by a multi-byte leading byte.
pub open spec fn lead_width(b: u8) -> int {
    if is_leading_byte_width_2(b) {
        2
    } else if is_leading_byte_width_3(b) {
        3
    } else if is_leading_byte_width_4(b) {
        4
    } else {
        1
    }
}

/// A strictly incomplete multi-byte character: a leading byte announcing a
/// width larger than what has arrived, followed only by continuation bytes.
/// The empty sequence means no character is pending.
pub open spec fn partial_char(p: Seq<u8>) -> bool {
    p.len() == 0 || {
        &&& lead_width(p[0]) >= 2
        &&& p.len() < lead_width(p[0])
        &&& forall|i: int| 1 <= i < p.len() ==> is_continuation_byte(#[trigger] p[i])
    }
}

/// Whether feeding the bytes `s` after pending state `p` completes without
/// a validation error (characters completed along the way must be
/// well-formed scalars; stray continuation or out-of-place bytes are
/// errors).  This is a function of the byte sequence alone, never of how
/// it was chunked.
pub open spec fn feed_ok(p: Seq<u8>, s: Seq<u8>) -> bool
    decreases s.len(),
{
    if s.len() == 0 {
        true
    } else if p.len() == 0 {
        if s[0] <= 0x7F {
            feed_ok(Seq::empty(), s.skip(1))
        } else if lead_width(s[0]) >= 2 {
            feed_ok(seq![s[0]], s.skip(1))
        } else {
            false
        }
    } else {
        if is_continuation_byte(s[0]) {
            let p2 = p.push(s[0]);
            if p2.len() == lead_width(p2[0]) {
                valid_first_scalar(p2) && feed_ok(Seq::empty(), s.skip(1))
            } else {
                feed_ok(p2, s.skip(1))
            }
        } else {
            false
        }
    }
}

/// A nonempty incomplete character is never valid UTF-8 on its own.
pub proof fn lemma_partial_char_not_valid(p: Seq<u8>)
    requires
        partial_char(p),
        p.len() > 0,
    ensures
        !valid_utf8(p),
{
    if valid_utf8(p) {
        assert(valid_first_scalar(p));
        assert(length_of_first_codepoint(p) <= lead_width(p[0]));
        assert(false);
    }
}

/// UTF-8 is self-synchronizing: anything following a valid sequence keeps
/// its own character structure, so validity of the whole gives validity of
/// the rest.
pub proof fn lemma_valid_utf8_unconcat(a: Seq<u8>, b: Seq<u8>)
    requires
        valid_utf8(a),
        valid_utf8(a + b),
    ensures
        valid_utf8(b),
    decreases a.len(),
{
    if a.len() == 0 {
        assert(a + b =~= b);
    } else {
        let w = length_of_first_codepoint(a);
        assert(valid_first_scalar(a));
        assert(valid_first_scalar(a + b)) by {
            assert((a + b).len() > 0);
        }
        assert(w == length_of_first_codepoint(a + b)) by {
            assert((a + b)[0] == a[0]);
        }
        assert(pop_first_scalar(a + b) =~= pop_first_scalar(a) + b);
        lemma_valid_utf8_unconcat(pop_first_scalar(a), b);
    }
}

/// Feeding any prefix of the completion of a valid sequence succeeds.
pub proof fn lemma_feed_ok_of_valid(p: Seq<u8>, s: Seq<u8>, c: Seq<u8>)
    requires
        partial_char(p),
        valid_utf8(p + s),
        c == s.take(c.len() as int),
        c.len() <= s.len(),
    ensures
        feed_ok(p, c),
    decreases c.len(),
{
    if c.len() == 0 {
    } else {
        let whole = p + s;
        assert(valid_first_scalar(whole));
        let w = length_of_first_codepoint(whole);
        assert(c[0] == s[0]);
        if p.len() == 0 {
            assert(whole =~= s);
            if s[0] <= 0x7F {
                assert(w == 1);
                assert(pop_first_scalar(s) =~= s.skip(1));
                assert(Seq::<u8>::empty() + s.skip(1) =~= s.skip(1));
                assert(c.skip(1) =~= s.skip(1).take(c.len() - 1));
                lemma_feed_ok_of_valid(Seq::empty(), s.skip(1), c.skip(1));
            } else {
                assert(lead_width(s[0]) == w >= 2);
                assert(seq![s[0]] + s.skip(1) =~= s);
                assert(partial_char(seq![s[0]]));
                assert(c.skip(1) =~= s.skip(1).take(c.len() - 1));
                lemma_feed_ok_of_valid(seq![s[0]], s.skip(1), c.skip(1));
            }
        } else {
            assert(whole[0] == p[0]);
            assert(w == lead_width(p[0]));
            // The byte at position |p| of the first character is a
            // continuation byte, and that position is where s begins.
            assert(is_continuation_byte(whole[p.len() as int]));
            assert(whole[p.len() as int] == s[0]);
            let p2 = p.push(s[0]);
            assert(p2 =~= whole.take(p.len() as int + 1));
            assert(p2[0] == p[0]);
            if p2.len() == w {
                assert(p2 =~= whole.take(w));
                assert(valid_first_scalar(p2)) by {
                    lemma_first_scalar_depends_on_prefix(whole, p2);
                }
                assert(pop_first_scalar(whole) =~= s.skip(1));
                assert(Seq::<u8>::empty() + s.skip(1) =~= s.skip(1));
                assert(c.skip(1) =~= s.skip(1).take(c.len() - 1));
                lemma_feed_ok_of_valid(Seq::empty(), s.skip(1), c.skip(1));
            } else {
                assert(partial_char(p2)) by {
                    assert(forall|i: int|
                        1 <= i < p2.len() ==> is_continuation_byte(#[trigger] p2[i]) == (
                        if i < p.len() {
                            is_continuation_byte(p[i])
                        } else {
                            is_continuation_byte(s[0])
                        }));
                }
                assert(p2 + s.skip(1) =~= whole);
                assert(c.skip(1) =~= s.skip(1).take(c.len() - 1));
                lemma_feed_ok_of_valid(p2, s.skip(1), c.skip(1));
            }
        }
    }
}

/// `valid_first_scalar` looks only at the first character's bytes.
proof fn lemma_first_scalar_depends_on_prefix(whole: Seq<u8>, head: Seq<u8>)
    requires
        valid_first_scalar(whole),
        head == whole.take(length_of_first_codepoint(whole)),
    ensures
        valid_first_scalar(head),
{
    let w = length_of_first_codepoint(whole);
    assert(head[0] == whole[0]);
    assert(forall|i: int| 0 <= i < w ==> #[trigger] head[i] == whole[i]);
}

/// A single complete character with a well-formed scalar is valid UTF-8.
pub proof fn lemma_single_scalar_valid(cbytes: Seq<u8>)
    requires
        valid_first_scalar(cbytes),
        cbytes.len() == length_of_first_codepoint(cbytes),
    ensures
        valid_utf8(cbytes),
{
    assert(pop_first_scalar(cbytes) =~= Seq::<u8>::empty());
    assert(valid_utf8(Seq::<u8>::empty()));
}

/// Feed one chunk into the validated buffer, carrying the incomplete
/// trailing character in `pending`.  On success every byte of the chunk is
/// accounted for: completed text moved to the buffer, an unfinished
/// character left pending.
pub fn utf8_feed(buffer: &mut Vec<u8>, pending: &mut Vec<u8>, chunk: &Vec<u8>) -> (ok: bool)
    requires
        partial_char(old(pending)@),
        old(pending)@.len() <= 3,
    ensures
        partial_char(final(pending)@),
        final(pending)@.len() <= 3,
        ok ==> final(buffer)@ + final(pending)@ == old(buffer)@ + old(pending)@ + chunk@,
        final(buffer)@ == old(buffer)@ + final(buffer)@.skip(old(buffer)@.len() as int),
        valid_utf8(final(buffer)@.skip(old(buffer)@.len() as int)),
        feed_ok(old(pending)@, chunk@) ==> ok,
        !ok ==> final(pending)@.len() == 0,
{
    let ghost base = buffer@.len() as int;
    let mut j: usize = 0;
    proof {
        assert(chunk@.skip(0) =~= chunk@);
        assert(buffer@.skip(base) =~= Seq::<u8>::empty());
        assert(buffer@ + pending@ =~= old(buffer)@ + old(pending)@ + chunk@.take(0));
    }
    while j < chunk.len()
        invariant
            j <= chunk@.len(),
            partial_char(pending@),
            pending@.len() <= 3,
            buffer@ + pending@ == old(buffer)@ + old(pending)@ + chunk@.take(j as int),
            buffer@ == old(buffer)@ + buffer@.skip(base),
            base == old(buffer)@.len(),
            valid_utf8(buffer@.skip(base)),
            feed_ok(old(pending)@, chunk@) == feed_ok(pending@, chunk@.skip(j as int)),
        decreases chunk@.len() - j,
    {
        let b = chunk[j];
        let ghost pend0 = pending@;
        let ghost rest0 = chunk@.skip(j as int);
        proof {
            assert(rest0[0] == b);
            assert(rest0.skip(1) =~= chunk@.skip(j + 1));
            assert(chunk@.take(j + 1) =~= chunk@.take(j as int).push(b));
        }
        if pending.len() == 0 {
            if b <= 0x7F {
                let ghost bb = buffer@;
                buffer.push(b);
                proof {
                    lemma_single_scalar_valid(seq![b]);
                    vstd::utf8::valid_utf8_concat(bb.skip(base), seq![b]);
                    assert(buffer@.skip(base) =~= bb.skip(base) + seq![b]);
                    assert(buffer@ =~= old(buffer)@ + buffer@.skip(base));
                    assert(pend0 =~= Seq::<u8>::empty());
                    assert(feed_ok(pend0, rest0) == feed_ok(pending@, chunk@.skip(j + 1)));
                    assert(buffer@ + pending@ =~= old(buffer)@ + old(pending)@ + chunk@.take(
                        j + 1,
                    ));
                }
            } else if b >= 0xC0 && b <= 0xF7 {
                pending.push(b);
                proof {
                    assert(pend0 =~= Seq::<u8>::empty());
                    assert(pending@ =~= seq![b]);
                    assert(lead_width(b) >= 2);
                    assert(feed_ok(pend0, rest0) == feed_ok(pending@, chunk@.skip(j + 1)));
                    assert(buffer@ + pending@ =~= old(buffer)@ + old(pending)@ + chunk@.take(
                        j + 1,
                    ));
                }
            } else {
                proof {
                    assert(!feed_ok(pend0, rest0));
                }
                pending.clear();
                return false;
            }
        } else {
            if b >= 0x80 && b <= 0xBF {
                pending.push(b);
                proof {
                    assert(pending@ =~= pend0.push(b));
                }
                let ghost p2 = pending@;
                let lead = pending[0];
                let width: usize = if lead <= 0xDF {
                    2
                } else if lead <= 0xEF {
                    3
                } else {
                    4
                };
                proof {
                    assert(p2[0] == pend0[0]);
                    assert(width == lead_width(p2[0]));
                }
                if pending.len() == width {
                    // The character is complete: decode and validate it.
                    if !complete_char_valid(pending) {
                        proof {
                            assert(!feed_ok(pend0, rest0));
                        }
                        pending.clear();
                        return false;
                    }
                    proof {
                        lemma_single_scalar_valid(pending@);
                    }
                    let mut k: usize = 0;
                    let ghost bb = buffer@;
                    while k < pending.len()
                        invariant
                            k <= pending@.len(),
                            pending@ == p2,
                            buffer@ == bb + pending@.take(k as int),
                        decreases pending@.len() - k,
                    {
                        buffer.push(pending[k]);
                        proof {
                            assert(bb + pending@.take(k + 1) =~= buffer@);
                        }
                        k += 1;
                    }
                    proof {
                        assert(pending@.take(pending@.len() as int) =~= pending@);
                        assert(buffer@ =~= bb + p2);
                        vstd::utf8::valid_utf8_concat(bb.skip(base), p2);
                        assert(buffer@.skip(base) =~= bb.skip(base) + p2);
                        assert(buffer@ =~= old(buffer)@ + buffer@.skip(base));
                    }
                    pending.clear();
                    proof {
                        assert(pending@ =~= Seq::<u8>::empty());
                        assert(feed_ok(pend0, rest0) == feed_ok(pending@, chunk@.skip(j + 1)));
                        assert(buffer@ + pending@ =~= bb + p2);
                        assert(bb + p2 =~= (bb + pend0).push(b));
                        assert((bb + pend0).push(b) =~= (old(buffer)@ + old(pending)@
                            + chunk@.take(j as int)).push(b));
                        assert((old(buffer)@ + old(pending)@ + chunk@.take(j as int)).push(b)
                            =~= old(buffer)@ + old(pending)@ + chunk@.take(j + 1));
                    }
                } else {
                    proof {
                        assert(partial_char(pending@)) by {
                            assert(forall|i: int|
                                1 <= i < p2.len() ==> is_continuation_byte(#[trigger] p2[i]));
                        }
                        assert(feed_ok(pend0, rest0) == feed_ok(pending@, chunk@.skip(j + 1)));
                        assert(buffer@ + pending@ =~= (buffer@ + pend0).push(b));
                        assert((buffer@ + pend0).push(b) =~= (old(buffer)@ + old(pending)@
                            + chunk@.take(j as int)).push(b));
                        assert((old(buffer)@ + old(pending)@ + chunk@.take(j as int)).push(b)
                            =~= old(buffer)@ + old(pending)@ + chunk@.take(j + 1));
                    }
                }
            } else {
                proof {
                    assert(!feed_ok(pend0, rest0));
                }
                pending.clear();
                return false;
            }
        }
        j += 1;
    }
    proof {
        assert(chunk@.take(chunk@.len() as int) =~= chunk@);
    }
    true
}

/// Decode a complete 2- to 4-byte character and check that it is a
/// well-formed scalar: in range, not a surrogate, not an overlong encoding.
fn complete_char_valid(p: &Vec<u8>) -> (r: bool)
    requires
        p@.len() >= 2,
        lead_width(p@[0]) == p@.len(),
        forall|i: int| 1 <= i < p@.len() ==> is_continuation_byte(#[trigger] p@[i]),
    ensures
        r == valid_first_scalar(p@),
{
    let lead = p[0];
    if p.len() == 2 {
        let cp: u32 = (((lead & 0x1F) as u32) << 6) | ((p[1] & 0x3F) as u32);
        proof {
            assert(cp == vstd::utf8::codepoint_width_2(p@[0], p@[1]));
            let b0 = p@[0];
            let b1 = p@[1];
            assert(((((b0 & 0x1F) as u32) << 6) | ((b1 & 0x3F) as u32)) <= 0x7FF)
                by (bit_vector);
        }
        cp >= 0x80
    } else if p.len() == 3 {
        let cp: u32 = (((lead & 0x0F) as u32) << 12) | (((p[1] & 0x3F) as u32) << 6) | ((p[2]
            & 0x3F) as u32);
        proof {
            assert(cp == vstd::utf8::codepoint_width_3(p@[0], p@[1], p@[2]));
            let b0 = p@[0];
            let b1 = p@[1];
            let b2 = p@[2];
            assert(((((b0 & 0x0F) as u32) << 12) | (((b1 & 0x3F) as u32) << 6) | ((b2
                & 0x3F) as u32)) <= 0xFFFF) by (bit_vector);
        }
        cp >= 0x800 && !(cp >= 0xD800 && cp <= 0xDFFF)
    } else {
        let cp: u32 = (((lead & 0x07) as u32) << 18) | (((p[1] & 0x3F) as u32) << 12) | (((p[2]
            & 0x3F) as u32) << 6) | ((p[3] & 0x3F) as u32);
        proof {
            assert(cp == vstd::utf8::codepoint_width_4(p@[0], p@[1], p@[2], p@[3]));
        }
        cp >= 0x10000 && cp <= 0x10FFFF
    }
}

} // verus!
