//! Decoding batches of drawing events from an uploaded JSON document of
//! the shape `{"data":[{"ts":..,"u":..,"c":..,"x":..,"y":..}, ...]}`.
//!
//! The whole decode — acceptance, rejection, and the decoded events — is a
//! function of the upload's byte sequence alone (`spec_parse_events`),
//! never of how the bytes were chunked by the transport.
use crate::bytesource::ByteSource;
use crate::json::all_digits;
use crate::json::dec_val;
use crate::json::lemma_dec_val_bounds;
use crate::json::lemma_dec_val_zero_front;
use crate::json::lemma_pow10_ge;
use crate::json::pow10;
use crate::json::tok_abs;
use crate::json::JsonToken;
use crate::json::Tok;
use crate::json::TokScan;
use crate::stream::lemma_next_token_bounds;
use crate::stream::spec_next_token;
use crate::stream::JsonStream;
use vstd::prelude::*;
use vstd::utf8::valid_utf8;

verus! {

/// One decoded drawing event.
pub struct EventInfo {
    /// Timestamp; may be negative.
    pub ts: i64,
    /// The user who drew, as UTF-8 text.
    pub username: Vec<u8>,
    /// Color, in `0..=0x7FFFFFFF`.
    pub color: i32,
    /// Horizontal position, in `0..=0x7FFFFFFF`.
    pub x: i32,
    /// Vertical position, in `0..=0x7FFFFFFF`.
    pub y: i32,
}

/// Mathematical model of an event.
pub struct EventRec {
    pub ts: int,
    pub u: Seq<u8>,
    pub c: int,
    pub x: int,
    pub y: int,
}

/// Abstraction of an executable event to its model.
pub open spec fn ev_abs(e: EventInfo) -> EventRec {
    EventRec { ts: e.ts as int, u: e.username@, c: e.color as int, x: e.x as int, y: e.y as int }
}

pub open spec fn evs_abs(s: Seq<EventInfo>) -> Seq<EventRec> {
    s.map_values(|e: EventInfo| ev_abs(e))
}

/// The five fields of an event object as they are gathered; a later
/// occurrence of a key overwrites an earlier one.
pub struct FieldsRec {
    pub ts: Option<int>,
    pub u: Option<Seq<u8>>,
    pub c: Option<int>,
    pub x: Option<int>,
    pub y: Option<int>,
}

pub open spec fn fields_empty() -> FieldsRec {
    FieldsRec { ts: Option::None, u: Option::None, c: Option::None, x: Option::None, y: Option::None }
}

/// An event is complete once all five fields were seen.
pub open spec fn fields_complete(f: FieldsRec) -> Option<EventRec> {
    if f.ts is Some && f.u is Some && f.c is Some && f.x is Some && f.y is Some {
        Option::Some(
            EventRec {
                ts: f.ts->0,
                u: f.u->0,
                c: f.c->0,
                x: f.x->0,
                y: f.y->0,
            },
        )
    } else {
        Option::None
    }
}

/// The integer value of quoted text: an optional minus sign followed by
/// decimal digits.
pub open spec fn quoted_int(s: Seq<u8>) -> Option<int> {
    let digits = if s.len() >= 1 && s[0] == 45 {
        s.skip(1)
    } else {
        s
    };
    if digits.len() >= 1 && all_digits(digits) {
        if s.len() >= 1 && s[0] == 45 {
            Option::Some(-dec_val(digits))
        } else {
            Option::Some(dec_val(digits))
        }
    } else {
        Option::None
    }
}

/// The value a coordinate-like field accepts: a machine integer token, or
/// a quoted integer.
pub open spec fn coord_value(t: Tok) -> Option<int> {
    match t {
        Tok::NumberInt(v) => Option::Some(v),
        Tok::StringValue(s) => quoted_int(s),
        _ => Option::None,
    }
}

pub open spec fn in_coord_range(v: int) -> bool {
    0 <= v <= 0x7FFF_FFFF
}

/// Applying one key/value pair to the gathered fields: `ts` takes a
/// machine integer (possibly negative); `u` takes a string; `c`, `x`, `y`
/// take a non-negative 31-bit integer, plain or quoted.  An unknown key,
/// a wrongly typed value, or an out-of-range coordinate rejects.
pub open spec fn field_apply(f: FieldsRec, key: Seq<u8>, t: Tok) -> Option<FieldsRec> {
    if key == seq![116u8, 115u8] {
        match t {
            Tok::NumberInt(v) => Option::Some(
                FieldsRec { ts: Option::Some(v), u: f.u, c: f.c, x: f.x, y: f.y },
            ),
            _ => Option::None,
        }
    } else if key == seq![117u8] {
        match t {
            Tok::StringValue(s) => Option::Some(
                FieldsRec { ts: f.ts, u: Option::Some(s), c: f.c, x: f.x, y: f.y },
            ),
            _ => Option::None,
        }
    } else if key == seq![99u8] {
        match coord_value(t) {
            Option::Some(v) => if in_coord_range(v) {
                Option::Some(FieldsRec { ts: f.ts, u: f.u, c: Option::Some(v), x: f.x, y: f.y })
            } else {
                Option::None
            },
            Option::None => Option::None,
        }
    } else if key == seq![120u8] {
        match coord_value(t) {
            Option::Some(v) => if in_coord_range(v) {
                Option::Some(FieldsRec { ts: f.ts, u: f.u, c: f.c, x: Option::Some(v), y: f.y })
            } else {
                Option::None
            },
            Option::None => Option::None,
        }
    } else if key == seq![121u8] {
        match coord_value(t) {
            Option::Some(v) => if in_coord_range(v) {
                Option::Some(FieldsRec { ts: f.ts, u: f.u, c: f.c, x: f.x, y: Option::Some(v) })
            } else {
                Option::None
            },
            Option::None => Option::None,
        }
    } else {
        Option::None
    }
}

/// Outcome of scanning an event object's members: the bytes left after the
/// closing brace and the gathered fields, or a rejection.
pub enum ObjScan {
    OOk(Seq<u8>, FieldsRec),
    OErr,
}

/// The member list of an event object, entered after the opening brace:
/// either an immediate closing brace, or `"key": value` pairs separated by
/// commas.  A trailing comma or a missing brace rejects.
pub open spec fn spec_event_fields(s: Seq<u8>, f: FieldsRec, first: bool) -> ObjScan
    decreases s.len(),
    via spec_event_fields_dec
{
    match spec_next_token(s) {
        TokScan::Found(n0, t0) => {
            if first && t0 is EndObject {
                ObjScan::OOk(s.skip(n0), f)
            } else {
                match t0 {
                    Tok::StringValue(key) => {
                        let s1 = s.skip(n0);
                        match spec_next_token(s1) {
                            TokScan::Found(n1, Tok::Colon) => {
                                let s2 = s1.skip(n1);
                                match spec_next_token(s2) {
                                    TokScan::Found(n2, tv) => {
                                        match field_apply(f, key, tv) {
                                            Option::Some(f2) => {
                                                let s3 = s2.skip(n2);
                                                match spec_next_token(s3) {
                                                    TokScan::Found(n3, Tok::Comma) => {
                                                        spec_event_fields(s3.skip(n3), f2, false)
                                                    },
                                                    TokScan::Found(n3, Tok::EndObject) => {
                                                        ObjScan::OOk(s3.skip(n3), f2)
                                                    },
                                                    _ => ObjScan::OErr,
                                                }
                                            },
                                            Option::None => ObjScan::OErr,
                                        }
                                    },
                                    _ => ObjScan::OErr,
                                }
                            },
                            _ => ObjScan::OErr,
                        }
                    },
                    _ => ObjScan::OErr,
                }
            }
        },
        _ => ObjScan::OErr,
    }
}

#[via_fn]
proof fn spec_event_fields_dec(s: Seq<u8>, f: FieldsRec, first: bool) {
    lemma_next_token_bounds(s);
    match spec_next_token(s) {
        TokScan::Found(n0, t0) => {
            let s1 = s.skip(n0);
            lemma_next_token_bounds(s1);
            match spec_next_token(s1) {
                TokScan::Found(n1, t1) => {
                    let s2 = s1.skip(n1);
                    lemma_next_token_bounds(s2);
                    match spec_next_token(s2) {
                        TokScan::Found(n2, t2) => {
                            let s3 = s2.skip(n2);
                            lemma_next_token_bounds(s3);
                        },
                        _ => {},
                    }
                },
                _ => {},
            }
        },
        _ => {},
    }
}

/// One whole event object after its opening brace, complete fields
/// required.
pub open spec fn spec_parse_one_event(s: Seq<u8>) -> Option<(Seq<u8>, EventRec)> {
    match spec_event_fields(s, fields_empty(), true) {
        ObjScan::OOk(rest, f) => {
            match fields_complete(f) {
                Option::Some(ev) => Option::Some((rest, ev)),
                Option::None => Option::None,
            }
        },
        ObjScan::OErr => Option::None,
    }
}

/// After a successful member scan at least one byte was consumed.
proof fn lemma_event_fields_shrinks(s: Seq<u8>, f: FieldsRec, first: bool)
    ensures
        spec_event_fields(s, f, first) matches ObjScan::OOk(rest, f2) ==> rest.len() < s.len(),
    decreases s.len(),
{
    lemma_next_token_bounds(s);
    match spec_next_token(s) {
        TokScan::Found(n0, t0) => {
            if first && t0 is EndObject {
            } else {
                match t0 {
                    Tok::StringValue(key) => {
                        let s1 = s.skip(n0);
                        lemma_next_token_bounds(s1);
                        match spec_next_token(s1) {
                            TokScan::Found(n1, Tok::Colon) => {
                                let s2 = s1.skip(n1);
                                lemma_next_token_bounds(s2);
                                match spec_next_token(s2) {
                                    TokScan::Found(n2, tv) => {
                                        match field_apply(f, key, tv) {
                                            Option::Some(f2) => {
                                                let s3 = s2.skip(n2);
                                                lemma_next_token_bounds(s3);
                                                match spec_next_token(s3) {
                                                    TokScan::Found(n3, Tok::Comma) => {
                                                        assert(s3.skip(n3).len() < s.len());
                                                        lemma_event_fields_shrinks(
                                                            s3.skip(n3),
                                                            f2,
                                                            false,
                                                        );
                                                    },
                                                    _ => {},
                                                }
                                            },
                                            _ => {},
                                        }
                                    },
                                    _ => {},
                                }
                            },
                            _ => {},
                        }
                    },
                    _ => {},
                }
            }
        },
        _ => {},
    }
}

/// Outcome of scanning a list of events: the bytes left after the closing
/// token and the decoded events, or a rejection.
pub enum ListScan {
    LOk(Seq<u8>, Seq<EventRec>),
    LErr,
}

/// The elements of the `data` array, entered after the opening bracket:
/// either an immediate closing bracket, or event objects separated by
/// commas.
pub open spec fn spec_event_array(s: Seq<u8>, acc: Seq<EventRec>, first: bool) -> ListScan
    decreases s.len(),
    via spec_event_array_dec
{
    match spec_next_token(s) {
        TokScan::Found(n0, t0) => {
            if first && t0 is EndArray {
                ListScan::LOk(s.skip(n0), acc)
            } else if t0 is StartObject {
                match spec_parse_one_event(s.skip(n0)) {
                    Option::Some((s2, ev)) => {
                        match spec_next_token(s2) {
                            TokScan::Found(n3, Tok::Comma) => {
                                spec_event_array(s2.skip(n3), acc.push(ev), false)
                            },
                            TokScan::Found(n3, Tok::EndArray) => {
                                ListScan::LOk(s2.skip(n3), acc.push(ev))
                            },
                            _ => ListScan::LErr,
                        }
                    },
                    Option::None => ListScan::LErr,
                }
            } else {
                ListScan::LErr
            }
        },
        _ => ListScan::LErr,
    }
}

#[via_fn]
proof fn spec_event_array_dec(s: Seq<u8>, acc: Seq<EventRec>, first: bool) {
    lemma_next_token_bounds(s);
    match spec_next_token(s) {
        TokScan::Found(n0, t0) => {
            let s1 = s.skip(n0);
            lemma_event_fields_shrinks(s1, fields_empty(), true);
            match spec_parse_one_event(s1) {
                Option::Some((s2, ev)) => {
                    lemma_next_token_bounds(s2);
                },
                _ => {},
            }
        },
        _ => {},
    }
}

/// After a successful array scan at least one byte was consumed.
proof fn lemma_event_array_shrinks(s: Seq<u8>, acc: Seq<EventRec>, first: bool)
    ensures
        spec_event_array(s, acc, first) matches ListScan::LOk(rest, evs) ==> rest.len() < s.len(),
    decreases s.len(),
{
    lemma_next_token_bounds(s);
    match spec_next_token(s) {
        TokScan::Found(n0, t0) => {
            let s1 = s.skip(n0);
            lemma_event_fields_shrinks(s1, fields_empty(), true);
            match spec_parse_one_event(s1) {
                Option::Some((s2, ev)) => {
                    lemma_next_token_bounds(s2);
                    match spec_next_token(s2) {
                        TokScan::Found(n3, t3) => {
                            if t3 is Comma {
                                lemma_event_array_shrinks(s2.skip(n3), acc.push(ev), false);
                            }
                        },
                        _ => {},
                    }
                },
                _ => {},
            }
        },
        _ => {},
    }
}

/// The members of the top-level object, entered after its opening brace:
/// each key must be `data`, and each value is an array of events.
pub open spec fn spec_outer_object(s: Seq<u8>, acc: Seq<EventRec>, first: bool) -> ListScan
    decreases s.len(),
    via spec_outer_object_dec
{
    match spec_next_token(s) {
        TokScan::Found(n0, t0) => {
            if first && t0 is EndObject {
                ListScan::LOk(s.skip(n0), acc)
            } else {
                match t0 {
                    Tok::StringValue(key) => {
                        if key == seq![100u8, 97u8, 116u8, 97u8] {
                            let s1 = s.skip(n0);
                            match spec_next_token(s1) {
                                TokScan::Found(n1, Tok::Colon) => {
                                    let s2 = s1.skip(n1);
                                    match spec_next_token(s2) {
                                        TokScan::Found(n2, Tok::StartArray) => {
                                            match spec_event_array(s2.skip(n2), acc, true) {
                                                ListScan::LOk(s4, acc2) => {
                                                    match spec_next_token(s4) {
                                                        TokScan::Found(n4, Tok::Comma) => {
                                                            spec_outer_object(
                                                                s4.skip(n4),
                                                                acc2,
                                                                false,
                                                            )
                                                        },
                                                        TokScan::Found(n4, Tok::EndObject) => {
                                                            ListScan::LOk(s4.skip(n4), acc2)
                                                        },
                                                        _ => ListScan::LErr,
                                                    }
                                                },
                                                ListScan::LErr => ListScan::LErr,
                                            }
                                        },
                                        _ => ListScan::LErr,
                                    }
                                },
                                _ => ListScan::LErr,
                            }
                        } else {
                            ListScan::LErr
                        }
                    },
                    _ => ListScan::LErr,
                }
            }
        },
        _ => ListScan::LErr,
    }
}

#[via_fn]
proof fn spec_outer_object_dec(s: Seq<u8>, acc: Seq<EventRec>, first: bool) {
    lemma_next_token_bounds(s);
    match spec_next_token(s) {
        TokScan::Found(n0, t0) => {
            let s1 = s.skip(n0);
            lemma_next_token_bounds(s1);
            match spec_next_token(s1) {
                TokScan::Found(n1, t1) => {
                    let s2 = s1.skip(n1);
                    lemma_next_token_bounds(s2);
                    match spec_next_token(s2) {
                        TokScan::Found(n2, t2) => {
                            let s3 = s2.skip(n2);
                            lemma_event_array_shrinks(s3, acc, true);
                            match spec_event_array(s3, acc, true) {
                                ListScan::LOk(s4, acc2) => {
                                    lemma_next_token_bounds(s4);
                                },
                                _ => {},
                            }
                        },
                        _ => {},
                    }
                },
                _ => {},
            }
        },
        _ => {},
    }
}

/// Compare a byte vector against a short literal.
fn vec_is(v: &Vec<u8>, lit: &[u8]) -> (r: bool)
    ensures
        r == (v@ == lit@),
{
    if v.len() != lit.len() {
        proof {
            assert(v@ != lit@);
        }
        return false;
    }
    let mut i: usize = 0;
    while i < v.len()
        invariant
            i <= v@.len(),
            v@.len() == lit@.len(),
            forall|j: int| 0 <= j < i ==> #[trigger] v@[j] == lit@[j],
        decreases v@.len() - i,
    {
        if v[i] != lit[i] {
            proof {
                assert(v@ != lit@);
            }
            return false;
        }
        i += 1;
    }
    proof {
        assert(v@ =~= lit@);
    }
    true
}

/// The quoted form of a coordinate: parse the text as a signed decimal
/// integer and keep it only in the accepted range.
fn quoted_coord(s: &Vec<u8>) -> (r: Option<i32>)
    ensures
        r matches Some(c) ==> (quoted_int(s@) matches Option::Some(v) && v == c
            && in_coord_range(v)),
        r is None ==> !(quoted_int(s@) matches Option::Some(v) && in_coord_range(v)),
{
    let neg = s.len() >= 1 && s[0] == 45;
    let sign: usize = if neg {
        1
    } else {
        0
    };
    let ghost gdigits = if neg {
        s@.skip(1)
    } else {
        s@
    };
    proof {
        if neg {
            assert(forall|j: int| 0 <= j < gdigits.len() ==> #[trigger] gdigits[j] == s@[j + 1]);
        }
    }
    if s.len() <= sign {
        return None;
    }
    let mut i: usize = sign;
    while i < s.len()
        invariant
            sign <= i <= s@.len(),
            sign == 0 || sign == 1,
            sign == 1 <==> (s@.len() >= 1 && s@[0] == 45),
            gdigits == if sign == 1 { s@.skip(1) } else { s@ },
            forall|j: int| 0 <= j < gdigits.len() ==> #[trigger] gdigits[j] == s@[j + sign],
            forall|j: int| sign <= j < i ==> crate::json::is_digit(#[trigger] s@[j]),
        decreases s@.len() - i,
    {
        let b = s[i];
        if !(48 <= b && b <= 57) {
            proof {
                assert(gdigits[i - sign] == s@[i as int]);
                assert(!all_digits(gdigits));
            }
            return None;
        }
        i += 1;
    }
    proof {
        assert(all_digits(gdigits)) by {
            assert(forall|j: int|
                0 <= j < gdigits.len() ==> crate::json::is_digit(#[trigger] gdigits[j]));
        }
    }
    // Skip leading zeros; they do not change the value.
    let mut z: usize = sign;
    proof {
        assert(gdigits.skip(0) =~= gdigits);
    }
    while z < s.len() && s[z] == 48
        invariant
            sign <= z <= s@.len(),
            sign == 0 || sign == 1,
            gdigits == if sign == 1 { s@.skip(1) } else { s@ },
            forall|j: int| 0 <= j < gdigits.len() ==> #[trigger] gdigits[j] == s@[j + sign],
            all_digits(gdigits),
            dec_val(gdigits) == dec_val(gdigits.skip(z - sign)),
        decreases s@.len() - z,
    {
        proof {
            let tail = gdigits.skip(z - sign);
            assert(tail[0] == s@[z as int]);
            lemma_dec_val_zero_front(tail);
            assert(tail.skip(1) =~= gdigits.skip(z + 1 - sign));
        }
        z += 1;
    }
    if z >= s.len() {
        // All digits were zeros: the value is zero.
        proof {
            assert(gdigits.skip(z - sign) =~= Seq::<u8>::empty());
            assert(dec_val(gdigits) == 0);
        }
        return Some(0);
    }
    let ghost tail = gdigits.skip(z - sign);
    proof {
        assert(tail[0] == s@[z as int]);
        assert(s@[z as int] >= 49);
        assert(all_digits(tail)) by {
            assert(forall|j: int|
                0 <= j < tail.len() ==> #[trigger] tail[j] == gdigits[j + z - sign]);
        }
        lemma_dec_val_bounds(tail);
    }
    if s.len() - z > 10 {
        // At least eleven significant digits always exceed the range.
        proof {
            lemma_pow10_ge(10, (tail.len() - 1) as nat);
            assert(pow10(10) == 10000000000) by {
                reveal_with_fuel(pow10, 11);
            }
        }
        return None;
    }
    let digits = crate::json::slice_from(s.as_slice(), z);
    proof {
        assert(digits@ =~= tail);
    }
    let acc = crate::json::dec_accumulate(digits);
    let v = match acc {
        Some(v) => v,
        None => {
            return None;
        },
    };
    if neg {
        if v == 0 {
            Some(0)
        } else {
            None
        }
    } else {
        if v <= 0x7FFF_FFFF {
            Some(v as i32)
        } else {
            None
        }
    }
}

/// The coordinate value of a token: a machine integer, or a quoted
/// integer, kept only in the accepted range.
fn event_coord(t: &JsonToken) -> (r: Option<i32>)
    ensures
        r matches Some(c) ==> (coord_value(tok_abs(*t)) matches Option::Some(v) && v == c
            && in_coord_range(v)),
        r is None ==> !(coord_value(tok_abs(*t)) matches Option::Some(v) && in_coord_range(v)),
{
    match t {
        JsonToken::NumericInteger(v) => {
            if 0 <= *v && *v <= 0x7FFF_FFFF {
                Some(*v as i32)
            } else {
                None
            }
        },
        JsonToken::String(s) => quoted_coord(s),
        _ => None,
    }
}

/// Apply one key/value pair to the gathered field state, realizing
/// `field_apply`.
fn apply_event_field(
    ts: &mut Option<i64>,
    u: &mut Option<Vec<u8>>,
    c: &mut Option<i32>,
    x: &mut Option<i32>,
    y: &mut Option<i32>,
    key: &Vec<u8>,
    vtok: JsonToken,
) -> (r: Result<(), String>)
    ensures
        r is Ok ==> field_apply(
            fields_abs(*old(ts), *old(u), *old(c), *old(x), *old(y)),
            key@,
            tok_abs(vtok),
        ) == Option::Some(
            fields_abs(*final(ts), *final(u), *final(c), *final(x), *final(y)),
        ),
        r is Ok <==> field_apply(
            fields_abs(*old(ts), *old(u), *old(c), *old(x), *old(y)),
            key@,
            tok_abs(vtok),
        ) is Some,
{
    if vec_is(key, [116u8, 115u8].as_slice()) {
        proof {
            assert([116u8, 115u8]@ =~= seq![116u8, 115u8]);
        }
        match vtok {
            JsonToken::NumericInteger(v) => {
                *ts = Some(v);
                Ok(())
            },
            _ => Err(String::from_str("expected integer for event key 'ts'")),
        }
    } else if vec_is(key, [117u8].as_slice()) {
        proof {
            assert([117u8]@ =~= seq![117u8]);
        }
        match vtok {
            JsonToken::String(v) => {
                *u = Some(v);
                Ok(())
            },
            _ => Err(String::from_str("expected string for event key 'u'")),
        }
    } else if vec_is(key, [99u8].as_slice()) {
        proof {
            assert([99u8]@ =~= seq![99u8]);
        }
        match event_coord(&vtok) {
            Some(v) => {
                *c = Some(v);
                Ok(())
            },
            None => Err(String::from_str("bad integer for event key 'c'")),
        }
    } else if vec_is(key, [120u8].as_slice()) {
        proof {
            assert([120u8]@ =~= seq![120u8]);
        }
        match event_coord(&vtok) {
            Some(v) => {
                *x = Some(v);
                Ok(())
            },
            None => Err(String::from_str("bad integer for event key 'x'")),
        }
    } else if vec_is(key, [121u8].as_slice()) {
        proof {
            assert([121u8]@ =~= seq![121u8]);
        }
        match event_coord(&vtok) {
            Some(v) => {
                *y = Some(v);
                Ok(())
            },
            None => Err(String::from_str("bad integer for event key 'y'")),
        }
    } else {
        proof {
            assert(key@ != seq![116u8, 115u8] && key@ != seq![117u8] && key@ != seq![99u8] && key@
                != seq![120u8] && key@ != seq![121u8]) by {
                assert([116u8, 115u8]@ =~= seq![116u8, 115u8]);
                assert([117u8]@ =~= seq![117u8]);
                assert([99u8]@ =~= seq![99u8]);
                assert([120u8]@ =~= seq![120u8]);
                assert([121u8]@ =~= seq![121u8]);
            }
        }
        Err(String::from_str("unrecognized event key"))
    }
}

/// The field gatherer of one event object: the object visitor that
/// consumes each member's value token.
pub struct EventFields {
    pub ts: Option<i64>,
    pub username: Option<Vec<u8>>,
    pub color: Option<i32>,
    pub xv: Option<i32>,
    pub yv: Option<i32>,
}

impl<R: ByteSource> crate::stream::ObjectVisitor<R> for EventFields {
    type Model = FieldsRec;

    closed spec fn model(&self) -> FieldsRec {
        fields_abs(self.ts, self.username, self.color, self.xv, self.yv)
    }

    open spec fn app(m: FieldsRec, key: Seq<u8>, s: Seq<u8>) -> Option<(FieldsRec, Seq<u8>)> {
        match spec_next_token(s) {
            TokScan::Found(n, tv) => {
                match field_apply(m, key, tv) {
                    Option::Some(f2) => Option::Some((f2, s.skip(n))),
                    Option::None => Option::None,
                }
            },
            _ => Option::None,
        }
    }

    proof fn app_shrinks(m: FieldsRec, key: Seq<u8>, s: Seq<u8>) {
        lemma_next_token_bounds(s);
    }

    fn value(&mut self, stream: &mut JsonStream<R>, key: Vec<u8>) -> (r: Result<(), String>) {
        let vtok = match stream.next() {
            Ok(t) => t,
            Err(e) => {
                return Err(e.message());
            },
        };
        apply_event_field(
            &mut self.ts,
            &mut self.username,
            &mut self.color,
            &mut self.xv,
            &mut self.yv,
            &key,
            vtok,
        )
    }
}

/// Driving `EventFields` through the generic object driver is exactly the
/// event-object member grammar.
proof fn lemma_do_object_is_event_fields<R: ByteSource>(s: Seq<u8>, f: FieldsRec, first: bool)
    ensures
        ({
            let d = crate::stream::spec_do_object::<R, EventFields>(s, f, first);
            match spec_event_fields(s, f, first) {
                ObjScan::OOk(rest, f2) => d == Option::Some((rest, f2)),
                ObjScan::OErr => d is None,
            }
        }),
    decreases s.len(),
{
    lemma_next_token_bounds(s);
    match spec_next_token(s) {
        TokScan::Found(n0, t0) => {
            if first && t0 is EndObject {
            } else {
                match t0 {
                    Tok::StringValue(key) => {
                        let s1 = s.skip(n0);
                        lemma_next_token_bounds(s1);
                        match spec_next_token(s1) {
                            TokScan::Found(n1, Tok::Colon) => {
                                let s2 = s1.skip(n1);
                                lemma_next_token_bounds(s2);
                                match spec_next_token(s2) {
                                    TokScan::Found(n2, tv) => {
                                        match field_apply(f, key, tv) {
                                            Option::Some(f2) => {
                                                let s3 = s2.skip(n2);
                                                lemma_next_token_bounds(s3);
                                                match spec_next_token(s3) {
                                                    TokScan::Found(n3, Tok::Comma) => {
                                                        lemma_do_object_is_event_fields::<R>(
                                                            s3.skip(n3),
                                                            f2,
                                                            false,
                                                        );
                                                    },
                                                    _ => {},
                                                }
                                            },
                                            _ => {},
                                        }
                                    },
                                    _ => {},
                                }
                            },
                            _ => {},
                        }
                    },
                    _ => {},
                }
            }
        },
        _ => {},
    }
}

/// Model of the gathered exec field state.
pub open spec fn fields_abs(
    ts: Option<i64>,
    u: Option<Vec<u8>>,
    c: Option<i32>,
    x: Option<i32>,
    y: Option<i32>,
) -> FieldsRec {
    FieldsRec {
        ts: match ts {
            Option::Some(v) => Option::Some(v as int),
            Option::None => Option::None,
        },
        u: match u {
            Option::Some(v) => Option::Some(v@),
            Option::None => Option::None,
        },
        c: match c {
            Option::Some(v) => Option::Some(v as int),
            Option::None => Option::None,
        },
        x: match x {
            Option::Some(v) => Option::Some(v as int),
            Option::None => Option::None,
        },
        y: match y {
            Option::Some(v) => Option::Some(v as int),
            Option::None => Option::None,
        },
    }
}

/// Decode one event object, the opening brace already consumed: the
/// object driver gathers the five fields in any order, later keys
/// overwriting earlier ones, and all five are required.
pub fn parse_one_event<R: ByteSource>(stream: &mut JsonStream<R>) -> (r: Result<EventInfo, String>)
    requires
        old(stream).wf(),
    ensures
        final(stream).wf(),
        final(stream).src_ok() == old(stream).src_ok(),
        r matches Ok(ev) ==> (spec_parse_one_event(old(stream).remaining()) matches Option::Some(
            p,
        ) && p.1 == ev_abs(ev) && final(stream).remaining() == p.0 && final(stream).whole()
            == old(stream).whole()),
        old(stream).src_ok() && valid_utf8(old(stream).whole()) ==> (r is Ok
            <==> spec_parse_one_event(old(stream).remaining()) is Some),
{
    let ghost rem0 = stream.remaining();
    let mut fields = EventFields {
        ts: None,
        username: None,
        color: None,
        xv: None,
        yv: None,
    };
    proof {
        lemma_do_object_is_event_fields::<R>(rem0, fields_empty(), true);
        assert(crate::stream::ObjectVisitor::<R>::model(&fields) == fields_empty());
    }
    match stream.do_object(&mut fields) {
        Ok(()) => (),
        Err(m) => {
            return Err(m);
        },
    }
    let ghost gf = crate::stream::ObjectVisitor::<R>::model(&fields);
    match (fields.ts, fields.username, fields.color, fields.xv, fields.yv) {
        (Some(tsv), Some(uv), Some(cv), Some(xvv), Some(yvv)) => {
            let ev = EventInfo { ts: tsv, username: uv, color: cv, x: xvv, y: yvv };
            proof {
                assert(fields_complete(gf) == Option::Some(ev_abs(ev)));
            }
            Ok(ev)
        },
        _ => {
            proof {
                assert(fields_complete(gf) is None);
            }
            Err(String::from_str("need fields ts, u, c, x and y for event object"))
        },
    }
}

/// The event collector of a `data` array: the array visitor whose
/// elements are whole event objects.
pub struct CollectEvents {
    pub events: Vec<EventInfo>,
}

impl<R: ByteSource> crate::stream::ArrayVisitor<R> for CollectEvents {
    type Model = Seq<EventRec>;

    closed spec fn model(&self) -> Seq<EventRec> {
        evs_abs(self.events@)
    }

    open spec fn app(m: Seq<EventRec>, s: Seq<u8>) -> Option<(Seq<EventRec>, Seq<u8>)> {
        match spec_next_token(s) {
            TokScan::Found(n, Tok::StartObject) => {
                match spec_parse_one_event(s.skip(n)) {
                    Option::Some(p) => Option::Some((m.push(p.1), p.0)),
                    Option::None => Option::None,
                }
            },
            _ => Option::None,
        }
    }

    proof fn app_shrinks(m: Seq<EventRec>, s: Seq<u8>) {
        lemma_next_token_bounds(s);
        match spec_next_token(s) {
            TokScan::Found(n, t) => {
                lemma_event_fields_shrinks(s.skip(n), fields_empty(), true);
            },
            _ => {},
        }
    }

    fn element(&mut self, stream: &mut JsonStream<R>) -> (r: Result<(), String>) {
        match stream.expect_object() {
            Ok(()) => (),
            Err(e) => {
                let m = e.message();
                return Err(crate::json::concat2("expecting start of event object: ", m.as_str()));
            },
        }
        let ev = match parse_one_event(stream) {
            Ok(ev) => ev,
            Err(m) => {
                return Err(m);
            },
        };
        let ghost m0 = evs_abs(self.events@);
        self.events.push(ev);
        proof {
            assert(evs_abs(self.events@) =~= m0.push(ev_abs(ev)));
        }
        Ok(())
    }
}

/// Driving `CollectEvents` through the generic array driver is exactly the
/// event-list grammar.
proof fn lemma_do_array_is_event_array<R: ByteSource>(s: Seq<u8>, acc: Seq<EventRec>, first: bool)
    ensures
        ({
            let d = crate::stream::spec_do_array::<R, CollectEvents>(s, acc, first);
            match spec_event_array(s, acc, first) {
                ListScan::LOk(rest, evs) => d == Option::Some((rest, evs)),
                ListScan::LErr => d is None,
            }
        }),
    decreases s.len(),
{
    lemma_next_token_bounds(s);
    match spec_next_token(s) {
        TokScan::Found(n0, t0) => {
            if first && t0 is EndArray {
            } else if t0 is StartObject {
                let s1 = s.skip(n0);
                lemma_event_fields_shrinks(s1, fields_empty(), true);
                match spec_parse_one_event(s1) {
                    Option::Some((s2, ev)) => {
                        lemma_next_token_bounds(s2);
                        match spec_next_token(s2) {
                            TokScan::Found(n3, Tok::Comma) => {
                                lemma_do_array_is_event_array::<R>(s2.skip(n3), acc.push(ev), false);
                            },
                            _ => {},
                        }
                    },
                    _ => {},
                }
            }
        },
        _ => {},
    }
}

/// The whole upload: valid UTF-8 throughout, one top-level object holding
/// `data` arrays of events, and nothing but whitespace after it.  This is
/// the single definition against which the executable parser is verified,
/// and it depends on the byte sequence alone.
pub open spec fn spec_parse_events(d: Seq<u8>) -> Option<Seq<EventRec>> {
    if !valid_utf8(d) {
        Option::None
    } else {
        match spec_next_token(d) {
            TokScan::Found(n0, Tok::StartObject) => {
                match spec_outer_object(d.skip(n0), Seq::empty(), true) {
                    ListScan::LOk(s2, evs) => {
                        match spec_next_token(s2) {
                            TokScan::Found(_, Tok::EndOfInput) => Option::Some(evs),
                            _ => Option::None,
                        }
                    },
                    ListScan::LErr => Option::None,
                }
            },
            _ => Option::None,
        }
    }
}

/// Decode a whole upload: expect `{"data":[...]}` and nothing after it,
/// and return the events in input order.  Acceptance, rejection and the
/// decoded events are exactly `spec_parse_events` of the source's bytes,
/// so the outcome never depends on how the transport chunked them.
#[verifier::rlimit(100)]
#[verifier::loop_isolation(false)]
pub fn parse_event_stream<R: ByteSource>(source: R) -> (r: Result<Vec<EventInfo>, String>)
    ensures
        r matches Ok(evs) ==> (spec_parse_events(source.data()) matches Option::Some(ers) && ers
            == evs_abs(evs@)),
        source.infallible() ==> (r is Ok <==> spec_parse_events(source.data()) is Some),
{
    let ghost d = source.data();
    let ghost infall = source.infallible();
    let mut stream = JsonStream::new(source);
    match stream.expect_object() {
        Ok(()) => (),
        Err(e) => {
            proof {
                if infall && valid_utf8(d) {
                    assert(spec_parse_events(d) is None);
                }
            }
            let m = e.message();
            return Err(crate::json::concat2("expecting start of events object: ", m.as_str()));
        },
    }
    let ghost drem = stream.remaining();
    let mut events: Vec<EventInfo> = Vec::new();
    let mut ofirst: bool = true;
    let mut odone: bool = false;
    proof {
        assert(evs_abs(events@) =~= Seq::<EventRec>::empty());
    }
    while !odone
        invariant
            stream.wf(),
            stream.src_ok() == infall,
            stream.whole() == d,
            !odone ==> spec_outer_object(drem, Seq::empty(), true) == spec_outer_object(
                stream.remaining(),
                evs_abs(events@),
                ofirst,
            ),
            odone ==> spec_outer_object(drem, Seq::empty(), true) == ListScan::LOk(
                stream.remaining(),
                evs_abs(events@),
            ),
        decreases stream.remaining().len() + (if odone { 0int } else { 1int }),
    {
        let ghost reml = stream.remaining();
        let ghost accl = evs_abs(events@);
        proof {
            lemma_next_token_bounds(reml);
        }
        if ofirst {
            let pk = match stream.peek() {
                Ok(t) => t,
                Err(e) => {
                    proof {
                        if infall && valid_utf8(d) {
                            assert(spec_outer_object(reml, accl, ofirst) == ListScan::LErr);
                            assert(spec_parse_events(d) is None);
                        }
                    }
                    let m = e.message();
                    return Err(crate::json::concat2("error in events object: ", m.as_str()));
                },
            };
            match pk {
                JsonToken::EndObject => {
                    match stream.next() {
                        Ok(_) => (),
                        Err(e) => {
                            let m = e.message();
                            return Err(crate::json::concat2(
                                "error in events object: ",
                                m.as_str(),
                            ));
                        },
                    }
                    odone = true;
                    continue;
                },
                _ => (),
            }
        }
        let ktok = match stream.next() {
            Ok(t) => t,
            Err(e) => {
                proof {
                    if infall && valid_utf8(d) {
                        assert(spec_outer_object(reml, accl, ofirst) == ListScan::LErr);
                        assert(spec_parse_events(d) is None);
                    }
                }
                let m = e.message();
                return Err(crate::json::concat2("error in events object: ", m.as_str()));
            },
        };
        let key = match ktok {
            JsonToken::String(k) => k,
            x => {
                proof {
                    assert(spec_outer_object(reml, accl, ofirst) == ListScan::LErr);
                    assert(spec_parse_events(d) is None);
                }
                return Err(crate::json::concat2(
                    "expected string key in events object, got ",
                    x.kind_name(),
                ));
            },
        };
        if !vec_is(&key, [100u8, 97u8, 116u8, 97u8].as_slice()) {
            proof {
                assert([100u8, 97u8, 116u8, 97u8]@ =~= seq![100u8, 97u8, 116u8, 97u8]);
                assert(spec_outer_object(reml, accl, ofirst) == ListScan::LErr);
                assert(spec_parse_events(d) is None);
            }
            return Err(String::from_str("unexpected field in events object"));
        }
        proof {
            assert([100u8, 97u8, 116u8, 97u8]@ =~= seq![100u8, 97u8, 116u8, 97u8]);
        }
        let ghost rem1 = stream.remaining();
        proof {
            lemma_next_token_bounds(rem1);
        }
        match stream.expect_doublecolon() {
            Ok(()) => (),
            Err(e) => {
                proof {
                    if infall && valid_utf8(d) {
                        assert(spec_outer_object(reml, accl, ofirst) == ListScan::LErr);
                        assert(spec_parse_events(d) is None);
                    }
                }
                let m = e.message();
                return Err(crate::json::concat2("error in events object: ", m.as_str()));
            },
        }
        let ghost rem2 = stream.remaining();
        proof {
            lemma_next_token_bounds(rem2);
        }
        match stream.expect_array() {
            Ok(()) => (),
            Err(e) => {
                proof {
                    if infall && valid_utf8(d) {
                        assert(spec_outer_object(reml, accl, ofirst) == ListScan::LErr);
                        assert(spec_parse_events(d) is None);
                    }
                }
                let m = e.message();
                return Err(crate::json::concat2(
                    "expected events to be an array: ",
                    m.as_str(),
                ));
            },
        }
        // The array's event objects run through the generic array driver,
        // collecting events in input order.
        let ghost arr0 = stream.remaining();
        let ghost acc0 = evs_abs(events@);
        proof {
            lemma_do_array_is_event_array::<R>(arr0, acc0, true);
        }
        let mut collector = CollectEvents { events };
        match stream.do_array(&mut collector) {
            Ok(()) => (),
            Err(m) => {
                proof {
                    if infall && valid_utf8(d) {
                        assert(spec_event_array(arr0, acc0, true) == ListScan::LErr);
                        assert(spec_outer_object(reml, accl, ofirst) == ListScan::LErr);
                        assert(spec_parse_events(d) is None);
                    }
                }
                return Err(m);
            },
        }
        events = collector.events;
        proof {
            assert(spec_event_array(arr0, acc0, true) == ListScan::LOk(
                stream.remaining(),
                evs_abs(events@),
            ));
        }
        // The array is done; a comma continues the outer object, a brace
        // closes it.
        let ghost rem4 = stream.remaining();
        proof {
            lemma_event_array_shrinks(arr0, acc0, true);
            lemma_next_token_bounds(rem4);
        }
        match stream.next() {
            Ok(JsonToken::Comma) => {
                proof {
                    assert(spec_outer_object(reml, accl, ofirst) == spec_outer_object(
                        stream.remaining(),
                        evs_abs(events@),
                        false,
                    ));
                }
                ofirst = false;
            },
            Ok(JsonToken::EndObject) => {
                proof {
                    assert(spec_outer_object(reml, accl, ofirst) == ListScan::LOk(
                        stream.remaining(),
                        evs_abs(events@),
                    ));
                }
                odone = true;
            },
            Ok(x) => {
                proof {
                    assert(spec_outer_object(reml, accl, ofirst) == ListScan::LErr);
                    assert(spec_parse_events(d) is None);
                }
                return Err(crate::json::concat2(
                    "expected comma or end of events object, got ",
                    x.kind_name(),
                ));
            },
            Err(e) => {
                proof {
                    if infall && valid_utf8(d) {
                        assert(spec_outer_object(reml, accl, ofirst) == ListScan::LErr);
                        assert(spec_parse_events(d) is None);
                    }
                }
                let m = e.message();
                return Err(crate::json::concat2("error in events object: ", m.as_str()));
            },
        }
    }
    // Nothing but whitespace may follow the closing brace.
    match stream.expect_end_of_json() {
        Ok(()) => {
            proof {
                assert(valid_utf8(d));
                assert(spec_parse_events(d) == Option::Some(evs_abs(events@)));
            }
            Ok(events)
        },
        Err(e) => {
            proof {
                if infall && valid_utf8(d) {
                    assert(spec_parse_events(d) is None);
                }
            }
            let m = e.message();
            Err(crate::json::concat2("expected end of JSON: ", m.as_str()))
        },
    }
}

/// Require a non-negative 31-bit value for a named field.
pub fn checkpos2(x: i64, name: &str) -> (r: Result<i32, String>)
    ensures
        r matches Ok(v) ==> v == x && in_coord_range(x as int),
        r is Ok <==> in_coord_range(x as int),
{
    if x >= 0 && x <= 0x7FFF_FFFF {
        Ok(x as i32)
    } else {
        let mut s = String::from_str("integer value for field '");
        s.append(name);
        s.append("' out of range");
        Err(s)
    }
}

/// Require a parsed form value to be present and non-negative.
pub fn checkpos<E>(x: Result<i32, E>, name: &str) -> (r: Result<i32, crate::error::Error>)
    ensures
        r matches Ok(v) ==> (x matches Ok(xv) && xv == v && v >= 0),
        r is Ok <==> (x matches Ok(xv) && xv >= 0),
{
    match x {
        Ok(v) => {
            if v >= 0 {
                return Ok(v);
            }
        },
        Err(_) => (),
    }
    Err(crate::error::Error::BadFormField(String::from_str(name).as_str().to_owned()))
}

/// The JSON text of one event row, as echoed back to readers.
pub open spec fn spec_row_json(e: EventRec) -> Seq<u8> {
    seq![123u8, 34u8, 116u8, 115u8, 34u8, 58u8] + crate::decimal::dec_repr_signed(e.ts) + seq![
        44u8,
        34u8,
        117u8,
        34u8,
        58u8,
        34u8,
    ] + crate::json::escape_seq(e.u) + seq![34u8, 44u8, 34u8, 99u8, 34u8, 58u8]
        + crate::decimal::dec_repr_signed(e.c) + seq![44u8, 34u8, 120u8, 34u8, 58u8]
        + crate::decimal::dec_repr_signed(e.x) + seq![44u8, 34u8, 121u8, 34u8, 58u8]
        + crate::decimal::dec_repr_signed(e.y) + seq![125u8]
}

/// Append a fixed group of bytes.
fn push_array(out: &mut Vec<u8>, bs: &[u8])
    ensures
        final(out)@ == old(out)@ + bs@,
{
    let mut i: usize = 0;
    proof {
        assert(out@ =~= old(out)@ + bs@.take(0));
    }
    while i < bs.len()
        invariant
            i <= bs@.len(),
            out@ == old(out)@ + bs@.take(i as int),
        decreases bs@.len() - i,
    {
        out.push(bs[i]);
        proof {
            assert(old(out)@ + bs@.take(i + 1) =~= (old(out)@ + bs@.take(i as int)).push(
                bs@[i as int],
            ));
        }
        i += 1;
    }
    proof {
        assert(bs@.take(bs@.len() as int) =~= bs@);
    }
}

/// Append one event as a JSON object, escaping the username.
#[verifier::rlimit(100)]
pub fn format_row(target: &mut Vec<u8>, row: &EventInfo)
    ensures
        final(target)@ == old(target)@ + spec_row_json(ev_abs(*row)),
{
    let ghost p0 = target@;
    push_array(target, [123u8, 34u8, 116u8, 115u8, 34u8, 58u8].as_slice());
    crate::decimal::push_i64_dec(target, row.ts);
    let ghost p1 = target@;
    proof {
        assert([123u8, 34u8, 116u8, 115u8, 34u8, 58u8]@ =~= seq![
            123u8,
            34u8,
            116u8,
            115u8,
            34u8,
            58u8,
        ]);
        assert(p1 =~= p0 + seq![123u8, 34u8, 116u8, 115u8, 34u8, 58u8]
            + crate::decimal::dec_repr_signed(row.ts as int));
    }
    push_array(target, [44u8, 34u8, 117u8, 34u8, 58u8, 34u8].as_slice());
    let eu = crate::json::escape_json_string(row.username.as_slice());
    target.extend_from_slice(eu.as_slice());
    let ghost p2 = target@;
    proof {
        assert([44u8, 34u8, 117u8, 34u8, 58u8, 34u8]@ =~= seq![
            44u8,
            34u8,
            117u8,
            34u8,
            58u8,
            34u8,
        ]);
        assert(p2 =~= p1 + seq![44u8, 34u8, 117u8, 34u8, 58u8, 34u8] + crate::json::escape_seq(
            row.username@,
        ));
    }
    push_array(target, [34u8, 44u8, 34u8, 99u8, 34u8, 58u8].as_slice());
    crate::decimal::push_i64_dec(target, row.color as i64);
    let ghost p3 = target@;
    proof {
        assert([34u8, 44u8, 34u8, 99u8, 34u8, 58u8]@ =~= seq![
            34u8,
            44u8,
            34u8,
            99u8,
            34u8,
            58u8,
        ]);
        assert(p3 =~= p2 + seq![34u8, 44u8, 34u8, 99u8, 34u8, 58u8]
            + crate::decimal::dec_repr_signed(row.color as int));
    }
    push_array(target, [44u8, 34u8, 120u8, 34u8, 58u8].as_slice());
    crate::decimal::push_i64_dec(target, row.x as i64);
    let ghost p4 = target@;
    proof {
        assert([44u8, 34u8, 120u8, 34u8, 58u8]@ =~= seq![44u8, 34u8, 120u8, 34u8, 58u8]);
        assert(p4 =~= p3 + seq![44u8, 34u8, 120u8, 34u8, 58u8]
            + crate::decimal::dec_repr_signed(row.x as int));
    }
    push_array(target, [44u8, 34u8, 121u8, 34u8, 58u8].as_slice());
    crate::decimal::push_i64_dec(target, row.y as i64);
    target.push(125);
    proof {
        assert([44u8, 34u8, 121u8, 34u8, 58u8]@ =~= seq![44u8, 34u8, 121u8, 34u8, 58u8]);
        assert(target@ =~= p4 + seq![44u8, 34u8, 121u8, 34u8, 58u8]
            + crate::decimal::dec_repr_signed(row.y as int) + seq![125u8]);
        assert(target@ =~= p0 + spec_row_json(ev_abs(*row)));
    }
}

/// Time bounds of an event query, as given in the request's query string.
pub struct GetBounds {
    pub start: Option<i64>,
    pub end: Option<i64>,
}

/// A decoded scene edit form: one event, or an access grant or its
/// withdrawal.
pub enum ScenePostForm {
    Event(EventInfo),
    Grant(Vec<u8>),
    Ungrant(Vec<u8>),
}


/// Copy a byte vector.
fn copy_bytes(v: &Vec<u8>) -> (r: Vec<u8>)
    ensures
        r@ == v@,
{
    let mut out: Vec<u8> = Vec::new();
    let mut i: usize = 0;
    while i < v.len()
        invariant
            i <= v@.len(),
            out@ == v@.take(i as int),
        decreases v@.len() - i,
    {
        out.push(v[i]);
        proof {
            assert(out@ =~= v@.take(i + 1));
        }
        i += 1;
    }
    proof {
        assert(v@.take(v@.len() as int) =~= v@);
    }
    out
}

/// Parse a signed decimal integer that fits a 64-bit signed machine word.
fn parse_i64(s: &Vec<u8>) -> (r: Option<i64>)
    ensures
        r matches Some(v) ==> quoted_int(s@) == Option::Some(v as int),
        r is None ==> !(quoted_int(s@) matches Option::Some(v) && i64::MIN <= v <= i64::MAX),
{
    let neg = s.len() >= 1 && s[0] == 45;
    let sign: usize = if neg {
        1
    } else {
        0
    };
    let ghost gdigits = if neg {
        s@.skip(1)
    } else {
        s@
    };
    proof {
        if neg {
            assert(forall|j: int| 0 <= j < gdigits.len() ==> #[trigger] gdigits[j] == s@[j + 1]);
        }
    }
    if s.len() <= sign {
        return None;
    }
    let mut i: usize = sign;
    while i < s.len()
        invariant
            sign <= i <= s@.len(),
            sign == 0 || sign == 1,
            sign == 1 <==> (s@.len() >= 1 && s@[0] == 45),
            gdigits == if sign == 1 { s@.skip(1) } else { s@ },
            forall|j: int| 0 <= j < gdigits.len() ==> #[trigger] gdigits[j] == s@[j + sign],
            forall|j: int| sign <= j < i ==> crate::json::is_digit(#[trigger] s@[j]),
        decreases s@.len() - i,
    {
        let b = s[i];
        if !(48 <= b && b <= 57) {
            proof {
                assert(gdigits[i - sign] == s@[i as int]);
                assert(!all_digits(gdigits));
            }
            return None;
        }
        i += 1;
    }
    proof {
        assert(all_digits(gdigits)) by {
            assert(forall|j: int|
                0 <= j < gdigits.len() ==> crate::json::is_digit(#[trigger] gdigits[j]));
        }
    }
    // Skip leading zeros; they do not change the value.
    let mut z: usize = sign;
    proof {
        assert(gdigits.skip(0) =~= gdigits);
    }
    while z < s.len() && s[z] == 48
        invariant
            sign <= z <= s@.len(),
            sign == 0 || sign == 1,
            gdigits == if sign == 1 { s@.skip(1) } else { s@ },
            forall|j: int| 0 <= j < gdigits.len() ==> #[trigger] gdigits[j] == s@[j + sign],
            all_digits(gdigits),
            dec_val(gdigits) == dec_val(gdigits.skip(z - sign)),
        decreases s@.len() - z,
    {
        proof {
            let tail = gdigits.skip(z - sign);
            assert(tail[0] == s@[z as int]);
            lemma_dec_val_zero_front(tail);
            assert(tail.skip(1) =~= gdigits.skip(z + 1 - sign));
        }
        z += 1;
    }
    if z >= s.len() {
        proof {
            assert(gdigits.skip(z - sign) =~= Seq::<u8>::empty());
            assert(dec_val(gdigits) == 0);
        }
        return Some(0);
    }
    let ghost tail = gdigits.skip(z - sign);
    proof {
        assert(tail[0] == s@[z as int]);
        assert(s@[z as int] >= 49);
        assert(all_digits(tail)) by {
            assert(forall|j: int|
                0 <= j < tail.len() ==> #[trigger] tail[j] == gdigits[j + z - sign]);
        }
        lemma_dec_val_bounds(tail);
    }
    if s.len() - z > 19 {
        // Twenty or more significant digits always exceed the range.
        proof {
            lemma_pow10_ge(19, (tail.len() - 1) as nat);
            assert(pow10(19) == 10000000000000000000) by {
                reveal_with_fuel(pow10, 20);
            }
        }
        return None;
    }
    let digits = crate::json::slice_from(s.as_slice(), z);
    proof {
        assert(digits@ =~= tail);
    }
    let acc = crate::json::dec_accumulate(digits);
    let v = match acc {
        Some(v) => v,
        None => {
            return None;
        },
    };
    if neg {
        if v > 0x8000_0000_0000_0000u64 {
            None
        } else if v == 0x8000_0000_0000_0000u64 {
            Some(i64::MIN)
        } else {
            Some(-(v as i64))
        }
    } else {
        if v <= 0x7FFF_FFFF_FFFF_FFFFu64 {
            Some(v as i64)
        } else {
            None
        }
    }
}

/// The raw form values gathered by key, the last occurrence winning.
pub struct FormState {
    pub a: Option<Seq<u8>>,
    pub d: Option<Seq<u8>>,
    pub ts: Option<Seq<u8>>,
    pub u: Option<Seq<u8>>,
    pub c: Option<Seq<u8>>,
    pub x: Option<Seq<u8>>,
    pub y: Option<Seq<u8>>,
    pub unknown: bool,
}

/// Fold the form's pairs into the gathered state.
pub open spec fn spec_form_gather(pairs: Seq<(Seq<u8>, Seq<u8>)>, st: FormState) -> FormState
    decreases pairs.len(),
{
    if pairs.len() == 0 {
        st
    } else {
        let key = pairs[0].0;
        let val = pairs[0].1;
        let st2 = if key == seq![97u8] {
            FormState { a: Option::Some(val), ..st }
        } else if key == seq![100u8] {
            FormState { d: Option::Some(val), ..st }
        } else if key == seq![116u8, 115u8] {
            FormState { ts: Option::Some(val), ..st }
        } else if key == seq![117u8] {
            FormState { u: Option::Some(val), ..st }
        } else if key == seq![99u8] {
            FormState { c: Option::Some(val), ..st }
        } else if key == seq![120u8] {
            FormState { x: Option::Some(val), ..st }
        } else if key == seq![121u8] {
            FormState { y: Option::Some(val), ..st }
        } else {
            FormState { unknown: true, ..st }
        };
        spec_form_gather(pairs.skip(1), st2)
    }
}

pub open spec fn spec_form_empty() -> FormState {
    FormState {
        a: Option::None,
        d: Option::None,
        ts: Option::None,
        u: Option::None,
        c: Option::None,
        x: Option::None,
        y: Option::None,
        unknown: false,
    }
}

/// Model of a decoded form.
pub enum FormRec {
    FGrant(Seq<u8>),
    FUngrant(Seq<u8>),
    FEvent(EventRec),
    FErr,
}

/// The meaning of a whole form: exactly a grant, exactly a withdrawal, or
/// exactly the five event fields with their numeric rules; under a strict
/// reading any unknown key rejects.
pub open spec fn spec_post_form(pairs: Seq<(Seq<u8>, Seq<u8>)>, strict: bool) -> FormRec {
    let st = spec_form_gather(pairs, spec_form_empty());
    if strict && st.unknown {
        FormRec::FErr
    } else if st.a is Some && st.d is None && st.ts is None && st.u is None && st.c is None
        && st.x is None && st.y is None {
        FormRec::FGrant(st.a->0)
    } else if st.a is None && st.d is Some && st.ts is None && st.u is None && st.c is None
        && st.x is None && st.y is None {
        FormRec::FUngrant(st.d->0)
    } else if st.a is None && st.d is None && st.ts is Some && st.u is Some && st.c is Some
        && st.x is Some && st.y is Some {
        match (quoted_int(st.ts->0), quoted_int(st.c->0), quoted_int(st.x->0), quoted_int(
            st.y->0,
        )) {
            (Option::Some(ts), Option::Some(c), Option::Some(x), Option::Some(y)) => {
                if i64::MIN <= ts <= i64::MAX && in_coord_range(c) && in_coord_range(x)
                    && in_coord_range(y) {
                    FormRec::FEvent(EventRec { ts, u: st.u->0, c, x, y })
                } else {
                    FormRec::FErr
                }
            },
            _ => FormRec::FErr,
        }
    } else {
        FormRec::FErr
    }
}

/// Abstraction of a decoded form to its model.
pub open spec fn form_abs(f: ScenePostForm) -> FormRec {
    match f {
        ScenePostForm::Grant(g) => FormRec::FGrant(g@),
        ScenePostForm::Ungrant(g) => FormRec::FUngrant(g@),
        ScenePostForm::Event(ev) => FormRec::FEvent(ev_abs(ev)),
    }
}

/// Decode a scene edit form from its decoded key/value pairs: exactly one
/// of a grant, a withdrawal, or a full event.
#[verifier::loop_isolation(false)]
pub fn scene_post_form_from_pairs(pairs: &Vec<(Vec<u8>, Vec<u8>)>, strict: bool) -> (r: Result<
    ScenePostForm,
    crate::error::Error,
>)
    ensures
        r matches Ok(f) ==> form_abs(f) == spec_post_form(
            pairs@.map_values(|p: (Vec<u8>, Vec<u8>)| (p.0@, p.1@)),
            strict,
        ),
        r is Ok <==> !(spec_post_form(
            pairs@.map_values(|p: (Vec<u8>, Vec<u8>)| (p.0@, p.1@)),
            strict,
        ) is FErr),
{
    let ghost gpairs = pairs@.map_values(|p: (Vec<u8>, Vec<u8>)| (p.0@, p.1@));
    let mut a: Option<Vec<u8>> = None;
    let mut d: Option<Vec<u8>> = None;
    let mut ts: Option<Vec<u8>> = None;
    let mut u: Option<Vec<u8>> = None;
    let mut c: Option<Vec<u8>> = None;
    let mut x: Option<Vec<u8>> = None;
    let mut y: Option<Vec<u8>> = None;
    let mut unknown: bool = false;
    let mut i: usize = 0;
    proof {
        assert(gpairs.skip(0) =~= gpairs);
    }
    while i < pairs.len()
        invariant
            i <= pairs@.len(),
            gpairs == pairs@.map_values(|p: (Vec<u8>, Vec<u8>)| (p.0@, p.1@)),
            spec_form_gather(gpairs, spec_form_empty()) == spec_form_gather(
                gpairs.skip(i as int),
                form_state_abs(a, d, ts, u, c, x, y, unknown),
            ),
        decreases pairs@.len() - i,
    {
        proof {
            assert(gpairs.skip(i as int)[0] == gpairs[i as int]);
            assert(gpairs[i as int] == (pairs@[i as int].0@, pairs@[i as int].1@));
            assert(gpairs.skip(i as int).skip(1) =~= gpairs.skip(i + 1));
        }
        let key = &pairs[i].0;
        let val = copy_bytes(&pairs[i].1);
        if vec_is(key, [97u8].as_slice()) {
            proof {
                assert([97u8]@ =~= seq![97u8]);
            }
            a = Some(val);
        } else if vec_is(key, [100u8].as_slice()) {
            proof {
                assert([100u8]@ =~= seq![100u8]);
            }
            d = Some(val);
        } else if vec_is(key, [116u8, 115u8].as_slice()) {
            proof {
                assert([116u8, 115u8]@ =~= seq![116u8, 115u8]);
            }
            ts = Some(val);
        } else if vec_is(key, [117u8].as_slice()) {
            proof {
                assert([117u8]@ =~= seq![117u8]);
            }
            u = Some(val);
        } else if vec_is(key, [99u8].as_slice()) {
            proof {
                assert([99u8]@ =~= seq![99u8]);
            }
            c = Some(val);
        } else if vec_is(key, [120u8].as_slice()) {
            proof {
                assert([120u8]@ =~= seq![120u8]);
            }
            x = Some(val);
        } else if vec_is(key, [121u8].as_slice()) {
            proof {
                assert([121u8]@ =~= seq![121u8]);
            }
            y = Some(val);
        } else {
            proof {
                assert([97u8]@ =~= seq![97u8]);
                assert([100u8]@ =~= seq![100u8]);
                assert([116u8, 115u8]@ =~= seq![116u8, 115u8]);
                assert([117u8]@ =~= seq![117u8]);
                assert([99u8]@ =~= seq![99u8]);
                assert([120u8]@ =~= seq![120u8]);
                assert([121u8]@ =~= seq![121u8]);
            }
            unknown = true;
        }
        i += 1;
    }
    proof {
        assert(gpairs.skip(gpairs.len() as int) =~= Seq::<(Seq<u8>, Seq<u8>)>::empty());
    }
    if strict && unknown {
        return Err(crate::error::Error::BadFormField(String::from_str("unknown field")));
    }
    match (a, d, ts, u, c, x, y) {
        (Some(g), None, None, None, None, None, None) => Ok(ScenePostForm::Grant(g)),
        (None, Some(g), None, None, None, None, None) => Ok(ScenePostForm::Ungrant(g)),
        (None, None, Some(tsv), Some(uv), Some(cv), Some(xv2), Some(yv2)) => {
            let tsn = match parse_i64(&tsv) {
                Some(v) => v,
                None => {
                    return Err(crate::error::Error::BadFormField(String::from_str("ts")));
                },
            };
            let cn = match quoted_coord(&cv) {
                Some(v) => v,
                None => {
                    return Err(crate::error::Error::BadFormField(String::from_str("c")));
                },
            };
            let xn = match quoted_coord(&xv2) {
                Some(v) => v,
                None => {
                    return Err(crate::error::Error::BadFormField(String::from_str("x")));
                },
            };
            let yn = match quoted_coord(&yv2) {
                Some(v) => v,
                None => {
                    return Err(crate::error::Error::BadFormField(String::from_str("y")));
                },
            };
            Ok(ScenePostForm::Event(
                EventInfo { ts: tsn, username: uv, color: cn, x: xn, y: yn },
            ))
        },
        _ => Err(crate::error::Error::BadFormField(String::from_str("invalid combination"))),
    }
}

/// The bound a query parameter sets: `since=` moves the start, `until=`
/// moves the end, the last occurrence of each winning; anything that does
/// not parse as a timestamp is ignored.
pub open spec fn spec_get_bounds(params: Seq<Seq<u8>>, start: Option<int>, end: Option<int>) -> (
    Option<int>,
    Option<int>,
)
    decreases params.len(),
{
    if params.len() == 0 {
        (start, end)
    } else {
        let p = params[0];
        let since = seq![115u8, 105u8, 110u8, 99u8, 101u8, 61u8];
        let until = seq![117u8, 110u8, 116u8, 105u8, 108u8, 61u8];
        let st2 = if p.len() >= 6 && p.take(6) == since {
            match quoted_int(p.skip(6)) {
                Option::Some(v) => if i64::MIN <= v <= i64::MAX {
                    (Option::Some(v), end)
                } else {
                    (start, end)
                },
                Option::None => (start, end),
            }
        } else if p.len() >= 6 && p.take(6) == until {
            match quoted_int(p.skip(6)) {
                Option::Some(v) => if i64::MIN <= v <= i64::MAX {
                    (start, Option::Some(v))
                } else {
                    (start, end)
                },
                Option::None => (start, end),
            }
        } else {
            (start, end)
        };
        spec_get_bounds(params.skip(1), st2.0, st2.1)
    }
}

/// Decode the time bounds of an event query from its decoded parameters.
#[verifier::loop_isolation(false)]
pub fn get_bounds_from_query(params: &Vec<Vec<u8>>) -> (r: GetBounds)
    ensures
        ({
            let b = spec_get_bounds(
                params@.map_values(|p: Vec<u8>| p@),
                Option::None,
                Option::None,
            );
            &&& (match r.start {
                Option::Some(v) => b.0 == Option::Some(v as int),
                Option::None => b.0 is None,
            })
            &&& (match r.end {
                Option::Some(v) => b.1 == Option::Some(v as int),
                Option::None => b.1 is None,
            })
        }),
{
    let ghost gp = params@.map_values(|p: Vec<u8>| p@);
    let mut start: Option<i64> = None;
    let mut end: Option<i64> = None;
    let mut i: usize = 0;
    proof {
        assert(gp.skip(0) =~= gp);
    }
    while i < params.len()
        invariant
            i <= params@.len(),
            gp == params@.map_values(|p: Vec<u8>| p@),
            spec_get_bounds(gp, Option::None, Option::None) == spec_get_bounds(
                gp.skip(i as int),
                match start {
                    Option::Some(v) => Option::Some(v as int),
                    Option::None => Option::None,
                },
                match end {
                    Option::Some(v) => Option::Some(v as int),
                    Option::None => Option::None,
                },
            ),
        decreases params@.len() - i,
    {
        proof {
            assert(gp.skip(i as int)[0] == gp[i as int]);
            assert(gp[i as int] == params@[i as int]@);
            assert(gp.skip(i as int).skip(1) =~= gp.skip(i + 1));
        }
        let p = &params[i];
        if p.len() >= 6 && starts_with6(p, 115, 105, 110, 99, 101, 61) {
            let rest = tail_from(p, 6);
            match parse_i64(&rest) {
                Some(v) => {
                    start = Some(v);
                },
                None => (),
            }
        } else if p.len() >= 6 && starts_with6(p, 117, 110, 116, 105, 108, 61) {
            let rest = tail_from(p, 6);
            match parse_i64(&rest) {
                Some(v) => {
                    end = Some(v);
                },
                None => (),
            }
        }
        i += 1;
    }
    proof {
        assert(gp.skip(gp.len() as int) =~= Seq::<Seq<u8>>::empty());
    }
    GetBounds { start, end }
}

/// Whether a vector starts with the six given bytes.
fn starts_with6(p: &Vec<u8>, b0: u8, b1: u8, b2: u8, b3: u8, b4: u8, b5: u8) -> (r: bool)
    requires
        p@.len() >= 6,
    ensures
        r == (p@.take(6) == seq![b0, b1, b2, b3, b4, b5]),
{
    let r = p[0] == b0 && p[1] == b1 && p[2] == b2 && p[3] == b3 && p[4] == b4 && p[5] == b5;
    proof {
        if r {
            assert(p@.take(6) =~= seq![b0, b1, b2, b3, b4, b5]);
        } else {
            assert(p@.take(6)[0] == p@[0] && p@.take(6)[1] == p@[1] && p@.take(6)[2] == p@[2]
                && p@.take(6)[3] == p@[3] && p@.take(6)[4] == p@[4] && p@.take(6)[5] == p@[5]);
        }
    }
    r
}

/// The tail of a vector from an index, as a fresh vector.
fn tail_from(p: &Vec<u8>, k: usize) -> (r: Vec<u8>)
    requires
        k <= p@.len(),
    ensures
        r@ == p@.skip(k as int),
{
    let mut out: Vec<u8> = Vec::new();
    let mut i: usize = k;
    proof {
        assert(p@.subrange(k as int, k as int) =~= Seq::<u8>::empty());
    }
    while i < p.len()
        invariant
            k <= i <= p@.len(),
            out@ == p@.subrange(k as int, i as int),
        decreases p@.len() - i,
    {
        out.push(p[i]);
        proof {
            assert(out@ =~= p@.subrange(k as int, i + 1));
        }
        i += 1;
    }
    proof {
        assert(p@.subrange(k as int, p@.len() as int) =~= p@.skip(k as int));
    }
    out
}

/// Model of the gathered exec form state.
pub open spec fn form_state_abs(
    a: Option<Vec<u8>>,
    d: Option<Vec<u8>>,
    ts: Option<Vec<u8>>,
    u: Option<Vec<u8>>,
    c: Option<Vec<u8>>,
    x: Option<Vec<u8>>,
    y: Option<Vec<u8>>,
    unknown: bool,
) -> FormState {
    FormState {
        a: match a {
            Option::Some(v) => Option::Some(v@),
            Option::None => Option::None,
        },
        d: match d {
            Option::Some(v) => Option::Some(v@),
            Option::None => Option::None,
        },
        ts: match ts {
            Option::Some(v) => Option::Some(v@),
            Option::None => Option::None,
        },
        u: match u {
            Option::Some(v) => Option::Some(v@),
            Option::None => Option::None,
        },
        c: match c {
            Option::Some(v) => Option::Some(v@),
            Option::None => Option::None,
        },
        x: match x {
            Option::Some(v) => Option::Some(v@),
            Option::None => Option::None,
        },
        y: match y {
            Option::Some(v) => Option::Some(v@),
            Option::None => Option::None,
        },
        unknown,
    }
}

} // verus!
