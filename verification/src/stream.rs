//! The buffered JSON token stream: adapts a blocking byte source into a
//! cursor of validated text and serves tokens from it.
//!
//! The stream refills its buffer until a low-water mark is reached or the
//! source ends, so the tokenizer always sees either enough bytes to decide
//! a token within the bounded window, or true end of input.  Every token
//! decision is a pure function of the bytes the source will yield —
//! `spec_next_token` of the remaining bytes — never of how they were
//! chunked.
use crate::bytesource::ByteSource;
use crate::json::err_match;
use crate::json::tok_abs;
use crate::json::tok_window;
use crate::json::JsonToken;
use crate::json::JsonTokenError;
use crate::json::Tok;
use crate::json::TokScan;
use crate::utf8::feed_ok;
use crate::utf8::lemma_feed_ok_of_valid;
use crate::utf8::lemma_partial_char_not_valid;
use crate::utf8::lemma_valid_utf8_unconcat;
use crate::utf8::partial_char;
use crate::utf8::utf8_feed;
use vstd::prelude::*;
use vstd::utf8::valid_utf8;

verus! {

/// Low-water mark of the buffer, and the bound on how many bytes one token
/// may span: a token that does not complete within this window while more
/// input is pending is rejected as too long, bounding memory against
/// hostile unterminated tokens.
pub const STREAM_CAP: usize = 4096;

/// Stream-level errors.
#[derive(Clone, Debug)]
pub enum BasicJsonError {
    /// The byte source failed.
    IoError(String),
    /// The bytes are not valid UTF-8, or the source ended inside a
    /// multi-byte character.
    BadUtf8,
    /// The tokenizer rejected the text.
    BadJsonToken(JsonTokenError),
    ExpectedCommaOrEndOfArray(String),
    ExpectedStringObjectKey(String),
    ExpectedDoubleColon(String),
    ExpectedCommaOrEndOfObject(String),
    ExpectedStartOfObject(String),
    ExpectedStartOfArray(String),
    ExpectedString(String),
    ExpectedEndOfObject(String),
    ExpectedEnd(String),
}

/// The token decided by the remaining bytes of a stream: the tokenizer
/// window is the first `STREAM_CAP` bytes, and end-of-input holds when
/// fewer than that many bytes remain.
pub open spec fn spec_next_token(s: Seq<u8>) -> TokScan {
    if s.len() <= STREAM_CAP {
        tok_window(s, s.len() < STREAM_CAP)
    } else {
        tok_window(s.take(STREAM_CAP as int), false)
    }
}

/// A buffered stream of JSON tokens over a byte source.
pub struct JsonStream<R: ByteSource> {
    reader: R,
    buffer: Vec<u8>,
    start: usize,
    pending: Vec<u8>,
    eof: bool,
    taken: Ghost<Seq<u8>>,
}

impl BasicJsonError {
    /// A human-readable description.
    pub fn message(&self) -> String {
        match self {
            BasicJsonError::IoError(x) => crate::json::concat2("I/O error: ", x.as_str()),
            BasicJsonError::BadUtf8 => String::from_str("bad UTF-8"),
            BasicJsonError::BadJsonToken(t) => {
                let inner = t.message();
                crate::json::concat2("bad JSON token: ", inner.as_str())
            },
            BasicJsonError::ExpectedCommaOrEndOfArray(x) => crate::json::concat2(
                "expected comma or end of array, got ",
                x.as_str(),
            ),
            BasicJsonError::ExpectedStringObjectKey(x) => crate::json::concat2(
                "expected string as object key, got ",
                x.as_str(),
            ),
            BasicJsonError::ExpectedDoubleColon(x) => crate::json::concat2(
                "expected double colon, got ",
                x.as_str(),
            ),
            BasicJsonError::ExpectedCommaOrEndOfObject(x) => crate::json::concat2(
                "expected comma or end of object, got ",
                x.as_str(),
            ),
            BasicJsonError::ExpectedStartOfObject(x) => crate::json::concat2(
                "expected start of object, got ",
                x.as_str(),
            ),
            BasicJsonError::ExpectedStartOfArray(x) => crate::json::concat2(
                "expected start of array, got ",
                x.as_str(),
            ),
            BasicJsonError::ExpectedString(x) => crate::json::concat2(
                "expected string, got ",
                x.as_str(),
            ),
            BasicJsonError::ExpectedEndOfObject(x) => crate::json::concat2(
                "expected end of object, got ",
                x.as_str(),
            ),
            BasicJsonError::ExpectedEnd(x) => crate::json::concat2(
                "expected end of JSON, got ",
                x.as_str(),
            ),
        }
    }
}

impl<R: ByteSource> JsonStream<R> {
    /// The bytes not yet consumed by the tokenizer: buffered text, the
    /// pending partial character, then everything the source will yield.
    pub closed spec fn remaining(self) -> Seq<u8> {
        self.buffer@.skip(self.start as int) + self.pending@ + self.reader.data()
    }

    /// The bytes the tokenizer has consumed so far.
    pub closed spec fn consumed(self) -> Seq<u8> {
        self.taken@
    }

    /// All bytes this stream was created over.
    pub open spec fn whole(self) -> Seq<u8> {
        self.consumed() + self.remaining()
    }

    /// The source never fails to read.
    pub closed spec fn src_ok(self) -> bool {
        self.reader.infallible()
    }

    /// Structural invariant.
    pub closed spec fn wf(self) -> bool {
        &&& self.start <= self.buffer@.len()
        &&& partial_char(self.pending@)
        &&& self.pending@.len() <= 3
        &&& valid_utf8(self.taken@ + self.buffer@.skip(self.start as int))
        &&& (self.eof ==> self.pending@.len() == 0 && self.reader.data().len() == 0
            && self.buffer@.len() - self.start < STREAM_CAP)
    }

    /// The buffer has been refilled: it covers the tokenizer window, and
    /// the end-of-input flag is exact.
    pub closed spec fn ready(self) -> bool {
        &&& self.buffer@.len() - self.start >= if self.remaining().len() < STREAM_CAP {
            self.remaining().len() as int
        } else {
            STREAM_CAP as int
        }
        &&& (self.eof <==> self.remaining().len() < STREAM_CAP)
    }

    /// A fresh stream over a byte source; one is created per upload.
    pub fn new(reader: R) -> (r: JsonStream<R>)
        ensures
            r.wf(),
            r.remaining() == reader.data(),
            r.consumed() == Seq::<u8>::empty(),
            r.src_ok() == reader.infallible(),
    {
        let s = JsonStream {
            reader,
            buffer: Vec::new(),
            start: 0,
            pending: Vec::new(),
            eof: false,
            taken: Ghost(Seq::empty()),
        };
        proof {
            assert(s.buffer@.skip(0) =~= Seq::<u8>::empty());
            assert(s.remaining() =~= s.reader.data());
            assert(s.taken@ + s.buffer@.skip(0) =~= Seq::<u8>::empty());
            assert(valid_utf8(Seq::<u8>::empty()));
        }
        s
    }

    /// Read from the source until the buffer covers the tokenizer window
    /// or the source ends, validating UTF-8 incrementally and compacting
    /// the consumed prefix.
    #[verifier::rlimit(50)]
    fn refill(&mut self) -> (r: Result<(), BasicJsonError>)
        requires
            old(self).wf(),
        ensures
            final(self).wf(),
            final(self).src_ok() == old(self).src_ok(),
            final(self).consumed() == old(self).consumed(),
            r is Ok ==> final(self).remaining() == old(self).remaining() && final(self).ready(),
            old(self).ready() ==> r is Ok,
            old(self).src_ok() && valid_utf8(old(self).whole()) ==> r is Ok,
    {
        proof {
            if old(self).ready() {
                assert(self.eof || self.buffer@.len() - self.start >= STREAM_CAP);
            }
        }
        while !self.eof && self.buffer.len() - self.start < STREAM_CAP
            invariant
                self.wf(),
                self.remaining() == old(self).remaining(),
                self.consumed() == old(self).consumed(),
                self.src_ok() == old(self).src_ok(),
                old(self).ready() ==> self.eof || self.buffer@.len() - self.start
                    >= STREAM_CAP,
            decreases (if self.eof { 0int } else { 1int }), self.reader.data().len(),
        {
            if self.start > 0 {
                // Compaction: drop the consumed prefix so long streams do
                // not grow the buffer without bound.
                let ghost pre = self.buffer@.skip(self.start as int);
                let tail = vec_suffix(&self.buffer, self.start);
                self.buffer = tail;
                self.start = 0;
                proof {
                    assert(self.buffer@.skip(0) =~= pre);
                }
            }
            let ghost data_pre = self.reader.data();
            let chunk = match self.reader.read_chunk() {
                Ok(c) => c,
                Err(m) => {
                    return Err(BasicJsonError::IoError(m));
                },
            };
            if chunk.len() == 0 {
                if self.pending.len() > 0 {
                    // The source must not end in the middle of a character.
                    proof {
                        if valid_utf8(self.whole()) {
                            assert((self.taken@ + self.buffer@.skip(self.start as int)) + (
                            self.pending@ + self.reader.data()) =~= self.whole());
                            lemma_valid_utf8_unconcat(
                                self.taken@ + self.buffer@.skip(self.start as int),
                                self.pending@ + self.reader.data(),
                            );
                            assert(self.pending@ + self.reader.data() =~= self.pending@);
                            lemma_partial_char_not_valid(self.pending@);
                        }
                    }
                    return Err(BasicJsonError::BadUtf8);
                }
                self.eof = true;
            } else {
                let ghost buf0 = self.buffer@;
                let ghost pend0 = self.pending@;
                let ok = utf8_feed(&mut self.buffer, &mut self.pending, &chunk);
                if !ok {
                    proof {
                        let app = self.buffer@.skip(buf0.len() as int);
                        assert(self.buffer@.skip(self.start as int) =~= buf0.skip(
                            self.start as int,
                        ) + app);
                        vstd::utf8::valid_utf8_concat(
                            self.taken@ + buf0.skip(self.start as int),
                            app,
                        );
                        assert((self.taken@ + buf0.skip(self.start as int)) + app =~= self.taken@
                            + self.buffer@.skip(self.start as int));
                        if valid_utf8(old(self).whole()) {
                            assert((self.taken@ + buf0.skip(self.start as int)) + (pend0
                                + data_pre) =~= old(self).consumed() + (buf0.skip(
                                self.start as int,
                            ) + pend0 + data_pre));
                            lemma_valid_utf8_unconcat(
                                self.taken@ + buf0.skip(self.start as int),
                                pend0 + data_pre,
                            );
                            lemma_feed_ok_of_valid(pend0, data_pre, chunk@);
                            assert(feed_ok(pend0, chunk@));
                        }
                    }
                    return Err(BasicJsonError::BadUtf8);
                }
                proof {
                    let app = self.buffer@.skip(buf0.len() as int);
                    assert(self.buffer@.skip(self.start as int) =~= buf0.skip(self.start as int)
                        + app);
                    vstd::utf8::valid_utf8_concat(
                        self.taken@ + buf0.skip(self.start as int),
                        app,
                    );
                    assert((self.taken@ + buf0.skip(self.start as int)) + app =~= self.taken@
                        + self.buffer@.skip(self.start as int));
                    assert(buf0 + (app + self.pending@) =~= (buf0 + app) + self.pending@);
                    assert(buf0 + (pend0 + chunk@) =~= (buf0 + pend0) + chunk@);
                    lemma_concat_cancel_left(buf0, app + self.pending@, pend0 + chunk@);
                    assert(self.buffer@.skip(self.start as int) + self.pending@ =~= (buf0.skip(
                        self.start as int,
                    ) + app) + self.pending@);
                    assert((buf0.skip(self.start as int) + app) + self.pending@ =~= buf0.skip(
                        self.start as int,
                    ) + (app + self.pending@));
                    assert(self.buffer@.skip(self.start as int) + self.pending@ =~= buf0.skip(
                        self.start as int,
                    ) + (pend0 + chunk@));
                    assert(chunk@ + self.reader.data() =~= data_pre);
                    assert(self.remaining() =~= (buf0.skip(self.start as int) + pend0 + chunk@)
                        + self.reader.data());
                    assert((buf0.skip(self.start as int) + pend0 + chunk@) + self.reader.data()
                        =~= buf0.skip(self.start as int) + pend0 + data_pre);
                    assert(self.remaining() =~= old(self).remaining());
                }
            }
        }
        Ok(())
    }

    /// Serve and consume the next token.  The token, or the error, is
    /// decided by `spec_next_token` of the remaining bytes; the stream
    /// advances past exactly the consumed bytes.
    #[verifier::rlimit(50)]
    pub fn next(&mut self) -> (r: Result<JsonToken, BasicJsonError>)
        requires
            old(self).wf(),
        ensures
            final(self).wf(),
            final(self).src_ok() == old(self).src_ok(),
            r matches Ok(t) ==> (spec_next_token(old(self).remaining()) matches TokScan::Found(
                n,
                tk,
            ) && tk == tok_abs(t) && final(self).remaining() == old(self).remaining().skip(n)
                && final(self).consumed() == old(self).consumed() + old(self).remaining().take(n)
                && final(self).whole() == old(self).whole()),
            r is Err ==> final(self).consumed() == old(self).consumed(),
            (r matches Ok(t) && tok_abs(t) == Tok::EndOfInput) ==> valid_utf8(old(self).whole()),
            old(self).ready() && spec_next_token(old(self).remaining()) is Found ==> r is Ok,
            old(self).src_ok() && valid_utf8(old(self).whole()) ==> {
                &&& (r is Ok <==> spec_next_token(old(self).remaining()) is Found)
                &&& (spec_next_token(old(self).remaining()) is NeedMore ==> r == Result::<
                    JsonToken,
                    BasicJsonError,
                >::Err(BasicJsonError::BadJsonToken(JsonTokenError::TokenTooLong)))
                &&& (spec_next_token(old(self).remaining()) matches TokScan::Bad(k)
                    ==> r matches Err(BasicJsonError::BadJsonToken(e)) && err_match(k, e))
            },
    {
        match self.refill() {
            Ok(()) => (),
            Err(e) => {
                return Err(e);
            },
        }
        let avail = self.buffer.len() - self.start;
        let m = if avail < STREAM_CAP {
            avail
        } else {
            STREAM_CAP
        };
        let window = slice_sub(self.buffer.as_slice(), self.start, self.start + m);
        proof {
            lemma_window_is_take(*self, m as int);
        }
        let ghost rem0 = self.remaining();
        match JsonToken::next(window, self.eof) {
            Ok((n, t)) => {
                proof {
                    assert(spec_next_token(rem0) == TokScan::Found(n as int, tok_abs(t)));
                    assert(rem0.take(n as int) =~= self.buffer@.subrange(
                        self.start as int,
                        self.start + n,
                    ));
                    assert(rem0.skip(n as int) =~= self.buffer@.skip(self.start + n)
                        + self.pending@ + self.reader.data());
                    assert(self.taken@ + self.buffer@.skip(self.start as int) =~= (self.taken@
                        + rem0.take(n as int)) + self.buffer@.skip(self.start + n));
                    if tok_abs(t) == Tok::EndOfInput {
                        crate::json::lemma_endofinput_needs_end(rem0.take(STREAM_CAP as int));
                        crate::json::lemma_endofinput_needs_end(rem0);
                        assert(self.eof);
                        assert(rem0 =~= self.buffer@.skip(self.start as int));
                        assert(valid_utf8(old(self).whole())) by {
                            assert(old(self).whole() =~= self.taken@ + self.buffer@.skip(
                                self.start as int,
                            ));
                        }
                    }
                }
                self.start = self.start + n;
                self.taken = Ghost(self.taken@ + rem0.take(n as int));
                proof {
                    assert(self.consumed() + self.remaining() =~= old(self).consumed() + rem0);
                }
                Ok(t)
            },
            Err(e) => Err(BasicJsonError::BadJsonToken(e)),
        }
    }

    /// Serve the next token without consuming it.
    pub fn peek(&mut self) -> (r: Result<JsonToken, BasicJsonError>)
        requires
            old(self).wf(),
        ensures
            final(self).wf(),
            final(self).src_ok() == old(self).src_ok(),
            final(self).consumed() == old(self).consumed(),
            r is Ok ==> final(self).remaining() == old(self).remaining() && final(self).whole()
                == old(self).whole() && final(self).ready(),
            r matches Ok(t) ==> (spec_next_token(old(self).remaining()) matches TokScan::Found(
                n,
                tk,
            ) && tk == tok_abs(t)),
            old(self).src_ok() && valid_utf8(old(self).whole()) ==> {
                &&& (r is Ok <==> spec_next_token(old(self).remaining()) is Found)
                &&& (spec_next_token(old(self).remaining()) is NeedMore ==> r == Result::<
                    JsonToken,
                    BasicJsonError,
                >::Err(BasicJsonError::BadJsonToken(JsonTokenError::TokenTooLong)))
                &&& (spec_next_token(old(self).remaining()) matches TokScan::Bad(k)
                    ==> r matches Err(BasicJsonError::BadJsonToken(e)) && err_match(k, e))
            },
    {
        match self.refill() {
            Ok(()) => (),
            Err(e) => {
                return Err(e);
            },
        }
        let avail = self.buffer.len() - self.start;
        let m = if avail < STREAM_CAP {
            avail
        } else {
            STREAM_CAP
        };
        let window = slice_sub(self.buffer.as_slice(), self.start, self.start + m);
        proof {
            lemma_window_is_take(*self, m as int);
        }
        match JsonToken::next(window, self.eof) {
            Ok((_, t)) => Ok(t),
            Err(e) => Err(BasicJsonError::BadJsonToken(e)),
        }
    }

    /// Consume a `StartObject` token; any other next token is an error and
    /// is left unconsumed.
    pub fn expect_object(&mut self) -> (r: Result<(), BasicJsonError>)
        requires
            old(self).wf(),
        ensures
            final(self).wf(),
            final(self).src_ok() == old(self).src_ok(),
            r is Ok ==> (spec_next_token(old(self).remaining()) matches TokScan::Found(n, tk)
                && tk is StartObject && final(self).remaining() == old(self).remaining().skip(n)
                && final(self).consumed() == old(self).consumed() + old(self).remaining().take(n)
                && final(self).whole() == old(self).whole()),
            r is Err ==> final(self).consumed() == old(self).consumed(),
            old(self).src_ok() && valid_utf8(old(self).whole()) ==> (r is Ok <==> (
            spec_next_token(old(self).remaining()) matches TokScan::Found(n, tk)
                && tk is StartObject)),
    {
        let t = match self.peek() {
            Ok(t) => t,
            Err(e) => {
                return Err(e);
            },
        };
        match t {
            JsonToken::StartObject => {
                match self.next() {
                    Ok(_) => Ok(()),
                    Err(e) => Err(e),
                }
            },
            x => Err(BasicJsonError::ExpectedStartOfObject(String::from_str(x.kind_name()))),
        }
    }

    /// Consume an `EndObject` token; any other next token is an error and
    /// is left unconsumed.
    pub fn expect_object_end(&mut self) -> (r: Result<(), BasicJsonError>)
        requires
            old(self).wf(),
        ensures
            final(self).wf(),
            final(self).src_ok() == old(self).src_ok(),
            r is Ok ==> (spec_next_token(old(self).remaining()) matches TokScan::Found(n, tk)
                && tk is EndObject && final(self).remaining() == old(self).remaining().skip(n)
                && final(self).consumed() == old(self).consumed() + old(self).remaining().take(n)
                && final(self).whole() == old(self).whole()),
            r is Err ==> final(self).consumed() == old(self).consumed(),
            old(self).src_ok() && valid_utf8(old(self).whole()) ==> (r is Ok <==> (
            spec_next_token(old(self).remaining()) matches TokScan::Found(n, tk)
                && tk is EndObject)),
    {
        let t = match self.peek() {
            Ok(t) => t,
            Err(e) => {
                return Err(e);
            },
        };
        match t {
            JsonToken::EndObject => {
                match self.next() {
                    Ok(_) => Ok(()),
                    Err(e) => Err(e),
                }
            },
            x => Err(BasicJsonError::ExpectedEndOfObject(String::from_str(x.kind_name()))),
        }
    }

    /// Consume a `StartArray` token; any other next token is an error and
    /// is left unconsumed.
    pub fn expect_array(&mut self) -> (r: Result<(), BasicJsonError>)
        requires
            old(self).wf(),
        ensures
            final(self).wf(),
            final(self).src_ok() == old(self).src_ok(),
            r is Ok ==> (spec_next_token(old(self).remaining()) matches TokScan::Found(n, tk)
                && tk is StartArray && final(self).remaining() == old(self).remaining().skip(n)
                && final(self).consumed() == old(self).consumed() + old(self).remaining().take(n)
                && final(self).whole() == old(self).whole()),
            r is Err ==> final(self).consumed() == old(self).consumed(),
            old(self).src_ok() && valid_utf8(old(self).whole()) ==> (r is Ok <==> (
            spec_next_token(old(self).remaining()) matches TokScan::Found(n, tk)
                && tk is StartArray)),
    {
        let t = match self.peek() {
            Ok(t) => t,
            Err(e) => {
                return Err(e);
            },
        };
        match t {
            JsonToken::StartArray => {
                match self.next() {
                    Ok(_) => Ok(()),
                    Err(e) => Err(e),
                }
            },
            x => Err(BasicJsonError::ExpectedStartOfArray(String::from_str(x.kind_name()))),
        }
    }

    /// Consume a string token and return its decoded bytes; any other next
    /// token is an error and is left unconsumed.
    pub fn expect_string(&mut self) -> (r: Result<Vec<u8>, BasicJsonError>)
        requires
            old(self).wf(),
        ensures
            final(self).wf(),
            final(self).src_ok() == old(self).src_ok(),
            r matches Ok(v) ==> (spec_next_token(old(self).remaining()) matches TokScan::Found(
                n,
                tk,
            ) && tk == Tok::StringValue(v@) && final(self).remaining() == old(
                self,
            ).remaining().skip(n) && final(self).consumed() == old(self).consumed() + old(
                self,
            ).remaining().take(n) && final(self).whole() == old(self).whole()),
            r is Err ==> final(self).consumed() == old(self).consumed(),
            old(self).src_ok() && valid_utf8(old(self).whole()) ==> (r is Ok <==> (
            spec_next_token(old(self).remaining()) matches TokScan::Found(n, tk)
                && tk is StringValue)),
    {
        let t = match self.peek() {
            Ok(t) => t,
            Err(e) => {
                return Err(e);
            },
        };
        match t {
            JsonToken::String(v) => {
                match self.next() {
                    Ok(_) => Ok(v),
                    Err(e) => Err(e),
                }
            },
            x => Err(BasicJsonError::ExpectedString(String::from_str(x.kind_name()))),
        }
    }

    /// Consume a colon token; any other next token is an error and is left
    /// unconsumed.
    pub fn expect_doublecolon(&mut self) -> (r: Result<(), BasicJsonError>)
        requires
            old(self).wf(),
        ensures
            final(self).wf(),
            final(self).src_ok() == old(self).src_ok(),
            r is Ok ==> (spec_next_token(old(self).remaining()) matches TokScan::Found(n, tk)
                && tk is Colon && final(self).remaining() == old(self).remaining().skip(n)
                && final(self).consumed() == old(self).consumed() + old(self).remaining().take(n)
                && final(self).whole() == old(self).whole()),
            r is Err ==> final(self).consumed() == old(self).consumed(),
            old(self).src_ok() && valid_utf8(old(self).whole()) ==> (r is Ok <==> (
            spec_next_token(old(self).remaining()) matches TokScan::Found(n, tk)
                && tk is Colon)),
    {
        let t = match self.peek() {
            Ok(t) => t,
            Err(e) => {
                return Err(e);
            },
        };
        match t {
            JsonToken::DoubleColon => {
                match self.next() {
                    Ok(_) => Ok(()),
                    Err(e) => Err(e),
                }
            },
            x => Err(BasicJsonError::ExpectedDoubleColon(String::from_str(x.kind_name()))),
        }
    }

    /// Require that only whitespace remains to the end of the document.
    /// On success the whole input was consumed and was valid UTF-8.
    pub fn expect_end_of_json(&mut self) -> (r: Result<(), BasicJsonError>)
        requires
            old(self).wf(),
        ensures
            final(self).wf(),
            final(self).src_ok() == old(self).src_ok(),
            r is Ok ==> (spec_next_token(old(self).remaining()) matches TokScan::Found(n, tk)
                && tk is EndOfInput && valid_utf8(old(self).whole()) && final(self).whole()
                == old(self).whole()),
            r is Err ==> final(self).consumed() == old(self).consumed(),
            old(self).src_ok() && valid_utf8(old(self).whole()) ==> (r is Ok <==> (
            spec_next_token(old(self).remaining()) matches TokScan::Found(n, tk)
                && tk is EndOfInput)),
    {
        let t = match self.peek() {
            Ok(t) => t,
            Err(e) => {
                return Err(e);
            },
        };
        match t {
            JsonToken::EndOfInput => {
                match self.next() {
                    Ok(_) => Ok(()),
                    Err(e) => Err(e),
                }
            },
            x => Err(BasicJsonError::ExpectedEnd(String::from_str(x.kind_name()))),
        }
    }

    /// Drive a visitor over an array: an immediate `]` means zero
    /// elements; otherwise the visitor consumes each element's tokens and
    /// the driver enforces the comma-or-terminator grammar.
    #[verifier::rlimit(100)]
    #[verifier::loop_isolation(false)]
    pub fn do_array<V: ArrayVisitor<R>>(&mut self, v: &mut V) -> (r: Result<(), String>)
        requires
            old(self).wf(),
        ensures
            final(self).wf(),
            final(self).src_ok() == old(self).src_ok(),
            r is Ok ==> (spec_do_array::<R, V>(old(self).remaining(), old(v).model(), true)
                matches Some(p) && p.0 == final(self).remaining() && p.1 == final(v).model()
                && final(self).whole() == old(self).whole()),
            old(self).src_ok() && valid_utf8(old(self).whole()) ==> (r is Ok <==> spec_do_array::<
                R,
                V,
            >(old(self).remaining(), old(v).model(), true) is Some),
    {
        let ghost s0 = self.remaining();
        let ghost m0 = v.model();
        let ghost cond = old(self).src_ok() && valid_utf8(old(self).whole());
        let mut first: bool = true;
        let mut done: bool = false;
        while !done
            invariant
                self.wf(),
                self.src_ok() == old(self).src_ok(),
                self.whole() == old(self).whole(),
                !done ==> spec_do_array::<R, V>(s0, m0, true) == spec_do_array::<R, V>(
                    self.remaining(),
                    v.model(),
                    first,
                ),
                done ==> spec_do_array::<R, V>(s0, m0, true) == Option::Some(
                    (self.remaining(), v.model()),
                ),
            decreases self.remaining().len() + (if done { 0int } else { 1int }),
        {
            let ghost reml = self.remaining();
            let ghost ml = v.model();
            proof {
                lemma_next_token_bounds(reml);
                V::app_shrinks(ml, reml);
            }
            if first {
                let pk = match self.peek() {
                    Ok(t) => t,
                    Err(e) => {
                        return Err(e.message());
                    },
                };
                match pk {
                    JsonToken::EndArray => {
                        match self.next() {
                            Ok(_) => (),
                            Err(e) => {
                                return Err(e.message());
                            },
                        }
                        done = true;
                        continue;
                    },
                    _ => (),
                }
            }
            match v.element(self) {
                Ok(()) => (),
                Err(m) => {
                    return Err(m);
                },
            }
            let ghost rem1 = self.remaining();
            proof {
                lemma_next_token_bounds(rem1);
            }
            match self.next() {
                Ok(JsonToken::Comma) => {
                    first = false;
                },
                Ok(JsonToken::EndArray) => {
                    done = true;
                },
                Ok(x) => {
                    return Err(
                        BasicJsonError::ExpectedCommaOrEndOfArray(
                            String::from_str(x.kind_name()),
                        ).message(),
                    );
                },
                Err(e) => {
                    return Err(e.message());
                },
            }
        }
        Ok(())
    }

    /// Drive a visitor over an object: an immediate `}` means zero
    /// members; otherwise the driver reads each key and colon, the
    /// visitor consumes the value's tokens, and the driver enforces the
    /// comma-or-terminator grammar.
    #[verifier::rlimit(100)]
    #[verifier::loop_isolation(false)]
    pub fn do_object<V: ObjectVisitor<R>>(&mut self, v: &mut V) -> (r: Result<(), String>)
        requires
            old(self).wf(),
        ensures
            final(self).wf(),
            final(self).src_ok() == old(self).src_ok(),
            r is Ok ==> (spec_do_object::<R, V>(old(self).remaining(), old(v).model(), true)
                matches Some(p) && p.0 == final(self).remaining() && p.1 == final(v).model()
                && final(self).whole() == old(self).whole()),
            old(self).src_ok() && valid_utf8(old(self).whole()) ==> (r is Ok <==> spec_do_object::<
                R,
                V,
            >(old(self).remaining(), old(v).model(), true) is Some),
    {
        let ghost s0 = self.remaining();
        let ghost m0 = v.model();
        let ghost cond = old(self).src_ok() && valid_utf8(old(self).whole());
        let mut first: bool = true;
        let mut done: bool = false;
        while !done
            invariant
                self.wf(),
                self.src_ok() == old(self).src_ok(),
                self.whole() == old(self).whole(),
                !done ==> spec_do_object::<R, V>(s0, m0, true) == spec_do_object::<R, V>(
                    self.remaining(),
                    v.model(),
                    first,
                ),
                done ==> spec_do_object::<R, V>(s0, m0, true) == Option::Some(
                    (self.remaining(), v.model()),
                ),
            decreases self.remaining().len() + (if done { 0int } else { 1int }),
        {
            let ghost reml = self.remaining();
            let ghost ml = v.model();
            proof {
                lemma_next_token_bounds(reml);
            }
            if first {
                let pk = match self.peek() {
                    Ok(t) => t,
                    Err(e) => {
                        return Err(e.message());
                    },
                };
                match pk {
                    JsonToken::EndObject => {
                        match self.next() {
                            Ok(_) => (),
                            Err(e) => {
                                return Err(e.message());
                            },
                        }
                        done = true;
                        continue;
                    },
                    _ => (),
                }
            }
            let keyname = match self.next() {
                Ok(JsonToken::String(k)) => k,
                Ok(x) => {
                    return Err(
                        BasicJsonError::ExpectedStringObjectKey(
                            String::from_str(x.kind_name()),
                        ).message(),
                    );
                },
                Err(e) => {
                    return Err(e.message());
                },
            };
            let ghost rem1 = self.remaining();
            proof {
                lemma_next_token_bounds(rem1);
            }
            match self.next() {
                Ok(JsonToken::DoubleColon) => (),
                Ok(x) => {
                    return Err(
                        BasicJsonError::ExpectedDoubleColon(
                            String::from_str(x.kind_name()),
                        ).message(),
                    );
                },
                Err(e) => {
                    return Err(e.message());
                },
            }
            let ghost rem2 = self.remaining();
            proof {
                V::app_shrinks(ml, keyname@, rem2);
            }
            match v.value(self, keyname) {
                Ok(()) => (),
                Err(m) => {
                    return Err(m);
                },
            }
            let ghost rem3 = self.remaining();
            proof {
                lemma_next_token_bounds(rem3);
            }
            match self.next() {
                Ok(JsonToken::Comma) => {
                    first = false;
                },
                Ok(JsonToken::EndObject) => {
                    done = true;
                },
                Ok(x) => {
                    return Err(
                        BasicJsonError::ExpectedCommaOrEndOfObject(
                            String::from_str(x.kind_name()),
                        ).message(),
                    );
                },
                Err(e) => {
                    return Err(e.message());
                },
            }
        }
        Ok(())
    }
}

/// A consumer of array elements, driven by `do_array`.  Its ghost `Model`
/// is what the visitor has gathered; `app` is the meaning of consuming
/// one element's tokens, and `element` must realize it.  This seam lets
/// callers supply their own element grammar; the event decoder's
/// collector is the implementation this crate ships.
pub trait ArrayVisitor<R: ByteSource>: Sized {
    /// The gathered state, abstractly.
    type Model;

    spec fn model(&self) -> Self::Model;

    /// What consuming one element from the bytes `s` yields: the new
    /// state and the bytes left, or a rejection.
    spec fn app(m: Self::Model, s: Seq<u8>) -> Option<(Self::Model, Seq<u8>)>;

    /// An element never grows the remaining bytes.
    proof fn app_shrinks(m: Self::Model, s: Seq<u8>)
        ensures
            Self::app(m, s) matches Some(p) ==> p.1.len() <= s.len(),
    ;

    /// Consume exactly one element's tokens.
    fn element(&mut self, stream: &mut JsonStream<R>) -> (r: Result<(), String>)
        requires
            old(stream).wf(),
        ensures
            final(stream).wf(),
            final(stream).src_ok() == old(stream).src_ok(),
            r is Ok ==> (Self::app(old(self).model(), old(stream).remaining()) == Some(
                (final(self).model(), final(stream).remaining()),
            ) && final(stream).whole() == old(stream).whole()),
            old(stream).src_ok() && valid_utf8(old(stream).whole()) ==> (r is Ok <==> Self::app(
                old(self).model(),
                old(stream).remaining(),
            ) is Some),
    ;
}

/// The array grammar a visitor is driven through: either an immediate
/// closing bracket, or elements separated by commas.
pub open spec fn spec_do_array<R: ByteSource, V: ArrayVisitor<R>>(
    s: Seq<u8>,
    m: V::Model,
    first: bool,
) -> Option<(Seq<u8>, V::Model)>
    decreases s.len(),
    via spec_do_array_dec::<R, V>
{
    if first && !(spec_next_token(s) is Found) {
        Option::None
    } else if first && (spec_next_token(s) matches TokScan::Found(n0, t0) && t0 is EndArray) {
        match spec_next_token(s) {
            TokScan::Found(n0, t0) => Option::Some((s.skip(n0), m)),
            _ => Option::None,
        }
    } else {
        match V::app(m, s) {
            Option::Some((m2, s1)) => {
                match spec_next_token(s1) {
                    TokScan::Found(n1, Tok::Comma) => {
                        spec_do_array::<R, V>(s1.skip(n1), m2, false)
                    },
                    TokScan::Found(n1, Tok::EndArray) => {
                        Option::Some((s1.skip(n1), m2))
                    },
                    _ => Option::None,
                }
            },
            Option::None => Option::None,
        }
    }
}

#[via_fn]
proof fn spec_do_array_dec<R: ByteSource, V: ArrayVisitor<R>>(
    s: Seq<u8>,
    m: V::Model,
    first: bool,
) {
    lemma_next_token_bounds(s);
    V::app_shrinks(m, s);
    match V::app(m, s) {
        Option::Some((m2, s1)) => {
            lemma_next_token_bounds(s1);
        },
        _ => {},
    }
}

/// A consumer of object members, driven by `do_object`: the driver reads
/// each key and its colon, the visitor consumes the value's tokens.
pub trait ObjectVisitor<R: ByteSource>: Sized {
    /// The gathered state, abstractly.
    type Model;

    spec fn model(&self) -> Self::Model;

    /// What consuming one member's value from the bytes `s` under `key`
    /// yields: the new state and the bytes left, or a rejection.
    spec fn app(m: Self::Model, key: Seq<u8>, s: Seq<u8>) -> Option<(Self::Model, Seq<u8>)>;

    /// A value never grows the remaining bytes.
    proof fn app_shrinks(m: Self::Model, key: Seq<u8>, s: Seq<u8>)
        ensures
            Self::app(m, key, s) matches Some(p) ==> p.1.len() <= s.len(),
    ;

    /// Consume exactly one value's tokens.
    fn value(&mut self, stream: &mut JsonStream<R>, key: Vec<u8>) -> (r: Result<(), String>)
        requires
            old(stream).wf(),
        ensures
            final(stream).wf(),
            final(stream).src_ok() == old(stream).src_ok(),
            r is Ok ==> (Self::app(old(self).model(), key@, old(stream).remaining()) == Some(
                (final(self).model(), final(stream).remaining()),
            ) && final(stream).whole() == old(stream).whole()),
            old(stream).src_ok() && valid_utf8(old(stream).whole()) ==> (r is Ok <==> Self::app(
                old(self).model(),
                key@,
                old(stream).remaining(),
            ) is Some),
    ;
}

/// The object grammar a visitor is driven through: either an immediate
/// closing brace, or `"key": value` members separated by commas.
pub open spec fn spec_do_object<R: ByteSource, V: ObjectVisitor<R>>(
    s: Seq<u8>,
    m: V::Model,
    first: bool,
) -> Option<(Seq<u8>, V::Model)>
    decreases s.len(),
    via spec_do_object_dec::<R, V>
{
    match spec_next_token(s) {
        TokScan::Found(n0, t0) => {
            if first && t0 is EndObject {
                Option::Some((s.skip(n0), m))
            } else {
                match t0 {
                    Tok::StringValue(key) => {
                        let s1 = s.skip(n0);
                        match spec_next_token(s1) {
                            TokScan::Found(n1, Tok::Colon) => {
                                let s2 = s1.skip(n1);
                                match V::app(m, key, s2) {
                                    Option::Some((m2, s3)) => {
                                        match spec_next_token(s3) {
                                            TokScan::Found(n3, Tok::Comma) => {
                                                spec_do_object::<R, V>(s3.skip(n3), m2, false)
                                            },
                                            TokScan::Found(n3, Tok::EndObject) => {
                                                Option::Some((s3.skip(n3), m2))
                                            },
                                            _ => Option::None,
                                        }
                                    },
                                    Option::None => Option::None,
                                }
                            },
                            _ => Option::None,
                        }
                    },
                    _ => Option::None,
                }
            }
        },
        _ => Option::None,
    }
}

#[via_fn]
proof fn spec_do_object_dec<R: ByteSource, V: ObjectVisitor<R>>(
    s: Seq<u8>,
    m: V::Model,
    first: bool,
) {
    lemma_next_token_bounds(s);
    match spec_next_token(s) {
        TokScan::Found(n0, t0) => {
            match t0 {
                Tok::StringValue(key) => {
                    let s1 = s.skip(n0);
                    lemma_next_token_bounds(s1);
                    match spec_next_token(s1) {
                        TokScan::Found(n1, t1) => {
                            let s2 = s1.skip(n1);
                            V::app_shrinks(m, key, s2);
                            match V::app(m, key, s2) {
                                Option::Some((m2, s3)) => {
                                    lemma_next_token_bounds(s3);
                                },
                                _ => {},
                            }
                        },
                        _ => {},
                    }
                },
                _ => {},
            }
        },
        _ => {},
    }
}

/// A decided token consumes at most the remaining bytes, at least one
/// byte unless it is end of input, and everything when it is.
pub proof fn lemma_next_token_bounds(s: Seq<u8>)
    ensures
        spec_next_token(s) matches TokScan::Found(n, t) ==> 0 <= n <= s.len() && (!(t
            is EndOfInput) ==> n >= 1) && (t is EndOfInput ==> n == s.len()),
{
    if s.len() <= STREAM_CAP {
        crate::json::lemma_tok_window_bounds(s, s.len() < STREAM_CAP);
    } else {
        crate::json::lemma_tok_window_bounds(s.take(STREAM_CAP as int), false);
        crate::json::lemma_endofinput_needs_end(s.take(STREAM_CAP as int));
    }
}

/// After a refill, the tokenizer window of length `m` starting at the
/// cursor is exactly the window `spec_next_token` evaluates, and the
/// end-of-input flag is exact.
proof fn lemma_window_is_take<R: ByteSource>(s: JsonStream<R>, m: int)
    requires
        s.wf(),
        s.ready(),
        m == if s.buffer@.len() - s.start < STREAM_CAP {
            s.buffer@.len() - s.start
        } else {
            STREAM_CAP as int
        },
    ensures
        s.buffer@.subrange(s.start as int, s.start + m) == if s.remaining().len() <= STREAM_CAP {
            s.remaining()
        } else {
            s.remaining().take(STREAM_CAP as int)
        },
        (s.eof <==> s.remaining().len() < STREAM_CAP),
        spec_next_token(s.remaining()) == tok_window(
            s.buffer@.subrange(s.start as int, s.start + m),
            s.eof,
        ),
{
    let rem = s.remaining();
    let avail = s.buffer@.len() - s.start;
    if rem.len() < STREAM_CAP {
        assert(avail >= rem.len());
        assert(avail <= rem.len());
        assert(m == avail);
        assert(s.buffer@.subrange(s.start as int, s.start + m) =~= rem);
    } else {
        assert(avail >= STREAM_CAP);
        assert(m == STREAM_CAP as int);
        assert(s.buffer@.subrange(s.start as int, s.start + m) =~= rem.take(
            STREAM_CAP as int,
        ));
        if rem.len() == STREAM_CAP {
            assert(rem.take(STREAM_CAP as int) =~= rem);
        }
    }
}

/// Copy the suffix of a vector from an index.
fn vec_suffix(v: &Vec<u8>, start: usize) -> (r: Vec<u8>)
    requires
        start <= v@.len(),
    ensures
        r@ == v@.skip(start as int),
{
    let mut out: Vec<u8> = Vec::new();
    let mut i: usize = start;
    proof {
        assert(v@.subrange(start as int, start as int) =~= Seq::<u8>::empty());
    }
    while i < v.len()
        invariant
            start <= i <= v@.len(),
            out@ == v@.subrange(start as int, i as int),
        decreases v@.len() - i,
    {
        out.push(v[i]);
        proof {
            assert(v@.subrange(start as int, i + 1) =~= v@.subrange(start as int, i as int).push(
                v@[i as int],
            ));
        }
        i += 1;
    }
    proof {
        assert(v@.subrange(start as int, v@.len() as int) =~= v@.skip(start as int));
    }
    out
}

/// Equal sequences with the same prefix have equal suffixes.
proof fn lemma_concat_cancel_left(x: Seq<u8>, a: Seq<u8>, b: Seq<u8>)
    requires
        x + a == x + b,
    ensures
        a == b,
{
    broadcast use vstd::seq::group_seq_axioms;

    assert((x + a).len() == (x + b).len());
    assert((x + a).len() == x.len() + a.len());
    assert((x + b).len() == x.len() + b.len());
    assert(x.len() + a.len() == x.len() + b.len());
    assert(a =~= b) by {
        assert(forall|i: int|
            0 <= i < a.len() ==> #[trigger] a[i] == (x + a)[x.len() + i] && b[i] == (x
                + b)[x.len() + i]);
    }
}

/// A subrange of a slice.
fn slice_sub(x: &[u8], a: usize, b: usize) -> (r: &[u8])
    requires
        a <= b <= x@.len(),
    ensures
        r@ == x@.subrange(a as int, b as int),
{
    let (head, _) = x.split_at(b);
    let (_, mid) = head.split_at(a);
    proof {
        assert(x@.subrange(0, b as int).subrange(a as int, b as int) =~= x@.subrange(
            a as int,
            b as int,
        ));
        assert(x@.subrange(0, b as int).skip(a as int) =~= x@.subrange(0, b as int).subrange(
            a as int,
            b as int,
        ));
    }
    mid
}

} // verus!
