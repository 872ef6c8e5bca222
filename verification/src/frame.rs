//! Frame decoding: turning an incrementally fed byte stream into discrete
//! IMAP protocol units. A unit is either a complete line (through its CRLF)
//! or, after a line whose end announces a literal `{n}`, exactly `n` raw
//! bytes. The decoder buffers only the current incomplete unit and reports
//! an oversize condition instead of growing without bound; the caller then
//! degrades to pure byte relay.

use vstd::prelude::*;
use crate::bytes::{CR, LF, dec_val, is_numeral, parse_num, subvec};

verus! {

/// ASCII `{`.
pub const OPEN_BRACE: u8 = 123;
/// ASCII `}`.
pub const CLOSE_BRACE: u8 = 125;

/// Position of the first CRLF pair in `s` at or after `i`; `s.len()` if none.
pub open spec fn crlf_from(s: Seq<u8>, i: int) -> int
    decreases s.len() - i,
{
    if i < 0 || i + 2 > s.len() {
        s.len() as int
    } else if s[i] == CR && s[i + 1] == LF {
        i
    } else {
        crlf_from(s, i + 1)
    }
}

/// The result of `crlf_from` lies between `i` and `s.len()`, marks a CRLF
/// pair when it leaves two bytes of room, and no earlier position does.
pub proof fn lemma_crlf_from(s: Seq<u8>, i: int)
    requires
        0 <= i <= s.len(),
    ensures
        i <= crlf_from(s, i) <= s.len(),
        crlf_from(s, i) + 2 <= s.len() ==> s[crlf_from(s, i)] == CR && s[crlf_from(s, i) + 1]
            == LF,
        forall|j: int|
            i <= j < crlf_from(s, i) && j + 2 <= s.len() ==> !((#[trigger] s[j]) == CR && s[j + 1]
                == LF),
    decreases s.len() - i,
{
    if i + 2 <= s.len() && !(s[i] == CR && s[i + 1] == LF) {
        lemma_crlf_from(s, i + 1);
    }
}

/// First CRLF pair of `v` at or after `i`, as `crlf_from` gives it.
pub fn find_crlf(v: &Vec<u8>, i: usize) -> (r: usize)
    requires
        i <= v@.len(),
    ensures
        r == crlf_from(v@, i as int),
        i <= r <= v@.len(),
    decreases v@.len() - i,
{
    proof {
        lemma_crlf_from(v@, i as int);
    }
    if v.len() - i < 2 {
        v.len()
    } else if v[i] == CR && v[i + 1] == LF {
        i
    } else {
        find_crlf(v, i + 1)
    }
}

/// Index of the last occurrence of `b` in `s` at or before `i`; `-1` if none.
pub open spec fn last_byte_upto(s: Seq<u8>, b: u8, i: int) -> int
    decreases i + 1,
{
    if i < 0 || i >= s.len() {
        -1
    } else if s[i] == b {
        i
    } else {
        last_byte_upto(s, b, i - 1)
    }
}

/// Last occurrence of `b` in `v` at or before `i`, or `v.len()` when there is
/// none (so that the result stays a `usize`).
pub fn rfind_byte(v: &Vec<u8>, b: u8, i: usize) -> (r: usize)
    requires
        i < v@.len(),
    ensures
        last_byte_upto(v@, b, i as int) >= 0 ==> r == last_byte_upto(v@, b, i as int) && r <= i,
        last_byte_upto(v@, b, i as int) < 0 ==> r == v@.len(),
    decreases i,
{
    proof {
        reveal_with_fuel(last_byte_upto, 3);
    }
    if v[i] == b {
        i
    } else if i == 0 {
        v.len()
    } else {
        rfind_byte(v, b, i - 1)
    }
}

/// The literal length a line announces, if any: the line (CRLF already
/// stripped) ends in `{` digits `}`, with one to nine digits. IMAP uses this
/// to send `n` raw bytes after the line.
pub open spec fn literal_announce(line: Seq<u8>) -> Option<nat> {
    if line.len() < 3 || line.last() != CLOSE_BRACE {
        None
    } else {
        let o = last_byte_upto(line, OPEN_BRACE, line.len() - 2);
        if o >= 0 && is_numeral(line.subrange(o + 1, line.len() - 1)) {
            Some(dec_val(line.subrange(o + 1, line.len() - 1)))
        } else {
            None
        }
    }
}

/// Compute `literal_announce` on a line.
pub fn read_literal_announce(line: &Vec<u8>) -> (r: Option<u32>)
    ensures
        r is Some <==> literal_announce(line@) is Some,
        r is Some ==> r->0 == literal_announce(line@)->0,
{
    if line.len() < 3 {
        return None;
    }
    if line[line.len() - 1] != CLOSE_BRACE {
        return None;
    }
    let o = rfind_byte(line, OPEN_BRACE, line.len() - 2);
    if o >= line.len() {
        return None;
    }
    let digits = subvec(line, o + 1, line.len() - 1);
    parse_num(&digits)
}

/// One decoded protocol unit, or the reason none is available.
pub enum DecodeResult {
    /// A complete line, CRLF included.
    Line(Vec<u8>),
    /// The raw bytes of a literal a preceding line announced.
    Literal(Vec<u8>),
    /// More input is needed before a unit completes.
    Incomplete,
    /// The current unit cannot complete within the frame-size bound; the
    /// caller falls back to pure byte relay.
    Oversize,
}

/// Incremental decoder for one connection direction. `buf` holds the bytes
/// fed but not yet emitted; `pending_literal` is the count of raw literal
/// bytes the last emitted line announced and the stream still owes.
pub struct Decoder {
    pub buf: Vec<u8>,
    pub pending_literal: Option<usize>,
    pub max_frame: usize,
}

impl Decoder {
    /// A fresh decoder with the given frame-size bound.
    pub fn new(max_frame: usize) -> (r: Decoder)
        ensures
            r.buf@.len() == 0,
            r.pending_literal is None,
            r.max_frame == max_frame,
    {
        Decoder { buf: Vec::new(), pending_literal: None, max_frame }
    }

    /// Append newly read bytes; nothing is consumed or decoded yet.
    pub fn feed(&mut self, chunk: &Vec<u8>)
        ensures
            final(self).buf@ == old(self).buf@ + chunk@,
            final(self).pending_literal == old(self).pending_literal,
            final(self).max_frame == old(self).max_frame,
    {
        let mut k: usize = 0;
        while k < chunk.len()
            invariant
                k <= chunk@.len(),
                self.buf@ == old(self).buf@ + chunk@.subrange(0, k as int),
                self.pending_literal == old(self).pending_literal,
                self.max_frame == old(self).max_frame,
            decreases chunk.len() - k,
        {
            self.buf.push(chunk[k]);
            proof {
                assert(self.buf@ =~= old(self).buf@ + chunk@.subrange(0, k + 1 as int));
            }
            k += 1;
        }
        proof {
            assert(self.buf@ =~= old(self).buf@ + chunk@);
        }
    }

    /// Take every buffered byte out, leaving the decoder empty. Used when the
    /// caller degrades to pure relay after a decode error.
    pub fn drain(&mut self) -> (r: Vec<u8>)
        ensures
            r@ == old(self).buf@,
            final(self).buf@.len() == 0,
            final(self).pending_literal == old(self).pending_literal,
            final(self).max_frame == old(self).max_frame,
    {
        let r = subvec(&self.buf, 0, self.buf.len());
        proof {
            assert(old(self).buf@.subrange(0, old(self).buf@.len() as int) =~= old(self).buf@);
        }
        self.buf = Vec::new();
        r
    }

    /// Decode the next protocol unit out of the buffer, if one is complete.
    ///
    /// Whatever is emitted is an exact prefix of the buffer, and the buffer
    /// keeps the exact remainder: no byte is altered, dropped or reordered.
    pub fn next_unit(&mut self) -> (r: DecodeResult)
        ensures
            final(self).max_frame == old(self).max_frame,
            // emitted bytes are the exact consumed prefix
            r matches DecodeResult::Line(l) ==> old(self).buf@ == l@ + final(self).buf@,
            r matches DecodeResult::Literal(p) ==> old(self).buf@ == p@ + final(self).buf@,
            (r is Incomplete || r is Oversize) ==> *final(self) == *old(self),
            // literal mode: exactly the owed bytes come out
            (old(self).pending_literal matches Some(n) && old(self).buf@.len() >= n) ==> (
            r matches DecodeResult::Literal(p) && p@ == old(self).buf@.subrange(0, old(self).pending_literal->0 as int)
                && final(self).pending_literal is None),
            (old(self).pending_literal matches Some(n) && old(self).buf@.len() < n) ==> r is Incomplete,
            // line mode: a complete line through its CRLF comes out
            (old(self).pending_literal is None && crlf_from(old(self).buf@, 0) + 2 <= old(self).buf@.len()
                && !(literal_announce(old(self).buf@.subrange(0, crlf_from(old(self).buf@, 0))) matches Some(n)
                    && n > old(self).max_frame)) ==> (
            r matches DecodeResult::Line(l) && l@ == old(self).buf@.subrange(0, crlf_from(old(self).buf@, 0) + 2)
                && final(self).pending_literal == (match literal_announce(old(self).buf@.subrange(0, crlf_from(old(self).buf@, 0))) {
                    Option::Some(n) => Option::Some(n as usize),
                    Option::None => Option::<usize>::None,
                })),
            (old(self).pending_literal is None && crlf_from(old(self).buf@, 0) + 2 <= old(self).buf@.len()
                && (literal_announce(old(self).buf@.subrange(0, crlf_from(old(self).buf@, 0))) matches Some(n)
                    && n > old(self).max_frame)) ==> r is Oversize,
            // no complete line yet
            (old(self).pending_literal is None && crlf_from(old(self).buf@, 0) + 2 > old(self).buf@.len()
                && old(self).buf@.len() <= old(self).max_frame) ==> r is Incomplete,
            (old(self).pending_literal is None && crlf_from(old(self).buf@, 0) + 2 > old(self).buf@.len()
                && old(self).buf@.len() > old(self).max_frame) ==> r is Oversize,
    {
        match self.pending_literal {
            Option::Some(n) => {
                if self.buf.len() >= n {
                    let p = subvec(&self.buf, 0, n);
                    let rest = subvec(&self.buf, n, self.buf.len());
                    proof {
                        assert(old(self).buf@ =~= old(self).buf@.subrange(0, n as int) + old(
                            self,
                        ).buf@.subrange(n as int, old(self).buf@.len() as int));
                    }
                    self.buf = rest;
                    self.pending_literal = None;
                    DecodeResult::Literal(p)
                } else {
                    DecodeResult::Incomplete
                }
            },
            Option::None => {
                let p = find_crlf(&self.buf, 0);
                if self.buf.len() - p < 2 {
                    if self.buf.len() > self.max_frame {
                        DecodeResult::Oversize
                    } else {
                        DecodeResult::Incomplete
                    }
                } else {
                    let line = subvec(&self.buf, 0, p + 2);
                    let bare = subvec(&self.buf, 0, p);
                    proof {
                        assert(bare@ =~= line@.subrange(0, p as int));
                    }
                    let announce = read_literal_announce(&bare);
                    match announce {
                        Option::Some(n) => {
                            if n as usize > self.max_frame {
                                DecodeResult::Oversize
                            } else {
                                let rest = subvec(&self.buf, p + 2, self.buf.len());
                                proof {
                                    assert(old(self).buf@ =~= old(self).buf@.subrange(
                                        0,
                                        p + 2 as int,
                                    ) + old(self).buf@.subrange(
                                        p + 2 as int,
                                        old(self).buf@.len() as int,
                                    ));
                                }
                                self.buf = rest;
                                self.pending_literal = Some(n as usize);
                                DecodeResult::Line(line)
                            }
                        },
                        Option::None => {
                            let rest = subvec(&self.buf, p + 2, self.buf.len());
                            proof {
                                assert(old(self).buf@ =~= old(self).buf@.subrange(0, p + 2 as int)
                                    + old(self).buf@.subrange(
                                    p + 2 as int,
                                    old(self).buf@.len() as int,
                                ));
                            }
                            self.buf = rest;
                            DecodeResult::Line(line)
                        },
                    }
                }
            },
        }
    }
}

} // verus!
