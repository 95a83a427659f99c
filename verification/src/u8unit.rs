//! The code-unit reassembler: turns a byte stream, delivered as a succession
//! of buffer fills of arbitrary size, into a stream of validated UTF-8-style
//! code units of one to four bytes, stitching together units that straddle
//! two fills.

use vstd::prelude::*;
use crate::parser::SyntaxError;
use crate::parser::malformed_byte_msg;
use crate::parser::truncated_input_msg;

verus! {

/// Byte length of the code unit introduced by the leading byte `b`,
/// determined by its high bits; `0` marks a byte that cannot lead a unit.
pub open spec fn spec_utf8_len(b: u8) -> nat {
    if b & 0x80u8 == 0x00u8 {
        1
    } else if b & 0xE0u8 == 0xC0u8 {
        2
    } else if b & 0xF0u8 == 0xE0u8 {
        3
    } else if b & 0xF8u8 == 0xF0u8 {
        4
    } else {
        0
    }
}

/// Classifies a leading byte: 1, 2, 3 or 4 for the length of the code unit
/// it introduces, 0 for a byte that cannot lead a unit (a continuation byte
/// `10xxxxxx` or an invalid `11111xxx` byte).
pub fn utf8_len(first: u8) -> (len: usize)
    ensures
        len == spec_utf8_len(first),
{
    if first & 0b1000_0000 == 0b0000_0000 {
        1
    } else if first & 0b1110_0000 == 0b1100_0000 {
        2
    } else if first & 0b1111_0000 == 0b1110_0000 {
        3
    } else if first & 0b1111_1000 == 0b1111_0000 {
        4
    } else {
        0
    }
}

/// One validated code unit: its variant says how many bytes it spans, and the
/// fields hold those bytes in stream order.
#[derive(Debug, PartialEq, Eq, Structural, Clone, Copy)]
pub enum U8Unit {
    OneByte(u8),
    TwoByte(u8, u8),
    ThreeByte(u8, u8, u8),
    FourByte(u8, u8, u8, u8),
}

impl U8Unit {
    /// The unit's bytes in stream order.
    pub open spec fn byte_seq(self) -> Seq<u8> {
        match self {
            U8Unit::OneByte(a) => seq![a],
            U8Unit::TwoByte(a, b) => seq![a, b],
            U8Unit::ThreeByte(a, b, c) => seq![a, b, c],
            U8Unit::FourByte(a, b, c, d) => seq![a, b, c, d],
        }
    }

    /// A unit is valid when its leading byte's classification matches the
    /// number of bytes it holds.
    pub open spec fn valid(self) -> bool {
        spec_utf8_len(self.byte_seq()[0]) == self.byte_seq().len()
    }

    /// Copies the unit's bytes out, in stream order.
    pub fn to_vec(&self) -> (v: Vec<u8>)
        ensures
            v@ == self.byte_seq(),
    {
        match self {
            U8Unit::OneByte(a) => vec![*a],
            U8Unit::TwoByte(a, b) => vec![*a, *b],
            U8Unit::ThreeByte(a, b, c) => vec![*a, *b, *c],
            U8Unit::FourByte(a, b, c, d) => vec![*a, *b, *c, *d],
        }
    }
}

/// The unit formed by a byte sequence of length 1 to 4.
pub open spec fn unit_of(s: Seq<u8>) -> U8Unit
    recommends
        1 <= s.len() <= 4,
{
    if s.len() <= 1 {
        U8Unit::OneByte(s[0])
    } else if s.len() == 2 {
        U8Unit::TwoByte(s[0], s[1])
    } else if s.len() == 3 {
        U8Unit::ThreeByte(s[0], s[1], s[2])
    } else {
        U8Unit::FourByte(s[0], s[1], s[2], s[3])
    }
}

/// Greedy decoding of a byte stream into code units: units are split off the
/// front as long as the leading byte classifies and the stream holds the whole
/// unit; decoding stops at a malformed leading byte or a truncated tail.
pub open spec fn decode_units(s: Seq<u8>) -> Seq<U8Unit>
    decreases s.len(),
{
    if s.len() == 0 {
        Seq::empty()
    } else {
        let l = spec_utf8_len(s[0]);
        if l == 0 || s.len() < l {
            Seq::empty()
        } else {
            seq![unit_of(s.take(l as int))] + decode_units(s.skip(l as int))
        }
    }
}

/// The bytes that [`decode_units`] leaves undecoded: empty for a clean
/// stream, otherwise the tail starting at the malformed leading byte or at
/// the truncated final unit.
pub open spec fn decode_rest(s: Seq<u8>) -> Seq<u8>
    decreases s.len(),
{
    if s.len() == 0 {
        s
    } else {
        let l = spec_utf8_len(s[0]);
        if l == 0 || s.len() < l {
            s
        } else {
            decode_rest(s.skip(l as int))
        }
    }
}

/// A stream is clean when it decodes completely into code units.
pub open spec fn stream_clean(s: Seq<u8>) -> bool {
    decode_rest(s).len() == 0
}

/// Splitting one full unit off the front commutes with appending more bytes
/// behind it: the unit is decoded first, and the rest decodes on its own.
pub proof fn lemma_decode_prepend_unit(u: Seq<u8>, rest: Seq<u8>)
    requires
        1 <= u.len() <= 4,
        spec_utf8_len(u[0]) == u.len(),
    ensures
        decode_units(u + rest) == seq![unit_of(u)] + decode_units(rest),
        decode_rest(u + rest) == decode_rest(rest),
{
    let s = u + rest;
    let l = spec_utf8_len(s[0]);
    assert(s[0] == u[0]);
    assert(l == u.len());
    assert(s.take(l as int) =~= u);
    assert(s.skip(l as int) =~= rest);
}

/// The concatenated bytes of a sequence of code units.
pub open spec fn units_bytes(us: Seq<U8Unit>) -> Seq<u8>
    decreases us.len(),
{
    if us.len() == 0 {
        Seq::empty()
    } else {
        us[0].byte_seq() + units_bytes(us.skip(1))
    }
}

/// The concatenation of a sequence of buffer fills.
pub open spec fn concat_all(fs: Seq<Seq<u8>>) -> Seq<u8>
    decreases fs.len(),
{
    if fs.len() == 0 {
        Seq::empty()
    } else {
        fs[0] + concat_all(fs.skip(1))
    }
}

/// A unit holds one to four bytes, and rebuilding it from its own bytes
/// gives it back.
pub proof fn lemma_unit_shape(u: U8Unit)
    ensures
        1 <= u.byte_seq().len() <= 4,
        unit_of(u.byte_seq()) == u,
{
    match u {
        U8Unit::OneByte(_) => {},
        U8Unit::TwoByte(_, _) => {},
        U8Unit::ThreeByte(_, _, _) => {},
        U8Unit::FourByte(_, _, _, _) => {},
    }
}

/// The bytes of concatenated unit sequences concatenate.
pub proof fn lemma_units_bytes_append(a: Seq<U8Unit>, b: Seq<U8Unit>)
    ensures
        units_bytes(a + b) == units_bytes(a) + units_bytes(b),
    decreases a.len(),
{
    if a.len() == 0 {
        assert(a + b =~= b);
        assert(units_bytes(a) + units_bytes(b) =~= units_bytes(b));
    } else {
        lemma_units_bytes_append(a.skip(1), b);
        assert((a + b).skip(1) =~= a.skip(1) + b);
        assert(units_bytes(a + b) =~= units_bytes(a) + units_bytes(b));
    }
}

/// A byte sequence of unit length rebuilds into a unit with those bytes.
pub proof fn lemma_unit_of_bytes(s: Seq<u8>)
    requires
        1 <= s.len() <= 4,
    ensures
        unit_of(s).byte_seq() == s,
{
    assert(unit_of(s).byte_seq() =~= s);
}

/// Decoding partitions a stream: the decoded units' bytes followed by the
/// undecoded rest give the stream back, and every decoded unit is valid.
pub proof fn lemma_decode_partition(s: Seq<u8>)
    ensures
        units_bytes(decode_units(s)) + decode_rest(s) == s,
        forall|k: int| 0 <= k < decode_units(s).len() ==> (#[trigger] decode_units(s)[k]).valid(),
    decreases s.len(),
{
    if s.len() == 0 {
        assert(units_bytes(decode_units(s)) + decode_rest(s) =~= s);
    } else {
        let l = spec_utf8_len(s[0]);
        if l == 0 || s.len() < l {
            assert(units_bytes(decode_units(s)) + decode_rest(s) =~= s);
        } else {
            lemma_decode_partition(s.skip(l as int));
            lemma_unit_of_bytes(s.take(l as int));
            let u = unit_of(s.take(l as int));
            assert(decode_units(s) == seq![u] + decode_units(s.skip(l as int)));
            assert(decode_units(s)[0] == u);
            assert(decode_units(s).skip(1) =~= decode_units(s.skip(l as int)));
            assert(units_bytes(decode_units(s)) == u.byte_seq() + units_bytes(
                decode_units(s.skip(l as int)),
            ));
            assert(u.byte_seq() == s.take(l as int));
            assert(decode_rest(s) == decode_rest(s.skip(l as int)));
            assert(s.take(l as int) + (units_bytes(decode_units(s.skip(l as int)))
                + decode_rest(s.skip(l as int))) =~= s);
            assert((s.take(l as int) + units_bytes(decode_units(s.skip(l as int))))
                + decode_rest(s.skip(l as int)) =~= s.take(l as int) + (units_bytes(
                decode_units(s.skip(l as int)),
            ) + decode_rest(s.skip(l as int))));
            assert(units_bytes(decode_units(s)) + decode_rest(s) =~= s);
            assert forall|k: int| 0 <= k < decode_units(s).len() implies (#[trigger] decode_units(
                s,
            )[k]).valid() by {
                if k == 0 {
                    assert(u.byte_seq()[0] == s[0]);
                } else {
                    assert(decode_units(s)[k] == decode_units(s.skip(l as int))[k - 1]);
                }
            }
        }
    }
}

/// Decoding skips over any prefix that is already split into valid units.
pub proof fn lemma_decode_prepend_units(us: Seq<U8Unit>, rest: Seq<u8>)
    requires
        forall|k: int| 0 <= k < us.len() ==> us[k].valid(),
    ensures
        decode_units(units_bytes(us) + rest) == us + decode_units(rest),
        decode_rest(units_bytes(us) + rest) == decode_rest(rest),
    decreases us.len(),
{
    if us.len() == 0 {
        assert(units_bytes(us) + rest =~= rest);
        assert(us + decode_units(rest) =~= decode_units(rest));
    } else {
        let u = us[0];
        lemma_unit_shape(u);
        lemma_decode_prepend_units(us.skip(1), rest);
        assert(units_bytes(us) + rest =~= u.byte_seq() + (units_bytes(us.skip(1)) + rest));
        lemma_decode_prepend_unit(u.byte_seq(), units_bytes(us.skip(1)) + rest);
        assert(seq![u] + (us.skip(1) + decode_units(rest)) =~= us + decode_units(rest));
    }
}

/// A fill sequence concatenates part by part.
pub proof fn lemma_concat_all_parts(fs: Seq<Seq<u8>>, i: int)
    requires
        0 <= i <= fs.len(),
    ensures
        concat_all(fs) == concat_all(fs.take(i)) + concat_all(fs.skip(i)),
    decreases i,
{
    if i == 0 {
        assert(fs.take(0) =~= Seq::<Seq<u8>>::empty());
        assert(fs.skip(0) =~= fs);
        assert(concat_all(fs) =~= concat_all(fs.take(0)) + concat_all(fs.skip(0)));
    } else {
        lemma_concat_all_parts(fs.skip(1), i - 1);
        assert(fs.skip(1).take(i - 1) =~= fs.take(i).skip(1));
        assert(fs.skip(1).skip(i - 1) =~= fs.skip(i));
        assert(fs.take(i)[0] == fs[0]);
        assert(concat_all(fs) =~= concat_all(fs.take(i)) + concat_all(fs.skip(i)));
    }
}

/// Appending a fill at the back appends its bytes at the back.
pub proof fn lemma_concat_all_snoc(fs: Seq<Seq<u8>>, f: Seq<u8>)
    ensures
        concat_all(fs.push(f)) == concat_all(fs) + f,
    decreases fs.len(),
{
    if fs.len() == 0 {
        assert(fs.push(f)[0] == f);
        assert(fs.push(f).skip(1) =~= Seq::<Seq<u8>>::empty());
        assert(concat_all(fs.push(f)) == f + concat_all(fs.push(f).skip(1)));
        assert(f + Seq::<u8>::empty() =~= Seq::<u8>::empty() + f);
        assert(concat_all(fs.push(f)) =~= concat_all(fs) + f);
    } else {
        lemma_concat_all_snoc(fs.skip(1), f);
        assert(fs.push(f).skip(1) =~= fs.skip(1).push(f));
        assert(fs.push(f)[0] == fs[0]);
        assert(concat_all(fs.push(f)) == fs[0] + concat_all(fs.skip(1).push(f)));
        assert(concat_all(fs) == fs[0] + concat_all(fs.skip(1)));
        assert(fs[0] + (concat_all(fs.skip(1)) + f) =~= (fs[0] + concat_all(fs.skip(1))) + f);
        assert(concat_all(fs.push(f)) == concat_all(fs) + f);
    }
}

/// A malformed leading byte stays where it is: bytes arriving behind it
/// leave the undecodable rest in place and merely lengthen it.
pub proof fn lemma_decode_rest_malformed_extend(p: Seq<u8>, e: Seq<u8>)
    requires
        decode_rest(p).len() > 0,
        spec_utf8_len(decode_rest(p)[0]) == 0,
    ensures
        decode_rest(p + e) == decode_rest(p) + e,
{
    lemma_decode_partition(p);
    let units = decode_units(p);
    let rest0 = decode_rest(p);
    assert(p + e =~= units_bytes(units) + (rest0 + e));
    lemma_decode_prepend_units(units, rest0 + e);
    assert((rest0 + e)[0] == rest0[0]);
    assert(decode_rest(rest0 + e) == rest0 + e);
}

/// The trailing bytes of a code unit that began at the end of one buffer
/// fill and must be completed from the next one: up to three stored bytes,
/// the unit's total declared length, and how many bytes are still missing.
struct Remain {
    /// Total byte length of the pending unit (2 to 4); 0 when no unit is
    /// pending.
    len: usize,
    /// How many of the unit's trailing bytes must still be read.
    append_len: usize,
    /// First stored byte (the unit's leading byte).
    a: u8,
    /// Second stored byte, when two or more are stored.
    b: u8,
    /// Third stored byte, when three are stored.
    c: u8,
}

impl Remain {
    /// A pending remainder is consistent: its declared length matches its
    /// leading byte's classification, at least one byte is stored, and at
    /// least one is still missing.
    closed spec fn wf(self) -> bool {
        self.len != 0 ==> {
            &&& 2 <= self.len <= 4
            &&& 1 <= self.append_len <= self.len - 1
            &&& spec_utf8_len(self.a) == self.len
        }
    }

    /// How many bytes of the pending unit are stored.
    closed spec fn stored(self) -> int {
        self.len - self.append_len
    }

    /// The stored bytes, in stream order.
    closed spec fn byte_seq(self) -> Seq<u8> {
        if self.len == 0 {
            Seq::empty()
        } else if self.stored() == 1 {
            seq![self.a]
        } else if self.stored() == 2 {
            seq![self.a, self.b]
        } else {
            seq![self.a, self.b, self.c]
        }
    }

    fn default() -> (r: Self)
        ensures
            r.wf(),
            r.len == 0,
    {
        Self { len: 0, append_len: 0, a: 0u8, b: 0u8, c: 0u8 }
    }

    fn is_empty(&self) -> (r: bool)
        ensures
            r == (self.len == 0),
    {
        self.len == 0
    }

    fn clear(&mut self)
        ensures
            final(self).len == 0,
            final(self).wf(),
    {
        self.len = 0
    }
}

/// Reassembles code units from a byte stream delivered fill by fill.
///
/// Bytes arrive through [`CharIterator::push_fill`]; [`CharIterator::next`]
/// hands out one complete code unit at a time and stashes the bytes of a
/// unit that straddles the end of the current fill until the next one
/// arrives.
pub struct CharIterator {
    /// The current buffer fill.
    buf: Vec<u8>,
    /// Index of the next unread byte of `buf`.
    cursor: usize,
    /// Bytes of a unit that began in the previous fill.
    remain: Remain,
}

impl CharIterator {
    pub closed spec fn wf(self) -> bool {
        &&& self.cursor <= self.buf@.len()
        &&& self.remain.wf()
    }

    /// The bytes received but not yet handed out as code units: the stored
    /// remainder of a straddling unit followed by the unread part of the
    /// current fill.
    pub closed spec fn pending(self) -> Seq<u8> {
        self.remain.byte_seq() + self.buf@.skip(self.cursor as int)
    }

    /// The current fill is fully consumed, so a new one may be pushed.
    pub closed spec fn exhausted(self) -> bool {
        self.cursor == self.buf@.len()
    }

    pub fn new() -> (r: Self)
        ensures
            r.wf(),
            r.exhausted(),
            r.pending() == Seq::<u8>::empty(),
    {
        let r = Self { buf: Vec::new(), cursor: 0, remain: Remain::default() };
        proof {
            assert(r.pending() =~= Seq::<u8>::empty());
        }
        r
    }

    /// True while bytes are pending, either unread in the current fill or
    /// stored as the remainder of a straddling unit.
    pub fn has_leftover(&self) -> (r: bool)
        requires
            self.wf(),
        ensures
            r == (self.pending().len() != 0),
    {
        !self.remain.is_empty() || self.cursor < self.buf.len()
    }

    /// Loads the next buffer fill. The previous fill must be exhausted; the
    /// stored remainder of a straddling unit is kept and completed by the
    /// following calls to `next`.
    pub fn push_fill(&mut self, data: &[u8])
        requires
            old(self).wf(),
            old(self).exhausted(),
        ensures
            final(self).wf(),
            final(self).pending() == old(self).pending() + data@,
    {
        self.buf = vstd::slice::slice_to_vec(data);
        self.cursor = 0;
        proof {
            assert(final(self).pending() =~= old(self).pending() + data@);
        }
    }

    fn get_byte(&self, index: usize) -> (r: u8)
        requires
            index < self.buf@.len(),
        ensures
            r == self.buf@[index as int],
    {
        self.buf[index]
    }

    /// Builds a unit that lies entirely inside the current fill and advances
    /// past it.
    fn cur_u8bytes(&mut self, chr_len: usize) -> (r: U8Unit)
        requires
            old(self).wf(),
            old(self).remain.len == 0,
            1 <= chr_len <= 4,
            old(self).cursor + chr_len <= old(self).buf@.len(),
        ensures
            final(self).wf(),
            final(self).remain.len == 0,
            r == unit_of(old(self).pending().take(chr_len as int)),
            r.byte_seq() == old(self).pending().take(chr_len as int),
            final(self).pending() == old(self).pending().skip(chr_len as int),
    {
        proof {
            assert(self.buf.len() == self.buf@.len());
        }
        let chr = match chr_len {
            1 => U8Unit::OneByte(self.get_byte(self.cursor)),
            2 => U8Unit::TwoByte(self.get_byte(self.cursor), self.get_byte(self.cursor + 1)),
            3 => U8Unit::ThreeByte(
                self.get_byte(self.cursor),
                self.get_byte(self.cursor + 1),
                self.get_byte(self.cursor + 2),
            ),
            _ => U8Unit::FourByte(
                self.get_byte(self.cursor),
                self.get_byte(self.cursor + 1),
                self.get_byte(self.cursor + 2),
                self.get_byte(self.cursor + 3),
            ),
        };
        proof {
            assert(old(self).pending() =~= old(self).buf@.skip(old(self).cursor as int));
            assert(chr.byte_seq() =~= old(self).pending().take(chr_len as int));
        }
        self.cursor = self.cursor + chr_len;
        proof {
            assert(final(self).pending() =~= old(self).pending().skip(chr_len as int));
        }
        chr
    }

    /// Completes the unit whose first bytes were stored at the end of the
    /// previous fill, taking the missing bytes from the current one.
    fn remain_u8bytes(&mut self) -> (r: U8Unit)
        requires
            old(self).wf(),
            old(self).remain.len != 0,
            old(self).cursor + old(self).remain.append_len <= old(self).buf@.len(),
        ensures
            final(self).wf(),
            final(self).remain.len == 0,
            r == unit_of(old(self).pending().take(old(self).remain.len as int)),
            r.byte_seq() == old(self).pending().take(old(self).remain.len as int),
            final(self).pending() == old(self).pending().skip(old(self).remain.len as int),
    {
        proof {
            assert(self.buf.len() == self.buf@.len());
        }
        let chr = match self.remain.len {
            2 => U8Unit::TwoByte(self.remain.a, self.get_byte(self.cursor)),
            3 => match self.remain.append_len {
                1 => U8Unit::ThreeByte(self.remain.a, self.remain.b, self.get_byte(self.cursor)),
                _ => U8Unit::ThreeByte(
                    self.remain.a,
                    self.get_byte(self.cursor),
                    self.get_byte(self.cursor + 1),
                ),
            },
            _ => match self.remain.append_len {
                1 => U8Unit::FourByte(
                    self.remain.a,
                    self.remain.b,
                    self.remain.c,
                    self.get_byte(self.cursor),
                ),
                2 => U8Unit::FourByte(
                    self.remain.a,
                    self.remain.b,
                    self.get_byte(self.cursor),
                    self.get_byte(self.cursor + 1),
                ),
                _ => U8Unit::FourByte(
                    self.remain.a,
                    self.get_byte(self.cursor),
                    self.get_byte(self.cursor + 1),
                    self.get_byte(self.cursor + 2),
                ),
            },
        };
        proof {
            assert(chr.byte_seq() =~= old(self).pending().take(old(self).remain.len as int));
        }
        self.cursor = self.cursor + self.remain.append_len;
        self.remain.clear();
        proof {
            assert(final(self).pending() =~= old(self).pending().skip(
                old(self).remain.len as int,
            ));
        }
        chr
    }

    /// Stores the bytes of a unit of declared length `len` whose tail lies
    /// beyond the current fill; `append_len` bytes are still missing.
    fn set_remain(&mut self, len: usize, append_len: usize)
        requires
            old(self).wf(),
            old(self).remain.len == 0,
            2 <= len <= 4,
            1 <= append_len <= len - 1,
            old(self).cursor + (len - append_len) == old(self).buf@.len(),
            spec_utf8_len(old(self).buf@[old(self).cursor as int]) == len,
        ensures
            final(self).wf(),
            final(self).remain.len == len,
            final(self).remain.append_len == append_len,
            final(self).buf == old(self).buf,
            final(self).cursor == old(self).cursor,
            final(self).remain.byte_seq() == old(self).buf@.skip(old(self).cursor as int),
    {
        let remain_len = len - append_len;
        proof {
            assert(self.buf.len() == self.buf@.len());
        }
        match remain_len {
            1 => {
                self.remain.a = self.get_byte(self.cursor);
            },
            2 => {
                self.remain.a = self.get_byte(self.cursor);
                self.remain.b = self.get_byte(self.cursor + 1);
            },
            _ => {
                self.remain.a = self.get_byte(self.cursor);
                self.remain.b = self.get_byte(self.cursor + 1);
                self.remain.c = self.get_byte(self.cursor + 2);
            },
        }
        self.remain.len = len;
        self.remain.append_len = append_len;
        proof {
            assert(final(self).remain.byte_seq() =~= old(self).buf@.skip(old(self).cursor as int));
        }
    }

    /// Absorbs a fill that is still too short to complete the pending unit:
    /// all its bytes join the stored remainder and the fill is exhausted.
    fn grow_remain(&mut self)
        requires
            old(self).wf(),
            old(self).remain.len != 0,
            1 <= old(self).buf@.len() - old(self).cursor < old(self).remain.append_len,
        ensures
            final(self).wf(),
            final(self).remain.len == old(self).remain.len,
            final(self).remain.append_len == old(self).remain.append_len - (old(
                self,
            ).buf@.len() - old(self).cursor),
            final(self).exhausted(),
            final(self).pending() == old(self).pending(),
    {
        let avail = self.buf.len() - self.cursor;
        let stored = self.remain.len - self.remain.append_len;
        if stored == 1 {
            self.remain.b = self.get_byte(self.cursor);
            if avail == 2 {
                self.remain.c = self.get_byte(self.cursor + 1);
            }
        } else {
            self.remain.c = self.get_byte(self.cursor);
        }
        self.remain.append_len = self.remain.append_len - avail;
        self.cursor = self.buf.len();
        proof {
            assert(final(self).pending() =~= old(self).pending());
        }
    }

    /// Hands out the next code unit.
    ///
    /// Returns `None` when the pending bytes hold no complete unit — the
    /// fill is then marked exhausted (stashing a straddling unit's bytes)
    /// so that the next fill may be pushed — and an error when the next
    /// pending byte cannot lead a unit.
    pub fn next(&mut self) -> (r: Option<Result<U8Unit, SyntaxError>>)
        requires
            old(self).wf(),
        ensures
            final(self).wf(),
            ({
                let p = old(self).pending();
                match r {
                    None => {
                        &&& final(self).pending() == p
                        &&& final(self).exhausted()
                        &&& (p.len() == 0 || (spec_utf8_len(p[0]) > 0 && p.len() < spec_utf8_len(
                            p[0],
                        )))
                    },
                    Some(Ok(u)) => {
                        let l = spec_utf8_len(p[0]);
                        &&& p.len() > 0
                        &&& 0 < l <= p.len()
                        &&& u == unit_of(p.take(l as int))
                        &&& u.byte_seq() == p.take(l as int)
                        &&& u.valid()
                        &&& final(self).pending() == p.skip(l as int)
                    },
                    Some(Err(e)) => {
                        &&& p.len() > 0
                        &&& spec_utf8_len(p[0]) == 0
                        &&& final(self).pending() == p
                        &&& e.msg@ == malformed_byte_msg()
                        &&& e.line_num == 0 && e.column_num == 0
                    },
                }
            }),
    {
        if !self.remain.is_empty() {
            let avail = self.buf.len() - self.cursor;
            if avail < self.remain.append_len {
                if avail > 0 {
                    self.grow_remain();
                }
                proof {
                    let p = old(self).pending();
                    assert(p[0] == old(self).remain.a);
                    assert(p.len() < old(self).remain.len);
                }
                return None;
            }
            proof {
                let p = old(self).pending();
                assert(p[0] == old(self).remain.a);
                assert(spec_utf8_len(p[0]) == old(self).remain.len);
                assert(p.len() >= old(self).remain.len);
            }
            return Some(Ok(self.remain_u8bytes()));
        }
        if self.cursor == self.buf.len() {
            proof {
                assert(old(self).pending().len() == 0);
            }
            return None;
        }
        let len = utf8_len(self.get_byte(self.cursor));
        proof {
            assert(old(self).pending() =~= old(self).buf@.skip(old(self).cursor as int));
            assert(old(self).pending()[0] == old(self).buf@[old(self).cursor as int]);
        }
        if len == 0 {
            return Some(
                Err(SyntaxError { msg: "malformed leading byte".to_owned(), line_num: 0, column_num: 0 }),
            );
        }
        let avail = self.buf.len() - self.cursor;
        if len > avail {
            self.set_remain(len, len - avail);
            self.cursor = self.buf.len();
            proof {
                assert(final(self).pending() =~= old(self).pending());
            }
            return None;
        }
        Some(Ok(self.cur_u8bytes(len)))
    }
}

/// Pulls every complete code unit out of `iter` and appends them to `out`,
/// stopping at a malformed leading byte.
fn drain_units(iter: &mut CharIterator, out: &mut Vec<U8Unit>) -> (r: Option<SyntaxError>)
    requires
        old(iter).wf(),
    ensures
        final(iter).wf(),
        final(out)@ == old(out)@ + decode_units(old(iter).pending()),
        forall|k: int|
            old(out)@.len() <= k < final(out)@.len() ==> (#[trigger] final(out)@[k]).valid(),
        forall|k: int| 0 <= k < old(out)@.len() ==> final(out)@[k] == old(out)@[k],
        ({
            let p0 = old(iter).pending();
            let pf = final(iter).pending();
            match r {
                None => {
                    &&& pf == decode_rest(p0)
                    &&& final(iter).exhausted()
                    &&& (pf.len() == 0 || (spec_utf8_len(pf[0]) > 0 && pf.len() < spec_utf8_len(
                        pf[0],
                    )))
                },
                Some(e) => {
                    &&& decode_rest(p0).len() > 0
                    &&& spec_utf8_len(decode_rest(p0)[0]) == 0
                    &&& e.msg@ == malformed_byte_msg()
                    &&& e.line_num == 0 && e.column_num == 0
                },
            }
        }),
{
    loop
        invariant
            iter.wf(),
            old(out)@ + decode_units(old(iter).pending()) == out@ + decode_units(iter.pending()),
            decode_rest(iter.pending()) == decode_rest(old(iter).pending()),
            forall|k: int| old(out)@.len() <= k < out@.len() ==> (#[trigger] out@[k]).valid(),
            out@.len() >= old(out)@.len(),
            forall|k: int| 0 <= k < old(out)@.len() ==> out@[k] == old(out)@[k],
        decreases iter.pending().len(),
    {
        let ghost p = iter.pending();
        match iter.next() {
            None => {
                proof {
                    assert(decode_units(p) =~= Seq::<U8Unit>::empty());
                    assert(decode_rest(p) == p);
                    assert(out@ + decode_units(iter.pending()) =~= out@);
                    assert(old(out)@ + decode_units(old(iter).pending()) =~= out@);
                }
                return None;
            },
            Some(Ok(u)) => {
                let ghost l = spec_utf8_len(p[0]) as int;
                out.push(u);
                proof {
                    assert(decode_units(p) == seq![u] + decode_units(p.skip(l)));
                    assert(decode_rest(p) == decode_rest(p.skip(l)));
                    assert(out@.drop_last() + (seq![u] + decode_units(p.skip(l))) =~= out@
                        + decode_units(p.skip(l)));
                }
            },
            Some(Err(e)) => {
                proof {
                    assert(decode_units(p) =~= Seq::<U8Unit>::empty());
                    assert(decode_rest(p) == p);
                    assert(out@ + decode_units(iter.pending()) =~= out@);
                    assert(old(out)@ + decode_units(old(iter).pending()) =~= out@);
                }
                return Some(e);
            },
        }
    }
}

/// Decodes a byte stream delivered as a sequence of buffer fills.
///
/// Buffer-boundary invariance: the contract speaks only of the fills'
/// concatenation, so any two ways of splitting the same bytes into fills
/// yield the same code units. Fails on a byte that cannot lead a unit and on
/// a stream that ends inside a unit.
pub fn units_from_fills(fills: &Vec<Vec<u8>>) -> (r: Result<Vec<U8Unit>, SyntaxError>)
    ensures
        ({
            let all = concat_all(fills.deep_view());
            match r {
                Ok(us) => stream_clean(all) && us@ == decode_units(all),
                Err(e) => {
                    &&& !stream_clean(all)
                    &&& e.line_num == 0 && e.column_num == 0
                    &&& (spec_utf8_len(decode_rest(all)[0]) == 0 ==> e.msg@
                        == malformed_byte_msg())
                    &&& (spec_utf8_len(decode_rest(all)[0]) != 0 ==> e.msg@
                        == truncated_input_msg())
                },
            }
        }),
{
    let ghost deep = fills.deep_view();
    let mut iter = CharIterator::new();
    let mut out: Vec<U8Unit> = Vec::new();
    let mut i: usize = 0;
    proof {
        assert(deep.take(0) =~= Seq::<Seq<u8>>::empty());
        assert(units_bytes(out@) + iter.pending() =~= concat_all(deep.take(0)));
    }
    while i < fills.len()
        invariant
            iter.wf(),
            iter.exhausted(),
            i <= fills@.len(),
            deep == fills.deep_view(),
            deep.len() == fills@.len(),
            forall|k: int| 0 <= k < out@.len() ==> (#[trigger] out@[k]).valid(),
            units_bytes(out@) + iter.pending() == concat_all(deep.take(i as int)),
            decode_rest(iter.pending()) == iter.pending(),
            iter.pending().len() == 0 || (spec_utf8_len(iter.pending()[0]) > 0
                && iter.pending().len() < spec_utf8_len(iter.pending()[0])),
        decreases fills@.len() - i,
    {
        let ghost pend0 = iter.pending();
        let ghost out0 = out@;
        iter.push_fill(fills[i].as_slice());
        proof {
            assert(deep[i as int] == fills@[i as int]@);
            assert(deep.take(i + 1) =~= deep.take(i as int).push(deep[i as int]));
            lemma_concat_all_snoc(deep.take(i as int), deep[i as int]);
            assert(units_bytes(out@) + iter.pending() =~= concat_all(deep.take(i + 1)));
        }
        let ghost p1 = iter.pending();
        match drain_units(&mut iter, &mut out) {
            Some(e) => {
                proof {
                    lemma_concat_all_parts(deep, i + 1);
                    lemma_decode_partition(p1);
                    let head = units_bytes(decode_units(p1));
                    let rest1 = decode_rest(p1);
                    let more = concat_all(deep.skip(i + 1));
                    assert(concat_all(deep) =~= units_bytes(out0) + (head + (rest1 + more)));
                    lemma_units_bytes_append(out0, decode_units(p1));
                    assert(units_bytes(out0) + (head + (rest1 + more)) =~= units_bytes(
                        out0 + decode_units(p1),
                    ) + (rest1 + more));
                    lemma_decode_prepend_units(out0 + decode_units(p1), rest1 + more);
                    assert((rest1 + more)[0] == rest1[0]);
                    assert(decode_rest(rest1 + more) == rest1 + more);
                    assert(decode_rest(concat_all(deep)) == rest1 + more);
                    assert(decode_rest(concat_all(deep)).len() > 0);
                    assert(decode_rest(concat_all(deep))[0] == rest1[0]);
                }
                return Err(e);
            },
            None => {},
        }
        proof {
            lemma_decode_partition(p1);
            lemma_units_bytes_append(out0, decode_units(p1));
            assert(units_bytes(out@) + iter.pending() =~= units_bytes(out0) + (units_bytes(
                decode_units(p1),
            ) + decode_rest(p1)));
            assert(units_bytes(out@) + iter.pending() =~= concat_all(deep.take(i + 1)));
        }
        i = i + 1;
    }
    proof {
        assert(deep.take(i as int) =~= deep);
    }
    if iter.has_leftover() {
        proof {
            lemma_decode_prepend_units(out@, iter.pending());
            assert(decode_rest(concat_all(deep)) == iter.pending());
        }
        return Err(
            SyntaxError {
                msg: "input ends inside a code unit".to_owned(),
                line_num: 0,
                column_num: 0,
            },
        );
    }
    proof {
        lemma_decode_prepend_units(out@, iter.pending());
        assert(iter.pending() =~= Seq::<u8>::empty());
        assert(units_bytes(out@) + iter.pending() =~= units_bytes(out@));
        assert(out@ + decode_units(iter.pending()) =~= out@);
        assert(decode_units(concat_all(deep)) == out@);
    }
    Ok(out)
}

} // verus!
