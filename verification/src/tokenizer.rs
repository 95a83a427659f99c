//! The tokenizer: consumes the code-unit stream of a
//! [`crate::u8unit::CharIterator`] and produces line terminators, header
//! markers, and text, deciding with lookahead whether a run of `#` is a
//! header marker or literal text.

use vstd::prelude::*;
use crate::parser::SyntaxError;
use crate::parser::malformed_byte_msg;
use crate::parser::truncated_input_msg;
use crate::u8unit::CharIterator;
use crate::u8unit::U8Unit;
use crate::u8unit::decode_rest;
use crate::u8unit::decode_units;
use crate::u8unit::spec_utf8_len;
use crate::u8unit::unit_of;

verus! {

/// The byte `\n`.
pub const LF_BYTE: u8 = 10;

/// The byte `\r`.
pub const CR_BYTE: u8 = 13;

/// The byte `#`.
pub const HASH_BYTE: u8 = 35;

/// The byte of a single space.
pub const SPACE_BYTE: u8 = 32;

/// One token of the Markdown dialect: a header marker with its level
/// (1 to 6), a line terminator, a single text unit, or a run of text units
/// accumulated while a header hypothesis was being tested.
#[derive(Debug)]
pub enum Token {
    Header(u8),
    CR,
    LF,
    CRLF,
    Text(U8Unit),
    TextChunk(Vec<U8Unit>),
}

/// Mathematical image of a [`Token`]: the same shape with the chunk's units
/// as a sequence.
pub enum TokenV {
    Header(u8),
    CR,
    LF,
    CRLF,
    Text(U8Unit),
    Chunk(Seq<U8Unit>),
}

impl View for Token {
    type V = TokenV;

    open spec fn view(&self) -> TokenV {
        match self {
            Token::Header(l) => TokenV::Header(*l),
            Token::CR => TokenV::CR,
            Token::LF => TokenV::LF,
            Token::CRLF => TokenV::CRLF,
            Token::Text(u) => TokenV::Text(*u),
            Token::TextChunk(v) => TokenV::Chunk(v@),
        }
    }
}

/// What one call to [`Tokenizer::next`] produced: a token, a request for
/// more input, the end of the token stream, or an input fault.
pub enum NextToken {
    Tok(Token),
    NeedInput,
    End,
    Bad(SyntaxError),
}

/// Where the tokenizer stands between two tokens: scanning freely, holding
/// a `\r` whose successor decides between `CR` and `CRLF`, or inside a run
/// of `#` of the given length whose continuation decides between a header
/// marker and literal text.
#[derive(Clone, Copy, PartialEq, Eq, Structural)]
pub enum ScanMode {
    Idle,
    SeenCr,
    Hash(u8),
}

/// True when `u` is the single byte `b`.
pub open spec fn is_byte(u: U8Unit, b: u8) -> bool {
    u == U8Unit::OneByte(b)
}

/// Rank used to show that the tokenizing rules terminate: pending decisions
/// resolve toward `Idle`.
pub open spec fn mode_rank(mode: ScanMode) -> nat {
    match mode {
        ScanMode::Idle => 0,
        ScanMode::SeenCr => 1,
        ScanMode::Hash(_) => 2,
    }
}

/// The tokens produced from the unit stream `us`, starting with `cache`
/// units held from an unresolved run of `#` and the scanning position
/// `mode`. This is the tokenizer's whole behaviour, end-of-stream handling
/// included:
/// - a leftover cache is flushed as one `Chunk` before anything else;
/// - `\n` is `LF`; `\r` followed by `\n` is one `CRLF`, otherwise `CR`;
/// - a run of 1 to 6 `#` followed by a space is a `Header` of that level
///   (the space is consumed, the cached run discarded); a seventh `#` turns
///   the whole run into a `Chunk` of literal text, and scanning restarts
///   after it; any other continuation flushes the run as a `Chunk` and
///   rescans from that unit; a run that the stream's end cuts short yields
///   its `Header` and then the cached run as a `Chunk`;
/// - every other unit is `Text`.
pub open spec fn tok_from(cache: Seq<U8Unit>, mode: ScanMode, us: Seq<U8Unit>) -> Seq<TokenV>
    decreases us.len(), mode_rank(mode), cache.len(),
{
    match mode {
        ScanMode::SeenCr => {
            if us.len() > 0 && is_byte(us[0], LF_BYTE) {
                seq![TokenV::CRLF] + tok_from(cache, ScanMode::Idle, us.skip(1))
            } else {
                seq![TokenV::CR] + tok_from(cache, ScanMode::Idle, us)
            }
        },
        ScanMode::Hash(n) => {
            if us.len() == 0 {
                seq![TokenV::Header(n)] + tok_from(cache, ScanMode::Idle, us)
            } else if is_byte(us[0], HASH_BYTE) {
                if n >= 6 {
                    seq![TokenV::Chunk(cache.push(us[0]))] + tok_from(
                        Seq::empty(),
                        ScanMode::Idle,
                        us.skip(1),
                    )
                } else {
                    tok_from(cache.push(us[0]), ScanMode::Hash((n + 1) as u8), us.skip(1))
                }
            } else if is_byte(us[0], SPACE_BYTE) {
                seq![TokenV::Header(n)] + tok_from(Seq::empty(), ScanMode::Idle, us.skip(1))
            } else {
                tok_from(cache, ScanMode::Idle, us)
            }
        },
        ScanMode::Idle => {
            if cache.len() > 0 {
                seq![TokenV::Chunk(cache)] + tok_from(Seq::empty(), ScanMode::Idle, us)
            } else if us.len() == 0 {
                Seq::empty()
            } else if is_byte(us[0], LF_BYTE) {
                seq![TokenV::LF] + tok_from(cache, ScanMode::Idle, us.skip(1))
            } else if is_byte(us[0], CR_BYTE) {
                tok_from(cache, ScanMode::SeenCr, us.skip(1))
            } else if is_byte(us[0], HASH_BYTE) {
                tok_from(seq![us[0]], ScanMode::Hash(1), us.skip(1))
            } else {
                seq![TokenV::Text(us[0])] + tok_from(cache, ScanMode::Idle, us.skip(1))
            }
        },
    }
}

/// The tokens of a complete unit stream.
pub open spec fn tokens_of(us: Seq<U8Unit>) -> Seq<TokenV> {
    tok_from(Seq::empty(), ScanMode::Idle, us)
}

/// Consing one token onto a stream keeps the no-`CR`-then-`LF` property,
/// provided a consed `CR` is not followed directly by an `LF`.
proof fn lemma_adjacency_cons(t: TokenV, rest: Seq<TokenV>)
    requires
        forall|i: int|
            0 <= i && i + 1 < rest.len() && rest[i] is CR ==> !(#[trigger] rest[i + 1] is LF),
        t is CR ==> (rest.len() == 0 || !(rest[0] is LF)),
    ensures
        ({
            let out = seq![t] + rest;
            forall|i: int|
                0 <= i && i + 1 < out.len() && out[i] is CR ==> !(#[trigger] out[i + 1] is LF)
        }),
{
    let out = seq![t] + rest;
    assert forall|i: int|
        0 <= i && i + 1 < out.len() && out[i] is CR implies !(#[trigger] out[i + 1] is LF) by {
        if i == 0 {
            assert(out[0] == t);
            assert(out[1] == rest[0]);
        } else {
            assert(out[i] == rest[i - 1]);
            assert(rest[i - 1] is CR);
            assert((i - 1) + 1 < rest.len());
            assert(!(rest[(i - 1) + 1] is LF));
            assert(out[i + 1] == rest[i]);
        }
    }
}

/// A `\r\n` pair is never split: wherever the tokenizing rules emit a `CR`,
/// the token after it is not an `LF`.
pub proof fn lemma_crlf_never_split(cache: Seq<U8Unit>, mode: ScanMode, us: Seq<U8Unit>)
    ensures
        ({
            let out = tok_from(cache, mode, us);
            forall|i: int|
                0 <= i && i + 1 < out.len() && out[i] is CR ==> !(#[trigger] out[i + 1] is LF)
        }),
    decreases us.len(), mode_rank(mode), cache.len(),
{
    match mode {
        ScanMode::SeenCr => {
            if us.len() > 0 && is_byte(us[0], LF_BYTE) {
                lemma_crlf_never_split(cache, ScanMode::Idle, us.skip(1));
                lemma_adjacency_cons(TokenV::CRLF, tok_from(cache, ScanMode::Idle, us.skip(1)));
            } else {
                lemma_crlf_never_split(cache, ScanMode::Idle, us);
                lemma_tok_first_not_lf(cache, ScanMode::Idle, us);
                lemma_adjacency_cons(TokenV::CR, tok_from(cache, ScanMode::Idle, us));
            }
        },
        ScanMode::Hash(n) => {
            if us.len() == 0 {
                lemma_crlf_never_split(cache, ScanMode::Idle, us);
                lemma_adjacency_cons(TokenV::Header(n), tok_from(cache, ScanMode::Idle, us));
            } else if is_byte(us[0], HASH_BYTE) {
                if n >= 6 {
                    lemma_crlf_never_split(Seq::empty(), ScanMode::Idle, us.skip(1));
                    lemma_adjacency_cons(
                        TokenV::Chunk(cache.push(us[0])),
                        tok_from(Seq::empty(), ScanMode::Idle, us.skip(1)),
                    );
                } else {
                    lemma_crlf_never_split(
                        cache.push(us[0]),
                        ScanMode::Hash((n + 1) as u8),
                        us.skip(1),
                    );
                }
            } else if is_byte(us[0], SPACE_BYTE) {
                lemma_crlf_never_split(Seq::empty(), ScanMode::Idle, us.skip(1));
                lemma_adjacency_cons(
                    TokenV::Header(n),
                    tok_from(Seq::empty(), ScanMode::Idle, us.skip(1)),
                );
            } else {
                lemma_crlf_never_split(cache, ScanMode::Idle, us);
            }
        },
        ScanMode::Idle => {
            if cache.len() > 0 {
                lemma_crlf_never_split(Seq::empty(), ScanMode::Idle, us);
                lemma_adjacency_cons(
                    TokenV::Chunk(cache),
                    tok_from(Seq::empty(), ScanMode::Idle, us),
                );
            } else if us.len() == 0 {
            } else if is_byte(us[0], LF_BYTE) {
                lemma_crlf_never_split(cache, ScanMode::Idle, us.skip(1));
                lemma_adjacency_cons(TokenV::LF, tok_from(cache, ScanMode::Idle, us.skip(1)));
            } else if is_byte(us[0], CR_BYTE) {
                lemma_crlf_never_split(cache, ScanMode::SeenCr, us.skip(1));
            } else if is_byte(us[0], HASH_BYTE) {
                lemma_crlf_never_split(seq![us[0]], ScanMode::Hash(1), us.skip(1));
            } else {
                lemma_crlf_never_split(cache, ScanMode::Idle, us.skip(1));
                lemma_adjacency_cons(
                    TokenV::Text(us[0]),
                    tok_from(cache, ScanMode::Idle, us.skip(1)),
                );
            }
        },
    }
}

/// After a `CR` is emitted, scanning continues at a unit that is not `\n`
/// (or at the stream's end, or with a cached run still to flush), so the
/// next token cannot be a bare `LF`.
proof fn lemma_tok_first_not_lf(cache: Seq<U8Unit>, mode: ScanMode, us: Seq<U8Unit>)
    requires
        mode is Idle || mode is Hash,
        cache.len() > 0 || us.len() == 0 || !is_byte(us[0], LF_BYTE),
    ensures
        ({
            let out = tok_from(cache, mode, us);
            out.len() > 0 ==> !(out[0] is LF)
        }),
    decreases us.len(), mode_rank(mode), cache.len(),
{
    match mode {
        ScanMode::SeenCr => {},
        ScanMode::Hash(n) => {
            if us.len() == 0 {
            } else if is_byte(us[0], HASH_BYTE) {
                if n < 6 {
                    lemma_tok_first_not_lf(
                        cache.push(us[0]),
                        ScanMode::Hash((n + 1) as u8),
                        us.skip(1),
                    );
                }
            } else if is_byte(us[0], SPACE_BYTE) {
            } else {
                lemma_tok_first_not_lf(cache, ScanMode::Idle, us);
            }
        },
        ScanMode::Idle => {
            if cache.len() > 0 {
            } else if us.len() == 0 {
            } else if is_byte(us[0], CR_BYTE) {
                lemma_tok_first_not_cr_lf(cache, us.skip(1));
            } else if is_byte(us[0], HASH_BYTE) {
                lemma_tok_first_not_lf(seq![us[0]], ScanMode::Hash(1), us.skip(1));
            }
        },
    }
}

/// From `SeenCr`, the first token is `CRLF` or `CR`, never a bare `LF`.
proof fn lemma_tok_first_not_cr_lf(cache: Seq<U8Unit>, us: Seq<U8Unit>)
    ensures
        ({
            let out = tok_from(cache, ScanMode::SeenCr, us);
            out.len() > 0 ==> !(out[0] is LF)
        }),
{
}

/// Produces tokens from a byte stream delivered fill by fill through an
/// owned [`CharIterator`], suspending (`NeedInput`) whenever the next token
/// cannot be decided from the bytes seen so far.
pub struct Tokenizer {
    iter: CharIterator,
    /// Units held while a run of `#` is being tested as a header marker.
    cache: Vec<U8Unit>,
    /// The decision pending between two tokens.
    mode: ScanMode,
    /// A unit pulled from `iter` and handed back while resolving lookahead.
    lookahead: Option<U8Unit>,
}

impl Tokenizer {
    /// The handed-back unit, as a stream prefix.
    pub closed spec fn look_seq(self) -> Seq<U8Unit> {
        match self.lookahead {
            Some(u) => seq![u],
            None => Seq::empty(),
        }
    }

    /// The code units not yet consumed into tokens.
    pub closed spec fn units_ahead(self) -> Seq<U8Unit> {
        self.look_seq() + decode_units(self.iter.pending())
    }

    /// The code units not yet consumed into tokens, if the bytes `extra`
    /// arrived and the stream then ended.
    pub closed spec fn units_with(self, extra: Seq<u8>) -> Seq<U8Unit> {
        self.look_seq() + decode_units(self.iter.pending() + extra)
    }

    /// The received bytes that decode into no unit: empty until a malformed
    /// leading byte or a still-incomplete trailing unit is pending.
    pub closed spec fn rest_bytes(self) -> Seq<u8> {
        decode_rest(self.iter.pending())
    }

    /// The tokens still to come if the stream ended here.
    pub closed spec fn toks(self) -> Seq<TokenV> {
        tok_from(self.cache@, self.mode, self.units_ahead())
    }

    /// The tokens still to come if the bytes `extra` arrived and the stream
    /// then ended.
    pub closed spec fn toks_with(self, extra: Seq<u8>) -> Seq<TokenV> {
        tok_from(
            self.cache@,
            self.mode,
            self.look_seq() + decode_units(self.iter.pending() + extra),
        )
    }

    /// The undecodable rest if the bytes `extra` arrived.
    pub closed spec fn rest_with(self, extra: Seq<u8>) -> Seq<u8> {
        decode_rest(self.iter.pending() + extra)
    }

    pub closed spec fn wf(self) -> bool {
        &&& self.iter.wf()
        &&& (self.mode is SeenCr ==> self.cache@.len() == 0)
        &&& (match self.mode {
            ScanMode::Hash(n) => 1 <= n <= 6 && self.cache@.len() == n,
            _ => true,
        })
    }

    /// A new fill may be pushed.
    pub closed spec fn ready(self) -> bool {
        self.iter.exhausted()
    }

    /// No byte has been received and no decision is pending.
    pub closed spec fn fresh(self) -> bool {
        &&& self.cache@.len() == 0
        &&& self.mode is Idle
        &&& self.lookahead is None
        &&& self.iter.pending().len() == 0
    }

    pub fn new() -> (r: Self)
        ensures
            r.wf(),
            r.ready(),
            r.fresh(),
    {
        Self { iter: CharIterator::new(), cache: Vec::new(), mode: ScanMode::Idle, lookahead: None }
    }

    /// Loads the next buffer fill; the pending decision and cached units
    /// carry over unchanged.
    pub fn push_fill(&mut self, data: &[u8])
        requires
            old(self).wf(),
            old(self).ready(),
        ensures
            final(self).wf(),
            final(self).toks() == old(self).toks_with(data@),
            final(self).rest_bytes() == old(self).rest_with(data@),
            forall|e: Seq<u8>| final(self).toks_with(e) == old(self).toks_with(data@ + e),
            forall|e: Seq<u8>| final(self).rest_with(e) == old(self).rest_with(data@ + e),
    {
        let ghost p0 = self.iter.pending();
        self.iter.push_fill(data);
        proof {
            assert(self.iter.pending() + Seq::<u8>::empty() =~= self.iter.pending());
            assert forall|e: Seq<u8>| final(self).toks_with(e) == old(self).toks_with(
                data@ + e,
            ) by {
                assert((p0 + data@) + e =~= p0 + (data@ + e));
            }
            assert forall|e: Seq<u8>| final(self).rest_with(e) == old(self).rest_with(
                data@ + e,
            ) by {
                assert((p0 + data@) + e =~= p0 + (data@ + e));
            }
        }
    }
}

/// The tokens and rest of a tokenizer that has seen nothing are those of the
/// extra bytes alone.
pub proof fn lemma_fresh_toks(t: Tokenizer, extra: Seq<u8>)
    requires
        t.fresh(),
    ensures
        t.toks_with(extra) == tokens_of(decode_units(extra)),
        t.rest_with(extra) == decode_rest(extra),
{
    assert(t.iter.pending() =~= Seq::<u8>::empty());
    assert(t.iter.pending() + extra =~= extra);
    assert(t.look_seq() + decode_units(extra) =~= decode_units(extra));
    assert(t.cache@ =~= Seq::<U8Unit>::empty());
}

/// With no further bytes, the resumed token stream is the current one.
pub proof fn lemma_toks_with_nothing(t: Tokenizer)
    ensures
        t.toks_with(Seq::empty()) == t.toks(),
        t.rest_with(Seq::empty()) == t.rest_bytes(),
{
    assert(t.iter.pending() + Seq::<u8>::empty() =~= t.iter.pending());
}

impl Tokenizer {
    /// Takes the next code unit: the handed-back one if present, else one
    /// decoded from the pending bytes.
    fn pull(&mut self) -> (r: Option<Result<U8Unit, SyntaxError>>)
        requires
            old(self).wf(),
        ensures
            final(self).wf(),
            final(self).cache@ == old(self).cache@,
            final(self).mode == old(self).mode,
            final(self).rest_bytes() == old(self).rest_bytes(),
            forall|e: Seq<u8>| old(self).rest_with(e) == final(self).rest_with(e),
            match r {
                Some(Ok(u)) => {
                    &&& old(self).units_ahead().len() > 0
                    &&& u == old(self).units_ahead()[0]
                    &&& final(self).units_ahead() == old(self).units_ahead().skip(1)
                    &&& forall|e: Seq<u8>| old(self).units_with(e) == seq![u] + final(self).units_with(e)
                    &&& final(self).lookahead is None
                },
                Some(Err(e)) => {
                    &&& old(self).units_ahead().len() == 0
                    &&& old(self).rest_bytes().len() > 0
                    &&& spec_utf8_len(old(self).rest_bytes()[0]) == 0
                    &&& final(self).units_ahead() == old(self).units_ahead()
                    &&& e.msg@ == malformed_byte_msg()
                    &&& e.line_num == 0 && e.column_num == 0
                },
                None => {
                    &&& old(self).units_ahead().len() == 0
                    &&& final(self).units_ahead() == old(self).units_ahead()
                    &&& (old(self).rest_bytes().len() == 0 || spec_utf8_len(
                        old(self).rest_bytes()[0],
                    ) != 0)
                    &&& (final(self).iter.pending().len() == 0 || final(self).rest_bytes()
                        == final(self).iter.pending())
                    &&& final(self).ready()
                    &&& final(self).lookahead is None
                },
            },
    {
        if let Some(u) = self.lookahead {
            self.lookahead = None;
            proof {
                assert(old(self).units_ahead()[0] == u);
                assert(final(self).units_ahead() =~= old(self).units_ahead().skip(1));
                assert forall|e: Seq<u8>| old(self).units_with(e) == seq![u] + final(self).units_with(e) by {
                    assert(old(self).units_with(e) =~= seq![u] + final(self).units_with(e));
                }
            }
            return Some(Ok(u));
        }
        let ghost p = self.iter.pending();
        proof {
            assert(old(self).units_ahead() =~= decode_units(p));
        }
        match self.iter.next() {
            Some(Ok(u)) => {
                proof {
                    let l = spec_utf8_len(p[0]) as int;
                    assert(decode_units(p) == seq![unit_of(p.take(l))] + decode_units(p.skip(l)));
                    assert(decode_units(p)[0] == u);
                    assert(decode_units(p).skip(1) =~= decode_units(p.skip(l)));
                    assert(decode_rest(p) == decode_rest(p.skip(l)));
                    assert(final(self).units_ahead() =~= decode_units(p.skip(l)));
                    assert forall|e: Seq<u8>|
                        old(self).units_with(e) == seq![u] + final(self).units_with(e) && old(self).rest_with(e) == final(self).rest_with(e) by {
                        assert(p + e =~= p.take(l) + (p.skip(l) + e));
                        crate::u8unit::lemma_decode_prepend_unit(p.take(l), p.skip(l) + e);
                        assert(old(self).units_with(e) =~= seq![u] + final(self).units_with(e));
                    }
                }
                Some(Ok(u))
            },
            Some(Err(e)) => {
                proof {
                    assert(decode_units(p) =~= Seq::<U8Unit>::empty());
                    assert(decode_rest(p) == p);
                }
                Some(Err(e))
            },
            None => {
                proof {
                    assert(decode_units(p) =~= Seq::<U8Unit>::empty());
                    if p.len() != 0 {
                        assert(decode_rest(p) == p);
                    }
                }
                None
            },
        }
    }

    /// Hands a pulled unit back so that the next pull sees it again.
    fn unpull(&mut self, u: U8Unit)
        requires
            old(self).wf(),
            old(self).lookahead is None,
        ensures
            final(self).wf(),
            final(self).cache@ == old(self).cache@,
            final(self).mode == old(self).mode,
            final(self).rest_bytes() == old(self).rest_bytes(),
            final(self).units_ahead() == seq![u] + old(self).units_ahead(),
            forall|e: Seq<u8>| final(self).units_with(e) == seq![u] + old(self).units_with(e),
            forall|e: Seq<u8>| final(self).rest_with(e) == old(self).rest_with(e),
    {
        self.lookahead = Some(u);
        proof {
            assert(final(self).units_ahead() =~= seq![u] + old(self).units_ahead());
            assert forall|e: Seq<u8>|
                final(self).units_with(e) == seq![u] + old(self).units_with(e) by {
                assert(final(self).units_with(e) =~= seq![u] + old(self).units_with(e));
            }
        }
    }
}

impl Tokenizer {
    /// Produces the next token.
    ///
    /// `at_end` says that no further fill will be pushed; only then are a
    /// trailing `\r`, a trailing run of `#`, and the cached units resolved,
    /// and `End` marks the stream's end. With `at_end` false, `NeedInput`
    /// asks for the next fill instead, and an emitted token is one that any
    /// continuation of the stream would begin with. `Bad` reports a
    /// malformed leading byte, or, at the end, a stream cut off inside a
    /// code unit.
    pub fn next(&mut self, at_end: bool) -> (r: NextToken)
        requires
            old(self).wf(),
        ensures
            final(self).wf(),
            final(self).rest_bytes() == old(self).rest_bytes(),
            forall|e: Seq<u8>| final(self).rest_with(e) == old(self).rest_with(e),
            match r {
                NextToken::Tok(t) => old(self).toks() == seq![t@] + final(self).toks() && (!at_end
                    ==> forall|e: Seq<u8>|
                        old(self).toks_with(e) == seq![t@] + final(self).toks_with(e)),
                NextToken::NeedInput => !at_end && final(self).ready() && final(self).toks()
                    == old(self).toks() && forall|e: Seq<u8>|
                    final(self).toks_with(e) == old(self).toks_with(e),
                NextToken::End => at_end && old(self).toks().len() == 0 && old(self).rest_bytes().len() == 0 && final(self).toks() == old(self).toks() && final(self).ready(),
                NextToken::Bad(e) => {
                    &&& old(self).rest_bytes().len() > 0
                    &&& e.line_num == 0 && e.column_num == 0
                    &&& (spec_utf8_len(old(self).rest_bytes()[0]) == 0 ==> e.msg@
                        == malformed_byte_msg())
                    &&& (spec_utf8_len(old(self).rest_bytes()[0]) != 0 ==> at_end && e.msg@
                        == truncated_input_msg())
                },
            },
    {
        if self.cache.len() > 0 && matches!(self.mode, ScanMode::Idle) {
            let mut chunk: Vec<U8Unit> = Vec::new();
            core::mem::swap(&mut chunk, &mut self.cache);
            proof {
                assert(tok_from(chunk@, ScanMode::Idle, old(self).units_ahead()) == seq![
                    TokenV::Chunk(chunk@),
                ] + tok_from(Seq::empty(), ScanMode::Idle, old(self).units_ahead()));
                assert(self.cache@ =~= Seq::<U8Unit>::empty());
                assert forall|e: Seq<u8>|
                    old(self).toks_with(e) == seq![TokenV::Chunk(chunk@)] + final(self).toks_with(e) by {
                    assert(tok_from(chunk@, ScanMode::Idle, old(self).units_with(e)) == seq![
                        TokenV::Chunk(chunk@),
                    ] + tok_from(Seq::empty(), ScanMode::Idle, old(self).units_with(e)));
                    assert(final(self).units_with(e) == old(self).units_with(e));
                }
            }
            return NextToken::Tok(Token::TextChunk(chunk));
        }
        loop
            invariant
                self.wf(),
                self.rest_bytes() == old(self).rest_bytes(),
                forall|e: Seq<u8>| self.rest_with(e) == old(self).rest_with(e),
                tok_from(self.cache@, self.mode, self.units_ahead()) == old(self).toks(),
                !at_end ==> forall|e: Seq<u8>| #![trigger old(self).toks_with(e)]
                    tok_from(self.cache@, self.mode, self.units_with(e)) == old(self).toks_with(e),
                matches!(self.mode, ScanMode::Idle) ==> self.cache@.len() == 0,
            decreases self.units_ahead().len(),
        {
            let ghost pre = *self;
            let ghost c0 = self.cache@;
            let ghost m0 = self.mode;
            let ghost ua0 = self.units_ahead();
            match self.pull() {
                None => {
                    proof {
                        assert(ua0 =~= Seq::<U8Unit>::empty());
                    }
                    if !at_end {
                        return NextToken::NeedInput;
                    }
                    if self.iter.has_leftover() {
                        return NextToken::Bad(
                            SyntaxError {
                                msg: "input ends inside a code unit".to_owned(),
                                line_num: 0,
                                column_num: 0,
                            },
                        );
                    }
                    match self.mode {
                        ScanMode::Idle => {
                            proof {
                                assert(tok_from(c0, m0, ua0).len() == 0);
                            }
                            return NextToken::End;
                        },
                        ScanMode::SeenCr => {
                            self.mode = ScanMode::Idle;
                            proof {
                                assert(tok_from(c0, m0, ua0) == seq![TokenV::CR] + tok_from(
                                    c0,
                                    ScanMode::Idle,
                                    ua0,
                                ));
                                assert(self.units_ahead() == ua0);
                            }
                            return NextToken::Tok(Token::CR);
                        },
                        ScanMode::Hash(n) => {
                            self.mode = ScanMode::Idle;
                            proof {
                                assert(tok_from(c0, m0, ua0) == seq![TokenV::Header(n)]
                                    + tok_from(c0, ScanMode::Idle, ua0));
                                assert(self.units_ahead() == ua0);
                            }
                            return NextToken::Tok(Token::Header(n));
                        },
                    }
                },
                Some(Err(e)) => {
                    return NextToken::Bad(e);
                },
                Some(Ok(u)) => {
                    proof {
                        assert(ua0.len() > 0 && ua0[0] == u);
                        assert(self.units_ahead() == ua0.skip(1));
                    }
                    match self.mode {
                        ScanMode::Idle => {
                            let text = match u {
                                U8Unit::OneByte(b) => {
                                    if b == LF_BYTE {
                                        proof {
                                            assert(is_byte(ua0[0], LF_BYTE));
                                            assert(tok_from(c0, m0, ua0) == seq![TokenV::LF]
                                                + tok_from(c0, ScanMode::Idle, ua0.skip(1)));
                                            if !at_end {
                                                assert forall|e: Seq<u8>|
                                                    old(self).toks_with(e) == seq![TokenV::LF] + final(self).toks_with(e) by {
                                                    assert(tok_from(c0, m0, pre.units_with(e)) == old(self).toks_with(e));
                                                    assert(pre.units_with(e) == seq![u] + self.units_with(e));
                                                assert(pre.units_with(e).len() > 0);
                                                assert(pre.units_with(e)[0] == u);
                                                assert(pre.units_with(e).skip(1) =~= self.units_with(e));
                                                    assert(tok_from(c0, m0, pre.units_with(e))
                                                        == seq![TokenV::LF] + tok_from(
                                                        c0,
                                                        ScanMode::Idle,
                                                        self.units_with(e),
                                                    ));
                                                }
                                            }
                                        }
                                        return NextToken::Tok(Token::LF);
                                    } else if b == CR_BYTE {
                                        self.mode = ScanMode::SeenCr;
                                        proof {
                                            assert(is_byte(ua0[0], CR_BYTE));
                                            assert(!is_byte(ua0[0], LF_BYTE));
                                            assert(tok_from(c0, m0, ua0) == tok_from(
                                                c0,
                                                ScanMode::SeenCr,
                                                ua0.skip(1),
                                            ));
                                            if !at_end {
                                                assert forall|e: Seq<u8>|
                                                    tok_from(self.cache@, self.mode, self.units_with(e))
                                                        == old(self).toks_with(e) by {
                                                    assert(tok_from(c0, m0, pre.units_with(e)) == old(self).toks_with(e));
                                                    assert(pre.units_with(e) == seq![u] + self.units_with(e));
                                                assert(pre.units_with(e).len() > 0);
                                                assert(pre.units_with(e)[0] == u);
                                                assert(pre.units_with(e).skip(1) =~= self.units_with(e));
                                                    assert(tok_from(c0, m0, pre.units_with(e))
                                                        == tok_from(
                                                        c0,
                                                        ScanMode::SeenCr,
                                                        self.units_with(e),
                                                    ));
                                                }
                                            }
                                        }
                                        false
                                    } else if b == HASH_BYTE {
                                        self.cache.push(u);
                                        self.mode = ScanMode::Hash(1);
                                        proof {
                                            assert(is_byte(ua0[0], HASH_BYTE));
                                            assert(!is_byte(ua0[0], LF_BYTE));
                                            assert(!is_byte(ua0[0], CR_BYTE));
                                            assert(self.cache@ =~= seq![ua0[0]]);
                                            assert(tok_from(c0, m0, ua0) == tok_from(
                                                seq![ua0[0]],
                                                ScanMode::Hash(1),
                                                ua0.skip(1),
                                            ));
                                            if !at_end {
                                                assert forall|e: Seq<u8>|
                                                    tok_from(self.cache@, self.mode, self.units_with(e))
                                                        == old(self).toks_with(e) by {
                                                    assert(tok_from(c0, m0, pre.units_with(e)) == old(self).toks_with(e));
                                                    assert(pre.units_with(e) == seq![u] + self.units_with(e));
                                                assert(pre.units_with(e).len() > 0);
                                                assert(pre.units_with(e)[0] == u);
                                                assert(pre.units_with(e).skip(1) =~= self.units_with(e));
                                                    assert(tok_from(c0, m0, pre.units_with(e))
                                                        == tok_from(
                                                        seq![u],
                                                        ScanMode::Hash(1),
                                                        self.units_with(e),
                                                    ));
                                                }
                                            }
                                        }
                                        false
                                    } else {
                                        proof {
                                            assert(!is_byte(ua0[0], LF_BYTE));
                                            assert(!is_byte(ua0[0], CR_BYTE));
                                            assert(!is_byte(ua0[0], HASH_BYTE));
                                        }
                                        true
                                    }
                                },
                                _ => {
                                    proof {
                                        assert(!is_byte(ua0[0], LF_BYTE));
                                        assert(!is_byte(ua0[0], CR_BYTE));
                                        assert(!is_byte(ua0[0], HASH_BYTE));
                                    }
                                    true
                                },
                            };
                            if text {
                                proof {
                                    assert(tok_from(c0, m0, ua0) == seq![TokenV::Text(ua0[0])]
                                        + tok_from(c0, ScanMode::Idle, ua0.skip(1)));
                                    if !at_end {
                                        assert forall|e: Seq<u8>|
                                            old(self).toks_with(e) == seq![TokenV::Text(u)] + final(self).toks_with(e) by {
                                                    assert(tok_from(c0, m0, pre.units_with(e)) == old(self).toks_with(e));
                                            assert(pre.units_with(e) == seq![u] + self.units_with(e));
                                                assert(pre.units_with(e).len() > 0);
                                                assert(pre.units_with(e)[0] == u);
                                                assert(pre.units_with(e).skip(1) =~= self.units_with(e));
                                            assert(tok_from(c0, m0, pre.units_with(e)) == seq![
                                                TokenV::Text(u),
                                            ] + tok_from(c0, ScanMode::Idle, self.units_with(e)));
                                        }
                                    }
                                }
                                return NextToken::Tok(Token::Text(u));
                            }
                        },
                        ScanMode::SeenCr => {
                            if matches!(u, U8Unit::OneByte(b) if b == LF_BYTE) {
                                self.mode = ScanMode::Idle;
                                proof {
                                    assert(is_byte(ua0[0], LF_BYTE));
                                    assert(tok_from(c0, m0, ua0) == seq![TokenV::CRLF] + tok_from(
                                        c0,
                                        ScanMode::Idle,
                                        ua0.skip(1),
                                    ));
                                    if !at_end {
                                        assert forall|e: Seq<u8>|
                                            old(self).toks_with(e) == seq![TokenV::CRLF] + final(self).toks_with(e) by {
                                                    assert(tok_from(c0, m0, pre.units_with(e)) == old(self).toks_with(e));
                                            assert(pre.units_with(e) == seq![u] + self.units_with(e));
                                                assert(pre.units_with(e).len() > 0);
                                                assert(pre.units_with(e)[0] == u);
                                                assert(pre.units_with(e).skip(1) =~= self.units_with(e));
                                            assert(tok_from(c0, m0, pre.units_with(e)) == seq![
                                                TokenV::CRLF,
                                            ] + tok_from(c0, ScanMode::Idle, self.units_with(e)));
                                        }
                                    }
                                }
                                return NextToken::Tok(Token::CRLF);
                            } else {
                                self.mode = ScanMode::Idle;
                                self.unpull(u);
                                proof {
                                    assert(!is_byte(ua0[0], LF_BYTE));
                                    assert(self.units_ahead() =~= ua0);
                                    assert(tok_from(c0, m0, ua0) == seq![TokenV::CR] + tok_from(
                                        c0,
                                        ScanMode::Idle,
                                        ua0,
                                    ));
                                    if !at_end {
                                        assert forall|e: Seq<u8>|
                                            old(self).toks_with(e) == seq![TokenV::CR] + final(self).toks_with(e) by {
                                                    assert(tok_from(c0, m0, pre.units_with(e)) == old(self).toks_with(e));
                                            assert(self.units_with(e) =~= pre.units_with(e));
                                            assert(pre.units_with(e).len() > 0 && pre.units_with(
                                                e,
                                            )[0] == u);
                                            assert(tok_from(c0, m0, pre.units_with(e)) == seq![
                                                TokenV::CR,
                                            ] + tok_from(c0, ScanMode::Idle, pre.units_with(e)));
                                        }
                                    }
                                }
                                return NextToken::Tok(Token::CR);
                            }
                        },
                        ScanMode::Hash(n) => {
                            if matches!(u, U8Unit::OneByte(b) if b == HASH_BYTE) {
                                self.cache.push(u);
                                if n >= 6 {
                                    let mut chunk: Vec<U8Unit> = Vec::new();
                                    core::mem::swap(&mut chunk, &mut self.cache);
                                    self.mode = ScanMode::Idle;
                                    proof {
                                        assert(is_byte(ua0[0], HASH_BYTE));
                                        assert(chunk@ =~= c0.push(ua0[0]));
                                        assert(self.cache@ =~= Seq::<U8Unit>::empty());
                                        assert(tok_from(c0, m0, ua0) == seq![
                                            TokenV::Chunk(c0.push(ua0[0])),
                                        ] + tok_from(Seq::empty(), ScanMode::Idle, ua0.skip(1)));
                                        if !at_end {
                                            assert forall|e: Seq<u8>|
                                                old(self).toks_with(e) == seq![TokenV::Chunk(chunk@)]
                                                    + final(self).toks_with(e) by {
                                                    assert(tok_from(c0, m0, pre.units_with(e)) == old(self).toks_with(e));
                                                assert(pre.units_with(e) == seq![u] + self.units_with(e));
                                                assert(pre.units_with(e).len() > 0);
                                                assert(pre.units_with(e)[0] == u);
                                                assert(pre.units_with(e).skip(1) =~= self.units_with(e));
                                                assert(tok_from(c0, m0, pre.units_with(e)) == seq![
                                                    TokenV::Chunk(c0.push(u)),
                                                ] + tok_from(
                                                    Seq::empty(),
                                                    ScanMode::Idle,
                                                    self.units_with(e),
                                                ));
                                            }
                                        }
                                    }
                                    return NextToken::Tok(Token::TextChunk(chunk));
                                } else {
                                    self.mode = ScanMode::Hash(n + 1);
                                    proof {
                                        assert(is_byte(ua0[0], HASH_BYTE));
                                        assert(self.cache@ =~= c0.push(ua0[0]));
                                        assert(tok_from(c0, m0, ua0) == tok_from(
                                            c0.push(ua0[0]),
                                            ScanMode::Hash((n + 1) as u8),
                                            ua0.skip(1),
                                        ));
                                        if !at_end {
                                            assert forall|e: Seq<u8>|
                                                tok_from(self.cache@, self.mode, self.units_with(e))
                                                    == old(self).toks_with(e) by {
                                                    assert(tok_from(c0, m0, pre.units_with(e)) == old(self).toks_with(e));
                                                assert(pre.units_with(e) == seq![u] + self.units_with(e));
                                                assert(pre.units_with(e).len() > 0);
                                                assert(pre.units_with(e)[0] == u);
                                                assert(pre.units_with(e).skip(1) =~= self.units_with(e));
                                                assert(tok_from(c0, m0, pre.units_with(e))
                                                    == tok_from(
                                                    c0.push(u),
                                                    ScanMode::Hash((n + 1) as u8),
                                                    self.units_with(e),
                                                ));
                                            }
                                        }
                                    }
                                }
                            } else if matches!(u, U8Unit::OneByte(b) if b == SPACE_BYTE) {
                                self.cache.clear();
                                self.mode = ScanMode::Idle;
                                proof {
                                    assert(is_byte(ua0[0], SPACE_BYTE));
                                    assert(!is_byte(ua0[0], HASH_BYTE));
                                    assert(self.cache@ =~= Seq::<U8Unit>::empty());
                                    assert(tok_from(c0, m0, ua0) == seq![TokenV::Header(n)]
                                        + tok_from(Seq::empty(), ScanMode::Idle, ua0.skip(1)));
                                    if !at_end {
                                        assert forall|e: Seq<u8>|
                                            old(self).toks_with(e) == seq![TokenV::Header(n)] + final(self).toks_with(e) by {
                                                    assert(tok_from(c0, m0, pre.units_with(e)) == old(self).toks_with(e));
                                            assert(pre.units_with(e) == seq![u] + self.units_with(e));
                                                assert(pre.units_with(e).len() > 0);
                                                assert(pre.units_with(e)[0] == u);
                                                assert(pre.units_with(e).skip(1) =~= self.units_with(e));
                                            assert(tok_from(c0, m0, pre.units_with(e)) == seq![
                                                TokenV::Header(n),
                                            ] + tok_from(
                                                Seq::empty(),
                                                ScanMode::Idle,
                                                self.units_with(e),
                                            ));
                                        }
                                    }
                                }
                                return NextToken::Tok(Token::Header(n));
                            } else {
                                let mut chunk: Vec<U8Unit> = Vec::new();
                                core::mem::swap(&mut chunk, &mut self.cache);
                                self.mode = ScanMode::Idle;
                                self.unpull(u);
                                proof {
                                    assert(!is_byte(ua0[0], HASH_BYTE));
                                    assert(!is_byte(ua0[0], SPACE_BYTE));
                                    assert(chunk@ =~= c0);
                                    assert(self.cache@ =~= Seq::<U8Unit>::empty());
                                    assert(self.units_ahead() =~= ua0);
                                    assert(tok_from(c0, m0, ua0) == tok_from(c0, ScanMode::Idle, ua0));
                                    assert(tok_from(c0, ScanMode::Idle, ua0) == seq![
                                        TokenV::Chunk(c0),
                                    ] + tok_from(Seq::empty(), ScanMode::Idle, ua0));
                                    if !at_end {
                                        assert forall|e: Seq<u8>|
                                            old(self).toks_with(e) == seq![TokenV::Chunk(chunk@)] + final(self).toks_with(e) by {
                                                    assert(tok_from(c0, m0, pre.units_with(e)) == old(self).toks_with(e));
                                            assert(self.units_with(e) =~= pre.units_with(e));
                                            assert(pre.units_with(e).len() > 0 && pre.units_with(
                                                e,
                                            )[0] == u);
                                            assert(tok_from(c0, m0, pre.units_with(e)) == tok_from(
                                                c0,
                                                ScanMode::Idle,
                                                pre.units_with(e),
                                            ));
                                            assert(tok_from(c0, ScanMode::Idle, pre.units_with(e))
                                                == seq![TokenV::Chunk(c0)] + tok_from(
                                                Seq::empty(),
                                                ScanMode::Idle,
                                                pre.units_with(e),
                                            ));
                                        }
                                    }
                                }
                                return NextToken::Tok(Token::TextChunk(chunk));
                            }
                        },
                    }
                },
            }
        }
    }
}

/// Once the tokenizer's pending bytes start with a malformed leading byte,
/// no later fill can mend them: the undecodable rest keeps its head.
pub proof fn lemma_rest_with_malformed(t: Tokenizer, e: Seq<u8>)
    requires
        t.rest_bytes().len() > 0,
        spec_utf8_len(t.rest_bytes()[0]) == 0,
    ensures
        t.rest_with(e) == t.rest_bytes() + e,
{
    crate::u8unit::lemma_decode_rest_malformed_extend(t.iter.pending(), e);
}

} // verus!
