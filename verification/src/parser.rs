//! The parser state machine: consumes the token stream and drives HTML
//! emission through a [`crate::mapper::Mapper`].

use vstd::prelude::*;
use crate::mapper::Mapper;
use crate::mapper::br_bytes;
use crate::mapper::fake_header_bytes;
use crate::mapper::p_end_bytes;
use crate::mapper::p_start_bytes;
use crate::schema::Schema;
use crate::schema::header_end_bytes;
use crate::schema::header_start_bytes;
use crate::tokenizer::NextToken;
use crate::tokenizer::Token;
use crate::tokenizer::TokenV;
use crate::tokenizer::Tokenizer;
use crate::tokenizer::tokens_of;
use crate::u8unit::U8Unit;
use crate::u8unit::decode_rest;
use crate::u8unit::decode_units;
use crate::u8unit::spec_utf8_len;
use crate::u8unit::units_bytes;
use crate::writer::Writer;

verus! {

/// Message carried by a [`SyntaxError`] for a byte that cannot lead a code
/// unit.
pub open spec fn malformed_byte_msg() -> Seq<char> {
    "malformed leading byte"@
}

/// Message carried by a [`SyntaxError`] for input that ends in the middle of
/// a multi-byte code unit.
pub open spec fn truncated_input_msg() -> Seq<char> {
    "input ends inside a code unit"@
}

/// A fault in the input byte stream: a malformed leading byte or a stream
/// that ends in the middle of a code unit.
#[derive(Debug)]
pub struct SyntaxError {
    pub msg: String,
    pub line_num: u32,
    pub column_num: u32,
}

/// Terminal error of a parse run.
#[derive(Debug)]
pub enum ParserError {
    SyntaxError(SyntaxError),
    IoError(String),
}

/// The parser's current position in a line: at its start, inside a heading
/// of the given level, inside a paragraph, or past the end of the input.
#[derive(Clone, Copy, Debug)]
pub enum State {
    LineStart,
    HeaderMark(u8),
    Paragraph,
    EOF,
}

impl State {
    /// True exactly on `HeaderMark`.
    pub fn is_mark_state(self) -> (r: bool)
        ensures
            r == (self is HeaderMark),
    {
        matches!(self, Self::HeaderMark(_))
    }

    /// True exactly on `EOF`.
    pub fn is_eof(self) -> (r: bool)
        ensures
            r == (self is EOF),
    {
        matches!(self, Self::EOF)
    }
}

/// The state after `st` consumes the token `t`, following the transition
/// table: a header marker opens a heading, content opens a paragraph, a
/// line terminator returns to the line start, and a marker inside a line is
/// reproduced literally without a state change.
pub open spec fn next_state(st: State, t: TokenV) -> State {
    match st {
        State::LineStart => match t {
            TokenV::Header(n) => State::HeaderMark(n),
            TokenV::Text(_) => State::Paragraph,
            TokenV::Chunk(_) => State::Paragraph,
            _ => State::LineStart,
        },
        State::HeaderMark(_) => match t {
            TokenV::LF => State::LineStart,
            TokenV::CR => State::LineStart,
            TokenV::CRLF => State::LineStart,
            _ => st,
        },
        State::Paragraph => match t {
            TokenV::LF => State::LineStart,
            TokenV::CR => State::LineStart,
            TokenV::CRLF => State::LineStart,
            _ => st,
        },
        State::EOF => State::EOF,
    }
}

/// The bytes written when `st` consumes the token `t`: tags come from the
/// schema `S`, content passes through verbatim, and a paragraph's start tag
/// is written when content first opens it.
pub open spec fn emit<S: Schema>(st: State, t: TokenV) -> Seq<u8> {
    match st {
        State::LineStart => match t {
            TokenV::Header(n) => header_start_bytes::<S>(n),
            TokenV::Text(u) => p_start_bytes() + u.byte_seq(),
            TokenV::Chunk(us) => p_start_bytes() + units_bytes(us),
            TokenV::LF => br_bytes(),
            TokenV::CR => br_bytes(),
            TokenV::CRLF => br_bytes(),
        },
        State::HeaderMark(n) => match t {
            TokenV::Header(m) => fake_header_bytes(m),
            TokenV::Text(u) => u.byte_seq(),
            TokenV::Chunk(us) => units_bytes(us),
            TokenV::LF => header_end_bytes::<S>(n) + br_bytes(),
            TokenV::CR => header_end_bytes::<S>(n) + br_bytes(),
            TokenV::CRLF => header_end_bytes::<S>(n) + br_bytes(),
        },
        State::Paragraph => match t {
            TokenV::Header(m) => fake_header_bytes(m),
            TokenV::Text(u) => u.byte_seq(),
            TokenV::Chunk(us) => units_bytes(us),
            TokenV::LF => p_end_bytes(),
            TokenV::CR => p_end_bytes(),
            TokenV::CRLF => p_end_bytes(),
        },
        State::EOF => Seq::empty(),
    }
}

/// What the end of the token stream writes before the flush: an open
/// paragraph is closed; anything else is left as it stands.
pub open spec fn eof_close(st: State) -> Seq<u8> {
    if st is Paragraph {
        p_end_bytes()
    } else {
        Seq::empty()
    }
}

/// The bytes a run writes when it starts in `st` and consumes the tokens
/// `ts` to their end.
pub open spec fn html_from<S: Schema>(st: State, ts: Seq<TokenV>) -> Seq<u8>
    decreases ts.len(),
{
    if ts.len() == 0 {
        eof_close(st)
    } else {
        emit::<S>(st, ts[0]) + html_from::<S>(next_state(st, ts[0]), ts.skip(1))
    }
}

/// The whole pipeline on a byte stream: decode code units, tokenize, run
/// the state machine from the line start.
pub open spec fn convert_spec<S: Schema>(bytes: Seq<u8>) -> Seq<u8> {
    html_from::<S>(State::LineStart, tokens_of(decode_units(bytes)))
}

/// Drives the token stream of an owned [`Tokenizer`] through the state
/// machine, writing HTML through a [`Mapper`].
pub struct ParserImpl {
    tokenizer: Tokenizer,
    state: State,
}

impl ParserImpl {
    pub closed spec fn wf(self) -> bool {
        &&& self.tokenizer.wf()
        &&& (self.state is EOF || self.tokenizer.ready())
    }

    /// The parser's current state.
    pub closed spec fn state_v(self) -> State {
        self.state
    }

    /// The tokens a run would consume if the bytes `extra` arrived and the
    /// stream then ended.
    pub closed spec fn resume_toks(self, extra: Seq<u8>) -> Seq<TokenV> {
        self.tokenizer.toks_with(extra)
    }

    /// The bytes that would stay undecodable after `extra` arrived.
    pub closed spec fn resume_rest(self, extra: Seq<u8>) -> Seq<u8> {
        self.tokenizer.rest_with(extra)
    }

    /// Nothing has been consumed and no decision is pending.
    pub closed spec fn fresh(self) -> bool {
        self.tokenizer.fresh() && self.state is LineStart
    }

    pub fn new() -> (r: Self)
        ensures
            r.wf(),
            r.fresh(),
    {
        Self { tokenizer: Tokenizer::new(), state: State::LineStart }
    }

    /// Performs one transition of the state machine: consumes the token
    /// `t` in the current state, writes what the table prescribes, and
    /// moves to the next state.
    fn step<S: Schema, W: Writer>(&mut self, t: Token, mapper: &mut Mapper<S, W>)
        requires
            !(old(self).state_v() is EOF),
        ensures
            final(self).tokenizer == old(self).tokenizer,
            final(self).state_v() == next_state(old(self).state_v(), t@),
            !(final(self).state_v() is EOF),
            final(mapper).out() == old(mapper).out() + emit::<S>(old(self).state_v(), t@),
            final(mapper).flushed() == old(mapper).flushed(),
    {
        let ghost st_pre = self.state;
        let ghost tv = t@;
        let ghost out_pre = mapper.out();
        match self.state {
            State::LineStart => match t {
                Token::Header(level) => {
                    self.state = State::HeaderMark(level);
                    mapper.write_html_header_start(level);
                    proof {
                        assert(emit::<S>(st_pre, tv) == header_start_bytes::<S>(level));
                    }
                },
                Token::Text(text) => {
                    self.state = State::Paragraph;
                    mapper.write_html_paragraph_start();
                    let unit = text.to_vec();
                    mapper.write_html_content(unit.as_slice());
                    proof {
                        assert(mapper.out() =~= out_pre + (p_start_bytes() + text.byte_seq()));
                        assert(emit::<S>(st_pre, tv) == p_start_bytes() + text.byte_seq());
                    }
                },
                Token::TextChunk(chunk) => {
                    self.state = State::Paragraph;
                    mapper.write_html_paragraph_start();
                    mapper.write_html_chunk(chunk.as_slice());
                    proof {
                        assert(mapper.out() =~= out_pre + (p_start_bytes() + units_bytes(chunk@)));
                        assert(emit::<S>(st_pre, tv) == p_start_bytes() + units_bytes(chunk@));
                    }
                },
                _ => {
                    mapper.write_html_new_line();
                    proof {
                        assert(emit::<S>(st_pre, tv) == br_bytes());
                    }
                },
            },
            State::HeaderMark(level) => match t {
                Token::Text(text) => {
                    let unit = text.to_vec();
                    mapper.write_html_content(unit.as_slice());
                    proof {
                        assert(emit::<S>(st_pre, tv) == text.byte_seq());
                    }
                },
                Token::TextChunk(chunk) => {
                    mapper.write_html_chunk(chunk.as_slice());
                    proof {
                        assert(emit::<S>(st_pre, tv) == units_bytes(chunk@));
                    }
                },
                Token::Header(m) => {
                    mapper.write_html_fake_header(m);
                    proof {
                        assert(emit::<S>(st_pre, tv) == fake_header_bytes(m));
                    }
                },
                _ => {
                    self.state = State::LineStart;
                    mapper.write_html_header_end(level);
                    mapper.write_html_new_line();
                    proof {
                        assert(mapper.out() =~= out_pre + (header_end_bytes::<S>(level)
                            + br_bytes()));
                        assert(emit::<S>(st_pre, tv) == header_end_bytes::<S>(level) + br_bytes());
                    }
                },
            },
            State::Paragraph => match t {
                Token::Text(text) => {
                    let unit = text.to_vec();
                    mapper.write_html_content(unit.as_slice());
                    proof {
                        assert(emit::<S>(st_pre, tv) == text.byte_seq());
                    }
                },
                Token::TextChunk(chunk) => {
                    mapper.write_html_chunk(chunk.as_slice());
                    proof {
                        assert(emit::<S>(st_pre, tv) == units_bytes(chunk@));
                    }
                },
                Token::Header(m) => {
                    mapper.write_html_fake_header(m);
                    proof {
                        assert(emit::<S>(st_pre, tv) == fake_header_bytes(m));
                    }
                },
                _ => {
                    self.state = State::LineStart;
                    mapper.write_html_paragraph_end();
                    proof {
                        assert(emit::<S>(st_pre, tv) == p_end_bytes());
                    }
                },
            },
            State::EOF => {},
        }
    }

    /// Feeds the next buffer fill and writes out every token that the bytes
    /// seen so far already decide, leaving undecided lookahead pending for
    /// the next fill.
    ///
    /// The contract quantifies over every continuation `e` of the stream:
    /// what the old parser would have written for `data` followed by `e` is
    /// what was written now plus what the new parser will write for `e`. A
    /// parser at `EOF` does nothing; a malformed leading byte stops the run
    /// for good, whatever bytes might have followed.
    pub fn push_fill<S: Schema, W: Writer>(
        &mut self,
        data: &[u8],
        mapper: &mut Mapper<S, W>,
    ) -> (r: Result<(), ParserError>)
        requires
            old(self).wf(),
        ensures
            final(self).wf(),
            old(self).state_v() is EOF ==> r is Ok && *final(self) == *old(self) && *final(mapper)
                == *old(mapper),
            !(old(self).state_v() is EOF) ==> match r {
                Ok(()) => {
                    &&& !(final(self).state_v() is EOF)
                    &&& final(mapper).flushed() == old(mapper).flushed()
                    &&& forall|e: Seq<u8>| #![trigger final(self).resume_rest(e)]
                        old(self).resume_rest(data@ + e) == final(self).resume_rest(e)
                    &&& forall|e: Seq<u8>| #![trigger final(self).resume_toks(e)]
                        old(mapper).out() + html_from::<S>(
                            old(self).state_v(),
                            old(self).resume_toks(data@ + e),
                        ) == final(mapper).out() + html_from::<S>(
                            final(self).state_v(),
                            final(self).resume_toks(e),
                        )
                },
                Err(e) => {
                    &&& final(self).state_v() is EOF
                    &&& forall|e2: Seq<u8>| #![trigger old(self).resume_rest(data@ + e2)]
                        old(self).resume_rest(data@ + e2).len() > 0 && spec_utf8_len(
                            old(self).resume_rest(data@ + e2)[0],
                        ) == 0
                    &&& match e {
                        ParserError::SyntaxError(se) => se.line_num == 0 && se.column_num == 0
                            && se.msg@ == malformed_byte_msg(),
                        ParserError::IoError(_) => false,
                    }
                },
            },
    {
        if self.state.is_eof() {
            return Ok(());
        }
        let ghost st0 = self.state;
        self.tokenizer.push_fill(data);
        loop
            invariant
                self.tokenizer.wf(),
                !(self.state is EOF),
                st0 == old(self).state_v(),
                !(st0 is EOF),
                mapper.flushed() == old(mapper).flushed(),
                forall|e: Seq<u8>| #![trigger old(self).resume_rest(data@ + e)]
                    self.tokenizer.rest_with(e) == old(self).resume_rest(data@ + e),
                forall|e: Seq<u8>| #![trigger old(self).resume_toks(data@ + e)]
                    mapper.out() + html_from::<S>(self.state, self.tokenizer.toks_with(e)) == old(
                        mapper,
                    ).out() + html_from::<S>(st0, old(self).resume_toks(data@ + e)),
            decreases self.tokenizer.toks().len(),
        {
            let ghost st_pre = self.state;
            let ghost tz_pre = self.tokenizer;
            match self.tokenizer.next(false) {
                NextToken::NeedInput => {
                    proof {
                        crate::tokenizer::lemma_toks_with_nothing(self.tokenizer);
                        assert forall|e: Seq<u8>|
                            old(self).resume_rest(data@ + e) == final(self).resume_rest(e) by {
                            assert(self.tokenizer.rest_with(e) == old(self).resume_rest(
                                data@ + e,
                            ));
                        }
                        assert forall|e: Seq<u8>|
                            old(mapper).out() + html_from::<S>(
                                old(self).state_v(),
                                old(self).resume_toks(data@ + e),
                            ) == final(mapper).out() + html_from::<S>(
                                final(self).state_v(),
                                final(self).resume_toks(e),
                            ) by {
                            assert(mapper.out() + html_from::<S>(
                                self.state,
                                self.tokenizer.toks_with(e),
                            ) == old(mapper).out() + html_from::<S>(
                                st0,
                                old(self).resume_toks(data@ + e),
                            ));
                        }
                    }
                    return Ok(());
                },
                NextToken::End => {
                    proof {
                        assert(false);
                    }
                    return Ok(());
                },
                NextToken::Bad(se) => {
                    proof {
                        assert(self.tokenizer.rest_bytes().len() > 0);
                        assert(spec_utf8_len(self.tokenizer.rest_bytes()[0]) == 0);
                        assert forall|e2: Seq<u8>|
                            old(self).resume_rest(data@ + e2).len() > 0 && spec_utf8_len(
                                old(self).resume_rest(data@ + e2)[0],
                            ) == 0 by {
                            crate::tokenizer::lemma_rest_with_malformed(self.tokenizer, e2);
                            assert(self.tokenizer.rest_with(e2) == old(self).resume_rest(
                                data@ + e2,
                            ));
                            assert(self.tokenizer.rest_with(e2)[0]
                                == self.tokenizer.rest_bytes()[0]);
                        }
                    }
                    self.state = State::EOF;
                    return Err(ParserError::SyntaxError(se));
                },
                NextToken::Tok(t) => {
                    let ghost tv = t@;
                    let ghost out_pre = mapper.out();
                    self.step(t, mapper);
                    proof {
                        assert forall|e: Seq<u8>|
                            mapper.out() + html_from::<S>(
                                self.state,
                                self.tokenizer.toks_with(e),
                            ) == old(mapper).out() + html_from::<S>(
                                st0,
                                old(self).resume_toks(data@ + e),
                            ) by {
                            assert(out_pre + html_from::<S>(st_pre, tz_pre.toks_with(e)) == old(
                                mapper,
                            ).out() + html_from::<S>(st0, old(self).resume_toks(data@ + e)));
                            assert(tz_pre.toks_with(e) == seq![tv] + self.tokenizer.toks_with(e));
                            assert(tz_pre.toks_with(e)[0] == tv);
                            assert(tz_pre.toks_with(e).skip(1) =~= self.tokenizer.toks_with(e));
                            assert(html_from::<S>(st_pre, tz_pre.toks_with(e)) == emit::<S>(
                                st_pre,
                                tv,
                            ) + html_from::<S>(next_state(st_pre, tv), self.tokenizer.toks_with(e)));
                            assert(out_pre + (emit::<S>(st_pre, tv) + html_from::<S>(
                                self.state,
                                self.tokenizer.toks_with(e),
                            )) =~= (out_pre + emit::<S>(st_pre, tv)) + html_from::<S>(
                                self.state,
                                self.tokenizer.toks_with(e),
                            ));
                        }
                    }
                },
            }
        }
    }

    /// Declares the byte stream over and finishes the run: resolves pending
    /// lookahead, closes an open paragraph, and flushes the sink. The
    /// parser is at `EOF` afterwards; a parser already there does nothing.
    pub fn finish<S: Schema, W: Writer>(&mut self, mapper: &mut Mapper<S, W>) -> (r: Result<
        (),
        ParserError,
    >)
        requires
            old(self).wf(),
        ensures
            final(self).wf(),
            final(self).state_v() is EOF,
            old(self).state_v() is EOF ==> r is Ok && *final(self) == *old(self) && *final(mapper)
                == *old(mapper),
            !(old(self).state_v() is EOF) ==> match r {
                Ok(()) => {
                    &&& old(self).resume_rest(Seq::empty()).len() == 0
                    &&& final(mapper).out() == old(mapper).out() + html_from::<S>(
                        old(self).state_v(),
                        old(self).resume_toks(Seq::empty()),
                    )
                    &&& final(mapper).flushed()
                },
                Err(e) => {
                    &&& old(self).resume_rest(Seq::empty()).len() > 0
                    &&& match e {
                        ParserError::SyntaxError(se) => {
                            &&& se.line_num == 0 && se.column_num == 0
                            &&& (spec_utf8_len(old(self).resume_rest(Seq::empty())[0]) == 0
                                ==> se.msg@ == malformed_byte_msg())
                            &&& (spec_utf8_len(old(self).resume_rest(Seq::empty())[0]) != 0
                                ==> se.msg@ == truncated_input_msg())
                        },
                        ParserError::IoError(_) => false,
                    }
                },
            },
    {
        if self.state.is_eof() {
            return Ok(());
        }
        let ghost st0 = self.state;
        let ghost ts0 = old(self).resume_toks(Seq::empty());
        proof {
            crate::tokenizer::lemma_toks_with_nothing(self.tokenizer);
        }
        loop
            invariant
                self.tokenizer.wf(),
                !(self.state is EOF),
                st0 == old(self).state_v(),
                !(st0 is EOF),
                ts0 == old(self).resume_toks(Seq::empty()),
                mapper.out() + html_from::<S>(self.state, self.tokenizer.toks()) == old(
                    mapper,
                ).out() + html_from::<S>(st0, ts0),
                self.tokenizer.rest_bytes() == old(self).resume_rest(Seq::empty()),
            decreases self.tokenizer.toks().len(),
        {
            let ghost st_pre = self.state;
            let ghost ts_pre = self.tokenizer.toks();
            match self.tokenizer.next(true) {
                NextToken::NeedInput => {
                    proof {
                        assert(false);
                    }
                    return Ok(());
                },
                NextToken::End => {
                    if matches!(self.state, State::Paragraph) {
                        mapper.write_html_paragraph_end();
                    }
                    mapper.flush();
                    proof {
                        assert(html_from::<S>(st_pre, ts_pre) == eof_close(st_pre));
                        if !(st_pre is Paragraph) {
                            assert(mapper.out() + eof_close(st_pre) =~= mapper.out());
                        }
                    }
                    self.state = State::EOF;
                    return Ok(());
                },
                NextToken::Bad(se) => {
                    self.state = State::EOF;
                    return Err(ParserError::SyntaxError(se));
                },
                NextToken::Tok(t) => {
                    let ghost ts_new = self.tokenizer.toks();
                    let ghost tv = t@;
                    proof {
                        assert(ts_pre == seq![tv] + ts_new);
                        assert(ts_pre[0] == tv);
                        assert(ts_pre.skip(1) =~= ts_new);
                        assert(html_from::<S>(st_pre, ts_pre) == emit::<S>(st_pre, tv)
                            + html_from::<S>(next_state(st_pre, tv), ts_new));
                    }
                    let ghost out_pre = mapper.out();
                    self.step(t, mapper);
                    proof {
                        assert(out_pre + emit::<S>(st_pre, tv) + html_from::<S>(
                            self.state,
                            ts_new,
                        ) =~= out_pre + (emit::<S>(st_pre, tv) + html_from::<S>(
                            self.state,
                            ts_new,
                        )));
                    }
                },
            }
        }
    }

    /// Consumes `input` as the rest of the byte stream and writes the HTML
    /// it denotes through `mapper`, flushing at the end.
    ///
    /// A parser already at `EOF` does nothing and succeeds. Otherwise the
    /// run succeeds exactly when the remaining stream decodes cleanly into
    /// code units, and then writes `html_from` of the consumed tokens; a
    /// malformed leading byte or a stream cut off inside a code unit stops
    /// the run with a `SyntaxError`, and the parser is terminal from then
    /// on.
    pub fn parse_and_write<S: Schema, W: Writer>(
        &mut self,
        input: &[u8],
        mapper: &mut Mapper<S, W>,
    ) -> (r: Result<(), ParserError>)
        requires
            old(self).wf(),
        ensures
            final(self).wf(),
            old(self).state_v() is EOF ==> r is Ok && *final(self) == *old(self) && *final(mapper)
                == *old(mapper),
            !(old(self).state_v() is EOF) ==> match r {
                Ok(()) => {
                    &&& old(self).resume_rest(input@).len() == 0
                    &&& final(mapper).out() == old(mapper).out() + html_from::<S>(
                        old(self).state_v(),
                        old(self).resume_toks(input@),
                    )
                    &&& final(mapper).flushed()
                    &&& final(self).state_v() is EOF
                },
                Err(e) => {
                    &&& old(self).resume_rest(input@).len() > 0
                    &&& final(self).state_v() is EOF
                    &&& match e {
                        ParserError::SyntaxError(se) => {
                            &&& se.line_num == 0 && se.column_num == 0
                            &&& (spec_utf8_len(old(self).resume_rest(input@)[0]) == 0 ==> se.msg@
                                == malformed_byte_msg())
                            &&& (spec_utf8_len(old(self).resume_rest(input@)[0]) != 0 ==> se.msg@
                                == truncated_input_msg())
                        },
                        ParserError::IoError(_) => false,
                    }
                },
            },
    {
        if self.state.is_eof() {
            return Ok(());
        }
        proof {
            assert(input@ + Seq::<u8>::empty() =~= input@);
        }
        match self.push_fill(input, mapper) {
            Err(e) => {
                proof {
                    assert(old(self).resume_rest(input@ + Seq::<u8>::empty()).len() > 0
                        && spec_utf8_len(old(self).resume_rest(input@ + Seq::<u8>::empty())[0])
                        == 0);
                }
                return Err(e);
            },
            Ok(()) => {},
        }
        let ghost mid = *self;
        let ghost mid_out = mapper.out();
        let r = self.finish(mapper);
        proof {
            assert(old(self).resume_rest(input@ + Seq::<u8>::empty()) == mid.resume_rest(
                Seq::empty(),
            ));
            assert(old(mapper).out() + html_from::<S>(
                old(self).state_v(),
                old(self).resume_toks(input@ + Seq::<u8>::empty()),
            ) == mid_out + html_from::<S>(mid.state_v(), mid.resume_toks(Seq::empty())));
        }
        r
    }
}

/// Converting an empty stream writes nothing: no tag is emitted and the
/// run only flushes the sink.
pub proof fn lemma_convert_empty<S: Schema>()
    ensures
        convert_spec::<S>(Seq::empty()) == Seq::<u8>::empty(),
{
    assert(decode_units(Seq::<u8>::empty()) =~= Seq::<U8Unit>::empty());
    assert(tokens_of(Seq::<U8Unit>::empty()) =~= Seq::<TokenV>::empty());
    assert(convert_spec::<S>(Seq::empty()) =~= Seq::<u8>::empty());
}

/// A fresh parser converts exactly the bytes it is handed: its resumed run
/// consumes the tokens of those bytes from the line start, so its output is
/// [`convert_spec`].
pub proof fn lemma_fresh_parser_converts<S: Schema>(p: ParserImpl, bytes: Seq<u8>)
    requires
        p.fresh(),
    ensures
        p.state_v() is LineStart,
        p.resume_toks(bytes) == tokens_of(decode_units(bytes)),
        p.resume_rest(bytes) == decode_rest(bytes),
        html_from::<S>(p.state_v(), p.resume_toks(bytes)) == convert_spec::<S>(bytes),
{
    crate::tokenizer::lemma_fresh_toks(p.tokenizer, bytes);
}

} // verus!
