//! The engine: wires a parser, a mapper and an error handler together for
//! one conversion run.

use vstd::prelude::*;
use crate::error_handler::ErrorHandler;
use crate::mapper::Mapper;
use crate::parser::ParserImpl;
use crate::parser::html_from;
use crate::schema::Schema;
use crate::writer::Writer;

verus! {

/// Runs the conversion pipeline and routes a terminal error to the error
/// handler.
pub struct MrakdownEngine {}

impl MrakdownEngine {
    pub fn new() -> Self {
        Self {  }
    }

    /// Runs `p` over `input`, writing through `mapper`; a terminal error is
    /// handed to `h`. On a cleanly decodable stream the parser's whole HTML
    /// output stands in the mapper's sink, flushed.
    pub fn start<S: Schema, W: Writer, H: ErrorHandler>(
        &mut self,
        p: &mut ParserImpl,
        input: &[u8],
        mapper: &mut Mapper<S, W>,
        h: &mut H,
    )
        requires
            old(p).wf(),
        ensures
            final(p).wf(),
            (!(old(p).state_v() is EOF) && old(p).resume_rest(input@).len() == 0) ==> {
                &&& final(mapper).out() == old(mapper).out() + html_from::<S>(
                    old(p).state_v(),
                    old(p).resume_toks(input@),
                )
                &&& final(mapper).flushed()
            },
    {
        let res = p.parse_and_write(input, mapper);
        match res {
            Ok(()) => {},
            Err(e) => h.handle_error(e),
        }
    }
}

} // verus!
