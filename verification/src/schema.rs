//! The tag vocabulary: a lookup from heading level 1 to 6 to start and end
//! tag text, with the default HTML tags as its one implementation here.

use vstd::prelude::*;
use vstd::string::StringSliceAdditionalSpecFns;

verus! {

/// A tag table for heading levels 1 to 6. Each `*_spec` function names the
/// bytes that the matching method returns.
pub trait Schema: Sized {
    spec fn h1_start_spec() -> Seq<u8>;

    spec fn h1_end_spec() -> Seq<u8>;

    spec fn h2_start_spec() -> Seq<u8>;

    spec fn h2_end_spec() -> Seq<u8>;

    spec fn h3_start_spec() -> Seq<u8>;

    spec fn h3_end_spec() -> Seq<u8>;

    spec fn h4_start_spec() -> Seq<u8>;

    spec fn h4_end_spec() -> Seq<u8>;

    spec fn h5_start_spec() -> Seq<u8>;

    spec fn h5_end_spec() -> Seq<u8>;

    spec fn h6_start_spec() -> Seq<u8>;

    spec fn h6_end_spec() -> Seq<u8>;

    fn h1_start() -> (r: &'static str)
        ensures
            r.spec_bytes() == Self::h1_start_spec(),
    ;

    fn h1_end() -> (r: &'static str)
        ensures
            r.spec_bytes() == Self::h1_end_spec(),
    ;

    fn h2_start() -> (r: &'static str)
        ensures
            r.spec_bytes() == Self::h2_start_spec(),
    ;

    fn h2_end() -> (r: &'static str)
        ensures
            r.spec_bytes() == Self::h2_end_spec(),
    ;

    fn h3_start() -> (r: &'static str)
        ensures
            r.spec_bytes() == Self::h3_start_spec(),
    ;

    fn h3_end() -> (r: &'static str)
        ensures
            r.spec_bytes() == Self::h3_end_spec(),
    ;

    fn h4_start() -> (r: &'static str)
        ensures
            r.spec_bytes() == Self::h4_start_spec(),
    ;

    fn h4_end() -> (r: &'static str)
        ensures
            r.spec_bytes() == Self::h4_end_spec(),
    ;

    fn h5_start() -> (r: &'static str)
        ensures
            r.spec_bytes() == Self::h5_start_spec(),
    ;

    fn h5_end() -> (r: &'static str)
        ensures
            r.spec_bytes() == Self::h5_end_spec(),
    ;

    fn h6_start() -> (r: &'static str)
        ensures
            r.spec_bytes() == Self::h6_start_spec(),
    ;

    fn h6_end() -> (r: &'static str)
        ensures
            r.spec_bytes() == Self::h6_end_spec(),
    ;
}

/// The start tag bytes that a schema gives heading level `level`; empty for
/// a level outside 1 to 6, for which nothing is written.
pub open spec fn header_start_bytes<S: Schema>(level: u8) -> Seq<u8> {
    if level == 1 {
        S::h1_start_spec()
    } else if level == 2 {
        S::h2_start_spec()
    } else if level == 3 {
        S::h3_start_spec()
    } else if level == 4 {
        S::h4_start_spec()
    } else if level == 5 {
        S::h5_start_spec()
    } else if level == 6 {
        S::h6_start_spec()
    } else {
        Seq::empty()
    }
}

/// The end tag bytes that a schema gives heading level `level`; empty for a
/// level outside 1 to 6.
pub open spec fn header_end_bytes<S: Schema>(level: u8) -> Seq<u8> {
    if level == 1 {
        S::h1_end_spec()
    } else if level == 2 {
        S::h2_end_spec()
    } else if level == 3 {
        S::h3_end_spec()
    } else if level == 4 {
        S::h4_end_spec()
    } else if level == 5 {
        S::h5_end_spec()
    } else if level == 6 {
        S::h6_end_spec()
    } else {
        Seq::empty()
    }
}

/// The default HTML heading tags, `<h1>`…`</h6>`.
pub struct HtmlSchema;

impl HtmlSchema {
    pub fn new() -> Self {
        Self
    }
}

impl Schema for HtmlSchema {
    open spec fn h1_start_spec() -> Seq<u8> {
        "<h1>".spec_bytes()
    }

    open spec fn h1_end_spec() -> Seq<u8> {
        "</h1>".spec_bytes()
    }

    open spec fn h2_start_spec() -> Seq<u8> {
        "<h2>".spec_bytes()
    }

    open spec fn h2_end_spec() -> Seq<u8> {
        "</h2>".spec_bytes()
    }

    open spec fn h3_start_spec() -> Seq<u8> {
        "<h3>".spec_bytes()
    }

    open spec fn h3_end_spec() -> Seq<u8> {
        "</h3>".spec_bytes()
    }

    open spec fn h4_start_spec() -> Seq<u8> {
        "<h4>".spec_bytes()
    }

    open spec fn h4_end_spec() -> Seq<u8> {
        "</h4>".spec_bytes()
    }

    open spec fn h5_start_spec() -> Seq<u8> {
        "<h5>".spec_bytes()
    }

    open spec fn h5_end_spec() -> Seq<u8> {
        "</h5>".spec_bytes()
    }

    open spec fn h6_start_spec() -> Seq<u8> {
        "<h6>".spec_bytes()
    }

    open spec fn h6_end_spec() -> Seq<u8> {
        "</h6>".spec_bytes()
    }

    fn h1_start() -> (r: &'static str) {
        "<h1>"
    }

    fn h1_end() -> (r: &'static str) {
        "</h1>"
    }

    fn h2_start() -> (r: &'static str) {
        "<h2>"
    }

    fn h2_end() -> (r: &'static str) {
        "</h2>"
    }

    fn h3_start() -> (r: &'static str) {
        "<h3>"
    }

    fn h3_end() -> (r: &'static str) {
        "</h3>"
    }

    fn h4_start() -> (r: &'static str) {
        "<h4>"
    }

    fn h4_end() -> (r: &'static str) {
        "</h4>"
    }

    fn h5_start() -> (r: &'static str) {
        "<h5>"
    }

    fn h5_end() -> (r: &'static str) {
        "</h5>"
    }

    fn h6_start() -> (r: &'static str) {
        "<h6>"
    }

    fn h6_end() -> (r: &'static str) {
        "</h6>"
    }
}

} // verus!
