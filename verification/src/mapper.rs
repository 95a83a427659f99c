//! The mapper: translates the parser's structural events (header opened,
//! content, line break, paragraph closed) into tag and content bytes on the
//! output sink, with the tag text taken from a [`Schema`].

use vstd::prelude::*;
use crate::schema::Schema;
use crate::schema::header_end_bytes;
use crate::schema::header_start_bytes;
use crate::u8unit::U8Unit;
use crate::u8unit::units_bytes;
use crate::u8unit::lemma_units_bytes_append;
use crate::writer::Writer;
use vstd::string::StringSliceAdditionalSpecFns;

verus! {

/// The line-break element's bytes.
pub open spec fn br_bytes() -> Seq<u8> {
    "<br>".spec_bytes()
}

/// The paragraph start tag's bytes.
pub open spec fn p_start_bytes() -> Seq<u8> {
    "<p>".spec_bytes()
}

/// The paragraph end tag's bytes.
pub open spec fn p_end_bytes() -> Seq<u8> {
    "</p>".spec_bytes()
}

/// `n` literal `#` characters.
pub open spec fn hash_marks(n: nat) -> Seq<u8>
    decreases n,
{
    if n == 0 {
        Seq::empty()
    } else {
        "#".spec_bytes() + hash_marks((n - 1) as nat)
    }
}

/// The literal reproduction of a header marker that was recognised where no
/// header can start: its `#` characters followed by the consumed space.
pub open spec fn fake_header_bytes(level: u8) -> Seq<u8> {
    hash_marks(level as nat) + " ".spec_bytes()
}

/// One more `#` lands at the back of the run.
proof fn lemma_hash_marks_snoc(n: nat)
    ensures
        hash_marks(n + 1) == hash_marks(n) + "#".spec_bytes(),
    decreases n,
{
    if n == 0 {
        assert(hash_marks(1) =~= hash_marks(0) + "#".spec_bytes());
    } else {
        lemma_hash_marks_snoc((n - 1) as nat);
        assert("#".spec_bytes() + (hash_marks((n - 1) as nat) + "#".spec_bytes())
            =~= ("#".spec_bytes() + hash_marks((n - 1) as nat)) + "#".spec_bytes());
    }
}

/// Writes HTML through an owned [`Writer`], spelling tags as the [`Schema`]
/// dictates. Content passes through verbatim: no escaping is applied.
pub struct Mapper<S: Schema, W: Writer> {
    schema: S,
    writer: W,
}

impl<S: Schema, W: Writer> Mapper<S, W> {
    /// The bytes written to the sink so far.
    pub closed spec fn out(self) -> Seq<u8> {
        self.writer.bytes()
    }

    /// Whether the sink has been flushed since the last write.
    pub closed spec fn flushed(self) -> bool {
        self.writer.flushed()
    }

    pub fn new(s: S, w: W) -> (r: Self)
        ensures
            r.out() == w.bytes(),
            r.flushed() == w.flushed(),
    {
        Self { schema: s, writer: w }
    }

    /// Gives the sink back, with everything that was written to it.
    pub fn into_writer(self) -> (w: W)
        ensures
            w.bytes() == self.out(),
            w.flushed() == self.flushed(),
    {
        self.writer
    }

    /// Writes raw content bytes verbatim.
    pub fn write_html_content(&mut self, data: &[u8])
        ensures
            final(self).out() == old(self).out() + data@,
            final(self).flushed() == old(self).flushed(),
    {
        self.writer.write(data);
    }

    /// Writes a run of code units verbatim, in order.
    pub fn write_html_chunk(&mut self, data: &[U8Unit])
        ensures
            final(self).out() == old(self).out() + units_bytes(data@),
            final(self).flushed() == old(self).flushed(),
    {
        let len = data.len();
        let mut i: usize = 0;
        proof {
            assert(old(self).out() + units_bytes(data@.take(0)) =~= old(self).out());
        }
        while i < len
            invariant
                len == data@.len(),
                i <= len,
                self.out() == old(self).out() + units_bytes(data@.take(i as int)),
                self.flushed() == old(self).flushed(),
            decreases len - i,
        {
            let unit = data[i].to_vec();
            self.writer.write(unit.as_slice());
            i = i + 1;
            proof {
                assert(data@.take(i as int) =~= data@.take(i - 1).push(data@[i - 1]));
                assert(data@.take(i - 1).push(data@[i - 1]) =~= data@.take(i - 1) + seq![
                    data@[i - 1],
                ]);
                lemma_units_bytes_append(data@.take(i - 1), seq![data@[i - 1]]);
                assert(seq![data@[i - 1]].skip(1) =~= Seq::<U8Unit>::empty());
                assert(units_bytes(seq![data@[i - 1]]) == data@[i - 1].byte_seq() + units_bytes(
                    Seq::<U8Unit>::empty(),
                ));
                assert(units_bytes(seq![data@[i - 1]]) =~= data@[i - 1].byte_seq());
                assert(old(self).out() + units_bytes(data@.take(i - 1)) + data@[i - 1].byte_seq()
                    =~= old(self).out() + units_bytes(data@.take(i as int)));
            }
        }
        proof {
            assert(data@.take(len as int) =~= data@);
        }
    }

    /// Writes the line-break element.
    pub fn write_html_new_line(&mut self)
        ensures
            final(self).out() == old(self).out() + br_bytes(),
            final(self).flushed() == old(self).flushed(),
    {
        self.writer.write("<br>".as_bytes());
    }

    /// Writes the start tag for heading level `level`; a level outside 1 to
    /// 6 writes nothing.
    pub fn write_html_header_start(&mut self, level: u8)
        ensures
            final(self).out() == old(self).out() + header_start_bytes::<S>(level),
            final(self).flushed() == old(self).flushed(),
    {
        match level {
            1 => {
                self.writer.write(S::h1_start().as_bytes());
            },
            2 => {
                self.writer.write(S::h2_start().as_bytes());
            },
            3 => {
                self.writer.write(S::h3_start().as_bytes());
            },
            4 => {
                self.writer.write(S::h4_start().as_bytes());
            },
            5 => {
                self.writer.write(S::h5_start().as_bytes());
            },
            6 => {
                self.writer.write(S::h6_start().as_bytes());
            },
            _ => {
                proof {
                    assert(old(self).out() + header_start_bytes::<S>(level) =~= old(self).out());
                }
            },
        }
    }

    /// Writes the end tag for heading level `level`; a level outside 1 to 6
    /// writes nothing.
    pub fn write_html_header_end(&mut self, level: u8)
        ensures
            final(self).out() == old(self).out() + header_end_bytes::<S>(level),
            final(self).flushed() == old(self).flushed(),
    {
        match level {
            1 => {
                self.writer.write(S::h1_end().as_bytes());
            },
            2 => {
                self.writer.write(S::h2_end().as_bytes());
            },
            3 => {
                self.writer.write(S::h3_end().as_bytes());
            },
            4 => {
                self.writer.write(S::h4_end().as_bytes());
            },
            5 => {
                self.writer.write(S::h5_end().as_bytes());
            },
            6 => {
                self.writer.write(S::h6_end().as_bytes());
            },
            _ => {
                proof {
                    assert(old(self).out() + header_end_bytes::<S>(level) =~= old(self).out());
                }
            },
        }
    }

    /// Writes the paragraph start tag.
    pub fn write_html_paragraph_start(&mut self)
        ensures
            final(self).out() == old(self).out() + p_start_bytes(),
            final(self).flushed() == old(self).flushed(),
    {
        self.writer.write("<p>".as_bytes());
    }

    /// Writes the paragraph end tag.
    pub fn write_html_paragraph_end(&mut self)
        ensures
            final(self).out() == old(self).out() + p_end_bytes(),
            final(self).flushed() == old(self).flushed(),
    {
        self.writer.write("</p>".as_bytes());
    }

    /// Writes a header marker back out as literal text: `level` `#`
    /// characters and the space that confirmed the marker.
    pub fn write_html_fake_header(&mut self, level: u8)
        ensures
            final(self).out() == old(self).out() + fake_header_bytes(level),
            final(self).flushed() == old(self).flushed(),
    {
        let mut i: u8 = 0;
        proof {
            assert(old(self).out() + hash_marks(0) =~= old(self).out());
        }
        while i < level
            invariant
                i <= level,
                self.out() == old(self).out() + hash_marks(i as nat),
                self.flushed() == old(self).flushed(),
            decreases level - i,
        {
            self.writer.write("#".as_bytes());
            i = i + 1;
            proof {
                lemma_hash_marks_snoc((i - 1) as nat);
                assert(old(self).out() + hash_marks((i - 1) as nat) + "#".spec_bytes() =~= old(
                    self,
                ).out() + hash_marks(i as nat));
            }
        }
        self.writer.write(" ".as_bytes());
    }

    /// Flushes the sink.
    pub fn flush(&mut self)
        ensures
            final(self).out() == old(self).out(),
            final(self).flushed(),
    {
        self.writer.flush()
    }
}

} // verus!
