//! The counting pre-pass sink.
//!
//! Some host formats are length-prefixed: they must know the number of
//! sequence elements before any element is written.  For those, the diff
//! traversal is run twice: first against the counting sink below, which
//! does nothing but count elements, then against a real buffer.  The diff
//! engine is deterministic, so both passes emit the same number of
//! elements; see [`crate::config::Diff::element_count`].

use vstd::prelude::*;

use crate::difference::{cmds_view, CmdV, DiffCommandValue};

verus! {

/// An element sink that only counts how many elements were serialized.
pub struct CountingSerializer {
    pub num_elements: usize,
}

impl CountingSerializer {
    pub fn new() -> (r: CountingSerializer)
        ensures
            r.num_elements == 0,
    {
        CountingSerializer { num_elements: 0 }
    }

    pub fn serialize_element(&mut self)
        requires
            old(self).num_elements < usize::MAX,
        ensures
            final(self).num_elements == old(self).num_elements + 1,
    {
        self.num_elements = self.num_elements + 1;
    }

    pub fn end(self) -> (r: usize)
        ensures
            r == self.num_elements,
    {
        self.num_elements
    }
}

/// Where the diff engine sends its commands: the counting pre-pass, or a
/// buffer that collects the wire sequence itself.
pub enum CommandSink {
    Counting(CountingSerializer),
    Buffer(Vec<DiffCommandValue>),
}

/// Model of a sink: the number of elements a counting sink has seen, or
/// the command sequence a buffer holds.
#[verifier::ext_equal]
pub enum SinkV {
    Counting(int),
    Buffer(Seq<CmdV>),
}

impl View for CommandSink {
    type V = SinkV;

    open spec fn view(&self) -> SinkV {
        match self {
            CommandSink::Counting(c) => SinkV::Counting(c.num_elements as int),
            CommandSink::Buffer(v) => SinkV::Buffer(cmds_view(v@)),
        }
    }
}

/// The sink state after emitting `extra`, in order, into `s`.
pub open spec fn sink_after(s: SinkV, extra: Seq<CmdV>) -> SinkV {
    match s {
        SinkV::Counting(n) => SinkV::Counting(n + extra.len()),
        SinkV::Buffer(q) => SinkV::Buffer(q + extra),
    }
}

/// Whether `k` more elements can be emitted into `s` without the counting
/// sink's counter overflowing the machine word.
pub open spec fn sink_can_emit(s: SinkV, k: int) -> bool {
    match s {
        SinkV::Counting(n) => n + k <= usize::MAX,
        SinkV::Buffer(_) => true,
    }
}

pub broadcast proof fn lemma_sink_after_concat(s: SinkV, e1: Seq<CmdV>, e2: Seq<CmdV>)
    ensures
        #[trigger] sink_after(sink_after(s, e1), e2) == sink_after(s, e1 + e2),
{
    match s {
        SinkV::Counting(n) => {
        }
        SinkV::Buffer(q) => {
            assert((q + e1) + e2 =~= q + (e1 + e2));
        }
    }
}

pub broadcast proof fn lemma_sink_after_empty(s: SinkV)
    ensures
        #[trigger] sink_after(s, Seq::<CmdV>::empty()) == s,
{
    match s {
        SinkV::Counting(n) => {
        }
        SinkV::Buffer(q) => {
            assert(q + Seq::<CmdV>::empty() =~= q);
        }
    }
}

impl CommandSink {
    /// Serialize one element of the diff command sequence.
    pub fn serialize_element(&mut self, cmd: DiffCommandValue)
        requires
            sink_can_emit(old(self)@, 1),
        ensures
            final(self)@ == sink_after(old(self)@, seq![cmd@]),
    {
        let ghost prev = self@;
        match self {
            CommandSink::Counting(c) => {
                c.serialize_element();
            }
            CommandSink::Buffer(v) => {
                v.push(cmd);
                proof {
                    assert(cmds_view(v@) =~= prev->Buffer_0 + seq![cmd@]);
                }
            }
        }
    }
}

} // verus!
