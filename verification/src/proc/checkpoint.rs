//! Saving both cursors of an engine, to go back to them.

use vstd::prelude::*;
use crate::proc::range::ProcessorRange;
use crate::proc::{Processor, ProcessorView};

verus! {

/// Both cursors of an engine as they stood at one moment. Restoring it is the
/// only way to move a cursor back.
#[derive(Clone, Copy, Debug, PartialEq, Eq, Structural)]
pub struct Checkpoint {
    read_next: usize,
    write_next: usize,
}

impl Checkpoint {
    pub closed spec fn spec_read_next(&self) -> int {
        self.read_next as int
    }

    pub closed spec fn spec_write_next(&self) -> int {
        self.write_next as int
    }

    /// Whether this checkpoint can be restored on an engine whose buffer
    /// holds `len` bytes.
    pub open spec fn fits(&self, len: int) -> bool {
        0 <= self.spec_write_next() <= self.spec_read_next() <= len
    }

    /// Records where the cursors of `proc` stand.
    pub fn new(proc: &Processor) -> (checkpoint: Checkpoint)
        requires
            proc.wf(),
        ensures
            checkpoint.spec_read_next() == proc@.read_next,
            checkpoint.spec_write_next() == proc@.write_next,
            checkpoint.fits(proc@.code.len() as int),
    {
        Checkpoint { read_next: proc.read_len(), write_next: proc.written_len() }
    }

    /// Puts the cursors of `proc` back where they stood. The buffer keeps
    /// what was written since.
    pub fn restore(&self, proc: &mut Processor)
        requires
            old(proc).wf(),
            self.fits(old(proc)@.code.len() as int),
        ensures
            final(proc)@ == (ProcessorView {
                read_next: self.spec_read_next(),
                write_next: self.spec_write_next(),
                ..old(proc)@
            }),
            final(proc).wf(),
    {
        proc.set_cursors(self.read_next, self.write_next);
    }

    /// The span of what `proc` has written since the checkpoint.
    pub fn written_range(&self, proc: &Processor) -> (range: ProcessorRange)
        ensures
            range.start == self.spec_write_next(),
            range.end == proc@.write_next,
    {
        ProcessorRange { start: self.write_next, end: proc.written_len() }
    }

    /// How many bytes `proc` has written since the checkpoint.
    pub fn written_count(&self, proc: &Processor) -> (count: usize)
        requires
            self.spec_write_next() <= proc@.write_next,
        ensures
            count == proc@.write_next - self.spec_write_next(),
    {
        proc.written_len() - self.write_next
    }
}

} // verus!
