use vstd::prelude::*;

use crate::module::{parse_line, result_view, Module, ParseError};

verus! {

/// What one read of a line from the registry gave.
pub enum ReadOutcome<'a> {
    /// A line, with its terminator if it had one.
    Line(&'a str),
    /// The stream ended cleanly: nothing was read.
    EndOfStream,
    /// The read failed.
    Failed,
}

/// What a scan hands its caller for one read.
pub enum ScanStep {
    /// The scan is over; nothing more comes.
    End,
    /// The record of one line, or why that line holds none.
    Record(Result<Module, ParseError>),
    /// The read failed; the scan is over.
    ReadFailed,
}

/// The decisions of a lazy scan over the registry's lines. A scan ends at the
/// end of the stream or at the first failed read, and stays ended; a line that
/// is not a record does not end it.
pub struct ModuleScan {
    finished: bool,
}

impl ModuleScan {
    /// Whether the scan is over.
    pub closed spec fn ended(&self) -> bool {
        self.finished
    }

    /// A scan that has read nothing yet.
    pub fn new() -> (r: ModuleScan)
        ensures
            !r.ended(),
    {
        ModuleScan { finished: false }
    }

    /// Whether the scan is over, so that no more reads are wanted.
    pub fn is_finished(&self) -> (r: bool)
        ensures
            r == self.ended(),
    {
        self.finished
    }

    /// Takes the outcome of one read and says what to hand the caller.
    pub fn step(&mut self, read: ReadOutcome) -> (r: ScanStep)
        ensures
            old(self).ended() ==> r is End && final(self).ended(),
            !old(self).ended() ==> match read {
                ReadOutcome::EndOfStream => r is End && final(self).ended(),
                ReadOutcome::Failed => r is ReadFailed && final(self).ended(),
                ReadOutcome::Line(l) => !final(self).ended() && match r {
                    ScanStep::Record(x) => result_view(x) == parse_line(l@),
                    _ => false,
                },
            },
    {
        if self.finished {
            return ScanStep::End;
        }
        match read {
            ReadOutcome::EndOfStream => {
                self.finished = true;
                ScanStep::End
            },
            ReadOutcome::Failed => {
                self.finished = true;
                ScanStep::ReadFailed
            },
            ReadOutcome::Line(l) => ScanStep::Record(Module::parse(l)),
        }
    }
}

} // verus!
