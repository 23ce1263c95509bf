//! The in-memory activity log shown by the interface.

use vstd::prelude::*;

use crate::text::string_views;

verus! {

/// Most lines the log keeps.
pub const LOG_CAPACITY: usize = 500;

/// Lines dropped at once when the log overflows.
pub const LOG_DROP: usize = 100;

/// The activity log, oldest line first.
pub struct LogBuffer {
    lines: Vec<String>,
}

/// The log after a line is added: appended, and when that makes it longer
/// than `LOG_CAPACITY`, its oldest `LOG_DROP` lines are dropped.
pub open spec fn logged(old: Seq<Seq<char>>, message: Seq<char>) -> Seq<Seq<char>> {
    let grown = old.push(message);
    if grown.len() > LOG_CAPACITY {
        grown.skip(LOG_DROP as int)
    } else {
        grown
    }
}

impl View for LogBuffer {
    type V = Seq<Seq<char>>;

    closed spec fn view(&self) -> Seq<Seq<char>> {
        string_views(self.lines@)
    }
}

impl LogBuffer {
    /// An empty log.
    pub fn new() -> (r: LogBuffer)
        ensures
            r@ == Seq::<Seq<char>>::empty(),
    {
        let r = LogBuffer { lines: Vec::new() };
        assert(r@ =~= Seq::<Seq<char>>::empty());
        r
    }

    /// Adds a line to the log.
    pub fn push_log(&mut self, message: String)
        ensures
            final(self)@ == logged(old(self)@, message@),
    {
        let ghost before = string_views(self.lines@);
        self.lines.push(message);
        assert(string_views(self.lines@) =~= before.push(message@));
        if self.lines.len() > LOG_CAPACITY {
            let ghost grown = self.lines@;
            let rest = self.lines.split_off(LOG_DROP);
            self.lines = rest;
            assert(string_views(self.lines@) =~= string_views(grown).skip(LOG_DROP as int));
        }
    }

    /// The number of lines held.
    pub fn len(&self) -> (r: usize)
        ensures
            r == self@.len(),
    {
        self.lines.len()
    }

    /// The lines, oldest first.
    pub fn lines(&self) -> (r: &Vec<String>)
        ensures
            string_views(r@) == self@,
    {
        &self.lines
    }
}

/// A log never holds more than `LOG_CAPACITY` lines, and the newest line is
/// always the one just added.
pub proof fn law_log_bounded(old: Seq<Seq<char>>, message: Seq<char>)
    requires
        old.len() <= LOG_CAPACITY,
    ensures
        logged(old, message).len() <= LOG_CAPACITY,
        logged(old, message).last() == message,
{
}

} // verus!
