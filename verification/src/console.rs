//! The status sink: level-filtered log messages and a single pinned,
//! continuously updated progress line. The engine records what should be
//! shown; a front end drains and renders it.
use vstd::prelude::*;

verus! {

/// Message severity; `Necessary` is the highest, `Debug` the lowest.
#[derive(Debug, Clone, Copy, PartialEq, Eq, Hash, Structural)]
pub enum Level {
    Necessary,
    Warning,
    Info,
    Debug,
}

impl Level {
    /// Severity as a number; higher means more important.
    pub open spec fn rank_spec(self) -> int {
        match self {
            Level::Necessary => 3,
            Level::Warning => 2,
            Level::Info => 1,
            Level::Debug => 0,
        }
    }

    fn rank(&self) -> (r: u8)
        ensures
            r as int == self.rank_spec(),
    {
        match self {
            Level::Necessary => 3,
            Level::Warning => 2,
            Level::Info => 1,
            Level::Debug => 0,
        }
    }
}

/// A status sink that keeps every message passing its level filter, plus
/// an optional pinned progress line.
#[derive(Debug)]
pub struct Console {
    /// The pinned progress line, if any.
    pub pinned: Option<String>,
    /// Messages below this level are dropped.
    pub level: Level,
    /// Messages recorded and not yet rendered, oldest first.
    pub output: Vec<(Level, String)>,
}

impl Console {
    /// The messages recorded so far, oldest first.
    pub open spec fn out_spec(self) -> Seq<(Level, Seq<char>)> {
        Seq::new(self.output@.len(), |i: int| (self.output@[i].0, self.output@[i].1@))
    }

    /// The pinned progress line, if any.
    pub open spec fn pinned_spec(self) -> Option<Seq<char>> {
        match self.pinned {
            Some(p) => Some(p@),
            None => None,
        }
    }

    pub fn new(level: Level) -> (c: Console)
        ensures
            c.level == level,
            c.out_spec() == Seq::<(Level, Seq<char>)>::empty(),
            c.pinned_spec() is None,
    {
        let c = Console { pinned: None, level, output: Vec::new() };
        proof {
            assert(c.out_spec() =~= Seq::<(Level, Seq<char>)>::empty());
        }
        c
    }

    /// Record `message` at `level`, unless the filter drops it.
    pub fn print_with_level(&mut self, level: Level, message: &str)
        ensures
            final(self).level == old(self).level,
            final(self).pinned_spec() == old(self).pinned_spec(),
            final(self).out_spec() == (if level.rank_spec() >= old(self).level.rank_spec() {
                old(self).out_spec().push((level, message@))
            } else {
                old(self).out_spec()
            }),
    {
        if level.rank() < self.level.rank() {
            return ;
        }
        self.output.push((level, message.to_owned()));
        proof {
            assert(self.out_spec() =~= old(self).out_spec().push((level, message@)));
        }
    }

    /// Record a message of the highest severity.
    pub fn print(&mut self, message: &str)
        ensures
            final(self).level == old(self).level,
            final(self).pinned_spec() == old(self).pinned_spec(),
            final(self).out_spec() == old(self).out_spec().push((Level::Necessary, message@)),
    {
        self.print_with_level(Level::Necessary, message);
    }

    /// Record a warning.
    pub fn warn(&mut self, message: &str)
        ensures
            final(self).level == old(self).level,
            final(self).pinned_spec() == old(self).pinned_spec(),
            final(self).out_spec() == (if old(self).level.rank_spec() <= 2 {
                old(self).out_spec().push((Level::Warning, message@))
            } else {
                old(self).out_spec()
            }),
    {
        self.print_with_level(Level::Warning, message);
    }

    /// Record an informational message.
    pub fn info(&mut self, message: &str)
        ensures
            final(self).level == old(self).level,
            final(self).pinned_spec() == old(self).pinned_spec(),
            final(self).out_spec() == (if old(self).level.rank_spec() <= 1 {
                old(self).out_spec().push((Level::Info, message@))
            } else {
                old(self).out_spec()
            }),
    {
        self.print_with_level(Level::Info, message);
    }

    /// Record a debugging message.
    pub fn debug(&mut self, message: &str)
        ensures
            final(self).level == old(self).level,
            final(self).pinned_spec() == old(self).pinned_spec(),
            final(self).out_spec() == (if old(self).level.rank_spec() <= 0 {
                old(self).out_spec().push((Level::Debug, message@))
            } else {
                old(self).out_spec()
            }),
    {
        self.print_with_level(Level::Debug, message);
    }

    /// Pin `pinned` as the single updating progress line.
    pub fn pin(&mut self, pinned: String)
        ensures
            final(self).level == old(self).level,
            final(self).out_spec() == old(self).out_spec(),
            final(self).pinned_spec() == Some(pinned@),
    {
        match &self.pinned {
            Some(already_pinned) => {
                if already_pinned.eq(&pinned) {
                    proof {
                        assert(old(self).pinned_spec() == Some(pinned@));
                    }
                    return ;
                }
            },
            None => {},
        }
        self.pinned = Some(pinned);
    }

    /// Remove the pinned progress line.
    pub fn unpin(&mut self)
        ensures
            final(self).level == old(self).level,
            final(self).out_spec() == old(self).out_spec(),
            final(self).pinned_spec() is None,
    {
        self.pinned = None;
    }

    /// Hand out the recorded messages and forget them; for the front end
    /// that renders them.
    pub fn take_output(&mut self) -> (r: Vec<(Level, String)>)
        ensures
            final(self).level == old(self).level,
            final(self).pinned_spec() == old(self).pinned_spec(),
            final(self).out_spec() == Seq::<(Level, Seq<char>)>::empty(),
            r@ == old(self).output@,
    {
        let mut r: Vec<(Level, String)> = Vec::new();
        core::mem::swap(&mut self.output, &mut r);
        proof {
            assert(self.out_spec() =~= Seq::<(Level, Seq<char>)>::empty());
        }
        r
    }

    /// The current pinned line, for the front end that renders it.
    pub fn pinned_message(&self) -> (r: &Option<String>)
        ensures
            *r == self.pinned,
            r is Some <==> self.pinned_spec() is Some,
    {
        &self.pinned
    }
}

} // verus!
