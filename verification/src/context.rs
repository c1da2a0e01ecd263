use vstd::prelude::*;

verus! {

use std::collections::VecDeque;

// Context-line bookkeeping for grep-style output: a bounded queue of the
// lines seen just before a match, a countdown of lines to print after one,
// and the last printed line number, which decides whether a divider is owed
// between two context blocks.

/// How many lines of context to show before and after each match.
#[derive(Debug)]
pub struct ShowContext {
    pub before: usize,
    pub after: usize,
}

impl Default for ShowContext {
    fn default() -> (r: Self)
        ensures
            r.before == 0,
            r.after == 0,
    {
        ShowContext { before: 0, after: 0 }
    }
}

/// The rolling state while scanning one file.
#[derive(Debug)]
pub struct ContextBuffer {
    pub is_used: bool,
    pub before: usize,
    pub after: usize,
    pub queue: VecDeque<(usize, Vec<u8>)>,
    pub after_remaining: usize,
    pub last_printed_lineno: usize,
}

impl ContextBuffer {
    pub closed spec fn spec_is_used(self) -> bool {
        self.is_used
    }

    pub closed spec fn spec_before(self) -> usize {
        self.before
    }

    pub closed spec fn spec_after(self) -> usize {
        self.after
    }

    /// The buffered before-lines, oldest first.
    pub closed spec fn entries(self) -> Seq<(usize, Vec<u8>)> {
        self.queue@
    }

    pub closed spec fn spec_after_remaining(self) -> usize {
        self.after_remaining
    }

    pub closed spec fn spec_last_printed(self) -> usize {
        self.last_printed_lineno
    }

    pub fn from_show_context(show_context: &ShowContext) -> (r: Self)
        ensures
            r.spec_is_used() == (show_context.before > 0 || show_context.after > 0),
            r.spec_before() == show_context.before,
            r.spec_after() == show_context.after,
            r.entries().len() == 0,
            r.spec_after_remaining() == 0,
            r.spec_last_printed() == 0,
    {
        Self {
            is_used: show_context.before > 0 || show_context.after > 0,
            before: show_context.before,
            after: show_context.after,
            queue: VecDeque::new(),
            after_remaining: 0,
            last_printed_lineno: 0,
        }
    }

    /// Cheap check, allowing the caller to skip all context logic.
    pub fn is_used(&self) -> (r: bool)
        ensures
            r == self.spec_is_used(),
    {
        self.is_used
    }

    /// Whether a divider is owed before showing a new context block: some
    /// line was printed already, and the block (its oldest buffered line, or
    /// the matching line itself when nothing is buffered) does not adjoin
    /// it.
    pub fn is_new_match_block(&self, lineno: usize) -> (r: bool)
        ensures
            r == (self.spec_last_printed() != 0 && (if self.entries().len() > 0 {
                self.entries()[0].0
            } else {
                lineno
            }) > self.spec_last_printed() + 1),
    {
        if self.last_printed_lineno == 0 {
            return false;
        }
        let first_c_lineno: usize = if self.queue.len() > 0 {
            self.queue[0].0
        } else {
            lineno
        };
        first_c_lineno > self.last_printed_lineno && first_c_lineno - self.last_printed_lineno > 1
    }

    /// The buffered before-lines.
    pub fn get_before_lines(&self) -> (r: &VecDeque<(usize, Vec<u8>)>)
        ensures
            r@ == self.entries(),
    {
        &self.queue
    }

    /// Drop the buffered before-lines, after printing them.
    pub fn clear_before_lines(&mut self)
        ensures
            final(self).entries().len() == 0,
            final(self).spec_is_used() == old(self).spec_is_used(),
            final(self).spec_before() == old(self).spec_before(),
            final(self).spec_after() == old(self).spec_after(),
            final(self).spec_after_remaining() == old(self).spec_after_remaining(),
            final(self).spec_last_printed() == old(self).spec_last_printed(),
    {
        self.queue.clear();
    }

    /// Remember a non-matching line; the oldest buffered line falls out once
    /// the buffer holds more than the configured number.
    pub fn push_before_line(&mut self, lineno: usize, line: &[u8])
        ensures
            final(self).spec_is_used() == old(self).spec_is_used(),
            final(self).spec_before() == old(self).spec_before(),
            final(self).spec_after() == old(self).spec_after(),
            final(self).spec_after_remaining() == old(self).spec_after_remaining(),
            final(self).spec_last_printed() == old(self).spec_last_printed(),
            old(self).spec_before() == 0 ==> final(self).entries() == old(self).entries(),
            old(self).spec_before() > 0 ==> ({
                let q0 = old(self).entries();
                let shifted: int = if q0.len() + 1 > old(self).spec_before() {
                    1
                } else {
                    0
                };
                &&& final(self).entries().len() == q0.len() + 1 - shifted
                &&& (forall|k: int|
                    0 <= k < q0.len() - shifted ==> final(self).entries()[k] == q0[k + shifted])
                &&& final(self).entries().last().0 == lineno
                &&& final(self).entries().last().1@ == line@
            }),
    {
        if self.before == 0 {
            return ;
        }
        self.queue.push_back((lineno, vstd::slice::slice_to_vec(line)));
        if self.queue.len() > self.before {
            self.queue.pop_front();
        }
    }

    /// Arm the after-line countdown; call after printing a match.
    pub fn request_after(&mut self)
        ensures
            final(self).spec_after_remaining() == old(self).spec_after(),
            final(self).spec_is_used() == old(self).spec_is_used(),
            final(self).spec_before() == old(self).spec_before(),
            final(self).spec_after() == old(self).spec_after(),
            final(self).entries() == old(self).entries(),
            final(self).spec_last_printed() == old(self).spec_last_printed(),
    {
        self.after_remaining = self.after;
    }

    /// Whether the current non-matching line still belongs to the after
    /// context of the last match; counts the budget down.
    pub fn should_print_after_line(&mut self) -> (r: bool)
        ensures
            r == (old(self).spec_after_remaining() > 0),
            final(self).spec_after_remaining() == if old(self).spec_after_remaining() > 0 {
                (old(self).spec_after_remaining() - 1) as usize
            } else {
                0usize
            },
            final(self).spec_is_used() == old(self).spec_is_used(),
            final(self).spec_before() == old(self).spec_before(),
            final(self).spec_after() == old(self).spec_after(),
            final(self).entries() == old(self).entries(),
            final(self).spec_last_printed() == old(self).spec_last_printed(),
    {
        if self.after_remaining == 0 {
            return false;
        }
        self.after_remaining = self.after_remaining - 1;
        true
    }

    /// Record the number of the line just printed.
    pub fn update_last_printed(&mut self, lineno: usize)
        ensures
            final(self).spec_last_printed() == lineno,
            final(self).spec_is_used() == old(self).spec_is_used(),
            final(self).spec_before() == old(self).spec_before(),
            final(self).spec_after() == old(self).spec_after(),
            final(self).entries() == old(self).entries(),
            final(self).spec_after_remaining() == old(self).spec_after_remaining(),
    {
        self.last_printed_lineno = lineno;
    }
}

} // verus!
