//! A matched part of a text, and a sequence of them handed out one by one.
use vstd::prelude::*;
use std::ops::Range;

verus! {

/// The text of a match and where it starts and ends in the searched text.
pub struct Capture {
    text: String,
    start: usize,
    end: usize,
}

/// The value of a `Capture`: its text, its start and its end.
pub struct CaptureView {
    pub text: Seq<char>,
    pub start: usize,
    pub end: usize,
}

impl View for Capture {
    type V = CaptureView;

    closed spec fn view(&self) -> CaptureView {
        CaptureView { text: self.text@, start: self.start, end: self.end }
    }
}

impl Clone for Capture {
    fn clone(&self) -> (res: Self)
        ensures
            res@ == self@,
    {
        Capture { text: self.text.clone(), start: self.start, end: self.end }
    }
}

impl Capture {
    /// The text of the match.
    pub fn as_str(&self) -> (res: &str)
        ensures
            res@ == self@.text,
    {
        self.text.as_str()
    }

    /// Where the match starts.
    pub fn start(&self) -> (res: usize)
        ensures
            res == self@.start,
    {
        self.start
    }

    /// Where the match ends.
    pub fn end(&self) -> (res: usize)
        ensures
            res == self@.end,
    {
        self.end
    }

    /// The positions from the start of the match up to its end.
    pub fn range(&self) -> (res: Range<usize>)
        ensures
            res.start == self@.start,
            res.end == self@.end,
    {
        self.start..self.end
    }
}

/// Captures handed out in order; `index` counts those already handed out.
pub struct Captures {
    captures: Vec<Capture>,
    index: usize,
}

impl Captures {
    /// No more captures were handed out than there are.
    #[verifier::type_invariant]
    closed spec fn inv(self) -> bool {
        self.index <= self.captures@.len()
    }

    /// The captures that are still to be handed out, in order.
    pub closed spec fn remaining(self) -> Seq<CaptureView> {
        self.captures@.subrange(self.index as int, self.captures@.len() as int).map_values(
            |c: Capture| c@,
        )
    }

    /// The captures of a search from its raw `(start, end)` pairs. Captures are
    /// not collected yet: whatever the pairs, there are none to hand out.
    pub fn new(raw_captures: Vec<(usize, usize)>) -> (res: Self)
        ensures
            res.remaining() == Seq::<CaptureView>::empty(),
    {
        let res = Captures { captures: Vec::new(), index: 0 };
        assert(res.remaining() =~= Seq::<CaptureView>::empty());
        res
    }

    /// The next capture, or `None` once all were handed out.
    pub fn next(&mut self) -> (res: Option<Capture>)
        ensures
            old(self).remaining().len() == 0 ==> res is None && final(self).remaining() == old(self).remaining(),
            old(self).remaining().len() > 0 ==> (res matches Some(c) && c@ == old(self).remaining()[0]
                && final(self).remaining() == old(self).remaining().drop_first()),
    {
        proof {
            use_type_invariant(&*self);
        }
        if self.index < self.captures.len() {
            let capture = self.captures[self.index].clone();
            self.index = self.index + 1;
            assert(self.remaining() =~= old(self).remaining().drop_first());
            Some(capture)
        } else {
            assert(old(self).remaining() =~= Seq::<CaptureView>::empty());
            None
        }
    }
}

} // verus!
