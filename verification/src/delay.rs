//! A fixed-length delay line: the circular buffer at the heart of the reverb's comb
//! and all-pass filters.

use vstd::prelude::*;

verus! {

/// A first-in, first-out line of a fixed number of samples: each push of a new
/// sample lets the oldest one out.
pub struct DelayLine<S> {
    buffer: Vec<S>,
    index: usize,
}

impl<S> DelayLine<S> {
    /// The position of the oldest sample lies inside the buffer.
    pub closed spec fn well_formed(self) -> bool {
        self.index < self.buffer.len()
    }

    /// The samples in the line, oldest first.
    pub closed spec fn view(self) -> Seq<S> {
        self.buffer@.subrange(self.index as int, self.buffer.len() as int) + self.buffer@.subrange(
            0,
            self.index as int,
        )
    }

    /// The number of samples the line holds.
    pub closed spec fn capacity(self) -> nat {
        self.buffer@.len()
    }
}

impl<S: Copy> DelayLine<S> {
    /// A line of `size` samples, all equal to `fill`.
    pub fn new(size: usize, fill: S) -> (r: Self)
        requires
            size > 0,
        ensures
            r.well_formed(),
            r.view() == Seq::new(size as nat, |i: int| fill),
            r.capacity() == size,
    {
        let mut buffer: Vec<S> = Vec::new();
        let mut i: usize = 0;
        while i < size
            invariant
                i <= size,
                buffer@ == Seq::new(i as nat, |j: int| fill),
            decreases size - i,
        {
            buffer.push(fill);
            assert(buffer@ =~= Seq::new((i + 1) as nat, |j: int| fill));
            i += 1;
        }
        let r = DelayLine { buffer, index: 0 };
        assert(r.view() =~= Seq::new(size as nat, |j: int| fill));
        r
    }

    /// The oldest sample, the next to leave the line.
    pub fn oldest(&self) -> (r: S)
        requires
            self.well_formed(),
        ensures
            self.view().len() > 0,
            r == self.view()[0],
    {
        self.buffer[self.index]
    }

    /// Pushes a new sample in, letting the oldest one out.
    pub fn push(&mut self, sample: S)
        requires
            old(self).well_formed(),
        ensures
            final(self).well_formed(),
            final(self).view() == old(self).view().drop_first().push(sample),
            final(self).capacity() == old(self).capacity(),
    {
        let ghost before = self.view();
        let ghost b = self.buffer@;
        let ghost i = self.index as int;
        let len = self.buffer.len();
        let next = if self.index + 1 == len {
            0
        } else {
            self.index + 1
        };
        self.buffer.set(self.index, sample);
        self.index = next;
        proof {
            let after = self.view();
            let expect = before.drop_first().push(sample);
            assert(after.len() == expect.len());
            assert forall|k: int| 0 <= k < after.len() implies after[k] == expect[k] by {
                if next == 0 {
                    assert(i == len - 1);
                } else {
                    assert(next == i + 1);
                }
            }
            assert(after =~= expect);
        }
    }

    /// The number of samples the line holds.
    pub fn len(&self) -> (r: usize)
        requires
            self.well_formed(),
        ensures
            r == self.capacity(),
            r == self.view().len(),
            r > 0,
    {
        self.buffer.len()
    }
}

/// The line after pushing `samples` in order: what was in it, followed by the new
/// samples, less as many of the oldest as were pushed.
pub open spec fn after_pushes<S>(line: Seq<S>, samples: Seq<S>) -> Seq<S> {
    (line + samples).skip(samples.len() as int)
}

/// Pushing one sample more extends a run of pushes.
pub proof fn lemma_push_extends<S>(line: Seq<S>, samples: Seq<S>, sample: S)
    requires
        samples.len() < line.len(),
    ensures
        after_pushes(line, samples).drop_first().push(sample) == after_pushes(
            line,
            samples.push(sample),
        ),
{
    assert(after_pushes(line, samples).drop_first().push(sample) =~= after_pushes(
        line,
        samples.push(sample),
    ));
}

/// A line of `n` samples delays by exactly `n`: after `n` pushes it holds exactly the
/// pushed samples, the first of them oldest.
pub proof fn lemma_full_delay<S>(line: Seq<S>, samples: Seq<S>)
    requires
        samples.len() == line.len(),
    ensures
        after_pushes(line, samples) == samples,
{
    assert(after_pushes(line, samples) =~= samples);
}

} // verus!
