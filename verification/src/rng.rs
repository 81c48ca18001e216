use vstd::prelude::*;

verus! {

/// The word one draw reads: the tape word under the cursor, or 0 from an
/// empty tape.
pub open spec fn tape_value(values: Seq<u64>, pos: int) -> u64 {
    if values.len() == 0 {
        0u64
    } else {
        values[pos]
    }
}

/// The index below `n` that a draw at `pos` yields.
pub open spec fn tape_pick(values: Seq<u64>, pos: int, n: int) -> int {
    tape_value(values, pos) as int % n
}

/// The cursor after a draw: it advances cyclically over the tape.
pub open spec fn tape_next(values: Seq<u64>, pos: int) -> int {
    if values.len() == 0 {
        0
    } else {
        (pos + 1) % (values.len() as int)
    }
}

/// Source of the index choices the assignment algorithm makes: a tape of
/// words consumed cyclically.  A fixed tape makes every run deterministic;
/// `fresh` fills the tape from the process randomness.
pub struct RandomSource {
    values: Vec<u64>,
    pos: usize,
}

impl RandomSource {
    /// The cursor stays inside the tape (and at 0 on an empty tape).
    pub closed spec fn wf(self) -> bool {
        if self.values@.len() == 0 {
            self.pos == 0
        } else {
            self.pos < self.values@.len()
        }
    }

    /// The tape words.
    pub closed spec fn words(self) -> Seq<u64> {
        self.values@
    }

    /// The cursor: where the next draw reads.
    pub closed spec fn cursor(self) -> int {
        self.pos as int
    }

    /// A deterministic source reading the given words.
    pub fn from_words(values: Vec<u64>) -> (r: Self)
        ensures
            r.wf(),
            r.words() == values@,
            r.cursor() == 0,
    {
        RandomSource { values, pos: 0 }
    }

    /// A source whose `len` words come from the process randomness.
    pub fn fresh(len: usize) -> (r: Self)
        ensures
            r.wf(),
            r.cursor() == 0,
            r.words().len() == len as int,
    {
        let mut values: Vec<u64> = Vec::new();
        while values.len() < len
            invariant
                values@.len() <= len as int,
            decreases len as int - values@.len(),
        {
            values.push(0u64);
        }
        fill_random(&mut values);
        RandomSource::from_words(values)
    }

    /// One draw: an index below `n`, read from the tape word under the
    /// cursor; the cursor advances.
    pub fn draw_below(&mut self, n: usize) -> (r: usize)
        requires
            old(self).wf(),
            n > 0,
        ensures
            final(self).wf(),
            r < n,
            final(self).words() == old(self).words(),
            r as int == tape_pick(old(self).words(), old(self).cursor(), n as int),
            final(self).cursor() == tape_next(old(self).words(), old(self).cursor()),
    {
        let len = self.values.len();
        if len == 0 {
            0
        } else {
            let v = self.values[self.pos];
            self.pos = (self.pos + 1) % len;
            (v % (n as u64)) as usize
        }
    }
}

/// Relies on rand's `Rng::fill`: it overwrites the slice with random words
/// and leaves its length unchanged.
#[verifier::external_body]
fn fill_random(buf: &mut Vec<u64>)
    ensures
        final(buf)@.len() == old(buf)@.len(),
{
    rand::Rng::fill(&mut rand::thread_rng(), buf.as_mut_slice());
}

} // verus!
