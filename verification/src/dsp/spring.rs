//! The reverb tank's delay lines.
//!
//! A spring tank is a wave travelling along a spring and coming back, and the
//! travelling is a plain delay line: what goes in comes out again a fixed
//! number of samples later, with nothing in between touched.

use vstd::prelude::*;

verus! {

/// A plain delay line: each sample put in comes out again `len` samples
/// later.
pub struct Line<T> {
    buf: Vec<T>,
    pos: usize,
}

impl<T: Copy> Line<T> {
    /// The samples waiting in the line, oldest first.
    pub closed spec fn waiting(&self) -> Seq<T> {
        self.buf@.subrange(self.pos as int, self.buf@.len() as int) + self.buf@.subrange(0, self.pos as int)
    }

    /// The line holds at least one sample and its position is inside it.
    pub closed spec fn wf(&self) -> bool {
        &&& self.buf@.len() >= 1
        &&& self.pos < self.buf@.len()
    }

    /// A line of `len` samples, at least one, all `silence`.
    pub fn new(len: usize, silence: T) -> (line: Self)
        ensures
            line.wf(),
            line.waiting() == Seq::new(if len == 0 { 1nat } else { len as nat }, |i: int| silence),
    {
        let size = if len == 0 { 1 } else { len };
        let mut buf: Vec<T> = Vec::new();
        while buf.len() < size
            invariant
                buf@.len() <= size,
                forall|i: int| 0 <= i < buf@.len() ==> buf@[i] == silence,
            decreases size - buf@.len(),
        {
            buf.push(silence);
        }
        let line = Self { buf, pos: 0 };
        assert(line.waiting() =~= Seq::new(size as nat, |i: int| silence));
        line
    }

    /// How many samples the line delays by.
    pub fn len(&self) -> (len: usize)
        requires
            self.wf(),
        ensures
            len == self.waiting().len(),
    {
        self.buf.len()
    }

    /// Puts `x` in and hands back the sample that went in `len` samples ago.
    pub fn process(&mut self, x: T) -> (out: T)
        requires
            old(self).wf(),
        ensures
            final(self).wf(),
            out == old(self).waiting()[0],
            final(self).waiting() == old(self).waiting().drop_first().push(x),
    {
        let ghost before = self.waiting();
        let out = self.buf[self.pos];
        let len = self.buf.len();
        self.buf.set(self.pos, x);
        self.pos = self.pos + 1;
        if self.pos == len {
            self.pos = 0;
        }
        assert(self.waiting() =~= before.drop_first().push(x));
        out
    }

    /// Silence throughout, and the position back at the start.
    pub fn reset(&mut self, silence: T)
        requires
            old(self).wf(),
        ensures
            final(self).wf(),
            final(self).waiting() == Seq::new(old(self).waiting().len(), |i: int| silence),
    {
        let mut i: usize = 0;
        while i < self.buf.len()
            invariant
                old(self).wf(),
                self.buf@.len() == old(self).buf@.len(),
                0 <= i <= self.buf@.len(),
                forall|j: int| 0 <= j < i ==> self.buf@[j] == silence,
            decreases self.buf@.len() - i,
        {
            self.buf.set(i, silence);
            i = i + 1;
        }
        self.pos = 0;
        assert(self.waiting() =~= Seq::new(old(self).waiting().len(), |i: int| silence));
    }
}

/// What a line holding `waiting` hands back, sample by sample, while `inputs`
/// go in.
pub open spec fn line_outputs<T>(waiting: Seq<T>, inputs: Seq<T>) -> Seq<T>
    decreases inputs.len(),
{
    if inputs.len() == 0 {
        Seq::empty()
    } else {
        seq![waiting[0]] + line_outputs(waiting.drop_first().push(inputs[0]), inputs.drop_first())
    }
}

/// A delay line delays and does nothing else: the `k`th sample out is the
/// `k`th of what was waiting followed by everything put in, so each input
/// comes back exactly the line's length later.
pub proof fn a_line_hands_back_its_inputs_in_order<T>(waiting: Seq<T>, inputs: Seq<T>, k: int)
    requires
        waiting.len() >= 1,
        0 <= k < inputs.len(),
    ensures
        line_outputs(waiting, inputs).len() == inputs.len(),
        line_outputs(waiting, inputs)[k] == (waiting + inputs)[k],
    decreases inputs.len(),
{
    lemma_outputs_len(waiting, inputs);
    if k > 0 {
        let next = waiting.drop_first().push(inputs[0]);
        a_line_hands_back_its_inputs_in_order(next, inputs.drop_first(), k - 1);
        assert((next + inputs.drop_first())[k - 1] == (waiting + inputs)[k]) by {
            if k - 1 < waiting.len() - 1 {
                assert(next[k - 1] == waiting[k]);
            } else if k - 1 == waiting.len() - 1 {
                assert(next[k - 1] == inputs[0]);
            } else {
                assert((next + inputs.drop_first())[k - 1] == inputs.drop_first()[k - 1 - waiting.len()]);
            }
        }
    }
}

proof fn lemma_outputs_len<T>(waiting: Seq<T>, inputs: Seq<T>)
    requires
        waiting.len() >= 1,
    ensures
        line_outputs(waiting, inputs).len() == inputs.len(),
    decreases inputs.len(),
{
    if inputs.len() > 0 {
        lemma_outputs_len(waiting.drop_first().push(inputs[0]), inputs.drop_first());
    }
}

} // verus!
