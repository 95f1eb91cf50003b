use vstd::prelude::*;
use vstd::slice::slice_subrange;

verus! {

/// Append-only byte sink used to build outgoing frames.
///
/// The bytes written so far are the prefix `array[0..position]`; the rest of
/// the array is spare room. When the room runs out the array doubles.
pub struct Buffer {
    array: Vec<u8>,
    position: usize,
}

impl View for Buffer {
    type V = Seq<u8>;

    /// The bytes written so far.
    closed spec fn view(&self) -> Seq<u8> {
        self.array@.subrange(0, self.position as int)
    }
}

impl Buffer {
    /// The write cursor never passes the end of the array.
    pub closed spec fn wf(&self) -> bool {
        self.position <= self.array@.len()
    }

    /// An empty sink with room for `init_size` bytes before it first grows.
    pub fn new(init_size: usize) -> (r: Buffer)
        ensures
            r.wf(),
            r@ == Seq::<u8>::empty(),
    {
        let r = Buffer { array: vec![0u8; init_size], position: 0 };
        assert(r@ =~= Seq::<u8>::empty());
        r
    }

    /// Appends one byte, growing the array first when it is full.
    pub fn write_byte(&mut self, value: u8)
        requires
            old(self).wf(),
            old(self)@.len() < usize::MAX,
        ensures
            final(self).wf(),
            final(self)@ == old(self)@.push(value),
    {
        if self.array.len() == self.position {
            self.expand();
        }
        let ghost before = self.array@;
        self.array.set(self.position, value);
        self.position = self.position + 1;
        assert(self@ =~= old(self)@.push(value)) by {
            assert(before.subrange(0, self.position - 1) == old(self)@);
        }
    }

    /// The bytes written so far.
    pub fn take(&self) -> (r: &[u8])
        requires
            self.wf(),
        ensures
            r@ == self@,
    {
        slice_subrange(self.array.as_slice(), 0, self.position)
    }

    /// Forgets what was written and keeps the array for the next frame.
    pub fn reset(&mut self)
        requires
            old(self).wf(),
        ensures
            final(self).wf(),
            final(self)@ == Seq::<u8>::empty(),
    {
        self.position = 0;
        assert(self@ =~= Seq::<u8>::empty());
    }

    /// Doubles the array (to one byte when it is empty), keeping what was written.
    fn expand(&mut self)
        requires
            old(self).wf(),
            old(self).position == old(self).array@.len(),
            old(self).position < usize::MAX,
        ensures
            final(self).wf(),
            final(self)@ == old(self)@,
            final(self).position == old(self).position,
            final(self).position < final(self).array@.len(),
    {
        let len = self.array.len();
        let new_len: usize = if len == 0 {
            1
        } else if len > usize::MAX / 2 {
            usize::MAX
        } else {
            len * 2
        };
        let mut new_vec = vec![0u8; new_len];
        let mut i: usize = 0;
        while i < len
            invariant
                len == self.array@.len(),
                len < new_len,
                new_vec@.len() == new_len,
                i <= len,
                forall|j: int| 0 <= j < i ==> new_vec@[j] == self.array@[j],
            decreases len - i,
        {
            new_vec.set(i, self.array[i]);
            i = i + 1;
        }
        self.array = new_vec;
        assert(self@ =~= old(self)@);
    }
}

} // verus!
