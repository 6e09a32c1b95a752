//! The read-only strided view.

use vstd::prelude::*;
use vstd::arithmetic::mul::lemma_mul_inequality;
use vstd::arithmetic::mul::lemma_mul_nonnegative;

verus! {

/// A read-only strided view: the same handle shape as the mutable
/// [`crate::mut_::Strided`], but its only accessor takes the buffer by
/// shared reference, so no path back to mutation exists.
pub struct Strided {
    off: usize,
    len: usize,
    stride: usize,
    buf_len: Ghost<nat>,
}

impl Strided {
    /// The index of the first addressed element.
    pub closed spec fn spec_off(self) -> int {
        self.off as int
    }

    /// The number of addressed elements.
    pub closed spec fn spec_len(self) -> int {
        self.len as int
    }

    /// The spacing, in elements, between consecutive addressed elements.
    pub closed spec fn spec_stride(self) -> int {
        self.stride as int
    }

    /// The length of the backing buffer this view was created over.
    pub closed spec fn buf_len(self) -> int {
        self.buf_len@ as int
    }

    /// The buffer position of element `i` of this view.
    pub open spec fn addr(self, i: int) -> int {
        self.spec_off() + i * self.spec_stride()
    }

    /// Well-formedness: stride at least one, every addressed position
    /// inside the backing buffer.
    pub open spec fn wf(self) -> bool {
        &&& 1 <= self.spec_stride()
        &&& self.buf_len() <= usize::MAX
        &&& self.spec_len() > 0 ==> self.addr(self.spec_len() - 1) < self.buf_len()
    }

    /// The elements this view addresses in `buf`, in view order.
    pub open spec fn elems<T>(self, buf: Seq<T>) -> Seq<T> {
        Seq::new(self.spec_len() as nat, |i: int| buf[self.addr(i)])
    }

    pub(crate) fn from_parts(off: usize, len: usize, stride: usize, buf_len: Ghost<nat>) -> (s:
        Strided)
        ensures
            s.spec_off() == off,
            s.spec_len() == len,
            s.spec_stride() == stride,
            s.buf_len() == buf_len@,
    {
        Strided { off, len, stride, buf_len }
    }

    /// Wraps a whole buffer as a stride-1 read-only view over all of its
    /// elements.
    pub fn new<T>(buf: &Vec<T>) -> (s: Strided)
        ensures
            s.wf(),
            s.spec_off() == 0,
            s.spec_len() == buf@.len(),
            s.spec_stride() == 1,
            s.buf_len() == buf@.len(),
            s.elems(buf@) == buf@,
    {
        let s = Strided { off: 0, len: buf.len(), stride: 1, buf_len: Ghost(buf@.len()) };
        proof {
            assert(s.elems(buf@) =~= buf@);
        }
        s
    }

    /// The number of elements accessible through `self`.
    pub fn len(&self) -> (r: usize)
        ensures
            r == self.spec_len(),
    {
        self.len
    }

    /// The offset between successive elements of `self`, as a count of
    /// elements of the backing buffer.
    pub fn stride(&self) -> (r: usize)
        ensures
            r == self.spec_stride(),
    {
        self.stride
    }

    /// A reference to element `n` of the view, or `None` when `n` is out
    /// of bounds.
    pub fn get<'a, T>(&self, buf: &'a Vec<T>, n: usize) -> (r: Option<&'a T>)
        requires
            self.wf(),
            buf@.len() == self.buf_len(),
        ensures
            n < self.spec_len() ==> r is Some && *r.unwrap() == self.elems(buf@)[n as int],
            n >= self.spec_len() ==> r is None,
    {
        if n < self.len {
            proof {
                lemma_mul_nonnegative(n as int, self.spec_stride());
                lemma_mul_inequality(n as int, self.spec_len() - 1, self.spec_stride());
            }
            Some(&buf[self.off + n * self.stride])
        } else {
            None
        }
    }
}

} // verus!
