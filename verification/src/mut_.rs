//! The mutable strided view and its partition operations.

use vstd::prelude::*;
use vstd::arithmetic::div_mod::lemma_basic_div;
use vstd::arithmetic::div_mod::lemma_div_nonincreasing;
use vstd::arithmetic::div_mod::lemma_div_plus_one;
use vstd::arithmetic::div_mod::lemma_div_pos_is_pos;
use vstd::arithmetic::div_mod::lemma_fundamental_div_mod;
use vstd::arithmetic::div_mod::lemma_mod_bound;
use vstd::arithmetic::div_mod::lemma_mod_multiples_vanish;
use vstd::arithmetic::div_mod::lemma_small_mod;
use vstd::arithmetic::mul::lemma_mul_inequality;
use vstd::arithmetic::mul::lemma_mul_nonnegative;
use vstd::arithmetic::mul::lemma_mul_strict_inequality;

verus! {

/// A mutable strided view: a handle addressing elements
/// `off, off + stride, off + 2*stride, ...` of a backing buffer, for `len`
/// elements in all.  The handle records (in ghost state) the length of the
/// buffer it was created over; every accessor demands a buffer of exactly
/// that length.
///
/// The type is deliberately neither `Clone` nor `Copy`, and the partition
/// operations take `self` by value: once a view has been split, the parent
/// handle is gone, and the children address disjoint positions of the
/// buffer (see `lemma_children_disjoint` and `lemma_split_at_disjoint`).
/// `reborrow` hands out a temporary copy for use with the by-value
/// operations.
pub struct Strided {
    off: usize,
    len: usize,
    stride: usize,
    buf_len: Ghost<nat>,
}

impl Strided {
    /// The index of the first addressed element.
    pub closed spec fn spec_off(self) -> int {
        self.off as int
    }

    /// The number of addressed elements.
    pub closed spec fn spec_len(self) -> int {
        self.len as int
    }

    /// The spacing, in elements, between consecutive addressed elements.
    pub closed spec fn spec_stride(self) -> int {
        self.stride as int
    }

    /// The length of the backing buffer this view was created over.
    pub closed spec fn buf_len(self) -> int {
        self.buf_len@ as int
    }

    /// The buffer position of element `i` of this view.
    pub open spec fn addr(self, i: int) -> int {
        self.spec_off() + i * self.spec_stride()
    }

    /// Well-formedness: the stride is at least one and every addressed
    /// position lies inside the backing buffer.  Constructors establish
    /// this and every operation preserves it.
    pub open spec fn wf(self) -> bool {
        &&& 1 <= self.spec_stride()
        &&& self.buf_len() <= usize::MAX
        &&& self.spec_len() > 0 ==> self.addr(self.spec_len() - 1) < self.buf_len()
    }

    /// The elements this view addresses in `buf`, in view order.
    pub open spec fn elems<T>(self, buf: Seq<T>) -> Seq<T> {
        Seq::new(self.spec_len() as nat, |i: int| buf[self.addr(i)])
    }

    /// The set of buffer positions this view may touch.
    pub open spec fn addrs(self) -> Set<int> {
        Set::new(|a: int| exists|i: int| 0 <= i < self.spec_len() && a == self.addr(i))
    }

    /// Wraps a whole buffer as a stride-1 view over all of its elements.
    pub fn new<T>(buf: &Vec<T>) -> (s: Strided)
        ensures
            s.wf(),
            s.spec_off() == 0,
            s.spec_len() == buf@.len(),
            s.spec_stride() == 1,
            s.buf_len() == buf@.len(),
            s.elems(buf@) == buf@,
    {
        let s = Strided { off: 0, len: buf.len(), stride: 1, buf_len: Ghost(buf@.len()) };
        proof {
            assert(s.spec_len() > 0 ==> s.addr(s.spec_len() - 1) == s.spec_len() - 1);
            assert(s.elems(buf@) =~= buf@);
        }
        s
    }

    /// The number of elements accessible through `self`.
    pub fn len(&self) -> (r: usize)
        ensures
            r == self.spec_len(),
    {
        self.len
    }

    /// The offset between successive elements of `self`, as a count of
    /// elements of the backing buffer.
    pub fn stride(&self) -> (r: usize)
        ensures
            r == self.spec_stride(),
    {
        self.stride
    }

    /// The buffer position of the first element of this view.
    ///
    /// This plays the role a raw first-element pointer plays for a view
    /// over raw memory.  NB: only every `self.stride()`-th position from
    /// here is addressed by this view; the positions in between may belong
    /// to sibling views produced by partitioning.
    pub fn as_mut_ptr(&mut self) -> (r: usize)
        ensures
            *final(self) == *old(self),
            r == old(self).spec_off(),
    {
        self.off
    }

    /// A temporary copy of this view.
    ///
    /// This is an explicit form of the reborrowing the compiler performs
    /// for `&mut` references: it lets the by-value partition operations be
    /// applied without giving up the original handle.  The copy addresses
    /// exactly the same elements.
    pub fn reborrow(&mut self) -> (r: Strided)
        ensures
            *final(self) == *old(self),
            r == *old(self),
    {
        Strided { off: self.off, len: self.len, stride: self.stride, buf_len: self.buf_len }
    }

    /// A mutable reference to element `n` of the view, or `None` when `n`
    /// is out of bounds.  The buffer changes only at the position the
    /// returned reference addresses.
    pub fn get_mut<'a, T>(&self, buf: &'a mut Vec<T>, n: usize) -> (r: Option<&'a mut T>)
        requires
            self.wf(),
            old(buf)@.len() == self.buf_len(),
        ensures
            n < self.spec_len() ==> r is Some && *r.unwrap() == old(buf)@[self.addr(n as int)]
                && final(buf)@ == old(buf)@.update(self.addr(n as int), *final(r.unwrap())),
            n >= self.spec_len() ==> r is None && final(buf)@ == old(buf)@,
    {
        if n < self.len {
            proof {
                lemma_addr_in_bounds(*self, n as int);
            }
            Some(&mut buf[self.off + n * self.stride])
        } else {
            None
        }
    }

    /// A mutable reference to element `n` of the view: the trusted-caller
    /// fast path of `get_mut`, whose bound is a precondition rather than a
    /// checked case.
    pub fn index_mut<'a, T>(&self, buf: &'a mut Vec<T>, n: usize) -> (r: &'a mut T)
        requires
            self.wf(),
            old(buf)@.len() == self.buf_len(),
            n < self.spec_len(),
        ensures
            *r == old(buf)@[self.addr(n as int)],
            final(buf)@ == old(buf)@.update(self.addr(n as int), *final(r)),
    {
        proof {
            lemma_addr_in_bounds(*self, n as int);
        }
        &mut buf[self.off + n * self.stride]
    }

    /// A read-only view of the same elements.  The mutable view stays
    /// usable; the result offers no path back to mutation.
    pub fn as_imm(&self) -> (r: crate::imm::Strided)
        ensures
            r.spec_off() == self.spec_off(),
            r.spec_len() == self.spec_len(),
            r.spec_stride() == self.spec_stride(),
            r.buf_len() == self.buf_len(),
            self.wf() ==> r.wf(),
    {
        crate::imm::Strided::from_parts(self.off, self.len, self.stride, self.buf_len)
    }

    /// The view restricted to its elements at indices `from` (inclusive)
    /// to `to` (exclusive), with the same stride.  Consumes the view.
    ///
    /// The bounds `from <= to <= self.len()` are the caller's contract; an
    /// empty result (`from == to`) is legal and keeps the parent's offset
    /// when `from == self.len()`.
    pub fn slice(self, from: usize, to: usize) -> (r: Strided)
        requires
            self.wf(),
            from <= to,
            to <= self.spec_len(),
        ensures
            r.wf(),
            r.buf_len() == self.buf_len(),
            r.spec_len() == to - from,
            r.spec_stride() == self.spec_stride(),
            r.spec_off() == if from < self.spec_len() {
                self.addr(from as int)
            } else {
                self.spec_off()
            },
            forall|i: int| 0 <= i < r.spec_len() ==> r.addr(i) == self.addr(from + i),
    {
        let new_off = if from < self.len {
            proof {
                lemma_addr_in_bounds(self, from as int);
            }
            self.off + from * self.stride
        } else {
            self.off
        };
        let r = Strided {
            off: new_off,
            len: to - from,
            stride: self.stride,
            buf_len: self.buf_len,
        };
        proof {
            lemma_sub_view(self, from as int, r);
        }
        r
    }

    /// The view restricted to its elements from index `from` (inclusive)
    /// on.  Consumes the view.
    pub fn slice_from(self, from: usize) -> (r: Strided)
        requires
            self.wf(),
            from <= self.spec_len(),
        ensures
            r.wf(),
            r.buf_len() == self.buf_len(),
            r.spec_len() == self.spec_len() - from,
            r.spec_stride() == self.spec_stride(),
            r.spec_off() == if from < self.spec_len() {
                self.addr(from as int)
            } else {
                self.spec_off()
            },
            forall|i: int| 0 <= i < r.spec_len() ==> r.addr(i) == self.addr(from + i),
    {
        let to = self.len;
        self.slice(from, to)
    }

    /// The view restricted to its elements before index `to` (exclusive).
    /// Consumes the view.
    pub fn slice_to(self, to: usize) -> (r: Strided)
        requires
            self.wf(),
            to <= self.spec_len(),
        ensures
            r.wf(),
            r.buf_len() == self.buf_len(),
            r.spec_len() == to as int,
            r.spec_stride() == self.spec_stride(),
            r.spec_off() == self.spec_off(),
            forall|i: int| 0 <= i < r.spec_len() ==> r.addr(i) == self.addr(i),
    {
        self.slice(0, to)
    }

    /// Two views, the first over the elements before `idx`, the second
    /// over the elements from `idx` on: the pair `(self.slice_to(idx),
    /// self.slice_from(idx))` obtained from one consumed parent.
    pub fn split_at(self, idx: usize) -> (r: (Strided, Strided))
        requires
            self.wf(),
            idx <= self.spec_len(),
        ensures
            r.0.wf(),
            r.1.wf(),
            r.0.buf_len() == self.buf_len(),
            r.1.buf_len() == self.buf_len(),
            r.0.spec_len() == idx as int,
            r.1.spec_len() == self.spec_len() - idx,
            r.0.spec_stride() == self.spec_stride(),
            r.1.spec_stride() == self.spec_stride(),
            r.0.spec_off() == self.spec_off(),
            r.1.spec_off() == if idx < self.spec_len() {
                self.addr(idx as int)
            } else {
                self.spec_off()
            },
            forall|i: int| 0 <= i < r.0.spec_len() ==> r.0.addr(i) == self.addr(i),
            forall|i: int| 0 <= i < r.1.spec_len() ==> r.1.addr(i) == self.addr(idx + i),
    {
        let left = Strided { off: self.off, len: idx, stride: self.stride, buf_len: self.buf_len };
        let right_off = if idx < self.len {
            proof {
                lemma_addr_in_bounds(self, idx as int);
            }
            self.off + idx * self.stride
        } else {
            self.off
        };
        let right = Strided {
            off: right_off,
            len: self.len - idx,
            stride: self.stride,
            buf_len: self.buf_len,
        };
        proof {
            lemma_sub_view(self, 0, left);
            lemma_sub_view(self, idx as int, right);
        }
        (left, right)
    }
}

/// The length of child `k` when a view of length `len` is partitioned
/// `n` ways: the number of indices `k, k + n, k + 2n, ...` below `len`,
/// which is `(len - k)` divided by `n` and rounded up.
pub open spec fn part_len(len: int, n: int, k: int) -> int {
    (len - k + n - 1) / n
}

/// The stride of the children when a view of stride `stride` is
/// partitioned `n` ways.  A child with two or more elements never
/// saturates: its positions fit in the buffer, so `stride * n` fits in
/// `usize`.  A child with at most one element never uses its stride; by
/// convention it reports the product clamped to `usize::MAX`.
pub open spec fn scaled_stride(stride: int, n: int) -> int {
    if stride * n <= usize::MAX {
        stride * n
    } else {
        usize::MAX as int
    }
}

/// `c` is child `k` of the `n`-way partition of `p`: it addresses `p`'s
/// elements `k, k + n, k + 2n, ...`.
pub open spec fn is_child(p: Strided, n: int, k: int, c: Strided) -> bool {
    &&& c.wf()
    &&& c.buf_len() == p.buf_len()
    &&& c.spec_len() == part_len(p.spec_len(), n, k)
    &&& c.spec_stride() == scaled_stride(p.spec_stride(), n)
    &&& c.spec_off() == if k < p.spec_len() {
        p.addr(k)
    } else {
        p.spec_off()
    }
    &&& forall|i: int| 0 <= i < c.spec_len() ==> c.addr(i) == p.addr(k + i * n)
}

/// The facts about `part_len` that the partition operations rest on: it
/// is the exec formula `(len - k - 1) / n + 1` when `k < len` and zero
/// otherwise, and every index `k + i * n` it counts lies below `len`.
pub proof fn lemma_part_len(len: int, n: int, k: int)
    requires
        1 <= n,
        0 <= k < n + len,
        0 <= len,
    ensures
        0 <= part_len(len, n, k) <= len,
        k < len ==> part_len(len, n, k) == (len - k - 1) / n + 1,
        k >= len ==> part_len(len, n, k) == 0,
        forall|i: int| 0 <= i < part_len(len, n, k) ==> k + #[trigger] (i * n) <= len - 1,
{
    if k < len {
        lemma_div_plus_one(len - k - 1, n);
        lemma_div_pos_is_pos(len - k - 1, n);
        lemma_div_nonincreasing(len - k - 1, n);
        let m = part_len(len, n, k);
        lemma_fundamental_div_mod(len - k - 1, n);
        lemma_mod_bound(len - k - 1, n);
        assert((m - 1) * n == n * (m - 1)) by (nonlinear_arith);
        assert forall|i: int| 0 <= i < m implies k + #[trigger] (i * n) <= len - 1 by {
            lemma_mul_inequality(i, m - 1, n);
        }
    } else {
        lemma_basic_div(len - k + n - 1, n);
    }
}

impl Strided {
    /// An iterator over the `n` children of the `n`-way partition of this
    /// view: child `k` addresses elements `k, k + n, k + 2n, ...` of the
    /// consumed parent.  Exactly `n` children are produced whatever the
    /// parent's length; the later ones may be empty.
    pub fn substrides(self, n: usize) -> (r: Substrides)
        requires
            self.wf(),
            1 <= n,
        ensures
            r.wf(),
            r.parent() == self,
            r.spec_n() == n,
            r.emitted() == 0,
    {
        Substrides {
            off: self.off,
            len: self.len,
            stride: self.stride,
            n,
            emitted: 0,
            buf_len: self.buf_len,
        }
    }

    /// The two views of the alternating split of the consumed parent: the
    /// first addresses the parent's elements `0, 2, 4, ...`, the second
    /// its elements `1, 3, 5, ...`.  Defined for every length, zero and
    /// one included; the second view is then empty.
    pub fn substrides2(self) -> (r: (Strided, Strided))
        requires
            self.wf(),
        ensures
            is_child(self, 2, 0, r.0),
            is_child(self, 2, 1, r.1),
            r.0.spec_len() == (self.spec_len() + 1) / 2,
            r.1.spec_len() == self.spec_len() / 2,
            r.0.spec_len() + r.1.spec_len() == self.spec_len(),
            forall|i: int| 0 <= i < r.0.spec_len() ==> r.0.addr(i) == self.addr(2 * i),
            forall|i: int| 0 <= i < r.1.spec_len() ==> r.1.addr(i) == self.addr(2 * i + 1),
    {
        let ghost p = self;
        let mut it = self.substrides(2);
        let left = it.next().unwrap();
        let right = it.next().unwrap();
        proof {
            lemma_fundamental_div_mod(p.spec_len(), 2);
            lemma_mod_bound(p.spec_len(), 2);
        }
        (left, right)
    }
}

impl Strided {
    /// An iterator over mutable references to each successive element of
    /// `self`, leaving `self` usable afterwards.
    pub fn iter_mut(&mut self) -> (r: MutItems)
        requires
            old(self).wf(),
        ensures
            *final(self) == *old(self),
            r.wf(),
            r.view_of() == *old(self),
            r.passed() == 0,
    {
        let v = self.reborrow();
        v.into_iter()
    }

    /// An iterator over mutable references to each successive element of
    /// the consumed view.
    pub fn into_iter(self) -> (r: MutItems)
        requires
            self.wf(),
        ensures
            r.wf(),
            r.view_of() == self,
            r.passed() == 0,
    {
        MutItems {
            off: self.off,
            len: self.len,
            stride: self.stride,
            pos: 0,
            buf_len: self.buf_len,
        }
    }
}

/// An iterator over mutable references to the successive elements of a
/// strided view.  Each step borrows the backing buffer afresh, yields the
/// element at the view's next index, and reports "exhausted" once all
/// `len` elements have been passed.
pub struct MutItems {
    off: usize,
    len: usize,
    stride: usize,
    pos: usize,
    buf_len: Ghost<nat>,
}

impl MutItems {
    /// The view whose elements this iterator walks.
    pub closed spec fn view_of(self) -> Strided {
        Strided { off: self.off, len: self.len, stride: self.stride, buf_len: self.buf_len }
    }

    /// How many elements have been yielded so far.
    pub closed spec fn passed(self) -> int {
        self.pos as int
    }

    /// Well-formedness: the walked view is well-formed and the cursor has
    /// not passed its length.
    pub open spec fn wf(self) -> bool {
        &&& self.view_of().wf()
        &&& 0 <= self.passed() <= self.view_of().spec_len()
    }

    /// A mutable reference to the next element of the view in `buf`, or
    /// `None` once all elements have been passed.  The buffer changes only
    /// at the position the returned reference addresses.
    pub fn next<'a, T>(&mut self, buf: &'a mut Vec<T>) -> (r: Option<&'a mut T>)
        requires
            old(self).wf(),
            old(buf)@.len() == old(self).view_of().buf_len(),
        ensures
            final(self).wf(),
            final(self).view_of() == old(self).view_of(),
            old(self).passed() == old(self).view_of().spec_len() ==> r is None && *final(self)
                == *old(self) && final(buf)@ == old(buf)@,
            old(self).passed() < old(self).view_of().spec_len() ==> {
                let a = old(self).view_of().addr(old(self).passed());
                &&& r is Some
                &&& final(self).passed() == old(self).passed() + 1
                &&& *r.unwrap() == old(buf)@[a]
                &&& final(buf)@ == old(buf)@.update(a, *final(r.unwrap()))
            },
    {
        if self.pos >= self.len {
            return None;
        }
        let ghost v = self.view_of();
        proof {
            lemma_addr_in_bounds(v, self.pos as int);
        }
        let a = self.off + self.pos * self.stride;
        self.pos = self.pos + 1;
        Some(&mut buf[a])
    }

    /// The exact number of elements still to come, as both the lower and
    /// the upper bound.
    pub fn size_hint(&self) -> (r: (usize, Option<usize>))
        requires
            self.wf(),
        ensures
            r.0 == self.view_of().spec_len() - self.passed(),
            r.1 == Some(r.0),
    {
        let rem = self.len - self.pos;
        (rem, Some(rem))
    }
}

/// The producer of the `n` children of an `n`-way partition.  It hands
/// out child `0` through child `n - 1` in order and reports "exhausted"
/// from then on; `size_hint` gives the exact number still to come.
pub struct Substrides {
    off: usize,
    len: usize,
    stride: usize,
    n: usize,
    emitted: usize,
    buf_len: Ghost<nat>,
}

impl Substrides {
    /// The consumed parent view this producer partitions.
    pub closed spec fn parent(self) -> Strided {
        Strided { off: self.off, len: self.len, stride: self.stride, buf_len: self.buf_len }
    }

    /// The number of children of the partition.
    pub closed spec fn spec_n(self) -> int {
        self.n as int
    }

    /// How many children have been handed out so far.
    pub closed spec fn emitted(self) -> int {
        self.emitted as int
    }

    /// How many children are still to come.
    pub open spec fn remaining(self) -> int {
        self.spec_n() - self.emitted()
    }

    /// Well-formedness: the parent is well-formed, the partition is at
    /// least one-way, and no more than `n` children have been emitted.
    pub open spec fn wf(self) -> bool {
        &&& self.parent().wf()
        &&& 1 <= self.spec_n()
        &&& 0 <= self.emitted() <= self.spec_n()
    }

    /// The next child view, or `None` once all `n` have been produced.
    pub fn next(&mut self) -> (r: Option<Strided>)
        requires
            old(self).wf(),
        ensures
            final(self).wf(),
            final(self).parent() == old(self).parent(),
            final(self).spec_n() == old(self).spec_n(),
            old(self).emitted() == old(self).spec_n() ==> r is None && *final(self) == *old(
                self,
            ),
            old(self).emitted() < old(self).spec_n() ==> r is Some && final(self).emitted() == old(
                self,
            ).emitted() + 1 && is_child(
                old(self).parent(),
                old(self).spec_n(),
                old(self).emitted(),
                r.unwrap(),
            ),
    {
        if self.emitted >= self.n {
            return None;
        }
        let ghost p = self.parent();
        let k = self.emitted;
        proof {
            lemma_part_len(self.len as int, self.n as int, k as int);
        }
        let c_len = if k < self.len {
            proof {
                lemma_div_nonincreasing(self.len - k - 1, self.n as int);
                lemma_div_pos_is_pos(self.len - k - 1, self.n as int);
            }
            (self.len - k - 1) / self.n + 1
        } else {
            0
        };
        let c_stride = match self.stride.checked_mul(self.n) {
            Some(s) => s,
            None => usize::MAX,
        };
        let c_off = if k < self.len {
            proof {
                lemma_addr_in_bounds(p, k as int);
            }
            self.off + k * self.stride
        } else {
            self.off
        };
        self.emitted = k + 1;
        let c = Strided { off: c_off, len: c_len, stride: c_stride, buf_len: self.buf_len };
        proof {
            lemma_is_child(p, self.n as int, k as int, c);
        }
        Some(c)
    }

    /// The exact number of children still to come, as both the lower and
    /// the upper bound.
    pub fn size_hint(&self) -> (r: (usize, Option<usize>))
        requires
            self.wf(),
        ensures
            r.0 == self.remaining(),
            r.1 == Some(r.0),
    {
        let rem = self.n - self.emitted;
        (rem, Some(rem))
    }
}

/// A candidate child `c` whose fields follow the partition formulas is a
/// child: its addresses correspond to the parent's and it is well-formed.
proof fn lemma_is_child(p: Strided, n: int, k: int, c: Strided)
    requires
        p.wf(),
        1 <= n,
        0 <= k < n,
        c.buf_len() == p.buf_len(),
        c.spec_len() == part_len(p.spec_len(), n, k),
        c.spec_stride() == scaled_stride(p.spec_stride(), n),
        c.spec_off() == if k < p.spec_len() {
            p.addr(k)
        } else {
            p.spec_off()
        },
    ensures
        is_child(p, n, k, c),
{
    let len = p.spec_len();
    let s = p.spec_stride();
    lemma_part_len(len, n, k);
    let m = c.spec_len();
    if m >= 2 {
        // Child index m - 1 >= 1 lies below the parent's length, so the
        // unsaturated product n * s fits in usize.
        assert(k + (m - 1) * n <= len - 1);
        assert(n <= (m - 1) * n) by (nonlinear_arith)
            requires 1 <= n, 1 <= m - 1;
        lemma_mul_inequality(n, len - 1, s);
        lemma_mul_nonnegative(k as int, s);
        assert(n * s == s * n) by (nonlinear_arith);
        assert(c.spec_stride() == s * n);
    }
    assert(1 <= c.spec_stride()) by {
        if s * n <= usize::MAX {
            assert(1 <= s * n) by (nonlinear_arith)
                requires 1 <= s, 1 <= n;
        }
    }
    assert forall|i: int| 0 <= i < m implies c.addr(i) == p.addr(k + i * n) by {
        if i == 0 {
            assert(k < len);
        } else {
            assert(c.addr(i) == p.addr(k) + i * (s * n));
            assert(k * s + i * (s * n) == (k + i * n) * s) by (nonlinear_arith);
        }
    }
    if m > 0 {
        assert(c.addr(m - 1) == p.addr(k + (m - 1) * n));
        lemma_mul_nonnegative(m - 1, n);
        lemma_addr_in_bounds(p, k + (m - 1) * n);
    }
}

/// A view `r` that starts at element `from` of `p`, keeps `p`'s stride
/// and stays within `p`'s length is well-formed, and its element `i` sits
/// at the buffer position of `p`'s element `from + i`.
proof fn lemma_sub_view(p: Strided, from: int, r: Strided)
    requires
        p.wf(),
        0 <= from,
        from + r.spec_len() <= p.spec_len(),
        r.spec_stride() == p.spec_stride(),
        r.buf_len() == p.buf_len(),
        r.spec_off() == if from < p.spec_len() {
            p.addr(from)
        } else {
            p.spec_off()
        },
    ensures
        r.wf(),
        forall|i: int| 0 <= i < r.spec_len() ==> r.addr(i) == p.addr(from + i),
{
    let s = p.spec_stride();
    assert forall|i: int| 0 <= i < r.spec_len() implies r.addr(i) == p.addr(from + i) by {
        assert(from * s + i * s == (from + i) * s) by (nonlinear_arith);
    }
    if r.spec_len() > 0 {
        assert(r.addr(r.spec_len() - 1) == p.addr(from + r.spec_len() - 1));
        lemma_mul_inequality(from + r.spec_len() - 1, p.spec_len() - 1, s);
    }
}

/// The running sum of the children's lengths of an `n`-way partition of a
/// view of length `len`, from child `k` on.
pub open spec fn part_lens_sum(len: int, n: int, k: int) -> int
    decreases n - k,
{
    if n < 1 || k < 0 || k >= n {
        0
    } else {
        part_len(len, n, k) + part_lens_sum(len, n, k + 1)
    }
}

/// Length conservation: when a view of length `len` is partitioned `n`
/// ways, the lengths of the `n` children sum to exactly `len`.
pub proof fn lemma_part_lens_sum(len: int, n: int)
    requires
        0 <= len,
        1 <= n,
    ensures
        part_lens_sum(len, n, 0) == len,
    decreases len,
{
    if len < n {
        lemma_sum_flat(len, n, 0);
    } else {
        lemma_sum_step(len, n, 0);
        lemma_part_lens_sum(len - n, n);
    }
}

/// When the view is shorter than the partition width, the first `len`
/// children hold one element each and the rest are empty.
proof fn lemma_sum_flat(len: int, n: int, k: int)
    requires
        1 <= n,
        0 <= len < n,
        0 <= k <= n,
    ensures
        part_lens_sum(len, n, k) == if k <= len {
            len - k
        } else {
            0
        },
    decreases n - k,
{
    if k < n {
        lemma_sum_flat(len, n, k + 1);
        lemma_part_len(len, n, k);
        if k < len {
            lemma_basic_div(len - k - 1, n);
        }
    }
}

/// Removing `n` elements from the view shortens every child by one.
proof fn lemma_sum_step(len: int, n: int, k: int)
    requires
        1 <= n,
        n <= len,
        0 <= k <= n,
    ensures
        part_lens_sum(len, n, k) == (n - k) + part_lens_sum(len - n, n, k),
    decreases n - k,
{
    if k < n {
        lemma_sum_step(len, n, k + 1);
        lemma_div_plus_one(len - k - 1, n);
    }
}

/// Index correspondence: element `i` of child `k` of an `n`-way partition
/// is element `k + i * n` of the parent, in any buffer of the right
/// length.
pub proof fn lemma_child_elems<T>(p: Strided, n: int, k: int, c: Strided, buf: Seq<T>)
    requires
        p.wf(),
        1 <= n,
        0 <= k < n,
        is_child(p, n, k, c),
        buf.len() == p.buf_len(),
    ensures
        forall|i: int|
            0 <= i < c.spec_len() ==> c.elems(buf)[i] == p.elems(buf)[k + #[trigger] (i * n)],
{
    lemma_part_len(p.spec_len(), n, k);
    assert forall|i: int|
        0 <= i < c.spec_len() implies c.elems(buf)[i] == p.elems(buf)[k + #[trigger] (i * n)] by {
        lemma_mul_nonnegative(i, n);
        assert(c.addr(i) == p.addr(k + i * n));
    }
}

/// Index correspondence for the alternating split: element `i` of the
/// first child is the parent's element `2 * i`, element `i` of the second
/// child the parent's element `2 * i + 1`.
pub proof fn lemma_substrides2_elems<T>(p: Strided, l: Strided, r: Strided, buf: Seq<T>)
    requires
        p.wf(),
        is_child(p, 2, 0, l),
        is_child(p, 2, 1, r),
        buf.len() == p.buf_len(),
    ensures
        forall|i: int| 0 <= i < l.spec_len() ==> l.elems(buf)[i] == p.elems(buf)[2 * i],
        forall|i: int| 0 <= i < r.spec_len() ==> r.elems(buf)[i] == p.elems(buf)[2 * i + 1],
{
    lemma_child_elems(p, 2, 0, l, buf);
    lemma_child_elems(p, 2, 1, r, buf);
    assert forall|i: int| 0 <= i < l.spec_len() implies l.elems(buf)[i] == p.elems(buf)[2 * i] by {
        assert(l.elems(buf)[i] == p.elems(buf)[0 + i * 2]);
    }
    assert forall|i: int|
        0 <= i < r.spec_len() implies r.elems(buf)[i] == p.elems(buf)[2 * i + 1] by {
        assert(r.elems(buf)[i] == p.elems(buf)[1 + i * 2]);
    }
}

/// Round trip through `split_at`: the elements of `slice_to(k)` followed
/// by the elements of `slice_from(k)` are exactly the elements of the
/// original view, in order, for every `0 <= k <= len`.  The requirements
/// are what `split_at(k)` (and the pair `slice_to(k)`, `slice_from(k)`)
/// ensure of the two views.
pub proof fn lemma_split_at_elems<T>(p: Strided, l: Strided, r: Strided, k: int, buf: Seq<T>)
    requires
        p.wf(),
        0 <= k <= p.spec_len(),
        buf.len() == p.buf_len(),
        l.spec_len() == k,
        l.spec_stride() == p.spec_stride(),
        l.buf_len() == p.buf_len(),
        l.spec_off() == p.spec_off(),
        r.spec_len() == p.spec_len() - k,
        r.spec_stride() == p.spec_stride(),
        r.buf_len() == p.buf_len(),
        r.spec_off() == if k < p.spec_len() {
            p.addr(k)
        } else {
            p.spec_off()
        },
    ensures
        l.elems(buf) + r.elems(buf) == p.elems(buf),
{
    lemma_sub_view(p, 0, l);
    lemma_sub_view(p, k, r);
    assert forall|i: int|
        0 <= i < p.spec_len() implies (l.elems(buf) + r.elems(buf))[i] == p.elems(buf)[i] by {
        if i < k {
            assert(l.addr(i) == p.addr(0 + i));
        } else {
            assert(r.addr(i - k) == p.addr(k + (i - k)));
        }
    }
    assert(l.elems(buf) + r.elems(buf) =~= p.elems(buf));
}

/// A well-formed view addresses strictly increasing buffer positions.
pub proof fn lemma_addr_strictly_increasing(s: Strided, i: int, j: int)
    requires
        s.wf(),
        0 <= i < j,
    ensures
        s.addr(i) < s.addr(j),
{
    lemma_mul_strict_inequality(i, j, s.spec_stride());
}

/// Non-aliasing of an `n`-way partition: two distinct children address
/// disjoint sets of buffer positions.  Together with the partition
/// operations consuming their parent, this is what lets the children be
/// handed to independent callers.
pub proof fn lemma_children_disjoint(
    p: Strided,
    n: int,
    k1: int,
    k2: int,
    c1: Strided,
    c2: Strided,
)
    requires
        p.wf(),
        1 <= n,
        0 <= k1 < n,
        0 <= k2 < n,
        k1 != k2,
        is_child(p, n, k1, c1),
        is_child(p, n, k2, c2),
    ensures
        c1.addrs().disjoint(c2.addrs()),
{
    lemma_part_len(p.spec_len(), n, k1);
    lemma_part_len(p.spec_len(), n, k2);
    assert forall|a: int| c1.addrs().contains(a) implies !c2.addrs().contains(a) by {
        let i = choose|i: int| 0 <= i < c1.spec_len() && a == c1.addr(i);
        assert(c1.addr(i) == p.addr(k1 + i * n));
        if c2.addrs().contains(a) {
            let j = choose|j: int| 0 <= j < c2.spec_len() && a == c2.addr(j);
            assert(c2.addr(j) == p.addr(k2 + j * n));
            let x = k1 + i * n;
            let y = k2 + j * n;
            if x < y {
                lemma_addr_strictly_increasing(p, x, y);
            } else if y < x {
                lemma_addr_strictly_increasing(p, y, x);
            } else {
                lemma_mod_multiples_vanish(i, k1, n);
                lemma_mod_multiples_vanish(j, k2, n);
                lemma_small_mod(k1 as nat, n as nat);
                lemma_small_mod(k2 as nat, n as nat);
                assert(n * i + k1 == n * j + k2) by (nonlinear_arith)
                    requires x == y, x == k1 + i * n, y == k2 + j * n;
                assert(k1 == (n * i + k1) % n == (n * j + k2) % n == k2);
            }
        }
    }
}

/// Non-aliasing of `split_at`: the two halves address disjoint sets of
/// buffer positions.  The requirements are what `split_at(k)` ensures of
/// the two views.
pub proof fn lemma_split_at_disjoint(p: Strided, l: Strided, r: Strided, k: int)
    requires
        p.wf(),
        0 <= k <= p.spec_len(),
        l.spec_len() == k,
        l.spec_stride() == p.spec_stride(),
        l.buf_len() == p.buf_len(),
        l.spec_off() == p.spec_off(),
        r.spec_len() == p.spec_len() - k,
        r.spec_stride() == p.spec_stride(),
        r.buf_len() == p.buf_len(),
        r.spec_off() == if k < p.spec_len() {
            p.addr(k)
        } else {
            p.spec_off()
        },
    ensures
        l.addrs().disjoint(r.addrs()),
{
    lemma_sub_view(p, 0, l);
    lemma_sub_view(p, k, r);
    assert forall|a: int| l.addrs().contains(a) implies !r.addrs().contains(a) by {
        let i = choose|i: int| 0 <= i < l.spec_len() && a == l.addr(i);
        assert(l.addr(i) == p.addr(0 + i));
        if r.addrs().contains(a) {
            let j = choose|j: int| 0 <= j < r.spec_len() && a == r.addr(j);
            assert(r.addr(j) == p.addr(k + j));
            lemma_addr_strictly_increasing(p, i, k + j);
        }
    }
}

/// Every addressed position of a well-formed view lies inside its buffer.
pub proof fn lemma_addr_in_bounds(s: Strided, i: int)
    requires
        s.wf(),
        0 <= i < s.spec_len(),
    ensures
        0 <= s.addr(i) < s.buf_len(),
{
    lemma_mul_nonnegative(i, s.spec_stride());
    lemma_mul_inequality(i, s.spec_len() - 1, s.spec_stride());
}

} // verus!
