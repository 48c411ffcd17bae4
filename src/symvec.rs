//! A vector indexed by signed integers that grows at both ends.
//!
//! Indices `0, 1, 2, ...` live in `vec_pos`; indices `-1, -2, -3, ...` live
//! in `vec_neg`, so that physical slot `k` of `vec_neg` holds logical index
//! `-(k + 1)`. Each side only ever grows at its own end.
use vstd::prelude::*;

verus! {

/// Largest length either side may reach, so that every logical index fits in `isize`.
pub open spec fn side_limit() -> int {
    isize::MAX as int
}

/// Two independent vectors that together cover the logical indices
/// `-len_neg .. len_pos`.
pub struct SymVec<T> {
    pub vec_neg: Vec<T>,
    pub vec_pos: Vec<T>,
}

/// A cursor over the elements of a `SymVec`, from the most negative index upwards.
pub struct SymVecIntoIterator<'a, T> {
    symvec: &'a SymVec<T>,
    idx: isize,
}

impl<T> SymVec<T> {
    /// Both sides fit in `isize`, so every allocated index is representable.
    pub open spec fn wf(&self) -> bool {
        self.vec_neg@.len() <= side_limit() && self.vec_pos@.len() <= side_limit()
    }

    pub open spec fn pos_len(&self) -> int {
        self.vec_pos@.len() as int
    }

    pub open spec fn neg_len(&self) -> int {
        self.vec_neg@.len() as int
    }

    /// Whether the logical index `i` is currently allocated.
    pub open spec fn has(&self, i: int) -> bool {
        -self.neg_len() <= i < self.pos_len()
    }

    /// The element at logical index `i` (meaningful where `has(i)`).
    pub open spec fn at(&self, i: int) -> T {
        if i >= 0 {
            self.vec_pos@[i]
        } else {
            self.vec_neg@[-i - 1]
        }
    }

    /// All elements ordered by increasing logical index.
    pub open spec fn elems(&self) -> Seq<T> {
        self.vec_neg@.reverse() + self.vec_pos@
    }

    /// Same allocation on both sides.
    pub open spec fn same_shape(&self, other: &SymVec<T>) -> bool {
        self.neg_len() == other.neg_len() && self.pos_len() == other.pos_len()
    }

    pub fn new() -> (r: SymVec<T>)
        ensures
            r.wf(),
            r.neg_len() == 0,
            r.pos_len() == 0,
    {
        SymVec { vec_neg: Vec::new(), vec_pos: Vec::new() }
    }

    /// Appends `e` at the next non-negative index.
    pub fn push_front(&mut self, e: T)
        requires
            old(self).wf(),
            old(self).pos_len() < side_limit(),
        ensures
            final(self).wf(),
            final(self).vec_pos@ == old(self).vec_pos@.push(e),
            final(self).vec_neg@ == old(self).vec_neg@,
    {
        self.vec_pos.push(e);
    }

    /// Appends `e` at the next negative index (`-1` first, then `-2`, ...).
    pub fn push_back(&mut self, e: T)
        requires
            old(self).wf(),
            old(self).neg_len() < side_limit(),
        ensures
            final(self).wf(),
            final(self).vec_neg@ == old(self).vec_neg@.push(e),
            final(self).vec_pos@ == old(self).vec_pos@,
    {
        self.vec_neg.push(e);
    }

    pub fn len_pos(&self) -> (r: usize)
        ensures
            r == self.pos_len(),
    {
        self.vec_pos.len()
    }

    pub fn len_neg(&self) -> (r: usize)
        ensures
            r == self.neg_len(),
    {
        self.vec_neg.len()
    }

    pub fn len(&self) -> (r: usize)
        requires
            self.wf(),
        ensures
            r == self.neg_len() + self.pos_len(),
            r == self.elems().len(),
    {
        self.len_pos() + self.len_neg()
    }

    /// Whether index `idx` lies at or beyond the end of the positive side.
    pub fn need_extend_pos(&self, idx: isize) -> (r: bool)
        requires
            self.wf(),
        ensures
            r == (idx >= self.pos_len()),
    {
        idx >= (self.len_pos() as isize)
    }

    /// Whether index `idx` lies at or beyond the end of the negative side.
    pub fn need_extend_neg(&self, idx: isize) -> (r: bool)
        requires
            self.wf(),
        ensures
            r == (-idx >= self.neg_len() + 1),
    {
        idx < -(self.len_neg() as isize)
    }

    /// How many `push_front` calls make the positive side reach `idx` elements.
    pub fn need_extend_pos_cnt(&self, idx: isize) -> (r: Option<usize>)
        requires
            self.wf(),
        ensures
            idx > self.pos_len() ==> r == Some((idx - self.pos_len()) as usize),
            idx <= self.pos_len() ==> r.is_none(),
    {
        let len = self.len_pos() as isize;
        if idx > len {
            Some((idx - len) as usize)
        } else {
            None
        }
    }

    /// How many `push_back` calls make the negative index `idx` allocated.
    pub fn need_extend_neg_cnt(&self, idx: isize) -> (r: Option<usize>)
        requires
            self.wf(),
        ensures
            -idx > self.neg_len() ==> r == Some((-idx - self.neg_len()) as usize),
            -idx <= self.neg_len() ==> r.is_none(),
    {
        if self.need_extend_neg(idx) {
            let far = (-(idx + 1)) as usize;
            Some(far + 1 - self.len_neg())
        } else {
            None
        }
    }

    /// Whether `idx` is allocated, so that `get(idx)` succeeds.
    pub fn is_available(&self, idx: isize) -> (r: bool)
        requires
            self.wf(),
        ensures
            r == self.has(idx as int),
    {
        if idx >= 0 {
            !self.need_extend_pos(idx)
        } else {
            !self.need_extend_neg(idx)
        }
    }

    /// The element at logical index `idx`.
    pub fn get(&self, idx: isize) -> (r: &T)
        requires
            self.has(idx as int),
        ensures
            *r == self.at(idx as int),
    {
        if idx < 0 {
            let k = (-(idx + 1)) as usize;
            &self.vec_neg[k]
        } else {
            &self.vec_pos[idx as usize]
        }
    }

    /// Mutable access to the element at logical index `idx`.
    pub fn get_mut(&mut self, idx: isize) -> (r: &mut T)
        requires
            old(self).has(idx as int),
        ensures
            *r == old(self).at(idx as int),
            final(self).same_shape(old(self)),
            final(self).at(idx as int) == *final(r),
            forall|i: int|
                old(self).has(i) && i != idx ==> #[trigger] final(self).at(i) == old(self).at(i),
    {
        if idx < 0 {
            let k = (-(idx + 1)) as usize;
            &mut self.vec_neg[k]
        } else {
            &mut self.vec_pos[idx as usize]
        }
    }

    /// Replaces the element at logical index `idx`.
    pub fn set(&mut self, idx: isize, e: T)
        requires
            old(self).has(idx as int),
        ensures
            final(self).same_shape(old(self)),
            final(self).at(idx as int) == e,
            forall|i: int|
                old(self).has(i) && i != idx ==> #[trigger] final(self).at(i) == old(self).at(i),
    {
        let slot = self.get_mut(idx);
        *slot = e;
    }

    /// The element at logical index `i` sits at position `i + neg_len()` of `elems()`.
    pub proof fn lemma_elems_at(&self, i: int)
        requires
            self.has(i),
        ensures
            self.elems()[i + self.neg_len()] == self.at(i),
    {
        if i < 0 {
            assert(self.vec_neg@.reverse()[i + self.neg_len()] == self.vec_neg@[-i - 1]);
        }
    }

    /// A cursor positioned before the most negative element.
    pub fn into_iter(&self) -> (it: SymVecIntoIterator<'_, T>)
        requires
            self.wf(),
        ensures
            it.source() == *self,
            it.cursor() == -self.neg_len() - 1,
            it.wf(),
    {
        SymVecIntoIterator { symvec: self, idx: -(self.len_neg() as isize) - 1 }
    }
}

impl<'a, T> SymVecIntoIterator<'a, T> {
    /// The vector walked over.
    pub closed spec fn source(&self) -> SymVec<T> {
        *self.symvec
    }

    /// The logical index of the element handed out last.
    pub closed spec fn cursor(&self) -> int {
        self.idx as int
    }

    pub open spec fn wf(&self) -> bool {
        &&& self.source().wf()
        &&& -self.source().neg_len() - 1 <= self.cursor() < self.source().pos_len()
    }

    /// The element at the next logical index, or `None` past the last one.
    pub fn next(&mut self) -> (r: Option<&'a T>)
        requires
            old(self).wf(),
        ensures
            final(self).wf(),
            final(self).source() == old(self).source(),
            old(self).cursor() + 1 < old(self).source().pos_len() ==> {
                &&& final(self).cursor() == old(self).cursor() + 1
                &&& r matches Some(e) && *e == old(self).source().at(old(self).cursor() + 1)
            },
            old(self).cursor() + 1 >= old(self).source().pos_len() ==> {
                &&& final(self).cursor() == old(self).cursor()
                &&& r is None
            },
    {
        if self.idx + 1 < (self.symvec.len_pos() as isize) {
            self.idx = self.idx + 1;
            Some(self.symvec.get(self.idx))
        } else {
            None
        }
    }
}


/// `b` is `a` after some appends at either end: each side of `a` is a prefix
/// of the same side of `b`.
pub open spec fn extends<T>(b: SymVec<T>, a: SymVec<T>) -> bool {
    &&& a.pos_len() <= b.pos_len()
    &&& a.neg_len() <= b.neg_len()
    &&& b.vec_pos@.subrange(0, a.pos_len()) == a.vec_pos@
    &&& b.vec_neg@.subrange(0, a.neg_len()) == a.vec_neg@
}

/// Appending never moves an element: after any appends at either end every
/// index of `a` is still allocated in `b` and holds the same value, and the
/// length grew by the number of appends on each side.
pub proof fn lemma_appends_keep_indices<T>(a: SymVec<T>, b: SymVec<T>)
    requires
        extends(b, a),
    ensures
        forall|i: int| a.has(i) ==> b.has(i) && #[trigger] b.at(i) == a.at(i),
        b.elems().len() == a.elems().len() + (b.pos_len() - a.pos_len()) + (b.neg_len()
            - a.neg_len()),
{
    assert forall|i: int| a.has(i) implies b.has(i) && #[trigger] b.at(i) == a.at(i) by {
        if i >= 0 {
            assert(b.vec_pos@.subrange(0, a.pos_len())[i] == b.vec_pos@[i]);
        } else {
            assert(b.vec_neg@.subrange(0, a.neg_len())[-i - 1] == b.vec_neg@[-i - 1]);
        }
    }
}

/// Appends compose: a vector after `push_front` or `push_back` extends the
/// vector before, and so does any chain of them.
pub proof fn lemma_extends_trans<T>(a: SymVec<T>, b: SymVec<T>, c: SymVec<T>)
    requires
        extends(b, a),
        extends(c, b),
    ensures
        extends(c, a),
{
    assert(c.vec_pos@.subrange(0, a.pos_len()) =~= c.vec_pos@.subrange(0, b.pos_len()).subrange(0, a.pos_len()));
    assert(c.vec_neg@.subrange(0, a.neg_len()) =~= c.vec_neg@.subrange(0, b.neg_len()).subrange(0, a.neg_len()));
}

/// One `push_front` of `e` extends the vector, gives `e` the next
/// non-negative index, and adds one to the length.
pub proof fn lemma_push_front_index<T>(a: SymVec<T>, b: SymVec<T>, e: T)
    requires
        b.vec_pos@ == a.vec_pos@.push(e),
        b.vec_neg@ == a.vec_neg@,
    ensures
        extends(b, a),
        b.has(a.pos_len()),
        b.at(a.pos_len()) == e,
        b.elems().len() == a.elems().len() + 1,
{
    assert(b.vec_pos@.subrange(0, a.pos_len()) =~= a.vec_pos@);
    assert(b.vec_neg@.subrange(0, a.neg_len()) =~= a.vec_neg@);
}

/// One `push_back` of `e` extends the vector, gives `e` the next negative
/// index (`-1` first), and adds one to the length.
pub proof fn lemma_push_back_index<T>(a: SymVec<T>, b: SymVec<T>, e: T)
    requires
        b.vec_neg@ == a.vec_neg@.push(e),
        b.vec_pos@ == a.vec_pos@,
    ensures
        extends(b, a),
        b.has(-a.neg_len() - 1),
        b.at(-a.neg_len() - 1) == e,
        b.elems().len() == a.elems().len() + 1,
{
    assert(b.vec_pos@.subrange(0, a.pos_len()) =~= a.vec_pos@);
    assert(b.vec_neg@.subrange(0, a.neg_len()) =~= a.vec_neg@);
}

/// Index `i` at or past the positive end needs exactly `i - pos_len + 1`
/// appends: after `k` of them it still needs growth iff `k` is fewer.
pub proof fn lemma_growth_count_pos<T>(a: SymVec<T>, b: SymVec<T>, i: int, k: int)
    requires
        i >= a.pos_len(),
        0 <= k,
        b.pos_len() == a.pos_len() + k,
    ensures
        (i >= b.pos_len()) <==> k < i - a.pos_len() + 1,
{
}

/// Index `i` at or past the negative end needs exactly `-i - neg_len`
/// appends: after `k` of them it still needs growth iff `k` is fewer.
pub proof fn lemma_growth_count_neg<T>(a: SymVec<T>, b: SymVec<T>, i: int, k: int)
    requires
        -i >= a.neg_len() + 1,
        0 <= k,
        b.neg_len() == a.neg_len() + k,
    ensures
        (-i >= b.neg_len() + 1) <==> k < -i - a.neg_len(),
{
}

} // verus!
