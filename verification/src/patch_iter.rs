use vstd::prelude::*;

verus! {

/// A cursor over a vector that hands out its elements one at a time and
/// lets the caller replace the element it was just given by any number of
/// new elements (including none) while the walk goes on.
pub struct PatchIterMut<'a, T> {
    pub vec: &'a mut Vec<T>,
    /// Index of the element that the next call of `next` hands out.
    pub next_idx: usize,
    /// Whether the current element was already replaced since the last `next`.
    pub has_patched_curr_elem: bool,
    /// Whether the last call of `next` found the walk at its end.
    pub exhausted: bool,
}

impl<'a, T> PatchIterMut<'a, T> {
    /// Index of the element that the next call of `next` hands out.
    pub open spec fn next_index(&self) -> int {
        self.next_idx as int
    }

    /// Whether the current element was already replaced since the last `next`.
    pub open spec fn has_patched(&self) -> bool {
        self.has_patched_curr_elem
    }

    /// The elements of the vector being walked.
    pub open spec fn elems(&self) -> Seq<T> {
        self.vec@
    }

    /// The mutable borrow of the vector that the cursor walks.
    pub open spec fn borrowed(&self) -> &'a mut Vec<T> {
        self.vec
    }

    /// Whether the last call of `next` found the walk at its end.
    pub open spec fn is_exhausted(&self) -> bool {
        self.exhausted
    }

    /// The last element handed out is still in the vector.
    pub open spec fn has_current(&self) -> bool {
        1 <= self.next_index() && self.next_index() - 1 < self.elems().len()
    }

    /// One call of `next` as its contract states it: from `before` to
    /// `after`, handing out (the value of) `out`. Before the end of the
    /// vector it hands out the element at the cursor and moves past it, the
    /// caller may change that element through the borrow it gets, and
    /// nothing else changes; at the end it hands out nothing and changes
    /// nothing. Either way the walk is exhausted exactly when nothing was
    /// handed out.
    pub open spec fn next_step(before: Self, after: Self, out: Option<T>) -> bool {
        let k = before.next_index();
        &&& !after.has_patched()
        &&& after.is_exhausted() == (out is None)
        &&& k < before.elems().len() ==> {
            &&& out == Some(before.elems()[k])
            &&& after.next_index() == k + 1
            &&& after.elems().len() == before.elems().len()
            &&& forall|i: int| 0 <= i < before.elems().len() && i != k ==> after.elems()[i]
                == #[trigger] before.elems()[i]
        }
        &&& k >= before.elems().len() ==> {
            &&& out is None
            &&& after.elems() == before.elems()
            &&& after.next_index() == k
        }
    }

    /// `get_again` hands out the element that the last `next` handed out:
    /// after a `next` that hands out an element, the cursor has a current
    /// element that `get_again` may hand out, at the index the element was
    /// handed out from.
    pub proof fn lemma_get_again_after_next(before: Self, after: Self, out: Option<T>)
        requires
            Self::next_step(before, after, out),
            out is Some,
        ensures
            after.has_current(),
            !after.is_exhausted(),
            after.next_index() - 1 == before.next_index(),
    {
    }

    /// Once a `next` hands out nothing, the walk stays at its end: every
    /// later `next` hands out nothing too. (`get_again` and `patch_elem`
    /// cannot be called on an exhausted walk, so only `next` can follow.)
    pub proof fn lemma_exhausted_stays(s0: Self, s1: Self, s2: Self, o1: Option<T>, o2: Option<T>)
        requires
            Self::next_step(s0, s1, o1),
            o1 is None,
            Self::next_step(s1, s2, o2),
        ensures
            o2 is None,
            s2.is_exhausted(),
            s2.next_index() >= s2.elems().len(),
    {
    }

    /// A walk of `next` calls from a fresh cursor hands out the elements of
    /// the vector once each, in order, and then nothing: in the walk
    /// `states[0]`, `states[1]`, ... where the `j`-th call hands out
    /// `outs[j]`, call `j` hands out the element at index `j` as it was when
    /// the walk started, and nothing once `j` reaches the length.
    pub proof fn lemma_walk_in_order(states: Seq<Self>, outs: Seq<Option<T>>)
        requires
            states.len() == outs.len() + 1,
            states[0].next_index() == 0,
            forall|j: int|
                #![trigger outs[j]]
                0 <= j < outs.len() ==> Self::next_step(states[j], states[j + 1], outs[j]),
        ensures
            forall|j: int|
                #![trigger outs[j]]
                0 <= j < outs.len() ==> outs[j] == if j < states[0].elems().len() {
                    Some(states[0].elems()[j])
                } else {
                    None::<T>
                },
            forall|j: int|
                #![trigger states[j]]
                0 <= j < states.len() ==> states[j].elems().len() == states[0].elems().len(),
        decreases outs.len(),
    {
        if outs.len() > 0 {
            let n = outs.len() - 1;
            Self::lemma_walk_prefix(states, outs, n + 1);
        }
    }

    /// The first `n` calls of a walk (see `lemma_walk_in_order`): the cursor
    /// has moved past `min(n, len)` elements, the elements from there on are
    /// those of the start, and each call handed out what the law says.
    proof fn lemma_walk_prefix(states: Seq<Self>, outs: Seq<Option<T>>, n: int)
        requires
            states.len() == outs.len() + 1,
            0 <= n <= outs.len(),
            states[0].next_index() == 0,
            forall|j: int|
                #![trigger outs[j]]
                0 <= j < outs.len() ==> Self::next_step(states[j], states[j + 1], outs[j]),
        ensures
            states[n].elems().len() == states[0].elems().len(),
            states[n].next_index() == if n < states[0].elems().len() {
                n
            } else {
                states[0].elems().len() as int
            },
            forall|i: int|
                states[n].next_index() <= i < states[0].elems().len() ==> #[trigger] states[n].elems()[i]
                    == states[0].elems()[i],
            forall|j: int|
                #![trigger outs[j]]
                0 <= j < n ==> outs[j] == if j < states[0].elems().len() {
                    Some(states[0].elems()[j])
                } else {
                    None::<T>
                },
            forall|j: int|
                #![trigger states[j]]
                0 <= j <= n ==> states[j].elems().len() == states[0].elems().len(),
        decreases n,
    {
        if n > 0 {
            Self::lemma_walk_prefix(states, outs, n - 1);
            assert(Self::next_step(states[n - 1], states[n], outs[n - 1]));
            let k = states[n - 1].next_index();
            if k < states[n - 1].elems().len() {
                assert forall|i: int|
                    states[n].next_index() <= i < states[0].elems().len() implies #[trigger] states[n].elems()[i]
                    == states[0].elems()[i] by {
                    assert(states[n].elems()[i] == states[n - 1].elems()[i]);
                }
            }
        }
    }

    /// Starts a walk at the first element of `vec`.
    pub fn new(vec: &'a mut Vec<T>) -> (r: Self)
        ensures
            r.elems() == old(vec)@,
            *final(vec) == *final(r.borrowed()),
            r.next_index() == 0,
            !r.has_patched(),
            !r.is_exhausted(),
    {
        PatchIterMut { vec, next_idx: 0, has_patched_curr_elem: false, exhausted: false }
    }

    /// Index of the element handed out by the last call of `next`, which
    /// must have handed one out.
    pub fn curr_idx(&self) -> (idx: usize)
        requires
            self.has_current(),
            !self.is_exhausted(),
        ensures
            idx == self.next_index() - 1,
    {
        self.next_idx - 1
    }

    /// The element handed out by the last call of `next`, once more; only
    /// while the walk is not exhausted (after `next` handed out nothing,
    /// there is no element to hand out again).
    pub fn get_again(&mut self) -> (elem: &mut T)
        requires
            old(self).has_current(),
            !old(self).is_exhausted(),
        ensures
            *elem == old(self).elems()[old(self).next_index() - 1],
            final(self).elems() == old(self).elems().update(old(self).next_index() - 1, *final(elem)),
            final(self).next_index() == old(self).next_index(),
            final(self).has_patched() == old(self).has_patched(),
            !final(self).is_exhausted(),
            *final(final(self).borrowed()) == *final(old(self).borrowed()),
    {
        let idx = self.curr_idx();
        &mut self.vec[idx]
    }

    /// Replaces the element handed out by the last call of `next` by
    /// `new_elems`, and moves the cursor so that the next call of `next`
    /// hands out the element that followed the replaced one.
    pub fn patch_elem(&mut self, new_elems: Vec<T>)
        requires
            !old(self).has_patched(),
            old(self).has_current(),
            !old(self).is_exhausted(),
        ensures
            final(self).has_patched(),
            !final(self).is_exhausted(),
            final(self).elems() == old(self).elems().take(old(self).next_index() - 1)
                + new_elems@ + old(self).elems().skip(old(self).next_index()),
            final(self).next_index() == old(self).next_index() - 1 + new_elems@.len(),
            final(self).elems().skip(final(self).next_index()) == old(self).elems().skip(
                old(self).next_index(),
            ),
            *final(final(self).borrowed()) == *final(old(self).borrowed()),
    {
        self.has_patched_curr_elem = true;
        let curr_idx = self.curr_idx();
        let prev_len = self.vec.len();

        let mut new_elems = new_elems;
        let mut tail = self.vec.split_off(curr_idx + 1);
        let _ = self.vec.pop();
        self.vec.append(&mut new_elems);
        self.vec.append(&mut tail);
        let new_len = self.vec.len();

        if prev_len > new_len {
            self.next_idx = self.next_idx - (prev_len - new_len);
        } else if prev_len < new_len {
            self.next_idx = self.next_idx + (new_len - prev_len);
        }
        assert(self.vec@.skip(self.next_idx as int) =~= old(self).vec@.skip(old(self).next_idx as int));
    }

    /// Hands out the next element, or `None` at the end of the vector.
    pub fn next(&mut self) -> (elem: Option<&mut T>)
        ensures
            !final(self).has_patched(),
            final(self).is_exhausted() == (elem is None),
            Self::next_step(
                *old(self),
                *final(self),
                match elem {
                    Some(r) => Some(*r),
                    None => None,
                },
            ),
            *final(final(self).borrowed()) == *final(old(self).borrowed()),
            old(self).next_index() < old(self).elems().len() ==> {
                &&& elem is Some
                &&& *elem.unwrap() == old(self).elems()[old(self).next_index()]
                &&& final(self).elems() == old(self).elems().update(old(self).next_index(), *final(elem.unwrap()))
                &&& final(self).next_index() == old(self).next_index() + 1
            },
            old(self).next_index() >= old(self).elems().len() ==> {
                &&& elem is None
                &&& final(self).elems() == old(self).elems()
                &&& final(self).next_index() == old(self).next_index()
            },
    {
        self.has_patched_curr_elem = false;
        if self.next_idx < self.vec.len() {
            let idx = self.next_idx;
            self.next_idx = idx + 1;
            self.exhausted = false;
            Some(&mut self.vec[idx])
        } else {
            self.exhausted = true;
            None
        }
    }
}

} // verus!
