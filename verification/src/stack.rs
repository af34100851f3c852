//! The transform stack: a non-empty stack of composed coordinate transforms
//! with nested push/pop discipline.
use vstd::prelude::*;

verus! {

use crate::geom::{TransformMatrix, at, tm_wf, is_ident, mm_entry_s, mm_fits_s};

/// Every matrix on the stack is well formed.
pub open spec fn stack_wf(s: Seq<TransformMatrix>) -> bool {
    forall|i: int| 0 <= i < s.len() ==> tm_wf(#[trigger] s[i])
}

/// A stack of transform matrices with utility operations; the bottom frame is
/// the identity and is never popped.
pub trait MStack: Sized {
    /// The stack contents, bottom first.
    spec fn mats(&self) -> Seq<TransformMatrix>;

    /// A reference to the top of the matrix stack.
    fn get_top(&self) -> (r: &TransformMatrix)
        requires
            self.mats().len() > 0,
        ensures
            *r == self.mats().last(),
    ;

    /// Duplicate the top, as a full copy, and push the duplicate.
    fn push_matrix(&mut self)
        requires
            old(self).mats().len() > 0,
        ensures
            final(self).mats() == old(self).mats().push(old(self).mats().last()),
    ;

    /// Remove the top; the bottom frame is kept, so on a one-element stack
    /// this does nothing.
    fn pop_matrix(&mut self)
        ensures
            old(self).mats().len() > 1 ==> final(self).mats() == old(self).mats().drop_last(),
            old(self).mats().len() <= 1 ==> final(self).mats() == old(self).mats(),
    ;

    /// Replace the top with trans * top; false when the composed matrix
    /// leaves the representable entry range, leaving the stack unchanged.
    fn transform_top(&mut self, trans: &TransformMatrix) -> (ok: bool)
        requires
            old(self).mats().len() > 0,
            stack_wf(old(self).mats()),
            tm_wf(*trans),
        ensures
            ok == mm_fits_s(*trans, old(self).mats().last()),
            ok ==> {
                &&& final(self).mats().len() == old(self).mats().len()
                &&& final(self).mats().drop_last() == old(self).mats().drop_last()
                &&& tm_wf(final(self).mats().last())
                &&& forall|r: int, c: int|
                    0 <= r < 4 && 0 <= c < 4 ==> #[trigger] at(final(self).mats().last(), r, c)
                        == mm_entry_s(*trans, old(self).mats().last(), r, c)
            },
            !ok ==> final(self).mats() == old(self).mats(),
            stack_wf(final(self).mats()),
    ;

    /// A new stack holding a single identity frame.
    fn new_stack() -> (r: Self)
        ensures
            r.mats().len() == 1,
            is_ident(r.mats()[0]),
            stack_wf(r.mats()),
    ;
}

impl MStack for Vec<TransformMatrix> {
    open spec fn mats(&self) -> Seq<TransformMatrix> {
        self@
    }

    fn get_top(&self) -> (r: &TransformMatrix) {
        let i: usize = self.len() - 1;
        &self[i]
    }

    fn push_matrix(&mut self) {
        let i: usize = self.len() - 1;
        let dup: TransformMatrix = self[i];
        self.push(dup);
    }

    fn pop_matrix(&mut self) {
        if self.len() > 1 {
            self.pop();
        }
    }

    fn transform_top(&mut self, trans: &TransformMatrix) -> (ok: bool) {
        let i: usize = self.len() - 1;
        match trans.mul(&self[i]) {
            Some(m) => {
                self.set(i, m);
                proof {
                    assert(self@.drop_last() =~= old(self)@.drop_last());
                }
                true
            },
            None => false,
        }
    }

    fn new_stack() -> (r: Self) {
        let mut v: Vec<TransformMatrix> = Vec::new();
        v.push(TransformMatrix::ident());
        v
    }
}

/// Law: a push followed immediately by a pop restores the stack — and with it
/// the top — to its exact prior value.
pub proof fn lemma_push_then_pop(s: Seq<TransformMatrix>)
    requires
        s.len() >= 1,
    ensures
        s.push(s.last()).len() > 1,
        s.push(s.last()).drop_last() == s,
        s.push(s.last()).drop_last().last() == s.last(),
{
    assert(s.push(s.last()).drop_last() =~= s);
}

} // verus!
