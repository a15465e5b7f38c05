//! The trace protocol: a value shows each handle it owns to a visitor.
//!
//! The collector reads a payload through this protocol alone, whatever the
//! payload's type: the payload calls the visitor once for each handle that
//! it owns directly, in a fixed order, and stops at once when the visitor
//! fails. A value without handles shows nothing.

use crate::handle::Gc;
use crate::option::OptGc;
use vstd::prelude::*;

verus! {

/// Takes note of the handles that a value shows, up to a limit.
pub struct Visitor {
    seen: Vec<usize>,
    limit: usize,
}

/// The allocations that the live handles among `handles` name, in order.
/// Dead handles name nothing and are passed over.
pub open spec fn targets(handles: Seq<Gc>) -> Seq<usize>
    decreases handles.len(),
{
    if handles.len() == 0 {
        Seq::empty()
    } else {
        match handles.last().target() {
            Some(t) => targets(handles.drop_last()).push(t),
            None => targets(handles.drop_last()),
        }
    }
}

/// Showing `handles` to the visitor `before` gave the result `r` and left
/// the visitor `after`: if the visitor had room for all of them, it has noted
/// them behind what it had noted before; if not, it has failed, and what it
/// has noted is of no use.
pub open spec fn shown(handles: Seq<Gc>, before: Visitor, r: Result<(), ()>, after: Visitor) -> bool {
    &&& after.spec_limit() == before.spec_limit()
    &&& before.noted().len() <= before.spec_limit() ==> if before.noted().len() + targets(
        handles,
    ).len() <= before.spec_limit() {
        r is Ok && after.noted() == before.noted() + targets(handles)
    } else {
        r is Err
    }
}

/// One handle names its allocation, or nothing if it is dead.
pub proof fn lemma_targets_one(gc: Gc)
    ensures
        targets(seq![gc]) == match gc.target() {
            Some(t) => seq![t],
            None => Seq::<usize>::empty(),
        },
{
    let one = seq![gc];
    assert(one.drop_last() =~= Seq::<Gc>::empty());
    assert(one.last() == gc);
    assert(targets(Seq::<Gc>::empty()) =~= Seq::<usize>::empty());
    assert(targets(one.drop_last()) =~= Seq::<usize>::empty());
    match gc.target() {
        Some(t) => {
            assert(targets(one) == targets(one.drop_last()).push(t));
            assert(targets(one.drop_last()).push(t) =~= seq![t]);
        },
        None => {
            assert(targets(one) == targets(one.drop_last()));
        },
    }
}

/// Concatenating lists of handles concatenates what they name.
pub proof fn lemma_targets_add(a: Seq<Gc>, b: Seq<Gc>)
    ensures
        targets(a + b) == targets(a) + targets(b),
    decreases b.len(),
{
    if b.len() == 0 {
        assert(a + b =~= a);
        assert(targets(a) + targets(b) =~= targets(a));
    } else {
        lemma_targets_add(a, b.drop_last());
        assert((a + b).drop_last() =~= a + b.drop_last());
        assert((a + b).last() == b.last());
        match b.last().target() {
            Some(t) => {
                assert(targets(a) + targets(b.drop_last()).push(t) =~= (targets(a) + targets(
                    b.drop_last(),
                )).push(t));
            },
            None => {},
        }
    }
}

/// Showing one list of handles and then another is showing both.
pub proof fn lemma_shown_then(
    a: Seq<Gc>,
    b: Seq<Gc>,
    before: Visitor,
    mid: Visitor,
    after: Visitor,
    r: Result<(), ()>,
)
    requires
        shown(a, before, Ok(()), mid),
        before.noted().len() + targets(a).len() <= before.spec_limit(),
        shown(b, mid, r, after),
    ensures
        shown(a + b, before, r, after),
{
    lemma_targets_add(a, b);
    assert(before.noted() + targets(a) + targets(b) =~= before.noted() + (targets(a) + targets(b)));
}

impl Visitor {
    /// The allocations noted so far.
    pub closed spec fn noted(&self) -> Seq<usize> {
        self.seen@
    }

    /// The most allocations that the visitor notes.
    pub closed spec fn spec_limit(&self) -> usize {
        self.limit
    }

    /// A visitor that has noted nothing and notes at most `limit` allocations.
    pub fn new(limit: usize) -> (visitor: Visitor)
        ensures
            visitor.noted().len() == 0,
            visitor.spec_limit() == limit,
    {
        Visitor { seen: Vec::new(), limit }
    }

    /// Takes note of the allocation that `gc` names. A dead handle names
    /// nothing, and nothing is noted for it. Fails, and notes nothing, if the
    /// visitor has noted as many allocations as it may.
    pub fn visit(&mut self, gc: &Gc) -> (r: Result<(), ()>)
        ensures
            shown(seq![*gc], *old(self), r, *final(self)),
            r is Err ==> *final(self) == *old(self),
    {
        proof {
            lemma_targets_one(*gc);
        }
        match gc.slot() {
            None => {
                proof {
                    assert(self.seen@ + Seq::<usize>::empty() =~= self.seen@);
                }
                Ok(())
            },
            Some(t) => {
                if self.seen.len() >= self.limit {
                    return Err(());
                }
                proof {
                    assert(self.seen@ + seq![t] =~= self.seen@.push(t));
                }
                self.seen.push(t);
                Ok(())
            },
        }
    }

    /// The allocations noted, in the order in which they were shown.
    pub fn into_noted(self) -> (seen: Vec<usize>)
        ensures
            seen@ == self.noted(),
    {
        self.seen
    }
}

/// A value that can show the handles it owns.
pub trait Trace {
    /// The handles that the value owns directly, in the order in which it
    /// shows them.
    spec fn handles(&self) -> Seq<Gc>;

    /// Shows each handle that the value owns to the visitor, and stops with
    /// the visitor's failure if it fails.
    fn accept(&self, visitor: &mut Visitor) -> (r: Result<(), ()>)
        ensures
            shown(self.handles(), *old(visitor), r, *final(visitor)),
    ;
}

impl Trace for Gc {
    open spec fn handles(&self) -> Seq<Gc> {
        seq![*self]
    }

    fn accept(&self, visitor: &mut Visitor) -> (r: Result<(), ()>) {
        visitor.visit(self)
    }
}

impl Trace for OptGc {
    open spec fn handles(&self) -> Seq<Gc> {
        seq![self.inner()]
    }

    fn accept(&self, visitor: &mut Visitor) -> (r: Result<(), ()>) {
        match self.as_ref() {
            Some(gc) => visitor.visit(gc),
            None => {
                proof {
                    lemma_targets_one(self.inner());
                    assert(visitor.noted() + Seq::<usize>::empty() =~= visitor.noted());
                }
                Ok(())
            },
        }
    }
}

/// A value that owns no handle shows nothing, and never fails.
pub proof fn lemma_shown_nothing(visitor: Visitor)
    ensures
        shown(Seq::<Gc>::empty(), visitor, Ok(()), visitor),
{
    assert(visitor.noted() + targets(Seq::<Gc>::empty()) =~= visitor.noted());
}

impl Trace for () {
    open spec fn handles(&self) -> Seq<Gc> {
        Seq::empty()
    }

    fn accept(&self, visitor: &mut Visitor) -> (r: Result<(), ()>) {
        proof {
            lemma_shown_nothing(*visitor);
        }
        Ok(())
    }
}

impl Trace for bool {
    open spec fn handles(&self) -> Seq<Gc> {
        Seq::empty()
    }

    fn accept(&self, visitor: &mut Visitor) -> (r: Result<(), ()>) {
        proof {
            lemma_shown_nothing(*visitor);
        }
        Ok(())
    }
}

impl Trace for u64 {
    open spec fn handles(&self) -> Seq<Gc> {
        Seq::empty()
    }

    fn accept(&self, visitor: &mut Visitor) -> (r: Result<(), ()>) {
        proof {
            lemma_shown_nothing(*visitor);
        }
        Ok(())
    }
}

impl Trace for usize {
    open spec fn handles(&self) -> Seq<Gc> {
        Seq::empty()
    }

    fn accept(&self, visitor: &mut Visitor) -> (r: Result<(), ()>) {
        proof {
            lemma_shown_nothing(*visitor);
        }
        Ok(())
    }
}

impl Trace for String {
    open spec fn handles(&self) -> Seq<Gc> {
        Seq::empty()
    }

    fn accept(&self, visitor: &mut Visitor) -> (r: Result<(), ()>) {
        proof {
            lemma_shown_nothing(*visitor);
        }
        Ok(())
    }
}

impl<T: Trace> Trace for Option<T> {
    open spec fn handles(&self) -> Seq<Gc> {
        match self {
            Some(value) => value.handles(),
            None => Seq::empty(),
        }
    }

    fn accept(&self, visitor: &mut Visitor) -> (r: Result<(), ()>) {
        match self {
            Some(value) => value.accept(visitor),
            None => {
                proof {
                    lemma_shown_nothing(*visitor);
                }
                Ok(())
            },
        }
    }
}

impl<A: Trace, B: Trace> Trace for (A, B) {
    open spec fn handles(&self) -> Seq<Gc> {
        self.0.handles() + self.1.handles()
    }

    fn accept(&self, visitor: &mut Visitor) -> (r: Result<(), ()>) {
        let ghost before = *visitor;
        let first = self.0.accept(visitor);
        if first.is_err() {
            proof {
                lemma_targets_add(self.0.handles(), self.1.handles());
            }
            return first;
        }
        let ghost mid = *visitor;
        let r = self.1.accept(visitor);
        proof {
            if before.noted().len() <= before.spec_limit() {
                lemma_shown_then(self.0.handles(), self.1.handles(), before, mid, *visitor, r);
            }
        }
        r
    }
}

/// The handles that the first `n` values of `values` own, in order.
pub open spec fn handles_upto<T: Trace>(values: Seq<T>, n: int) -> Seq<Gc>
    decreases n,
{
    if n <= 0 {
        Seq::empty()
    } else {
        handles_upto(values, n - 1) + values[n - 1].handles()
    }
}

impl<T: Trace> Trace for Vec<T> {
    open spec fn handles(&self) -> Seq<Gc> {
        handles_upto(self@, self@.len() as int)
    }

    fn accept(&self, visitor: &mut Visitor) -> (r: Result<(), ()>) {
        let ghost before = *visitor;
        let mut i: usize = 0;
        proof {
            lemma_shown_nothing(before);
        }
        while i < self.len()
            invariant
                i <= self.len(),
                before == *old(visitor),
                shown(handles_upto(self@, i as int), before, Ok(()), *visitor),
                before.noted().len() <= before.spec_limit() ==> before.noted().len() + targets(
                    handles_upto(self@, i as int),
                ).len() <= before.spec_limit(),
            decreases self.len() - i,
        {
            let ghost mid = *visitor;
            let r = self[i].accept(visitor);
            proof {
                if before.noted().len() <= before.spec_limit() {
                    lemma_shown_then(
                        handles_upto(self@, i as int),
                        self@[i as int].handles(),
                        before,
                        mid,
                        *visitor,
                        r,
                    );
                    lemma_targets_add(handles_upto(self@, i as int), self@[i as int].handles());
                }
            }
            if r.is_err() {
                proof {
                    assert(visitor.spec_limit() == before.spec_limit());
                    if before.noted().len() <= before.spec_limit() {
                        lemma_targets_grow(self@, i as int + 1, self@.len() as int);
                        assert(handles_upto(self@, i as int + 1) == handles_upto(self@, i as int)
                            + self@[i as int].handles());
                        assert(shown(handles_upto(self@, i as int + 1), before, r, *visitor));
                        assert(before.noted().len() + targets(
                            handles_upto(self@, i as int + 1),
                        ).len() > before.spec_limit());
                    }
                    assert(shown(self.handles(), before, r, *visitor));
                }
                return r;
            }
            i += 1;
        }
        Ok(())
    }
}

/// More values own no fewer handles.
pub proof fn lemma_targets_grow<T: Trace>(values: Seq<T>, n: int, m: int)
    requires
        0 <= n <= m,
    ensures
        targets(handles_upto(values, n)).len() <= targets(handles_upto(values, m)).len(),
    decreases m - n,
{
    if n < m {
        lemma_targets_grow(values, n, m - 1);
        lemma_targets_add(handles_upto(values, m - 1), values[m - 1].handles());
    }
}

} // verus!
