//! The sliding window of a session's most recent deltas.

use vstd::prelude::*;
use vstd::slice::slice_subrange;

verus! {

/// Number of deltas that a window holds.
pub const WINDOW_LEN: usize = 16;

/// The most recent of some deltas: the last sixteen, or all where there are
/// fewer.
pub open spec fn recent(deltas: Seq<u64>) -> Seq<u64> {
    if deltas.len() <= WINDOW_LEN {
        deltas
    } else {
        deltas.subrange(deltas.len() - WINDOW_LEN, deltas.len() as int)
    }
}

/// The most recent deltas of a session, the oldest first.
#[derive(Clone, Copy, Debug)]
pub struct DeltaWindow {
    deltas: [u64; 16],
    len: usize,
}

impl View for DeltaWindow {
    type V = Seq<u64>;

    closed spec fn view(&self) -> Seq<u64> {
        self.deltas@.take(self.len as int)
    }
}

impl DeltaWindow {
    #[verifier::type_invariant]
    spec fn bounded(self) -> bool {
        self.len <= WINDOW_LEN
    }

    /// An empty window.
    pub fn new() -> (window: DeltaWindow)
        ensures
            window@ == Seq::<u64>::empty(),
    {
        DeltaWindow { deltas: [0; 16], len: 0 }
    }

    /// Takes a delta in; a full window lets its oldest one go.
    pub fn push(&mut self, delta_ns: u64)
        ensures
            final(self)@ == recent(old(self)@.push(delta_ns)),
    {
        proof {
            use_type_invariant(&*self);
        }
        let before: [u64; 16] = self.deltas;
        let len: usize = self.len;
        let mut deltas: [u64; 16] = before;
        if len < WINDOW_LEN {
            deltas[len] = delta_ns;
            *self = DeltaWindow { deltas, len: len + 1 };
        } else {
            let mut i: usize = 0;
            while i < WINDOW_LEN - 1
                invariant
                    i <= WINDOW_LEN - 1,
                    forall|k: int| 0 <= k < i ==> deltas@[k] == before@[k + 1],
                decreases WINDOW_LEN - i,
            {
                deltas[i] = before[i + 1];
                i = i + 1;
            }
            deltas[WINDOW_LEN - 1] = delta_ns;
            *self = DeltaWindow { deltas, len: WINDOW_LEN };
        }
        proof {
            assert(self@ =~= recent(old(self)@.push(delta_ns)));
        }
    }

    /// The deltas, the oldest first.
    pub fn as_slice(&self) -> (deltas: &[u64])
        ensures
            deltas@ == self@,
            deltas@.len() <= WINDOW_LEN,
    {
        proof {
            use_type_invariant(self);
        }
        let deltas: &[u64] = slice_subrange(self.deltas.as_slice(), 0, self.len);
        proof {
            assert(deltas@ =~= self@);
        }
        deltas
    }
}

/// Law: a window that takes in one delta after the other holds the most recent
/// of all of them.
pub proof fn law_window_slides(deltas: Seq<u64>, delta_ns: u64)
    ensures
        recent(recent(deltas).push(delta_ns)) == recent(deltas.push(delta_ns)),
        recent(deltas).len() == (if deltas.len() < WINDOW_LEN {
            deltas.len()
        } else {
            WINDOW_LEN as nat
        }),
{
    assert(recent(recent(deltas).push(delta_ns)) =~= recent(deltas.push(delta_ns)));
}

/// Law: the most recent deltas are the last ones, in their order, and sixteen of
/// them where there are as many.
pub proof fn law_recent_are_the_last(deltas: Seq<u64>)
    ensures
        deltas.len() <= 16 ==> recent(deltas).len() == deltas.len(),
        deltas.len() >= 16 ==> recent(deltas).len() == 16,
        forall|i: int|
            0 <= i < recent(deltas).len() ==> #[trigger] recent(deltas)[i] == deltas[deltas.len()
                - recent(deltas).len() + i],
{
}

} // verus!
