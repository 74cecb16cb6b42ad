use vstd::prelude::*;
use crate::block::{Block, Digest};

verus! {

/// How a wait for a key in the store ended.
pub enum WaitOutcome {
    /// The key was written. `parent` is the awaited digest for a wait on a
    /// missing parent, `None` for a payload wait; `block` is to be looped back.
    Delivered { parent: Option<Digest>, block: Block },
    /// The wait was cancelled before the key was written.
    Cancelled,
    /// The store failed while waiting.
    Failed,
}

/// The digests of missing parents that have a wait in flight, at most one
/// wait per digest.
pub struct PendingParents {
    pub entries: Vec<Digest>,
}

impl View for PendingParents {
    type V = Set<Seq<u8>>;

    open spec fn view(&self) -> Set<Seq<u8>> {
        Set::new(|d: Seq<u8>| exists|i: int| 0 <= i < self.entries@.len() && #[trigger] self.entries@[i]@ == d)
    }
}

/// A parent wait is registered for `d` exactly when none is in flight for it.
pub open spec fn registers(pending: Set<Seq<u8>>, d: Seq<u8>) -> bool {
    !pending.contains(d)
}

impl PendingParents {
    /// No digest is held twice.
    pub open spec fn wf(&self) -> bool {
        forall|i: int, j: int|
            0 <= i < self.entries@.len() && 0 <= j < self.entries@.len() && i != j
                ==> #[trigger] self.entries@[i]@ != #[trigger] self.entries@[j]@
    }

    pub fn new() -> (r: PendingParents)
        ensures
            r.wf(),
            r@ == Set::<Seq<u8>>::empty(),
    {
        let r = PendingParents { entries: Vec::new() };
        assert(r@ =~= Set::<Seq<u8>>::empty());
        r
    }

    pub fn contains(&self, d: &Digest) -> (r: bool)
        ensures
            r == self@.contains(d@),
    {
        let mut i: usize = 0;
        while i < self.entries.len()
            invariant
                i <= self.entries@.len(),
                forall|j: int| 0 <= j < i ==> #[trigger] self.entries@[j]@ != d@,
            decreases self.entries@.len() - i,
        {
            if self.entries[i].same(d) {
                assert(self.entries@[i as int]@ == d@);
                return true;
            }
            i = i + 1;
        }
        false
    }

    /// A request to wait on the missing parent `wait_on` arrives: the digest
    /// joins the set, and the result tells whether a wait is to be started,
    /// which is so only when none was in flight for it.
    pub fn on_sync_parent(&mut self, wait_on: &Digest) -> (start: bool)
        requires
            old(self).wf(),
        ensures
            final(self).wf(),
            start == registers(old(self)@, wait_on@),
            final(self)@ == old(self)@.insert(wait_on@),
    {
        if self.contains(wait_on) {
            assert(self@ =~= self@.insert(wait_on@));
            false
        } else {
            let ghost before = self@;
            self.entries.push(wait_on.copy());
            assert forall|d: Seq<u8>| self@.contains(d) <==> before.insert(wait_on@).contains(d) by {
                if before.contains(d) {
                    let i = choose|i: int| 0 <= i < old(self).entries@.len() && #[trigger] old(self).entries@[i]@ == d;
                    assert(self.entries@[i]@ == d);
                }
                if d == wait_on@ {
                    assert(self.entries@[self.entries@.len() - 1]@ == d);
                }
                if self@.contains(d) {
                    let i = choose|i: int| 0 <= i < self.entries@.len() && #[trigger] self.entries@[i]@ == d;
                    if i < old(self).entries@.len() {
                        assert(old(self).entries@[i]@ == d);
                    }
                }
            }
            assert(self@ =~= before.insert(wait_on@));
            true
        }
    }

    /// Takes `d` out of the set: its wait has completed.
    pub fn remove(&mut self, d: &Digest)
        requires
            old(self).wf(),
        ensures
            final(self).wf(),
            final(self)@ == old(self)@.remove(d@),
    {
        let mut kept: Vec<Digest> = Vec::new();
        let mut i: usize = 0;
        while i < self.entries.len()
            invariant
                i <= self.entries@.len(),
                self.wf(),
                forall|a: int, b: int|
                    0 <= a < kept@.len() && 0 <= b < kept@.len() && a != b
                        ==> #[trigger] kept@[a]@ != #[trigger] kept@[b]@,
                forall|a: int| 0 <= a < kept@.len() ==> #[trigger] kept@[a]@ != d@
                    && exists|j: int| 0 <= j < i && self.entries@[j]@ == kept@[a]@,
                forall|j: int| 0 <= j < i && #[trigger] self.entries@[j]@ != d@
                    ==> exists|a: int| 0 <= a < kept@.len() && kept@[a]@ == self.entries@[j]@,
            decreases self.entries@.len() - i,
        {
            let ghost kept_before = kept@;
            if !self.entries[i].same(d) {
                let ghost e = self.entries@[i as int]@;
                assert forall|a: int| 0 <= a < kept@.len() implies #[trigger] kept@[a]@ != e by {
                    let j = choose|j: int| 0 <= j < i && self.entries@[j]@ == kept@[a]@;
                    assert(self.entries@[j]@ != self.entries@[i as int]@);
                }
                kept.push(self.entries[i].copy());
                assert(kept@[kept@.len() - 1]@ == e);
            }
            i = i + 1;
            assert forall|j: int| 0 <= j < i && #[trigger] self.entries@[j]@ != d@
                implies exists|a: int| 0 <= a < kept@.len() && kept@[a]@ == self.entries@[j]@ by {
                if j < i - 1 {
                    let a = choose|a: int| 0 <= a < kept_before.len() && kept_before[a]@ == self.entries@[j]@;
                    assert(kept@[a] == kept_before[a]);
                } else {
                    assert(kept@[kept@.len() - 1]@ == self.entries@[j]@);
                }
            }
        }
        let ghost before = self@;
        let ghost old_entries = self.entries@;
        self.entries = kept;
        assert forall|x: Seq<u8>| self@.contains(x) <==> before.remove(d@).contains(x) by {
            if self@.contains(x) {
                let a = choose|a: int| 0 <= a < self.entries@.len() && #[trigger] self.entries@[a]@ == x;
                let j = choose|j: int| 0 <= j < old_entries.len() && old_entries[j]@ == self.entries@[a]@;
                assert(old_entries[j]@ == x);
            }
            if before.remove(d@).contains(x) {
                let j = choose|j: int| 0 <= j < old_entries.len() && #[trigger] old_entries[j]@ == x;
                assert(old_entries[j]@ != d@);
            }
        }
        assert(self@ =~= before.remove(d@));
    }

    /// A wait has ended: a parent wait leaves the set, and a delivered block
    /// is handed back to be looped into the core.
    pub fn on_wait_done(&mut self, outcome: WaitOutcome) -> (r: Option<Block>)
        requires
            old(self).wf(),
        ensures
            final(self).wf(),
            outcome is Delivered <==> r is Some,
            outcome is Delivered ==> r->Some_0 == outcome->Delivered_block,
            outcome is Delivered && outcome->Delivered_parent is Some
                ==> final(self)@ == old(self)@.remove(outcome->Delivered_parent->Some_0@),
            !(outcome is Delivered && outcome->Delivered_parent is Some)
                ==> final(self)@ == old(self)@,
    {
        match outcome {
            WaitOutcome::Delivered { parent, block } => {
                match parent {
                    Some(p) => self.remove(&p),
                    None => {},
                }
                Some(block)
            },
            WaitOutcome::Cancelled => None,
            WaitOutcome::Failed => None,
        }
    }

    /// The retry timer fired: the digests to request again, each pending one
    /// exactly once.
    pub fn retry_requests(&self) -> (r: Vec<Digest>)
        requires
            self.wf(),
        ensures
            r@.len() == self.entries@.len(),
            r@.len() == self@.len(),
            forall|i: int| 0 <= i < r@.len() ==> #[trigger] r@[i]@ == self.entries@[i]@,
            forall|i: int, j: int| 0 <= i < r@.len() && 0 <= j < r@.len() && i != j
                ==> #[trigger] r@[i]@ != #[trigger] r@[j]@,
            forall|d: Seq<u8>| self@.contains(d) <==> exists|i: int| 0 <= i < r@.len() && #[trigger] r@[i]@ == d,
    {
        let mut r: Vec<Digest> = Vec::new();
        let mut i: usize = 0;
        while i < self.entries.len()
            invariant
                i <= self.entries@.len(),
                r@.len() == i,
                forall|j: int| 0 <= j < i ==> #[trigger] r@[j]@ == self.entries@[j]@,
            decreases self.entries@.len() - i,
        {
            r.push(self.entries[i].copy());
            i = i + 1;
        }
        assert forall|d: Seq<u8>| self@.contains(d) <==> exists|i: int| 0 <= i < r@.len() && #[trigger] r@[i]@ == d by {
            if self@.contains(d) {
                let k = choose|k: int| 0 <= k < self.entries@.len() && #[trigger] self.entries@[k]@ == d;
                assert(r@[k]@ == d);
            }
            if exists|i: int| 0 <= i < r@.len() && #[trigger] r@[i]@ == d {
                let k = choose|k: int| 0 <= k < r@.len() && #[trigger] r@[k]@ == d;
                assert(self.entries@[k]@ == d);
            }
        }
        assert forall|i: int, j: int| 0 <= i < r@.len() && 0 <= j < r@.len() && i != j
            implies #[trigger] r@[i]@ != #[trigger] r@[j]@ by {
            assert(self.entries@[i]@ != self.entries@[j]@);
        }
        proof {
            let views = self.entries@.map_values(|e: Digest| e@);
            assert(views.no_duplicates()) by {
                assert forall|i: int, j: int| 0 <= i < views.len() && 0 <= j < views.len() && i != j
                    implies views[i] != views[j] by {
                    assert(self.entries@[i]@ != self.entries@[j]@);
                }
            }
            assert forall|d: Seq<u8>| views.to_set().contains(d) <==> self@.contains(d) by {
                if views.contains(d) {
                    let k = choose|k: int| 0 <= k < views.len() && views[k] == d;
                    assert(self.entries@[k]@ == d);
                }
                if self@.contains(d) {
                    let k = choose|k: int| 0 <= k < self.entries@.len() && #[trigger] self.entries@[k]@ == d;
                    assert(views[k] == d);
                }
            }
            assert(views.to_set() =~= self@);
            views.unique_seq_to_set();
        }
        r
    }
}

/// An event that changes the set of pending parents.
pub enum ParentEvent {
    /// A wait on this missing parent digest was requested.
    Requested(Seq<u8>),
    /// The wait on this parent digest delivered its block.
    Resolved(Seq<u8>),
    /// Anything else: a payload wait ended, a wait was cancelled or failed,
    /// or the retry timer fired.
    Other,
}

/// The pending set after one event.
pub open spec fn apply_event(pending: Set<Seq<u8>>, e: ParentEvent) -> Set<Seq<u8>> {
    match e {
        ParentEvent::Requested(d) => pending.insert(d),
        ParentEvent::Resolved(d) => pending.remove(d),
        ParentEvent::Other => pending,
    }
}

/// The pending set after a run of events.
pub open spec fn apply_events(pending: Set<Seq<u8>>, es: Seq<ParentEvent>) -> Set<Seq<u8>>
    decreases es.len(),
{
    if es.len() == 0 {
        pending
    } else {
        apply_event(apply_events(pending, es.drop_last()), es.last())
    }
}

/// How many waits a run of events starts: one per request for a digest
/// that is not pending at that moment.
pub open spec fn waits_started(pending: Set<Seq<u8>>, es: Seq<ParentEvent>) -> nat
    decreases es.len(),
{
    if es.len() == 0 {
        0
    } else {
        let before = apply_events(pending, es.drop_last());
        waits_started(pending, es.drop_last()) + match es.last() {
            ParentEvent::Requested(d) => if registers(before, d) { 1nat } else { 0nat },
            _ => 0nat,
        }
    }
}

/// Requesting the same missing parent any number of times, with no
/// resolution in between, starts exactly one wait; the digest then stays
/// pending.
pub proof fn lemma_one_wait_per_missing_parent(pending: Set<Seq<u8>>, d: Seq<u8>, n: nat)
    requires
        !pending.contains(d),
        n > 0,
    ensures
        waits_started(pending, Seq::new(n, |i: int| ParentEvent::Requested(d))) == 1,
        apply_events(pending, Seq::new(n, |i: int| ParentEvent::Requested(d))) == pending.insert(d),
    decreases n,
{
    let es = Seq::new(n, |i: int| ParentEvent::Requested(d));
    let prefix = es.drop_last();
    assert(es.last() == ParentEvent::Requested(d));
    if n == 1 {
        assert(prefix =~= Seq::<ParentEvent>::empty());
        assert(apply_events(pending, prefix) == pending);
        assert(waits_started(pending, prefix) == 0);
    } else {
        lemma_one_wait_per_missing_parent(pending, d, (n - 1) as nat);
        assert(prefix =~= Seq::new((n - 1) as nat, |i: int| ParentEvent::Requested(d)));
        assert(apply_events(pending, prefix) == pending.insert(d));
        assert(!registers(pending.insert(d), d));
        assert(pending.insert(d).insert(d) =~= pending.insert(d));
    }
}

/// A pending parent stays pending through any run of events that does not
/// resolve it, so every firing of the retry timer requests it again.
pub proof fn lemma_pending_until_resolved(pending: Set<Seq<u8>>, d: Seq<u8>, es: Seq<ParentEvent>)
    requires
        pending.contains(d),
        forall|i: int| 0 <= i < es.len() ==> es[i] != ParentEvent::Resolved(d),
    ensures
        apply_events(pending, es).contains(d),
    decreases es.len(),
{
    if es.len() > 0 {
        lemma_pending_until_resolved(pending, d, es.drop_last());
        assert(es.last() == es[es.len() - 1]);
    }
}

/// Once the wait on a parent resolves, the digest leaves the set, so a
/// later completion finds nothing to resolve and a later request for it
/// starts a new wait.
pub proof fn lemma_resolution_clears_parent(pending: Set<Seq<u8>>, d: Seq<u8>)
    ensures
        !apply_event(pending, ParentEvent::Resolved(d)).contains(d),
        registers(apply_event(pending, ParentEvent::Resolved(d)), d),
{
}

} // verus!
