use vstd::prelude::*;
use crate::ancestry::AncestorWalk;
use crate::block::{Block, Digest};
use crate::channel::send_signal;
use tokio::sync::mpsc::{channel, Receiver, Sender};

verus! {

/// A registered payload wait: its round and the sender that cancels it.
pub struct PendingPayload {
    pub round: u64,
    pub cancel: Sender<()>,
}

/// A wait on a block's payload, to be handed to the waiting task: await
/// `key` in the store, then loop `deliver` back, unless `cancel` fires first.
pub struct PayloadWait {
    pub key: Digest,
    pub deliver: Block,
    pub cancel: Receiver<()>,
}

/// Capacity of a cancellation channel: one signal is all it ever carries.
pub const CANCEL_CAPACITY: usize = 1;

/// The node's entry point for resolving a block's ancestors and payload.
/// It owns the registry of payload waits, at most one per round.
pub struct Synchronizer {
    pub name: Vec<u8>,
    pub pending_payloads: Vec<PendingPayload>,
    /// The rounds on which a cancellation signal was sent, in order.
    pub signalled: Ghost<Seq<u64>>,
}

/// The registered waits that a cleanup at `round` keeps, in order.
pub open spec fn kept_entries(s: Seq<PendingPayload>, round: u64) -> Seq<PendingPayload> {
    s.filter(keeps(round))
}

/// Whether a cleanup at `round` keeps a registered wait.
pub open spec fn keeps(round: u64) -> spec_fn(PendingPayload) -> bool {
    |p: PendingPayload| p.round >= round
}

/// The signals a cleanup at `round` sent, given the rounds registered
/// before it: each on a round below `round` that was registered, each once.
pub open spec fn stale_signals(added: Seq<u64>, rounds: Set<u64>, round: u64) -> bool {
    &&& added.no_duplicates()
    &&& forall|k: int| 0 <= k < added.len() ==> #[trigger] added[k] < round && rounds.contains(added[k])
}

/// The rounds of a sequence of registered waits.
pub open spec fn rounds_of(s: Seq<PendingPayload>) -> Set<u64> {
    Set::new(|r: u64| exists|i: int| 0 <= i < s.len() && #[trigger] s[i].round == r)
}

/// Rounds that stay registered after a cleanup at `round`.
pub open spec fn after_cleanup(rounds: Set<u64>, round: u64) -> Set<u64> {
    rounds.filter(|r: u64| r >= round)
}

impl Synchronizer {
    /// The rounds that have a payload wait registered.
    pub open spec fn rounds(&self) -> Set<u64> {
        rounds_of(self.pending_payloads@)
    }

    /// No round is registered twice.
    pub open spec fn wf(&self) -> bool {
        forall|i: int, j: int|
            0 <= i < self.pending_payloads@.len() && 0 <= j < self.pending_payloads@.len() && i != j
                ==> #[trigger] self.pending_payloads@[i].round != #[trigger] self.pending_payloads@[j].round
    }

    /// A synchronizer for the node `name` with no payload wait registered.
    pub fn new(name: Vec<u8>) -> (r: Synchronizer)
        ensures
            r.wf(),
            r.name@ == name@,
            r.rounds() == Set::<u64>::empty(),
            r.pending_payloads@.len() == 0,
            r.signalled@.len() == 0,
    {
        let r = Synchronizer { name, pending_payloads: Vec::new(), signalled: Ghost(Seq::empty()) };
        assert(r.rounds() =~= Set::<u64>::empty());
        r
    }

    /// Whether a payload wait is registered for `round`.
    pub fn has_payload_wait(&self, round: u64) -> (r: bool)
        ensures
            r == self.rounds().contains(round),
    {
        let mut i: usize = 0;
        while i < self.pending_payloads.len()
            invariant
                i <= self.pending_payloads@.len(),
                forall|j: int| 0 <= j < i ==> #[trigger] self.pending_payloads@[j].round != round,
            decreases self.pending_payloads@.len() - i,
        {
            if self.pending_payloads[i].round == round {
                return true;
            }
            i = i + 1;
        }
        false
    }

    /// Starts resolving the three nearest ancestors of `block`.
    pub fn get_ancestors(&self, block: &Block) -> (r: AncestorWalk)
        ensures
            r.wf(),
            r.origin@ == block@,
            r.found@.len() == 0,
    {
        AncestorWalk::new(block.copy())
    }

    /// Registers a wait on the payload of `block`, unless one is registered
    /// for its round already; the wait returned is for the waiting task.
    pub fn register_payload(&mut self, block: &Block) -> (r: Option<PayloadWait>)
        requires
            old(self).wf(),
        ensures
            final(self).wf(),
            final(self).name == old(self).name,
            r is Some <==> !old(self).rounds().contains(block.round),
            final(self).rounds() == old(self).rounds().insert(block.round),
            r is Some ==> r->Some_0.key@ == block.payload@ && r->Some_0.deliver@ == block@,
            r is None ==> final(self).pending_payloads@ == old(self).pending_payloads@,
            r is Some ==> final(self).pending_payloads@.drop_last() == old(self).pending_payloads@
                && final(self).pending_payloads@.last().round == block.round,
            final(self).signalled == old(self).signalled,
    {
        if self.has_payload_wait(block.round) {
            assert(self.rounds() =~= self.rounds().insert(block.round));
            return None;
        }
        let ghost before = self.rounds();
        proof {
            let m: usize = usize::MAX;
            assert(m >> 3usize == m / 8usize) by (bit_vector);
        }
        let (tx, rx) = channel(CANCEL_CAPACITY);
        self.pending_payloads.push(PendingPayload { round: block.round, cancel: tx });
        assert forall|x: u64| self.rounds().contains(x) <==> before.insert(block.round).contains(x) by {
            if before.contains(x) {
                let i = choose|i: int| 0 <= i < old(self).pending_payloads@.len() && #[trigger] old(self).pending_payloads@[i].round == x;
                assert(self.pending_payloads@[i].round == x);
            }
            if x == block.round {
                assert(self.pending_payloads@[self.pending_payloads@.len() - 1].round == x);
            }
            if self.rounds().contains(x) {
                let i = choose|i: int| 0 <= i < self.pending_payloads@.len() && #[trigger] self.pending_payloads@[i].round == x;
                if i < old(self).pending_payloads@.len() {
                    assert(old(self).pending_payloads@[i].round == x);
                }
            }
        }
        assert(self.rounds() =~= before.insert(block.round));
        assert(self.pending_payloads@.drop_last() =~= old(self).pending_payloads@);
        Some(PayloadWait { key: block.payload.copy(), deliver: block.copy(), cancel: rx })
    }

    /// Cancels every payload wait of a round below `round` whose channel is
    /// still open, and drops all of them from the registry; a round dropped
    /// here can be registered again. The waits of `round` and later rounds
    /// stay as they were, and none of them is signalled.
    pub fn cleanup(&mut self, round: u64)
        requires
            old(self).wf(),
        ensures
            final(self).wf(),
            final(self).name == old(self).name,
            final(self).pending_payloads@ == kept_entries(old(self).pending_payloads@, round),
            final(self).rounds() == after_cleanup(old(self).rounds(), round),
            final(self).signalled@.len() >= old(self).signalled@.len(),
            final(self).signalled@.subrange(0, old(self).signalled@.len() as int) == old(self).signalled@,
            stale_signals(
                final(self).signalled@.skip(old(self).signalled@.len() as int),
                old(self).rounds(),
                round,
            ),
    {
        let ghost start = self.pending_payloads@;
        let ghost start_signals = self.signalled@;
        let ghost mut added: Seq<u64> = Seq::empty();
        let ghost mut j: int = 0;
        let mut i: usize = 0;
        while i < self.pending_payloads.len()
            invariant
                0 <= j <= start.len(),
                i == kept_entries(start.subrange(0, j), round).len(),
                self.pending_payloads@ == kept_entries(start.subrange(0, j), round) + start.subrange(j, start.len() as int),
                self.wf(),
                self.name == old(self).name,
                self.signalled@ == start_signals + added,
                added.no_duplicates(),
                forall|k: int| 0 <= k < added.len() ==> #[trigger] added[k] < round
                    && rounds_of(start).contains(added[k])
                    && !rounds_of(self.pending_payloads@).contains(added[k]),
            decreases start.len() - j,
        {
            let ghost cur = self.pending_payloads@;
            assert(cur[i as int] == start[j]);
            let ghost next = start.subrange(0, j + 1);
            assert(next =~= start.subrange(0, j).push(start[j]));
            proof {
                lemma_kept_push(start.subrange(0, j), start[j], round);
            }
            if self.pending_payloads[i].round < round {
                let r = self.pending_payloads[i].round;
                assert(rounds_of(start).contains(r)) by {
                    assert(start[j].round == r);
                }
                assert(!added.contains(r)) by {
                    if added.contains(r) {
                        let k = choose|k: int| 0 <= k < added.len() && added[k] == r;
                        assert(!rounds_of(cur).contains(added[k]));
                        assert(cur[i as int].round == r);
                    }
                }
                if !self.pending_payloads[i].cancel.is_closed() {
                    send_signal(&self.pending_payloads[i].cancel);
                    self.signalled = Ghost(self.signalled@.push(r));
                    proof {
                        added = added.push(r);
                    }
                }
                let _stale = self.pending_payloads.remove(i);
                assert(self.pending_payloads@ =~= kept_entries(next, round) + start.subrange(j + 1, start.len() as int));
                assert forall|x: u64| #[trigger] rounds_of(self.pending_payloads@).contains(x) implies rounds_of(cur).contains(x) && x != r by {
                    let a = choose|a: int| 0 <= a < self.pending_payloads@.len() && #[trigger] self.pending_payloads@[a].round == x;
                    if a < i {
                        assert(cur[a].round == x);
                        assert(cur[a].round != cur[i as int].round);
                    } else {
                        assert(cur[a + 1].round == x);
                        assert(cur[a + 1].round != cur[i as int].round);
                    }
                }
                assert(self.signalled@ =~= start_signals + added);
            } else {
                assert(self.pending_payloads@ =~= kept_entries(next, round) + start.subrange(j + 1, start.len() as int));
                i = i + 1;
            }
            proof {
                j = j + 1;
            }
        }
        assert(start.subrange(0, j) =~= start);
        assert(self.pending_payloads@ =~= kept_entries(start, round));
        assert forall|x: u64| self.rounds().contains(x) <==> after_cleanup(old(self).rounds(), round).contains(x) by {
            lemma_kept_rounds(start, round, x);
        }
        assert(self.rounds() =~= after_cleanup(old(self).rounds(), round));
        assert(self.signalled@.subrange(0, start_signals.len() as int) =~= start_signals);
        assert(self.signalled@.skip(start_signals.len() as int) =~= added);
    }
}

/// Keeping the waits of `round` and later from a sequence with one more
/// entry keeps that entry exactly when its round is not below `round`.
proof fn lemma_kept_push(s: Seq<PendingPayload>, e: PendingPayload, round: u64)
    ensures
        kept_entries(s.push(e), round) == if e.round >= round {
            kept_entries(s, round).push(e)
        } else {
            kept_entries(s, round)
        },
{
    reveal(Seq::filter);
    let t = s.push(e);
    assert(t.drop_last() =~= s);
    assert(t.last() == e);
    assert(t.len() > 0);
    assert(t.filter(keeps(round)) == if keeps(round)(t.last()) {
        t.drop_last().filter(keeps(round)).push(t.last())
    } else {
        t.drop_last().filter(keeps(round))
    });
}

proof fn lemma_rounds_push(s: Seq<PendingPayload>, e: PendingPayload, x: u64)
    ensures
        rounds_of(s.push(e)).contains(x) <==> rounds_of(s).contains(x) || e.round == x,
{
    if rounds_of(s).contains(x) {
        let i = choose|i: int| 0 <= i < s.len() && #[trigger] s[i].round == x;
        assert(s.push(e)[i].round == x);
    }
    if e.round == x {
        assert(s.push(e)[s.len() as int].round == x);
    }
    if rounds_of(s.push(e)).contains(x) {
        let i = choose|i: int| 0 <= i < s.len() + 1 && #[trigger] s.push(e)[i].round == x;
        if i < s.len() {
            assert(s[i].round == x);
        }
    }
}

/// The kept waits hold exactly the registered rounds not below `round`.
proof fn lemma_kept_rounds(s: Seq<PendingPayload>, round: u64, x: u64)
    ensures
        rounds_of(kept_entries(s, round)).contains(x) <==> rounds_of(s).contains(x) && x >= round,
    decreases s.len(),
{
    if s.len() == 0 {
        reveal(Seq::filter);
        assert(!rounds_of(s).contains(x));
        assert(kept_entries(s, round) == s);
    } else {
        let t = s.drop_last();
        let e = s.last();
        assert(s =~= t.push(e));
        lemma_kept_push(t, e, round);
        lemma_kept_rounds(t, round, x);
        lemma_rounds_push(t, e, x);
        lemma_rounds_push(kept_entries(t, round), e, x);
    }
}

/// A cleanup at `round` removes the wait of every earlier round and keeps
/// the wait of `round` itself and of every later round.
pub proof fn lemma_cleanup_boundary(rounds: Set<u64>, round: u64, r: u64)
    ensures
        r < round ==> !after_cleanup(rounds, round).contains(r),
        r >= round ==> (after_cleanup(rounds, round).contains(r) <==> rounds.contains(r)),
{
}

/// Two cleanups, at `r1` and then at `r2`, keep exactly the waits that one
/// cleanup at the larger of the two rounds keeps, in the same order.
pub proof fn lemma_cleanup_twice(s: Seq<PendingPayload>, r1: u64, r2: u64)
    ensures
        kept_entries(kept_entries(s, r1), r2) == kept_entries(s, if r1 >= r2 { r1 } else { r2 }),
    decreases s.len(),
{
    let m = if r1 >= r2 { r1 } else { r2 };
    if s.len() == 0 {
        reveal(Seq::filter);
        assert(kept_entries(s, r1) == s);
        assert(kept_entries(s, m) == s);
    } else {
        let t = s.drop_last();
        let e = s.last();
        assert(s =~= t.push(e));
        lemma_cleanup_twice(t, r1, r2);
        lemma_kept_push(t, e, r1);
        lemma_kept_push(t, e, m);
        lemma_kept_push(kept_entries(t, r1), e, r2);
    }
}

/// A cleanup right after a cleanup at the same round sends no signal: no
/// round below it is registered any more.
pub proof fn lemma_repeated_cleanup_signals_nothing(rounds: Set<u64>, round: u64, added: Seq<u64>)
    requires
        stale_signals(added, after_cleanup(rounds, round), round),
    ensures
        added.len() == 0,
{
    if added.len() > 0 {
        assert(after_cleanup(rounds, round).contains(added[0]));
    }
}

} // verus!
