use vstd::prelude::*;
use crate::block::{Block, BlockModel, Digest, genesis_block, has_genesis_parent, previous_of};

verus! {

/// How to obtain a block's parent.
pub enum PreviousLookup {
    /// The parent is known without reading the store (the genesis block).
    Known(Block),
    /// The parent must be read from the store under this digest.
    Read(Digest),
}

/// What to do when a block's parent is missing from the store: ask the
/// network for `parent`, and register a wait on `parent` that delivers
/// `deliver` once it is written.
pub struct ParentSync {
    pub parent: Digest,
    pub deliver: Block,
}

/// The outcome of looking up a block's parent.
pub enum PreviousOutcome {
    Ready(Block),
    NotReady(ParentSync),
}

/// Decides how to look up the parent of `block`: the genesis sentinel needs
/// no store access, any other certificate names the digest to read.
pub fn previous_lookup(block: &Block) -> (r: PreviousLookup)
    ensures
        has_genesis_parent(block@) <==> r is Known,
        r is Known ==> r->Known_0@ == genesis_block(),
        r is Read ==> r->Read_0@ == previous_of(block@),
{
    if block.qc.is_genesis() {
        PreviousLookup::Known(Block::genesis())
    } else {
        PreviousLookup::Read(block.previous())
    }
}

/// Completes a parent lookup of `block` from what the store held under the
/// parent's digest: the stored block if there was one, otherwise the request
/// and wait that fetch it.
pub fn on_parent_read(block: &Block, stored: Option<Block>) -> (r: PreviousOutcome)
    ensures
        stored is Some <==> r is Ready,
        stored is Some ==> r->Ready_0 == stored->Some_0,
        r is NotReady ==> r->NotReady_0.parent@ == previous_of(block@)
            && r->NotReady_0.deliver@ == block@,
{
    match stored {
        Some(b) => PreviousOutcome::Ready(b),
        None => PreviousOutcome::NotReady(ParentSync { parent: block.previous(), deliver: block.copy() }),
    }
}

/// The parent of `b` as far as `store` (digest to block) holds it.
pub open spec fn lookup(store: Map<Seq<u8>, BlockModel>, b: BlockModel) -> Option<BlockModel> {
    if has_genesis_parent(b) {
        Some(genesis_block())
    } else if store.contains_key(previous_of(b)) {
        Some(store[previous_of(b)])
    } else {
        None
    }
}

/// The three ancestors of `b`, oldest first, if all three can be looked up.
pub open spec fn ancestors_of(store: Map<Seq<u8>, BlockModel>, b: BlockModel) -> Option<(BlockModel, BlockModel, BlockModel)> {
    match lookup(store, b) {
        None => None,
        Some(b2) => match lookup(store, b2) {
            None => None,
            Some(b1) => match lookup(store, b1) {
                None => None,
                Some(b0) => Some((b0, b1, b2)),
            },
        },
    }
}

/// The plain values of a sequence of blocks.
pub open spec fn models(s: Seq<Block>) -> Seq<BlockModel> {
    s.map_values(|b: Block| b@)
}

/// The plain value of a parent that may be missing.
pub open spec fn option_model(p: Option<Block>) -> Option<BlockModel> {
    match p {
        Some(b) => Some(b@),
        None => None,
    }
}

/// Each block of `found` is the parent, in `store`, of the one before it,
/// the first being the parent of `origin`.
pub open spec fn follows(store: Map<Seq<u8>, BlockModel>, origin: BlockModel, found: Seq<BlockModel>) -> bool {
    forall|k: int| 0 <= k < found.len() ==> lookup(store, if k == 0 { origin } else { found[k - 1] }) == Some(#[trigger] found[k])
}

/// One step of a walk up three parent links.
pub enum WalkStep {
    /// Look up the parent of the block last found.
    Continue,
    /// All three ancestors were found, oldest first.
    Done(Block, Block, Block),
    /// The first parent is missing: it must be fetched.
    NotReady(ParentSync),
    /// A parent of a block already found is missing, which breaks the
    /// guarantee that delivered blocks have all their ancestors stored.
    MissingAncestor,
}

/// A walk from a block up to its three nearest ancestors.
pub struct AncestorWalk {
    pub origin: Block,
    pub found: Vec<Block>,
}

impl AncestorWalk {
    pub open spec fn wf(&self) -> bool {
        self.found@.len() < 3
    }

    /// The block whose parent is looked up next.
    pub open spec fn current(&self) -> BlockModel {
        if self.found@.len() == 0 {
            self.origin@
        } else {
            self.found@.last()@
        }
    }

    pub fn new(origin: Block) -> (r: AncestorWalk)
        ensures
            r.wf(),
            r.origin == origin,
            r.found@.len() == 0,
    {
        AncestorWalk { origin, found: Vec::new() }
    }

    /// How to look up the parent of the block last found.
    pub fn next_lookup(&self) -> (r: PreviousLookup)
        requires
            self.wf(),
        ensures
            has_genesis_parent(self.current()) <==> r is Known,
            r is Known ==> r->Known_0@ == genesis_block(),
            r is Read ==> r->Read_0@ == previous_of(self.current()),
    {
        if self.found.len() == 0 {
            previous_lookup(&self.origin)
        } else {
            previous_lookup(&self.found[self.found.len() - 1])
        }
    }

    /// Records the parent of the current block, `None` when it is missing.
    pub fn record(&mut self, parent: Option<Block>) -> (r: WalkStep)
        requires
            old(self).wf(),
        ensures
            final(self).wf(),
            final(self).origin == old(self).origin,
            parent is None && old(self).found@.len() == 0 ==> r is NotReady
                && r->NotReady_0.parent@ == previous_of(old(self).origin@)
                && r->NotReady_0.deliver@ == old(self).origin@,
            parent is None && old(self).found@.len() > 0 ==> r is MissingAncestor,
            parent is Some && old(self).found@.len() < 2 ==> r is Continue
                && final(self).found@ == old(self).found@.push(parent->Some_0),
            parent is Some && old(self).found@.len() == 2 ==> r is Done
                && r->Done_0 == parent->Some_0
                && r->Done_1 == old(self).found@[1]
                && r->Done_2 == old(self).found@[0],
            forall|store: Map<Seq<u8>, BlockModel>|
                #![trigger follows(store, old(self).origin@, models(old(self).found@))]
                follows(store, old(self).origin@, models(old(self).found@))
                    && lookup(store, old(self).current()) == option_model(parent) ==> {
                    &&& (r is Continue ==> follows(store, final(self).origin@, models(final(self).found@)))
                    &&& (r is Done ==> ancestors_of(store, old(self).origin@)
                        == Some((r->Done_0@, r->Done_1@, r->Done_2@)))
                    &&& (r is NotReady ==> ancestors_of(store, old(self).origin@) is None)
                },
    {
        let ghost before = self.found@;
        assert forall|store: Map<Seq<u8>, BlockModel>|
            follows(store, self.origin@, models(before)) && lookup(store, self.current()) == option_model(parent)
            implies {
                &&& (parent is Some && before.len() < 2 ==> follows(store, self.origin@, models(before.push(parent->Some_0))))
                &&& (parent is Some && before.len() == 2 ==> ancestors_of(store, self.origin@)
                    == Some((parent->Some_0@, before[1]@, before[0]@)))
                &&& (parent is None && before.len() == 0 ==> ancestors_of(store, self.origin@) is None)
            } by {
            if parent is Some && before.len() < 2 {
                let ext = models(before.push(parent->Some_0));
                assert forall|k: int| 0 <= k < ext.len() implies
                    lookup(store, if k == 0 { self.origin@ } else { ext[k - 1] }) == Some(#[trigger] ext[k]) by {
                    if k < before.len() {
                        assert(models(before)[k] == ext[k]);
                        if k > 0 {
                            assert(models(before)[k - 1] == ext[k - 1]);
                        }
                    } else if k > 0 {
                        assert(ext[k - 1] == before[k - 1]@);
                    }
                }
            }
            if parent is Some && before.len() == 2 {
                assert(lookup(store, self.origin@) == Some(models(before)[0]));
                assert(lookup(store, models(before)[0]) == Some(models(before)[1]));
            }
        }
        match parent {
            None => {
                if self.found.len() == 0 {
                    WalkStep::NotReady(ParentSync {
                        parent: self.origin.previous(),
                        deliver: self.origin.copy(),
                    })
                } else {
                    WalkStep::MissingAncestor
                }
            },
            Some(p) => {
                if self.found.len() < 2 {
                    self.found.push(p);
                    WalkStep::Continue
                } else {
                    let b2 = self.found.remove(0);
                    let b1 = self.found.remove(0);
                    WalkStep::Done(p, b1, b2)
                }
            },
        }
    }
}

/// A block's ancestors are "not ready" exactly when the lookup of its
/// parent fails; when the store holds every ancestor of every block it
/// holds, that is exactly when one of the three lookups fails, and a found
/// result always holds all three ancestors, oldest first.
pub proof fn lemma_ancestors_all_or_nothing(store: Map<Seq<u8>, BlockModel>, b: BlockModel)
    requires
        forall|x: BlockModel| #[trigger] lookup(store, x) is Some ==> lookup(store, lookup(store, x)->Some_0) is Some,
    ensures
        ancestors_of(store, b) is None <==> lookup(store, b) is None,
        ancestors_of(store, b) is Some ==> ({
            let b2 = lookup(store, b)->Some_0;
            let b1 = lookup(store, b2)->Some_0;
            let b0 = lookup(store, b1)->Some_0;
            ancestors_of(store, b) == Some((b0, b1, b2))
        }),
{
    if lookup(store, b) is Some {
        let b2 = lookup(store, b)->Some_0;
        assert(lookup(store, b2) is Some);
        let b1 = lookup(store, b2)->Some_0;
        assert(lookup(store, b1) is Some);
    }
}

} // verus!
