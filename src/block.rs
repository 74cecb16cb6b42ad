use vstd::prelude::*;

verus! {

/// Length in bytes of the reserved digest carried by the genesis certificate.
pub const DIGEST_LEN: usize = 32;

/// A content hash, identifying a block or a payload.
#[derive(Debug)]
pub struct Digest {
    pub bytes: Vec<u8>,
}

impl View for Digest {
    type V = Seq<u8>;

    open spec fn view(&self) -> Seq<u8> {
        self.bytes@
    }
}

/// The all-zero digest that the genesis certificate and block carry.
pub open spec fn zero_digest() -> Seq<u8> {
    Seq::new(DIGEST_LEN as nat, |i: int| 0u8)
}

impl Digest {
    pub fn new(bytes: Vec<u8>) -> (r: Digest)
        ensures
            r@ == bytes@,
    {
        Digest { bytes }
    }

    /// The reserved all-zero digest.
    pub fn zero() -> (r: Digest)
        ensures
            r@ == zero_digest(),
    {
        let mut bytes: Vec<u8> = Vec::new();
        let mut i: usize = 0;
        while i < DIGEST_LEN
            invariant
                i <= DIGEST_LEN,
                bytes@ == Seq::new(i as nat, |j: int| 0u8),
            decreases DIGEST_LEN - i,
        {
            bytes.push(0u8);
            i = i + 1;
            assert(bytes@ =~= Seq::new(i as nat, |j: int| 0u8));
        }
        Digest { bytes }
    }

    /// A copy holding the same bytes.
    pub fn copy(&self) -> (r: Digest)
        ensures
            r@ == self@,
    {
        let mut bytes: Vec<u8> = Vec::new();
        let mut i: usize = 0;
        while i < self.bytes.len()
            invariant
                i <= self.bytes@.len(),
                bytes@ == self.bytes@.subrange(0, i as int),
            decreases self.bytes@.len() - i,
        {
            bytes.push(self.bytes[i]);
            i = i + 1;
            assert(bytes@ =~= self.bytes@.subrange(0, i as int));
        }
        assert(bytes@ =~= self.bytes@);
        Digest { bytes }
    }

    /// Whether two digests hold the same bytes.
    pub fn same(&self, other: &Digest) -> (r: bool)
        ensures
            r == (self@ == other@),
    {
        if self.bytes.len() != other.bytes.len() {
            return false;
        }
        let mut i: usize = 0;
        while i < self.bytes.len()
            invariant
                i <= self.bytes@.len(),
                self.bytes@.len() == other.bytes@.len(),
                forall|j: int| 0 <= j < i ==> self.bytes@[j] == other.bytes@[j],
            decreases self.bytes@.len() - i,
        {
            if self.bytes[i] != other.bytes[i] {
                return false;
            }
            i = i + 1;
        }
        assert(self.bytes@ =~= other.bytes@);
        true
    }
}

/// A quorum certificate: the digest and round of the block it certifies.
#[derive(Debug)]
pub struct QC {
    pub hash: Digest,
    pub round: u64,
}

/// The reserved certificate standing for "no real parent".
pub open spec fn is_genesis_qc(qc: QC) -> bool {
    qc.hash@ == zero_digest() && qc.round == 0
}

impl QC {
    /// The genesis sentinel.
    pub fn genesis() -> (r: QC)
        ensures
            is_genesis_qc(r),
    {
        QC { hash: Digest::zero(), round: 0 }
    }

    /// Whether this certificate is the genesis sentinel.
    pub fn is_genesis(&self) -> (r: bool)
        ensures
            r == is_genesis_qc(*self),
    {
        let zero = Digest::zero();
        self.round == 0 && self.hash.same(&zero)
    }

    pub fn copy(&self) -> (r: QC)
        ensures
            r.hash@ == self.hash@,
            r.round == self.round,
    {
        QC { hash: self.hash.copy(), round: self.round }
    }
}

/// A proposal: its round, the certificate of its parent, the digest of its
/// payload and its own digest, which the node's hashing layer computed.
#[derive(Debug)]
pub struct Block {
    pub qc: QC,
    pub round: u64,
    pub payload: Digest,
    pub digest: Digest,
}

/// What a block is made of, as plain values.
pub struct BlockModel {
    pub qc_hash: Seq<u8>,
    pub qc_round: u64,
    pub round: u64,
    pub payload: Seq<u8>,
    pub digest: Seq<u8>,
}

impl View for Block {
    type V = BlockModel;

    open spec fn view(&self) -> BlockModel {
        BlockModel {
            qc_hash: self.qc.hash@,
            qc_round: self.qc.round,
            round: self.round,
            payload: self.payload@,
            digest: self.digest@,
        }
    }
}

/// The genesis block.
pub open spec fn genesis_block() -> BlockModel {
    BlockModel {
        qc_hash: zero_digest(),
        qc_round: 0,
        round: 0,
        payload: zero_digest(),
        digest: zero_digest(),
    }
}

/// The digest of a block's parent, as named by its certificate.
pub open spec fn previous_of(b: BlockModel) -> Seq<u8> {
    b.qc_hash
}

/// Whether a block's certificate is the genesis sentinel.
pub open spec fn has_genesis_parent(b: BlockModel) -> bool {
    b.qc_hash == zero_digest() && b.qc_round == 0
}

impl Block {
    pub fn new(qc: QC, round: u64, payload: Digest, digest: Digest) -> (r: Block)
        ensures
            r.qc == qc,
            r.round == round,
            r.payload == payload,
            r.digest == digest,
    {
        Block { qc, round, payload, digest }
    }

    /// The genesis block.
    pub fn genesis() -> (r: Block)
        ensures
            r@ == genesis_block(),
    {
        Block { qc: QC::genesis(), round: 0, payload: Digest::zero(), digest: Digest::zero() }
    }

    /// The digest of this block's parent.
    pub fn previous(&self) -> (r: Digest)
        ensures
            r@ == previous_of(self@),
    {
        self.qc.hash.copy()
    }

    pub fn copy(&self) -> (r: Block)
        ensures
            r@ == self@,
    {
        Block {
            qc: self.qc.copy(),
            round: self.round,
            payload: self.payload.copy(),
            digest: self.digest.copy(),
        }
    }
}

} // verus!
