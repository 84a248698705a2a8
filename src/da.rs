//! The messages posted on the DA layer: sequencer commitments and proofs,
//! their mathematical models and their encoding.
use vstd::prelude::*;

use crate::codec::{enc_bytes, read_bytes, stands_at, write_bytes, MAX_LEN};

verus! {

/// Number of bytes in a block hash or a Merkle root.
pub const HASH_LEN: usize = 32;

/// `a + b` stands at `pos` exactly when `a` stands at `pos` and `b` right after it.
pub proof fn lemma_stands_concat(a: Seq<u8>, b: Seq<u8>, s: Seq<u8>, pos: int)
    ensures
        stands_at(a + b, s, pos) <==> (stands_at(a, s, pos) && stands_at(b, s, pos + a.len())),
{
    if stands_at(a + b, s, pos) {
        assert(s.subrange(pos, pos + a.len()) =~= (a + b).subrange(0, a.len() as int));
        assert((a + b).subrange(0, a.len() as int) =~= a);
        assert(s.subrange(pos + a.len(), pos + a.len() + b.len()) =~= (a + b).subrange(
            a.len() as int,
            (a.len() + b.len()) as int,
        ));
        assert((a + b).subrange(a.len() as int, (a.len() + b.len()) as int) =~= b);
    }
    if stands_at(a, s, pos) && stands_at(b, s, pos + a.len()) {
        assert(s.subrange(pos, pos + a.len() + b.len()) =~= s.subrange(pos, pos + a.len())
            + s.subrange(pos + a.len(), pos + a.len() + b.len()));
    }
}

/// A sequence stands at the start of a sequence as long as itself only when
/// the two are equal.
pub proof fn lemma_stands_whole(a: Seq<u8>, s: Seq<u8>)
    ensures
        (stands_at(a, s, 0) && a.len() == s.len()) <==> a == s,
{
    if a == s {
        assert(s.subrange(0, s.len() as int) =~= s);
    }
    if stands_at(a, s, 0) && a.len() == s.len() {
        assert(s.subrange(0, s.len() as int) =~= s);
    }
}

/// Model of a sequencer commitment.
pub struct CommitmentModel {
    pub merkle_root: Seq<u8>,
    pub l1_start_block_hash: Seq<u8>,
    pub l1_end_block_hash: Seq<u8>,
}

impl CommitmentModel {
    pub open spec fn wf(self) -> bool {
        &&& self.merkle_root.len() == HASH_LEN
        &&& self.l1_start_block_hash.len() == HASH_LEN
        &&& self.l1_end_block_hash.len() == HASH_LEN
    }

    /// The three hashes, one after the other, with no length in front.
    pub open spec fn enc(self) -> Seq<u8> {
        self.merkle_root + self.l1_start_block_hash + self.l1_end_block_hash
    }
}

/// A record by which the sequencer binds a range of L1 blocks to a Merkle
/// root over the soft batches that it covers.
#[derive(Clone, Debug)]
pub struct SequencerCommitment {
    pub merkle_root: Vec<u8>,
    pub l1_start_block_hash: Vec<u8>,
    pub l1_end_block_hash: Vec<u8>,
}

impl View for SequencerCommitment {
    type V = CommitmentModel;

    open spec fn view(&self) -> CommitmentModel {
        CommitmentModel {
            merkle_root: self.merkle_root@,
            l1_start_block_hash: self.l1_start_block_hash@,
            l1_end_block_hash: self.l1_end_block_hash@,
        }
    }
}

/// Model of a proof.
pub enum ProofModel {
    PublicInput(Seq<u8>),
    Full(Seq<u8>),
}

impl ProofModel {
    pub open spec fn payload(self) -> Seq<u8> {
        match self {
            ProofModel::PublicInput(b) => b,
            ProofModel::Full(b) => b,
        }
    }

    pub open spec fn wf(self) -> bool {
        self.payload().len() <= MAX_LEN
    }

    pub open spec fn tag(self) -> u8 {
        match self {
            ProofModel::PublicInput(_) => 0,
            ProofModel::Full(_) => 1,
        }
    }

    /// The discriminant byte, then the payload with its length in front.
    pub open spec fn enc(self) -> Seq<u8> {
        seq![self.tag()] + enc_bytes(self.payload())
    }
}

/// A proof as the prover posts it: only the public input, or the full proof.
#[derive(Clone, Debug)]
pub enum Proof {
    PublicInput(Vec<u8>),
    Full(Vec<u8>),
}

impl View for Proof {
    type V = ProofModel;

    open spec fn view(&self) -> ProofModel {
        match self {
            Proof::PublicInput(b) => ProofModel::PublicInput(b@),
            Proof::Full(b) => ProofModel::Full(b@),
        }
    }
}

/// Model of a message on the DA layer.
pub enum DaDataModel {
    SequencerCommitment(CommitmentModel),
    ZKProof(ProofModel),
}

impl DaDataModel {
    pub open spec fn wf(self) -> bool {
        match self {
            DaDataModel::SequencerCommitment(c) => c.wf(),
            DaDataModel::ZKProof(p) => p.wf(),
        }
    }

    /// The discriminant byte, then the variant's own encoding.
    pub open spec fn enc(self) -> Seq<u8> {
        match self {
            DaDataModel::SequencerCommitment(c) => seq![0u8] + c.enc(),
            DaDataModel::ZKProof(p) => seq![1u8] + p.enc(),
        }
    }
}

/// The message that `s` encodes, if any.
pub open spec fn decoded(s: Seq<u8>) -> Option<DaDataModel> {
    if exists|x: DaDataModel| x.wf() && x.enc() == s {
        Some(choose|x: DaDataModel| x.wf() && x.enc() == s)
    } else {
        None
    }
}

/// A message on the DA layer.
#[derive(Clone, Debug)]
pub enum DaData {
    SequencerCommitment(SequencerCommitment),
    ZKProof(Proof),
}

impl View for DaData {
    type V = DaDataModel;

    open spec fn view(&self) -> DaDataModel {
        match self {
            DaData::SequencerCommitment(c) => DaDataModel::SequencerCommitment(c@),
            DaData::ZKProof(p) => DaDataModel::ZKProof(p@),
        }
    }
}

/// Appends `b`, which holds exactly one hash, with no length in front.
pub(crate) fn write_raw(out: &mut Vec<u8>, b: &Vec<u8>)
    ensures
        final(out)@ == old(out)@ + b@,
{
    let mut i: usize = 0;
    while i < b.len()
        invariant
            i <= b@.len(),
            out@ == old(out)@ + b@.subrange(0, i as int),
        decreases b@.len() - i,
    {
        out.push(b[i]);
        i += 1;
        assert(out@ =~= old(out)@ + b@.subrange(0, i as int));
    }
    assert(b@.subrange(0, b@.len() as int) =~= b@);
}

/// Reads one hash at `pos`.
pub(crate) fn read_hash(s: &Vec<u8>, pos: usize) -> (r: Option<(Vec<u8>, usize)>)
    ensures
        r matches Some((b, p)) ==> b@.len() == HASH_LEN && p == pos + HASH_LEN && stands_at(
            b@,
            s@,
            pos as int,
        ),
        r is None ==> forall|b: Seq<u8>| b.len() == HASH_LEN ==> !stands_at(b, s@, pos as int),
{
    let len = s.len();
    if pos > len || len - pos < HASH_LEN {
        return None;
    }
    let mut out: Vec<u8> = Vec::new();
    let mut i: usize = 0;
    while i < HASH_LEN
        invariant
            pos + HASH_LEN <= s@.len(),
            len == s@.len(),
            i <= HASH_LEN,
            out@ == s@.subrange(pos as int, pos + i),
        decreases HASH_LEN - i,
    {
        out.push(s[pos + i]);
        i += 1;
        assert(out@ =~= s@.subrange(pos as int, pos + i));
    }
    Some((out, pos + HASH_LEN))
}

/// Two commitments whose encodings stand at one position are equal.
pub proof fn lemma_commitment_unique(a: CommitmentModel, b: CommitmentModel, s: Seq<u8>, pos: int)
    requires
        a.wf(),
        b.wf(),
        stands_at(a.enc(), s, pos),
        stands_at(b.enc(), s, pos),
    ensures
        a == b,
{
    lemma_stands_concat(a.merkle_root + a.l1_start_block_hash, a.l1_end_block_hash, s, pos);
    lemma_stands_concat(a.merkle_root, a.l1_start_block_hash, s, pos);
    lemma_stands_concat(b.merkle_root + b.l1_start_block_hash, b.l1_end_block_hash, s, pos);
    lemma_stands_concat(b.merkle_root, b.l1_start_block_hash, s, pos);
}

/// Two proofs whose encodings stand at one position are equal.
pub proof fn lemma_proof_unique(a: ProofModel, b: ProofModel, s: Seq<u8>, pos: int)
    requires
        a.wf(),
        b.wf(),
        stands_at(a.enc(), s, pos),
        stands_at(b.enc(), s, pos),
    ensures
        a == b,
{
    lemma_stands_concat(seq![a.tag()], enc_bytes(a.payload()), s, pos);
    lemma_stands_concat(seq![b.tag()], enc_bytes(b.payload()), s, pos);
    assert(s.subrange(pos, pos + 1)[0] == a.tag());
    assert(s.subrange(pos, pos + 1)[0] == b.tag());
    crate::codec::lemma_enc_bytes_unique(a.payload(), b.payload(), s, pos + 1);
}

/// Two DA messages whose encodings stand at one position are equal.
pub proof fn lemma_da_data_unique(a: DaDataModel, b: DaDataModel, s: Seq<u8>, pos: int)
    requires
        a.wf(),
        b.wf(),
        stands_at(a.enc(), s, pos),
        stands_at(b.enc(), s, pos),
    ensures
        a == b,
{
    assert(a.enc()[0] == s[pos]);
    assert(b.enc()[0] == s[pos]);
    match a {
        DaDataModel::SequencerCommitment(ca) => {
            let cb = b->SequencerCommitment_0;
            lemma_stands_concat(seq![0u8], ca.enc(), s, pos);
            lemma_stands_concat(seq![0u8], cb.enc(), s, pos);
            lemma_commitment_unique(ca, cb, s, pos + 1);
        },
        DaDataModel::ZKProof(pa) => {
            let pb = b->ZKProof_0;
            lemma_stands_concat(seq![1u8], pa.enc(), s, pos);
            lemma_stands_concat(seq![1u8], pb.enc(), s, pos);
            lemma_proof_unique(pa, pb, s, pos + 1);
        },
    }
}

impl SequencerCommitment {
    /// Appends the encoding of this commitment.
    pub fn write(&self, out: &mut Vec<u8>)
        ensures
            final(out)@ == old(out)@ + self@.enc(),
    {
        write_raw(out, &self.merkle_root);
        write_raw(out, &self.l1_start_block_hash);
        write_raw(out, &self.l1_end_block_hash);
        assert(out@ =~= old(out)@ + self@.enc());
    }

    /// Reads a commitment at `pos`.
    pub fn read(s: &Vec<u8>, pos: usize) -> (r: Option<(SequencerCommitment, usize)>)
        ensures
            r matches Some((c, p)) ==> c@.wf() && p == pos + c@.enc().len() && stands_at(
                c@.enc(),
                s@,
                pos as int,
            ),
            r is None ==> forall|c: CommitmentModel| c.wf() ==> !stands_at(c.enc(), s@, pos as int),
    {
        let (merkle_root, p1) = match read_hash(s, pos) {
            Some(x) => x,
            None => {
                assert forall|c: CommitmentModel| c.wf() implies !stands_at(c.enc(), s@, pos as int) by {
                    lemma_stands_concat(c.merkle_root + c.l1_start_block_hash, c.l1_end_block_hash, s@, pos as int);
                    lemma_stands_concat(c.merkle_root, c.l1_start_block_hash, s@, pos as int);
                }
                return None;
            },
        };
        let (l1_start_block_hash, p2) = match read_hash(s, p1) {
            Some(x) => x,
            None => {
                assert forall|c: CommitmentModel| c.wf() implies !stands_at(c.enc(), s@, pos as int) by {
                    lemma_stands_concat(c.merkle_root + c.l1_start_block_hash, c.l1_end_block_hash, s@, pos as int);
                    lemma_stands_concat(c.merkle_root, c.l1_start_block_hash, s@, pos as int);
                }
                return None;
            },
        };
        let (l1_end_block_hash, p3) = match read_hash(s, p2) {
            Some(x) => x,
            None => {
                assert forall|c: CommitmentModel| c.wf() implies !stands_at(c.enc(), s@, pos as int) by {
                    lemma_stands_concat(c.merkle_root + c.l1_start_block_hash, c.l1_end_block_hash, s@, pos as int);
                    lemma_stands_concat(c.merkle_root, c.l1_start_block_hash, s@, pos as int);
                }
                return None;
            },
        };
        let c = SequencerCommitment { merkle_root, l1_start_block_hash, l1_end_block_hash };
        proof {
            lemma_stands_concat(c@.merkle_root, c@.l1_start_block_hash, s@, pos as int);
            lemma_stands_concat(c@.merkle_root + c@.l1_start_block_hash, c@.l1_end_block_hash, s@, pos as int);
        }
        Some((c, p3))
    }
}

impl Proof {
    /// Appends the encoding of this proof.
    pub fn write(&self, out: &mut Vec<u8>)
        requires
            self@.wf(),
        ensures
            final(out)@ == old(out)@ + self@.enc(),
    {
        match self {
            Proof::PublicInput(b) => {
                out.push(0u8);
                write_bytes(out, b);
            },
            Proof::Full(b) => {
                out.push(1u8);
                write_bytes(out, b);
            },
        }
        assert(out@ =~= old(out)@ + self@.enc());
    }

    /// Reads a proof at `pos`.
    pub fn read(s: &Vec<u8>, pos: usize) -> (r: Option<(Proof, usize)>)
        ensures
            r matches Some((x, p)) ==> x@.wf() && p == pos + x@.enc().len() && stands_at(
                x@.enc(),
                s@,
                pos as int,
            ),
            r is None ==> forall|x: ProofModel| x.wf() ==> !stands_at(x.enc(), s@, pos as int),
    {
        if pos >= s.len() {
            return None;
        }
        let tag = s[pos];
        if tag > 1 {
            assert forall|x: ProofModel| x.wf() implies !stands_at(x.enc(), s@, pos as int) by {
                if stands_at(x.enc(), s@, pos as int) {
                    assert(s@[pos as int] == s@.subrange(pos as int, pos + x.enc().len())[0]);
                }
            }
            return None;
        }
        match read_bytes(s, pos + 1) {
            Some((b, p)) => {
                let x = if tag == 0 { Proof::PublicInput(b) } else { Proof::Full(b) };
                proof {
                    lemma_stands_concat(seq![x@.tag()], enc_bytes(x@.payload()), s@, pos as int);
                    assert(s@.subrange(pos as int, pos + 1) =~= seq![x@.tag()]);
                }
                Some((x, p))
            },
            None => {
                assert forall|x: ProofModel| x.wf() implies !stands_at(x.enc(), s@, pos as int) by {
                    lemma_stands_concat(seq![x.tag()], enc_bytes(x.payload()), s@, pos as int);
                }
                None
            },
        }
    }
}

impl DaData {
    /// Appends the encoding of this message.
    pub fn write(&self, out: &mut Vec<u8>)
        requires
            self@.wf(),
        ensures
            final(out)@ == old(out)@ + self@.enc(),
    {
        match self {
            DaData::SequencerCommitment(c) => {
                out.push(0u8);
                c.write(out);
            },
            DaData::ZKProof(p) => {
                out.push(1u8);
                p.write(out);
            },
        }
        assert(out@ =~= old(out)@ + self@.enc());
    }

    /// Reads a message at `pos`.
    pub fn read(s: &Vec<u8>, pos: usize) -> (r: Option<(DaData, usize)>)
        ensures
            r matches Some((x, p)) ==> x@.wf() && p == pos + x@.enc().len() && stands_at(
                x@.enc(),
                s@,
                pos as int,
            ),
            r is None ==> forall|x: DaDataModel| x.wf() ==> !stands_at(x.enc(), s@, pos as int),
    {
        if pos >= s.len() {
            return None;
        }
        let tag = s[pos];
        if tag == 0 {
            match SequencerCommitment::read(s, pos + 1) {
                Some((c, p)) => {
                    let x = DaData::SequencerCommitment(c);
                    proof {
                        lemma_stands_concat(seq![0u8], c@.enc(), s@, pos as int);
                        assert(s@.subrange(pos as int, pos + 1) =~= seq![0u8]);
                    }
                    Some((x, p))
                },
                None => {
                    assert forall|x: DaDataModel| x.wf() implies !stands_at(x.enc(), s@, pos as int) by {
                        if stands_at(x.enc(), s@, pos as int) {
                            assert(s@[pos as int] == s@.subrange(pos as int, pos + x.enc().len())[0]);
                            lemma_stands_concat(seq![0u8], x->SequencerCommitment_0.enc(), s@, pos as int);
                        }
                    }
                    None
                },
            }
        } else if tag == 1 {
            match Proof::read(s, pos + 1) {
                Some((pr, p)) => {
                    let x = DaData::ZKProof(pr);
                    proof {
                        lemma_stands_concat(seq![1u8], pr@.enc(), s@, pos as int);
                        assert(s@.subrange(pos as int, pos + 1) =~= seq![1u8]);
                    }
                    Some((x, p))
                },
                None => {
                    assert forall|x: DaDataModel| x.wf() implies !stands_at(x.enc(), s@, pos as int) by {
                        if stands_at(x.enc(), s@, pos as int) {
                            assert(s@[pos as int] == s@.subrange(pos as int, pos + x.enc().len())[0]);
                            lemma_stands_concat(seq![1u8], x->ZKProof_0.enc(), s@, pos as int);
                        }
                    }
                    None
                },
            }
        } else {
            assert forall|x: DaDataModel| x.wf() implies !stands_at(x.enc(), s@, pos as int) by {
                if stands_at(x.enc(), s@, pos as int) {
                    assert(s@[pos as int] == s@.subrange(pos as int, pos + x.enc().len())[0]);
                }
            }
            None
        }
    }

    /// The encoding of this message.
    pub fn to_bytes(&self) -> (r: Vec<u8>)
        requires
            self@.wf(),
        ensures
            r@ == self@.enc(),
    {
        let mut out: Vec<u8> = Vec::new();
        self.write(&mut out);
        assert(out@ =~= self@.enc());
        out
    }

    /// The message that `s` encodes, with no byte left over; `None` where
    /// `s` is the encoding of no message.
    pub fn from_bytes(s: &Vec<u8>) -> (r: Option<DaData>)
        ensures
            r matches Some(x) ==> x@.wf() && x@.enc() == s@,
            r is None <==> forall|x: DaDataModel| x.wf() ==> x.enc() != s@,
            r is Some ==> decoded(s@) == Some(r->0@),
            r is None ==> decoded(s@) is None,
    {
        match DaData::read(s, 0) {
            Some((x, p)) => {
                if p == s.len() {
                    proof {
                        lemma_stands_whole(x@.enc(), s@);
                        lemma_da_data_round_trip(x@);
                    }
                    Some(x)
                } else {
                    assert forall|y: DaDataModel| y.wf() implies y.enc() != s@ by {
                        if y.enc() == s@ {
                            lemma_stands_whole(y.enc(), s@);
                            lemma_da_data_unique(x@, y, s@, 0);
                        }
                    }
                    None
                }
            },
            None => {
                assert forall|y: DaDataModel| y.wf() implies y.enc() != s@ by {
                    lemma_stands_whole(y.enc(), s@);
                }
                None
            },
        }
    }
}

/// Decoding the encoding of a message gives that message back.
pub proof fn lemma_da_data_round_trip(d: DaDataModel)
    requires
        d.wf(),
    ensures
        forall|x: DaDataModel| x.wf() && x.enc() == d.enc() ==> x == d,
{
    assert forall|x: DaDataModel| x.wf() && x.enc() == d.enc() implies x == d by {
        lemma_stands_whole(d.enc(), d.enc());
        lemma_da_data_unique(x, d, d.enc(), 0);
    }
}

} // verus!
