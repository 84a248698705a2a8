//! The record of a proved state transition that goes to the ledger, and its
//! encoding.
use vstd::prelude::*;

use crate::codec::{enc_bytes, le_u32, read_bytes, read_u32, stands_at, write_bytes, write_u32, MAX_LEN};
use crate::da::{lemma_stands_concat, lemma_stands_whole, read_hash, write_raw, HASH_LEN};

verus! {

/// Model of one entry of a state diff.
pub struct EntryModel {
    pub key: Seq<u8>,
    pub value: Option<Seq<u8>>,
}

impl EntryModel {
    pub open spec fn wf(self) -> bool {
        &&& self.key.len() <= MAX_LEN
        &&& self.value matches Some(v) ==> v.len() <= MAX_LEN
    }

    /// The key, then a byte that says whether a value follows, then the value.
    pub open spec fn enc(self) -> Seq<u8> {
        enc_bytes(self.key) + match self.value {
            None => seq![0u8],
            Some(v) => seq![1u8] + enc_bytes(v),
        }
    }
}

/// One entry of a state diff: a key and its new value, or none where the key
/// was deleted.
#[derive(Clone, Debug)]
pub struct StateDiffEntry {
    pub key: Vec<u8>,
    pub value: Option<Vec<u8>>,
}

impl View for StateDiffEntry {
    type V = EntryModel;

    open spec fn view(&self) -> EntryModel {
        EntryModel {
            key: self.key@,
            value: match self.value {
                None => None,
                Some(v) => Some(v@),
            },
        }
    }
}

/// The entries' encodings, one after the other.
pub open spec fn enc_entries(es: Seq<EntryModel>) -> Seq<u8>
    decreases es.len(),
{
    if es.len() == 0 {
        seq![]
    } else {
        es[0].enc() + enc_entries(es.subrange(1, es.len() as int))
    }
}

pub open spec fn entries_wf(es: Seq<EntryModel>) -> bool {
    forall|i: int| 0 <= i < es.len() ==> #[trigger] es[i].wf()
}

pub proof fn lemma_enc_entries_append(a: Seq<EntryModel>, b: Seq<EntryModel>)
    ensures
        enc_entries(a + b) == enc_entries(a) + enc_entries(b),
    decreases a.len(),
{
    if a.len() == 0 {
        assert(a + b =~= b);
        assert(enc_entries(a) + enc_entries(b) =~= enc_entries(b));
    } else {
        let rest = a.subrange(1, a.len() as int);
        lemma_enc_entries_append(rest, b);
        assert((a + b).subrange(1, (a + b).len() as int) =~= rest + b);
        assert((a + b)[0] == a[0]);
        assert(enc_entries(a + b) =~= a[0].enc() + (enc_entries(rest) + enc_entries(b)));
    }
}

proof fn lemma_enc_entries_one(e: EntryModel)
    ensures
        enc_entries(seq![e]) == e.enc(),
{
    assert(seq![e].subrange(1, 1) =~= Seq::<EntryModel>::empty());
    assert(enc_entries(Seq::<EntryModel>::empty()) == Seq::<u8>::empty());
    assert(enc_entries(seq![e]) =~= e.enc());
}

/// Two entries whose encodings stand at one position are equal.
pub proof fn lemma_entry_unique(a: EntryModel, b: EntryModel, s: Seq<u8>, pos: int)
    requires
        a.wf(),
        b.wf(),
        stands_at(a.enc(), s, pos),
        stands_at(b.enc(), s, pos),
    ensures
        a == b,
{
    let ta = a.enc().subrange(enc_bytes(a.key).len() as int, a.enc().len() as int);
    let tb = b.enc().subrange(enc_bytes(b.key).len() as int, b.enc().len() as int);
    assert(a.enc() =~= enc_bytes(a.key) + ta);
    assert(b.enc() =~= enc_bytes(b.key) + tb);
    lemma_stands_concat(enc_bytes(a.key), ta, s, pos);
    lemma_stands_concat(enc_bytes(b.key), tb, s, pos);
    crate::codec::lemma_enc_bytes_unique(a.key, b.key, s, pos);
    let p = pos + enc_bytes(a.key).len();
    assert(ta[0] == s[p]);
    assert(tb[0] == s[p]);
    if a.value is Some {
        let va = a.value->0;
        let vb = b.value->0;
        assert(ta =~= seq![1u8] + enc_bytes(va));
        assert(tb =~= seq![1u8] + enc_bytes(vb));
        lemma_stands_concat(seq![1u8], enc_bytes(va), s, p);
        lemma_stands_concat(seq![1u8], enc_bytes(vb), s, p);
        crate::codec::lemma_enc_bytes_unique(va, vb, s, p + 1);
    }
}

/// Two lists of entries of one length whose encodings stand at one position
/// are equal.
pub proof fn lemma_entries_unique(a: Seq<EntryModel>, b: Seq<EntryModel>, s: Seq<u8>, pos: int)
    requires
        a.len() == b.len(),
        entries_wf(a),
        entries_wf(b),
        stands_at(enc_entries(a), s, pos),
        stands_at(enc_entries(b), s, pos),
    ensures
        a == b,
    decreases a.len(),
{
    if a.len() > 0 {
        let ra = a.subrange(1, a.len() as int);
        let rb = b.subrange(1, b.len() as int);
        lemma_stands_concat(a[0].enc(), enc_entries(ra), s, pos);
        lemma_stands_concat(b[0].enc(), enc_entries(rb), s, pos);
        assert(a[0].wf() && b[0].wf());
        lemma_entry_unique(a[0], b[0], s, pos);
        assert forall|i: int| 0 <= i < ra.len() implies #[trigger] ra[i].wf() by {
            assert(ra[i] == a[i + 1]);
        }
        assert forall|i: int| 0 <= i < rb.len() implies #[trigger] rb[i].wf() by {
            assert(rb[i] == b[i + 1]);
        }
        lemma_entries_unique(ra, rb, s, pos + a[0].enc().len());
        assert(a =~= seq![a[0]] + ra);
        assert(b =~= seq![b[0]] + rb);
    } else {
        assert(a =~= b);
    }
}

impl StateDiffEntry {
    /// Appends the encoding of this entry.
    pub fn write(&self, out: &mut Vec<u8>)
        requires
            self@.wf(),
        ensures
            final(out)@ == old(out)@ + self@.enc(),
    {
        write_bytes(out, &self.key);
        match &self.value {
            None => {
                out.push(0u8);
            },
            Some(v) => {
                out.push(1u8);
                write_bytes(out, v);
            },
        }
        assert(out@ =~= old(out)@ + self@.enc());
    }

    /// Reads an entry at `pos`.
    pub fn read(s: &Vec<u8>, pos: usize) -> (r: Option<(StateDiffEntry, usize)>)
        ensures
            r matches Some((x, p)) ==> x@.wf() && p == pos + x@.enc().len() && stands_at(
                x@.enc(),
                s@,
                pos as int,
            ),
            r is None ==> forall|x: EntryModel| x.wf() ==> !stands_at(x.enc(), s@, pos as int),
    {
        let (key, p1) = match read_bytes(s, pos) {
            Some(x) => x,
            None => {
                assert forall|x: EntryModel| x.wf() implies !stands_at(x.enc(), s@, pos as int) by {
                    let t = x.enc().subrange(enc_bytes(x.key).len() as int, x.enc().len() as int);
                    assert(x.enc() =~= enc_bytes(x.key) + t);
                    lemma_stands_concat(enc_bytes(x.key), t, s@, pos as int);
                }
                return None;
            },
        };
        let ghost k = key@;
        assert forall|x: EntryModel| x.wf() && stands_at(x.enc(), s@, pos as int) implies x.key == k
            && stands_at(x.enc().subrange(enc_bytes(k).len() as int, x.enc().len() as int), s@, p1 as int) by {
            let t = x.enc().subrange(enc_bytes(x.key).len() as int, x.enc().len() as int);
            assert(x.enc() =~= enc_bytes(x.key) + t);
            lemma_stands_concat(enc_bytes(x.key), t, s@, pos as int);
            crate::codec::lemma_enc_bytes_unique(x.key, k, s@, pos as int);
        }
        if p1 >= s.len() {
            return None;
        }
        let tag = s[p1];
        if tag == 0 {
            let x = StateDiffEntry { key, value: None };
            proof {
                assert(s@.subrange(p1 as int, p1 + 1) =~= seq![0u8]);
                lemma_stands_concat(enc_bytes(k), seq![0u8], s@, pos as int);
            }
            Some((x, p1 + 1))
        } else if tag == 1 {
            match read_bytes(s, p1 + 1) {
                Some((v, p2)) => {
                    let x = StateDiffEntry { key, value: Some(v) };
                    proof {
                        assert(s@.subrange(p1 as int, p1 + 1) =~= seq![1u8]);
                        lemma_stands_concat(seq![1u8], enc_bytes(v@), s@, p1 as int);
                        lemma_stands_concat(enc_bytes(k), seq![1u8] + enc_bytes(v@), s@, pos as int);
                    }
                    Some((x, p2))
                },
                None => {
                    assert forall|x: EntryModel| x.wf() implies !stands_at(x.enc(), s@, pos as int) by {
                        if stands_at(x.enc(), s@, pos as int) {
                            let t = x.enc().subrange(enc_bytes(k).len() as int, x.enc().len() as int);
                            assert(t[0] == s@[p1 as int]);
                            if x.value is Some {
                                assert(t =~= seq![1u8] + enc_bytes(x.value->0));
                                lemma_stands_concat(seq![1u8], enc_bytes(x.value->0), s@, p1 as int);
                            }
                        }
                    }
                    None
                },
            }
        } else {
            assert forall|x: EntryModel| x.wf() implies !stands_at(x.enc(), s@, pos as int) by {
                if stands_at(x.enc(), s@, pos as int) {
                    let t = x.enc().subrange(enc_bytes(k).len() as int, x.enc().len() as int);
                    assert(t[0] == s@[p1 as int]);
                }
            }
            None
        }
    }
}

/// The views of a list of entries.
pub open spec fn diff_view(d: Seq<StateDiffEntry>) -> Seq<EntryModel> {
    d.map_values(|e: StateDiffEntry| e@)
}

pub open spec fn diff_wf(es: Seq<EntryModel>) -> bool {
    es.len() <= MAX_LEN && entries_wf(es)
}

/// A state diff: the number of entries, then the entries.
pub open spec fn enc_diff(es: Seq<EntryModel>) -> Seq<u8> {
    le_u32(es.len() as u32) + enc_entries(es)
}

/// Appends the encoding of a state diff.
pub fn write_diff(out: &mut Vec<u8>, d: &Vec<StateDiffEntry>)
    requires
        diff_wf(diff_view(d@)),
    ensures
        final(out)@ == old(out)@ + enc_diff(diff_view(d@)),
{
    write_u32(out, d.len() as u32);
    let ghost mid = out@;
    let ghost dv = diff_view(d@);
    let mut i: usize = 0;
    while i < d.len()
        invariant
            i <= d@.len(),
            dv == diff_view(d@),
            diff_wf(dv),
            mid == old(out)@ + le_u32(d@.len() as u32),
            out@ == mid + enc_entries(dv.subrange(0, i as int)),
        decreases d@.len() - i,
    {
        assert(dv[i as int] == d@[i as int]@);
        assert(dv[i as int].wf());
        d[i].write(out);
        proof {
            lemma_enc_entries_append(dv.subrange(0, i as int), seq![dv[i as int]]);
            lemma_enc_entries_one(dv[i as int]);
            assert(dv.subrange(0, i + 1) =~= dv.subrange(0, i as int) + seq![dv[i as int]]);
        }
        i += 1;
    }
    assert(dv.subrange(0, i as int) =~= dv);
    assert(out@ =~= old(out)@ + enc_diff(dv));
}

/// Reads a state diff at `pos`.
pub fn read_diff(s: &Vec<u8>, pos: usize) -> (r: Option<(Vec<StateDiffEntry>, usize)>)
    ensures
        r matches Some((d, p)) ==> diff_wf(diff_view(d@)) && p == pos + enc_diff(diff_view(d@)).len()
            && stands_at(enc_diff(diff_view(d@)), s@, pos as int),
        r is None ==> forall|es: Seq<EntryModel>| diff_wf(es) ==> !stands_at(enc_diff(es), s@, pos as int),
{
    let len = s.len();
    let n = match read_u32(s, pos) {
        Some(n) => n,
        None => {
            assert forall|es: Seq<EntryModel>| diff_wf(es) implies !stands_at(enc_diff(es), s@, pos as int) by {
                lemma_stands_concat(le_u32(es.len() as u32), enc_entries(es), s@, pos as int);
            }
            return None;
        },
    };
    let start = pos + 4;
    assert forall|es: Seq<EntryModel>| diff_wf(es) && stands_at(enc_diff(es), s@, pos as int) implies es.len()
        == n && stands_at(enc_entries(es), s@, start as int) by {
        lemma_stands_concat(le_u32(es.len() as u32), enc_entries(es), s@, pos as int);
        assert(s@.subrange(pos as int, pos + 4) == le_u32(es.len() as u32));
        crate::codec::lemma_le_u32_inj(es.len() as u32, n);
    }
    let mut acc: Vec<StateDiffEntry> = Vec::new();
    let mut p: usize = start;
    let mut i: u32 = 0;
    assert(enc_entries(diff_view(acc@)) == Seq::<u8>::empty());
    assert(s@.subrange(start as int, start as int) =~= Seq::<u8>::empty());
    while i < n
        invariant
            start == pos + 4,
            pos + 4 <= s@.len(),
            stands_at(le_u32(n), s@, pos as int),
            acc@.len() == i,
            i <= n,
            entries_wf(diff_view(acc@)),
            p == start + enc_entries(diff_view(acc@)).len(),
            stands_at(enc_entries(diff_view(acc@)), s@, start as int),
            forall|es: Seq<EntryModel>|
                diff_wf(es) && stands_at(enc_diff(es), s@, pos as int) ==> es.len() == n
                    && stands_at(enc_entries(es), s@, start as int),
        decreases n - i,
    {
        let ghost av = diff_view(acc@);
        match StateDiffEntry::read(s, p) {
            Some((e, q)) => {
                proof {
                    lemma_enc_entries_append(av, seq![e@]);
                    lemma_enc_entries_one(e@);
                    lemma_stands_concat(enc_entries(av), e@.enc(), s@, start as int);
                }
                acc.push(e);
                assert(diff_view(acc@) =~= av + seq![e@]);
                p = q;
                i += 1;
            },
            None => {
                assert forall|es: Seq<EntryModel>| diff_wf(es) implies !stands_at(enc_diff(es), s@, pos as int) by {
                    if stands_at(enc_diff(es), s@, pos as int) {
                        let head = es.subrange(0, i as int);
                        let tail = es.subrange(i as int, es.len() as int);
                        assert(es =~= head + tail);
                        lemma_enc_entries_append(head, tail);
                        lemma_stands_concat(enc_entries(head), enc_entries(tail), s@, start as int);
                        assert forall|k: int| 0 <= k < head.len() implies #[trigger] head[k].wf() by {
                            assert(head[k] == es[k]);
                        }
                        lemma_entries_unique(head, av, s@, start as int);
                        assert(es.len() == n);
                        let rest = tail.subrange(1, tail.len() as int);
                        assert(tail.len() > 0);
                        assert(enc_entries(tail) == tail[0].enc() + enc_entries(rest));
                        assert(head == av);
                        assert(start + enc_entries(head).len() == p);
                        lemma_stands_concat(tail[0].enc(), enc_entries(rest), s@, p as int);
                        assert(tail[0] == es[i as int]);
                        assert(tail[0].wf());
                    }
                }
                return None;
            },
        }
    }
    proof {
        lemma_stands_concat(le_u32(n), enc_entries(diff_view(acc@)), s@, pos as int);
    }
    Some((acc, p))
}

/// Model of a stored state transition.
pub struct TransitionModel {
    pub initial_state_root: Seq<u8>,
    pub final_state_root: Seq<u8>,
    pub state_diff: Seq<EntryModel>,
    pub da_slot_hash: Seq<u8>,
    pub sequencer_public_key: Seq<u8>,
    pub sequencer_da_public_key: Seq<u8>,
    pub validity_condition: Seq<u8>,
}

impl TransitionModel {
    pub open spec fn wf(self) -> bool {
        &&& self.initial_state_root.len() <= MAX_LEN
        &&& self.final_state_root.len() <= MAX_LEN
        &&& diff_wf(self.state_diff)
        &&& self.da_slot_hash.len() == HASH_LEN
        &&& self.sequencer_public_key.len() <= MAX_LEN
        &&& self.sequencer_da_public_key.len() <= MAX_LEN
        &&& self.validity_condition.len() <= MAX_LEN
    }

    /// The fields in order; the hash with no length in front.
    pub open spec fn enc(self) -> Seq<u8> {
        enc_bytes(self.initial_state_root) + enc_bytes(self.final_state_root) + enc_diff(self.state_diff)
            + self.da_slot_hash + enc_bytes(self.sequencer_public_key) + enc_bytes(
            self.sequencer_da_public_key,
        ) + enc_bytes(self.validity_condition)
    }
}

/// The record of a proved state transition that the ledger keeps.
#[derive(Clone, Debug)]
pub struct StoredStateTransition {
    pub initial_state_root: Vec<u8>,
    pub final_state_root: Vec<u8>,
    pub state_diff: Vec<StateDiffEntry>,
    pub da_slot_hash: Vec<u8>,
    pub sequencer_public_key: Vec<u8>,
    pub sequencer_da_public_key: Vec<u8>,
    pub validity_condition: Vec<u8>,
}

impl View for StoredStateTransition {
    type V = TransitionModel;

    open spec fn view(&self) -> TransitionModel {
        TransitionModel {
            initial_state_root: self.initial_state_root@,
            final_state_root: self.final_state_root@,
            state_diff: diff_view(self.state_diff@),
            da_slot_hash: self.da_slot_hash@,
            sequencer_public_key: self.sequencer_public_key@,
            sequencer_da_public_key: self.sequencer_da_public_key@,
            validity_condition: self.validity_condition@,
        }
    }
}

/// The encoding of `m` stands at `pos` exactly when each field's encoding
/// stands right after the one before.
proof fn lemma_transition_pieces(m: TransitionModel, s: Seq<u8>, pos: int)
    ensures
        stands_at(m.enc(), s, pos) <==> {
            let o1 = pos + enc_bytes(m.initial_state_root).len();
            let o2 = o1 + enc_bytes(m.final_state_root).len();
            let o3 = o2 + enc_diff(m.state_diff).len();
            let o4 = o3 + m.da_slot_hash.len();
            let o5 = o4 + enc_bytes(m.sequencer_public_key).len();
            let o6 = o5 + enc_bytes(m.sequencer_da_public_key).len();
            &&& stands_at(enc_bytes(m.initial_state_root), s, pos)
            &&& stands_at(enc_bytes(m.final_state_root), s, o1)
            &&& stands_at(enc_diff(m.state_diff), s, o2)
            &&& stands_at(m.da_slot_hash, s, o3)
            &&& stands_at(enc_bytes(m.sequencer_public_key), s, o4)
            &&& stands_at(enc_bytes(m.sequencer_da_public_key), s, o5)
            &&& stands_at(enc_bytes(m.validity_condition), s, o6)
        },
{
    let a = enc_bytes(m.initial_state_root);
    let b = enc_bytes(m.final_state_root);
    let c = enc_diff(m.state_diff);
    let d = m.da_slot_hash;
    let e = enc_bytes(m.sequencer_public_key);
    let f = enc_bytes(m.sequencer_da_public_key);
    let g = enc_bytes(m.validity_condition);
    lemma_stands_concat(a + b + c + d + e + f, g, s, pos);
    lemma_stands_concat(a + b + c + d + e, f, s, pos);
    lemma_stands_concat(a + b + c + d, e, s, pos);
    lemma_stands_concat(a + b + c, d, s, pos);
    lemma_stands_concat(a + b, c, s, pos);
    lemma_stands_concat(a, b, s, pos);
}

/// Two state diffs whose encodings stand at one position are equal.
pub proof fn lemma_diff_unique(a: Seq<EntryModel>, b: Seq<EntryModel>, s: Seq<u8>, pos: int)
    requires
        diff_wf(a),
        diff_wf(b),
        stands_at(enc_diff(a), s, pos),
        stands_at(enc_diff(b), s, pos),
    ensures
        a == b,
{
    lemma_stands_concat(le_u32(a.len() as u32), enc_entries(a), s, pos);
    lemma_stands_concat(le_u32(b.len() as u32), enc_entries(b), s, pos);
    crate::codec::lemma_le_u32_inj(a.len() as u32, b.len() as u32);
    lemma_entries_unique(a, b, s, pos + 4);
}

/// Two transitions whose encodings stand at one position are equal.
pub proof fn lemma_transition_unique(a: TransitionModel, b: TransitionModel, s: Seq<u8>, pos: int)
    requires
        a.wf(),
        b.wf(),
        stands_at(a.enc(), s, pos),
        stands_at(b.enc(), s, pos),
    ensures
        a == b,
{
    lemma_transition_pieces(a, s, pos);
    lemma_transition_pieces(b, s, pos);
    crate::codec::lemma_enc_bytes_unique(a.initial_state_root, b.initial_state_root, s, pos);
    let o1 = pos + enc_bytes(a.initial_state_root).len();
    crate::codec::lemma_enc_bytes_unique(a.final_state_root, b.final_state_root, s, o1);
    let o2 = o1 + enc_bytes(a.final_state_root).len();
    lemma_diff_unique(a.state_diff, b.state_diff, s, o2);
    let o3 = o2 + enc_diff(a.state_diff).len();
    assert(a.da_slot_hash =~= b.da_slot_hash);
    let o4 = o3 + HASH_LEN;
    crate::codec::lemma_enc_bytes_unique(a.sequencer_public_key, b.sequencer_public_key, s, o4);
    let o5 = o4 + enc_bytes(a.sequencer_public_key).len();
    crate::codec::lemma_enc_bytes_unique(a.sequencer_da_public_key, b.sequencer_da_public_key, s, o5);
    let o6 = o5 + enc_bytes(a.sequencer_da_public_key).len();
    crate::codec::lemma_enc_bytes_unique(a.validity_condition, b.validity_condition, s, o6);
}

/// The encoding determines the transition: a well-formed transition that
/// encodes to the same bytes as `t` is `t`. So decoding the encoding of a
/// transition gives that transition back.
pub proof fn lemma_transition_round_trip(t: TransitionModel)
    requires
        t.wf(),
    ensures
        forall|x: TransitionModel| x.wf() && x.enc() == t.enc() ==> x == t,
{
    assert forall|x: TransitionModel| x.wf() && x.enc() == t.enc() implies x == t by {
        lemma_stands_whole(t.enc(), t.enc());
        lemma_transition_unique(x, t, t.enc(), 0);
    }
}

impl StoredStateTransition {
    /// The encoding of this transition.
    pub fn to_bytes(&self) -> (r: Vec<u8>)
        requires
            self@.wf(),
        ensures
            r@ == self@.enc(),
    {
        let mut out: Vec<u8> = Vec::new();
        write_bytes(&mut out, &self.initial_state_root);
        write_bytes(&mut out, &self.final_state_root);
        write_diff(&mut out, &self.state_diff);
        write_raw(&mut out, &self.da_slot_hash);
        write_bytes(&mut out, &self.sequencer_public_key);
        write_bytes(&mut out, &self.sequencer_da_public_key);
        write_bytes(&mut out, &self.validity_condition);
        assert(out@ =~= self@.enc());
        out
    }

    /// The transition that `s` encodes, with no byte left over; `None`
    /// where `s` is the encoding of no transition.
    pub fn from_bytes(s: &Vec<u8>) -> (r: Option<StoredStateTransition>)
        ensures
            r matches Some(x) ==> x@.wf() && x@.enc() == s@,
            r is None <==> forall|x: TransitionModel| x.wf() ==> x.enc() != s@,
    {
        let ghost sv = s@;
        let (initial_state_root, p1) = match read_bytes(s, 0) {
            Some(x) => x,
            None => {
                assert forall|m: TransitionModel| m.wf() implies m.enc() != sv by {
                    lemma_stands_whole(m.enc(), sv);
                    lemma_transition_pieces(m, sv, 0);
                }
                return None;
            },
        };
        assert forall|m: TransitionModel| m.wf() && stands_at(#[trigger] m.enc(), sv, 0) implies m.initial_state_root
            == initial_state_root@ by {
            lemma_transition_pieces(m, sv, 0);
            crate::codec::lemma_enc_bytes_unique(m.initial_state_root, initial_state_root@, sv, 0);
        }
        let (final_state_root, p2) = match read_bytes(s, p1) {
            Some(x) => x,
            None => {
                assert forall|m: TransitionModel| m.wf() implies m.enc() != sv by {
                    lemma_stands_whole(m.enc(), sv);
                    lemma_transition_pieces(m, sv, 0);
                }
                return None;
            },
        };
        assert forall|m: TransitionModel| m.wf() && stands_at(#[trigger] m.enc(), sv, 0) implies m.final_state_root
            == final_state_root@ by {
            lemma_transition_pieces(m, sv, 0);
            crate::codec::lemma_enc_bytes_unique(m.final_state_root, final_state_root@, sv, p1 as int);
        }
        let (state_diff, p3) = match read_diff(s, p2) {
            Some(x) => x,
            None => {
                assert forall|m: TransitionModel| m.wf() implies m.enc() != sv by {
                    lemma_stands_whole(m.enc(), sv);
                    lemma_transition_pieces(m, sv, 0);
                }
                return None;
            },
        };
        assert forall|m: TransitionModel| m.wf() && stands_at(#[trigger] m.enc(), sv, 0) implies m.state_diff
            == diff_view(state_diff@) by {
            lemma_transition_pieces(m, sv, 0);
            lemma_diff_unique(m.state_diff, diff_view(state_diff@), sv, p2 as int);
        }
        let (da_slot_hash, p4) = match read_hash(s, p3) {
            Some(x) => x,
            None => {
                assert forall|m: TransitionModel| m.wf() implies m.enc() != sv by {
                    lemma_stands_whole(m.enc(), sv);
                    lemma_transition_pieces(m, sv, 0);
                }
                return None;
            },
        };
        assert forall|m: TransitionModel| m.wf() && stands_at(#[trigger] m.enc(), sv, 0) implies m.da_slot_hash
            == da_slot_hash@ by {
            lemma_transition_pieces(m, sv, 0);
        }
        let (sequencer_public_key, p5) = match read_bytes(s, p4) {
            Some(x) => x,
            None => {
                assert forall|m: TransitionModel| m.wf() implies m.enc() != sv by {
                    lemma_stands_whole(m.enc(), sv);
                    lemma_transition_pieces(m, sv, 0);
                }
                return None;
            },
        };
        assert forall|m: TransitionModel| m.wf() && stands_at(#[trigger] m.enc(), sv, 0) implies m.sequencer_public_key
            == sequencer_public_key@ by {
            lemma_transition_pieces(m, sv, 0);
            crate::codec::lemma_enc_bytes_unique(m.sequencer_public_key, sequencer_public_key@, sv, p4 as int);
        }
        let (sequencer_da_public_key, p6) = match read_bytes(s, p5) {
            Some(x) => x,
            None => {
                assert forall|m: TransitionModel| m.wf() implies m.enc() != sv by {
                    lemma_stands_whole(m.enc(), sv);
                    lemma_transition_pieces(m, sv, 0);
                }
                return None;
            },
        };
        assert forall|m: TransitionModel| m.wf() && stands_at(#[trigger] m.enc(), sv, 0) implies m.sequencer_da_public_key
            == sequencer_da_public_key@ by {
            lemma_transition_pieces(m, sv, 0);
            crate::codec::lemma_enc_bytes_unique(m.sequencer_da_public_key, sequencer_da_public_key@, sv, p5 as int);
        }
        let (validity_condition, p7) = match read_bytes(s, p6) {
            Some(x) => x,
            None => {
                assert forall|m: TransitionModel| m.wf() implies m.enc() != sv by {
                    lemma_stands_whole(m.enc(), sv);
                    lemma_transition_pieces(m, sv, 0);
                }
                return None;
            },
        };
        let x = StoredStateTransition {
            initial_state_root,
            final_state_root,
            state_diff,
            da_slot_hash,
            sequencer_public_key,
            sequencer_da_public_key,
            validity_condition,
        };
        proof {
            lemma_transition_pieces(x@, sv, 0);
        }
        if p7 != s.len() {
            assert forall|m: TransitionModel| m.wf() implies m.enc() != sv by {
                if m.enc() == sv {
                    lemma_stands_whole(m.enc(), sv);
                    lemma_transition_unique(m, x@, sv, 0);
                }
            }
            return None;
        }
        proof {
            lemma_stands_whole(x@.enc(), sv);
        }
        Some(x)
    }
}

} // verus!
