//! The persistence layer and the cursor derived from it: an idempotent
//! keyed store of records with last-write-wins semantics. A record is keyed
//! by `(channel_id, ts)`; writing an existing key replaces the record (the
//! expected case during an overlap re-fetch, never an error), and the cursor
//! is the maximum stored timestamp of a channel, derived on demand rather
//! than kept as separate state.

use vstd::prelude::*;
use crate::message::{Record, RecordV};

verus! {

/// The key a record is stored under.
pub open spec fn key_of(r: RecordV) -> (Seq<char>, u64) {
    (r.channel_id, r.ts)
}

/// The map a sequence of records denotes, later entries winning.
pub open spec fn map_of(s: Seq<RecordV>) -> Map<(Seq<char>, u64), RecordV>
    decreases s.len(),
{
    if s.len() == 0 {
        Map::empty()
    } else {
        map_of(s.drop_last()).insert(key_of(s.last()), s.last())
    }
}

/// No two records of `s` share a key.
pub open spec fn unique_keys(s: Seq<RecordV>) -> bool {
    forall|i: int, j: int| 0 <= i < j < s.len() ==> key_of(s[i]) != key_of(s[j])
}

/// A key is in the map exactly when some record carries it.
pub proof fn lemma_map_of_contains(s: Seq<RecordV>, k: (Seq<char>, u64))
    ensures
        map_of(s).contains_key(k) <==> exists|i: int| 0 <= i < s.len() && key_of(s[i]) == k,
    decreases s.len(),
{
    if s.len() > 0 {
        lemma_map_of_contains(s.drop_last(), k);
        if map_of(s).contains_key(k) {
            if k == key_of(s.last()) {
                assert(key_of(s[s.len() - 1]) == k);
            } else {
                let i = choose|i: int| 0 <= i < s.drop_last().len() && key_of(
                    s.drop_last()[i],
                ) == k;
                assert(key_of(s[i]) == k);
            }
        }
        if exists|i: int| 0 <= i < s.len() && key_of(s[i]) == k {
            let i = choose|i: int| 0 <= i < s.len() && key_of(s[i]) == k;
            if i < s.len() - 1 {
                assert(key_of(s.drop_last()[i]) == k);
            }
        }
    }
}

/// Under unique keys, the map returns exactly the record that carries a key.
pub proof fn lemma_map_of_index(s: Seq<RecordV>, i: int)
    requires
        unique_keys(s),
        0 <= i < s.len(),
    ensures
        map_of(s).contains_key(key_of(s[i])),
        map_of(s)[key_of(s[i])] == s[i],
    decreases s.len(),
{
    if i == s.len() - 1 {
        assert(map_of(s)[key_of(s.last())] == s.last());
    } else {
        assert(unique_keys(s.drop_last()));
        lemma_map_of_index(s.drop_last(), i);
        assert(key_of(s[i]) != key_of(s.last()));
        assert(s.drop_last()[i] == s[i]);
    }
}

/// Under unique keys, the map has exactly one entry per record.
pub proof fn lemma_map_of_len(s: Seq<RecordV>)
    requires
        unique_keys(s),
    ensures
        map_of(s).dom().finite(),
        map_of(s).dom().len() == s.len(),
    decreases s.len(),
{
    if s.len() > 0 {
        assert(unique_keys(s.drop_last()));
        lemma_map_of_len(s.drop_last());
        lemma_map_of_contains(s.drop_last(), key_of(s.last()));
        assert(!map_of(s.drop_last()).contains_key(key_of(s.last())));
        assert(map_of(s).dom() =~= map_of(s.drop_last()).dom().insert(key_of(s.last())));
        vstd::set::axiom_set_insert_len(map_of(s.drop_last()).dom(), key_of(s.last()));
    }
}

/// Replacing the record that holds a key is inserting into the map.
pub proof fn lemma_map_of_update(s: Seq<RecordV>, i: int, r: RecordV)
    requires
        unique_keys(s),
        0 <= i < s.len(),
        key_of(s[i]) == key_of(r),
    ensures
        map_of(s.update(i, r)) == map_of(s).insert(key_of(r), r),
        unique_keys(s.update(i, r)),
    decreases s.len(),
{
    let t = s.update(i, r);
    assert forall|p: int, q: int| 0 <= p < q < t.len() implies key_of(t[p]) != key_of(t[q]) by {
        if p != i && q != i {
            assert(t[p] == s[p] && t[q] == s[q]);
        } else if p == i {
            assert(t[q] == s[q] && key_of(s[i]) != key_of(s[q]));
        } else {
            assert(t[p] == s[p] && key_of(s[p]) != key_of(s[i]));
        }
    }
    if i == s.len() - 1 {
        assert(t.drop_last() =~= s.drop_last());
        assert(t.last() == r);
        assert(key_of(s.last()) == key_of(r));
    } else {
        assert(t.drop_last() =~= s.drop_last().update(i, r));
        assert(unique_keys(s.drop_last()));
        assert(s.drop_last()[i] == s[i]);
        lemma_map_of_update(s.drop_last(), i, r);
        assert(t.last() == s.last());
        assert(key_of(s.last()) != key_of(r));
        assert(map_of(t) == map_of(s.drop_last()).insert(key_of(r), r).insert(
            key_of(s.last()),
            s.last(),
        ));
        assert(map_of(s.drop_last()).insert(key_of(r), r).insert(key_of(s.last()), s.last())
            =~= map_of(s.drop_last()).insert(key_of(s.last()), s.last()).insert(key_of(r), r));
    }
}

/// The mathematical values of a sequence of records.
pub open spec fn views_of(recs: Seq<Record>) -> Seq<RecordV> {
    recs.map_values(|r: Record| r@)
}

/// Character-for-character equality of two strings.
pub fn str_eq(a: &str, b: &str) -> (r: bool)
    ensures
        r == (a@ == b@),
{
    let na = a.unicode_len();
    let nb = b.unicode_len();
    if na != nb {
        return false;
    }
    let mut i: usize = 0;
    while i < na
        invariant
            i <= na,
            na == a@.len(),
            na == b@.len(),
            forall|j: int| 0 <= j < i ==> a@[j] == b@[j],
        decreases na - i,
    {
        if a.get_char(i) != b.get_char(i) {
            return false;
        }
        i = i + 1;
    }
    proof {
        assert(a@ =~= b@);
    }
    true
}

/// The store of persisted records.
pub struct Store {
    recs: Vec<Record>,
}

/// Folding a batch of records into a map, in order: an insert for each, so
/// that for one key the last record of the batch wins.
pub open spec fn apply_records(
    m: Map<(Seq<char>, u64), RecordV>,
    rs: Seq<RecordV>,
) -> Map<(Seq<char>, u64), RecordV>
    decreases rs.len(),
{
    if rs.len() == 0 {
        m
    } else {
        apply_records(m, rs.drop_last()).insert(key_of(rs.last()), rs.last())
    }
}

impl Store {
    /// Well-formed: no two stored records share a `(channel_id, ts)` key.
    pub closed spec fn wf(&self) -> bool {
        unique_keys(views_of(self.recs@))
    }

    /// The map this store denotes: each `(channel_id, ts)` key to its record.
    pub closed spec fn view(&self) -> Map<(Seq<char>, u64), RecordV> {
        map_of(views_of(self.recs@))
    }

    /// An empty store: the first-run state.
    pub fn new() -> (s: Store)
        ensures
            s.wf(),
            s@ == Map::<(Seq<char>, u64), RecordV>::empty(),
    {
        let s = Store { recs: Vec::new() };
        proof {
            assert(views_of(s.recs@) =~= Seq::<RecordV>::empty());
        }
        s
    }

    /// Writes `rec` keyed by `(channel_id, ts)`, replacing any record with
    /// the same key: last write wins, and an existing key is the expected
    /// case, never an error.
    pub fn upsert(&mut self, rec: Record)
        requires
            old(self).wf(),
        ensures
            final(self).wf(),
            final(self)@ == old(self)@.insert(key_of(rec@), rec@),
    {
        let ghost s0 = views_of(self.recs@);
        let n = self.recs.len();
        let mut i: usize = 0;
        while i < n
            invariant
                i <= n,
                n == self.recs@.len(),
                unique_keys(s0),
                s0 == views_of(self.recs@),
                s0 == views_of(old(self).recs@),
                forall|j: int| 0 <= j < i ==> key_of(s0[j]) != key_of(rec@),
            decreases n - i,
        {
            let same_channel = str_eq(
                self.recs[i].channel_id.as_str(),
                rec.channel_id.as_str(),
            );
            if same_channel && self.recs[i].ts == rec.ts {
                proof {
                    assert(key_of(s0[i as int]) == key_of(rec@));
                }
                self.recs[i] = rec;
                proof {
                    let s1 = views_of(self.recs@);
                    assert(s1 =~= s0.update(i as int, rec@));
                    lemma_map_of_update(s0, i as int, rec@);
                }
                return;
            }
            i = i + 1;
        }
        self.recs.push(rec);
        proof {
            let s1 = views_of(self.recs@);
            assert(s1 =~= s0.push(rec@));
            assert(s1.drop_last() =~= s0);
            assert forall|p: int, q: int| 0 <= p < q < s1.len() implies key_of(s1[p]) != key_of(
                s1[q],
            ) by {
                if q == s1.len() - 1 {
                    assert(key_of(s1[p]) != key_of(rec@));
                }
            }
        }
    }

    /// The derived cursor: the maximum stored timestamp of `channel_id`, or
    /// nothing when the channel has no records yet — the normal first-run
    /// state, not a failure.
    pub fn get_last_ts(&self, channel_id: &str) -> (r: Option<u64>)
        requires
            self.wf(),
        ensures
            r is None ==> forall|k: (Seq<char>, u64)| self@.contains_key(k) ==> k.0
                != channel_id@,
            r matches Some(t) ==> self@.contains_key((channel_id@, t)) && forall|
                k: (Seq<char>, u64),
            | self@.contains_key(k) && k.0 == channel_id@ ==> k.1 <= t,
    {
        let ghost s0 = views_of(self.recs@);
        let n = self.recs.len();
        let mut best: Option<u64> = None;
        let mut i: usize = 0;
        while i < n
            invariant
                i <= n,
                n == self.recs@.len(),
                s0 == views_of(self.recs@),
                best is None ==> forall|j: int| 0 <= j < i ==> s0[j].channel_id != channel_id@,
                best matches Some(t) ==> exists|j: int| 0 <= j < i && s0[j].channel_id
                    == channel_id@ && s0[j].ts == t,
                best matches Some(t) ==> forall|j: int| 0 <= j < i && s0[j].channel_id
                    == channel_id@ ==> s0[j].ts <= t,
            decreases n - i,
        {
            proof {
                assert(s0[i as int] == self.recs@[i as int]@);
            }
            if str_eq(self.recs[i].channel_id.as_str(), channel_id) {
                let ts = self.recs[i].ts;
                proof {
                    assert(s0[i as int].channel_id == channel_id@ && s0[i as int].ts == ts);
                }
                match best {
                    None => {
                        best = Some(ts);
                    },
                    Some(t) => {
                        if ts > t {
                            best = Some(ts);
                        }
                    },
                }
                proof {
                    match best {
                        Some(t1) => {
                            assert(s0[i as int].channel_id == channel_id@);
                            assert(s0[i as int].ts <= t1);
                            if s0[i as int].ts == t1 {
                                assert(exists|j: int|
                                    0 <= j < i + 1 && s0[j].channel_id == channel_id@
                                        && s0[j].ts == t1);
                            }
                        },
                        None => {},
                    }
                }
            }
            i = i + 1;
        }
        proof {
            match best {
                None => {
                    assert forall|k: (Seq<char>, u64)| self@.contains_key(k) implies k.0
                        != channel_id@ by {
                        lemma_map_of_contains(s0, k);
                        let j = choose|j: int| 0 <= j < s0.len() && key_of(s0[j]) == k;
                        assert(s0[j].channel_id == k.0);
                    }
                },
                Some(t) => {
                    let j = choose|j: int| 0 <= j < s0.len() && s0[j].channel_id == channel_id@
                        && s0[j].ts == t;
                    lemma_map_of_contains(s0, (channel_id@, t));
                    assert(key_of(s0[j]) == (channel_id@, t));
                    assert forall|k: (Seq<char>, u64)|
                        self@.contains_key(k) && k.0 == channel_id@ implies k.1 <= t by {
                        lemma_map_of_contains(s0, k);
                        let p = choose|p: int| 0 <= p < s0.len() && key_of(s0[p]) == k;
                        assert(s0[p].channel_id == channel_id@ && s0[p].ts == k.1);
                    }
                },
            }
        }
        best
    }

    /// The record stored under `(channel_id, ts)`, if any.
    pub fn lookup(&self, channel_id: &str, ts: u64) -> (r: Option<&Record>)
        requires
            self.wf(),
        ensures
            match r {
                Some(rec) => self@.contains_key((channel_id@, ts)) && rec@ == self@[(
                    channel_id@,
                    ts,
                )],
                None => !self@.contains_key((channel_id@, ts)),
            },
    {
        let ghost s0 = views_of(self.recs@);
        let n = self.recs.len();
        let mut i: usize = 0;
        while i < n
            invariant
                i <= n,
                n == self.recs@.len(),
                self.wf(),
                s0 == views_of(self.recs@),
                forall|j: int| 0 <= j < i ==> key_of(s0[j]) != (channel_id@, ts),
            decreases n - i,
        {
            if str_eq(self.recs[i].channel_id.as_str(), channel_id) && self.recs[i].ts == ts {
                proof {
                    assert(key_of(s0[i as int]) == (channel_id@, ts));
                    lemma_map_of_index(s0, i as int);
                }
                return Some(&self.recs[i]);
            }
            i = i + 1;
        }
        proof {
            lemma_map_of_contains(s0, (channel_id@, ts));
        }
        None
    }

    /// Number of stored records: one per `(channel_id, ts)` key.
    pub fn len(&self) -> (n: usize)
        requires
            self.wf(),
        ensures
            n == self@.dom().len(),
    {
        proof {
            lemma_map_of_len(views_of(self.recs@));
        }
        self.recs.len()
    }

    /// Persists a batch of records in the order given: an upsert for each,
    /// so repeated delivery converges and the last write for a key wins.
    pub fn persist_batch(&mut self, records: &Vec<Record>)
        requires
            old(self).wf(),
        ensures
            final(self).wf(),
            final(self)@ == apply_records(old(self)@, views_of(records@)),
    {
        let ghost rs = views_of(records@);
        let n = records.len();
        let mut i: usize = 0;
        while i < n
            invariant
                i <= n,
                n == records@.len(),
                rs == views_of(records@),
                self.wf(),
                self@ == apply_records(old(self)@, rs.subrange(0, i as int)),
            decreases n - i,
        {
            let rec = &records[i];
            let copy = Record {
                channel_id: rec.channel_id.clone(),
                ts: rec.ts,
                author: rec.author.clone(),
                body: rec.body.clone(),
            };
            proof {
                assert(copy@ == rs[i as int]);
            }
            self.upsert(copy);
            i = i + 1;
            proof {
                let pre = rs.subrange(0, i as int);
                assert(pre.drop_last() =~= rs.subrange(0, i as int - 1));
                assert(pre.last() == rs[i as int - 1]);
            }
        }
        proof {
            assert(rs.subrange(0, n as int) =~= rs);
        }
    }
}

// ---------------------------------------------------------------------------
// Laws of idempotent persistence
// ---------------------------------------------------------------------------

/// Persisting the same key twice leaves exactly one record for it, the
/// second write winning: the store converges however often a window is
/// re-fetched.
pub proof fn lemma_persist_twice(
    m: Map<(Seq<char>, u64), RecordV>,
    r1: RecordV,
    r2: RecordV,
)
    requires
        key_of(r1) == key_of(r2),
    ensures
        apply_records(m, seq![r1, r2]) == m.insert(key_of(r2), r2),
        apply_records(m, seq![r1, r2]).dom() == m.dom().insert(key_of(r2)),
{
    reveal_with_fuel(apply_records, 3);
    let rs = seq![r1, r2];
    assert(rs.drop_last() =~= seq![r1]);
    assert(seq![r1].drop_last() =~= Seq::<RecordV>::empty());
    assert(apply_records(m, seq![r1, r2]) =~~= m.insert(key_of(r2), r2));
    assert(apply_records(m, seq![r1, r2]).dom() =~~= m.dom().insert(key_of(r2)));
}

/// An edit delivered again by the overlap window: after persisting the
/// original and then the edited record under the same key, the store holds
/// the edited record.
pub proof fn lemma_overlap_capture(
    m: Map<(Seq<char>, u64), RecordV>,
    orig: RecordV,
    edit: RecordV,
)
    requires
        key_of(orig) == key_of(edit),
    ensures
        apply_records(apply_records(m, seq![orig]), seq![edit]).contains_key(key_of(edit)),
        apply_records(apply_records(m, seq![orig]), seq![edit])[key_of(edit)] == edit,
{
    reveal_with_fuel(apply_records, 3);
    assert(seq![orig].drop_last() =~= Seq::<RecordV>::empty());
    assert(seq![edit].drop_last() =~= Seq::<RecordV>::empty());
}

/// Re-delivering records the store already holds changes nothing: a re-run
/// over an already-synchronized window is a no-op.
pub proof fn lemma_replay_no_change(m: Map<(Seq<char>, u64), RecordV>, rs: Seq<RecordV>)
    requires
        forall|i: int| 0 <= i < rs.len() ==> m.contains_key(key_of(#[trigger] rs[i]))
            && m[key_of(rs[i])] == rs[i],
    ensures
        apply_records(m, rs) == m,
    decreases rs.len(),
{
    if rs.len() > 0 {
        assert(forall|i: int| 0 <= i < rs.drop_last().len() ==> rs.drop_last()[i] == rs[i]);
        lemma_replay_no_change(m, rs.drop_last());
        assert(apply_records(m, rs) =~= m);
    }
}

} // verus!
