//! The frecency table and its mutation algebra.

use crate::order::{f64_ge, f64_gt, flt_key, gt_bits, is_nan, is_nan_bits};
use crate::score::{TVec3, ONE_BITS, ZERO_BITS};
use vstd::prelude::*;

verus! {

/// The error taxonomy of the library: a closed set of kinds so that a
/// caller can match exhaustively and map each kind to its own message
/// and exit code.
#[derive(Clone, Copy, Debug, PartialEq, Eq, Structural)]
pub enum FreqleError {
    /// Strict mode was requested and the backing file does not exist.
    StrictFileMissing,
    /// Reading or writing the backing file or standard input failed.
    IOError,
    /// Persisted content could not be parsed back into a table.
    BinError,
    /// A computed score was NaN during ranking.
    NumError,
}

/// The mathematical value of one table entry: a key and its energy.
#[verifier::ext_equal]
pub ghost struct EntryModel {
    pub key: Seq<u8>,
    pub energy: TVec3,
}

/// The mathematical value of a table: the last-update instant, in whole
/// seconds since the Unix epoch, and the entry sequence.
#[verifier::ext_equal]
pub ghost struct TableModel {
    pub last_update: i64,
    pub entries: Seq<EntryModel>,
}

/// Whether some entry of `s` carries the key `k`.
pub open spec fn seq_has_key(s: Seq<EntryModel>, k: Seq<u8>) -> bool {
    exists|i: int| 0 <= i < s.len() && s[i].key == k
}

/// Whether `k` appears in the supplied key list.
pub open spec fn key_listed(keys: Seq<Vec<u8>>, k: Seq<u8>) -> bool {
    exists|a: int| 0 <= a < keys.len() && keys[a]@ == k
}

impl TableModel {
    /// The mapping invariant: no two entries share a key.
    pub open spec fn wf(self) -> bool {
        forall|i: int, j: int|
            0 <= i < j < self.entries.len() ==> self.entries[i].key != self.entries[j].key
    }

    /// Whether the table has an entry for `k`.
    pub open spec fn has_key(self, k: Seq<u8>) -> bool {
        seq_has_key(self.entries, k)
    }
}

/// One stored entry: a key and its accumulated energy.
pub struct Entry {
    pub key: Vec<u8>,
    pub energy: TVec3,
}

impl Entry {
    /// The mathematical value of this entry.
    pub open spec fn model(self) -> EntryModel {
        EntryModel { key: self.key@, energy: self.energy }
    }
}

/// The mathematical values of a stored entry sequence.
pub open spec fn models(s: Seq<Entry>) -> Seq<EntryModel> {
    Seq::new(s.len(), |i: int| s[i].model())
}

/// The frecency table: a mapping from byte-string keys to energies,
/// together with the instant the energies were last decayed to.
pub struct Table {
    pub last_update: i64,
    pub entries: Vec<Entry>,
}

/// The keys of `s` scaled entry-wise to the energies `a`: what a decay
/// step leaves behind once the caller's floating-point kernel has
/// multiplied each stored energy by the decay factors.
pub open spec fn decayed(s: Seq<EntryModel>, a: Seq<TVec3>) -> Seq<EntryModel>
    recommends
        a.len() == s.len(),
{
    Seq::new(s.len(), |i: int| EntryModel { key: s[i].key, energy: a[i] })
}

/// The energies of `s`, entry-wise.
pub open spec fn energies_of(s: Seq<EntryModel>) -> Seq<TVec3> {
    Seq::new(s.len(), |i: int| s[i].energy)
}

/// The model of a table after a decay at instant `now` that scaled the
/// entries to the energies `a`.
pub open spec fn decay_model(t: TableModel, now: i64, a: Seq<TVec3>) -> TableModel
    recommends
        a.len() == t.entries.len(),
{
    TableModel { last_update: now, entries: decayed(t.entries, a) }
}

/// Law: decay measures elapsed time against the previous update and then
/// advances `last_update` to `now`, so a second decay at the same instant
/// sees zero elapsed seconds; its scale factors are then the identity,
/// and scaling every entry to its current energy changes nothing.
pub proof fn lemma_decay_idempotent(t: TableModel, now: i64, a: Seq<TVec3>)
    requires
        a.len() == t.entries.len(),
    ensures
        decay_model(t, now, a).last_update == now,
        decay_model(decay_model(t, now, a), now, energies_of(decay_model(t, now, a).entries))
            == decay_model(t, now, a),
{
    let once = decay_model(t, now, a);
    let twice = decay_model(once, now, energies_of(once.entries));
    assert(twice.entries =~~= once.entries);
    assert(twice =~~= once);
}

/// Whether the bytes of `a` and `b` are equal.
pub(crate) fn bytes_eq(a: &Vec<u8>, b: &Vec<u8>) -> (r: bool)
    ensures
        r == (a@ == b@),
{
    if a.len() != b.len() {
        return false;
    }
    let mut i: usize = 0;
    while i < a.len()
        invariant
            i <= a.len(),
            a@.len() == b@.len(),
            forall|j: int| 0 <= j < i ==> a@[j] == b@[j],
        decreases a.len() - i,
    {
        if a[i] != b[i] {
            return false;
        }
        i = i + 1;
    }
    proof {
        assert(a@ =~= b@);
    }
    true
}

/// A copy of the bytes of `a`.
fn clone_bytes(a: &Vec<u8>) -> (r: Vec<u8>)
    ensures
        r@ == a@,
{
    let mut r: Vec<u8> = Vec::new();
    let mut i: usize = 0;
    while i < a.len()
        invariant
            i <= a.len(),
            r@ == a@.subrange(0, i as int),
        decreases a.len() - i,
    {
        r.push(a[i]);
        proof {
            assert(r@ =~= a@.subrange(0, i as int + 1));
        }
        i = i + 1;
    }
    proof {
        assert(a@.subrange(0, a@.len() as int) =~= a@);
    }
    r
}

/// The position of the entry for `key`, if the table has one.
fn find(entries: &Vec<Entry>, key: &Vec<u8>) -> (r: Option<usize>)
    ensures
        match r {
            Some(i) => i < entries@.len() && entries@[i as int].key@ == key@,
            None => !seq_has_key(models(entries@), key@),
        },
{
    let mut i: usize = 0;
    while i < entries.len()
        invariant
            i <= entries@.len(),
            forall|j: int| 0 <= j < i ==> entries@[j].key@ != key@,
        decreases entries@.len() - i,
    {
        if bytes_eq(&entries[i].key, key) {
            return Some(i);
        }
        i = i + 1;
    }
    None
}

/// Every element of `s` satisfies `pred`, so filtering changes nothing.
proof fn lemma_filter_all<A>(s: Seq<A>, pred: spec_fn(A) -> bool)
    requires
        forall|i: int| 0 <= i < s.len() ==> pred(#[trigger] s[i]),
    ensures
        s.filter(pred) == s,
    decreases s.len(),
{
    reveal(Seq::filter);
    if s.len() > 0 {
        lemma_filter_all(s.drop_last(), pred);
        assert(s.filter(pred) =~= s);
    }
}

/// Filtering a one-element sequence keeps or drops its element.
proof fn lemma_filter_singleton<A>(x: A, pred: spec_fn(A) -> bool)
    ensures
        seq![x].filter(pred) == if pred(x) {
            seq![x]
        } else {
            Seq::<A>::empty()
        },
{
    reveal_with_fuel(Seq::filter, 2);
    assert(seq![x].drop_last() =~= Seq::<A>::empty());
    assert(seq![x].last() == x);
    if pred(x) {
        assert(seq![x].filter(pred) =~= seq![x]);
    }
}

/// Filtering past a pushed element.
proof fn lemma_filter_push<A>(s: Seq<A>, x: A, pred: spec_fn(A) -> bool)
    ensures
        s.push(x).filter(pred) == if pred(x) {
            s.filter(pred).push(x)
        } else {
            s.filter(pred)
        },
{
    reveal(Seq::filter);
    assert(s.push(x).drop_last() =~= s);
    assert(s.push(x).last() == x);
}

/// Every key of a filtered sequence is a key of the source.
proof fn lemma_filter_keys_present(s: Seq<EntryModel>, pred: spec_fn(EntryModel) -> bool)
    ensures
        forall|a: int|
            0 <= a < s.filter(pred).len() ==> seq_has_key(s, (#[trigger] s.filter(pred)[a]).key),
    decreases s.len(),
{
    reveal(Seq::filter);
    if s.len() > 0 {
        let d = s.drop_last();
        lemma_filter_keys_present(d, pred);
        assert forall|a: int| 0 <= a < s.filter(pred).len() implies seq_has_key(
            s,
            (#[trigger] s.filter(pred)[a]).key,
        ) by {
            if a < d.filter(pred).len() {
                assert(s.filter(pred)[a] == d.filter(pred)[a]);
                assert(seq_has_key(d, d.filter(pred)[a].key));
                let w = choose|w: int| 0 <= w < d.len() && d[w].key == d.filter(pred)[a].key;
                assert(s[w] == d[w]);
                assert(seq_has_key(s, d[w].key));
            } else {
                assert(s.filter(pred)[a] == s.last());
                assert(s[s.len() - 1] == s.last());
                assert(seq_has_key(s, s.last().key));
            }
        }
    }
}

/// Filtering keeps keys pairwise distinct.
proof fn lemma_filter_distinct_keys(s: Seq<EntryModel>, pred: spec_fn(EntryModel) -> bool)
    requires
        forall|i: int, j: int| 0 <= i < j < s.len() ==> s[i].key != s[j].key,
    ensures
        forall|i: int, j: int|
            0 <= i < j < s.filter(pred).len() ==> s.filter(pred)[i].key != s.filter(pred)[j].key,
    decreases s.len(),
{
    reveal(Seq::filter);
    if s.len() > 0 {
        let d = s.drop_last();
        assert forall|i: int, j: int| 0 <= i < j < d.len() implies d[i].key != d[j].key by {
            assert(s[i].key != s[j].key);
        }
        lemma_filter_distinct_keys(d, pred);
        lemma_filter_keys_present(d, pred);
        assert forall|i: int, j: int|
            0 <= i < j < s.filter(pred).len() implies s.filter(pred)[i].key
            != s.filter(pred)[j].key by {
            if j < d.filter(pred).len() {
                assert(d.filter(pred)[i].key != d.filter(pred)[j].key);
            } else {
                assert(s.filter(pred)[j] == s.last());
                assert(s.filter(pred)[i] == d.filter(pred)[i]);
                assert(seq_has_key(d, d.filter(pred)[i].key));
                let w = choose|w: int| 0 <= w < d.len() && d[w].key == d.filter(pred)[i].key;
                assert(s[w] == d[w]);
                assert(s[w].key != s[s.len() - 1].key);
            }
        }
    }
}

/// Relies on chrono::Utc::now: the current time, taken as whole seconds
/// since the Unix epoch. Nothing is assumed of the value: the clock may
/// move backward between calls, and the table's contracts hold whatever
/// instant comes back.
#[verifier::external_body]
fn now_unix() -> i64 {
    chrono::Utc::now().timestamp()
}

impl Table {
    /// The mathematical value of this table.
    pub open spec fn model(self) -> TableModel {
        TableModel { last_update: self.last_update, entries: models(self.entries@) }
    }

    /// The mapping invariant: no two entries share a key.
    pub open spec fn wf(self) -> bool {
        self.model().wf()
    }

    /// A fresh, empty table whose last update is the present instant.
    pub fn new() -> (t: Table)
        ensures
            t.wf(),
            t.model().entries == Seq::<EntryModel>::empty(),
    {
        let t = Table { last_update: now_unix(), entries: Vec::new() };
        proof {
            assert(t.model().entries =~= Seq::<EntryModel>::empty());
        }
        t
    }

    /// The number of entries.
    pub fn len(&self) -> (n: usize)
        ensures
            n == self.model().entries.len(),
    {
        self.entries.len()
    }

    /// The elapsed seconds from the last update to `now`: zero or
    /// negative when the clock stood still or moved backward, which the
    /// decay contract tolerates.
    pub fn elapsed_seconds(&self, now: i64) -> (d: i128)
        ensures
            d == now - self.last_update,
    {
        (now as i128) - (self.last_update as i128)
    }

    /// The energy stored for `key`, if any.
    pub fn get(&self, key: &Vec<u8>) -> (r: Option<TVec3>)
        ensures
            match r {
                Some(v) => exists|i: int|
                    0 <= i < self.model().entries.len() && self.model().entries[i] == (EntryModel {
                        key: key@,
                        energy: v,
                    }),
                None => !self.model().has_key(key@),
            },
    {
        match find(&self.entries, key) {
            Some(i) => {
                let v = self.entries[i].energy;
                proof {
                    assert(self.model().entries[i as int] == (EntryModel {
                        key: key@,
                        energy: v,
                    }));
                }
                Some(v)
            },
            None => None,
        }
    }

    /// Removes the entry for `key` if the table has one; a miss changes
    /// nothing, so deletion is idempotent.
    pub fn delete(&mut self, key: &Vec<u8>)
        requires
            old(self).wf(),
        ensures
            final(self).wf(),
            final(self).last_update == old(self).last_update,
            final(self).model().entries == old(self).model().entries.filter(
                |e: EntryModel| e.key != key@,
            ),
    {
        let ghost pred = |e: EntryModel| e.key != key@;
        let ghost before = self.model().entries;
        match find(&self.entries, key) {
            Some(i) => {
                self.entries.remove(i);
                proof {
                    let left = before.subrange(0, i as int);
                    let right = before.subrange(i as int + 1, before.len() as int);
                    assert(before =~= left + seq![before[i as int]] + right);
                    Seq::filter_distributes_over_add(left + seq![before[i as int]], right, pred);
                    Seq::filter_distributes_over_add(left, seq![before[i as int]], pred);
                    assert forall|j: int| 0 <= j < left.len() implies pred(#[trigger] left[j]) by {
                        assert(before[j].key != before[i as int].key);
                    }
                    lemma_filter_all(left, pred);
                    assert forall|j: int| 0 <= j < right.len() implies pred(#[trigger] right[j]) by {
                        assert(before[i as int + 1 + j].key != before[i as int].key);
                    }
                    lemma_filter_all(right, pred);
                    lemma_filter_singleton(before[i as int], pred);
                    assert(before.filter(pred) == left + right);
                    assert(self.model().entries =~= left + right);
                }
            },
            None => {
                proof {
                    assert forall|j: int| 0 <= j < before.len() implies pred(
                        #[trigger] before[j],
                    ) by {
                        assert(seq_has_key(before, before[j].key));
                    }
                    lemma_filter_all(before, pred);
                }
            },
        }
    }

    /// Records one usage event for `key`. On a key the table does not
    /// hold, a fresh entry at one full bump — all three components at
    /// the pattern of `1.0` — is inserted. On a key it holds, the entry
    /// is replaced by `incremented`, which the caller obtained by adding
    /// `1.0` to each component of the stored energy.
    pub fn bump(&mut self, key: &Vec<u8>, incremented: TVec3)
        requires
            old(self).wf(),
        ensures
            final(self).wf(),
            final(self).last_update == old(self).last_update,
            old(self).model().has_key(key@) ==> exists|i: int|
                0 <= i < old(self).model().entries.len() && old(self).model().entries[i].key
                    == key@ && final(self).model().entries == old(self).model().entries.update(
                    i,
                    (EntryModel { key: key@, energy: incremented }),
                ),
            !old(self).model().has_key(key@) ==> final(self).model().entries
                == old(self).model().entries.push(
                (EntryModel {
                    key: key@,
                    energy: TVec3 { hourly: ONE_BITS, daily: ONE_BITS, monthly: ONE_BITS },
                }),
            ),
    {
        let ghost before = self.model().entries;
        match find(&self.entries, key) {
            Some(i) => {
                let e = self.entries.remove(i);
                self.entries.insert(i, Entry { key: e.key, energy: incremented });
                proof {
                    assert(before[i as int].key == key@);
                    assert(seq_has_key(before, key@));
                    assert(self.model().entries =~~= before.update(
                        i as int,
                        (EntryModel { key: key@, energy: incremented }),
                    ));
                    assert forall|a: int, b: int|
                        0 <= a < b < self.model().entries.len() implies self.model().entries[a].key
                        != self.model().entries[b].key by {
                        assert(before[a].key != before[b].key);
                    }
                }
            },
            None => {
                self.entries.push(
                    Entry { key: clone_bytes(key), energy: TVec3::new(ONE_BITS) },
                );
                proof {
                    assert(self.model().entries =~~= before.push(
                        (EntryModel {
                            key: key@,
                            energy: TVec3 {
                                hourly: ONE_BITS,
                                daily: ONE_BITS,
                                monthly: ONE_BITS,
                            },
                        }),
                    ));
                    assert forall|a: int, b: int|
                        0 <= a < b < self.model().entries.len() implies self.model().entries[a].key
                        != self.model().entries[b].key by {
                        if b < before.len() {
                            assert(before[a].key != before[b].key);
                        } else {
                            assert(seq_has_key(before, before[a].key));
                        }
                    }
                }
            },
        }
    }

    /// Removes exactly the entries whose monthly component has decayed
    /// to `threshold` or below, and keeps every other entry unchanged.
    /// Only the slowest-decaying component gates removal. The comparison
    /// is floating-point `>` on the patterns, so an entry whose monthly
    /// component is NaN is removed, as a comparison with NaN is false.
    #[verifier::loop_isolation(false)]
    pub fn expire(&mut self, threshold: u64)
        requires
            old(self).wf(),
        ensures
            final(self).wf(),
            final(self).last_update == old(self).last_update,
            final(self).model().entries == old(self).model().entries.filter(
                |e: EntryModel| f64_gt(e.energy.monthly, threshold),
            ),
    {
        let ghost pred = |e: EntryModel| f64_gt(e.energy.monthly, threshold);
        let ghost before = self.model().entries;
        let mut kept: Vec<Entry> = Vec::new();
        let mut i: usize = 0;
        while i < self.entries.len()
            invariant
                *self == *old(self),
                before == self.model().entries,
                i <= self.entries@.len(),
                models(kept@) == before.subrange(0, i as int).filter(pred),
            decreases self.entries@.len() - i,
        {
            let ghost prefix = before.subrange(0, i as int);
            let keep = gt_bits(self.entries[i].energy.monthly, threshold);
            if keep {
                let ghost kept_before = models(kept@);
                kept.push(
                    Entry {
                        key: clone_bytes(&self.entries[i].key),
                        energy: self.entries[i].energy,
                    },
                );
                proof {
                    assert(models(kept@) =~= kept_before.push(before[i as int]));
                    assert(kept_before == prefix.filter(pred));
                }
            }
            proof {
                assert(keep == pred(before[i as int]));
                lemma_filter_push(prefix, before[i as int], pred);
                assert(before.subrange(0, i as int + 1) =~= prefix.push(before[i as int]));
                assert(before.subrange(0, i as int + 1).filter(pred) == (if pred(
                    before[i as int],
                ) {
                    prefix.filter(pred).push(before[i as int])
                } else {
                    prefix.filter(pred)
                }));
                assert(models(kept@) == before.subrange(0, i as int + 1).filter(pred));
            }
            i = i + 1;
        }
        self.entries = kept;
        proof {
            assert(before.subrange(0, before.len() as int) =~= before);
            lemma_filter_distinct_keys(before, pred);
        }
    }

    /// Ensures each supplied key is present, inserting a zero-energy
    /// baseline for the absent ones and leaving present entries exactly
    /// as they are (insert-only-if-absent: augmenting never resets an
    /// energy the table already holds).
    #[verifier::loop_isolation(false)]
    pub fn augment(&mut self, keys: &Vec<Vec<u8>>)
        requires
            old(self).wf(),
        ensures
            final(self).wf(),
            final(self).last_update == old(self).last_update,
            old(self).model().entries.is_prefix_of(final(self).model().entries),
            forall|j: int|
                old(self).model().entries.len() <= j < final(self).model().entries.len()
                    ==> (#[trigger] final(self).model().entries[j]).energy == (TVec3 {
                    hourly: ZERO_BITS,
                    daily: ZERO_BITS,
                    monthly: ZERO_BITS,
                }),
            forall|j: int|
                old(self).model().entries.len() <= j < final(self).model().entries.len()
                    ==> !old(self).model().has_key(
                    (#[trigger] final(self).model().entries[j]).key,
                ),
            forall|j: int|
                old(self).model().entries.len() <= j < final(self).model().entries.len()
                    ==> key_listed(keys@, (#[trigger] final(self).model().entries[j]).key),
            forall|a: int| 0 <= a < keys@.len() ==> final(self).model().has_key(#[trigger] keys@[a]@),
    {
        let ghost before = self.model().entries;
        let mut idx: usize = 0;
        while idx < keys.len()
            invariant
                self.last_update == old(self).last_update,
                self.wf(),
                idx <= keys@.len(),
                before == old(self).model().entries,
                before.is_prefix_of(self.model().entries),
                forall|j: int|
                    before.len() <= j < self.model().entries.len()
                        ==> (#[trigger] self.model().entries[j]).energy == (TVec3 {
                        hourly: ZERO_BITS,
                        daily: ZERO_BITS,
                        monthly: ZERO_BITS,
                    }),
                forall|j: int|
                    before.len() <= j < self.model().entries.len() ==> !seq_has_key(
                        before,
                        (#[trigger] self.model().entries[j]).key,
                    ),
                forall|j: int|
                    before.len() <= j < self.model().entries.len() ==> key_listed(
                        keys@,
                        (#[trigger] self.model().entries[j]).key,
                    ),
                forall|a: int| 0 <= a < idx ==> self.model().has_key(#[trigger] keys@[a]@),
            decreases keys@.len() - idx,
        {
            let ghost mid = self.model().entries;
            match find(&self.entries, &keys[idx]) {
                Some(i) => {
                    proof {
                        assert(mid[i as int].key == keys@[idx as int]@);
                        assert(seq_has_key(mid, keys@[idx as int]@));
                    }
                },
                None => {
                    self.entries.push(
                        Entry { key: clone_bytes(&keys[idx]), energy: TVec3::new(ZERO_BITS) },
                    );
                    proof {
                        if seq_has_key(before, keys@[idx as int]@) {
                            let w = choose|w: int|
                                0 <= w < before.len() && before[w].key == keys@[idx as int]@;
                            assert(before[w] == mid.subrange(0, before.len() as int)[w]);
                            assert(mid[w].key == keys@[idx as int]@);
                            assert(seq_has_key(mid, keys@[idx as int]@));
                            assert(false);
                        }
                        assert(mid.push(
                            (EntryModel {
                                key: keys@[idx as int]@,
                                energy: TVec3 {
                                    hourly: ZERO_BITS,
                                    daily: ZERO_BITS,
                                    monthly: ZERO_BITS,
                                },
                            }),
                        ).subrange(0, before.len() as int) =~= mid.subrange(
                            0,
                            before.len() as int,
                        ));
                        assert(self.model().entries =~= mid.push(
                            (EntryModel {
                                key: keys@[idx as int]@,
                                energy: TVec3 {
                                    hourly: ZERO_BITS,
                                    daily: ZERO_BITS,
                                    monthly: ZERO_BITS,
                                },
                            }),
                        ));
                        assert forall|a: int, b: int|
                            0 <= a < b < self.model().entries.len()
                            implies self.model().entries[a].key
                            != self.model().entries[b].key by {
                            if b + 1 == self.model().entries.len() {
                                assert(seq_has_key(mid, mid[a].key));
                            } else {
                                assert(mid[a].key != mid[b].key);
                            }
                        }
                        assert forall|a: int| 0 <= a < idx + 1 implies self.model().has_key(
                            #[trigger] keys@[a]@,
                        ) by {
                            if a < idx {
                                let w = choose|w: int| 0 <= w < mid.len() && mid[w].key == keys@[a]@;
                                assert(self.model().entries[w].key == keys@[a]@);
                            } else {
                                assert(self.model().entries[mid.len() as int].key == keys@[a]@);
                            }
                        }
                    }
                },
            }
            idx = idx + 1;
        }
    }

    /// A new table holding only the entries whose key appears in `keys`,
    /// with their energies unchanged and the same last update. Supplied
    /// keys the table does not hold are silently omitted; no entry is
    /// ever invented and none is altered.
    #[verifier::loop_isolation(false)]
    pub fn restrict(&self, keys: &Vec<Vec<u8>>) -> (t: Table)
        requires
            self.wf(),
        ensures
            t.wf(),
            t.last_update == self.last_update,
            forall|k: Seq<u8>| #[trigger]
                t.model().has_key(k) <==> (self.model().has_key(k) && exists|a: int|
                    0 <= a < keys@.len() && keys@[a]@ == k),
            forall|j: int|
                0 <= j < t.model().entries.len() ==> self.model().entries.contains(
                    #[trigger] t.model().entries[j],
                ),
    {
        let mut out: Vec<Entry> = Vec::new();
        let mut idx: usize = 0;
        while idx < keys.len()
            invariant
                idx <= keys@.len(),
                forall|a: int, b: int|
                    0 <= a < b < out@.len() ==> models(out@)[a].key != models(out@)[b].key,
                forall|j: int|
                    0 <= j < out@.len() ==> self.model().entries.contains(
                        #[trigger] models(out@)[j],
                    ),
                forall|j: int|
                    0 <= j < out@.len() ==> exists|a: int|
                        0 <= a < idx && keys@[a]@ == (#[trigger] models(out@)[j]).key,
                forall|a: int|
                    0 <= a < idx && self.model().has_key(#[trigger] keys@[a]@) ==> seq_has_key(
                        models(out@),
                        keys@[a]@,
                    ),
            decreases keys@.len() - idx,
        {
            let ghost out_before = models(out@);
            match find(&self.entries, &keys[idx]) {
                Some(i) => {
                    match find(&out, &keys[idx]) {
                        Some(oi) => {
                            proof {
                                assert(out_before[oi as int].key == keys@[idx as int]@);
                                assert(seq_has_key(out_before, keys@[idx as int]@));
                            }
                        },
                        None => {
                            out.push(
                                Entry {
                                    key: clone_bytes(&keys[idx]),
                                    energy: self.entries[i].energy,
                                },
                            );
                            proof {
                                assert(models(out@) =~= out_before.push(
                                    self.model().entries[i as int],
                                ));
                                assert(models(out@)[out_before.len() as int].key
                                    == keys@[idx as int]@);
                                assert(seq_has_key(models(out@), keys@[idx as int]@));
                                assert forall|a: int|
                                    0 <= a < idx && self.model().has_key(#[trigger] keys@[a]@)
                                    implies seq_has_key(models(out@), keys@[a]@) by {
                                    let w = choose|w: int|
                                        0 <= w < out_before.len() && out_before[w].key
                                            == keys@[a]@;
                                    assert(models(out@)[w] == out_before[w]);
                                }
                                assert forall|a: int, b: int|
                                    0 <= a < b < out@.len() implies models(out@)[a].key
                                    != models(out@)[b].key by {
                                    if b == out_before.len() {
                                        assert(models(out@)[a] == out_before[a]);
                                        if out_before[a].key == keys@[idx as int]@ {
                                            assert(seq_has_key(out_before, keys@[idx as int]@));
                                            assert(false);
                                        }
                                    } else {
                                        assert(models(out@)[a] == out_before[a]);
                                        assert(models(out@)[b] == out_before[b]);
                                    }
                                }
                            }
                        },
                    }
                },
                None => {
                    proof {
                        assert(!seq_has_key(models(self.entries@), keys@[idx as int]@));
                    }
                },
            }
            idx = idx + 1;
        }
        let t = Table { last_update: self.last_update, entries: out };
        proof {
            assert forall|k: Seq<u8>| #[trigger]
                t.model().has_key(k) implies (self.model().has_key(k) && exists|a: int|
                0 <= a < keys@.len() && keys@[a]@ == k) by {
                let j = choose|j: int| 0 <= j < t.model().entries.len()
                    && t.model().entries[j].key == k;
                assert(self.model().entries.contains(t.model().entries[j]));
                let w = choose|w: int| 0 <= w < self.model().entries.len()
                    && self.model().entries[w] == t.model().entries[j];
                assert(self.model().entries[w].key == k);
            }
        }
        t
    }

    /// Applies one decay step: `last_update` advances to `now`, and each
    /// entry's energy is replaced by the matching element of `scaled`,
    /// which the caller's floating-point kernel produced by multiplying
    /// the stored energy by the decay factors `0.5 ^ (elapsed / half
    /// life)` for the three half-lives. Keys and their order are kept.
    #[verifier::loop_isolation(false)]
    pub fn decay(&mut self, now: i64, scaled: &Vec<TVec3>)
        requires
            old(self).wf(),
            scaled@.len() == old(self).model().entries.len(),
        ensures
            final(self).wf(),
            final(self).model() == decay_model(old(self).model(), now, scaled@),
    {
        let ghost before = self.model().entries;
        let mut scaled_entries: Vec<Entry> = Vec::new();
        let mut i: usize = 0;
        while i < self.entries.len()
            invariant
                *self == *old(self),
                before == self.model().entries,
                scaled@.len() == before.len(),
                i <= self.entries@.len(),
                scaled_entries@.len() == i,
                forall|j: int|
                    0 <= j < i ==> models(scaled_entries@)[j] == (EntryModel {
                        key: before[j].key,
                        energy: scaled@[j],
                    }),
            decreases self.entries@.len() - i,
        {
            let ghost se_before = models(scaled_entries@);
            scaled_entries.push(
                Entry { key: clone_bytes(&self.entries[i].key), energy: scaled[i] },
            );
            proof {
                assert(models(scaled_entries@) =~= se_before.push(
                    (EntryModel { key: before[i as int].key, energy: scaled@[i as int] }),
                ));
            }
            i = i + 1;
        }
        self.last_update = now;
        self.entries = scaled_entries;
        proof {
            assert(self.model().entries =~~= decayed(before, scaled@));
            assert(self.model() =~~= decay_model(old(self).model(), now, scaled@));
            assert forall|a: int, b: int|
                0 <= a < b < self.model().entries.len() implies self.model().entries[a].key
                != self.model().entries[b].key by {
                assert(before[a].key != before[b].key);
            }
        }
    }

    /// Ranks the entries for a listing. `scores` pairs with the entry
    /// sequence index-wise; element `i` is the pattern of the dot
    /// product of the caller's weight vector with entry `i`'s energy.
    /// If any score is NaN the whole operation fails with a numeric
    /// error and produces no ordering. Otherwise the result is the entry
    /// indices sorted by score, highest first: each index below the
    /// entry count appears exactly once, and the scores along the
    /// result never increase.
    #[verifier::loop_isolation(false)]
    pub fn view(&self, scores: &Vec<u64>) -> (r: Result<Vec<usize>, FreqleError>)
        requires
            scores@.len() == self.model().entries.len(),
        ensures
            match r {
                Result::Err(e) => e == FreqleError::NumError && exists|i: int|
                    0 <= i < scores@.len() && is_nan_bits(#[trigger] scores@[i]),
                Result::Ok(p) => {
                    &&& forall|i: int| 0 <= i < scores@.len() ==> !is_nan_bits(
                        #[trigger] scores@[i],
                    )
                    &&& p@.len() == scores@.len()
                    &&& forall|i: int| 0 <= i < p@.len() ==> (#[trigger] p@[i]) < scores@.len()
                    &&& forall|a: int, b: int| 0 <= a < b < p@.len() ==> p@[a] != p@[b]
                    &&& forall|v: usize| v < scores@.len() ==> p@.contains(v)
                    &&& forall|a: int, b: int|
                        0 <= a < b < p@.len() ==> f64_ge(
                            scores@[p@[a] as int],
                            scores@[p@[b] as int],
                        )
                },
            },
    {
        let n = scores.len();
        let mut i: usize = 0;
        while i < n
            invariant
                n == scores@.len(),
                forall|j: int| 0 <= j < i ==> !is_nan_bits(#[trigger] scores@[j]),
            decreases n - i,
        {
            if is_nan(scores[i]) {
                return Result::Err(FreqleError::NumError);
            }
            i = i + 1;
        }
        let mut p: Vec<usize> = Vec::new();
        let mut i: usize = 0;
        while i < n
            invariant
                i <= n,
                p@.len() == i,
                forall|j: int| 0 <= j < i ==> p@[j] == j,
            decreases n - i,
        {
            p.push(i);
            i = i + 1;
        }
        proof {
            assert forall|v: usize| v < n implies p@.contains(v) by {
                assert(p@[v as int] == v);
            }
        }
        let mut i: usize = 0;
        while i < n
            invariant
                n == scores@.len(),
                p@.len() == n,
                i <= n,
                forall|k: int| 0 <= k < n ==> (#[trigger] p@[k]) < n,
                forall|a: int, b: int| 0 <= a < b < n ==> p@[a] != p@[b],
                forall|v: usize| v < n ==> p@.contains(v),
                forall|j: int| 0 <= j < scores@.len() ==> !is_nan_bits(#[trigger] scores@[j]),
                forall|a: int, b: int|
                    0 <= a < b < i ==> f64_ge(scores@[p@[a] as int], scores@[p@[b] as int]),
                forall|a: int, b: int|
                    0 <= a < i && i <= b < n ==> f64_ge(
                        scores@[p@[a] as int],
                        scores@[p@[b] as int],
                    ),
            decreases n - i,
        {
            let mut m: usize = i;
            let mut j: usize = i + 1;
            while j < n
                invariant
                    n == scores@.len(),
                    p@.len() == n,
                    i <= m < j,
                    i < j <= n,
                    forall|k: int| 0 <= k < n ==> (#[trigger] p@[k]) < n,
                    forall|j2: int| 0 <= j2 < scores@.len() ==> !is_nan_bits(
                        #[trigger] scores@[j2],
                    ),
                    forall|b: int|
                        i <= b < j ==> flt_key(scores@[p@[m as int] as int]) >= flt_key(
                            scores@[p@[b] as int],
                        ),
                decreases n - j,
            {
                if gt_bits(scores[p[j]], scores[p[m]]) {
                    m = j;
                }
                j = j + 1;
            }
            let ghost p_before = p@;
            let pi = p[i];
            let pm = p[m];
            p[i] = pm;
            p[m] = pi;
            proof {
                assert(p@ =~= p_before.update(i as int, pm).update(m as int, pi));
                assert forall|v: usize| v < n implies p@.contains(v) by {
                    assert(p_before.contains(v));
                    let w = choose|w: int| 0 <= w < p_before.len() && p_before[w] == v;
                    if w == i {
                        assert(p@[m as int] == v);
                    } else if w == m {
                        assert(p@[i as int] == v);
                    } else {
                        assert(p@[w] == v);
                    }
                }
            }
            i = i + 1;
        }
        Result::Ok(p)
    }
}


} // verus!
