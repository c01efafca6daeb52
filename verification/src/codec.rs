//! The binary persistence codec.
//!
//! A table is persisted as one self-describing record, little-endian
//! throughout:
//!
//! - one sign byte (`0` for a non-negative last update, `1` for a
//!   negative one), then the magnitude of the last update as eight
//!   bytes;
//! - the entry count as eight bytes;
//! - each entry in table order: the key length as eight bytes, the key
//!   bytes, then the three energy patterns as eight bytes each.
//!
//! The encoding is deterministic, and decoding accepts exactly the
//! encodings of well-formed tables: trailing bytes, a non-canonical
//! header, truncated entries and duplicate keys are all rejected, so a
//! corrupt file is surfaced as a decode failure and never mistaken for
//! an absent one.

use crate::score::TVec3;
use crate::table::{bytes_eq, models, Entry, EntryModel, FreqleError, Table, TableModel};
use vstd::bytes::{
    lemma_auto_spec_u64_to_from_le_bytes, spec_u64_from_le_bytes, spec_u64_to_le_bytes,
    u64_from_le_bytes, u64_to_le_bytes,
};
use vstd::prelude::*;
use vstd::slice::{slice_subrange, slice_to_vec};

verus! {

/// The magnitude of the last-update instant.
pub open spec fn mag_of(x: i64) -> u64 {
    if x >= 0 {
        x as u64
    } else {
        (-(x as int)) as u64
    }
}

/// The nine header bytes that carry the last-update instant.
pub open spec fn encode_last_update(x: i64) -> Seq<u8> {
    seq![
        if x >= 0 {
            0u8
        } else {
            1u8
        },
    ] + spec_u64_to_le_bytes(mag_of(x))
}

/// Whether a sign byte and a magnitude form a canonical header.
pub open spec fn valid_last_update(sign: u8, m: u64) -> bool {
    ||| (sign == 0 && m <= i64::MAX as u64)
    ||| (sign == 1 && 1 <= m && m <= 0x8000_0000_0000_0000)
}

/// The instant a canonical header carries.
pub open spec fn last_update_of(sign: u8, m: u64) -> i64
    recommends
        valid_last_update(sign, m),
{
    if sign == 0 {
        m as i64
    } else {
        (-(m as int)) as i64
    }
}

/// The bytes of one entry.
pub open spec fn encode_entry(e: EntryModel) -> Seq<u8> {
    spec_u64_to_le_bytes(e.key.len() as u64) + e.key + spec_u64_to_le_bytes(e.energy.hourly)
        + spec_u64_to_le_bytes(e.energy.daily) + spec_u64_to_le_bytes(e.energy.monthly)
}

/// The bytes of an entry sequence, in order.
pub open spec fn encode_entries(s: Seq<EntryModel>) -> Seq<u8>
    decreases s.len(),
{
    if s.len() == 0 {
        Seq::empty()
    } else {
        encode_entry(s[0]) + encode_entries(s.drop_first())
    }
}

/// The bytes that persist a table.
pub open spec fn encoding(t: TableModel) -> Seq<u8> {
    encode_last_update(t.last_update) + spec_u64_to_le_bytes(t.entries.len() as u64)
        + encode_entries(t.entries)
}

/// The parse of `cnt` entries from position `pos` to the very end of
/// `b`: the entries, or nothing if the bytes do not carry exactly that
/// many, laid out as [`encode_entries`] lays them.
pub open spec fn parse_entries(b: Seq<u8>, pos: int, cnt: nat) -> Option<Seq<EntryModel>>
    decreases cnt,
{
    if cnt == 0 {
        if pos == b.len() {
            Some(Seq::empty())
        } else {
            None
        }
    } else if pos < 0 || pos + 8 > b.len() {
        None
    } else {
        let klen = spec_u64_from_le_bytes(b.subrange(pos, pos + 8)) as int;
        if pos + 32 + klen > b.len() {
            None
        } else {
            let key = b.subrange(pos + 8, pos + 8 + klen);
            let h = spec_u64_from_le_bytes(b.subrange(pos + 8 + klen, pos + 16 + klen));
            let d = spec_u64_from_le_bytes(b.subrange(pos + 16 + klen, pos + 24 + klen));
            let m = spec_u64_from_le_bytes(b.subrange(pos + 24 + klen, pos + 32 + klen));
            match parse_entries(b, pos + 32 + klen, (cnt - 1) as nat) {
                None => None,
                Some(rest) => Some(
                    seq![
                        EntryModel { key: key, energy: TVec3 { hourly: h, daily: d, monthly: m } },
                    ] + rest,
                ),
            }
        }
    }
}

/// No two entries share a key.
pub open spec fn distinct_keys(s: Seq<EntryModel>) -> bool {
    forall|i: int, j: int| 0 <= i < j < s.len() ==> s[i].key != s[j].key
}

/// The table a byte string persists, if it persists one.
pub open spec fn decode_spec(b: Seq<u8>) -> Option<TableModel> {
    if b.len() < 17 {
        None
    } else {
        let sign = b[0];
        let m = spec_u64_from_le_bytes(b.subrange(1, 9));
        let n = spec_u64_from_le_bytes(b.subrange(9, 17));
        if !valid_last_update(sign, m) {
            None
        } else {
            match parse_entries(b, 17, n as nat) {
                None => None,
                Some(es) => if distinct_keys(es) {
                    Some(TableModel { last_update: last_update_of(sign, m), entries: es })
                } else {
                    None
                },
            }
        }
    }
}

/// Appending one entry appends its bytes.
proof fn lemma_encode_entries_push(s: Seq<EntryModel>, e: EntryModel)
    ensures
        encode_entries(s.push(e)) == encode_entries(s) + encode_entry(e),
    decreases s.len(),
{
    if s.len() == 0 {
        assert(s.push(e)[0] == e);
        assert(s.push(e).drop_first() =~= Seq::<EntryModel>::empty());
        assert(encode_entries(Seq::<EntryModel>::empty()) == Seq::<u8>::empty());
        assert(s =~= Seq::<EntryModel>::empty());
        assert(encode_entries(s.push(e)) =~= encode_entries(s) + encode_entry(e));
    } else {
        assert(s.push(e).drop_first() =~= s.drop_first().push(e));
        lemma_encode_entries_push(s.drop_first(), e);
        assert(s.push(e)[0] == s[0]);
        assert(encode_entries(s.push(e)) == encode_entry(s[0]) + (encode_entries(s.drop_first())
            + encode_entry(e)));
        assert(encode_entry(s[0]) + (encode_entries(s.drop_first()) + encode_entry(e)) =~= (
        encode_entry(s[0]) + encode_entries(s.drop_first())) + encode_entry(e));
    }
}

/// Appends `e`'s bytes to `out`.
#[verifier::loop_isolation(false)]
fn push_entry_bytes(out: &mut Vec<u8>, e: &Entry)
    ensures
        final(out)@ == old(out)@ + encode_entry(e.model()),
{
    proof {
        lemma_auto_spec_u64_to_from_le_bytes();
    }
    let ghost at_entry = out@;
    let mut piece = u64_to_le_bytes(e.key.len() as u64);
    out.append(&mut piece);
    let mut j: usize = 0;
    while j < e.key.len()
        invariant
            j <= e.key@.len(),
            out@ == at_entry + spec_u64_to_le_bytes(e.model().key.len() as u64) + e.key@.subrange(
                0,
                j as int,
            ),
        decreases e.key@.len() - j,
    {
        out.push(e.key[j]);
        proof {
            assert(out@ =~= at_entry + spec_u64_to_le_bytes(e.model().key.len() as u64)
                + e.key@.subrange(0, j as int + 1));
        }
        j = j + 1;
    }
    let mut piece = u64_to_le_bytes(e.energy.hourly);
    out.append(&mut piece);
    let mut piece = u64_to_le_bytes(e.energy.daily);
    out.append(&mut piece);
    let mut piece = u64_to_le_bytes(e.energy.monthly);
    out.append(&mut piece);
    proof {
        assert(e.key@.subrange(0, e.key@.len() as int) =~= e.key@);
        assert(out@ =~= at_entry + encode_entry(e.model()));
    }
}

impl Table {
    /// The bytes that persist this table: the full record, deterministic
    /// for a given table, ready to replace the backing file's contents.
    #[verifier::loop_isolation(false)]
    pub fn write(&self) -> (out: Vec<u8>)
        ensures
            out@ == encoding(self.model()),
    {
        proof {
            lemma_auto_spec_u64_to_from_le_bytes();
        }
        let mut out: Vec<u8> = Vec::new();
        if self.last_update >= 0 {
            out.push(0u8);
        } else {
            out.push(1u8);
        }
        let mag: u64 = if self.last_update >= 0 {
            self.last_update as u64
        } else {
            ((-(self.last_update + 1)) as u64) + 1
        };
        proof {
            assert(mag == mag_of(self.last_update));
        }
        let mut piece = u64_to_le_bytes(mag);
        out.append(&mut piece);
        proof {
            assert(out@ =~= encode_last_update(self.last_update));
        }
        let count: u64 = self.entries.len() as u64;
        let mut piece = u64_to_le_bytes(count);
        out.append(&mut piece);
        let ghost header = encode_last_update(self.last_update) + spec_u64_to_le_bytes(count);
        let mut i: usize = 0;
        while i < self.entries.len()
            invariant
                i <= self.entries@.len(),
                out@ == header + encode_entries(self.model().entries.subrange(0, i as int)),
            decreases self.entries@.len() - i,
        {
            let ghost prefix = self.model().entries.subrange(0, i as int);
            push_entry_bytes(&mut out, &self.entries[i]);
            proof {
                lemma_encode_entries_push(prefix, self.model().entries[i as int]);
                assert(self.model().entries.subrange(0, i as int + 1) =~= prefix.push(
                    self.model().entries[i as int],
                ));
                assert((header + encode_entries(prefix)) + encode_entry(
                    self.model().entries[i as int],
                ) =~= header + (encode_entries(prefix) + encode_entry(
                    self.model().entries[i as int],
                )));
            }
            i = i + 1;
        }
        proof {
            assert(self.model().entries.subrange(0, self.model().entries.len() as int)
                =~= self.model().entries);
            assert(header + encode_entries(self.model().entries) =~= encoding(self.model()));
        }
        out
    }

    /// Rebuilds the table a persisted record carries, or nothing when
    /// the bytes are not the encoding of any well-formed table.
    #[verifier::loop_isolation(false)]
    pub fn decode(bytes: &Vec<u8>) -> (r: Option<Table>)
        ensures
            match r {
                Some(t) => t.wf() && decode_spec(bytes@) == Some(t.model()),
                None => decode_spec(bytes@) is None,
            },
    {
        proof {
            lemma_auto_spec_u64_to_from_le_bytes();
        }
        if bytes.len() < 17 {
            return None;
        }
        let sign = bytes[0];
        let m = u64_from_le_bytes(slice_subrange(bytes.as_slice(), 1, 9));
        let n = u64_from_le_bytes(slice_subrange(bytes.as_slice(), 9, 17));
        let lu: i64;
        if sign == 0 && m <= (i64::MAX as u64) {
            lu = m as i64;
        } else if sign == 1 && 1 <= m && m <= 0x8000_0000_0000_0000u64 {
            if m == 0x8000_0000_0000_0000u64 {
                lu = i64::MIN;
            } else {
                lu = -(m as i64);
            }
        } else {
            return None;
        }
        proof {
            assert(valid_last_update(sign, m));
            assert(lu == last_update_of(sign, m));
        }
        let mut entries: Vec<Entry> = Vec::new();
        let mut pos: usize = 17;
        let mut k: u64 = 0;
        while k < n
            invariant
                17 <= pos <= bytes@.len(),
                k <= n,
                parse_entries(bytes@, 17, n as nat) == (match parse_entries(
                    bytes@,
                    pos as int,
                    (n - k) as nat,
                ) {
                    None => None::<Seq<EntryModel>>,
                    Some(rest) => Some(models(entries@) + rest),
                }),
            decreases n - k,
        {
            if bytes.len() - pos < 8 {
                return None;
            }
            let klen64 = u64_from_le_bytes(slice_subrange(bytes.as_slice(), pos, pos + 8));
            if bytes.len() - pos < 32 {
                return None;
            }
            if klen64 > (bytes.len() - pos - 32) as u64 {
                return None;
            }
            let klen = klen64 as usize;
            let key = slice_to_vec(slice_subrange(bytes.as_slice(), pos + 8, pos + 8 + klen));
            let h = u64_from_le_bytes(
                slice_subrange(bytes.as_slice(), pos + 8 + klen, pos + 16 + klen),
            );
            let d = u64_from_le_bytes(
                slice_subrange(bytes.as_slice(), pos + 16 + klen, pos + 24 + klen),
            );
            let mo = u64_from_le_bytes(
                slice_subrange(bytes.as_slice(), pos + 24 + klen, pos + 32 + klen),
            );
            let ghost entries_before = models(entries@);
            let ghost em = EntryModel {
                key: bytes@.subrange(pos as int + 8, pos as int + 8 + klen as int),
                energy: TVec3 { hourly: h, daily: d, monthly: mo },
            };
            entries.push(Entry { key: key, energy: TVec3 { hourly: h, daily: d, monthly: mo } });
            proof {
                assert(models(entries@) =~= entries_before.push(em));
                match parse_entries(bytes@, pos as int + 32 + klen as int, (n - k - 1) as nat) {
                    None => {},
                    Some(rest) => {
                        assert((entries_before + (seq![em] + rest)) =~= (entries_before.push(em)
                            + rest));
                    },
                }
            }
            pos = pos + 32 + klen;
            k = k + 1;
        }
        if pos != bytes.len() {
            return None;
        }
        proof {
            assert(parse_entries(bytes@, pos as int, (n - k) as nat) == Some(
                Seq::<EntryModel>::empty(),
            ));
            assert(models(entries@) + Seq::<EntryModel>::empty() =~= models(entries@));
        }
        let mut a: usize = 0;
        while a < entries.len()
            invariant
                a <= entries@.len(),
                forall|i: int, j: int|
                    0 <= i < j < entries@.len() && i < a ==> entries@[i].key@ != entries@[j].key@,
            decreases entries@.len() - a,
        {
            let mut b2: usize = a + 1;
            while b2 < entries.len()
                invariant
                    a < entries@.len(),
                    a + 1 <= b2 <= entries@.len(),
                    forall|j: int| a < j < b2 ==> entries@[a as int].key@ != entries@[j].key@,
                decreases entries@.len() - b2,
            {
                if bytes_eq(&entries[a].key, &entries[b2].key) {
                    proof {
                        assert(models(entries@)[a as int].key == models(entries@)[b2 as int].key);
                        assert(!distinct_keys(models(entries@)));
                    }
                    return None;
                }
                b2 = b2 + 1;
            }
            a = a + 1;
        }
        let t = Table { last_update: lu, entries };
        proof {
            assert(distinct_keys(models(t.entries@)));
            assert(t.model() =~~= (TableModel {
                last_update: last_update_of(sign, m),
                entries: models(t.entries@),
            }));
        }
        Some(t)
    }

    /// Loads a table from the backing file's contents. An absent file
    /// yields a fresh empty table stamped `now`, unless strict mode was
    /// requested, in which case it is a missing-file error; contents
    /// that decode yield the decoded table; contents that do not are a
    /// decode failure, never silently reset to an empty table.
    pub fn load(stored: Option<Vec<u8>>, strict: bool, now: i64) -> (r: Result<
        Table,
        FreqleError,
    >)
        ensures
            match r {
                Ok(t) => t.wf() && match stored {
                    Some(b) => decode_spec(b@) == Some(t.model()),
                    None => !strict && t.model() == (TableModel {
                        last_update: now,
                        entries: Seq::<EntryModel>::empty(),
                    }),
                },
                Err(e) => match stored {
                    Some(b) => decode_spec(b@) is None && e == FreqleError::BinError,
                    None => strict && e == FreqleError::StrictFileMissing,
                },
            },
    {
        match stored {
            Some(bytes) => match Table::decode(&bytes) {
                Some(t) => Ok(t),
                None => Err(FreqleError::BinError),
            },
            None => {
                if strict {
                    Err(FreqleError::StrictFileMissing)
                } else {
                    let t = Table { last_update: now, entries: Vec::new() };
                    proof {
                        assert(t.model().entries =~= Seq::<EntryModel>::empty());
                    }
                    Ok(t)
                }
            },
        }
    }
}

/// Step of the round-trip proof: a byte string whose suffix at `pos` is
/// the encoding of an entry sequence parses back to exactly it.
proof fn lemma_parse_encoded(b: Seq<u8>, pos: int, s: Seq<EntryModel>)
    requires
        0 <= pos <= b.len(),
        b.subrange(pos, b.len() as int) == encode_entries(s),
        forall|i: int|
            0 <= i < s.len() ==> (#[trigger] s[i]).key.len() < 0x1_0000_0000_0000_0000,
    ensures
        parse_entries(b, pos, s.len() as nat) == Some(s),
    decreases s.len(),
{
    lemma_auto_spec_u64_to_from_le_bytes();
    if s.len() == 0 {
        assert(b.subrange(pos, b.len() as int).len() == 0);
        assert(s =~= Seq::<EntryModel>::empty());
    } else {
        let e = s[0];
        let rest = s.drop_first();
        let ee = encode_entry(e);
        let kl = e.key.len() as int;
        assert(ee.len() == 32 + kl);
        assert(encode_entries(s) == ee + encode_entries(rest));
        assert(pos + 8 <= b.len());
        assert(b.subrange(pos, pos + 8) =~= spec_u64_to_le_bytes(e.key.len() as u64));
        let klen = spec_u64_from_le_bytes(b.subrange(pos, pos + 8)) as int;
        assert(klen == kl);
        assert(pos + 32 + klen <= b.len());
        assert forall|q: int| 0 <= q < b.len() - pos implies b[pos + q] == encode_entries(
            s,
        )[q] by {
            assert(b.subrange(pos, b.len() as int)[q] == b[pos + q]);
        }
        assert forall|q: int| 0 <= q < klen implies b.subrange(pos + 8, pos + 8 + klen)[q]
            == e.key[q] by {
            assert(b[pos + 8 + q] == encode_entries(s)[8 + q]);
            assert(encode_entries(s)[8 + q] == ee[8 + q]);
            assert(ee[8 + q] == e.key[q]);
        }
        assert(b.subrange(pos + 8, pos + 8 + klen) =~= e.key);
        assert forall|q: int| 0 <= q < 8 implies b.subrange(pos + 8 + klen, pos + 16 + klen)[q]
            == spec_u64_to_le_bytes(e.energy.hourly)[q] by {
            assert(b[pos + 8 + klen + q] == encode_entries(s)[8 + klen + q]);
            assert(encode_entries(s)[8 + klen + q] == ee[8 + klen + q]);
            assert(ee[8 + klen + q] == spec_u64_to_le_bytes(e.energy.hourly)[q]);
        }
        assert(b.subrange(pos + 8 + klen, pos + 16 + klen) =~= spec_u64_to_le_bytes(
            e.energy.hourly,
        ));
        assert forall|q: int| 0 <= q < 8 implies b.subrange(pos + 16 + klen, pos + 24 + klen)[q]
            == spec_u64_to_le_bytes(e.energy.daily)[q] by {
            assert(b[pos + 16 + klen + q] == encode_entries(s)[16 + klen + q]);
            assert(encode_entries(s)[16 + klen + q] == ee[16 + klen + q]);
            assert(ee[16 + klen + q] == spec_u64_to_le_bytes(e.energy.daily)[q]);
        }
        assert(b.subrange(pos + 16 + klen, pos + 24 + klen) =~= spec_u64_to_le_bytes(
            e.energy.daily,
        ));
        assert forall|q: int| 0 <= q < 8 implies b.subrange(pos + 24 + klen, pos + 32 + klen)[q]
            == spec_u64_to_le_bytes(e.energy.monthly)[q] by {
            assert(b[pos + 24 + klen + q] == encode_entries(s)[24 + klen + q]);
            assert(encode_entries(s)[24 + klen + q] == ee[24 + klen + q]);
            assert(ee[24 + klen + q] == spec_u64_to_le_bytes(e.energy.monthly)[q]);
        }
        assert(b.subrange(pos + 24 + klen, pos + 32 + klen) =~= spec_u64_to_le_bytes(
            e.energy.monthly,
        ));
        assert forall|q: int|
            0 <= q < b.len() - pos - 32 - klen implies b.subrange(
            pos + 32 + klen,
            b.len() as int,
        )[q] == encode_entries(rest)[q] by {
            assert(b[pos + 32 + klen + q] == encode_entries(s)[32 + klen + q]);
            assert(encode_entries(s)[32 + klen + q] == encode_entries(rest)[q]);
        }
        assert(b.subrange(pos + 32 + klen, b.len() as int) =~= encode_entries(rest));
        assert forall|i: int|
            0 <= i < rest.len() implies (#[trigger] rest[i]).key.len()
            < 0x1_0000_0000_0000_0000 by {
            assert(rest[i] == s[i + 1]);
        }
        lemma_parse_encoded(b, pos + 32 + klen, rest);
        let em = EntryModel {
            key: b.subrange(pos + 8, pos + 8 + klen),
            energy: TVec3 {
                hourly: spec_u64_from_le_bytes(b.subrange(pos + 8 + klen, pos + 16 + klen)),
                daily: spec_u64_from_le_bytes(b.subrange(pos + 16 + klen, pos + 24 + klen)),
                monthly: spec_u64_from_le_bytes(b.subrange(pos + 24 + klen, pos + 32 + klen)),
            },
        };
        assert(em =~~= e);
        assert(seq![em] + rest =~= s);
        assert(parse_entries(b, pos, s.len() as nat) == Some(seq![em] + rest));
    }
}

/// Law: persistence is lossless. The encoding of a well-formed table
/// decodes back to exactly that table, value for value, so a load after
/// a persist reproduces the mapping and the timestamp, and persisting
/// the reloaded table emits the very same bytes.
pub proof fn lemma_encode_decode(t: TableModel)
    requires
        t.wf(),
        t.entries.len() < 0x1_0000_0000_0000_0000,
        forall|i: int|
            0 <= i < t.entries.len() ==> (#[trigger] t.entries[i]).key.len()
                < 0x1_0000_0000_0000_0000,
    ensures
        decode_spec(encoding(t)) == Some(t),
{
    lemma_auto_spec_u64_to_from_le_bytes();
    let b = encoding(t);
    let e9 = encode_last_update(t.last_update);
    let cntb = spec_u64_to_le_bytes(t.entries.len() as u64);
    assert(e9.len() == 9);
    assert(b.len() >= 17);
    assert(b[0] == e9[0]);
    assert(b.subrange(1, 9) =~= spec_u64_to_le_bytes(mag_of(t.last_update)));
    assert(b.subrange(9, 17) =~= cntb);
    let sign = b[0];
    let m = spec_u64_from_le_bytes(b.subrange(1, 9));
    let n = spec_u64_from_le_bytes(b.subrange(9, 17));
    assert(m == mag_of(t.last_update));
    assert(n == t.entries.len() as u64);
    assert(valid_last_update(sign, m));
    assert(last_update_of(sign, m) == t.last_update);
    assert(b.subrange(17, b.len() as int) =~= encode_entries(t.entries));
    lemma_parse_encoded(b, 17, t.entries);
    assert(n as nat == t.entries.len());
    assert(distinct_keys(t.entries));
    assert(decode_spec(b) == Some(
        TableModel { last_update: t.last_update, entries: t.entries },
    ));
    assert((TableModel { last_update: t.last_update, entries: t.entries }) =~~= t);
}

/// Step of the canonicity proof: entries parsed out of a byte string
/// re-encode to exactly the bytes they were parsed from.
proof fn lemma_encoded_parse(b: Seq<u8>, pos: int, cnt: nat, s: Seq<EntryModel>)
    requires
        parse_entries(b, pos, cnt) == Some(s),
    ensures
        s.len() == cnt,
        0 <= pos <= b.len(),
        b.subrange(pos, b.len() as int) == encode_entries(s),
    decreases cnt,
{
    lemma_auto_spec_u64_to_from_le_bytes();
    if cnt == 0 {
        assert(pos == b.len());
        assert(b.subrange(pos, b.len() as int) =~= encode_entries(s));
    } else {
        let klen = spec_u64_from_le_bytes(b.subrange(pos, pos + 8)) as int;
        let rest_s = s.drop_first();
        assert(parse_entries(b, pos + 32 + klen, (cnt - 1) as nat) is Some);
        let rest = parse_entries(b, pos + 32 + klen, (cnt - 1) as nat)->Some_0;
        assert(s == seq![s[0]] + rest);
        assert(rest =~= rest_s);
        lemma_encoded_parse(b, pos + 32 + klen, (cnt - 1) as nat, rest_s);
        let em = s[0];
        assert(em.key == b.subrange(pos + 8, pos + 8 + klen));
        assert(em.key.len() == klen);
        assert(spec_u64_to_le_bytes(em.key.len() as u64) =~= b.subrange(pos, pos + 8));
        assert(spec_u64_to_le_bytes(em.energy.hourly) =~= b.subrange(
            pos + 8 + klen,
            pos + 16 + klen,
        ));
        assert(spec_u64_to_le_bytes(em.energy.daily) =~= b.subrange(
            pos + 16 + klen,
            pos + 24 + klen,
        ));
        assert(spec_u64_to_le_bytes(em.energy.monthly) =~= b.subrange(
            pos + 24 + klen,
            pos + 32 + klen,
        ));
        let ee = encode_entry(em);
        assert(ee.len() == 32 + klen);
        assert(encode_entries(s) == ee + encode_entries(rest_s));
        assert forall|q: int|
            0 <= q < b.len() - pos implies b.subrange(pos, b.len() as int)[q] == (ee
            + encode_entries(rest_s))[q] by {
            if q < 8 {
                assert(b.subrange(pos, pos + 8)[q] == b[pos + q]);
                assert(ee[q] == spec_u64_to_le_bytes(em.key.len() as u64)[q]);
            } else if q < 8 + klen {
                assert(b.subrange(pos + 8, pos + 8 + klen)[q - 8] == b[pos + q]);
                assert(ee[q] == em.key[q - 8]);
            } else if q < 16 + klen {
                assert(b.subrange(pos + 8 + klen, pos + 16 + klen)[q - 8 - klen] == b[pos + q]);
                assert(ee[q] == spec_u64_to_le_bytes(em.energy.hourly)[q - 8 - klen]);
            } else if q < 24 + klen {
                assert(b.subrange(pos + 16 + klen, pos + 24 + klen)[q - 16 - klen] == b[pos + q]);
                assert(ee[q] == spec_u64_to_le_bytes(em.energy.daily)[q - 16 - klen]);
            } else if q < 32 + klen {
                assert(b.subrange(pos + 24 + klen, pos + 32 + klen)[q - 24 - klen] == b[pos + q]);
                assert(ee[q] == spec_u64_to_le_bytes(em.energy.monthly)[q - 24 - klen]);
            } else {
                assert(b.subrange(pos + 32 + klen, b.len() as int)[q - 32 - klen] == b[pos + q]);
                assert((ee + encode_entries(rest_s))[q] == encode_entries(rest_s)[q - 32 - klen]);
            }
        }
        assert(b.subrange(pos, b.len() as int) =~= ee + encode_entries(rest_s));
    }
}

/// Law: decoding is canonical. A byte string that decodes at all is the
/// encoding of the table it decodes to, bit for bit, so persisting a
/// loaded table rewrites the file with exactly the bytes it held.
pub proof fn lemma_decode_canonical(b: Seq<u8>, t: TableModel)
    requires
        decode_spec(b) == Some(t),
    ensures
        encoding(t) == b,
{
    lemma_auto_spec_u64_to_from_le_bytes();
    let sign = b[0];
    let m = spec_u64_from_le_bytes(b.subrange(1, 9));
    let n = spec_u64_from_le_bytes(b.subrange(9, 17));
    assert(parse_entries(b, 17, n as nat) is Some);
    let es = parse_entries(b, 17, n as nat)->Some_0;
    lemma_encoded_parse(b, 17, n as nat, es);
    assert(t.entries == es);
    assert(t.last_update == last_update_of(sign, m));
    assert(mag_of(t.last_update) == m);
    assert(encode_last_update(t.last_update)[0] == sign);
    assert(spec_u64_to_le_bytes(m) =~= b.subrange(1, 9));
    assert(t.entries.len() as u64 == n);
    assert(spec_u64_to_le_bytes(n) =~= b.subrange(9, 17));
    let enc = encoding(t);
    assert forall|q: int| 0 <= q < enc.len() implies enc[q] == b[q] by {
        if 1 <= q < 9 {
            assert(enc[q] == spec_u64_to_le_bytes(m)[q - 1]);
            assert(b.subrange(1, 9)[q - 1] == b[q]);
        } else if 9 <= q < 17 {
            assert(enc[q] == spec_u64_to_le_bytes(n)[q - 9]);
            assert(b.subrange(9, 17)[q - 9] == b[q]);
        } else if 17 <= q {
            assert(enc[q] == encode_entries(t.entries)[q - 17]);
            assert(b.subrange(17, b.len() as int)[q - 17] == b[q]);
        }
    }
    assert(enc.len() == 17 + encode_entries(t.entries).len());
    assert(enc.len() == b.len());
    assert(enc =~= b);
}

/// The arguments of the delete command: the history file path, the key
/// to delete, and whether an absent file is an error.
pub struct DeleteArgs {
    pub path: String,
    pub key: Vec<u8>,
    pub strict: bool,
}

/// The delete command, on the backing file's contents: load the table
/// (or start fresh at `now` when nothing is stored and strict mode is
/// off), remove the entry for the key if there is one, and produce the
/// bytes to persist back. No decay is applied on this path, mirroring
/// the command's historical behaviour: the stored instant rides along
/// unchanged.
pub fn run_delete(stored: Option<Vec<u8>>, args: &DeleteArgs, now: i64) -> (r: Result<
    Vec<u8>,
    FreqleError,
>)
    ensures
        match r {
            Ok(out) => match stored {
                Some(b) => decode_spec(b@) matches Some(t) && out@ == encoding(
                    (TableModel {
                        last_update: t.last_update,
                        entries: t.entries.filter(|e: EntryModel| e.key != args.key@),
                    }),
                ),
                None => !args.strict && out@ == encoding(
                    (TableModel { last_update: now, entries: Seq::<EntryModel>::empty() }),
                ),
            },
            Err(e) => match stored {
                Some(b) => decode_spec(b@) is None && e == FreqleError::BinError,
                None => args.strict && e == FreqleError::StrictFileMissing,
            },
        },
{
    let t0 = match Table::load(stored, args.strict, now) {
        Ok(t) => t,
        Err(e) => {
            return Err(e);
        },
    };
    let mut t = t0;
    let ghost loaded = t0.model();
    t.delete(&args.key);
    let out = t.write();
    proof {
        assert(t.model() =~~= (TableModel {
            last_update: loaded.last_update,
            entries: loaded.entries.filter(|e: EntryModel| e.key != args.key@),
        }));
        if stored is None {
            assert(loaded.entries.filter(|e: EntryModel| e.key != args.key@)
                =~= Seq::<EntryModel>::empty());
        }
    }
    Ok(out)
}

} // verus!
