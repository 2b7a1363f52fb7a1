//! The snapshot manager: a compact binary encoding of the full key space,
//! written on every checkpoint and read back once at startup.
//!
//! Layout of a snapshot: the timestamp as eight little-endian bytes, the
//! entry count as eight little-endian bytes, then each entry as its key's
//! byte length, the key's UTF-8 bytes, the value's byte length and the
//! value bytes.
use vstd::prelude::*;
use vstd::bytes::{spec_u64_from_le_bytes, spec_u64_to_le_bytes, u64_from_le_bytes, u64_to_le_bytes};
use vstd::bytes::lemma_auto_spec_u64_to_from_le_bytes;
use vstd::slice::{slice_subrange, slice_to_vec};
use vstd::utf8::{decode_utf8, encode_utf8, valid_utf8, encode_utf8_valid_utf8,
    encode_utf8_decode_utf8};
use crate::store::entry_views;
use crate::NoahError;

verus! {

/// A full, timestamped copy of all entries, the unit of persistence.
#[derive(Debug)]
pub struct Snapshot {
    pub timestamp: u64,
    pub data: Vec<(String, Vec<u8>)>,
}

/// The shape of one record of an incremental operation log. The log is
/// provisioned in the data model but never written or read: every
/// checkpoint is a full snapshot rewrite.
pub enum Operation {
    SetEntry { key: String, value: Vec<u8> },
    DeleteEntry { key: String },
}

/// The bytes of one encoded entry.
pub open spec fn spec_encode_entry(k: Seq<char>, v: Seq<u8>) -> Seq<u8> {
    spec_u64_to_le_bytes(encode_utf8(k).len() as u64) + encode_utf8(k) + spec_u64_to_le_bytes(
        v.len() as u64,
    ) + v
}

/// The bytes of a sequence of encoded entries, in order.
pub open spec fn spec_encode_entries(es: Seq<(Seq<char>, Seq<u8>)>) -> Seq<u8>
    decreases es.len(),
{
    if es.len() == 0 {
        Seq::empty()
    } else {
        spec_encode_entry(es.first().0, es.first().1) + spec_encode_entries(es.drop_first())
    }
}

/// The bytes of a whole snapshot.
pub open spec fn spec_encode_snapshot(timestamp: u64, es: Seq<(Seq<char>, Seq<u8>)>) -> Seq<u8> {
    spec_u64_to_le_bytes(timestamp) + spec_u64_to_le_bytes(es.len() as u64) + spec_encode_entries(
        es,
    )
}

/// Encoding entries one step further appends one encoded entry.
proof fn lemma_encode_entries_snoc(es: Seq<(Seq<char>, Seq<u8>)>, i: int)
    requires
        0 <= i < es.len(),
    ensures
        spec_encode_entries(es.take(i + 1)) == spec_encode_entries(es.take(i))
            + spec_encode_entry(es[i].0, es[i].1),
    decreases i,
{
    if i == 0 {
        assert(es.take(1).first() == es[0]);
        assert(es.take(1).drop_first() =~= Seq::<(Seq<char>, Seq<u8>)>::empty());
        assert(es.take(0) =~= Seq::<(Seq<char>, Seq<u8>)>::empty());
        assert(spec_encode_entries(es.take(1)) =~= spec_encode_entries(es.take(0))
            + spec_encode_entry(es[0].0, es[0].1));
    } else {
        let rest = es.drop_first();
        assert(es.take(i + 1).first() == es[0]);
        assert(es.take(i).first() == es[0]);
        assert(es.take(i + 1).drop_first() =~= rest.take(i));
        assert(es.take(i).drop_first() =~= rest.take(i - 1));
        lemma_encode_entries_snoc(rest, i - 1);
        assert(rest[i - 1] == es[i]);
        let e0 = spec_encode_entry(es[0].0, es[0].1);
        let x = spec_encode_entries(rest.take(i - 1));
        let e = spec_encode_entry(es[i].0, es[i].1);
        assert(e0 + (x + e) =~= (e0 + x) + e);
    }
}

/// Encode a snapshot to its binary layout.
pub fn encode_snapshot(snapshot: &Snapshot) -> (bytes: Vec<u8>)
    ensures
        bytes@ == spec_encode_snapshot(snapshot.timestamp, entry_views(snapshot.data@)),
{
    let ghost es = entry_views(snapshot.data@);
    let n = snapshot.data.len();
    let mut bytes = u64_to_le_bytes(snapshot.timestamp);
    let mut count = u64_to_le_bytes(n as u64);
    bytes.append(&mut count);
    let ghost header = bytes@;
    let mut i: usize = 0;
    while i < n
        invariant
            es == entry_views(snapshot.data@),
            n == snapshot.data@.len(),
            i <= n,
            header == spec_u64_to_le_bytes(snapshot.timestamp) + spec_u64_to_le_bytes(
                es.len() as u64,
            ),
            bytes@ == header + spec_encode_entries(es.take(i as int)),
        decreases n - i,
    {
        let kb = snapshot.data[i].0.as_str().as_bytes_vec();
        let mut klen = u64_to_le_bytes(kb.len() as u64);
        let vref = &snapshot.data[i].1;
        let mut vlen = u64_to_le_bytes(vref.len() as u64);
        bytes.append(&mut klen);
        let mut kb = kb;
        bytes.append(&mut kb);
        bytes.append(&mut vlen);
        let mut vcopy = slice_to_vec(vref.as_slice());
        bytes.append(&mut vcopy);
        proof {
            lemma_encode_entries_snoc(es, i as int);
            assert(bytes@ =~= header + spec_encode_entries(es.take(i as int + 1)));
        }
        i += 1;
    }
    proof {
        assert(es.take(n as int) =~= es);
    }
    bytes
}

/// The entries that a byte stream holds, when it parses as exactly `n`
/// encoded entries with nothing left over.
pub open spec fn spec_decode_entries(bytes: Seq<u8>, n: nat) -> Option<Seq<(Seq<char>, Seq<u8>)>>
    decreases n,
{
    if n == 0 {
        if bytes.len() == 0 {
            Some(Seq::empty())
        } else {
            None
        }
    } else if bytes.len() < 8 {
        None
    } else {
        let klen = spec_u64_from_le_bytes(bytes.take(8)) as int;
        if bytes.len() < 8 + klen {
            None
        } else {
            let kb = bytes.subrange(8, 8 + klen);
            if !valid_utf8(kb) {
                None
            } else {
                let rest1 = bytes.skip(8 + klen);
                if rest1.len() < 8 {
                    None
                } else {
                    let vlen = spec_u64_from_le_bytes(rest1.take(8)) as int;
                    if rest1.len() < 8 + vlen {
                        None
                    } else {
                        let v = rest1.subrange(8, 8 + vlen);
                        match spec_decode_entries(rest1.skip(8 + vlen), (n - 1) as nat) {
                            Some(es) => Some(seq![(decode_utf8(kb), v)] + es),
                            None => None,
                        }
                    }
                }
            }
        }
    }
}

/// The timestamp and entries that a whole byte stream holds, when it
/// parses as a snapshot.
pub open spec fn spec_decode_snapshot(bytes: Seq<u8>) -> Option<(u64, Seq<(Seq<char>, Seq<u8>)>)> {
    if bytes.len() < 16 {
        None
    } else {
        let ts = spec_u64_from_le_bytes(bytes.take(8));
        let count = spec_u64_from_le_bytes(bytes.subrange(8, 16));
        match spec_decode_entries(bytes.skip(16), count as nat) {
            Some(es) => Some((ts, es)),
            None => None,
        }
    }
}

/// An entry sequence is encodable when every length in it fits the
/// fixed-width length fields of the layout.
pub open spec fn encodable(es: Seq<(Seq<char>, Seq<u8>)>) -> bool {
    &&& es.len() <= u64::MAX
    &&& forall|i: int|
        0 <= i < es.len() ==> encode_utf8(#[trigger] es[i].0).len() <= u64::MAX
            && es[i].1.len() <= u64::MAX
}

/// Law: decoding an encoded entry stream restores it exactly.
pub proof fn lemma_entries_round_trip(es: Seq<(Seq<char>, Seq<u8>)>)
    requires
        encodable(es),
    ensures
        spec_decode_entries(spec_encode_entries(es), es.len()) == Some(es),
    decreases es.len(),
{
    lemma_auto_spec_u64_to_from_le_bytes();
    if es.len() == 0 {
        assert(spec_encode_entries(es).len() == 0);
    } else {
        let k = es.first().0;
        let v = es.first().1;
        let kb = encode_utf8(k);
        let klen = kb.len() as int;
        let vlen = v.len() as int;
        let rest = spec_encode_entries(es.drop_first());
        let enc = spec_encode_entries(es);
        encode_utf8_valid_utf8(k);
        encode_utf8_decode_utf8(k);
        assert(enc == spec_encode_entry(k, v) + rest);
        assert(enc.take(8) =~= spec_u64_to_le_bytes(kb.len() as u64));
        assert(spec_u64_from_le_bytes(enc.take(8)) as int == klen);
        assert(enc.len() >= 8 + klen);
        assert(enc.subrange(8, 8 + klen) =~= kb);
        let rest1 = enc.skip(8 + klen);
        assert(rest1 =~= spec_u64_to_le_bytes(v.len() as u64) + v + rest);
        assert(rest1.take(8) =~= spec_u64_to_le_bytes(v.len() as u64));
        assert(spec_u64_from_le_bytes(rest1.take(8)) as int == vlen);
        assert(rest1.len() >= 8 + vlen);
        assert(rest1.subrange(8, 8 + vlen) =~= v);
        assert(rest1.skip(8 + vlen) =~= rest);
        assert(encodable(es.drop_first())) by {
            assert(forall|i: int|
                0 <= i < es.drop_first().len() ==> #[trigger] es.drop_first()[i] == es[i + 1]);
        }
        lemma_entries_round_trip(es.drop_first());
        assert(seq![(decode_utf8(kb), v)] + es.drop_first() =~= es);
    }
}

/// Law: decoding an encoded snapshot restores its timestamp and its
/// entries exactly, for any finite entry set, including empty values and
/// keys of non-ASCII text.
pub proof fn lemma_snapshot_round_trip(timestamp: u64, es: Seq<(Seq<char>, Seq<u8>)>)
    requires
        encodable(es),
    ensures
        spec_decode_snapshot(spec_encode_snapshot(timestamp, es)) == Some((timestamp, es)),
{
    lemma_auto_spec_u64_to_from_le_bytes();
    let enc = spec_encode_snapshot(timestamp, es);
    assert(enc.take(8) =~= spec_u64_to_le_bytes(timestamp));
    assert(enc.subrange(8, 16) =~= spec_u64_to_le_bytes(es.len() as u64));
    assert(enc.skip(16) =~= spec_encode_entries(es));
    lemma_entries_round_trip(es);
    assert(spec_u64_from_le_bytes(enc.subrange(8, 16)) as nat == es.len());
}

/// Relies on String::from_utf8: it returns the decoded text exactly when
/// the bytes are valid UTF-8, and an error otherwise.
#[verifier::external_body]
fn string_from_utf8(bytes: Vec<u8>) -> (r: Option<String>)
    ensures
        r is Some <==> valid_utf8(bytes@),
        r matches Some(s) ==> s@ == decode_utf8(bytes@),
{
    match String::from_utf8(bytes) {
        Ok(s) => Some(s),
        Err(_) => None,
    }
}

/// Parse exactly `n` encoded entries from `bytes` at `pos` to its end.
fn decode_entries(bytes: &Vec<u8>, pos: usize, n: u64) -> (r: Option<Vec<(String, Vec<u8>)>>)
    requires
        pos <= bytes@.len(),
    ensures
        match r {
            Some(data) => spec_decode_entries(bytes@.skip(pos as int), n as nat) == Some(
                entry_views(data@),
            ),
            None => spec_decode_entries(bytes@.skip(pos as int), n as nat) is None,
        },
    decreases n,
{
    let ghost tail = bytes@.skip(pos as int);
    if n == 0 {
        if pos == bytes.len() {
            let data: Vec<(String, Vec<u8>)> = Vec::new();
            proof {
                assert(entry_views(data@) =~= Seq::<(Seq<char>, Seq<u8>)>::empty());
            }
            Some(data)
        } else {
            None
        }
    } else {
        if bytes.len() - pos < 8 {
            return None;
        }
        let klen_slice = slice_subrange(bytes.as_slice(), pos, pos + 8);
        let klen64 = u64_from_le_bytes(klen_slice);
        proof {
            assert(klen_slice@ =~= tail.take(8));
        }
        if ((bytes.len() - (pos + 8)) as u64) < klen64 {
            proof {
                assert(tail.len() < 8 + spec_u64_from_le_bytes(tail.take(8)) as int);
            }
            return None;
        }
        let klen = klen64 as usize;
        let kpos = pos + 8;
        let kb = slice_to_vec(slice_subrange(bytes.as_slice(), kpos, kpos + klen));
        proof {
            assert(kb@ =~= tail.subrange(8, 8 + klen as int));
        }
        let key = match string_from_utf8(kb) {
            Some(key) => key,
            None => {
                return None;
            },
        };
        let vlen_pos = kpos + klen;
        let ghost rest1 = tail.skip(8 + klen as int);
        proof {
            assert(rest1 =~= bytes@.skip(vlen_pos as int));
        }
        if bytes.len() - vlen_pos < 8 {
            return None;
        }
        let vlen_slice = slice_subrange(bytes.as_slice(), vlen_pos, vlen_pos + 8);
        let vlen64 = u64_from_le_bytes(vlen_slice);
        proof {
            assert(vlen_slice@ =~= rest1.take(8));
        }
        if ((bytes.len() - (vlen_pos + 8)) as u64) < vlen64 {
            proof {
                assert(rest1.len() < 8 + spec_u64_from_le_bytes(rest1.take(8)) as int);
            }
            return None;
        }
        let vlen = vlen64 as usize;
        let vpos = vlen_pos + 8;
        let value = slice_to_vec(slice_subrange(bytes.as_slice(), vpos, vpos + vlen));
        proof {
            assert(value@ =~= rest1.subrange(8, 8 + vlen as int));
        }
        let next_pos = vpos + vlen;
        proof {
            assert(rest1.skip(8 + vlen as int) =~= bytes@.skip(next_pos as int));
        }
        match decode_entries(bytes, next_pos, n - 1) {
            Some(mut data) => {
                let ghost rest_views = entry_views(data@);
                data.insert(0, (key, value));
                proof {
                    assert(entry_views(data@) =~= seq![(key@, value@)] + rest_views);
                }
                Some(data)
            },
            None => None,
        }
    }
}

/// Decode a snapshot from its binary layout; corrupt bytes are an error,
/// never silently dropped state.
pub fn decode_snapshot(bytes: &Vec<u8>) -> (r: Result<Snapshot, NoahError>)
    ensures
        match r {
            Ok(s) => spec_decode_snapshot(bytes@) == Some((s.timestamp, entry_views(s.data@))),
            Err(e) => spec_decode_snapshot(bytes@) is None && e is InvalidOperation,
        },
{
    if bytes.len() < 16 {
        return Err(NoahError::InvalidOperation(String::from_str("snapshot too short")));
    }
    let ts_slice = slice_subrange(bytes.as_slice(), 0, 8);
    let timestamp = u64_from_le_bytes(ts_slice);
    let count_slice = slice_subrange(bytes.as_slice(), 8, 16);
    let count = u64_from_le_bytes(count_slice);
    proof {
        assert(ts_slice@ =~= bytes@.take(8));
        assert(count_slice@ =~= bytes@.subrange(8, 16));
    }
    match decode_entries(bytes, 16, count) {
        Some(data) => Ok(Snapshot { timestamp, data }),
        None => Err(NoahError::InvalidOperation(String::from_str("snapshot failed to decode"))),
    }
}

/// Owns the well-known file locations under the data directory and turns
/// store contents into snapshot bytes and back. Reading and writing the
/// files themselves is the caller's part.
pub struct PersistenceManager {
    snapshot_path: String,
    aof_path: String,
}

impl PersistenceManager {
    /// Where the snapshot file lives.
    pub closed spec fn spec_snapshot_path(&self) -> Seq<char> {
        self.snapshot_path@
    }

    /// Where an incremental log would live; provisioned, never used.
    pub closed spec fn spec_aof_path(&self) -> Seq<char> {
        self.aof_path@
    }

    pub fn new(data_dir: &str) -> (m: Self)
        ensures
            m.spec_snapshot_path() == data_dir@ + "/snapshot.rdb"@,
            m.spec_aof_path() == data_dir@ + "/appendonly.aof"@,
    {
        PersistenceManager {
            snapshot_path: data_dir.to_owned().concat("/snapshot.rdb"),
            aof_path: data_dir.to_owned().concat("/appendonly.aof"),
        }
    }

    pub fn snapshot_path(&self) -> (p: &str)
        ensures
            p@ == self.spec_snapshot_path(),
    {
        self.snapshot_path.as_str()
    }

    pub fn aof_path(&self) -> (p: &str)
        ensures
            p@ == self.spec_aof_path(),
    {
        self.aof_path.as_str()
    }

    /// The bytes to write (to a temporary location first, then moved into
    /// place, so that no half-written file ever stands at the snapshot
    /// path) for a checkpoint taken at `timestamp`.
    pub fn save_snapshot(&self, timestamp: u64, data: Vec<(String, Vec<u8>)>) -> (bytes: Vec<u8>)
        ensures
            bytes@ == spec_encode_snapshot(timestamp, entry_views(data@)),
    {
        encode_snapshot(&Snapshot { timestamp, data })
    }

    /// The startup entry set, from what the disk offered: no file at all is
    /// a fresh start with no entries, not an error, while a file that fails
    /// to decode is fatal to startup.
    pub fn load_snapshot(&self, file: Option<Vec<u8>>) -> (r: Result<
        Vec<(String, Vec<u8>)>,
        NoahError,
    >)
        ensures
            match file {
                Some(b) => match r {
                    Ok(d) => spec_decode_snapshot(b@) matches Some(p) && p.1 == entry_views(d@),
                    Err(e) => spec_decode_snapshot(b@) is None && e is InvalidOperation,
                },
                None => r matches Ok(d) && d@.len() == 0,
            },
    {
        match file {
            Some(b) => match decode_snapshot(&b) {
                Ok(snapshot) => Ok(snapshot.data),
                Err(e) => Err(e),
            },
            None => Ok(Vec::new()),
        }
    }
}

} // verus!
