use vstd::prelude::*;

verus! {

use vstd::utf8::{encode_utf8, decode_utf8, valid_utf8, encode_utf8_decode_utf8, decode_utf8_encode_utf8, encode_utf8_valid_utf8};
use vstd::string::StringSliceAdditionalSpecFns;
use crate::bytes::{u32_be_bytes, u64_be_bytes, be_u32_of, be_u64_of, push_u32_be, push_u64_be, read_u32_be, read_u64_be, push_bytes, bytes_range, lemma_u32_be_round_trip, lemma_u64_be_round_trip};
use crate::hashing::{hex_of, hex_decode_of, is_lower_hex_char, is_hex_char, hex_encode, hex_decode, lemma_hex_of_len, lemma_hex_reencode};
use crate::kvstore::{KvStore, lemma_kvstore_pairs_in_map};
use crate::strings::bytes_to_string;

/// One staged file: its repository-relative path, the identity of the blob
/// holding its content, its mode and the recorded file metadata.
pub struct IndexEntry {
    pub path: String,
    pub sha: String,
    pub mode: u32,
    pub mtime: u64,
    pub ctime: u64,
    pub size: u64,
}

/// The mathematical picture of one staged entry.
pub struct EntryModel {
    pub path: Seq<char>,
    pub sha: Seq<char>,
    pub mode: u32,
    pub mtime: u64,
    pub ctime: u64,
    pub size: u64,
}

impl View for IndexEntry {
    type V = EntryModel;

    open spec fn view(&self) -> EntryModel {
        EntryModel {
            path: self.path@,
            sha: self.sha@,
            mode: self.mode,
            mtime: self.mtime,
            ctime: self.ctime,
            size: self.size,
        }
    }
}

/// What every stored entry satisfies: a 40-character lowercase hexadecimal
/// identity and a path that fits the one-byte length of the record layout.
pub open spec fn entry_wf(e: EntryModel) -> bool {
    &&& e.sha.len() == 40
    &&& forall|i: int| 0 <= i < e.sha.len() ==> is_lower_hex_char(#[trigger] e.sha[i])
    &&& encode_utf8(e.path).len() <= 255
}

/// The bytes of one index record: the raw 20-byte identity, then mode,
/// modification time, change time and size big-endian, then the path,
/// length-prefixed by a single byte.
#[verifier::opaque]
pub open spec fn entry_record_of(e: EntryModel) -> Seq<u8> {
    hex_decode_of(e.sha) + u32_be_bytes(e.mode) + u64_be_bytes(e.mtime) + u64_be_bytes(e.ctime)
        + u64_be_bytes(e.size) + seq![encode_utf8(e.path).len() as u8] + encode_utf8(e.path)
}

/// The whole index file: the records of the entries, in order.
pub open spec fn index_bytes_of(models: Seq<EntryModel>) -> Seq<u8>
    decreases models.len(),
{
    if models.len() == 0 {
        Seq::empty()
    } else {
        entry_record_of(models[0]) + index_bytes_of(models.drop_first())
    }
}

#[verifier::rlimit(50)]
pub proof fn lemma_index_bytes_push(models: Seq<EntryModel>, m: EntryModel)
    ensures
        index_bytes_of(models.push(m)) == index_bytes_of(models) + entry_record_of(m),
    decreases models.len(),
{
    if models.len() == 0 {
        assert(models.push(m).drop_first() =~= Seq::<EntryModel>::empty());
        assert(models.push(m)[0] == m);
        assert(index_bytes_of(models.push(m)) == entry_record_of(m) + index_bytes_of(
            Seq::<EntryModel>::empty(),
        ));
        assert(index_bytes_of(models.push(m)) =~= index_bytes_of(models) + entry_record_of(m));
    } else {
        let s0 = entry_record_of(models[0]);
        let rest = models.drop_first();
        assert(models.push(m).drop_first() =~= rest.push(m));
        assert(models.push(m)[0] == models[0]);
        lemma_index_bytes_push(rest, m);
        assert(index_bytes_of(models.push(m)) == s0 + (index_bytes_of(rest) + entry_record_of(m)));
        assert(s0 + (index_bytes_of(rest) + entry_record_of(m)) =~= (s0 + index_bytes_of(rest))
            + entry_record_of(m));
    }
}

/// The entry that the record at the front of `data` denotes. Meaningful
/// when `data` is long enough for the record.
pub open spec fn record_model_of(data: Seq<u8>) -> EntryModel {
    EntryModel {
        sha: hex_of(data.subrange(0, 20)),
        mode: be_u32_of(data.subrange(20, 24)) as u32,
        mtime: be_u64_of(data.subrange(24, 32)) as u64,
        ctime: be_u64_of(data.subrange(32, 40)) as u64,
        size: be_u64_of(data.subrange(40, 48)) as u64,
        path: decode_utf8(data.subrange(49, 49 + data[48] as int)),
    }
}

/// The entries that an index file denotes, read record by record from the
/// front; reading stops at a truncated record or an ill-formed path.
pub open spec fn parse_index_of(data: Seq<u8>) -> Seq<EntryModel>
    decreases data.len(),
{
    if data.len() < 49 {
        Seq::empty()
    } else {
        let plen = data[48] as int;
        if 49 + plen > data.len() {
            Seq::empty()
        } else if !valid_utf8(data.subrange(49, 49 + plen)) {
            Seq::empty()
        } else {
            seq![record_model_of(data)] + parse_index_of(data.skip(49 + plen))
        }
    }
}

/// The map from staged path to entry that a sequence of entries denotes;
/// a later entry for the same path wins.
pub open spec fn index_map_of(models: Seq<EntryModel>) -> Map<Seq<char>, EntryModel>
    decreases models.len(),
{
    if models.len() == 0 {
        Map::empty()
    } else {
        index_map_of(models.drop_last()).insert(models.last().path, models.last())
    }
}

/// Serializing well-formed entries and parsing the bytes returns them.
#[verifier::rlimit(100)]
pub proof fn lemma_index_round_trip(models: Seq<EntryModel>)
    requires
        forall|i: int| 0 <= i < models.len() ==> entry_wf(#[trigger] models[i]),
    ensures
        parse_index_of(index_bytes_of(models)) == models,
    decreases models.len(),
{
    if models.len() == 0 {
        assert(parse_index_of(index_bytes_of(models)) =~= models);
    } else {
        let m = models[0];
        let rec = entry_record_of(m);
        let data = index_bytes_of(models);
        let pbytes = encode_utf8(m.path);
        let plen = pbytes.len() as int;
        reveal(crate::index::entry_record_of);
        lemma_hex_reencode(m.sha);
        assert(hex_decode_of(m.sha).len() == 20);
        assert(rec.len() == 49 + plen);
        assert(data =~= rec + index_bytes_of(models.drop_first()));
        assert(data.len() >= 49 + plen);
        assert(data[48] == plen as u8);
        assert(data.subrange(0, 20) =~= hex_decode_of(m.sha));
        assert(data.subrange(20, 24) =~= u32_be_bytes(m.mode));
        assert(data.subrange(24, 32) =~= u64_be_bytes(m.mtime));
        assert(data.subrange(32, 40) =~= u64_be_bytes(m.ctime));
        assert(data.subrange(40, 48) =~= u64_be_bytes(m.size));
        assert(data.subrange(49, 49 + plen) =~= pbytes);
        encode_utf8_valid_utf8(m.path);
        encode_utf8_decode_utf8(m.path);
        lemma_u32_be_round_trip(m.mode);
        lemma_u64_be_round_trip(m.mtime);
        lemma_u64_be_round_trip(m.ctime);
        lemma_u64_be_round_trip(m.size);
        assert(record_model_of(data) == m);
        assert(data.skip(49 + plen) =~= index_bytes_of(models.drop_first()));
        assert(forall|i: int|
            0 <= i < models.drop_first().len() ==> entry_wf(#[trigger] models.drop_first()[i]));
        lemma_index_round_trip(models.drop_first());
        assert(parse_index_of(data) =~= models);
    }
}

/// The staging area: one entry per repository-relative path.
pub struct Index {
    pub entries: KvStore<IndexEntry>,
}

impl Index {
    /// Every key of the map is the path of its entry, and every entry is
    /// well formed.
    pub open spec fn wf(&self) -> bool {
        &&& self.entries.wf()
        &&& forall|k: Seq<char>| #[trigger] self.entries@.contains_key(k) ==> self.entries@[k].path
            == k && entry_wf(self.entries@[k])
    }

    /// The entries in insertion order, as models.
    pub open spec fn models(&self) -> Seq<EntryModel> {
        self.entries.pairs_seq().map_values(|p: (String, IndexEntry)| p.1@)
    }

    /// An empty staging area.
    pub fn new() -> (r: Index)
        ensures
            r.wf(),
            r.entries@ == Map::<Seq<char>, EntryModel>::empty(),
            r.models().len() == 0,
    {
        let r = Index { entries: KvStore::new() };
        proof {
            assert(r.models() =~= Seq::<EntryModel>::empty());
        }
        r
    }

    /// Reads a staging area out of the bytes of an index file, record by
    /// record as `parse_index_of` describes; absent or empty bytes give an
    /// empty staging area.
    #[verifier::rlimit(100)]
    pub fn load(data: &[u8]) -> (r: Index)
        ensures
            r.wf(),
            r.entries@ == index_map_of(parse_index_of(data@)),
    {
        let mut index = Index::new();
        let ghost parsed: Seq<EntryModel> = Seq::empty();
        let mut i: usize = 0;
        let len = data.len();
        proof {
            assert(index_map_of(parsed) =~= index.entries@);
            assert(data@.skip(0) =~= data@);
            assert(parsed + parse_index_of(data@) =~= parse_index_of(data@));
        }
        loop
            invariant
                0 <= i <= len,
                len == data@.len(),
                index.wf(),
                index.entries@ == index_map_of(parsed),
                parse_index_of(data@) == parsed + parse_index_of(data@.skip(i as int)),
            ensures
                index.wf(),
                index.entries@ == index_map_of(parsed),
                parse_index_of(data@) == parsed,
            decreases len - i,
        {
            if len - i < 49 {
                proof {
                    assert(parse_index_of(data@.skip(i as int)) =~= Seq::<EntryModel>::empty());
                    assert(parsed + parse_index_of(data@.skip(i as int)) =~= parsed);
                }
                break;
            }
            let ghost rest = data@.skip(i as int);
            let sha_raw = bytes_range(data, i, i + 20);
            let mode = read_u32_be(data, i + 20);
            let mtime = read_u64_be(data, i + 24);
            let ctime = read_u64_be(data, i + 32);
            let size = read_u64_be(data, i + 40);
            let plen = data[i + 48] as usize;
            proof {
                assert(rest[48] == data@[i as int + 48]);
            }
            if len - i - 49 < plen {
                proof {
                    assert(49 + rest[48] as int > rest.len());
                    assert(parse_index_of(rest) =~= Seq::<EntryModel>::empty());
                    assert(parsed + parse_index_of(rest) =~= parsed);
                }
                break;
            }
            let path_bytes = bytes_range(data, i + 49, i + 49 + plen);
            proof {
                assert(path_bytes@ =~= rest.subrange(49, 49 + rest[48] as int));
            }
            let path = match bytes_to_string(path_bytes) {
                Some(p) => p,
                None => {
                    proof {
                        assert(parse_index_of(rest) =~= Seq::<EntryModel>::empty());
                        assert(parsed + parse_index_of(rest) =~= parsed);
                    }
                    break;
                },
            };
            let sha = hex_encode(sha_raw.as_slice());
            let entry = IndexEntry {
                path: path.clone(),
                sha,
                mode,
                mtime,
                ctime,
                size,
            };
            let ghost m = record_model_of(rest);
            proof {
                assert(rest.subrange(0, 20) =~= data@.subrange(i as int, i as int + 20));
                assert(rest.subrange(20, 24) =~= data@.subrange(i as int + 20, i as int + 24));
                assert(rest.subrange(24, 32) =~= data@.subrange(i as int + 24, i as int + 32));
                assert(rest.subrange(32, 40) =~= data@.subrange(i as int + 32, i as int + 40));
                assert(rest.subrange(40, 48) =~= data@.subrange(i as int + 40, i as int + 48));
                assert(entry@ == m);
                lemma_hex_of_len(sha_raw@);
                decode_utf8_encode_utf8(path_bytes@);
                assert(encode_utf8(m.path).len() == plen);
                assert(entry_wf(m));
                assert(parse_index_of(rest) == seq![m] + parse_index_of(rest.skip(49 + plen)));
                assert(rest.skip(49 + plen) =~= data@.skip(i as int + 49 + plen));
                assert(parsed.push(m).drop_last() =~= parsed);
                assert(index_map_of(parsed.push(m)) == index_map_of(parsed).insert(m.path, m));
                assert((parsed + parse_index_of(rest)) =~= (parsed.push(m) + parse_index_of(
                    data@.skip(i as int + 49 + plen),
                )));
            }
            index.entries.insert(path, entry);
            proof {
                parsed = parsed.push(m);
            }
            i = i + 49 + plen;
        }
        index
    }

    /// The bytes of the index file holding these entries, record by record
    /// in insertion order, as `index_bytes_of` describes.
    pub fn save(&self) -> (r: Vec<u8>)
        requires
            self.wf(),
        ensures
            r@ == index_bytes_of(self.models()),
    {
        let mut buf: Vec<u8> = Vec::new();
        let mut i: usize = 0;
        let n = self.entries.len();
        proof {
            assert(self.models().take(0) =~= Seq::<EntryModel>::empty());
            assert(buf@ =~= index_bytes_of(self.models().take(0)));
        }
        while i < n
            invariant
                0 <= i <= n,
                n == self.entries.pairs_seq().len(),
                self.wf(),
                buf@ == index_bytes_of(self.models().take(i as int)),
            decreases n - i,
        {
            let entry = self.entries.val_at(i);
            let ghost m = entry@;
            proof {
                lemma_kvstore_pairs_in_map(&self.entries, i as int);
                assert(entry_wf(m));
                assert(forall|j: int| 0 <= j < 40 ==> is_hex_char(#[trigger] m.sha[j]));
            }
            let sha_raw = match hex_decode(entry.sha.as_str()) {
                Some(v) => v,
                None => {
                    proof {
                        assert(false);
                    }
                    Vec::new()
                },
            };
            proof {
                lemma_hex_reencode(m.sha);
            }
            push_bytes(&mut buf, sha_raw.as_slice());
            push_u32_be(&mut buf, entry.mode);
            push_u64_be(&mut buf, entry.mtime);
            push_u64_be(&mut buf, entry.ctime);
            push_u64_be(&mut buf, entry.size);
            let path_bytes = entry.path.as_str().as_bytes();
            buf.push(path_bytes.len() as u8);
            push_bytes(&mut buf, path_bytes);
            proof {
                reveal(crate::index::entry_record_of);
                assert(buf@ =~= index_bytes_of(self.models().take(i as int)) + entry_record_of(m));
                lemma_index_bytes_push(self.models().take(i as int), m);
                assert(self.models().take(i as int).push(m) =~= self.models().take(i as int + 1));
            }
            i += 1;
        }
        proof {
            assert(self.models().take(n as int) =~= self.models());
        }
        buf
    }

    /// Stages a file: records `sha` and the given metadata under the
    /// repository-relative `rel_path`, replacing any entry for that path.
    pub fn stage_file(&mut self, rel_path: String, sha: String, mode: u32, mtime: u64, ctime: u64, size: u64)
        requires
            old(self).wf(),
            sha@.len() == 40,
            forall|i: int| 0 <= i < sha@.len() ==> is_lower_hex_char(#[trigger] sha@[i]),
            1 <= encode_utf8(rel_path@).len() <= 255,
        ensures
            final(self).wf(),
            final(self).entries@ == old(self).entries@.insert(
                rel_path@,
                EntryModel { path: rel_path@, sha: sha@, mode, mtime, ctime, size },
            ),
    {
        let entry = IndexEntry { path: rel_path.clone(), sha, mode, mtime, ctime, size };
        self.entries.insert(rel_path, entry);
    }

    /// Removes the entry for `rel_path`; staging without it is unchanged.
    pub fn unstage_file(&mut self, rel_path: &str)
        requires
            old(self).wf(),
        ensures
            final(self).wf(),
            final(self).entries@ == old(self).entries@.remove(rel_path@),
    {
        self.entries.remove(rel_path);
    }

    /// Empties the staging area.
    pub fn clear(&mut self)
        ensures
            final(self).wf(),
            final(self).entries@ == Map::<Seq<char>, EntryModel>::empty(),
    {
        self.entries.clear();
    }
}

} // verus!
