use vstd::prelude::*;

verus! {

use vstd::string::StrSliceExecFns;
use vstd::utf8::{encode_utf8, decode_utf8, valid_utf8, encode_utf8_decode_utf8, decode_utf8_encode_utf8, encode_utf8_valid_utf8};
use crate::bytes::{oct_digits, oct_bytes, oct_val_of, is_oct_digit, parse_oct, first_pos_of, lemma_first_pos_at, lemma_oct_round_trip, lemma_oct_digits_are_digits, find_byte, push_bytes, bytes_range};
use crate::error::GitError;
use crate::hashing::{hex_of, hex_decode_of, is_lower_hex_char, is_hex_char, hex_encode, hex_decode, lemma_hex_of_len, lemma_hex_reencode};
use crate::object::{Object, ObjectStore, tree_kind, id_of, raw_bytes_of};
use vstd::multiset::Multiset;
use crate::index::{Index, entry_wf};
use crate::kvstore::KvStore;
use crate::strings::{no_nul_chars, str_eq, parent_dir, base_name, parent_dir_of, base_name_of, last_slash_of, lemma_no_nul_encode, path_join_of, path_ok, is_cut, path_under, lemma_join_parent_base, lemma_under_parent, lemma_cut_at_most_parent, lemma_cut_of_cut, lemma_shorter_cut, lemma_equal_cuts, lemma_under_trans, lemma_path_decompose, lemma_cut_path_ok, lemma_parent_two_shorter, lemma_encode_at_least_len};
use crate::object::objects_consistent;
use crate::hashing::sha1_collision_free;
use crate::index::EntryModel;
use crate::object::{load_result, strip_header_of};

/// One child of a directory snapshot: its name, the identity of the object
/// holding it, its mode, and whether it is a subdirectory.
#[derive(Debug, PartialEq, Eq)]
pub struct TreeEntry {
    pub name: String,
    pub hash: String,
    pub mode: u32,
    pub is_dir: bool,
}

/// The mathematical picture of one tree entry.
pub struct TreeEntryModel {
    pub name: Seq<char>,
    pub hash: Seq<char>,
    pub mode: u32,
    pub is_dir: bool,
}

impl View for TreeEntry {
    type V = TreeEntryModel;

    open spec fn view(&self) -> TreeEntryModel {
        TreeEntryModel { name: self.name@, hash: self.hash@, mode: self.mode, is_dir: self.is_dir }
    }
}

/// What every serializable tree entry satisfies: a 40-character lowercase
/// hexadecimal identity, a name free of null bytes, and a directory flag
/// that agrees with the directory mode.
pub open spec fn tree_entry_wf(e: TreeEntryModel) -> bool {
    &&& e.hash.len() == 40
    &&& forall|i: int| 0 <= i < e.hash.len() ==> is_lower_hex_char(#[trigger] e.hash[i])
    &&& forall|i: int| 0 <= i < encode_utf8(e.name).len() ==> #[trigger] encode_utf8(e.name)[i]
        != 0
    &&& e.is_dir == (e.mode == 0o40000u32)
}

/// The bytes of one tree record: the mode in octal, a space, the name, a
/// null byte, and the raw 20-byte identity.
#[verifier::opaque]
pub open spec fn tree_record_of(e: TreeEntryModel) -> Seq<u8> {
    oct_digits(e.mode as nat) + seq![0x20u8] + encode_utf8(e.name) + seq![0u8] + hex_decode_of(
        e.hash,
    )
}

/// The payload of a tree object: the records of its entries, in order.
pub open spec fn tree_bytes_of(entries: Seq<TreeEntryModel>) -> Seq<u8>
    decreases entries.len(),
{
    if entries.len() == 0 {
        Seq::empty()
    } else {
        tree_record_of(entries[0]) + tree_bytes_of(entries.drop_first())
    }
}

#[verifier::rlimit(50)]
pub proof fn lemma_tree_bytes_push(entries: Seq<TreeEntryModel>, e: TreeEntryModel)
    ensures
        tree_bytes_of(entries.push(e)) == tree_bytes_of(entries) + tree_record_of(e),
    decreases entries.len(),
{
    if entries.len() == 0 {
        assert(entries.push(e).drop_first() =~= Seq::<TreeEntryModel>::empty());
        assert(entries.push(e)[0] == e);
        assert(tree_bytes_of(entries.push(e)) == tree_record_of(e) + tree_bytes_of(
            Seq::<TreeEntryModel>::empty(),
        ));
        assert(tree_bytes_of(entries.push(e)) =~= tree_bytes_of(entries) + tree_record_of(e));
    } else {
        let s0 = tree_record_of(entries[0]);
        let rest = entries.drop_first();
        assert(entries.push(e).drop_first() =~= rest.push(e));
        assert(entries.push(e)[0] == entries[0]);
        lemma_tree_bytes_push(rest, e);
        assert(tree_bytes_of(entries.push(e)) == s0 + (tree_bytes_of(rest) + tree_record_of(e)));
        assert(s0 + (tree_bytes_of(rest) + tree_record_of(e)) =~= (s0 + tree_bytes_of(rest))
            + tree_record_of(e));
    }
}

/// The entries that a tree payload denotes: records read from the front,
/// each a space-terminated octal mode, a null-terminated name, and 20 raw
/// identity bytes. A payload whose bytes end mid-record, whose mode is no
/// octal number, or whose name is no character sequence denotes nothing.
pub open spec fn parse_tree_of(data: Seq<u8>) -> Option<Seq<TreeEntryModel>>
    decreases data.len(),
{
    if data.len() == 0 {
        Some(Seq::empty())
    } else {
        let sp = first_pos_of(data, 0x20);
        if !(0 <= sp < data.len()) {
            None
        } else {
            let mode_bytes = data.subrange(0, sp);
            if !(mode_bytes.len() > 0 && (forall|i: int|
                0 <= i < mode_bytes.len() ==> is_oct_digit(#[trigger] mode_bytes[i]))
                && oct_val_of(mode_bytes) <= u32::MAX) {
                None
            } else {
                let rest1 = data.skip(sp + 1);
                let nul = first_pos_of(rest1, 0);
                if !(0 <= nul < rest1.len()) {
                    None
                } else {
                    let name_bytes = rest1.subrange(0, nul);
                    if !valid_utf8(name_bytes) {
                        None
                    } else {
                        let rest2 = rest1.skip(nul + 1);
                        if rest2.len() < 20 {
                            None
                        } else {
                            let mode = oct_val_of(mode_bytes) as u32;
                            let e = TreeEntryModel {
                                name: decode_utf8(name_bytes),
                                hash: hex_of(rest2.subrange(0, 20)),
                                mode,
                                is_dir: mode == 0o40000u32,
                            };
                            match parse_tree_of(rest2.skip(20)) {
                                Some(es) => Some(seq![e] + es),
                                None => None,
                            }
                        }
                    }
                }
            }
        }
    }
}

/// Serializing well-formed tree entries and parsing the payload returns
/// them: names, identities, modes and directory flags all round-trip.
#[verifier::spinoff_prover]
#[verifier::rlimit(100)]
pub proof fn lemma_tree_round_trip(entries: Seq<TreeEntryModel>)
    requires
        forall|i: int| 0 <= i < entries.len() ==> tree_entry_wf(#[trigger] entries[i]),
    ensures
        parse_tree_of(tree_bytes_of(entries)) == Some(entries),
    decreases entries.len(),
{
    reveal(crate::tree::tree_record_of);
    if entries.len() == 0 {
        assert(parse_tree_of(tree_bytes_of(entries)) =~~= Some(entries));
    } else {
        let e = entries[0];
        let data = tree_bytes_of(entries);
        let rec = tree_record_of(e);
        let tail = tree_bytes_of(entries.drop_first());
        let mode_bytes = oct_digits(e.mode as nat);
        let mlen = mode_bytes.len() as int;
        let name_bytes = encode_utf8(e.name);
        let nlen = name_bytes.len() as int;
        lemma_hex_reencode(e.hash);
        let sha_bytes = hex_decode_of(e.hash);
        assert(sha_bytes.len() == 20);
        lemma_oct_round_trip(e.mode as nat);
        lemma_oct_digits_are_digits(e.mode as nat);
        assert(data =~= rec + tail);
        assert(rec.len() == mlen + 1 + nlen + 1 + 20);
        assert(data.len() > 0);

        assert(data[mlen] == 0x20u8);
        assert(forall|j: int| 0 <= j < mlen ==> data[j] != 0x20u8);
        lemma_first_pos_at(data, 0x20, mlen);
        assert(data.subrange(0, mlen) =~= mode_bytes);

        let rest1 = data.skip(mlen + 1);
        assert(rest1 =~= name_bytes + seq![0u8] + sha_bytes + tail);
        assert(rest1[nlen] == 0u8);
        assert(forall|j: int| 0 <= j < nlen ==> rest1[j] == name_bytes[j] && rest1[j] != 0u8);
        lemma_first_pos_at(rest1, 0, nlen);
        assert(rest1.subrange(0, nlen) =~= name_bytes);
        encode_utf8_valid_utf8(e.name);
        encode_utf8_decode_utf8(e.name);

        let rest2 = rest1.skip(nlen + 1);
        assert(rest2 =~= sha_bytes + tail);
        assert(rest2.len() >= 20);
        assert(rest2.subrange(0, 20) =~= sha_bytes);
        assert(hex_of(rest2.subrange(0, 20)) == e.hash);

        assert(rest2.skip(20) =~= tail);
        assert(forall|i: int|
            0 <= i < entries.drop_first().len() ==> tree_entry_wf(
                #[trigger] entries.drop_first()[i],
            ));
        lemma_tree_round_trip(entries.drop_first());
        let parsed_e = TreeEntryModel {
            name: decode_utf8(name_bytes),
            hash: hex_of(rest2.subrange(0, 20)),
            mode: oct_val_of(mode_bytes) as u32,
            is_dir: oct_val_of(mode_bytes) as u32 == 0o40000u32,
        };
        assert(parsed_e == e);
        assert(seq![e] + entries.drop_first() =~= entries);
    }
}

/// Builds tree objects from the staging area and reads them back.
pub struct TreeProcessor;

impl TreeProcessor {
    /// The payload bytes of a tree object holding these entries, record by
    /// record in order, as `tree_bytes_of` describes.
    pub fn serialize_tree(entries: &Vec<TreeEntry>) -> (r: Vec<u8>)
        requires
            forall|i: int| 0 <= i < entries@.len() ==> tree_entry_wf(#[trigger] entries@[i]@),
        ensures
            r@ == tree_bytes_of(entries@.map_values(|e: TreeEntry| e@)),
    {
        let ghost models = entries@.map_values(|e: TreeEntry| e@);
        let mut buf: Vec<u8> = Vec::new();
        let mut i: usize = 0;
        proof {
            assert(models.take(0) =~= Seq::<TreeEntryModel>::empty());
            assert(buf@ =~= tree_bytes_of(models.take(0)));
        }
        while i < entries.len()
            invariant
                0 <= i <= entries@.len(),
                models == entries@.map_values(|e: TreeEntry| e@),
                forall|j: int| 0 <= j < entries@.len() ==> tree_entry_wf(#[trigger] entries@[j]@),
                buf@ == tree_bytes_of(models.take(i as int)),
            decreases entries@.len() - i,
        {
            let entry = &entries[i];
            let ghost m = entry@;
            proof {
                assert(entries@[i as int]@ == m);
                assert(tree_entry_wf(m));
                assert(forall|j: int| 0 <= j < 40 ==> is_hex_char(#[trigger] m.hash[j]));
            }
            let mode_bytes = oct_bytes(entry.mode);
            push_bytes(&mut buf, mode_bytes.as_slice());
            buf.push(0x20);
            let name_bytes = entry.name.as_str().as_bytes();
            push_bytes(&mut buf, name_bytes);
            buf.push(0);
            let sha_raw = match hex_decode(entry.hash.as_str()) {
                Some(v) => v,
                None => {
                    proof {
                        assert(false);
                    }
                    Vec::new()
                },
            };
            proof {
                lemma_hex_reencode(m.hash);
            }
            push_bytes(&mut buf, sha_raw.as_slice());
            proof {
                reveal(crate::tree::tree_record_of);
                assert(buf@ =~= tree_bytes_of(models.take(i as int)) + tree_record_of(m));
                lemma_tree_bytes_push(models.take(i as int), m);
                assert(models.take(i as int).push(m) =~= models.take(i as int + 1));
            }
            i += 1;
        }
        proof {
            assert(models.take(entries@.len() as int) =~= models);
        }
        buf
    }

    /// Reads the entries out of a tree payload, as `parse_tree_of`
    /// describes; a payload that ends mid-record is a malformed object.
    #[verifier::rlimit(100)]
    pub fn parse_tree(tree_data: &[u8]) -> (r: Result<Vec<TreeEntry>, GitError>)
        ensures
            match r {
                Ok(es) => parse_tree_of(tree_data@) == Some(
                    es@.map_values(|e: TreeEntry| e@),
                ) && forall|j: int| 0 <= j < es@.len() ==> hash_str_wf(#[trigger] es@[j]@.hash),
                Err(e) => e == GitError::MalformedObject && parse_tree_of(tree_data@) is None,
            },
    {
        let mut entries: Vec<TreeEntry> = Vec::new();
        let ghost parsed: Seq<TreeEntryModel> = Seq::empty();
        let mut i: usize = 0;
        let len = tree_data.len();
        proof {
            assert(tree_data@.skip(0) =~= tree_data@);
        }
        while i < len
            invariant
                0 <= i <= len,
                len == tree_data@.len(),
                parsed == entries@.map_values(|e: TreeEntry| e@),
                forall|j: int| 0 <= j < entries@.len() ==> hash_str_wf(
                    #[trigger] entries@[j]@.hash,
                ),
                forall|rest: Seq<TreeEntryModel>|
                    parse_tree_of(tree_data@.skip(i as int)) == Some(rest)
                        ==> parse_tree_of(tree_data@) == Some(parsed + rest),
                parse_tree_of(tree_data@.skip(i as int)) is None ==> parse_tree_of(tree_data@)
                    is None,
            decreases len - i,
        {
            let ghost rest0 = tree_data@.skip(i as int);
            let sp = match find_byte(tree_data, 0x20, i) {
                Some(p) => p,
                None => {
                    proof {
                        lemma_first_pos_at(rest0, 0x20, rest0.len() as int);
                    }
                    return Err(GitError::MalformedObject);
                },
            };
            proof {
                lemma_first_pos_at(rest0, 0x20, sp - i);
            }
            let mode_slice = vstd::slice::slice_subrange(tree_data, i, sp);
            proof {
                assert(mode_slice@ =~= rest0.subrange(0, sp - i));
            }
            let mode = match parse_oct(mode_slice) {
                Some(m) => m,
                None => {
                    return Err(GitError::MalformedObject);
                },
            };
            let ghost rest1 = rest0.skip(sp - i + 1);
            proof {
                assert(rest1 =~= tree_data@.skip(sp as int + 1));
            }
            let nul = match find_byte(tree_data, 0, sp + 1) {
                Some(p) => p,
                None => {
                    proof {
                        lemma_first_pos_at(rest1, 0, rest1.len() as int);
                    }
                    return Err(GitError::MalformedObject);
                },
            };
            proof {
                lemma_first_pos_at(rest1, 0, nul - sp - 1);
            }
            let name_bytes = bytes_range(tree_data, sp + 1, nul);
            proof {
                assert(name_bytes@ =~= rest1.subrange(0, nul - sp - 1));
            }
            let name = match crate::strings::bytes_to_string(name_bytes) {
                Some(n) => n,
                None => {
                    return Err(GitError::MalformedObject);
                },
            };
            let ghost rest2 = rest1.skip(nul - sp - 1 + 1);
            proof {
                assert(rest2 =~= tree_data@.skip(nul as int + 1));
            }
            if len - (nul + 1) < 20 {
                return Err(GitError::MalformedObject);
            }
            let sha_raw = bytes_range(tree_data, nul + 1, nul + 21);
            proof {
                assert(sha_raw@ =~= rest2.subrange(0, 20));
            }
            let hash = hex_encode(sha_raw.as_slice());
            proof {
                lemma_hex_of_len(sha_raw@);
            }
            let is_dir = mode == 0o40000u32;
            let entry = TreeEntry { name, hash, mode, is_dir };
            let ghost m = entry@;
            proof {
                assert(hash_str_wf(m.hash));
                assert(parse_tree_of(rest0) == (match parse_tree_of(rest2.skip(20)) {
                    Some(es) => Some(seq![m] + es),
                    None => None::<Seq<TreeEntryModel>>,
                }));
                assert(rest2.skip(20) =~= tree_data@.skip(nul as int + 21));
                assert((entries@ + seq![entry]).map_values(|e: TreeEntry| e@) =~= parsed.push(m));
                assert(forall|rest: Seq<TreeEntryModel>|
                    parsed + (seq![m] + rest) =~= parsed.push(m) + rest);
            }
            let ghost old_entries = entries@;
            entries.push(entry);
            proof {
                parsed = parsed.push(m);
                assert(entries@.map_values(|e: TreeEntry| e@) =~= parsed);
                assert(forall|j: int| 0 <= j < old_entries.len() ==> entries@[j] == old_entries[j]);
                assert(entries@[old_entries.len() as int]@.hash == m.hash);
            }
            i = nul + 21;
        }
        proof {
            assert(tree_data@.skip(len as int) =~= Seq::<u8>::empty());
            assert(parse_tree_of(tree_data@.skip(len as int)) == Some(Seq::<TreeEntryModel>::empty()));
            assert(parsed + Seq::<TreeEntryModel>::empty() =~= parsed);
        }
        Ok(entries)
    }
}

/// The serialization order of tree entries: byte-wise on their names, so
/// that a tree object's identity is a function of the directory's content.
pub open spec fn entry_le(a: TreeEntryModel, b: TreeEntryModel) -> bool {
    crate::bytes::bytes_le(encode_utf8(a.name), encode_utf8(b.name))
}

/// True when the entries stand in serialization order.
pub open spec fn entries_sorted(s: Seq<TreeEntryModel>) -> bool {
    forall|i: int, j: int| 0 <= i < j < s.len() ==> entry_le(#[trigger] s[i], #[trigger] s[j])
}

/// A well-formed object identity in text: 40 lowercase hexadecimal
/// characters.
pub open spec fn hash_str_wf(h: Seq<char>) -> bool {
    h.len() == 40 && forall|i: int| 0 <= i < h.len() ==> is_lower_hex_char(#[trigger] h[i])
}

impl TreeProcessor {
    /// The entries rearranged into serialization order: sorted byte-wise
    /// by name, keeping exactly the entries given.
    pub fn sort_entries(entries: Vec<TreeEntry>) -> (r: Vec<TreeEntry>)
        ensures
            entries_sorted(r@.map_values(|e: TreeEntry| e@)),
            r@.map_values(|e: TreeEntry| e@).to_multiset() == entries@.map_values(
                |e: TreeEntry| e@,
            ).to_multiset(),
    {
        broadcast use vstd::seq_lib::group_to_multiset_ensures;
        broadcast use vstd::multiset::group_multiset_axioms;

        let ghost orig = entries@.map_values(|e: TreeEntry| e@);
        let mut input = entries;
        let mut out: Vec<TreeEntry> = Vec::new();
        proof {
            assert(out@.map_values(|e: TreeEntry| e@).to_multiset() =~= Multiset::empty());
            assert(out@.map_values(|e: TreeEntry| e@).to_multiset().add(
                input@.map_values(|e: TreeEntry| e@).to_multiset(),
            ) =~= orig.to_multiset());
        }
        while input.len() > 0
            invariant
                entries_sorted(out@.map_values(|e: TreeEntry| e@)),
                out@.map_values(|e: TreeEntry| e@).to_multiset().add(
                    input@.map_values(|e: TreeEntry| e@).to_multiset(),
                ) == orig.to_multiset(),
            decreases input@.len(),
        {
            let ghost old_in = input@.map_values(|e: TreeEntry| e@);
            let ghost old_out = out@.map_values(|e: TreeEntry| e@);
            let e = input.remove(input.len() - 1);
            let ghost em = e@;
            proof {
                assert(input@.map_values(|e: TreeEntry| e@) =~= old_in.remove(
                    old_in.len() - 1,
                ));
                assert(old_in[old_in.len() - 1] == em);
                vstd::seq_lib::to_multiset_remove(old_in, old_in.len() - 1);
                assert(input@.map_values(|e: TreeEntry| e@).to_multiset() == old_in.to_multiset().remove(em));
            }
            let name_bytes = e.name.as_str().as_bytes();
            let mut k: usize = 0;
            loop
                invariant
                    0 <= k <= out@.len(),
                    forall|j: int| 0 <= j < k ==> entry_le(#[trigger] out@[j]@, em),
                    name_bytes@ == encode_utf8(em.name),
                ensures
                    0 <= k <= out@.len(),
                    forall|j: int| 0 <= j < k ==> entry_le(#[trigger] out@[j]@, em),
                    k < out@.len() ==> !entry_le(out@[k as int]@, em),
                decreases out@.len() - k,
            {
                if k == out.len() {
                    break;
                }
                if !crate::bytes::bytes_le_exec(out[k].name.as_str().as_bytes(), name_bytes) {
                    break;
                }
                k += 1;
            }
            proof {
                let outm = out@.map_values(|x: TreeEntry| x@);
                if (k as int) < outm.len() {
                    crate::bytes::lemma_bytes_le_total(
                        encode_utf8(outm[k as int].name),
                        encode_utf8(em.name),
                    );
                    assert(entry_le(em, outm[k as int]));
                }
            }
            out.insert(k, e);
            proof {
                let newm = out@.map_values(|x: TreeEntry| x@);
                assert(newm =~= old_out.insert(k as int, em));
                vstd::seq_lib::to_multiset_insert(old_out, k as int, em);
                assert(newm.to_multiset() == old_out.to_multiset().insert(em));
                assert(entries_sorted(newm)) by {
                    assert forall|i: int, j: int| 0 <= i < j < newm.len() implies entry_le(
                        newm[i],
                        newm[j],
                    ) by {
                        if j < k as int {
                            assert(newm[i] == old_out[i] && newm[j] == old_out[j]);
                        } else if i > k as int {
                            assert(newm[i] == old_out[i - 1] && newm[j] == old_out[j - 1]);
                        } else if j == k as int {
                            assert(newm[i] == old_out[i] && newm[j] == em);
                            assert(entry_le(old_out[i], em));
                        } else if i == k as int {
                            assert(newm[i] == em && newm[j] == old_out[j - 1]);
                            assert(entry_le(em, old_out[k as int]));
                            if j - 1 > k as int {
                                assert(entry_le(old_out[k as int], old_out[j - 1]));
                                crate::bytes::lemma_bytes_le_trans(
                                    encode_utf8(em.name),
                                    encode_utf8(old_out[k as int].name),
                                    encode_utf8(old_out[j - 1].name),
                                );
                            }
                        } else {
                            assert(i < k as int && j > k as int);
                            assert(newm[i] == old_out[i] && newm[j] == old_out[j - 1]);
                            assert(i < j - 1);
                            assert(entry_le(old_out[i], old_out[j - 1]));
                        }
                    }
                }
                vstd::seq_lib::to_multiset_contains(old_in, em);
                assert(old_in.contains(em));
                assert(old_in.to_multiset().count(em) > 0);
                assert(newm.to_multiset().add(input@.map_values(|e: TreeEntry| e@).to_multiset())
                    =~= orig.to_multiset());
            }
        }
        proof {
            let inm = input@.map_values(|e: TreeEntry| e@);
            assert(input@.len() == 0);
            assert(inm.len() == 0);
            assert(inm.to_multiset() =~= Multiset::<TreeEntryModel>::empty()) by {
                assert forall|a: TreeEntryModel| inm.to_multiset().count(a) == 0 by {
                    vstd::seq_lib::to_multiset_contains(inm, a);
                    assert(inm.len() == 0);
                    assert(!inm.contains(a));
                }
            }
            assert(out@.map_values(|e: TreeEntry| e@).to_multiset().add(
                Multiset::<TreeEntryModel>::empty(),
            ) =~= out@.map_values(|e: TreeEntry| e@).to_multiset());
        }
        out
    }

    /// Serializes entries as they stand and stores the tree object,
    /// returning its identity. Callers sort first, so that identity is a
    /// function of the entry set.
    pub fn create_tree(store: &mut ObjectStore, entries: Vec<TreeEntry>) -> (hash: String)
        requires
            old(store).wf(),
            forall|i: int| 0 <= i < entries@.len() ==> tree_entry_wf(#[trigger] entries@[i]@),
        ensures
            final(store).wf(),
            hash@ == id_of(tree_kind(), tree_bytes_of(entries@.map_values(|e: TreeEntry| e@))),
            hash_str_wf(hash@),
            final(store)@ == old(store)@.insert(
                hash@,
                raw_bytes_of(tree_kind(), tree_bytes_of(entries@.map_values(|e: TreeEntry| e@))),
            ),
            objects_consistent(old(store)@) ==> objects_consistent(final(store)@),
            objects_consistent(old(store)@) && sha1_collision_free() ==> store_extends(
                old(store)@,
                final(store)@,
            ),
    {
        let buf = Self::serialize_tree(&entries);
        let obj = Object::Tree(buf);
        let hash = obj.save(store);
        proof {
            lemma_hex_of_len(crate::hashing::sha1_of(raw_bytes_of(
                tree_kind(),
                tree_bytes_of(entries@.map_values(|e: TreeEntry| e@)),
            )));
        }
        hash
    }

    /// Stores the tree object of an empty directory snapshot, used for the
    /// root commit of an empty repository.
    pub fn create_empty_tree(store: &mut ObjectStore) -> (hash: String)
        requires
            old(store).wf(),
        ensures
            final(store).wf(),
            hash@ == id_of(tree_kind(), Seq::<u8>::empty()),
            hash_str_wf(hash@),
            final(store)@ == old(store)@.insert(
                hash@,
                raw_bytes_of(tree_kind(), Seq::<u8>::empty()),
            ),
    {
        let entries: Vec<TreeEntry> = Vec::new();
        let hash = Self::create_tree(store, entries);
        proof {
            assert(tree_bytes_of(Seq::<TreeEntry>::empty().map_values(|e: TreeEntry| e@))
                =~= Seq::<u8>::empty());
        }
        hash
    }
}

/// True when the store holds, under `k`, a tree object whose identity is
/// `k` itself: the serialized entries of some directory level. By the
/// round trip of serializing and parsing, loading such an identity gives a
/// payload that parses back to those entries.
pub open spec fn is_tree_raw_at(m: Map<Seq<char>, Seq<u8>>, k: Seq<char>) -> bool {
    exists|ms: Seq<TreeEntryModel>|
        k == id_of(tree_kind(), #[trigger] tree_bytes_of(ms)) && m.contains_key(k) && m[k]
            == raw_bytes_of(tree_kind(), tree_bytes_of(ms))
}

/// What the tree builder asks of the staging area: every staged path is a
/// well-formed relative path free of the null character — a name holding
/// one cannot stand in a tree record — and no staged file carries the
/// directory mode.
pub open spec fn index_tree_ok(index: &Index) -> bool {
    forall|k: Seq<char>| #[trigger] index.entries@.contains_key(k) ==> no_nul_chars(k) && path_ok(
        k,
    ) && index.entries@[k].mode != 0o40000u32
}

/// True when every staged entry's blob is in the object store.
pub open spec fn index_blobs_in(
    em: Map<Seq<char>, EntryModel>,
    objects: Map<Seq<char>, Seq<u8>>,
) -> bool {
    forall|p: Seq<char>| #[trigger] em.contains_key(p) ==> objects.contains_key(em[p].sha)
}

/// The hypotheses under which a built tree denotes the staging area: the
/// digest is collision free, every stored object lies under its own
/// identity, and every staged blob is stored. The first is the standing
/// assumption of content addressing; the other two hold of a store filled
/// by saving.
pub open spec fn builder_ok(
    objects: Map<Seq<char>, Seq<u8>>,
    em: Map<Seq<char>, EntryModel>,
) -> bool {
    &&& sha1_collision_free()
    &&& objects_consistent(objects)
    &&& index_blobs_in(em, objects)
}

/// Whether some element of `v` holds the characters of `s`.
fn contains_string(v: &Vec<String>, s: &str) -> (b: bool)
    ensures
        b == exists|i: int| 0 <= i < v@.len() && v@[i]@ == s@,
{
    let mut i: usize = 0;
    while i < v.len()
        invariant
            0 <= i <= v@.len(),
            forall|j: int| 0 <= j < i ==> v@[j]@ != s@,
        decreases v@.len() - i,
    {
        if str_eq(v[i].as_str(), s) {
            return true;
        }
        i += 1;
    }
    false
}

impl TreeProcessor {
    /// Every directory that holds a staged file, directly or through
    /// subdirectories: all cuts of all staged paths, the root (the empty
    /// path) included, each named once.
    fn collect_dirs(index: &Index) -> (r: Vec<String>)
        requires
            index.wf(),
            index_tree_ok(index),
        ensures
            forall|i: int| 0 <= i < r@.len() ==> no_nul_chars(#[trigger] r@[i]@),
            exists|i: int| 0 <= i < r@.len() && r@[i]@ == Seq::<char>::empty(),
            forall|i: int|
                0 <= i < r@.len() ==> #[trigger] r@[i]@.len() == 0 || exists|p: Seq<char>|
                    #[trigger] index.entries@.contains_key(p) && is_cut(r@[i]@, p),
            forall|p: Seq<char>, a: Seq<char>|
                #[trigger] index.entries@.contains_key(p) && #[trigger] is_cut(a, p) && a.len()
                    > 0 ==> exists|i: int| 0 <= i < r@.len() && #[trigger] r@[i]@ == a,
    {
        let mut dirs: Vec<String> = Vec::new();
        let root = String::new();
        dirs.push(root);
        proof {
            assert(dirs@[0]@ == Seq::<char>::empty());
        }
        let n = index.entries.len();
        let mut i: usize = 0;
        while i < n
            invariant
                index.wf(),
                index_tree_ok(index),
                0 <= i <= n,
                n == index.entries.pairs_seq().len(),
                forall|j: int| 0 <= j < dirs@.len() ==> no_nul_chars(#[trigger] dirs@[j]@),
                exists|j: int| 0 <= j < dirs@.len() && dirs@[j]@ == Seq::<char>::empty(),
                forall|j: int|
                    0 <= j < dirs@.len() ==> #[trigger] dirs@[j]@.len() == 0 || exists|p: Seq<char>|
                        #[trigger] index.entries@.contains_key(p) && is_cut(dirs@[j]@, p),
                forall|j: int, a: Seq<char>|
                    0 <= j < i && #[trigger] is_cut(a, index.entries.pairs_seq()[j].0@) && a.len()
                        > 0 ==> exists|m: int|
                        0 <= m < dirs@.len() && #[trigger] dirs@[m]@ == a,
            decreases n - i,
        {
            let p = index.entries.key_at(i);
            proof {
                crate::kvstore::lemma_kvstore_pairs_in_map(&index.entries, i as int);
                assert(no_nul_chars(p@) && path_ok(p@));
                crate::strings::lemma_last_slash_range(p@);
            }
            let mut cur = parent_dir(p.as_str());
            proof {
                lemma_under_parent(p@);
                assert(forall|j: int|
                    0 <= j < parent_dir_of(p@).len() ==> parent_dir_of(p@)[j] == p@[j]);
                assert(no_nul_chars(cur@));
                assert forall|a: Seq<char>| #[trigger] is_cut(a, p@) && a.len() > cur@.len()
                    implies false by {
                    lemma_cut_at_most_parent(a, p@);
                }
            }
            while cur.as_str().unicode_len() > 0
                invariant
                    index.wf(),
                    index_tree_ok(index),
                    index.entries@.contains_key(p@),
                    no_nul_chars(cur@),
                    cur@.len() == 0 || is_cut(cur@, p@),
                    forall|j: int| 0 <= j < dirs@.len() ==> no_nul_chars(#[trigger] dirs@[j]@),
                    exists|j: int| 0 <= j < dirs@.len() && dirs@[j]@ == Seq::<char>::empty(),
                    forall|j: int|
                        0 <= j < dirs@.len() ==> #[trigger] dirs@[j]@.len() == 0 || exists|
                            p2: Seq<char>,
                        |
                            #[trigger] index.entries@.contains_key(p2) && is_cut(dirs@[j]@, p2),
                    forall|j: int, a: Seq<char>|
                        0 <= j < i && #[trigger] is_cut(a, index.entries.pairs_seq()[j].0@)
                            && a.len() > 0 ==> exists|m: int|
                            0 <= m < dirs@.len() && #[trigger] dirs@[m]@ == a,
                    forall|a: Seq<char>|
                        #[trigger] is_cut(a, p@) && a.len() > cur@.len() ==> exists|m: int|
                            0 <= m < dirs@.len() && #[trigger] dirs@[m]@ == a,
                decreases cur@.len(),
            {
                if !contains_string(&dirs, cur.as_str()) {
                    let ghost old_dirs = dirs@;
                    dirs.push(cur.clone());
                    proof {
                        assert(forall|j: int| 0 <= j < old_dirs.len() ==> dirs@[j] == old_dirs[j]);
                        assert(dirs@[old_dirs.len() as int]@ == cur@);
                        assert(is_cut(cur@, p@));
                    }
                }
                let ghost curv = cur@;
                let next = parent_dir(cur.as_str());
                proof {
                    crate::strings::lemma_last_slash_range(curv);
                    assert(next@.len() < curv.len());
                    assert(forall|j: int|
                        0 <= j < parent_dir_of(curv).len() ==> parent_dir_of(curv)[j] == curv[j]);
                    assert(no_nul_chars(next@));
                    if next@.len() > 0 {
                        lemma_under_parent(curv);
                        lemma_cut_of_cut(next@, curv, p@);
                    }
                    assert forall|a: Seq<char>| #[trigger] is_cut(a, p@) && a.len() > next@.len()
                        implies exists|m: int|
                        0 <= m < dirs@.len() && #[trigger] dirs@[m]@ == a by {
                        if a.len() < curv.len() {
                            lemma_shorter_cut(a, curv, p@);
                            lemma_cut_at_most_parent(a, curv);
                            assert(false);
                        } else if a.len() == curv.len() {
                            lemma_equal_cuts(a, curv, p@);
                            assert(exists|m: int|
                                0 <= m < dirs@.len() && #[trigger] dirs@[m]@ == curv);
                        }
                    }
                }
                cur = next;
            }
            proof {
                assert forall|a: Seq<char>| #[trigger] is_cut(a, p@) && a.len() > 0 implies exists|
                    m: int,
                |
                    0 <= m < dirs@.len() && #[trigger] dirs@[m]@ == a by {
                    assert(a.len() > cur@.len());
                }
            }
            i += 1;
        }
        proof {
            assert forall|p: Seq<char>, a: Seq<char>|
                #[trigger] index.entries@.contains_key(p) && #[trigger] is_cut(a, p) && a.len()
                    > 0 implies exists|m: int|
                0 <= m < dirs@.len() && #[trigger] dirs@[m]@ == a by {
                crate::kvstore::lemma_kvstore_map_in_pairs(&index.entries, p);
                let j = choose|j: int|
                    0 <= j < index.entries.pairs_seq().len()
                        && #[trigger] index.entries.pairs_seq()[j].0@ == p;
                assert(is_cut(a, index.entries.pairs_seq()[j].0@));
            }
        }
        dirs
    }

    /// The directories rearranged so that longer paths come first; a
    /// directory always stands before its parent.
    fn sort_dirs_desc(dirs: Vec<String>) -> (r: Vec<String>)
        ensures
            forall|a: int, b: int|
                0 <= a < b < r@.len() ==> #[trigger] r@[a]@.len() >= #[trigger] r@[b]@.len(),
            r@.map_values(|s: String| s@).to_multiset() == dirs@.map_values(
                |s: String| s@,
            ).to_multiset(),
    {
        broadcast use vstd::seq_lib::group_to_multiset_ensures;
        broadcast use vstd::multiset::group_multiset_axioms;

        let ghost orig = dirs@.map_values(|s: String| s@);
        let mut input = dirs;
        let mut out: Vec<String> = Vec::new();
        proof {
            assert(out@.map_values(|s: String| s@).to_multiset().add(
                input@.map_values(|s: String| s@).to_multiset(),
            ) =~= orig.to_multiset());
        }
        while input.len() > 0
            invariant
                forall|a: int, b: int|
                    0 <= a < b < out@.len() ==> #[trigger] out@[a]@.len() >= #[trigger] out@[b]@.len(),
                out@.map_values(|s: String| s@).to_multiset().add(
                    input@.map_values(|s: String| s@).to_multiset(),
                ) == orig.to_multiset(),
            decreases input@.len(),
        {
            let ghost old_in = input@.map_values(|s: String| s@);
            let ghost old_out = out@.map_values(|s: String| s@);
            let e = input.remove(input.len() - 1);
            proof {
                assert(input@.map_values(|s: String| s@) =~= old_in.remove(old_in.len() - 1));
                assert(old_in[old_in.len() - 1] == e@);
                vstd::seq_lib::to_multiset_remove(old_in, old_in.len() - 1);
            }
            let elen = e.unicode_len();
            let mut k: usize = 0;
            loop
                invariant
                    0 <= k <= out@.len(),
                    elen == e@.len(),
                    forall|j: int| 0 <= j < k ==> #[trigger] out@[j]@.len() >= e@.len(),
                ensures
                    0 <= k <= out@.len(),
                    forall|j: int| 0 <= j < k ==> #[trigger] out@[j]@.len() >= e@.len(),
                    k < out@.len() ==> out@[k as int]@.len() < e@.len(),
                decreases out@.len() - k,
            {
                if k == out.len() {
                    break;
                }
                if out[k].unicode_len() < elen {
                    break;
                }
                k += 1;
            }
            out.insert(k, e);
            proof {
                let newm = out@.map_values(|s: String| s@);
                assert(newm =~= old_out.insert(k as int, e@));
                vstd::seq_lib::to_multiset_insert(old_out, k as int, e@);
                assert forall|a: int, b: int|
                    0 <= a < b < out@.len() implies #[trigger] out@[a]@.len() >= #[trigger] out@[b]@.len() by {
                    if b < k as int {
                    } else if a > k as int {
                        assert(out@[a]@ == old_out[a - 1] && out@[b]@ == old_out[b - 1]);
                    } else if b == k as int {
                        assert(out@[b]@ == e@ && out@[a]@ == old_out[a]);
                    } else if a == k as int {
                        assert(out@[a]@ == e@ && out@[b]@ == old_out[b - 1]);
                    } else {
                        assert(out@[a]@ == old_out[a] && out@[b]@ == old_out[b - 1]);
                        if a == b - 1 {
                        }
                    }
                }
                vstd::seq_lib::to_multiset_contains(old_in, e@);
                assert(newm.to_multiset().add(input@.map_values(|s: String| s@).to_multiset())
                    =~= orig.to_multiset());
            }
        }
        proof {
            let inm = input@.map_values(|s: String| s@);
            assert(inm.to_multiset() =~= Multiset::<Seq<char>>::empty()) by {
                assert forall|a: Seq<char>| inm.to_multiset().count(a) == 0 by {
                    vstd::seq_lib::to_multiset_contains(inm, a);
                    assert(inm.len() == 0);
                    assert(!inm.contains(a));
                }
            }
            assert(out@.map_values(|s: String| s@).to_multiset().add(
                Multiset::<Seq<char>>::empty(),
            ) =~= out@.map_values(|s: String| s@).to_multiset());
        }
        out
    }

    /// Builds the tree object of one directory: an entry for each staged
    /// file directly inside it and one for each child directory, sorted by
    /// name, serialized and stored. The hashes of all deeper directories
    /// must already be known, each naming a subtree that denotes the
    /// staging area inside its directory; the built tree then denotes the
    /// staging area inside this one.
    #[verifier::rlimit(100)]
    pub fn build_tree(
        store: &mut ObjectStore,
        index: &Index,
        dir_hashes: &KvStore<String>,
        dirs: &Vec<String>,
        di: usize,
        base: Ghost<Map<Seq<char>, Seq<u8>>>,
    ) -> (hash: String)
        requires
            old(store).wf(),
            index.wf(),
            index_tree_ok(index),
            dir_hashes.wf(),
            di < dirs@.len(),
            builder_ok(base@, index.entries@) ==> store_extends(base@, old(store)@)
                && objects_consistent(old(store)@),
            forall|j: int| 0 <= j < dirs@.len() ==> no_nul_chars(#[trigger] dirs@[j]@),
            forall|a: int, b: int|
                0 <= a < b < dirs@.len() ==> #[trigger] dirs@[a]@.len() >= #[trigger] dirs@[b]@.len(),
            forall|j: int| 0 <= j < di ==> dir_hashes@.contains_key(#[trigger] dirs@[j]@),
            forall|k: Seq<char>| #[trigger] dir_hashes@.contains_key(k) ==> hash_str_wf(
                dir_hashes@[k],
            ),
            forall|j: int|
                0 <= j < dirs@.len() ==> #[trigger] dirs@[j]@.len() == 0 || exists|p: Seq<char>|
                    #[trigger] index.entries@.contains_key(p) && is_cut(dirs@[j]@, p),
            forall|p: Seq<char>, a: Seq<char>|
                #[trigger] index.entries@.contains_key(p) && #[trigger] is_cut(a, p) && a.len()
                    > 0 ==> exists|i: int| 0 <= i < dirs@.len() && #[trigger] dirs@[i]@ == a,
            builder_ok(base@, index.entries@) ==> forall|j: int|
                0 <= j < di ==> snapshot_of(
                    old(store)@,
                    dir_hashes@[#[trigger] dirs@[j]@],
                    dirs@[j]@,
                    dir_fuel(dirs@[j]@),
                ) == Some(staged_snapshot_under(index.entries@, dirs@[j]@)),
        ensures
            final(store).wf(),
            hash_str_wf(hash@),
            forall|k: Seq<char>|
                #[trigger] old(store)@.contains_key(k) ==> final(store)@.contains_key(k) && (final(store)@[k] == old(store)@[k] || is_tree_raw_at(final(store)@, k)),
            is_tree_raw_at(final(store)@, hash@),
            builder_ok(base@, index.entries@) ==> objects_consistent(final(store)@)
                && store_extends(old(store)@, final(store)@) && snapshot_of(
                final(store)@,
                hash@,
                dirs@[di as int]@,
                dir_fuel(dirs@[di as int]@),
            ) == Some(staged_snapshot_under(index.entries@, dirs@[di as int]@)),
    {
        broadcast use vstd::seq_lib::group_to_multiset_ensures;

        let ghost em = index.entries@;
        let ghost dv = dirs@[di as int]@;
        let ghost bok = builder_ok(base@, em);
        let ghost ffuel = (dir_fuel(dv) - 1) as nat;
        proof {
            if bok {
                assert(index_blobs_in(em, base@));
                assert forall|p: Seq<char>| #[trigger] em.contains_key(p) implies old(
                    store,
                )@.contains_key(em[p].sha) by {
                    assert(base@.contains_key(em[p].sha));
                }
            }
        }
        let d = &dirs[di];
        let mut es: Vec<TreeEntry> = Vec::new();
        let n = index.entries.len();
        let mut i: usize = 0;
        while i < n
            invariant
                index.wf(),
                index_tree_ok(index),
                0 <= i <= n,
                n == index.entries.pairs_seq().len(),
                em == index.entries@,
                dv == dirs@[di as int]@,
                bok == builder_ok(base@, em),
                bok ==> index_blobs_in(em, old(store)@),
                ffuel == (dir_fuel(dv) - 1) as nat,
                d@ == dv,
                forall|j: int| 0 <= j < es@.len() ==> tree_entry_wf(#[trigger] es@[j]@),
                bok ==> forall|m: int|
                    0 <= m < es@.len() ==> entry_denotes(
                        old(store)@,
                        em,
                        dv,
                        ffuel,
                        #[trigger] es@[m]@,
                    ),
                forall|jj: int|
                    0 <= jj < i && parent_dir_of(
                        #[trigger] index.entries.pairs_seq()[jj].0@,
                    ) == dv ==> exists|m: int|
                        0 <= m < es@.len() && !(#[trigger] es@[m]@).is_dir && path_join_of(
                            dv,
                            es@[m]@.name,
                        ) == index.entries.pairs_seq()[jj].0@,
            decreases n - i,
        {
            let p = index.entries.key_at(i);
            let v = index.entries.val_at(i);
            let par = parent_dir(p.as_str());
            if str_eq(par.as_str(), d.as_str()) {
                let name = base_name(p.as_str());
                proof {
                    crate::kvstore::lemma_kvstore_pairs_in_map(&index.entries, i as int);
                    assert(entry_wf(index.entries@[p@]));
                    assert(index.entries@[p@] == v@);
                    assert(no_nul_chars(p@) && path_ok(p@));
                    assert forall|j: int|
                        0 <= j < base_name_of(p@).len() implies #[trigger] base_name_of(p@)[j]
                        != '\0' by {
                        crate::strings::lemma_last_slash_range(p@);
                        assert(base_name_of(p@)[j] == p@[j + last_slash_of(p@) + 1]);
                    }
                    assert(no_nul_chars(base_name_of(p@)));
                    lemma_no_nul_encode(base_name_of(p@));
                }
                let ghost old_es = es@;
                es.push(TreeEntry { name, hash: v.sha.clone(), mode: v.mode, is_dir: false });
                proof {
                    assert(forall|j: int| 0 <= j < old_es.len() ==> es@[j] == old_es[j]);
                    let m = es@[old_es.len() as int]@;
                    assert(tree_entry_wf(m));
                    assert(parent_dir_of(p@) == dv);
                    lemma_join_parent_base(p@);
                    assert(m.name == base_name_of(p@));
                    assert(path_join_of(dv, m.name) == p@);
                    lemma_under_parent(p@);
                    assert(m == staged_entry_of(em[p@]));
                    if bok {
                        lemma_encode_at_least_len(p@);
                        assert(entry_denotes(old(store)@, em, dv, ffuel, m));
                    }
                    assert(exists|mm: int|
                        0 <= mm < es@.len() && !(#[trigger] es@[mm]@).is_dir && path_join_of(
                            dv,
                            es@[mm]@.name,
                        ) == p@);
                }
            }
            i += 1;
        }
        let mut j: usize = 0;
        while j < dirs.len()
            invariant
                index.wf(),
                index_tree_ok(index),
                dir_hashes.wf(),
                di < dirs@.len(),
                0 <= j <= dirs@.len(),
                n == index.entries.pairs_seq().len(),
                em == index.entries@,
                dv == dirs@[di as int]@,
                bok == builder_ok(base@, em),
                bok ==> index_blobs_in(em, old(store)@),
                ffuel == (dir_fuel(dv) - 1) as nat,
                forall|m: int| 0 <= m < dirs@.len() ==> no_nul_chars(#[trigger] dirs@[m]@),
                forall|a: int, b: int|
                    0 <= a < b < dirs@.len() ==> #[trigger] dirs@[a]@.len() >= #[trigger] dirs@[b]@.len(),
                forall|m: int| 0 <= m < di ==> dir_hashes@.contains_key(#[trigger] dirs@[m]@),
                forall|k: Seq<char>| #[trigger] dir_hashes@.contains_key(k) ==> hash_str_wf(
                    dir_hashes@[k],
                ),
                forall|m: int|
                    0 <= m < dirs@.len() ==> #[trigger] dirs@[m]@.len() == 0 || exists|p: Seq<char>|
                        #[trigger] index.entries@.contains_key(p) && is_cut(dirs@[m]@, p),
                bok ==> forall|m: int|
                    0 <= m < di ==> snapshot_of(
                        old(store)@,
                        dir_hashes@[#[trigger] dirs@[m]@],
                        dirs@[m]@,
                        dir_fuel(dirs@[m]@),
                    ) == Some(staged_snapshot_under(em, dirs@[m]@)),
                forall|m: int| 0 <= m < es@.len() ==> tree_entry_wf(#[trigger] es@[m]@),
                bok ==> forall|m: int|
                    0 <= m < es@.len() ==> entry_denotes(
                        old(store)@,
                        em,
                        dv,
                        ffuel,
                        #[trigger] es@[m]@,
                    ),
                forall|jj: int|
                    0 <= jj < n && parent_dir_of(
                        #[trigger] index.entries.pairs_seq()[jj].0@,
                    ) == dv ==> exists|m: int|
                        0 <= m < es@.len() && !(#[trigger] es@[m]@).is_dir && path_join_of(
                            dv,
                            es@[m]@.name,
                        ) == index.entries.pairs_seq()[jj].0@,
                forall|jj: int|
                    0 <= jj < j && #[trigger] dirs@[jj]@.len() > 0 && parent_dir_of(dirs@[jj]@)
                        == dv ==> exists|m: int|
                        0 <= m < es@.len() && (#[trigger] es@[m]@).is_dir && path_join_of(
                            dv,
                            es@[m]@.name,
                        ) == dirs@[jj]@,
            decreases dirs@.len() - j,
        {
            if j != di && dirs[j].as_str().unicode_len() > 0 {
                let par = parent_dir(dirs[j].as_str());
                if str_eq(par.as_str(), dirs[di].as_str()) {
                    proof {
                        crate::strings::lemma_last_slash_range(dirs@[j as int]@);
                        assert(dirs@[j as int]@.len() > 0);
                        assert(parent_dir_of(dirs@[j as int]@).len() < dirs@[j as int]@.len());
                        assert(dirs@[di as int]@.len() < dirs@[j as int]@.len());
                        assert(j < di) by {
                            if j > di {
                                assert(dirs@[di as int]@.len() >= dirs@[j as int]@.len());
                            }
                        }
                        assert(dir_hashes@.contains_key(dirs@[j as int]@));
                    }
                    let h = match dir_hashes.get(dirs[j].as_str()) {
                        Some(h) => h.clone(),
                        None => {
                            proof {
                                assert(false);
                            }
                            String::new()
                        },
                    };
                    let name = base_name(dirs[j].as_str());
                    proof {
                        let dj = dirs@[j as int]@;
                        assert forall|m: int|
                            0 <= m < base_name_of(dj).len() implies #[trigger] base_name_of(dj)[m]
                            != '\0' by {
                            crate::strings::lemma_last_slash_range(dj);
                            assert(base_name_of(dj)[m] == dj[m + last_slash_of(dj) + 1]);
                        }
                        assert(no_nul_chars(base_name_of(dj)));
                        lemma_no_nul_encode(base_name_of(dj));
                    }
                    let ghost old_es = es@;
                    es.push(TreeEntry { name, hash: h, mode: 0o40000, is_dir: true });
                    proof {
                        assert(forall|m: int| 0 <= m < old_es.len() ==> es@[m] == old_es[m]);
                        let m = es@[old_es.len() as int]@;
                        assert(tree_entry_wf(m));
                        let c = dirs@[j as int]@;
                        assert(parent_dir_of(c) == dv);
                        let p0 = choose|p: Seq<char>|
                            #[trigger] index.entries@.contains_key(p) && is_cut(c, p);
                        assert(path_ok(p0));
                        lemma_cut_path_ok(c, p0);
                        lemma_join_parent_base(c);
                        assert(m.name == base_name_of(c));
                        assert(path_join_of(dv, m.name) == c);
                        lemma_under_parent(c);
                        assert(staged_dirs_under(em, dv).contains(c));
                        if bok {
                            lemma_encode_at_least_len(p0);
                            assert(p0.len() <= 255) by {
                                assert(entry_wf(em[p0]));
                            }
                            assert(c.len() <= 253) by {
                                if c.len() == p0.len() - 1 {
                                    assert(p0[p0.len() - 1] == '/');
                                }
                            }
                            lemma_dir_fuel_step(dv, c);
                            assert(dir_fuel(c) <= ffuel && ffuel >= 1);
                            lemma_snapshot_fuel(old(store)@, m.hash, c, dir_fuel(c), ffuel);
                            assert(entry_denotes(old(store)@, em, dv, ffuel, m));
                        }
                        assert(exists|mm: int|
                            0 <= mm < es@.len() && (#[trigger] es@[mm]@).is_dir && path_join_of(
                                dv,
                                es@[mm]@.name,
                            ) == c);
                    }
                }
            }
            proof {
                if dirs@[j as int]@.len() > 0 {
                    crate::strings::lemma_last_slash_range(dirs@[j as int]@);
                }
            }
            j += 1;
        }
        let ghost unsorted = es@.map_values(|e: TreeEntry| e@);
        proof {
            assert forall|jj: int|
                0 <= jj < n && parent_dir_of(#[trigger] index.entries.pairs_seq()[jj].0@) == dv
                implies exists|m: int|
                0 <= m < unsorted.len() && !(#[trigger] unsorted[m]).is_dir && path_join_of(
                    dv,
                    unsorted[m].name,
                ) == index.entries.pairs_seq()[jj].0@ by {
                let m = choose|m: int|
                    0 <= m < es@.len() && !(#[trigger] es@[m]@).is_dir && path_join_of(
                        dv,
                        es@[m]@.name,
                    ) == index.entries.pairs_seq()[jj].0@;
                assert(unsorted[m] == es@[m]@);
            }
            assert forall|jj: int|
                0 <= jj < dirs@.len() && #[trigger] dirs@[jj]@.len() > 0 && parent_dir_of(
                    dirs@[jj]@,
                ) == dv implies exists|m: int|
                0 <= m < unsorted.len() && (#[trigger] unsorted[m]).is_dir && path_join_of(
                    dv,
                    unsorted[m].name,
                ) == dirs@[jj]@ by {
                let m = choose|m: int|
                    0 <= m < es@.len() && (#[trigger] es@[m]@).is_dir && path_join_of(
                        dv,
                        es@[m]@.name,
                    ) == dirs@[jj]@;
                assert(unsorted[m] == es@[m]@);
            }
        }
        let es = Self::sort_entries(es);
        let ghost ms = es@.map_values(|e: TreeEntry| e@);
        proof {
            assert forall|m: int| 0 <= m < es@.len() implies tree_entry_wf(#[trigger] es@[m]@) && (
            bok ==> entry_denotes(old(store)@, em, dv, ffuel, es@[m]@)) by {
                assert(ms[m] == es@[m]@);
                assert(ms.contains(ms[m]));
                vstd::seq_lib::to_multiset_contains(ms, ms[m]);
                vstd::seq_lib::to_multiset_contains(unsorted, ms[m]);
                assert(unsorted.contains(ms[m]));
                let u = choose|u: int| 0 <= u < unsorted.len() && unsorted[u] == ms[m];
            }
            assert forall|x: TreeEntryModel| unsorted.contains(x) implies ms.contains(x) by {
                vstd::seq_lib::to_multiset_contains(ms, x);
                vstd::seq_lib::to_multiset_contains(unsorted, x);
            }
        }
        let ghost pre = store@;
        let hash = Self::create_tree(store, es);
        proof {
            assert(hash@ == id_of(tree_kind(), tree_bytes_of(ms)) && store@.contains_key(hash@)
                && store@[hash@] == raw_bytes_of(tree_kind(), tree_bytes_of(ms)));
            assert(is_tree_raw_at(store@, hash@));
            assert forall|k: Seq<char>| pre.contains_key(k) implies store@.contains_key(k) && (
            store@[k] == pre[k] || is_tree_raw_at(store@, k)) by {
                if k == hash@ {
                    assert(is_tree_raw_at(store@, k));
                }
            }
            if bok {
                assert(store_extends(old(store)@, store@));
                assert forall|m: int| 0 <= m < ms.len() implies entry_denotes(
                    store@,
                    em,
                    dv,
                    ffuel,
                    #[trigger] ms[m],
                ) by {
                    assert(entry_denotes(old(store)@, em, dv, ffuel, ms[m]));
                    if ms[m].is_dir {
                        lemma_snapshot_frame(
                            old(store)@,
                            store@,
                            ms[m].hash,
                            path_join_of(dv, ms[m].name),
                            ffuel,
                        );
                    }
                }
                assert(forall|p: Seq<char>| #[trigger] em.contains_key(p) ==> path_ok(p));
                lemma_snapshot_fold(store@, em, dv, ffuel, ms);
                let s = snapshot_entries(store@, ms, dv, ffuel).unwrap();
                assert forall|q: Seq<char>| staged_files_under(em, dv).contains_key(q)
                    implies #[trigger] file_covered(dv, ms, q) by {
                    assert(em.contains_key(q) && path_under(dv, q) && path_ok(q));
                    if parent_dir_of(q) == dv {
                        crate::kvstore::lemma_kvstore_map_in_pairs(&index.entries, q);
                        let jj = choose|jj: int|
                            0 <= jj < index.entries.pairs_seq().len()
                                && #[trigger] index.entries.pairs_seq()[jj].0@ == q;
                        let m = choose|m: int|
                            0 <= m < unsorted.len() && !(#[trigger] unsorted[m]).is_dir
                                && path_join_of(dv, unsorted[m].name) == q;
                        assert(unsorted.contains(unsorted[m]));
                        vstd::seq_lib::to_multiset_contains(unsorted, unsorted[m]);
                        vstd::seq_lib::to_multiset_contains(ms, unsorted[m]);
                        assert(ms.contains(unsorted[m]));
                        let m2 = choose|m2: int| 0 <= m2 < ms.len() && ms[m2] == unsorted[m];
                        assert(!ms[m2].is_dir && q == path_join_of(dv, ms[m2].name));
                    } else {
                        lemma_path_decompose(dv, q);
                        let c = choose|c: Seq<char>|
                            #[trigger] is_cut(c, q) && parent_dir_of(c) == dv && path_under(dv, c);
                        assert(is_cut(c, q) && em.contains_key(q) && c.len() > 0) by {
                            lemma_cut_path_ok(c, q);
                        }
                        let ci = choose|ci: int|
                            0 <= ci < dirs@.len() && #[trigger] dirs@[ci]@ == c;
                        let m = choose|m: int|
                            0 <= m < unsorted.len() && (#[trigger] unsorted[m]).is_dir
                                && path_join_of(dv, unsorted[m].name) == c;
                        assert(unsorted.contains(unsorted[m]));
                        vstd::seq_lib::to_multiset_contains(unsorted, unsorted[m]);
                        vstd::seq_lib::to_multiset_contains(ms, unsorted[m]);
                        assert(ms.contains(unsorted[m]));
                        let m2 = choose|m2: int| 0 <= m2 < ms.len() && ms[m2] == unsorted[m];
                        assert(ms[m2].is_dir && path_under(path_join_of(dv, ms[m2].name), q));
                    }
                }
                assert forall|a: Seq<char>| staged_dirs_under(em, dv).contains(a)
                    implies #[trigger] dir_covered(dv, ms, a) by {
                    assert(path_under(dv, a));
                    let pa = choose|p: Seq<char>|
                        #[trigger] em.contains_key(p) && is_cut(a, p);
                    assert(path_ok(pa));
                    lemma_cut_path_ok(a, pa);
                    if parent_dir_of(a) == dv {
                        let ci = choose|ci: int|
                            0 <= ci < dirs@.len() && #[trigger] dirs@[ci]@ == a;
                        let m = choose|m: int|
                            0 <= m < unsorted.len() && (#[trigger] unsorted[m]).is_dir
                                && path_join_of(dv, unsorted[m].name) == a;
                        assert(unsorted.contains(unsorted[m]));
                        vstd::seq_lib::to_multiset_contains(unsorted, unsorted[m]);
                        vstd::seq_lib::to_multiset_contains(ms, unsorted[m]);
                        assert(ms.contains(unsorted[m]));
                        let m2 = choose|m2: int| 0 <= m2 < ms.len() && ms[m2] == unsorted[m];
                        assert(ms[m2].is_dir && a == path_join_of(dv, ms[m2].name));
                    } else {
                        lemma_path_decompose(dv, a);
                        let c = choose|c: Seq<char>|
                            #[trigger] is_cut(c, a) && parent_dir_of(c) == dv && path_under(dv, c);
                        lemma_cut_of_cut(c, a, pa);
                        assert(is_cut(c, pa) && em.contains_key(pa) && c.len() > 0) by {
                            lemma_cut_path_ok(c, pa);
                        }
                        let ci = choose|ci: int|
                            0 <= ci < dirs@.len() && #[trigger] dirs@[ci]@ == c;
                        let m = choose|m: int|
                            0 <= m < unsorted.len() && (#[trigger] unsorted[m]).is_dir
                                && path_join_of(dv, unsorted[m].name) == c;
                        assert(unsorted.contains(unsorted[m]));
                        vstd::seq_lib::to_multiset_contains(unsorted, unsorted[m]);
                        vstd::seq_lib::to_multiset_contains(ms, unsorted[m]);
                        assert(ms.contains(unsorted[m]));
                        let m2 = choose|m2: int| 0 <= m2 < ms.len() && ms[m2] == unsorted[m];
                        assert(ms[m2].is_dir && path_under(path_join_of(dv, ms[m2].name), a));
                    }
                }
                let s2 = staged_snapshot_under(em, dv);
                assert(s.files =~= s2.files);
                assert(s.dirs =~= s2.dirs);
                assert(s == s2);
                crate::object::lemma_strip_raw_bytes(tree_kind(), tree_bytes_of(ms));
                lemma_tree_round_trip(ms);
                assert(load_result(store@, hash@) == Some(tree_bytes_of(ms)));
                assert(tree_entries_at(store@, hash@) == Some(ms));
                assert(dir_fuel(dv) >= 1);
                assert(snapshot_of(store@, hash@, dv, dir_fuel(dv)) == Some(s2));
            }
        }
        hash
    }

    /// Builds the whole tree snapshot of the staging area: one tree object
    /// per directory that holds staged files, deepest directories first,
    /// and returns the identity of the root tree. Objects already stored
    /// stay stored, and — under the content-addressing hypotheses — keep
    /// their bytes, while walking the returned identity denotes exactly
    /// the staged paths with their recorded identities and modes.
    pub fn create_tree_from_index(store: &mut ObjectStore, index: &Index) -> (hash: String)
        requires
            old(store).wf(),
            index.wf(),
            index_tree_ok(index),
        ensures
            final(store).wf(),
            hash_str_wf(hash@),
            forall|k: Seq<char>|
                #[trigger] old(store)@.contains_key(k) ==> final(store)@.contains_key(k),
            is_tree_raw_at(final(store)@, hash@),
            builder_ok(old(store)@, index.entries@) ==> objects_consistent(final(store)@)
                && store_extends(old(store)@, final(store)@) && snapshot_of(
                final(store)@,
                hash@,
                Seq::<char>::empty(),
                MAX_TREE_DEPTH as nat,
            ) == Some(staged_snapshot_under(index.entries@, Seq::<char>::empty())),
    {
        broadcast use vstd::seq_lib::group_to_multiset_ensures;

        let ghost em = index.entries@;
        let ghost base = store@;
        let ghost bok = builder_ok(base, em);
        let pre_dirs = Self::collect_dirs(index);
        let ghost prem = pre_dirs@.map_values(|s: String| s@);
        let dirs = Self::sort_dirs_desc(pre_dirs);
        proof {
            let dm = dirs@.map_values(|s: String| s@);
            assert forall|j: int| 0 <= j < dirs@.len() implies no_nul_chars(#[trigger] dirs@[j]@)
                && (dirs@[j]@.len() == 0 || exists|p: Seq<char>|
                #[trigger] em.contains_key(p) && is_cut(dirs@[j]@, p)) by {
                assert(dm[j] == dirs@[j]@);
                assert(dm.contains(dm[j]));
                vstd::seq_lib::to_multiset_contains(dm, dm[j]);
                vstd::seq_lib::to_multiset_contains(prem, dm[j]);
                assert(prem.contains(dm[j]));
                let u = choose|u: int| 0 <= u < prem.len() && prem[u] == dm[j];
                assert(pre_dirs@[u]@ == dirs@[j]@);
            }
            assert forall|p: Seq<char>, a: Seq<char>|
                #[trigger] em.contains_key(p) && #[trigger] is_cut(a, p) && a.len() > 0
                implies exists|i: int| 0 <= i < dirs@.len() && #[trigger] dirs@[i]@ == a by {
                let u = choose|u: int| 0 <= u < pre_dirs@.len() && #[trigger] pre_dirs@[u]@ == a;
                assert(prem[u] == a);
                assert(prem.contains(a));
                vstd::seq_lib::to_multiset_contains(prem, a);
                vstd::seq_lib::to_multiset_contains(dm, a);
                assert(dm.contains(a));
                let v = choose|v: int| 0 <= v < dm.len() && dm[v] == a;
                assert(dirs@[v]@ == a);
            }
            let r = choose|i: int|
                0 <= i < pre_dirs@.len() && pre_dirs@[i]@ == Seq::<char>::empty();
            assert(prem[r] == Seq::<char>::empty());
            assert(prem.contains(Seq::<char>::empty()));
            vstd::seq_lib::to_multiset_contains(prem, Seq::<char>::empty());
            vstd::seq_lib::to_multiset_contains(dm, Seq::<char>::empty());
            assert(dm.contains(Seq::<char>::empty()));
        }
        let mut dir_hashes: KvStore<String> = KvStore::new();
        let mut di: usize = 0;
        while di < dirs.len()
            invariant
                store.wf(),
                index.wf(),
                index_tree_ok(index),
                dir_hashes.wf(),
                0 <= di <= dirs@.len(),
                em == index.entries@,
                bok == builder_ok(base, em),
                base == old(store)@,
                forall|j: int| 0 <= j < dirs@.len() ==> no_nul_chars(#[trigger] dirs@[j]@),
                forall|a: int, b: int|
                    0 <= a < b < dirs@.len() ==> #[trigger] dirs@[a]@.len() >= #[trigger] dirs@[b]@.len(),
                forall|j: int|
                    0 <= j < dirs@.len() ==> #[trigger] dirs@[j]@.len() == 0 || exists|p: Seq<char>|
                        #[trigger] em.contains_key(p) && is_cut(dirs@[j]@, p),
                forall|p: Seq<char>, a: Seq<char>|
                    #[trigger] em.contains_key(p) && #[trigger] is_cut(a, p) && a.len() > 0
                        ==> exists|i: int| 0 <= i < dirs@.len() && #[trigger] dirs@[i]@ == a,
                forall|j: int| 0 <= j < di ==> dir_hashes@.contains_key(#[trigger] dirs@[j]@),
                forall|k: Seq<char>| #[trigger] dir_hashes@.contains_key(k) ==> hash_str_wf(
                    dir_hashes@[k],
                ) && is_tree_raw_at(store@, dir_hashes@[k]),
                forall|k: Seq<char>|
                    #[trigger] old(store)@.contains_key(k) ==> store@.contains_key(k),
                bok ==> objects_consistent(store@) && store_extends(base, store@),
                bok ==> forall|j: int|
                    0 <= j < di ==> snapshot_of(
                        store@,
                        dir_hashes@[#[trigger] dirs@[j]@],
                        dirs@[j]@,
                        dir_fuel(dirs@[j]@),
                    ) == Some(staged_snapshot_under(em, dirs@[j]@)),
                dirs@.map_values(|s: String| s@).contains(Seq::<char>::empty()),
            decreases dirs@.len() - di,
        {
            let ghost mid = store@;
            let h = Self::build_tree(store, index, &dir_hashes, &dirs, di, Ghost(base));
            let ghost hv = h@;
            dir_hashes.insert(dirs[di].clone(), h);
            proof {
                assert forall|k: Seq<char>| old(store)@.contains_key(k) implies store@.contains_key(
                    k,
                ) by {
                    assert(mid.contains_key(k));
                }
                assert forall|k: Seq<char>| #[trigger] dir_hashes@.contains_key(k)
                    implies hash_str_wf(dir_hashes@[k]) && is_tree_raw_at(
                    store@,
                    dir_hashes@[k],
                ) by {
                    if k != dirs@[di as int]@ {
                        let ohash = dir_hashes@[k];
                        assert(is_tree_raw_at(mid, ohash));
                        let w = choose|w: Seq<TreeEntryModel>|
                            ohash == id_of(tree_kind(), #[trigger] tree_bytes_of(w))
                                && mid.contains_key(ohash) && mid[ohash] == raw_bytes_of(
                                tree_kind(),
                                tree_bytes_of(w),
                            );
                        assert(store@.contains_key(ohash));
                        if store@[ohash] == mid[ohash] {
                            assert(is_tree_raw_at(store@, ohash));
                        }
                    }
                }
                if bok {
                    assert(store_extends(mid, store@));
                    assert(store_extends(base, store@));
                    assert forall|j: int| 0 <= j < di + 1 implies snapshot_of(
                        store@,
                        dir_hashes@[#[trigger] dirs@[j]@],
                        dirs@[j]@,
                        dir_fuel(dirs@[j]@),
                    ) == Some(staged_snapshot_under(em, dirs@[j]@)) by {
                        if j < di && dirs@[j]@ != dirs@[di as int]@ {
                            lemma_snapshot_frame(
                                mid,
                                store@,
                                dir_hashes@[dirs@[j]@],
                                dirs@[j]@,
                                dir_fuel(dirs@[j]@),
                            );
                        } else if j < di && dirs@[j]@ == dirs@[di as int]@ {
                            assert(dir_hashes@[dirs@[j]@] == hv);
                            assert(snapshot_of(store@, hv, dirs@[di as int]@, dir_fuel(
                                dirs@[di as int]@,
                            )) == Some(staged_snapshot_under(em, dirs@[di as int]@)));
                        }
                    }
                }
            }
            di += 1;
        }
        proof {
            let dm = dirs@.map_values(|s: String| s@);
            let i = choose|i: int| 0 <= i < dm.len() && dm[i] == Seq::<char>::empty();
            assert(dirs@[i]@ == Seq::<char>::empty());
            assert(dir_hashes@.contains_key(dirs@[i]@));
            reveal_strlit("");
            assert(""@ =~= Seq::<char>::empty());
            if bok {
                assert(snapshot_of(
                    store@,
                    dir_hashes@[Seq::<char>::empty()],
                    Seq::<char>::empty(),
                    dir_fuel(Seq::<char>::empty()),
                ) == Some(staged_snapshot_under(em, Seq::<char>::empty())));
                assert(dir_fuel(Seq::<char>::empty()) == MAX_TREE_DEPTH as nat);
            }
        }
        let root = match dir_hashes.get("") {
            Some(h) => h.clone(),
            None => {
                proof {
                    assert(false);
                }
                String::new()
            },
        };
        root
    }
}

/// How deep a tree graph the checkout engine follows before it treats the
/// graph as corrupt; staged paths fit one length byte, so no well-formed
/// snapshot nests deeper.
pub const MAX_TREE_DEPTH: u64 = 128;

/// A snapshot as a tree graph denotes it: the file paths with their tree
/// entries, and the directory paths.
pub struct Snapshot {
    pub files: Map<Seq<char>, TreeEntryModel>,
    pub dirs: Set<Seq<char>>,
}

/// The tree entries stored under an identity, when it is present and its
/// payload parses.
pub open spec fn tree_entries_at(objects: Map<Seq<char>, Seq<u8>>, sha: Seq<char>) -> Option<
    Seq<TreeEntryModel>,
> {
    match load_result(objects, sha) {
        Some(payload) => parse_tree_of(payload),
        None => None,
    }
}

/// The snapshot that a sequence of tree entries denotes under a directory
/// prefix, walking at most `fuel` levels deeper. Nothing is denoted when a
/// referenced object is absent or malformed, a file path cannot stand in
/// an index record, or the graph nests deeper than the fuel.
pub open spec fn snapshot_entries(
    objects: Map<Seq<char>, Seq<u8>>,
    entries: Seq<TreeEntryModel>,
    prefix: Seq<char>,
    fuel: nat,
) -> Option<Snapshot>
    decreases fuel, entries.len(),
{
    if entries.len() == 0 {
        Some(Snapshot { files: Map::empty(), dirs: Set::empty() })
    } else {
        match snapshot_entries(objects, entries.drop_last(), prefix, fuel) {
            None => None,
            Some(srest) => {
                let e = entries.last();
                let path = path_join_of(prefix, e.name);
                if e.is_dir {
                    if fuel == 0 {
                        None
                    } else {
                        match tree_entries_at(objects, e.hash) {
                            None => None,
                            Some(sub) => match snapshot_entries(
                                objects,
                                sub,
                                path,
                                (fuel - 1) as nat,
                            ) {
                                None => None,
                                Some(ssub) => Some(
                                    Snapshot {
                                        files: srest.files.union_prefer_right(ssub.files),
                                        dirs: srest.dirs.union(ssub.dirs).insert(path),
                                    },
                                ),
                            },
                        }
                    }
                } else {
                    if e.hash.len() >= 40 && objects.contains_key(e.hash) && 1 <= encode_utf8(
                        path,
                    ).len() <= 255 {
                        Some(Snapshot { files: srest.files.insert(path, e), dirs: srest.dirs })
                    } else {
                        None
                    }
                }
            },
        }
    }
}

/// The snapshot that the tree stored under `sha` denotes.
pub open spec fn snapshot_of(
    objects: Map<Seq<char>, Seq<u8>>,
    sha: Seq<char>,
    prefix: Seq<char>,
    fuel: nat,
) -> Option<Snapshot> {
    if fuel == 0 {
        None
    } else {
        match tree_entries_at(objects, sha) {
            None => None,
            Some(es) => snapshot_entries(objects, es, prefix, (fuel - 1) as nat),
        }
    }
}

/// The staging entry the checkout engine records for a restored file: the
/// blob identity and mode from the tree, the payload size, and zero times
/// — restoration samples no clock.
pub open spec fn snap_entry_of(
    objects: Map<Seq<char>, Seq<u8>>,
    path: Seq<char>,
    e: TreeEntryModel,
) -> EntryModel {
    EntryModel {
        path,
        sha: e.hash,
        mode: e.mode,
        mtime: 0,
        ctime: 0,
        size: strip_header_of(objects[e.hash]).len() as u64,
    }
}

/// The staging area a snapshot denotes: one entry per file.
pub open spec fn snap_entries_map(objects: Map<Seq<char>, Seq<u8>>, s: Snapshot) -> Map<
    Seq<char>,
    EntryModel,
> {
    Map::new(
        |p: Seq<char>| s.files.contains_key(p),
        |p: Seq<char>| snap_entry_of(objects, p, s.files[p]),
    )
}

/// The working files a snapshot denotes: each file path mapped to the
/// payload of its blob.
pub open spec fn snap_files_map(objects: Map<Seq<char>, Seq<u8>>, s: Snapshot) -> Map<
    Seq<char>,
    Seq<u8>,
> {
    Map::new(
        |p: Seq<char>| s.files.contains_key(p),
        |p: Seq<char>| strip_header_of(objects[s.files[p].hash]),
    )
}

/// A denotation that fails on some entries fails on any longer run of them.
pub proof fn lemma_snapshot_entries_extend_none(
    objects: Map<Seq<char>, Seq<u8>>,
    entries: Seq<TreeEntryModel>,
    prefix: Seq<char>,
    fuel: nat,
    i: int,
)
    requires
        0 <= i <= entries.len(),
        snapshot_entries(objects, entries.take(i), prefix, fuel) is None,
    ensures
        snapshot_entries(objects, entries, prefix, fuel) is None,
    decreases entries.len() - i,
{
    if i == entries.len() {
        assert(entries.take(i) =~= entries);
    } else {
        assert(entries.take(i + 1).drop_last() =~= entries.take(i));
        lemma_snapshot_entries_extend_none(objects, entries, prefix, fuel, i + 1);
    }
}


/// One store extends another when every stored byte sequence survives
/// under its key.
pub open spec fn store_extends(m: Map<Seq<char>, Seq<u8>>, m2: Map<Seq<char>, Seq<u8>>) -> bool {
    forall|k: Seq<char>| #[trigger] m.contains_key(k) ==> m2.contains_key(k) && m2[k] == m[k]
}

/// A denoted snapshot survives extending the store: the walk only reads
/// keys that are present, and their bytes are kept.
pub proof fn lemma_snapshot_entries_frame(
    m: Map<Seq<char>, Seq<u8>>,
    m2: Map<Seq<char>, Seq<u8>>,
    entries: Seq<TreeEntryModel>,
    prefix: Seq<char>,
    fuel: nat,
)
    requires
        store_extends(m, m2),
        snapshot_entries(m, entries, prefix, fuel) is Some,
    ensures
        snapshot_entries(m2, entries, prefix, fuel) == snapshot_entries(m, entries, prefix, fuel),
    decreases fuel, entries.len(),
{
    if entries.len() > 0 {
        lemma_snapshot_entries_frame(m, m2, entries.drop_last(), prefix, fuel);
        let e = entries.last();
        let path = path_join_of(prefix, e.name);
        if e.is_dir {
            assert(load_result(m2, e.hash) == load_result(m, e.hash));
            let sub = tree_entries_at(m, e.hash).unwrap();
            lemma_snapshot_entries_frame(m, m2, sub, path, (fuel - 1) as nat);
        }
    }
}

/// A denoted snapshot survives raising the fuel.
pub proof fn lemma_snapshot_entries_fuel(
    m: Map<Seq<char>, Seq<u8>>,
    entries: Seq<TreeEntryModel>,
    prefix: Seq<char>,
    fuel: nat,
    fuel2: nat,
)
    requires
        fuel <= fuel2,
        snapshot_entries(m, entries, prefix, fuel) is Some,
    ensures
        snapshot_entries(m, entries, prefix, fuel2) == snapshot_entries(m, entries, prefix, fuel),
    decreases fuel, entries.len(),
{
    if entries.len() > 0 {
        lemma_snapshot_entries_fuel(m, entries.drop_last(), prefix, fuel, fuel2);
        let e = entries.last();
        let path = path_join_of(prefix, e.name);
        if e.is_dir {
            let sub = tree_entries_at(m, e.hash).unwrap();
            lemma_snapshot_entries_fuel(m, sub, path, (fuel - 1) as nat, (fuel2 - 1) as nat);
        }
    }
}

/// `lemma_snapshot_entries_frame`, lifted to a whole tree.
pub proof fn lemma_snapshot_frame(
    m: Map<Seq<char>, Seq<u8>>,
    m2: Map<Seq<char>, Seq<u8>>,
    sha: Seq<char>,
    prefix: Seq<char>,
    fuel: nat,
)
    requires
        store_extends(m, m2),
        snapshot_of(m, sha, prefix, fuel) is Some,
    ensures
        snapshot_of(m2, sha, prefix, fuel) == snapshot_of(m, sha, prefix, fuel),
{
    assert(load_result(m2, sha) == load_result(m, sha));
    let es = tree_entries_at(m, sha).unwrap();
    lemma_snapshot_entries_frame(m, m2, es, prefix, (fuel - 1) as nat);
}

/// `lemma_snapshot_entries_fuel`, lifted to a whole tree.
pub proof fn lemma_snapshot_fuel(
    m: Map<Seq<char>, Seq<u8>>,
    sha: Seq<char>,
    prefix: Seq<char>,
    fuel: nat,
    fuel2: nat,
)
    requires
        fuel <= fuel2,
        snapshot_of(m, sha, prefix, fuel) is Some,
    ensures
        snapshot_of(m, sha, prefix, fuel2) == snapshot_of(m, sha, prefix, fuel),
{
    let es = tree_entries_at(m, sha).unwrap();
    lemma_snapshot_entries_fuel(m, es, prefix, (fuel - 1) as nat, (fuel2 - 1) as nat);
}

/// The fuel a directory's subtree needs: paths fit 255 bytes and segments
/// are nonempty, so each level eats two characters of headroom.
pub open spec fn dir_fuel(d: Seq<char>) -> nat {
    if d.len() <= 254 {
        ((254 - d.len()) / 2 + 1) as nat
    } else {
        1
    }
}

/// A child directory needs strictly less fuel than its parent.
pub proof fn lemma_dir_fuel_step(d: Seq<char>, c: Seq<char>)
    requires
        parent_dir_of(c) == d,
        path_ok(c),
        c.len() <= 253,
    ensures
        dir_fuel(c) < dir_fuel(d),
        dir_fuel(d) >= 2,
{
    lemma_parent_two_shorter(c);
}

/// The tree entry a staged file contributes to its directory.
pub open spec fn staged_entry_of(e: EntryModel) -> TreeEntryModel {
    TreeEntryModel { name: base_name_of(e.path), hash: e.sha, mode: e.mode, is_dir: false }
}

/// The staged files lying inside a directory, keyed by their full paths.
pub open spec fn staged_files_under(entries: Map<Seq<char>, EntryModel>, d: Seq<char>) -> Map<
    Seq<char>,
    TreeEntryModel,
> {
    Map::new(
        |p: Seq<char>| entries.contains_key(p) && path_under(d, p),
        |p: Seq<char>| staged_entry_of(entries[p]),
    )
}

/// The directories inside `d` that staged paths pass through.
pub open spec fn staged_dirs_under(entries: Map<Seq<char>, EntryModel>, d: Seq<char>) -> Set<
    Seq<char>,
> {
    Set::new(
        |a: Seq<char>| path_under(d, a) && exists|p: Seq<char>|
            #[trigger] entries.contains_key(p) && is_cut(a, p),
    )
}

/// The snapshot the staging area denotes inside `d`: its files with their
/// recorded identities and modes, and the directories they pass through.
pub open spec fn staged_snapshot_under(entries: Map<Seq<char>, EntryModel>, d: Seq<char>)
    -> Snapshot {
    Snapshot { files: staged_files_under(entries, d), dirs: staged_dirs_under(entries, d) }
}

/// What one collected entry of the directory `d` stands for: a file entry
/// is a staged file directly inside `d`; a directory entry is a child
/// directory whose stored subtree already denotes the staging area inside
/// it.
pub open spec fn entry_denotes(
    objects: Map<Seq<char>, Seq<u8>>,
    em: Map<Seq<char>, EntryModel>,
    d: Seq<char>,
    fuel: nat,
    e: TreeEntryModel,
) -> bool {
    if e.is_dir {
        ({
            let c = path_join_of(d, e.name);
            &&& staged_dirs_under(em, d).contains(c)
            &&& c.len() > 0
            &&& fuel >= 1
            &&& snapshot_of(objects, e.hash, c, fuel) == Some(staged_snapshot_under(em, c))
        })
    } else {
        ({
            let p = path_join_of(d, e.name);
            &&& em.contains_key(p)
            &&& path_under(d, p)
            &&& e == staged_entry_of(em[p])
            &&& e.hash.len() >= 40
            &&& objects.contains_key(e.hash)
            &&& 1 <= encode_utf8(p).len() <= 255
        })
    }
}

/// Whether some entry accounts for the staged file at `p`.
pub open spec fn file_covered(d: Seq<char>, es: Seq<TreeEntryModel>, p: Seq<char>) -> bool {
    exists|i: int|
        0 <= i < es.len() && (if #[trigger] es[i].is_dir {
            path_under(path_join_of(d, es[i].name), p)
        } else {
            p == path_join_of(d, es[i].name)
        })
}

/// Whether some directory entry accounts for the directory `a`.
pub open spec fn dir_covered(d: Seq<char>, es: Seq<TreeEntryModel>, a: Seq<char>) -> bool {
    exists|i: int|
        0 <= i < es.len() && #[trigger] es[i].is_dir && (a == path_join_of(d, es[i].name)
            || path_under(path_join_of(d, es[i].name), a))
}

/// Folding the snapshot over entries that each stand for part of the
/// staging area denotes exactly the covered part of it.
#[verifier::rlimit(100)]
pub proof fn lemma_snapshot_fold(
    objects: Map<Seq<char>, Seq<u8>>,
    em: Map<Seq<char>, EntryModel>,
    d: Seq<char>,
    fuel: nat,
    es: Seq<TreeEntryModel>,
)
    requires
        forall|p: Seq<char>| #[trigger] em.contains_key(p) ==> path_ok(p),
        forall|i: int| 0 <= i < es.len() ==> entry_denotes(objects, em, d, fuel, #[trigger] es[i]),
    ensures
        snapshot_entries(objects, es, d, fuel) matches Some(s) && s.files == Map::new(
            |p: Seq<char>| staged_files_under(em, d).contains_key(p) && file_covered(d, es, p),
            |p: Seq<char>| staged_entry_of(em[p]),
        ) && s.dirs == Set::new(
            |a: Seq<char>| staged_dirs_under(em, d).contains(a) && dir_covered(d, es, a),
        ),
    decreases es.len(),
{
    if es.len() == 0 {
        assert(snapshot_entries(objects, es, d, fuel).unwrap().files =~= Map::new(
            |p: Seq<char>| staged_files_under(em, d).contains_key(p) && file_covered(d, es, p),
            |p: Seq<char>| staged_entry_of(em[p]),
        ));
        assert(snapshot_entries(objects, es, d, fuel).unwrap().dirs =~= Set::new(
            |a: Seq<char>| staged_dirs_under(em, d).contains(a) && dir_covered(d, es, a),
        ));
    } else {
        let front = es.drop_last();
        assert(forall|i: int|
            0 <= i < front.len() ==> entry_denotes(objects, em, d, fuel, #[trigger] front[i]));
        lemma_snapshot_fold(objects, em, d, fuel, front);
        let sf = snapshot_entries(objects, es.drop_last(), d, fuel).unwrap();
        let e = es.last();
        assert(entry_denotes(objects, em, d, fuel, e));
        let path = path_join_of(d, e.name);
        assert(forall|i: int| 0 <= i < front.len() ==> front[i] == es[i]);
        if e.is_dir {
            let ssub = staged_snapshot_under(em, path);
            assert(snapshot_of(objects, e.hash, path, fuel) == Some(ssub));
            assert(tree_entries_at(objects, e.hash) is Some);
            let sub = tree_entries_at(objects, e.hash).unwrap();
            assert(snapshot_entries(objects, sub, path, (fuel - 1) as nat) == Some(ssub));
            let s = snapshot_entries(objects, es, d, fuel).unwrap();
            assert(s.files == sf.files.union_prefer_right(ssub.files));
            assert(s.dirs == sf.dirs.union(ssub.dirs).insert(path));
            assert forall|q: Seq<char>| #[trigger] s.files.contains_key(q) == (staged_files_under(
                em,
                d,
            ).contains_key(q) && file_covered(d, es, q)) && (s.files.contains_key(q)
                ==> s.files[q] == staged_entry_of(em[q])) by {
                if ssub.files.contains_key(q) {
                    assert(em.contains_key(q) && path_under(path, q));
                    assert(is_cut(path, q));
                    lemma_under_trans(d, path, q);
                    assert(file_covered(d, es, q)) by {
                        assert(es[es.len() - 1].is_dir && path_under(
                            path_join_of(d, es[es.len() - 1].name),
                            q,
                        ));
                    }
                }
                if sf.files.contains_key(q) {
                    let i = choose|i: int|
                        0 <= i < front.len() && (if #[trigger] front[i].is_dir {
                            path_under(path_join_of(d, front[i].name), q)
                        } else {
                            q == path_join_of(d, front[i].name)
                        });
                    assert(file_covered(d, es, q));
                }
                if staged_files_under(em, d).contains_key(q) && file_covered(d, es, q) {
                    let i = choose|i: int|
                        0 <= i < es.len() && (if #[trigger] es[i].is_dir {
                            path_under(path_join_of(d, es[i].name), q)
                        } else {
                            q == path_join_of(d, es[i].name)
                        });
                    if i < es.len() - 1 {
                        assert(file_covered(d, front, q)) by {
                            assert(front[i] == es[i]);
                        }
                    } else {
                        assert(path_under(path, q));
                        assert(ssub.files.contains_key(q));
                    }
                }
            }
            assert(s.files =~= Map::new(
                |p: Seq<char>| staged_files_under(em, d).contains_key(p) && file_covered(d, es, p),
                |p: Seq<char>| staged_entry_of(em[p]),
            ));
            assert forall|a: Seq<char>| #[trigger] s.dirs.contains(a) == (staged_dirs_under(
                em,
                d,
            ).contains(a) && dir_covered(d, es, a)) by {
                if a == path {
                    assert(s.dirs.contains(a));
                    assert(staged_dirs_under(em, d).contains(a));
                    assert(dir_covered(d, es, a)) by {
                        assert(es[es.len() - 1].is_dir && a == path_join_of(
                            d,
                            es[es.len() - 1].name,
                        ));
                    }
                }
                if ssub.dirs.contains(a) {
                    assert(path_under(path, a) && exists|p: Seq<char>|
                        #[trigger] em.contains_key(p) && is_cut(a, p));
                    assert(is_cut(path, a));
                    lemma_under_trans(d, path, a);
                    assert(staged_dirs_under(em, d).contains(a));
                    assert(dir_covered(d, es, a)) by {
                        assert(es[es.len() - 1].is_dir && path_under(
                            path_join_of(d, es[es.len() - 1].name),
                            a,
                        ));
                    }
                }
                if sf.dirs.contains(a) {
                    let i = choose|i: int|
                        0 <= i < front.len() && #[trigger] front[i].is_dir && (a == path_join_of(
                            d,
                            front[i].name,
                        ) || path_under(path_join_of(d, front[i].name), a));
                    assert(dir_covered(d, es, a));
                }
                if staged_dirs_under(em, d).contains(a) && dir_covered(d, es, a) && a != path
                    && !ssub.dirs.contains(a) {
                    let i = choose|i: int|
                        0 <= i < es.len() && #[trigger] es[i].is_dir && (a == path_join_of(
                            d,
                            es[i].name,
                        ) || path_under(path_join_of(d, es[i].name), a));
                    if i < es.len() - 1 {
                        assert(dir_covered(d, front, a)) by {
                            assert(front[i] == es[i]);
                        }
                    } else {
                        assert(path_under(path, a));
                        assert(ssub.dirs.contains(a));
                    }
                }
            }
            assert(s.dirs =~= Set::new(
                |a: Seq<char>| staged_dirs_under(em, d).contains(a) && dir_covered(d, es, a),
            ));
        } else {
            let s = snapshot_entries(objects, es, d, fuel).unwrap();
            assert(s.files == sf.files.insert(path, e));
            assert(s.dirs == sf.dirs);
            assert forall|q: Seq<char>| #[trigger] s.files.contains_key(q) == (staged_files_under(
                em,
                d,
            ).contains_key(q) && file_covered(d, es, q)) && (s.files.contains_key(q)
                ==> s.files[q] == staged_entry_of(em[q])) by {
                if q == path {
                    assert(file_covered(d, es, q)) by {
                        assert(!es[es.len() - 1].is_dir && q == path_join_of(
                            d,
                            es[es.len() - 1].name,
                        ));
                    }
                }
                if q != path && sf.files.contains_key(q) {
                    let i = choose|i: int|
                        0 <= i < front.len() && (if #[trigger] front[i].is_dir {
                            path_under(path_join_of(d, front[i].name), q)
                        } else {
                            q == path_join_of(d, front[i].name)
                        });
                    assert(file_covered(d, es, q));
                }
                if q != path && staged_files_under(em, d).contains_key(q) && file_covered(
                    d,
                    es,
                    q,
                ) {
                    let i = choose|i: int|
                        0 <= i < es.len() && (if #[trigger] es[i].is_dir {
                            path_under(path_join_of(d, es[i].name), q)
                        } else {
                            q == path_join_of(d, es[i].name)
                        });
                    assert(i < es.len() - 1);
                    assert(file_covered(d, front, q)) by {
                        assert(front[i] == es[i]);
                    }
                }
            }
            assert(s.files =~= Map::new(
                |p: Seq<char>| staged_files_under(em, d).contains_key(p) && file_covered(d, es, p),
                |p: Seq<char>| staged_entry_of(em[p]),
            ));
            assert forall|a: Seq<char>| #[trigger] s.dirs.contains(a) == (staged_dirs_under(
                em,
                d,
            ).contains(a) && dir_covered(d, es, a)) by {
                if sf.dirs.contains(a) {
                    let i = choose|i: int|
                        0 <= i < front.len() && #[trigger] front[i].is_dir && (a == path_join_of(
                            d,
                            front[i].name,
                        ) || path_under(path_join_of(d, front[i].name), a));
                    assert(dir_covered(d, es, a));
                }
                if staged_dirs_under(em, d).contains(a) && dir_covered(d, es, a) {
                    let i = choose|i: int|
                        0 <= i < es.len() && #[trigger] es[i].is_dir && (a == path_join_of(
                            d,
                            es[i].name,
                        ) || path_under(path_join_of(d, es[i].name), a));
                    assert(i < es.len() - 1);
                    assert(dir_covered(d, front, a)) by {
                        assert(front[i] == es[i]);
                    }
                }
            }
            assert(s.dirs =~= Set::new(
                |a: Seq<char>| staged_dirs_under(em, d).contains(a) && dir_covered(d, es, a),
            ));
        }
    }
}

} // verus!
