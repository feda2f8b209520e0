use vstd::prelude::*;

verus! {

use crate::bytes::{dec_digits, dec_bytes, find_byte, push_bytes, bytes_range, lemma_dec_digits_are_digits};
use crate::hashing::{sha1, sha1_of, hex_of, lemma_hex_of_len, lemma_hex_of_injective, sha1_collision_free};
use crate::kvstore::KvStore;
use crate::reference::RefStore;
use vstd::string::StrSliceExecFns;
use vstd::string::StringExecFns;

/// The object store: a map from a 40-character identity to the stored
/// bytes of the object, header and payload together.
pub type ObjectStore = KvStore<Vec<u8>>;

/// An object to be stored: an immutable, content-addressed byte sequence
/// of one of four kinds.
pub enum Object {
    Commit(Vec<u8>),
    Tree(Vec<u8>),
    Blob(Vec<u8>),
    Tag(Vec<u8>),
}

/// The payload bytes an object carries.
pub open spec fn payload_of(o: Object) -> Seq<u8> {
    match o {
        Object::Commit(d) => d@,
        Object::Tree(d) => d@,
        Object::Blob(d) => d@,
        Object::Tag(d) => d@,
    }
}

/// The ASCII kind name `commit`.
pub open spec fn commit_kind() -> Seq<u8> {
    seq![0x63u8, 0x6fu8, 0x6du8, 0x6du8, 0x69u8, 0x74u8]
}

/// The ASCII kind name `tree`.
pub open spec fn tree_kind() -> Seq<u8> {
    seq![0x74u8, 0x72u8, 0x65u8, 0x65u8]
}

/// The ASCII kind name `blob`.
pub open spec fn blob_kind() -> Seq<u8> {
    seq![0x62u8, 0x6cu8, 0x6fu8, 0x62u8]
}

/// The ASCII kind name `tag`.
pub open spec fn tag_kind() -> Seq<u8> {
    seq![0x74u8, 0x61u8, 0x67u8]
}

/// The ASCII name of an object's kind.
pub open spec fn kind_bytes_of(o: Object) -> Seq<u8> {
    match o {
        Object::Commit(_) => commit_kind(),
        Object::Tree(_) => tree_kind(),
        Object::Blob(_) => blob_kind(),
        Object::Tag(_) => tag_kind(),
    }
}

/// The bytes an object of the given kind and payload is stored as: the
/// kind name, a space, the decimal payload length, a null byte, and the
/// payload.
pub open spec fn raw_bytes_of(kind: Seq<u8>, payload: Seq<u8>) -> Seq<u8> {
    kind + seq![0x20u8] + dec_digits(payload.len()) + seq![0u8] + payload
}

/// The identity of an object of the given kind and payload: the
/// hexadecimal SHA-1 of its stored bytes. Two objects of one kind with one
/// payload always share it.
pub open spec fn id_of(kind: Seq<u8>, payload: Seq<u8>) -> Seq<char> {
    hex_of(sha1_of(raw_bytes_of(kind, payload)))
}

/// The header an object is stored behind: its kind name, a space, the
/// decimal payload length, and a null byte.
pub open spec fn header_of(o: Object) -> Seq<u8> {
    kind_bytes_of(o) + seq![0x20u8] + dec_digits(payload_of(o).len()) + seq![0u8]
}

/// The full stored bytes of an object: header, then payload.
pub open spec fn raw_of(o: Object) -> Seq<u8> {
    raw_bytes_of(kind_bytes_of(o), payload_of(o))
}

/// An object's identity, as `id_of` describes.
pub open spec fn object_id_of(o: Object) -> Seq<char> {
    id_of(kind_bytes_of(o), payload_of(o))
}

/// True when every stored byte sequence lies under its own identity — what
/// a store holds after being filled by `save` alone. Under this and the
/// collision-freedom of the digest, re-storing anything preserves every
/// stored value.
pub open spec fn objects_consistent(m: Map<Seq<char>, Seq<u8>>) -> bool {
    forall|k: Seq<char>| #[trigger] m.contains_key(k) ==> k == hex_of(sha1_of(m[k]))
}

/// The index of the first null byte of `data`, or its length if none.
pub open spec fn first_nul_of(data: Seq<u8>) -> int
    decreases data.len(),
{
    if data.len() == 0 {
        0
    } else if data[0] == 0 {
        0
    } else {
        1 + first_nul_of(data.drop_first())
    }
}

/// The payload that loading stored bytes returns: everything after the
/// first null byte. Bytes without one lose their first byte, as storing
/// never writes such a sequence.
pub open spec fn strip_header_of(data: Seq<u8>) -> Seq<u8> {
    if first_nul_of(data) < data.len() {
        data.subrange(first_nul_of(data) + 1, data.len() as int)
    } else if data.len() >= 1 {
        data.subrange(1, data.len() as int)
    } else {
        Seq::empty()
    }
}

/// What loading an identity from a store returns: the stripped payload
/// when the identity is long enough and present, absence otherwise.
pub open spec fn load_result(m: Map<Seq<char>, Seq<u8>>, sha: Seq<char>) -> Option<Seq<u8>> {
    if sha.len() >= 40 && m.contains_key(sha) {
        Some(strip_header_of(m[sha]))
    } else {
        None
    }
}

/// Pins `first_nul_of` to a witness: the index of a null byte with none
/// before it.
pub proof fn lemma_first_nul_at(data: Seq<u8>, i: int)
    requires
        0 <= i <= data.len(),
        i < data.len() ==> data[i] == 0,
        forall|j: int| 0 <= j < i ==> data[j] != 0,
        i == data.len() ==> forall|j: int| 0 <= j < data.len() ==> data[j] != 0,
    ensures
        first_nul_of(data) == i,
    decreases data.len(),
{
    if data.len() > 0 && data[0] != 0 {
        lemma_first_nul_at(data.drop_first(), i - 1);
    }
}

impl Object {
    /// The ASCII kind name, as `kind_bytes_of` describes.
    fn kind_label(&self) -> (r: Vec<u8>)
        ensures
            r@ == kind_bytes_of(*self),
    {
        let mut v: Vec<u8> = Vec::new();
        match self {
            Object::Commit(_) => {
                v.push(0x63);
                v.push(0x6f);
                v.push(0x6d);
                v.push(0x6d);
                v.push(0x69);
                v.push(0x74);
            },
            Object::Tree(_) => {
                v.push(0x74);
                v.push(0x72);
                v.push(0x65);
                v.push(0x65);
            },
            Object::Blob(_) => {
                v.push(0x62);
                v.push(0x6c);
                v.push(0x6f);
                v.push(0x62);
            },
            Object::Tag(_) => {
                v.push(0x74);
                v.push(0x61);
                v.push(0x67);
            },
        }
        proof {
            assert(v@ =~= kind_bytes_of(*self));
        }
        v
    }

    /// A reference to the payload.
    fn payload_ref(&self) -> (r: &Vec<u8>)
        ensures
            r@ == payload_of(*self),
    {
        match self {
            Object::Commit(d) => d,
            Object::Tree(d) => d,
            Object::Blob(d) => d,
            Object::Tag(d) => d,
        }
    }

    /// The stored bytes of the object, as `raw_of` describes.
    pub fn raw_bytes(&self) -> (r: Vec<u8>)
        ensures
            r@ == raw_of(*self),
    {
        let mut r = self.kind_label();
        r.push(0x20);
        let payload = self.payload_ref();
        let len_bytes = dec_bytes(payload.len() as u64);
        push_bytes(&mut r, len_bytes.as_slice());
        r.push(0);
        push_bytes(&mut r, payload.as_slice());
        proof {
            assert(r@ =~= raw_of(*self));
        }
        r
    }

    /// The identity the object would be stored under, without storing it.
    pub fn id(&self) -> (r: String)
        ensures
            r@ == object_id_of(*self),
            r@.len() == 40,
            sha1_of(raw_of(*self)).len() == 20,
    {
        let raw = self.raw_bytes();
        let r = sha1(raw.as_slice());
        proof {
            lemma_hex_of_len(sha1_of(raw_of(*self)));
        }
        r
    }

    /// Stores the object under its identity and returns that identity.
    /// Re-storing identical content overwrites it with the same bytes.
    pub fn save(&self, store: &mut ObjectStore) -> (hash: String)
        requires
            old(store).wf(),
        ensures
            final(store).wf(),
            hash@ == object_id_of(*self),
            hash@.len() == 40,
            sha1_of(raw_of(*self)).len() == 20,
            final(store)@ == old(store)@.insert(object_id_of(*self), raw_of(*self)),
            objects_consistent(old(store)@) ==> objects_consistent(final(store)@),
            objects_consistent(old(store)@) && sha1_collision_free() ==> forall|k: Seq<char>|
                #[trigger] old(store)@.contains_key(k) ==> final(store)@[k] == old(store)@[k],
    {
        let raw = self.raw_bytes();
        let hash = sha1(raw.as_slice());
        proof {
            lemma_hex_of_len(sha1_of(raw_of(*self)));
        }
        store.insert(hash.clone(), raw);
        proof {
            let id = object_id_of(*self);
            if objects_consistent(old(store)@) {
                assert forall|k: Seq<char>| #[trigger] store@.contains_key(k) implies k == hex_of(
                    sha1_of(store@[k]),
                ) by {
                    if k != id {
                        assert(old(store)@.contains_key(k));
                    }
                }
                if sha1_collision_free() && old(store)@.contains_key(id) {
                    lemma_hex_of_injective(sha1_of(old(store)@[id]), sha1_of(raw_of(*self)));
                    assert(old(store)@[id] == raw_of(*self));
                }
            }
        }
        hash
    }

    /// Loads the payload of the object stored under `sha`: the stored
    /// bytes after their header, or nothing when `sha` is shorter than an
    /// identity or absent from the store.
    pub fn load(store: &ObjectStore, sha: &str) -> (r: Option<Vec<u8>>)
        requires
            store.wf(),
        ensures
            match r {
                Some(v) => load_result(store@, sha@) == Some(v@),
                None => load_result(store@, sha@) is None,
            },
    {
        if sha.unicode_len() < 40 {
            return None;
        }
        let data = match store.get(sha) {
            Some(d) => d,
            None => {
                return None;
            },
        };
        let ghost dv = data@;
        let dlen = data.len();
        match find_byte(data.as_slice(), 0, 0) {
            Some(pos) => {
                proof {
                    lemma_first_nul_at(dv, pos as int);
                }
                Some(bytes_range(data.as_slice(), pos + 1, dlen))
            },
            None => {
                proof {
                    lemma_first_nul_at(dv, dv.len() as int);
                }
                if data.len() >= 1 {
                    Some(bytes_range(data.as_slice(), 1, data.len()))
                } else {
                    let empty: Vec<u8> = Vec::new();
                    proof {
                        assert(empty@ =~= strip_header_of(dv));
                    }
                    Some(empty)
                }
            },
        }
    }

    /// Creates the tag reference `refs/tags/<tag_name>`, pointing it at
    /// `obj_hash`.
    pub fn create_tag_ref(refs: &mut RefStore, tag_name: &str, obj_hash: &str)
        requires
            old(refs).wf(),
        ensures
            final(refs).wf(),
            final(refs)@ == old(refs)@.insert("refs/tags/"@ + tag_name@, obj_hash@),
    {
        let mut name = ("refs/tags/").to_owned();
        name.append(tag_name);
        refs.insert(name, obj_hash.to_owned());
    }
}

/// The header holds no null byte before its final one, so stripping the
/// stored bytes of an object returns exactly its payload.
pub proof fn lemma_strip_raw_bytes(kind: Seq<u8>, payload: Seq<u8>)
    requires
        forall|i: int| 0 <= i < kind.len() ==> kind[i] != 0,
    ensures
        strip_header_of(raw_bytes_of(kind, payload)) == payload,
{
    let raw = raw_bytes_of(kind, payload);
    let hlen = kind.len() + 1 + dec_digits(payload.len()).len() + 1;
    lemma_dec_digits_are_digits(payload.len());
    assert(forall|j: int| 0 <= j < hlen - 1 ==> raw[j] != 0);
    assert(raw[hlen - 1] == 0);
    lemma_first_nul_at(raw, hlen - 1);
    assert(raw.subrange(hlen as int, raw.len() as int) =~= payload);
}

/// `lemma_strip_raw_bytes`, for a held object.
pub proof fn lemma_strip_raw(o: Object)
    ensures
        strip_header_of(raw_of(o)) == payload_of(o),
{
    lemma_strip_raw_bytes(kind_bytes_of(o), payload_of(o));
}

/// Content addressing: storing an object is deterministic — its identity
/// is a function of kind and payload alone — and loading that identity
/// from the updated store returns exactly the payload stored.
pub proof fn lemma_load_after_save(m: Map<Seq<char>, Seq<u8>>, o: Object)
    requires
        sha1_of(raw_of(o)).len() == 20,
    ensures
        load_result(m.insert(object_id_of(o), raw_of(o)), object_id_of(o)) == Some(payload_of(o)),
{
    lemma_hex_of_len(sha1_of(raw_of(o)));
    lemma_strip_raw(o);
}

/// Deduplication: objects of one kind with one payload share one identity,
/// so storing the second changes nothing — the store keeps a single copy.
pub proof fn lemma_save_idempotent(m: Map<Seq<char>, Seq<u8>>, o: Object)
    ensures
        m.insert(object_id_of(o), raw_of(o)).insert(object_id_of(o), raw_of(o)) == m.insert(
            object_id_of(o),
            raw_of(o),
        ),
        m.insert(object_id_of(o), raw_of(o)).dom() == m.dom().insert(object_id_of(o)),
{
    assert(m.insert(object_id_of(o), raw_of(o)).insert(object_id_of(o), raw_of(o)) =~= m.insert(
        object_id_of(o),
        raw_of(o),
    ));
    assert(m.insert(object_id_of(o), raw_of(o)).dom() =~= m.dom().insert(object_id_of(o)));
}

} // verus!
