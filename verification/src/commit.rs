use vstd::prelude::*;

verus! {

use vstd::string::StrSliceExecFns;
use vstd::string::StringExecFns;
use vstd::utf8::encode_utf8;
use crate::object::{Object, ObjectStore, commit_kind, id_of, raw_bytes_of};

/// Builds commit objects.
pub struct CommitBuilder;

/// The text of a commit as one character sequence: the tree line, the
/// parent line when there is a parent, the author line carrying the
/// timestamp, a blank line, and the message.
pub open spec fn commit_chars_of(
    tree: Seq<char>,
    parent: Option<Seq<char>>,
    author: Seq<char>,
    timestamp: Seq<char>,
    message: Seq<char>,
) -> Seq<char> {
    "tree "@ + tree + "\n"@ + (match parent {
        Some(p) => "parent "@ + p + "\n"@,
        None => Seq::<char>::empty(),
    }) + "author "@ + author + " "@ + timestamp + "\n"@ + "\n"@ + message
}

/// The payload bytes of a commit object: its text, UTF-8 encoded.
pub open spec fn commit_text_of(
    tree: Seq<char>,
    parent: Option<Seq<char>>,
    author: Seq<char>,
    timestamp: Seq<char>,
    message: Seq<char>,
) -> Seq<u8> {
    encode_utf8(commit_chars_of(tree, parent, author, timestamp, message))
}

/// The view of an optional hash string.
pub open spec fn opt_view(o: Option<String>) -> Option<Seq<char>> {
    match o {
        Some(s) => Some(s@),
        None => None,
    }
}

/// Composes the payload of a commit object from its parts, exactly as
/// `commit_text_of` describes. With all five parts fixed the result is
/// fixed: composing is deterministic.
pub fn compose_commit(
    tree_hash: &str,
    parent_commit: &Option<String>,
    author_info: &str,
    timestamp: &str,
    commit_message: &str,
) -> (r: Vec<u8>)
    ensures
        r@ == commit_text_of(
            tree_hash@,
            match parent_commit {
                Some(p) => Some(p@),
                None => None,
            },
            author_info@,
            timestamp@,
            commit_message@,
        ),
{
    let mut text = ("tree ").to_owned();
    text.append(tree_hash);
    text.append("\n");
    match parent_commit {
        Some(p) => {
            text.append("parent ");
            text.append(p.as_str());
            text.append("\n");
        },
        None => {},
    }
    text.append("author ");
    text.append(author_info);
    text.append(" ");
    text.append(timestamp);
    text.append("\n");
    text.append("\n");
    text.append(commit_message);
    proof {
        assert(text@ =~= commit_chars_of(
            tree_hash@,
            match parent_commit {
                Some(p) => Some(p@),
                None => None,
            },
            author_info@,
            timestamp@,
            commit_message@,
        ));
    }
    text.as_str().as_bytes_vec()
}

/// Relies on `chrono::Local::now().to_rfc2822()`: the current local time,
/// formatted once. Nothing is promised of the text; it depends on the
/// clock and the machine's time zone. The formatter aborts on a clock that
/// stands outside the years it can write; no argument exists to exclude
/// that by a precondition.
#[verifier::external_body]
fn now_rfc2822() -> String {
    chrono::Local::now().to_rfc2822()
}

impl CommitBuilder {
    /// Creates a commit object from a tree hash, an optional parent hash,
    /// an author and a message, stamped with the current local time, and
    /// stores it. The timestamp is sampled once: for the instant sampled,
    /// the stored object and its identity are functions of the arguments.
    pub fn create_commit(
        store: &mut ObjectStore,
        tree_hash: String,
        parent_commit: Option<String>,
        author_info: String,
        commit_message: String,
    ) -> (hash: String)
        requires
            old(store).wf(),
        ensures
            final(store).wf(),
            exists|ts: Seq<char>|
                {
                    let payload = #[trigger] commit_text_of(
                        tree_hash@,
                        opt_view(parent_commit),
                        author_info@,
                        ts,
                        commit_message@,
                    );
                    hash@ == id_of(commit_kind(), payload) && final(store)@ == old(store)@.insert(
                        hash@,
                        raw_bytes_of(commit_kind(), payload),
                    )
                },
    {
        let timestamp = now_rfc2822();
        let payload = compose_commit(
            &tree_hash,
            &parent_commit,
            author_info.as_str(),
            timestamp.as_str(),
            &commit_message,
        );
        let obj = Object::Commit(payload);
        let hash = obj.save(store);
        proof {
            let ts = timestamp@;
            assert(hash@ == id_of(
                commit_kind(),
                commit_text_of(tree_hash@, opt_view(parent_commit), author_info@, ts, commit_message@),
            ));
        }
        hash
    }
}

/// Commit determinism: with the tree hash, parent, author, message and
/// timestamp all fixed, the composed payload is fixed, its identity is
/// fixed, and storing it twice stores one object.
pub proof fn lemma_commit_deterministic(
    m: Map<Seq<char>, Seq<u8>>,
    tree: Seq<char>,
    parent: Option<Seq<char>>,
    author: Seq<char>,
    timestamp: Seq<char>,
    message: Seq<char>,
)
    ensures
        ({
            let payload = commit_text_of(tree, parent, author, timestamp, message);
            let id = id_of(commit_kind(), payload);
            let raw = raw_bytes_of(commit_kind(), payload);
            m.insert(id, raw).insert(id, raw) == m.insert(id, raw)
        }),
{
    let payload = commit_text_of(tree, parent, author, timestamp, message);
    let id = id_of(commit_kind(), payload);
    let raw = raw_bytes_of(commit_kind(), payload);
    assert(m.insert(id, raw).insert(id, raw) =~= m.insert(id, raw));
}

} // verus!
