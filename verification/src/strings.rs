use vstd::prelude::*;

verus! {

use vstd::string::StrSliceExecFns;
use vstd::string::StringExecFns;
use vstd::utf8::{valid_utf8, decode_utf8, encode_utf8};

/// Relies on `String::from_utf8`: it accepts exactly the byte sequences
/// that are valid UTF-8, and the string it returns holds those bytes.
#[verifier::external_body]
pub fn bytes_to_string(v: Vec<u8>) -> (r: Option<String>)
    ensures
        match r {
            Some(s) => valid_utf8(v@) && s@ == decode_utf8(v@),
            None => !valid_utf8(v@),
        },
{
    match String::from_utf8(v) {
        Ok(s) => Some(s),
        Err(_) => None,
    }
}

/// True when the two string slices hold the same characters.
pub fn str_eq(a: &str, b: &str) -> (r: bool)
    ensures
        r == (a@ == b@),
{
    let alen = a.unicode_len();
    let blen = b.unicode_len();
    if alen != blen {
        return false;
    }
    let mut i: usize = 0;
    while i < alen
        invariant
            0 <= i <= alen,
            alen == a@.len(),
            blen == b@.len(),
            alen == blen,
            forall|j: int| 0 <= j < i ==> a@[j] == b@[j],
        decreases alen - i,
    {
        if a.get_char(i) != b.get_char(i) {
            return false;
        }
        i += 1;
    }
    proof {
        assert(a@ =~= b@);
    }
    true
}

/// True when `s` begins with the characters of `p`.
pub fn str_starts_with(s: &str, p: &str) -> (r: bool)
    ensures
        r == (s@.len() >= p@.len() && s@.subrange(0, p@.len() as int) == p@),
{
    let slen = s.unicode_len();
    let plen = p.unicode_len();
    if slen < plen {
        return false;
    }
    let mut i: usize = 0;
    while i < plen
        invariant
            0 <= i <= plen,
            slen == s@.len(),
            plen == p@.len(),
            slen >= plen,
            forall|j: int| 0 <= j < i ==> s@[j] == p@[j],
        decreases plen - i,
    {
        if s.get_char(i) != p.get_char(i) {
            proof {
                assert(s@.subrange(0, p@.len() as int)[i as int] != p@[i as int]);
            }
            return false;
        }
        i += 1;
    }
    proof {
        assert(s@.subrange(0, p@.len() as int) =~= p@);
    }
    true
}

/// Strips the prefix `p` off `s`, or reports that `s` does not begin with it.
pub fn strip_prefix_str(s: &str, p: &str) -> (r: Option<String>)
    ensures
        match r {
            Some(rest) => {
                &&& s@.len() >= p@.len()
                &&& s@.subrange(0, p@.len() as int) == p@
                &&& rest@ == s@.subrange(p@.len() as int, s@.len() as int)
                &&& s@ == p@ + rest@
            },
            None => !(s@.len() >= p@.len() && s@.subrange(0, p@.len() as int) == p@),
        },
{
    if str_starts_with(s, p) {
        let slen = s.unicode_len();
        let plen = p.unicode_len();
        let rest = s.substring_char(plen, slen);
        proof {
            assert(s@ =~= p@ + s@.subrange(p@.len() as int, s@.len() as int));
        }
        Some(rest.to_owned())
    } else {
        None
    }
}

/// True when no character of `s` is the null character.
pub open spec fn no_nul_chars(s: Seq<char>) -> bool {
    forall|i: int| 0 <= i < s.len() ==> s[i] != '\0'
}

/// Encoding characters other than the null character yields no null byte:
/// a one-byte encoding is the nonzero scalar itself, and every byte of a
/// longer encoding has its high bit set.
pub proof fn lemma_no_nul_encode(s: Seq<char>)
    requires
        no_nul_chars(s),
    ensures
        forall|i: int| 0 <= i < encode_utf8(s).len() ==> #[trigger] encode_utf8(s)[i] != 0,
    decreases s.len(),
{
    if s.len() > 0 {
        let c = s[0] as u32;
        assert(s[0] != '\0');
        assert(c != 0) by {
            vstd::utf8::char_u32_cast(s[0], c);
            if c == 0 {
                assert(('\0' as u32) == 0);
                vstd::utf8::char_u32_cast('\0', 0);
            }
        }
        let first = vstd::utf8::encode_scalar(c);
        assert(forall|i: int| 0 <= i < first.len() ==> #[trigger] first[i] != 0) by {
            assert(c < 0x80 && c != 0 ==> (c & 0x7F) as u8 != 0) by (bit_vector);
            assert(((0xC0u8 | (((c >> 6) & 0x1F) as u8)) != 0) && ((0xE0u8 | (((c >> 12)
                & 0x0F) as u8)) != 0) && ((0xF0u8 | (((c >> 18) & 0x7) as u8)) != 0) && ((0x80u8 | ((
            c & 0x3F) as u8)) != 0) && ((0x80u8 | (((c >> 6) & 0x3F) as u8)) != 0) && ((0x80u8 | (((
            c >> 12) & 0x3F) as u8)) != 0)) by (bit_vector);
        }
        assert(no_nul_chars(s.drop_first()));
        lemma_no_nul_encode(s.drop_first());
        assert(encode_utf8(s) == first + encode_utf8(s.drop_first()));
    }
}

/// The characters that trimming removes from either end of a reference file.
pub open spec fn is_ws_char(c: char) -> bool {
    c == ' ' || c == '\n' || c == '\t' || c == '\r'
}

pub open spec fn trim_front_of(s: Seq<char>) -> Seq<char>
    decreases s.len(),
{
    if s.len() > 0 && is_ws_char(s[0]) {
        trim_front_of(s.drop_first())
    } else {
        s
    }
}

pub open spec fn trim_back_of(s: Seq<char>) -> Seq<char>
    decreases s.len(),
{
    if s.len() > 0 && is_ws_char(s.last()) {
        trim_back_of(s.drop_last())
    } else {
        s
    }
}

/// The characters of `s` with the blank characters at both ends removed.
pub open spec fn trim_of(s: Seq<char>) -> Seq<char> {
    trim_back_of(trim_front_of(s))
}

proof fn lemma_trim_front_subrange(s: Seq<char>, i: int)
    requires
        0 <= i <= s.len(),
        forall|j: int| 0 <= j < i ==> is_ws_char(s[j]),
        i < s.len() ==> !is_ws_char(s[i]),
    ensures
        trim_front_of(s) == s.subrange(i, s.len() as int),
    decreases i,
{
    if i == 0 {
        assert(s.subrange(0, s.len() as int) =~= s);
    } else {
        assert(is_ws_char(s[0]));
        lemma_trim_front_subrange(s.drop_first(), i - 1);
        assert(s.drop_first().subrange(i - 1, s.drop_first().len() as int) =~= s.subrange(
            i,
            s.len() as int,
        ));
    }
}

proof fn lemma_trim_back_subrange(s: Seq<char>, i: int)
    requires
        0 <= i <= s.len(),
        forall|j: int| i <= j < s.len() ==> is_ws_char(s[j]),
        i > 0 ==> !is_ws_char(s[i - 1]),
    ensures
        trim_back_of(s) == s.subrange(0, i),
    decreases s.len() - i,
{
    if i == s.len() {
        assert(s.subrange(0, s.len() as int) =~= s);
    } else {
        assert(is_ws_char(s.last()));
        lemma_trim_back_subrange(s.drop_last(), i);
        assert(s.drop_last().subrange(0, i) =~= s.subrange(0, i));
    }
}

/// A copy of `s` with the blank characters at both ends removed, as
/// `trim_of` describes.
pub fn trim_str(s: &str) -> (r: String)
    ensures
        r@ == trim_of(s@),
{
    let len = s.unicode_len();
    let mut start: usize = 0;
    while start < len && is_ws_exec(s.get_char(start))
        invariant
            0 <= start <= len,
            len == s@.len(),
            forall|j: int| 0 <= j < start ==> is_ws_char(s@[j]),
        decreases len - start,
    {
        start += 1;
    }
    proof {
        lemma_trim_front_subrange(s@, start as int);
    }
    let ghost front = s@.subrange(start as int, s@.len() as int);
    let mut end: usize = len;
    while end > start && is_ws_exec(s.get_char(end - 1))
        invariant
            start <= end <= len,
            len == s@.len(),
            forall|j: int| 0 <= j < start ==> is_ws_char(s@[j]),
            forall|j: int| end <= j < len ==> is_ws_char(s@[j]),
        decreases end,
    {
        end -= 1;
    }
    proof {
        assert(forall|j: int| end - start <= j < front.len() ==> is_ws_char(front[j]));
        lemma_trim_back_subrange(front, end - start);
        assert(front.subrange(0, end - start) =~= s@.subrange(start as int, end as int));
    }
    let r = s.substring_char(start, end);
    r.to_owned()
}

fn is_ws_exec(c: char) -> (r: bool)
    ensures
        r == is_ws_char(c),
{
    c == ' ' || c == '\n' || c == '\t' || c == '\r'
}

/// The index of the last `/` in a path, or `-1` when it has none.
pub open spec fn last_slash_of(p: Seq<char>) -> int
    decreases p.len(),
{
    if p.len() == 0 {
        -1
    } else if p.last() == '/' {
        p.len() - 1
    } else {
        last_slash_of(p.drop_last())
    }
}

pub broadcast proof fn lemma_last_slash_range(p: Seq<char>)
    ensures
        -1 <= #[trigger] last_slash_of(p) < p.len(),
        last_slash_of(p) >= 0 ==> p[last_slash_of(p)] == '/',
        forall|j: int| last_slash_of(p) < j < p.len() ==> p[j] != '/',
    decreases p.len(),
{
    if p.len() > 0 && p.last() != '/' {
        lemma_last_slash_range(p.drop_last());
        assert(forall|j: int|
            last_slash_of(p) < j < p.len() - 1 ==> p[j] == p.drop_last()[j] && p[j] != '/');
    }
}

/// The directory part of a repository-relative path: everything before the
/// last `/`, or the empty string for a top-level name.
pub open spec fn parent_dir_of(p: Seq<char>) -> Seq<char> {
    if last_slash_of(p) < 0 {
        Seq::empty()
    } else {
        p.subrange(0, last_slash_of(p))
    }
}

/// The file-name part of a repository-relative path: everything after the
/// last `/`, or the whole path for a top-level name.
pub open spec fn base_name_of(p: Seq<char>) -> Seq<char> {
    p.subrange(last_slash_of(p) + 1, p.len() as int)
}

/// The directory part of `p`, as `parent_dir_of` describes.
pub fn parent_dir(p: &str) -> (r: String)
    ensures
        r@ == parent_dir_of(p@),
{
    let (i, found) = find_last_slash(p);
    if found {
        p.substring_char(0, i).to_owned()
    } else {
        let r = String::new();
        proof {
            assert(r@ =~= parent_dir_of(p@));
        }
        r
    }
}

/// The file-name part of `p`, as `base_name_of` describes.
pub fn base_name(p: &str) -> (r: String)
    ensures
        r@ == base_name_of(p@),
{
    let len = p.unicode_len();
    let (i, found) = find_last_slash(p);
    if found {
        p.substring_char(i + 1, len).to_owned()
    } else {
        proof {
            assert(p@.subrange(0, p@.len() as int) =~= p@);
        }
        p.substring_char(0, len).to_owned()
    }
}

/// Finds the last `/` of `p`: returns its index and `true`, or `false`
/// when there is none.
fn find_last_slash(p: &str) -> (r: (usize, bool))
    ensures
        r.1 ==> last_slash_of(p@) == r.0 as int && r.0 < p@.len(),
        !r.1 ==> last_slash_of(p@) == -1,
{
    proof {
        lemma_last_slash_range(p@);
    }
    let len = p.unicode_len();
    let mut i: usize = len;
    while i > 0
        invariant
            0 <= i <= len,
            len == p@.len(),
            forall|j: int| i <= j < len ==> p@[j] != '/',
        decreases i,
    {
        i -= 1;
        if p.get_char(i) == '/' {
            proof {
                lemma_last_slash_range(p@);
                assert(last_slash_of(p@) == i as int) by {
                    if last_slash_of(p@) > i as int {
                        assert(p@[last_slash_of(p@)] == '/');
                    }
                    if last_slash_of(p@) < i as int {
                        assert(p@[i as int] != '/');
                    }
                };
            }
            return (i, true);
        }
    }
    proof {
        if last_slash_of(p@) >= 0 {
            assert(p@[last_slash_of(p@)] == '/');
        }
    }
    (0, false)
}

/// Joins a directory and a child name: `name` when the directory is empty,
/// else `dir`, `/`, `name`.
pub open spec fn path_join_of(dir: Seq<char>, name: Seq<char>) -> Seq<char> {
    if dir.len() == 0 {
        name
    } else {
        dir + seq!['/'] + name
    }
}

/// Joins a directory and a child name, as `path_join_of` describes.
pub fn path_join(dir: &str, name: &str) -> (r: String)
    ensures
        r@ == path_join_of(dir@, name@),
{
    if dir.unicode_len() == 0 {
        name.to_owned()
    } else {
        let mut r = dir.to_owned();
        r.append("/");
        r.append(name);
        proof {
            reveal_strlit("/");
            assert(r@ =~= path_join_of(dir@, name@));
        }
        r
    }
}

/// A well-formed repository-relative path: nonempty, `/`-separated with
/// nonempty segments, neither beginning nor ending with a separator.
pub open spec fn path_ok(p: Seq<char>) -> bool {
    &&& p.len() > 0
    &&& p[0] != '/'
    &&& p[p.len() - 1] != '/'
    &&& forall|i: int| 0 < i < p.len() ==> !(#[trigger] p[i] == '/' && p[i - 1] == '/')
}

/// True when `a` is a strict prefix of `p` ending just before a separator:
/// the directories a path passes through are exactly its cuts.
pub open spec fn is_cut(a: Seq<char>, p: Seq<char>) -> bool {
    a.len() < p.len() && p.subrange(0, a.len() as int) == a && p[a.len() as int] == '/'
}

/// True when `p` lies inside the directory `d`: every path lies inside the
/// root (the empty path), and inside each of its cuts.
pub open spec fn path_under(d: Seq<char>, p: Seq<char>) -> bool {
    d.len() == 0 || is_cut(d, p)
}

/// A path that does not begin with a separator is the join of its
/// directory part and its file-name part.
pub proof fn lemma_join_parent_base(p: Seq<char>)
    requires
        p.len() == 0 || p[0] != '/',
    ensures
        path_join_of(parent_dir_of(p), base_name_of(p)) == p,
{
    lemma_last_slash_range(p);
    if last_slash_of(p) < 0 {
        assert(base_name_of(p) =~= p);
    } else {
        assert(parent_dir_of(p).len() > 0) by {
            if last_slash_of(p) == 0 {
                assert(p[0] == '/');
            }
        }
        assert(parent_dir_of(p) + seq!['/'] + base_name_of(p) =~= p);
    }
}

/// A nonempty path lies inside its own directory part.
pub proof fn lemma_under_parent(p: Seq<char>)
    requires
        p.len() > 0,
        p[0] != '/',
    ensures
        path_under(parent_dir_of(p), p),
        parent_dir_of(p).len() > 0 ==> is_cut(parent_dir_of(p), p),
{
    lemma_last_slash_range(p);
    if last_slash_of(p) >= 0 {
        assert(p.subrange(0, last_slash_of(p)) =~= parent_dir_of(p));
        assert(is_cut(parent_dir_of(p), p));
    }
}

/// No cut reaches past the last separator: the directory part is the
/// longest cut.
pub proof fn lemma_cut_at_most_parent(a: Seq<char>, p: Seq<char>)
    requires
        is_cut(a, p),
    ensures
        a.len() <= last_slash_of(p),
        last_slash_of(p) >= 0,
    decreases p.len(),
{
    lemma_last_slash_range(p);
    if a.len() as int > last_slash_of(p) {
        assert(p[a.len() as int] != '/');
    }
}

/// A cut of a cut is a cut of the whole path.
pub proof fn lemma_cut_of_cut(a: Seq<char>, c: Seq<char>, p: Seq<char>)
    requires
        is_cut(a, c),
        is_cut(c, p),
    ensures
        is_cut(a, p),
{
    assert(p.subrange(0, a.len() as int) =~= c.subrange(0, a.len() as int));
    assert(p[a.len() as int] == c[a.len() as int]);
}

/// Of two cuts of one path, the shorter is a cut of the longer.
pub proof fn lemma_shorter_cut(a: Seq<char>, c: Seq<char>, p: Seq<char>)
    requires
        is_cut(a, p),
        is_cut(c, p),
        a.len() < c.len(),
    ensures
        is_cut(a, c),
{
    assert(c.subrange(0, a.len() as int) =~= p.subrange(0, a.len() as int));
    assert(c[a.len() as int] == p[a.len() as int]);
}

/// Two cuts of one path with one length are the same cut.
pub proof fn lemma_equal_cuts(a: Seq<char>, c: Seq<char>, p: Seq<char>)
    requires
        is_cut(a, p),
        is_cut(c, p),
        a.len() == c.len(),
    ensures
        a == c,
{
    assert(a =~= c);
}

/// Lying inside a directory carries through deeper directories.
pub proof fn lemma_under_trans(d: Seq<char>, c: Seq<char>, p: Seq<char>)
    requires
        path_under(d, c),
        is_cut(c, p),
    ensures
        path_under(d, p),
{
    if d.len() > 0 {
        lemma_cut_of_cut(d, c, p);
    }
}

/// Every path inside a directory that is not its immediate parent passes
/// through a child of that directory: a cut whose directory part is `d`.
pub proof fn lemma_path_decompose(d: Seq<char>, p: Seq<char>)
    requires
        path_under(d, p),
        p.len() > 0,
        p[0] != '/',
        parent_dir_of(p) != d,
    ensures
        exists|c: Seq<char>|
            #[trigger] is_cut(c, p) && parent_dir_of(c) == d && path_under(d, c),
    decreases p.len(),
{
    lemma_last_slash_range(p);
    let q = parent_dir_of(p);
    if last_slash_of(p) < 0 {
        assert(q.len() == 0);
        assert(!is_cut(d, p)) by {
            if is_cut(d, p) {
                lemma_cut_at_most_parent(d, p);
            }
        }
        assert(d.len() == 0);
        assert(d =~= q);
        assert(false);
    } else {
        lemma_under_parent(p);
        assert(is_cut(q, p));
        if parent_dir_of(q) == d {
            assert(path_under(d, q)) by {
                if d.len() > 0 {
                    lemma_under_parent(q);
                    assert(q[0] == p[0]);
                }
            }
            assert(is_cut(q, p) && parent_dir_of(q) == d && path_under(d, q));
        } else {
            assert(path_under(d, q)) by {
                if d.len() > 0 {
                    lemma_cut_at_most_parent(d, p);
                    if d.len() == q.len() {
                        lemma_equal_cuts(d, q, p);
                        assert(false);
                    }
                    lemma_shorter_cut(d, q, p);
                }
            }
            assert(q[0] == p[0]);
            lemma_path_decompose(d, q);
            let c = choose|c: Seq<char>|
                #[trigger] is_cut(c, q) && parent_dir_of(c) == d && path_under(d, c);
            lemma_cut_of_cut(c, q, p);
            assert(is_cut(c, p) && parent_dir_of(c) == d && path_under(d, c));
        }
    }
}

/// A cut of a well-formed path is itself a well-formed path.
pub proof fn lemma_cut_path_ok(c: Seq<char>, p: Seq<char>)
    requires
        path_ok(p),
        is_cut(c, p),
    ensures
        path_ok(c),
        c.len() >= 1,
{
    assert(c.len() >= 1) by {
        if c.len() == 0 {
            assert(p[0] == '/');
        }
    }
    assert(c[0] == p[0]);
    assert(c[c.len() - 1] == p[c.len() - 1]);
    assert(p[c.len() as int] == '/');
    assert(!(p[c.len() as int] == '/' && p[c.len() as int - 1] == '/'));
    assert(forall|i: int| 0 < i < c.len() ==> #[trigger] c[i] == p[i] && c[i - 1] == p[i - 1]);
}

/// A well-formed path is strictly more than two characters longer than its
/// directory part, whose last character is no separator.
pub proof fn lemma_parent_two_shorter(c: Seq<char>)
    requires
        path_ok(c),
    ensures
        parent_dir_of(c).len() + 2 <= c.len() || parent_dir_of(c).len() == 0,
{
    lemma_last_slash_range(c);
    if last_slash_of(c) >= 1 {
        assert(c[last_slash_of(c)] == '/');
        assert(last_slash_of(c) != c.len() - 1);
        assert(parent_dir_of(c).len() == last_slash_of(c));
    }
}

/// Encoding never shortens: a scalar takes at least one byte.
pub proof fn lemma_encode_at_least_len(s: Seq<char>)
    ensures
        encode_utf8(s).len() >= s.len(),
    decreases s.len(),
{
    if s.len() > 0 {
        lemma_encode_at_least_len(s.drop_first());
        assert(encode_utf8(s) == vstd::utf8::encode_scalar(s[0] as u32) + encode_utf8(
            s.drop_first(),
        ));
        assert(vstd::utf8::encode_scalar(s[0] as u32).len() >= 1);
    }
}

} // verus!
