//! Where fetched sources and build outputs are kept, and checking a fetched source.

use vstd::prelude::*;
use vstd::utf8::{
    decode_utf8, encode_utf8, encode_utf8_decode_utf8, encode_utf8_valid_utf8,
    is_char_boundary, is_char_boundary_iff_not_is_continuation_byte,
    is_char_boundary_start_end_of_seq, valid_utf8_split,
};

use crate::foreign::{sha256_digest, sha256_hex};
use crate::recipe::{EquivHash, SourceContents};

verus! {

/// Joining `comp` onto the path `base` as `Path::join` does on Unix: a
/// `comp` that starts at the root replaces `base`; otherwise one separator is
/// put between them unless `base` is empty or already ends with one.
pub open spec fn path_join(base: Seq<char>, comp: Seq<char>) -> Seq<char> {
    if comp.len() > 0 && comp[0] == '/' {
        comp
    } else if base.len() == 0 || base.last() == '/' {
        base + comp
    } else {
        base + seq!['/'] + comp
    }
}

/// Joins `comp` onto the path `base`, as `Path::join` does on Unix.
pub fn path_join_exec(base: String, comp: &str) -> (res: String)
    ensures
        res@ == path_join(base@, comp@),
{
    let n = comp.unicode_len();
    if n > 0 && comp.get_char(0) == '/' {
        return comp.to_owned();
    }
    let b = base.as_str();
    let m = b.unicode_len();
    if m == 0 || b.get_char(m - 1) == '/' {
        base.concat(comp)
    } else {
        proof {
            reveal_strlit("/");
        }
        let joined = base.concat("/").concat(comp);
        assert(joined@ =~= base@ + seq!['/'] + comp@);
        joined
    }
}

/// The characters that the bytes `lo..hi` of the UTF-8 encoding of `s` encode.
pub open spec fn byte_range_chars(s: Seq<char>, lo: int, hi: int) -> Seq<char> {
    decode_utf8(encode_utf8(s).subrange(lo, hi))
}

/// `hash` can be cut after its second and fourth bytes.
pub open spec fn cuttable_hash(hash: Seq<char>) -> bool {
    let b = encode_utf8(hash);
    &&& b.len() >= 4
    &&& is_char_boundary(b, 2)
    &&& is_char_boundary(b, 4)
}

/// The path `<root>/<kind>/<hash bytes 0..2>/<hash bytes 2..4>/<hash>`.
pub open spec fn cache_path(root: Seq<char>, kind: Seq<char>, hash: Seq<char>) -> Seq<char> {
    path_join(
        path_join(
            path_join(path_join(root, kind), byte_range_chars(hash, 0, 2)),
            byte_range_chars(hash, 2, 4),
        ),
        hash,
    )
}

/// An ASCII text of four or more characters, a digest text among them, can always be cut after its second and fourth bytes.
pub proof fn lemma_ascii_hash_cuttable(hash: Seq<char>)
    requires
        hash.len() >= 4,
        vstd::utf8::is_ascii_chars(hash),
    ensures
        cuttable_hash(hash),
{
    let b = encode_utf8(hash);
    vstd::utf8::is_ascii_chars_encode_utf8(hash);
    assert(b.len() == hash.len());
    encode_utf8_valid_utf8(hash);
    if b.len() > 2 {
        is_char_boundary_iff_not_is_continuation_byte(b, 2);
    }
    if b.len() > 4 {
        is_char_boundary_iff_not_is_continuation_byte(b, 4);
    } else {
        is_char_boundary_start_end_of_seq(b);
    }
}

fn cache_path_exec(root: &str, kind: &str, hash: &str) -> (res: String)
    requires
        cuttable_hash(hash@),
    ensures
        res@ == cache_path(root@, kind@, hash@),
{
    let ghost b = encode_utf8(hash@);
    proof {
        encode_utf8_valid_utf8(hash@);
        valid_utf8_split(b, 2);
        let rest = b.subrange(2, b.len() as int);
        if b.len() > 4 {
            is_char_boundary_iff_not_is_continuation_byte(b, 4);
            is_char_boundary_iff_not_is_continuation_byte(rest, 2);
            assert(rest[2] == b[4]);
        } else {
            is_char_boundary_start_end_of_seq(rest);
        }
    }
    let (first, rest) = hash.split_at(2);
    let (second, _) = rest.split_at(2);
    proof {
        assert(encode_utf8(second@) =~= b.subrange(2, 4));
        encode_utf8_decode_utf8(first@);
        encode_utf8_decode_utf8(second@);
    }
    let p = path_join_exec(root.to_owned(), kind);
    let p = path_join_exec(p, first);
    let p = path_join_exec(p, second);
    path_join_exec(p, hash)
}

/// Where the source archive with SHA-256 digest `hash` is kept:
/// `build-cache/source/<first two bytes>/<next two bytes>/<hash>`.
pub fn source_path(hash: &str) -> (res: String)
    requires
        cuttable_hash(hash@),
    ensures
        res@ == cache_path("build-cache"@, "source"@, hash@),
{
    cache_path_exec("build-cache", "source", hash)
}

/// Where the build output named `hash` is kept:
/// `build-cache/build/<first two bytes>/<next two bytes>/<hash>`.
pub fn dep_path(hash: &EquivHash) -> (res: String)
    requires
        cuttable_hash(hash.0@),
    ensures
        res@ == cache_path("build-cache"@, "build"@, hash.0@),
{
    cache_path_exec("build-cache", "build", hash.0.as_str())
}

/// Whether `data` has the SHA-256 digest that `source` expects.
pub fn source_matches(source: &SourceContents, data: &[u8]) -> (res: bool)
    ensures
        res == (source.sha@ == sha256_hex(data@)),
{
    let digest = sha256_digest(data);
    source.sha == digest
}

/// Every digest text can be cut where the cache paths cut it, so a path
/// can be made for every hash this library computes.
pub proof fn law_digest_paths_exist(h: Seq<char>)
    requires
        crate::recipe::is_digest_text(h),
    ensures
        cuttable_hash(h),
{
    assert(vstd::utf8::is_ascii_chars(h)) by {
        assert forall|i: int| 0 <= i < h.len() implies '\0' <= #[trigger] h[i] <= '\u{7f}' by {
            assert(crate::foreign::is_lower_hex_digit(h[i]));
        }
    }
    lemma_ascii_hash_cuttable(h);
}

} // verus!
