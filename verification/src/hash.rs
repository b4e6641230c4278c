use vstd::prelude::*;
use vstd::string::StringSliceAdditionalSpecFns;
use vstd::utf8::{is_char_boundary, valid_utf8, decode_utf8, encode_utf8};
use sha1::{Digest, Sha1};
use crate::errors::{ErrorType, ParseError, CommandError};
use crate::object_type::{ObjectType, with_header};
use crate::text::{push_text, text_eq, views};
use crate::text::{hex_char, hex_digit_char, push_char, parse_usize_spec, parse_usize_radix,
    string_from_utf8, digits_value, digit_value};

verus! {

/// The SHA-1 digest of some bytes, as the `sha1` crate computes it.
pub uninterp spec fn sha1_digest(data: Seq<u8>) -> Seq<u8>;

/// `sha1::Sha1`: the 20-byte digest of `content`. Trusted: the result is the
/// digest named `sha1_digest` of the bytes handed in, and SHA-1 digests are
/// 20 bytes long.
#[verifier::external_body]
fn sha1_bytes(content: &[u8]) -> (r: Vec<u8>)
    ensures
        r@ == sha1_digest(content@),
        r@.len() == 20,
{
    let mut hasher = Sha1::new();
    hasher.update(content);
    hasher.finalize().to_vec()
}

/// Whether a text is accepted as a hash: 40 bytes long, as `str::len`
/// counts them.
pub open spec fn valid_hash_text(t: Seq<char>) -> bool {
    encode_utf8(t).len() as usize == 40
}

/// The lowercase hexadecimal text of some bytes, two digits per byte.
pub open spec fn hex_bytes(b: Seq<u8>) -> Seq<char> {
    Seq::new(2 * b.len(), |i: int| if i % 2 == 0 { hex_char((b[i / 2] / 16) as nat) } else { hex_char((b[i / 2] % 16) as nat) })
}

/// The text of the pair of bytes starting at `i` of a hash's UTF-8 bytes, when
/// that pair lies between character boundaries.
pub open spec fn pair_text(b: Seq<u8>, i: int) -> Option<Seq<char>> {
    if is_char_boundary(b, i) && is_char_boundary(b, i + 2) && valid_utf8(b.subrange(i, i + 2)) {
        Some(decode_utf8(b.subrange(i, i + 2)))
    } else {
        None
    }
}

/// The bytes that the first `k` pairs of hexadecimal digits denote; pairs
/// that are not between character boundaries are skipped, and a pair that is
/// not a hexadecimal number makes the whole conversion fail.
pub open spec fn hex_pairs_value(b: Seq<u8>, k: nat) -> Option<Seq<u8>>
    decreases k,
{
    if k == 0 {
        Some(Seq::empty())
    } else {
        match hex_pairs_value(b, (k - 1) as nat) {
            None => None,
            Some(r) => match pair_text(b, 2 * (k - 1)) {
                None => Some(r),
                Some(t) => match parse_usize_spec(t, 16) {
                    None => None,
                    Some(v) => Some(r.push(v as u8)),
                },
            },
        }
    }
}

/// The hash of an object, kept as the text it is written as.
#[derive(Debug, PartialEq, Eq, Hash)]
pub struct GitHash {
    hash: String,
}

impl View for GitHash {
    type V = Seq<char>;

    closed spec fn view(&self) -> Seq<char> {
        self.hash@
    }
}

impl Clone for GitHash {
    fn clone(&self) -> (r: Self)
        ensures
            r@ == self@,
    {
        GitHash { hash: self.hash.clone() }
    }
}

impl GitHash {
    /// A hash from its text; the text must be 40 bytes long.
    pub fn new(hash: &str) -> (r: Result<Self, ErrorType>)
        ensures
            r is Ok <==> valid_hash_text(hash@),
            r matches Ok(h) ==> h@ == hash@,
            r matches Err(e) ==> e matches ErrorType::InvalidHash(s) && s@ == hash@,
    {
        if hash.len() != 40 {
            return Err(ErrorType::InvalidHash(String::from_str(hash)));
        }
        Ok(GitHash { hash: String::from_str(hash) })
    }

    /// Whether two hashes have the same text.
    pub fn same_as(&self, other: &GitHash) -> (r: bool)
        ensures
            r == (self@ == other@),
    {
        self.hash == other.hash
    }

    /// The two-character directory name and the rest of the hash, as objects
    /// are laid out on disk.
    pub(crate) fn split_at_2(&self) -> (r: (&str, &str))
        requires
            is_char_boundary(encode_utf8(self@), 2),
        ensures
            r.0.spec_bytes() == encode_utf8(self@).subrange(0, 2),
            r.1.spec_bytes() == encode_utf8(self@).subrange(2, encode_utf8(self@).len() as int),
    {
        self.hash.as_str().split_at(2)
    }

    /// The text of the hash.
    pub(crate) fn as_str(&self) -> (r: &str)
        ensures
            r@ == self@,
    {
        self.hash.as_str()
    }

    /// The text of the hash (what `Display` writes).
    pub fn to_string(&self) -> (r: String)
        ensures
            r@ == self@,
    {
        self.hash.clone()
    }

    /// The SHA-1 hash of some bytes, as lowercase hexadecimal text.
    pub fn hash_sha1(content: &Vec<u8>) -> (r: Self)
        ensures
            r@ == hex_bytes(sha1_digest(content@)),
            sha1_digest(content@).len() == 20,
    {
        let digest = sha1_bytes(content.as_slice());
        GitHash::from_bytes_hex(&digest)
    }

    fn from_bytes_hex(bytes: &Vec<u8>) -> (r: Self)
        ensures
            r@ == hex_bytes(bytes@),
    {
        let mut hash = String::new();
        let mut i: usize = 0;
        while i < bytes.len()
            invariant
                i <= bytes@.len(),
                hash@ == hex_bytes(bytes@.subrange(0, i as int)),
            decreases bytes.len() - i,
        {
            let b = bytes[i];
            push_char(&mut hash, hex_digit_char((b / 16) as u32));
            push_char(&mut hash, hex_digit_char((b % 16) as u32));
            i = i + 1;
            assert(hash@ =~= hex_bytes(bytes@.subrange(0, i as int)));
        }
        assert(bytes@.subrange(0, bytes@.len() as int) =~= bytes@);
        GitHash { hash }
    }

    /// The hash of an object: SHA-1 of its content prefixed with its header.
    pub fn hash_object(content: &Vec<u8>, obj_type: ObjectType) -> (r: Self)
        ensures
            r@ == hex_bytes(sha1_digest(with_header(content@, obj_type))),
    {
        let header_text = ObjectType::add_header(content, &obj_type);
        Self::hash_sha1(&header_text)
    }

    /// The hash of a commit object with this content.
    pub fn hash_commit(content: &Vec<u8>) -> (r: Self)
        ensures
            r@ == hex_bytes(sha1_digest(with_header(content@, ObjectType::Commit))),
    {
        Self::hash_object(content, ObjectType::Commit)
    }

    /// The hash of a blob object with this content.
    pub fn hash_blob(content: &Vec<u8>) -> (r: GitHash)
        ensures
            r@ == hex_bytes(sha1_digest(with_header(content@, ObjectType::Blob))),
    {
        Self::hash_object(content, ObjectType::Blob)
    }

    /// The hash of a tree object with this content.
    pub fn hash_tree(content: &Vec<u8>) -> (r: GitHash)
        ensures
            r@ == hex_bytes(sha1_digest(with_header(content@, ObjectType::Tree))),
    {
        Self::hash_object(content, ObjectType::Tree)
    }

    /// The hash written as a hash from its hexadecimal text: one byte for each
    /// of the first twenty pairs of digits. A pair that is not a hexadecimal
    /// number gives a parse error.
    pub fn to_hex(&self) -> (r: Result<Vec<u8>, ErrorType>)
        ensures
            r is Ok <==> hex_pairs_value(encode_utf8(self@), 20) is Some,
            r matches Ok(v) ==> v@ == hex_pairs_value(encode_utf8(self@), 20)->0,
            r matches Err(e) ==> e is Parse,
    {
        let text = self.hash.as_str();
        let b = text.as_bytes();
        let ghost bs = encode_utf8(self@);
        assert(b@ == bs);
        proof { vstd::utf8::encode_utf8_valid_utf8(self@); }
        let mut bytes: Vec<u8> = Vec::new();
        let mut k: usize = 0;
        while k < 20
            invariant
                k <= 20,
                b@ == bs,
                bs == encode_utf8(self@),
                valid_utf8(bs),
                text@ == self@,
                hex_pairs_value(bs, k as nat) == Some(bytes@),
            decreases 20 - k,
        {
            let i = 2 * k;
            let ghost prev = bytes@;
            let ok_start = text.is_char_boundary(i);
            let ok_end = text.is_char_boundary(i + 2);
            assert(text.spec_bytes() == encode_utf8(text@));
            assert(text.spec_bytes() == bs);
            assert(ok_end == is_char_boundary(bs, i + 2));
            if ok_start && ok_end {
                assert(i + 2 <= bs.len()) by {
                    reveal_with_fuel(is_char_boundary, 1);
                }
                let pair: Vec<u8> = vec![b[i], b[i + 1]];
                assert(pair@ =~= bs.subrange(i as int, i + 2));
                match string_from_utf8(pair) {
                    Ok(s) => {
                        assert(pair_text(bs, i as int) == Some(s@));
                        match parse_usize_radix(s.as_str(), 16) {
                            Ok(v) => {
                                bytes.push(#[verifier::truncate] (v as u8));
                            },
                            Err(e) => {
                                proof { lemma_hex_pairs_none_stays(bs, (k + 1) as nat, 20); }
                                return Err(ErrorType::Parse(ParseError::Int(e)));
                            },
                        }
                    },
                    Err(_) => {
                        assert(pair_text(bs, i as int) is None);
                    },
                }
            } else {
                assert(pair_text(bs, i as int) is None);
            }
            k = k + 1;
        }
        Ok(bytes)
    }

    /// The hash whose text is the lowercase hexadecimal of the given bytes.
    pub fn from_hex(bytes: &[u8]) -> (r: Result<Self, ErrorType>)
        ensures
            r matches Ok(h) && h@ == hex_bytes(bytes@),
    {
        let v: Vec<u8> = crate::text::slice_range(bytes, 0, bytes.len());
        assert(v@ =~= bytes@);
        Ok(Self::from_bytes_hex(&v))
    }
}

proof fn lemma_hex_pairs_none_stays(b: Seq<u8>, k: nat, m: nat)
    requires
        k <= m,
        hex_pairs_value(b, k) is None,
    ensures
        hex_pairs_value(b, m) is None,
    decreases m - k,
{
    if k < m {
        lemma_hex_pairs_none_stays(b, k + 1, m);
    }
}

proof fn lemma_hex_char_facts(d: nat)
    requires
        d < 16,
    ensures
        digit_value(hex_char(d), 16) == Some(d),
        hex_char(d) != '+',
        (hex_char(d) as u32) < 128,
{
    let c = hex_char(d);
    if d < 10 {
        assert(c as int == d + 48);
    } else {
        assert(c as int == d - 10 + 97);
    }
}

proof fn lemma_hex_bytes_ascii(b: Seq<u8>)
    ensures
        vstd::utf8::is_ascii_chars(hex_bytes(b)),
{
    assert forall|i: int| 0 <= i < hex_bytes(b).len() implies '\0' <= #[trigger] hex_bytes(b)[i] <= '\u{7f}' by {
        lemma_hex_char_facts((b[i / 2] / 16) as nat);
        lemma_hex_char_facts((b[i / 2] % 16) as nat);
    }
}

proof fn lemma_ascii_char_boundary(bs: Seq<u8>, i: int)
    requires
        valid_utf8(bs),
        forall|j: int| 0 <= j < bs.len() ==> bs[j] < 128,
        0 <= i <= bs.len(),
    ensures
        is_char_boundary(bs, i),
{
    if i == bs.len() {
        vstd::utf8::is_char_boundary_start_end_of_seq(bs);
    } else {
        vstd::utf8::is_char_boundary_iff_not_is_continuation_byte(bs, i);
        let x = bs[i];
        assert(!vstd::utf8::is_continuation_byte(x)) by (bit_vector)
            requires x < 128;
    }
}

/// A hash written from bytes converts back to those bytes: for every 20-byte
/// sequence (the size of a SHA-1 digest), the text that `from_hex` makes
/// yields those 20 bytes again through `to_hex`.
pub proof fn lemma_hex_roundtrip(b: Seq<u8>)
    requires
        b.len() == 20,
    ensures
        hex_pairs_value(encode_utf8(hex_bytes(b)), 20) == Some(b),
{
    let h = hex_bytes(b);
    lemma_hex_bytes_ascii(b);
    vstd::utf8::is_ascii_chars_encode_utf8(h);
    vstd::utf8::encode_utf8_valid_utf8(h);
    let bs = encode_utf8(h);
    assert(bs.len() == 40);
    assert forall|j: int| 0 <= j < bs.len() implies bs[j] < 128 by {
        assert(h[j] as u8 == bs[j]);
        assert('\0' <= h[j] <= '\u{7f}');
    }
    lemma_hex_pairs_prefix(b, 20);
}

proof fn lemma_hex_pairs_prefix(b: Seq<u8>, k: nat)
    requires
        b.len() == 20,
        k <= 20,
        valid_utf8(encode_utf8(hex_bytes(b))),
        encode_utf8(hex_bytes(b)).len() == 40,
        forall|j: int| 0 <= j < 40 ==> #[trigger] encode_utf8(hex_bytes(b))[j] == hex_bytes(b)[j] as u8,
        forall|j: int| 0 <= j < 40 ==> encode_utf8(hex_bytes(b))[j] < 128,
    ensures
        hex_pairs_value(encode_utf8(hex_bytes(b)), k) == Some(b.subrange(0, k as int)),
    decreases k,
{
    let h = hex_bytes(b);
    let bs = encode_utf8(h);
    if k > 0 {
        lemma_hex_pairs_prefix(b, (k - 1) as nat);
        let i = 2 * (k - 1);
        lemma_ascii_char_boundary(bs, i);
        lemma_ascii_char_boundary(bs, i + 2);
        let hi = (b[k - 1] / 16) as nat;
        let lo = (b[k - 1] % 16) as nat;
        lemma_hex_char_facts(hi);
        lemma_hex_char_facts(lo);
        let pair = seq![hex_char(hi), hex_char(lo)];
        assert(h[i] == hex_char(hi));
        assert(h[i + 1] == hex_char(lo));
        assert(vstd::utf8::is_ascii_chars(pair));
        vstd::utf8::is_ascii_chars_encode_utf8(pair);
        assert(encode_utf8(pair) =~= bs.subrange(i, i + 2));
        vstd::utf8::encode_utf8_valid_utf8(pair);
        vstd::utf8::encode_utf8_decode_utf8(pair);
        assert(pair_text(bs, i) == Some(pair));
        assert(pair.drop_last() =~= seq![hex_char(hi)]);
        let one = pair.drop_last();
        assert(one.drop_last() =~= Seq::<char>::empty());
        assert(digits_value(one.drop_last(), 16) == Some(0nat));
        assert(one.last() == hex_char(hi));
        assert(digits_value(one, 16) == Some(0 * 16 + hi));
        assert(digits_value(pair.drop_last(), 16) == Some(hi));
        assert(digits_value(pair, 16) == Some(hi * 16 + lo));
        assert(parse_usize_spec(pair, 16) == Some(hi * 16 + lo));
        assert(((hi * 16 + lo) as u8) == b[k - 1]);
        assert(b.subrange(0, k as int) =~= b.subrange(0, k - 1).push(b[k - 1]));
    }
}

/// The hexadecimal text of any bytes converts: every pair of its digits
/// that lies within it is a hexadecimal number, and pairs past its end are
/// skipped.
pub proof fn lemma_hex_converts(b: Seq<u8>, k: nat)
    ensures
        hex_pairs_value(encode_utf8(hex_bytes(b)), k) is Some,
    decreases k,
{
    if k > 0 {
        lemma_hex_converts(b, (k - 1) as nat);
        let h = hex_bytes(b);
        lemma_hex_bytes_ascii(b);
        vstd::utf8::is_ascii_chars_encode_utf8(h);
        vstd::utf8::encode_utf8_valid_utf8(h);
        let bs = encode_utf8(h);
        let i = 2 * (k - 1);
        if i + 2 <= bs.len() {
            assert forall|j: int| 0 <= j < bs.len() implies bs[j] < 128 by {
                assert(h[j] as u8 == bs[j]);
                assert('\0' <= h[j] <= '\u{7f}');
            }
            lemma_ascii_char_boundary(bs, i);
            lemma_ascii_char_boundary(bs, i + 2);
            let q = (k - 1) as int;
            let hi = (b[q] / 16) as nat;
            let lo = (b[q] % 16) as nat;
            lemma_hex_char_facts(hi);
            lemma_hex_char_facts(lo);
            let pair = seq![hex_char(hi), hex_char(lo)];
            assert(h[i] == hex_char(hi));
            assert(h[i + 1] == hex_char(lo));
            assert(vstd::utf8::is_ascii_chars(pair));
            vstd::utf8::is_ascii_chars_encode_utf8(pair);
            assert(encode_utf8(pair) =~= bs.subrange(i, i + 2));
            vstd::utf8::encode_utf8_valid_utf8(pair);
            vstd::utf8::encode_utf8_decode_utf8(pair);
            assert(pair_text(bs, i) == Some(pair));
            let one = pair.drop_last();
            assert(one =~= seq![hex_char(hi)]);
            assert(one.drop_last() =~= Seq::<char>::empty());
            assert(digits_value(one.drop_last(), 16) == Some(0nat));
            assert(one.last() == hex_char(hi));
            assert(digits_value(one, 16) == Some(0 * 16 + hi));
            assert(digits_value(pair.drop_last(), 16) == Some(hi));
            assert(digits_value(pair, 16) == Some(hi * 16 + lo));
            assert(parse_usize_spec(pair, 16) == Some(hi * 16 + lo));
        } else {
            assert(!is_char_boundary(bs, i + 2));
            assert(pair_text(bs, i) is None);
        }
    }
}

/// The object type a word of `hash-object` names.
pub open spec fn type_named(w: Seq<char>) -> Option<ObjectType> {
    if w == "blob"@ {
        Some(ObjectType::Blob)
    } else if w == "commit"@ {
        Some(ObjectType::Commit)
    } else if w == "tree"@ {
        Some(ObjectType::Tree)
    } else {
        None
    }
}

/// The arguments of `hash-object` read up to `n`: the path, the type,
/// whether `-t` and whether `-w` were seen; or the word after `-t` that
/// names no type. The first `-t` and the first `-w` are flags; before `-t`
/// any other argument is the path (the last one counting), after it a type.
pub open spec fn hash_object_args(args: Seq<Seq<char>>, n: nat)
    -> Result<(Option<Seq<char>>, Option<ObjectType>, bool, bool), Seq<char>>
    decreases n,
{
    if n == 0 {
        Ok((None, None, false, false))
    } else {
        match hash_object_args(args, (n - 1) as nat) {
            Err(a) => Err(a),
            Ok((p, t, ft, fw)) => {
                let a = args[n - 1];
                if !ft && a == "-t"@ {
                    Ok((p, t, true, fw))
                } else if !fw && a == "-w"@ {
                    Ok((p, t, ft, true))
                } else if !ft {
                    Ok((Some(a), t, ft, fw))
                } else {
                    match type_named(a) {
                        Some(k) => Ok((p, Some(k), ft, fw)),
                        None => Err(a),
                    }
                }
            },
        }
    }
}

/// Once a word names no type, reading more arguments keeps that error.
proof fn lemma_hash_object_args_err(args: Seq<Seq<char>>, n: nat, m: nat)
    requires
        hash_object_args(args, n) is Err,
        n <= m,
    ensures
        hash_object_args(args, m) == hash_object_args(args, n),
    decreases m - n,
{
    if n < m {
        lemma_hash_object_args_err(args, n, (m - 1) as nat);
    }
}

impl GitHash {
    /// Reads the arguments of `hash-object`: the path of the file, the type
    /// given after `-t` (a blob where none is), and whether `-w` asks for
    /// the object to be written.
    pub fn parse_args(args: Vec<String>) -> (r: Result<(String, Option<ObjectType>, bool), ErrorType>)
        ensures
            match hash_object_args(views(args@), args@.len()) {
                Err(a) => r matches Err(ErrorType::CommandError(CommandError::FormatError(m)))
                    && m@ == "invalid object type '"@ + a + "' in hash-object command"@,
                Ok((None, _, _, _)) => r matches Err(ErrorType::CommandError(CommandError::FormatError(m)))
                    && m@ == "path not found for hash-object command"@,
                Ok((Some(p), t, _, w)) => r matches Ok((rp, rt, rw)) && rp@ == p && rt == t && rw == w,
            },
    {
        let mut found_t = false;
        let mut found_w = false;
        let mut path: Option<String> = None;
        let mut object_type: Option<ObjectType> = None;
        let mut k: usize = 0;
        let ghost all = views(args@);
        while k < args.len()
            invariant
                k <= args@.len(),
                all == views(args@),
                hash_object_args(all, k as nat) == Ok::<(Option<Seq<char>>, Option<ObjectType>, bool, bool), Seq<char>>((
                    match path { Some(p) => Some(p@), None => None }, object_type, found_t, found_w)),
            decreases args.len() - k,
        {
            proof {
                reveal_strlit("-t");
                reveal_strlit("-w");
                reveal_strlit("blob");
                reveal_strlit("commit");
                reveal_strlit("tree");
            }
            let arg = &args[k];
            assert(all[k as int] == arg@);
            if !found_t && text_eq(arg.as_str(), "-t") {
                found_t = true;
            } else if !found_w && text_eq(arg.as_str(), "-w") {
                found_w = true;
            } else if !found_t {
                path = Some(arg.clone());
            } else {
                if text_eq(arg.as_str(), "blob") {
                    object_type = Some(ObjectType::Blob);
                } else if text_eq(arg.as_str(), "commit") {
                    object_type = Some(ObjectType::Commit);
                } else if text_eq(arg.as_str(), "tree") {
                    object_type = Some(ObjectType::Tree);
                } else {
                    proof {
                        lemma_hash_object_args_err(all, (k + 1) as nat, all.len());
                    }
                    let mut m = String::from_str("invalid object type '");
                    push_text(&mut m, arg.as_str());
                    push_text(&mut m, "' in hash-object command");
                    return Err(ErrorType::CommandError(CommandError::FormatError(m)));
                }
            }
            k = k + 1;
        }
        match path {
            Some(p) => Ok((p, object_type, found_w)),
            None => Err(ErrorType::CommandError(CommandError::FormatError(String::from_str(
                "path not found for hash-object command")))),
        }
    }
}

} // verus!
