use vstd::prelude::*;
use crate::errors::{ErrorType, ParseError};
use crate::object_type::{ObjectType, object_kind_name, with_header, object_header_bytes, ascii_bytes, lemma_decimal_ascii};
use crate::text::{bytes_before, bytes_after, latin1, find_byte, find_byte_exec, latin1_string,
    parse_usize_spec, parse_usize_radix, str_to_chars, chars_eq, slice_range, digits_value,
    digit_value, decimal, lemma_find_byte_bound, lemma_find_byte_concat, push_text, string_from_utf8};
use crate::assoc::{assoc_map, distinct_keys, find_key, lemma_assoc_update, lemma_assoc_push,
    lemma_assoc_remove, lemma_assoc_distinct, lemma_assoc_absent};
use crate::compressor::{Compressor, zlib_inflate, zlib_deflate};
use crate::hash::{GitHash, sha1_digest, hex_bytes};
use crate::blob::Blob;
use crate::errors::CommandError;
use vstd::utf8::{valid_utf8, decode_utf8};

verus! {

/// Reading and writing of stored objects.
#[derive(Clone, Copy, Debug, PartialEq, Eq, Structural)]
pub struct GitObject;

/// The object type a header names, if it names one.
pub open spec fn kind_of_name(name: Seq<char>) -> Option<ObjectType> {
    if name == object_kind_name(ObjectType::Tree) {
        Some(ObjectType::Tree)
    } else if name == object_kind_name(ObjectType::Blob) {
        Some(ObjectType::Blob)
    } else if name == object_kind_name(ObjectType::Commit) {
        Some(ObjectType::Commit)
    } else {
        None
    }
}

/// The text before the first space of a stored object: its type name.
pub open spec fn stored_type_text(content: Seq<u8>) -> Seq<char> {
    latin1(bytes_before(content, 32))
}

/// The text between the first space and the first NUL after it: its size.
pub open spec fn stored_size_text(content: Seq<u8>) -> Seq<char> {
    latin1(bytes_before(bytes_after(content, 32), 0))
}

/// Everything after that NUL: the object's content.
pub open spec fn stored_body(content: Seq<u8>) -> Seq<u8> {
    bytes_after(bytes_after(content, 32), 0)
}

impl GitObject {
    /// Splits a stored object into type, declared size and content. The type
    /// is the text before the first space, the size the decimal text between
    /// it and the following NUL byte, and the content all that follows.
    /// An unknown type name gives an `ObjectType` error; a size that is not a
    /// decimal number a parse error.
    pub fn parse_object_content(content: Vec<u8>) -> (r: Result<(ObjectType, usize, Vec<u8>), ErrorType>)
        ensures
            kind_of_name(stored_type_text(content@)) is None <==> r matches Err(ErrorType::ObjectType(_, _)),
            kind_of_name(stored_type_text(content@)) is Some
                && parse_usize_spec(stored_size_text(content@), 10) is None
                <==> r matches Err(ErrorType::Parse(_)),
            kind_of_name(stored_type_text(content@)) is Some
                && parse_usize_spec(stored_size_text(content@), 10) is Some ==> r is Ok,
            r matches Ok((t, size, body)) ==> {
                &&& kind_of_name(stored_type_text(content@)) == Some(t)
                &&& parse_usize_spec(stored_size_text(content@), 10) == Some(size as nat)
                &&& body@ == stored_body(content@)
            },
    {
        let c = content.as_slice();
        let sp = find_byte_exec(c, 32);
        proof { lemma_find_byte_bound(content@, 32); }
        let type_bytes = slice_range(c, 0, sp);
        let obj_type_text = latin1_string(type_bytes.as_slice());
        let type_chars = str_to_chars(obj_type_text.as_str());
        let obj_type = if chars_eq(type_chars.as_slice(), vec!['t', 'r', 'e', 'e'].as_slice()) {
            assert(type_chars@ =~= object_kind_name(ObjectType::Tree));
            ObjectType::Tree
        } else if chars_eq(type_chars.as_slice(), vec!['b', 'l', 'o', 'b'].as_slice()) {
            assert(type_chars@ =~= object_kind_name(ObjectType::Blob));
            ObjectType::Blob
        } else if chars_eq(type_chars.as_slice(), vec!['c', 'o', 'm', 'm', 'i', 't'].as_slice()) {
            assert(type_chars@ =~= object_kind_name(ObjectType::Commit));
            ObjectType::Commit
        } else {
            assert(type_chars@ != object_kind_name(ObjectType::Tree)) by {
                if type_chars@ == object_kind_name(ObjectType::Tree) {
                    assert(type_chars@ =~= seq!['t', 'r', 'e', 'e']);
                }
            }
            assert(type_chars@ != object_kind_name(ObjectType::Blob)) by {
                if type_chars@ == object_kind_name(ObjectType::Blob) {
                    assert(type_chars@ =~= seq!['b', 'l', 'o', 'b']);
                }
            }
            assert(type_chars@ != object_kind_name(ObjectType::Commit)) by {
                if type_chars@ == object_kind_name(ObjectType::Commit) {
                    assert(type_chars@ =~= seq!['c', 'o', 'm', 'm', 'i', 't']);
                }
            }
            return Err(ErrorType::ObjectType(String::from_str("tree, blob or commit"), obj_type_text));
        };
        let rest1: Vec<u8> = if sp < c.len() { slice_range(c, sp + 1, c.len()) } else { Vec::new() };
        assert(rest1@ =~= bytes_after(content@, 32));
        let r1 = rest1.as_slice();
        let nul = find_byte_exec(r1, 0);
        proof { lemma_find_byte_bound(rest1@, 0); }
        let size_bytes = slice_range(r1, 0, nul);
        let size_text = latin1_string(size_bytes.as_slice());
        let size = match parse_usize_radix(size_text.as_str(), 10) {
            Ok(n) => n,
            Err(e) => { return Err(ErrorType::Parse(ParseError::Int(e))); },
        };
        let body: Vec<u8> = if nul < r1.len() { slice_range(r1, nul + 1, r1.len()) } else { Vec::new() };
        assert(body@ =~= stored_body(content@));
        Ok((obj_type, size, body))
    }
}

proof fn lemma_latin1_ascii(s: Seq<char>)
    requires
        forall|i: int| 0 <= i < s.len() ==> (s[i] as u32) < 128,
    ensures
        latin1(ascii_bytes(s)) == s,
{
    assert forall|i: int| 0 <= i < s.len() implies latin1(ascii_bytes(s))[i] == s[i] by {
        let c = s[i];
        assert(((c as u8) as char) == c) by {
            vstd::utf8::char_u32_cast(c, c as u32);
        }
    }
    assert(latin1(ascii_bytes(s)) =~= s);
}

proof fn lemma_decimal_value(n: nat)
    ensures
        digits_value(decimal(n), 10) == Some(n),
    decreases n,
{
    let d = decimal(n);
    assert(digit_value(crate::text::decimal_char(n % 10), 10) == Some(n % 10)) by {
        assert(crate::text::decimal_char(n % 10) as int == n % 10 + 48);
    }
    if n >= 10 {
        lemma_decimal_value(n / 10);
        assert(d.drop_last() =~= decimal(n / 10));
        assert(digits_value(d, 10) == Some((n / 10) * 10 + n % 10));
    } else {
        assert(d.drop_last() =~= Seq::<char>::empty());
        assert(digits_value(d.drop_last(), 10) == Some(0nat));
        assert(d.len() == 1);
    }
}

/// An object with its header reads back as it was written: for every type and
/// every content, parsing `add_header(content, type)` gives that type, the
/// content's length and the content.
pub proof fn lemma_parse_object_roundtrip(content: Seq<u8>, t: ObjectType)
    requires
        content.len() <= usize::MAX,
    ensures
        kind_of_name(stored_type_text(with_header(content, t))) == Some(t),
        parse_usize_spec(stored_size_text(with_header(content, t)), 10) == Some(content.len()),
        stored_body(with_header(content, t)) == content,
{
    let name = object_kind_name(t);
    let dec = decimal(content.len());
    lemma_decimal_ascii(content.len());
    lemma_decimal_value(content.len());
    let name_b = ascii_bytes(name);
    let dec_b = ascii_bytes(dec);
    let all = with_header(content, t);
    let rest = dec_b + seq![0u8] + content;
    assert(all =~= name_b + (seq![32u8] + rest));
    assert(forall|i: int| 0 <= i < name_b.len() ==> name_b[i] != 32u8);
    lemma_find_byte_concat(name_b, seq![32u8] + rest, 32);
    assert(find_byte(seq![32u8] + rest, 32) == 0);
    assert(bytes_before(all, 32) =~= name_b);
    assert(bytes_after(all, 32) =~= rest);
    lemma_latin1_ascii(name);
    assert(forall|i: int| 0 <= i < dec_b.len() ==> dec_b[i] != 0u8);
    assert(rest =~= dec_b + (seq![0u8] + content));
    lemma_find_byte_concat(dec_b, seq![0u8] + content, 0);
    assert(find_byte(seq![0u8] + content, 0) == 0);
    assert(bytes_before(rest, 0) =~= dec_b);
    assert(bytes_after(rest, 0) =~= content);
    assert forall|i: int| 0 <= i < dec.len() implies (dec[i] as u32) < 128 by {}
    lemma_latin1_ascii(dec);
    assert(dec[0] != '+');
}

/// The files of an object store as key-value pairs: hash text and the bytes
/// of the stored file.
pub open spec fn store_pairs(v: Seq<(String, Vec<u8>)>) -> Seq<(Seq<char>, Seq<u8>)> {
    v.map_values(|p: (String, Vec<u8>)| (p.0@, p.1@))
}

/// A store after files are kept under hashes, one after another: a later
/// file under the same hash replaces an earlier one.
pub open spec fn stored_after(m: Map<Seq<char>, Seq<u8>>, s: Seq<(Seq<char>, Seq<u8>)>) -> Map<Seq<char>, Seq<u8>>
    decreases s.len(),
{
    if s.len() == 0 {
        m
    } else {
        stored_after(m, s.drop_last()).insert(s.last().0, s.last().1)
    }
}

/// Keeping two lists of files one after the other is keeping their
/// concatenation.
pub proof fn lemma_stored_after_concat(m: Map<Seq<char>, Seq<u8>>, a: Seq<(Seq<char>, Seq<u8>)>, b: Seq<(Seq<char>, Seq<u8>)>)
    ensures
        stored_after(m, a + b) == stored_after(stored_after(m, a), b),
    decreases b.len(),
{
    if b.len() == 0 {
        assert(a + b =~= a);
    } else {
        lemma_stored_after_concat(m, a, b.drop_last());
        assert((a + b).drop_last() =~= a + b.drop_last());
        assert((a + b).last() == b.last());
    }
}

/// Keeping one more file.
pub proof fn lemma_stored_after_push(m: Map<Seq<char>, Seq<u8>>, a: Seq<(Seq<char>, Seq<u8>)>, x: (Seq<char>, Seq<u8>))
    ensures
        stored_after(m, a.push(x)) == stored_after(m, a).insert(x.0, x.1),
{
    assert(a.push(x).drop_last() =~= a);
}

/// The objects of a repository: for each hash, the compressed file that
/// holds the object. The objects saved since the store was loaded are also
/// kept apart, to be written out.
pub struct ObjectStore {
    files: Vec<(String, Vec<u8>)>,
    written: Vec<(String, Vec<u8>)>,
}

impl View for ObjectStore {
    type V = Map<Seq<char>, Seq<u8>>;

    closed spec fn view(&self) -> Map<Seq<char>, Seq<u8>> {
        assoc_map(store_pairs(self.files@))
    }
}

impl ObjectStore {
    #[verifier::type_invariant]
    spec fn well_formed(&self) -> bool {
        distinct_keys(store_pairs(self.files@))
    }

    /// The objects saved since the store was loaded, as hash and file bytes,
    /// in the order they were saved.
    pub closed spec fn written_view(&self) -> Seq<(Seq<char>, Seq<u8>)> {
        store_pairs(self.written@)
    }

    /// An empty store.
    pub fn new() -> (r: Self)
        ensures
            r@ == Map::<Seq<char>, Seq<u8>>::empty(),
            r.written_view() == Seq::<(Seq<char>, Seq<u8>)>::empty(),
    {
        let r = ObjectStore { files: Vec::new(), written: Vec::new() };
        assert(store_pairs(r.files@) =~= Seq::<(Seq<char>, Seq<u8>)>::empty());
        assert(store_pairs(r.written@) =~= Seq::<(Seq<char>, Seq<u8>)>::empty());
        r
    }

    fn put(&mut self, hash: &str, file: Vec<u8>)
        ensures
            final(self)@ == old(self)@.insert(hash@, file@),
            final(self).written_view() == old(self).written_view(),
    {
        proof { use_type_invariant(&*self); }
        let ghost s = store_pairs(self.files@);
        let mut files: Vec<(String, Vec<u8>)> = Vec::new();
        std::mem::swap(&mut files, &mut self.files);
        match find_key(&files, hash) {
            Some(k) => {
                proof { lemma_assoc_update(s, k as int, file@); }
                files.set(k, (String::from_str(hash), file));
                assert(store_pairs(files@) =~= s.update(k as int, (s[k as int].0, s.update(k as int, (s[k as int].0, files@[k as int].1@))[k as int].1)));
            },
            None => {
                proof {
                    assert forall|i: int| 0 <= i < s.len() implies s[i].0 != hash@ by {
                        assert(s[i].0 == files@[i].0@);
                    }
                    lemma_assoc_absent(s, hash@);
                    lemma_assoc_push(s, hash@, file@);
                }
                files.push((String::from_str(hash), file));
                assert(store_pairs(files@) =~= s.push((hash@, files@.last().1@)));
            },
        }
        self.files = files;
    }

    /// Adds the file of an object read from the repository.
    pub fn load(&mut self, hash: &str, file: Vec<u8>)
        ensures
            final(self)@ == old(self)@.insert(hash@, file@),
            final(self).written_view() == old(self).written_view(),
    {
        self.put(hash, file);
    }

    /// The file of the object with this hash, if the store holds it.
    pub fn get(&self, hash: &str) -> (r: Option<Vec<u8>>)
        ensures
            match r {
                Some(v) => self@.contains_key(hash@) && v@ == self@[hash@],
                None => !self@.contains_key(hash@),
            },
    {
        proof { use_type_invariant(self); lemma_assoc_distinct(store_pairs(self.files@)); }
        match find_key(&self.files, hash) {
            Some(k) => {
                assert(store_pairs(self.files@)[k as int] == (self.files@[k as int].0@, self.files@[k as int].1@));
                assert(self@.contains_key(store_pairs(self.files@)[k as int].0));
                Some(slice_range(self.files[k].1.as_slice(), 0, self.files[k].1.len()))
            },
            None => {
                proof {
                    let s = store_pairs(self.files@);
                    assert forall|i: int| 0 <= i < s.len() implies s[i].0 != hash@ by {
                        assert(s[i].0 == self.files@[i].0@);
                    }
                    lemma_assoc_absent(s, hash@);
                }
                None
            },
        }
    }

    /// Takes an object out of the store, where it is there.
    pub fn remove(&mut self, hash: &str)
        ensures
            final(self)@ == old(self)@.remove(hash@),
            final(self).written_view() == old(self).written_view(),
    {
        proof { use_type_invariant(&*self); }
        let ghost s = store_pairs(self.files@);
        let mut files: Vec<(String, Vec<u8>)> = Vec::new();
        std::mem::swap(&mut files, &mut self.files);
        match find_key(&files, hash) {
            Some(k) => {
                proof { lemma_assoc_remove(s, k as int); }
                files.remove(k);
                assert(store_pairs(files@) =~= s.remove(k as int));
            },
            None => {
                proof {
                    assert forall|i: int| 0 <= i < s.len() implies s[i].0 != hash@ by {
                        assert(s[i].0 == files@[i].0@);
                    }
                    lemma_assoc_absent(s, hash@);
                    assert(assoc_map(s).remove(hash@) =~= assoc_map(s));
                }
            },
        }
        self.files = files;
    }

    /// The objects saved since the store was loaded, to be written out.
    pub fn written_objects(&self) -> (r: Vec<(String, Vec<u8>)>)
        ensures
            store_pairs(r@) == self.written_view(),
    {
        let mut r: Vec<(String, Vec<u8>)> = Vec::new();
        let mut i: usize = 0;
        while i < self.written.len()
            invariant
                i <= self.written@.len(),
                store_pairs(r@) == store_pairs(self.written@).subrange(0, i as int),
            decreases self.written.len() - i,
        {
            let (h, f) = &self.written[i];
            let ghost prev = store_pairs(r@);
            let fc = slice_range(f.as_slice(), 0, f.len());
            assert(fc@ =~= f@);
            let hc = h.clone();
            r.push((hc, fc));
            assert(store_pairs(r@) =~= prev.push((h@, f@)));
            i = i + 1;
            assert(store_pairs(r@) =~= store_pairs(self.written@).subrange(0, i as int));
        }
        assert(store_pairs(self.written@).subrange(0, self.written@.len() as int) =~= store_pairs(self.written@));
        r
    }
}

/// Where the bytes of a stored object cannot be split as `<type> <size>\0`:
/// no space or no NUL byte in them.
pub open spec fn lacks_separators(data: Seq<u8>) -> bool {
    !data.contains(32u8) || !data.contains(0u8)
}

/// The type, declared size and content of the object with this hash, where
/// the store holds it, it decompresses, and its header is well formed.
pub open spec fn object_parts(store: Map<Seq<char>, Seq<u8>>, hash: Seq<char>) -> Option<(ObjectType, nat, Seq<u8>)> {
    if !store.contains_key(hash) {
        None
    } else {
        match zlib_inflate(store[hash]) {
            None => None,
            Some(data) => {
                if lacks_separators(data) {
                    None
                } else {
                    match (kind_of_name(stored_type_text(data)), parse_usize_spec(stored_size_text(data), 10)) {
                        (Some(t), Some(n)) => Some((t, n, stored_body(data))),
                        _ => None,
                    }
                }
            },
        }
    }
}

/// The hash of an object stored with this type and content.
pub open spec fn object_hash(content: Seq<u8>, t: ObjectType) -> Seq<char> {
    hex_bytes(sha1_digest(with_header(content, t)))
}

impl GitObject {
    /// The compressed file of an object; an error where the store does not
    /// hold it.
    pub fn open_object(hash_object: &GitHash, store: &ObjectStore) -> (r: Result<Vec<u8>, ErrorType>)
        ensures
            store@.contains_key(hash_object@) ==> (r matches Ok(v) && v@ == store@[hash_object@]),
            !store@.contains_key(hash_object@) ==> (r matches Err(ErrorType::CommandError(CommandError::InvalidHash(s)))
                && s@ == hash_object@ + " not in objects"@),
    {
        match store.get(hash_object.as_str()) {
            Some(v) => Ok(v),
            None => {
                let mut msg = hash_object.to_string();
                push_text(&mut msg, " not in objects");
                Err(ErrorType::CommandError(CommandError::InvalidHash(msg)))
            },
        }
    }

    /// Reads an object from the store and splits it into type, declared size
    /// and content.
    pub fn parse_object(hash: &GitHash, store: &ObjectStore) -> (r: Result<(ObjectType, usize, Vec<u8>), ErrorType>)
        ensures
            match object_parts(store@, hash@) {
                Some((t, n, c)) => r matches Ok((t2, n2, c2)) && t2 == t && n2 == n && c2@ == c,
                None => r is Err,
            },
            r matches Err(e) ==> !store@.contains_key(hash@) || e is IOError || e is FormatError,
    {
        let file = match Self::open_object(hash, store) {
            Ok(f) => f,
            Err(e) => return Err(e),
        };
        let file_content = match Compressor::uncompress(file.as_slice()) {
            Ok(c) => c,
            Err(e) => return Err(e),
        };
        let sp = find_byte_exec(file_content.as_slice(), 32);
        let nul = find_byte_exec(file_content.as_slice(), 0);
        proof {
            lemma_find_byte_bound(file_content@, 32);
            lemma_find_byte_bound(file_content@, 0);
            if file_content@.contains(32u8) {
                let w = choose|w: int| 0 <= w < file_content@.len() && file_content@[w] == 32u8;
                assert(find_byte(file_content@, 32) <= w);
            }
            if file_content@.contains(0u8) {
                let w = choose|w: int| 0 <= w < file_content@.len() && file_content@[w] == 0u8;
                assert(find_byte(file_content@, 0) <= w);
            }
            if sp < file_content@.len() {
                assert(file_content@.contains(32u8));
            }
            if nul < file_content@.len() {
                assert(file_content@.contains(0u8));
            }
        }
        if sp >= file_content.len() || nul >= file_content.len() {
            let mut msg = String::from_str("object '");
            push_text(&mut msg, hash.as_str());
            push_text(&mut msg, "' has invalid format (should be [<type> <size>\0<content>])");
            return Err(ErrorType::FormatError(msg));
        }
        match Self::parse_object_content(file_content) {
            Ok(v) => Ok(v),
            Err(ErrorType::Parse(_)) => {
                let mut msg = String::from_str("Invalid size in object ");
                push_text(&mut msg, hash.as_str());
                Err(ErrorType::FormatError(msg))
            },
            Err(ErrorType::ObjectType(_, g)) => {
                let mut msg = String::from_str("invalid object type '");
                push_text(&mut msg, g.as_str());
                push_text(&mut msg, "' in object ");
                push_text(&mut msg, hash.as_str());
                Err(ErrorType::FormatError(msg))
            },
            Err(e) => Err(e),
        }
    }

    /// Reads a blob: its content must be UTF-8 text and its type a blob.
    pub fn read_blob(hash: &GitHash, store: &ObjectStore) -> (r: Result<Blob, ErrorType>)
        ensures
            match object_parts(store@, hash@) {
                Some((t, n, c)) => {
                    if !valid_utf8(c) {
                        r matches Err(ErrorType::FormatError(_))
                    } else if t != ObjectType::Blob {
                        r matches Err(ErrorType::ObjectType(a, b)) && a@ == "blob"@ && b@ == object_kind_name(t)
                    } else {
                        r matches Ok(blob) && blob@ == decode_utf8(c)
                    }
                },
                None => r is Err,
            },
    {
        let (obj_type, _, content) = match Self::parse_object(hash, store) {
            Ok(p) => p,
            Err(e) => return Err(e),
        };
        let text = match string_from_utf8(content) {
            Ok(t) => t,
            Err(_) => {
                let mut msg = String::from_str("invalid_content in blob object ");
                push_text(&mut msg, hash.as_str());
                return Err(ErrorType::FormatError(msg));
            },
        };
        match obj_type {
            ObjectType::Blob => Ok(Blob::new(text)),
            _ => Err(ErrorType::ObjectType(String::from_str("blob"), obj_type.to_string())),
        }
    }

    /// Stores an object of this type and content: its header is added, the
    /// whole is hashed and compressed, and the compressed file is kept under
    /// the hash. Returns the hash. Reading the hash back gives the type and
    /// the content.
    pub fn save_object(content: Vec<u8>, obj_type: ObjectType, store: &mut ObjectStore) -> (r: Result<GitHash, ErrorType>)
        ensures
            r is Ok,
            r matches Ok(h) ==> {
                &&& h@ == object_hash(content@, obj_type)
                &&& final(store)@ == old(store)@.insert(h@, zlib_deflate(with_header(content@, obj_type)))
                &&& final(store).written_view() == old(store).written_view().push(
                    (h@, zlib_deflate(with_header(content@, obj_type))))
                &&& object_parts(final(store)@, h@) == Some((obj_type, content@.len(), content@))
            },
            r matches Err(e) ==> e is IOError && final(store)@ == old(store)@
                && final(store).written_view() == old(store).written_view(),
    {
        let header_content = ObjectType::add_header(&content, &obj_type);
        let hash = GitHash::hash_sha1(&header_content);
        let compressed = match Compressor::compress(header_content) {
            Ok(c) => c,
            Err(e) => return Err(e),
        };
        proof {
            let data = with_header(content@, obj_type);
            assert(content@.len() == content.len());
            lemma_parse_object_roundtrip(content@, obj_type);
            let name_len = object_kind_name(obj_type).len();
            assert(data[name_len as int] == 32u8);
            assert(data.contains(32u8));
            let z = object_header_bytes(obj_type, content@.len()).len() - 1;
            assert(data[z as int] == 0u8);
            assert(data.contains(0u8));
        }
        store.put(hash.as_str(), compressed.clone());
        proof { use_type_invariant(&*store); }
        let ghost w = store_pairs(store.written@);
        let mut written: Vec<(String, Vec<u8>)> = Vec::new();
        std::mem::swap(&mut written, &mut store.written);
        written.push((hash.to_string(), compressed));
        assert(store_pairs(written@) =~= w.push((hash@, zlib_deflate(with_header(content@, obj_type)))));
        store.written = written;
        Ok(hash)
    }

    /// Stores a commit object.
    pub fn save_commit(content: Vec<u8>, store: &mut ObjectStore) -> (r: Result<GitHash, ErrorType>)
        ensures
            r is Ok,
            r matches Ok(h) ==> h@ == object_hash(content@, ObjectType::Commit)
                && object_parts(final(store)@, h@) == Some((ObjectType::Commit, content@.len(), content@))
                && final(store)@ == old(store)@.insert(h@, zlib_deflate(with_header(content@, ObjectType::Commit)))
                && final(store).written_view() == old(store).written_view().push(
                    (h@, zlib_deflate(with_header(content@, ObjectType::Commit)))),
            r is Err ==> final(store)@ == old(store)@,
            r matches Err(e) ==> e is IOError,
    {
        Self::save_object(content, ObjectType::Commit, store)
    }

    /// Stores a tree object.
    pub fn save_tree(content: Vec<u8>, store: &mut ObjectStore) -> (r: Result<GitHash, ErrorType>)
        ensures
            r is Ok,
            r matches Ok(h) ==> h@ == object_hash(content@, ObjectType::Tree)
                && object_parts(final(store)@, h@) == Some((ObjectType::Tree, content@.len(), content@))
                && final(store)@ == old(store)@.insert(h@, zlib_deflate(with_header(content@, ObjectType::Tree)))
                && final(store).written_view() == old(store).written_view().push(
                    (h@, zlib_deflate(with_header(content@, ObjectType::Tree)))),
            r is Err ==> final(store)@ == old(store)@,
            r matches Err(e) ==> e is IOError,
    {
        Self::save_object(content, ObjectType::Tree, store)
    }

    /// Stores a blob object.
    pub fn save_blob(content: Vec<u8>, store: &mut ObjectStore) -> (r: Result<GitHash, ErrorType>)
        ensures
            r is Ok,
            r matches Ok(h) ==> h@ == object_hash(content@, ObjectType::Blob)
                && object_parts(final(store)@, h@) == Some((ObjectType::Blob, content@.len(), content@))
                && final(store)@ == old(store)@.insert(h@, zlib_deflate(with_header(content@, ObjectType::Blob)))
                && final(store).written_view() == old(store).written_view().push(
                    (h@, zlib_deflate(with_header(content@, ObjectType::Blob)))),
            r is Err ==> final(store)@ == old(store)@,
            r matches Err(e) ==> e is IOError,
    {
        Self::save_object(content, ObjectType::Blob, store)
    }

    /// Deletes an object from the store, where it is there.
    pub fn delete_object(hash: &GitHash, store: &mut ObjectStore)
        ensures
            final(store)@ == old(store)@.remove(hash@),
            final(store).written_view() == old(store).written_view(),
    {
        store.remove(hash.as_str());
    }
}

} // verus!
