use vstd::prelude::*;
use vstd::utf8::{valid_utf8, decode_utf8, encode_utf8};
use crate::errors::{CommandError, ErrorType};
use crate::compressor::{Compressor, zlib_inflate};
use crate::text::{split_on, split_char, words, split_whitespace, views, push_text, text_eq,
    string_from_utf8, invalid_data, find_char, lemma_find_char_bound, lemma_split_on_none, lemma_split_on_cons, is_word,
    lemma_words_cons, lemma_words_single};

verus! {

/// The text of an object file: its decompressed bytes, where they are UTF-8.
pub open spec fn object_file_text(file: Seq<u8>) -> Option<Seq<char>> {
    match zlib_inflate(file) {
        Some(b) => if valid_utf8(b) { Some(decode_utf8(b)) } else { None },
        None => None,
    }
}

/// What `cat-file -p` shows: the text after the last NUL.
pub open spec fn content_of(text: Seq<char>) -> Seq<char> {
    split_on(text, '\0').last()
}

/// What `cat-file -s` shows: the last word before the first NUL.
pub open spec fn size_of(text: Seq<char>) -> Option<Seq<char>> {
    let w = words(split_on(text, '\0')[0]);
    if w.len() == 0 { None } else { Some(w.last()) }
}

/// What `cat-file -t` shows: the first word.
pub open spec fn type_of(text: Seq<char>) -> Option<Seq<char>> {
    let w = words(text);
    if w.len() == 0 { None } else { Some(w[0]) }
}

proof fn lemma_split_on_nonempty(s: Seq<char>, c: char)
    ensures
        split_on(s, c).len() >= 1,
    decreases s.len(),
{
    crate::text::lemma_find_char_bound(s, c);
}

/// `cat-file -p` shows the whole body of an object: for a text made of a
/// header, a NUL and a body without NUL, it is exactly the body, line breaks
/// and all.
pub proof fn law_cat_file_content_is_body(header: Seq<char>, body: Seq<char>)
    requires
        !body.contains('\0'),
    ensures
        content_of(header + seq!['\0'] + body) == body,
    decreases header.len(),
{
    let s = header + seq!['\0'] + body;
    let k = find_char(s, '\0');
    lemma_find_char_bound(s, '\0');
    assert(s[header.len() as int] == '\0');
    assert(k <= header.len());
    assert(k < s.len());
    let rest = s.subrange(k as int + 1, s.len() as int);
    assert(split_on(s, '\0') == seq![s.subrange(0, k as int)] + split_on(rest, '\0'));
    if k == header.len() {
        assert(rest =~= body);
        lemma_split_on_none(body, '\0');
    } else {
        let h2 = header.subrange(k as int + 1, header.len() as int);
        assert(rest =~= h2 + seq!['\0'] + body);
        law_cat_file_content_is_body(h2, body);
        lemma_split_on_nonempty(rest, '\0');
    }
}

/// `cat-file -t` shows the object's type: for a text that starts with a
/// word and a space, the word.
pub proof fn law_cat_file_type_is_first_word(kind: Seq<char>, rest: Seq<char>)
    requires
        is_word(kind),
    ensures
        type_of(kind + seq![' '] + rest) == Some(kind),
{
    lemma_words_cons(kind, rest);
}

/// `cat-file -s` shows the object's size: for a text `<type> <size>`, a NUL
/// and a body, where type and size are words without NUL, the size.
pub proof fn law_cat_file_size_is_header_size(kind: Seq<char>, size: Seq<char>, body: Seq<char>)
    requires
        is_word(kind),
        is_word(size),
        !kind.contains('\0'),
        !size.contains('\0'),
    ensures
        size_of(kind + seq![' '] + size + seq!['\0'] + body) == Some(size),
{
    let header = kind + seq![' '] + size;
    assert(!header.contains('\0')) by {
        if header.contains('\0') {
            let k = choose|k: int| 0 <= k < header.len() && header[k] == '\0';
            if k < kind.len() {
                assert(kind[k] == '\0');
                assert(kind.contains('\0'));
            } else if k > kind.len() {
                assert(size[k - kind.len() - 1] == '\0');
                assert(size.contains('\0'));
            }
        }
    }
    lemma_split_on_cons(header, '\0', body);
    assert(header + seq!['\0'] + body == kind + seq![' '] + size + seq!['\0'] + body);
    lemma_words_cons(kind, size);
    lemma_words_single(size);
    assert(words(header) =~= seq![kind, size]);
}

/// The file of an object, where it exists (`None` where it does not).
pub fn open_file_for_cat_file(hash_object: &str, object_file: Option<&[u8]>) -> (r: Result<Vec<u8>, ErrorType>)
    ensures
        match object_file {
            Some(f) => r matches Ok(v) && v@ == f@,
            None => r matches Err(ErrorType::CommandError(CommandError::InvalidHash(s)))
                && s@ == hash_object@ + " not in objects"@,
        },
{
    match object_file {
        Some(f) => Ok(crate::text::slice_range(f, 0, f.len())),
        None => {
            let mut msg = String::from_str(hash_object);
            push_text(&mut msg, " not in objects");
            Err(ErrorType::CommandError(CommandError::InvalidHash(msg)))
        },
    }
}

/// The text an object file holds once decompressed; an I/O error where it
/// does not decompress or is not UTF-8.
pub fn read_decoder(file: &[u8]) -> (r: Result<String, ErrorType>)
    ensures
        match object_file_text(file@) {
            Some(t) => r matches Ok(s) && s@ == t,
            None => r matches Err(e) && e is IOError,
        },
{
    let bytes = match Compressor::uncompress(file) {
        Ok(b) => b,
        Err(e) => return Err(e),
    };
    match string_from_utf8(bytes) {
        Ok(s) => Ok(s),
        Err(_) => Err(ErrorType::IOError(invalid_data())),
    }
}

/// Opens and decompresses an object file.
pub fn decoder_object(hash_object: &str, object_file: Option<&[u8]>) -> (r: Result<String, ErrorType>)
    ensures
        object_file is None ==> r matches Err(ErrorType::CommandError(CommandError::InvalidHash(_))),
        object_file matches Some(f) ==> match object_file_text(f@) {
            Some(t) => r matches Ok(s) && s@ == t,
            None => r matches Err(e) && e is IOError,
        },
{
    let file = match open_file_for_cat_file(hash_object, object_file) {
        Ok(f) => f,
        Err(e) => return Err(e),
    };
    read_decoder(file.as_slice())
}

/// The content of an object: its text after the last NUL.
pub fn cat_file_objects_content(hash_oject: &str, object_file: Option<&[u8]>) -> (r: Result<String, ErrorType>)
    ensures
        object_file is None ==> r matches Err(ErrorType::CommandError(CommandError::InvalidHash(_))),
        object_file matches Some(f) ==> match object_file_text(f@) {
            Some(t) => r matches Ok(s) && s@ == content_of(t),
            None => r matches Err(e) && e is IOError,
        },
{
    let text = match decoder_object(hash_oject, object_file) {
        Ok(t) => t,
        Err(e) => return Err(e),
    };
    let parts = split_char(text.as_str(), '\0');
    proof { lemma_split_on_nonempty(text@, '\0'); }
    assert(views(parts@).last() == parts@.last()@);
    let last = parts.len() - 1;
    Ok(parts[last].clone())
}

/// The declared size of an object: the last word before the first NUL.
pub fn cat_file_object_size(hash_oject: &str, object_file: Option<&[u8]>) -> (r: Result<String, ErrorType>)
    ensures
        object_file is None ==> r matches Err(ErrorType::CommandError(CommandError::InvalidHash(_))),
        object_file matches Some(f) ==> match object_file_text(f@) {
            Some(t) => match size_of(t) {
                Some(w) => r matches Ok(s) && s@ == w,
                None => r matches Err(ErrorType::FormatError(_)),
            },
            None => r matches Err(e) && e is IOError,
        },
{
    let text = match decoder_object(hash_oject, object_file) {
        Ok(t) => t,
        Err(e) => return Err(e),
    };
    let parts = split_char(text.as_str(), '\0');
    proof { lemma_split_on_nonempty(text@, '\0'); }
    assert(views(parts@)[0] == parts@[0]@);
    let ws = split_whitespace(parts[0].as_str());
    if ws.len() == 0 {
        return Err(ErrorType::FormatError(String::from_str("without separation by whitespace character.")));
    }
    assert(views(ws@).last() == ws@.last()@);
    let last = ws.len() - 1;
    Ok(ws[last].clone())
}

/// The type of an object: the first word of its text.
pub fn cat_file_object_type(hash_oject: &str, object_file: Option<&[u8]>) -> (r: Result<String, ErrorType>)
    ensures
        object_file is None ==> r matches Err(ErrorType::CommandError(CommandError::InvalidHash(_))),
        object_file matches Some(f) ==> match object_file_text(f@) {
            Some(t) => match type_of(t) {
                Some(w) => r matches Ok(s) && s@ == w,
                None => r matches Err(ErrorType::FormatError(_)),
            },
            None => r matches Err(e) && e is IOError,
        },
{
    let text = match decoder_object(hash_oject, object_file) {
        Ok(t) => t,
        Err(e) => return Err(e),
    };
    let ws = split_whitespace(text.as_str());
    if ws.len() == 0 {
        return Err(ErrorType::FormatError(String::from_str("without separation by whitespace character.")));
    }
    assert(views(ws@)[0] == ws@[0]@);
    Ok(ws[0].clone())
}

/// The `cat-file` command: for a hash of 40 bytes and the object's file
/// (`None` where there is none), shows the object's content (`-p`), size
/// (`-s`) or type (`-t`). Any other option is refused.
pub fn cat_file(option: &str, hash_oject: &str, object_file: Option<&[u8]>) -> (r: Result<String, ErrorType>)
    ensures
        encode_utf8(hash_oject@).len() as usize != 40 ==> r matches Err(ErrorType::CommandError(CommandError::InvalidHash(_))),
        encode_utf8(hash_oject@).len() as usize == 40 && !(option@ == "-p"@ || option@ == "-s"@ || option@ == "-t"@) ==> (
            r matches Err(ErrorType::CommandError(CommandError::UnknownOption(a, b))) && a@ == "-p, -s or -t"@ && b@ == option@),
        encode_utf8(hash_oject@).len() as usize == 40 && (option@ == "-p"@ || option@ == "-s"@ || option@ == "-t"@) ==> match object_file {
            None => r matches Err(ErrorType::CommandError(CommandError::InvalidHash(_))),
            Some(f) => match object_file_text(f@) {
                None => r matches Err(e) && e is IOError,
                Some(t) => if option@ == "-p"@ {
                    r matches Ok(s) && s@ == content_of(t)
                } else {
                    match (if option@ == "-s"@ { size_of(t) } else { type_of(t) }) {
                        Some(w) => r matches Ok(s) && s@ == w,
                        None => r matches Err(ErrorType::FormatError(_)),
                    }
                },
            },
        },
{
    if hash_oject.len() != 40 {
        return Err(ErrorType::CommandError(CommandError::InvalidHash(String::from_str("Hash length must be 40"))));
    }
    proof {
        reveal_strlit("-p");
        reveal_strlit("-s");
        reveal_strlit("-t");
    }
    if text_eq(option, "-p") {
        cat_file_objects_content(hash_oject, object_file)
    } else if text_eq(option, "-s") {
        cat_file_object_size(hash_oject, object_file)
    } else if text_eq(option, "-t") {
        cat_file_object_type(hash_oject, object_file)
    } else {
        Err(ErrorType::CommandError(CommandError::UnknownOption(
            String::from_str("-p, -s or -t"),
            String::from_str(option),
        )))
    }
}

} // verus!
