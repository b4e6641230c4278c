use vstd::prelude::*;
use crate::hash::{GitHash, sha1_digest, hex_bytes};
use crate::object_type::{ObjectType, with_header};
use crate::text::text_bytes;

verus! {

/// The content of a file, as stored in a blob object.
pub struct Blob {
    content: String,
}

impl View for Blob {
    type V = Seq<char>;

    closed spec fn view(&self) -> Seq<char> {
        self.content@
    }
}

impl Blob {
    /// A blob holding this text.
    pub fn new(content: String) -> (r: Self)
        ensures
            r@ == content@,
    {
        Blob { content }
    }

    /// The text of the blob.
    pub fn get_content(&self) -> (r: String)
        ensures
            r@ == self@,
    {
        self.content.clone()
    }

    /// The hash of the blob object that holds this text.
    pub fn get_hash(&self) -> (r: GitHash)
        ensures
            r@ == hex_bytes(sha1_digest(with_header(vstd::utf8::encode_utf8(self@), ObjectType::Blob))),
    {
        let bytes = text_bytes(self.content.as_str());
        GitHash::hash_blob(&bytes)
    }
}

} // verus!
