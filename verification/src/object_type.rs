use vstd::prelude::*;
use crate::text::{decimal, usize_to_decimal, str_to_chars};

verus! {

/// The three kinds of object that a repository stores.
#[derive(Clone, Copy, Debug, PartialEq, Eq, Structural)]
pub enum ObjectType {
    Commit,
    Blob,
    Tree,
}

/// The name of an object type as it appears in headers and listings.
pub open spec fn object_kind_name(t: ObjectType) -> Seq<char> {
    match t {
        ObjectType::Commit => seq!['c', 'o', 'm', 'm', 'i', 't'],
        ObjectType::Blob => seq!['b', 'l', 'o', 'b'],
        ObjectType::Tree => seq!['t', 'r', 'e', 'e'],
    }
}

/// The bytes of an ASCII text, one per character.
pub open spec fn ascii_bytes(s: Seq<char>) -> Seq<u8> {
    s.map_values(|c: char| c as u8)
}

/// The header of a stored object: `<type> <size>\0`.
pub open spec fn object_header_bytes(t: ObjectType, size: nat) -> Seq<u8> {
    ascii_bytes(object_kind_name(t)) + seq![32u8] + ascii_bytes(decimal(size)) + seq![0u8]
}

/// A stored object: its header followed by its content.
pub open spec fn with_header(content: Seq<u8>, t: ObjectType) -> Seq<u8> {
    object_header_bytes(t, content.len()) + content
}

pub(crate) fn push_ascii(v: &mut Vec<u8>, s: &[char])
    requires
        forall|i: int| 0 <= i < s@.len() ==> (s@[i] as u32) < 256,
    ensures
        final(v)@ == old(v)@ + ascii_bytes(s@),
{
    let mut i: usize = 0;
    let ghost start = v@;
    while i < s.len()
        invariant
            i <= s@.len(),
            forall|j: int| 0 <= j < s@.len() ==> (s@[j] as u32) < 256,
            v@ == start + ascii_bytes(s@.subrange(0, i as int)),
        decreases s.len() - i,
    {
        let c = s[i];
        let b: u8 = c as u8;
        v.push(b);
        i = i + 1;
        assert(ascii_bytes(s@.subrange(0, i as int)) =~= ascii_bytes(s@.subrange(0, i - 1)).push(b));
    }
    assert(s@.subrange(0, s@.len() as int) =~= s@);
}

impl ObjectType {
    /// The name of the type: "commit", "blob" or "tree".
    pub fn to_string(&self) -> (s: String)
        ensures
            s@ == object_kind_name(*self),
    {
        let v: Vec<char> = match self {
            ObjectType::Commit => vec!['c', 'o', 'm', 'm', 'i', 't'],
            ObjectType::Blob => vec!['b', 'l', 'o', 'b'],
            ObjectType::Tree => vec!['t', 'r', 'e', 'e'],
        };
        let s = crate::text::chars_to_string(v.as_slice());
        assert(s@ =~= object_kind_name(*self));
        s
    }

    /// Prefixes an object's content with its header, `<type> <size>\0`, the
    /// form in which objects are hashed and stored.
    pub fn add_header(content: &Vec<u8>, obj_type: &ObjectType) -> (r: Vec<u8>)
        ensures
            r@ == with_header(content@, *obj_type),
    {
        let size = usize_to_decimal(content.len());
        let name = obj_type.to_string();
        let name_chars = str_to_chars(name.as_str());
        let size_chars = str_to_chars(size.as_str());
        let mut header_content: Vec<u8> = Vec::new();
        proof {
            assert forall|i: int| 0 <= i < name_chars@.len() implies (name_chars@[i] as u32) < 256 by {
                assert(name_chars@[i] == object_kind_name(*obj_type)[i]);
            }
            lemma_decimal_ascii(content@.len());
        }
        push_ascii(&mut header_content, name_chars.as_slice());
        header_content.push(32u8);
        push_ascii(&mut header_content, size_chars.as_slice());
        header_content.push(0u8);
        let ghost head = header_content@;
        assert(head =~= object_header_bytes(*obj_type, content@.len()));
        let mut i: usize = 0;
        while i < content.len()
            invariant
                i <= content@.len(),
                header_content@ == head + content@.subrange(0, i as int),
            decreases content.len() - i,
        {
            header_content.push(content[i]);
            i = i + 1;
            assert(header_content@ =~= head + content@.subrange(0, i as int));
        }
        assert(content@.subrange(0, content@.len() as int) =~= content@);
        header_content
    }
}

/// Every character of a decimal representation is an ASCII digit.
pub proof fn lemma_decimal_ascii(n: nat)
    ensures
        forall|i: int| 0 <= i < decimal(n).len() ==>
            '0' <= #[trigger] decimal(n)[i] <= '9',
        decimal(n).len() >= 1,
    decreases n,
{
    if n >= 10 {
        lemma_decimal_ascii(n / 10);
    }
}

} // verus!
