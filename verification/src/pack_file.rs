use vstd::prelude::*;
use crate::errors::ErrorType;
use crate::text::{decimal, u64_to_decimal, usize_to_decimal, push_text, slice_range, unexpected_eof};
use crate::object_type::ObjectType;
use crate::hash::{GitHash, sha1_digest, hex_bytes, lemma_hex_roundtrip};
use crate::compressor::{Compressor, zlib_deflate, zlib_read_prefix, inflate_prefix};
use vstd::utf8::encode_utf8;

verus! {

/// The continuation bytes of a packfile object header: the remaining size in
/// groups of 7 bits, least significant group first, each byte flagged with
/// 0x80 when another byte follows.
pub open spec fn size_groups(rest: nat) -> Seq<u8>
    decreases rest,
{
    if rest == 0 {
        Seq::empty()
    } else {
        let flag: nat = if rest / 128 > 0 { 128 } else { 0 };
        seq![(flag + rest % 128) as u8] + size_groups(rest / 128)
    }
}

/// First byte of a packfile object header: continuation flag, three type bits
/// and the four lowest size bits.
pub open spec fn header_first_byte(typ: u8, size: nat) -> u8 {
    let flag: nat = if size > 15 { 128 } else { 0 };
    (flag + (typ as nat) * 16 + size % 16) as u8
}

/// The packfile object header of an object of type number `typ` and `size` bytes.
pub open spec fn object_header(typ: u8, size: nat) -> Seq<u8> {
    seq![header_first_byte(typ, size)] + size_groups(size / 16)
}

/// The number held by the 7-bit groups of `bytes`, least significant first
/// (the high bit of every byte is ignored).
pub open spec fn groups_value(bytes: Seq<u8>) -> nat
    decreases bytes.len(),
{
    if bytes.len() == 0 {
        0
    } else {
        (bytes[0] as nat) % 128 + 128 * groups_value(bytes.drop_first())
    }
}

/// The object size that a header holds, as an unbounded number.
pub open spec fn header_size_value(header: Seq<u8>) -> nat
    recommends
        header.len() > 0,
{
    (header[0] as nat) % 16 + 16 * groups_value(header.drop_first())
}

/// The type number that a header holds.
pub open spec fn header_type(header: Seq<u8>) -> u8
    recommends
        header.len() > 0,
{
    ((header[0] as nat / 16) % 8) as u8
}

/// Builds the header that precedes an object in a packfile: type and size.
/// Type numbers above 7 do not fit in the three type bits and are refused.
pub fn generate_packfile_object_header(typ: u8, size: usize) -> (r: Result<Vec<u8>, ErrorType>)
    ensures
        r is Ok <==> typ <= 7,
        r matches Ok(v) ==> v@ == object_header(typ, size as nat),
        r matches Err(e) ==> (e matches ErrorType::ProtocolError(m)
            && m@ == "invalid object type number when generating packfile object header: "@ + decimal(typ as nat)),
{
    if typ > 7 {
        let mut m = String::from_str("invalid object type number when generating packfile object header: ");
        push_text(&mut m, u64_to_decimal(typ as u64).as_str());
        return Err(ErrorType::ProtocolError(m));
    }
    let mut first_byte: u8 = if size > 15 { 0b10000000 } else { 0 };
    let type_bits: u8 = typ << 4;
    assert(type_bits == typ * 16) by (bit_vector)
        requires typ <= 7, type_bits == typ << 4;
    first_byte = first_byte | type_bits;
    let low: u8 = (size & 0b1111) as u8;
    assert((size & 15) == size % 16) by (bit_vector);
    assert(first_byte == (if size > 15 { 128u8 } else { 0u8 }) + typ * 16) by (bit_vector)
        requires
            typ <= 7,
            first_byte == ((if size > 15 { 128u8 } else { 0u8 }) | ((typ * 16) as u8)),
    ;
    let fb0 = first_byte;
    first_byte = first_byte | low;
    assert(first_byte == fb0 + low) by (bit_vector)
        requires
            low < 16,
            fb0 % 16 == 0,
            first_byte == fb0 | low,
    ;
    assert(first_byte == header_first_byte(typ, size as nat));
    let mut remaining: usize = size >> 4;
    assert(remaining == size / 16) by (bit_vector)
        requires remaining == size >> 4;
    let mut header_bytes: Vec<u8> = Vec::new();
    header_bytes.push(first_byte);
    while remaining > 0
        invariant
            header_bytes@.len() >= 1,
            header_bytes@ + size_groups(remaining as nat) == object_header(typ, size as nat),
        decreases remaining,
    {
        let r0 = remaining;
        let low7: u8 = (remaining & 0b01111111) as u8;
        assert((r0 & 127) == r0 % 128) by (bit_vector);
        remaining = remaining >> 7;
        assert(remaining == r0 / 128) by (bit_vector)
            requires remaining == r0 >> 7;
        let mut byte: u8 = low7;
        if remaining > 0 {
            byte = byte | 0b10000000;
            assert(byte == low7 + 128) by (bit_vector)
                requires low7 < 128, byte == low7 | 128;
        }
        assert(size_groups(r0 as nat) == seq![byte] + size_groups(remaining as nat));
        header_bytes.push(byte);
        assert(header_bytes@ + size_groups(remaining as nat)
            =~= header_bytes@.drop_last() + size_groups(r0 as nat));
    }
    assert(header_bytes@ =~= header_bytes@ + size_groups(0));
    Ok(header_bytes)
}


/// The number of distinct `usize` values; sizes read from a header wrap around it.
pub open spec fn usize_modulus() -> nat {
    usize::MAX as nat + 1
}

proof fn lemma_groups_step(v: nat, b: nat, k: nat)
    requires
        b < k,
        k == 16 || k == 128,
    ensures
        ((v % usize_modulus()) * k) % usize_modulus() + b < usize_modulus(),
        ((v % usize_modulus()) * k) % usize_modulus() + b == (v * k + b) % usize_modulus(),
{
    let m = usize_modulus() as int;
    assert(m == 0x1_0000_0000 || m == 0x1_0000_0000_0000_0000);
    vstd::arithmetic::div_mod::lemma_mul_mod_noop_left(v as int, k as int, m);
    let a = (v * k) as int;
    vstd::arithmetic::div_mod::lemma_mod_multiples_vanish(0, 0, 1);
    // a % m is a multiple of k because both a and m are
    assert(m % k as int == 0);
    vstd::arithmetic::div_mod::lemma_fundamental_div_mod(a, m);
    assert(a % k as int == 0) by {
        vstd::arithmetic::div_mod::lemma_mod_multiples_basic(v as int, k as int);
        vstd::arithmetic::mul::lemma_mul_is_commutative(v as int, k as int);
    }
    assert((a % m) % k as int == 0) by {
        vstd::arithmetic::div_mod::lemma_mod_mod(a, k as int, m / k as int);
        vstd::arithmetic::mul::lemma_mul_is_commutative(k as int, m / k as int);
        vstd::arithmetic::div_mod::lemma_fundamental_div_mod(m, k as int);
    }
    assert(a % m < m) by {
        vstd::arithmetic::div_mod::lemma_mod_bound(a, m);
    }
    assert(a % m + (b as int) < m) by {
        vstd::arithmetic::div_mod::lemma_fundamental_div_mod(a % m, k as int);
        vstd::arithmetic::div_mod::lemma_fundamental_div_mod(m, k as int);
        assert((a % m) == k * ((a % m) / k as int));
        assert(m == k * (m / k as int));
        assert((a % m) / (k as int) < m / (k as int)) by (nonlinear_arith)
            requires (a % m) == k * ((a % m) / k as int), m == k * (m / k as int), a % m < m, k > 0;
        assert(k * ((a % m) / k as int) + k <= k * (m / k as int)) by (nonlinear_arith)
            requires (a % m) / (k as int) < m / (k as int), k > 0;
    }
    vstd::arithmetic::div_mod::lemma_add_mod_noop(a, b as int, m);
    vstd::arithmetic::div_mod::lemma_small_mod(b, m as nat);
    vstd::arithmetic::div_mod::lemma_small_mod((a % m + b as int) as nat, m as nat);
    vstd::arithmetic::div_mod::lemma_mod_twice(a, m);
}

/// Reads type number and object size from a packfile object header. The size
/// groups are combined as `usize` arithmetic does, so a size too large for a
/// `usize` wraps around. An empty header is refused.
pub fn parse_object_size_and_type(object_header_bytes: Vec<u8>) -> (r: Result<(u8, usize), ErrorType>)
    ensures
        r is Ok <==> object_header_bytes@.len() > 0,
        r matches Ok((t, s)) ==> t == header_type(object_header_bytes@)
            && s as nat == header_size_value(object_header_bytes@) % usize_modulus(),
        r matches Err(e) ==> e is ProtocolError,
{
    let h = &object_header_bytes;
    if h.len() == 0 {
        return Err(ErrorType::ProtocolError(
            String::from_str("corrupt packfile: invalid object header"),
        ));
    }
    let n = h.len();
    let mut object_size: usize = 0;
    let mut k: usize = n;
    while k > 1
        invariant
            n == h@.len(),
            1 <= k <= n,
            object_size as nat == groups_value(h@.subrange(k as int, n as int)) % usize_modulus(),
        decreases k,
    {
        let raw: u8 = h[k - 1];
        let byte: u8 = raw & 0b01111111;
        assert(byte == raw % 128) by (bit_vector)
            requires byte == raw & 127u8;
        let ghost v = groups_value(h@.subrange(k as int, n as int));
        proof {
            lemma_groups_step(v, byte as nat, 128);
            assert(h@.subrange(k - 1, n as int).drop_first() =~= h@.subrange(k as int, n as int));
        }
        object_size = object_size.wrapping_mul(128) + byte as usize;
        k = k - 1;
    }
    let first_byte = h[0];
    let low: u8 = first_byte & 0b1111;
    assert(low == first_byte % 16) by (bit_vector)
        requires low == first_byte & 15u8;
    proof {
        lemma_groups_step(groups_value(h@.subrange(1, n as int)), low as nat, 16);
        assert(h@.subrange(1, n as int) =~= h@.drop_first());
    }
    object_size = object_size.wrapping_mul(16) + low as usize;
    let object_type: u8 = (first_byte >> 4) & 0b111;
    assert(object_type == (first_byte / 16) % 8) by (bit_vector)
        requires object_type == (first_byte >> 4u8) & 7u8;
    Ok((object_type, object_size))
}

proof fn lemma_groups_value_of_size_groups(rest: nat)
    ensures
        groups_value(size_groups(rest)) == rest,
    decreases rest,
{
    if rest > 0 {
        let flag: nat = if rest / 128 > 0 { 128 } else { 0 };
        let b = (flag + rest % 128) as u8;
        lemma_groups_value_of_size_groups(rest / 128);
        assert(size_groups(rest).drop_first() =~= size_groups(rest / 128));
        assert((b as nat) % 128 == rest % 128);
    }
}

/// A packfile object header reads back as the type and size it was built from:
/// for every type number that fits in three bits and every size, parsing the
/// generated header gives that type and that size.
pub proof fn lemma_object_header_roundtrip(typ: u8, size: usize)
    requires
        typ <= 7,
    ensures
        object_header(typ, size as nat).len() > 0,
        header_type(object_header(typ, size as nat)) == typ,
        header_size_value(object_header(typ, size as nat)) % usize_modulus() == size,
{
    let h = object_header(typ, size as nat);
    lemma_groups_value_of_size_groups(size as nat / 16);
    assert(h.drop_first() =~= size_groups(size as nat / 16));
    let flag: nat = if size > 15 { 128 } else { 0 };
    assert(h[0] as nat == flag + (typ as nat) * 16 + size % 16);
    assert((h[0] as nat) % 16 == size % 16);
    assert((h[0] as nat / 16) % 8 == typ as nat);
    vstd::arithmetic::div_mod::lemma_small_mod(size as nat, usize_modulus());
}


/// The first eight bytes of a packfile: `PACK` and version 2.
pub open spec fn pack_header() -> Seq<u8> {
    seq![80u8, 65u8, 67u8, 75u8, 0u8, 0u8, 0u8, 2u8]
}

/// A number below 2^32 as four big-endian bytes.
pub open spec fn be_bytes4(n: nat) -> Seq<u8> {
    seq![(n / 16777216 % 256) as u8, (n / 65536 % 256) as u8, (n / 256 % 256) as u8, (n % 256) as u8]
}

/// The number of four big-endian bytes.
pub open spec fn be_value4(b: Seq<u8>) -> nat {
    ((b[0] as nat) * 16777216 + (b[1] as nat) * 65536 + (b[2] as nat) * 256 + b[3] as nat) as nat
}

/// The type number of an object in a packfile.
pub open spec fn pack_type_number(t: ObjectType) -> u8 {
    match t {
        ObjectType::Commit => 1,
        ObjectType::Tree => 2,
        ObjectType::Blob => 3,
    }
}

/// The object type of a packfile type number, where it is one.
pub open spec fn pack_type_of(n: u8) -> Option<ObjectType> {
    if n == 1 { Some(ObjectType::Commit) } else if n == 2 { Some(ObjectType::Tree) } else if n == 3 { Some(ObjectType::Blob) } else { None }
}

/// The entry of an object in a packfile: its header, then its content
/// compressed.
pub open spec fn pack_entry(t: ObjectType, content: Seq<u8>) -> Seq<u8> {
    object_header(pack_type_number(t), content.len()) + zlib_deflate(content)
}

/// The entries of a list of objects, one after the other.
pub open spec fn pack_entries(objs: Seq<(ObjectType, GitHash, Vec<u8>)>) -> Seq<u8>
    decreases objs.len(),
{
    if objs.len() == 0 {
        Seq::empty()
    } else {
        pack_entries(objs.drop_last()) + pack_entry(objs.last().0, objs.last().2@)
    }
}

/// A packfile of some objects without its checksum.
pub open spec fn pack_body(objs: Seq<(ObjectType, GitHash, Vec<u8>)>) -> Seq<u8> {
    pack_header() + be_bytes4(objs.len()) + pack_entries(objs)
}

/// The count of objects of a packfile as four big-endian bytes; an error
/// above what four bytes hold.
pub fn usize_to_bytes(object_ammount: usize) -> (r: Result<[u8; 4], ErrorType>)
    ensures
        object_ammount <= u32::MAX ==> (r matches Ok(a) && a@ == be_bytes4(object_ammount as nat)),
        object_ammount > u32::MAX ==> (r matches Err(ErrorType::ProtocolError(m))
            && m@ == "too many objects ("@ + decimal(object_ammount as nat) + "). packfile accepts up to 4k entries"@),
{
    if object_ammount > 0xffff_ffff {
        let mut m = String::from_str("too many objects (");
        push_text(&mut m, usize_to_decimal(object_ammount).as_str());
        push_text(&mut m, "). packfile accepts up to 4k entries");
        return Err(ErrorType::ProtocolError(m));
    }
    let v: u32 = object_ammount as u32;
    let b0: u8 = (v >> 24) as u8;
    let b1: u8 = ((v >> 16) & 0xff) as u8;
    let b2: u8 = ((v >> 8) & 0xff) as u8;
    let b3: u8 = (v & 0xff) as u8;
    assert(b0 == v / 16777216 % 256) by (bit_vector)
        requires b0 == (v >> 24u32) as u8;
    assert(b1 == v / 65536 % 256) by (bit_vector)
        requires b1 == ((v >> 16u32) & 0xffu32) as u8;
    assert(b2 == v / 256 % 256) by (bit_vector)
        requires b2 == ((v >> 8u32) & 0xffu32) as u8;
    assert(b3 == v % 256) by (bit_vector)
        requires b3 == (v & 0xffu32) as u8;
    let a: [u8; 4] = [b0, b1, b2, b3];
    assert(a@ =~= be_bytes4(object_ammount as nat));
    Ok(a)
}

/// The entry of one object in a packfile: header (type and size) and
/// compressed content.
pub fn build_packfile_object_entry(object: (ObjectType, GitHash, Vec<u8>)) -> (r: Result<Vec<u8>, ErrorType>)
    ensures
        r is Ok,
        r matches Ok(v) ==> v@ == pack_entry(object.0, object.2@),
{
    let obj_type = object.0;
    let content = object.2;
    let type_byte: u8 = match obj_type {
        ObjectType::Commit => 1,
        ObjectType::Tree => 2,
        ObjectType::Blob => 3,
    };
    let mut result = match generate_packfile_object_header(type_byte, content.len()) {
        Ok(h) => h,
        Err(e) => return Err(e),
    };
    let compressed = match Compressor::compress(content) {
        Ok(c) => c,
        Err(e) => return Err(e),
    };
    let mut compressed = compressed;
    result.append(&mut compressed);
    Ok(result)
}

/// A packfile holding the given objects: `PACK`, version 2, the count of
/// objects, an entry per object, and the SHA-1 checksum of all that.
pub fn build_packfile(packfile_objects: Vec<(ObjectType, GitHash, Vec<u8>)>) -> (r: Result<Vec<u8>, ErrorType>)
    ensures
        packfile_objects@.len() > u32::MAX ==> r matches Err(ErrorType::ProtocolError(_)),
        r is Ok <==> packfile_objects@.len() <= u32::MAX,
        r matches Ok(v) ==> v@ == pack_body(packfile_objects@) + sha1_digest(pack_body(packfile_objects@)),
        r matches Ok(v) ==> v@.len() == pack_body(packfile_objects@).len() + 20,
{
    let mut packfile: Vec<u8> = Vec::new();
    packfile.push(80);
    packfile.push(65);
    packfile.push(67);
    packfile.push(75);
    packfile.push(0);
    packfile.push(0);
    packfile.push(0);
    packfile.push(2);
    assert(packfile@ =~= pack_header());
    let amount = match usize_to_bytes(packfile_objects.len()) {
        Ok(a) => a,
        Err(e) => return Err(e),
    };
    packfile.push(amount[0]);
    packfile.push(amount[1]);
    packfile.push(amount[2]);
    packfile.push(amount[3]);
    let ghost objs = packfile_objects@;
    assert(packfile@ =~= pack_header() + be_bytes4(objs.len()));
    let mut pending = packfile_objects;
    let mut k: usize = 0;
    let n = pending.len();
    assert(objs.subrange(0, 0) =~= Seq::<(ObjectType, GitHash, Vec<u8>)>::empty());
    while pending.len() > 0
        invariant
            k <= n,
            n == objs.len(),
            n <= u32::MAX,
            objs == packfile_objects@,
            pending@ == objs.subrange(k as int, n as int),
            packfile@ == pack_header() + be_bytes4(objs.len()) + pack_entries(objs.subrange(0, k as int)),
        decreases pending.len(),
    {
        let object = pending.remove(0);
        let ghost obj = objs[k as int];
        assert(object == obj);
        let mut entry = match build_packfile_object_entry(object) {
            Ok(e) => e,
            Err(e) => return Err(e),
        };
        proof {
            let s = objs.subrange(0, k + 1);
            assert(s.drop_last() =~= objs.subrange(0, k as int));
            assert(s.last() == obj);
        }
        let ghost before = packfile@;
        packfile.append(&mut entry);
        k = k + 1;
        assert(pending@ =~= objs.subrange(k as int, n as int));
        assert(packfile@ =~= before + pack_entry(obj.0, obj.2@));
    }
    assert(objs.subrange(0, k as int) =~= objs);
    let checksum = GitHash::hash_sha1(&packfile);
    proof { lemma_hex_roundtrip(sha1_digest(packfile@)); }
    let mut digest = match checksum.to_hex() {
        Ok(d) => d,
        Err(e) => return Err(e),
    };
    packfile.append(&mut digest);
    Ok(packfile)
}


/// Where the object header that starts at `pos` ends: just after its first
/// byte without the continuation bit; `None` where the bytes run out first.
pub open spec fn header_end(data: Seq<u8>, pos: nat) -> Option<nat>
    decreases data.len() - pos,
{
    if pos >= data.len() {
        None
    } else if data[pos as int] < 128 {
        Some(pos + 1)
    } else {
        header_end(data, pos + 1)
    }
}

/// The object whose entry starts at `pos`: its type, its content and where
/// the next entry starts; `None` where it cannot be read.
pub open spec fn object_at(data: Seq<u8>, pos: nat) -> Option<(ObjectType, Seq<u8>, nat)> {
    match header_end(data, pos) {
        None => None,
        Some(e) => {
            let h = data.subrange(pos as int, e as int);
            match pack_type_of(header_type(h)) {
                None => None,
                Some(t) => match zlib_read_prefix(data.subrange(e as int, data.len() as int), header_size_value(h) % usize_modulus()) {
                    Some((out, used)) => Some((t, out, e + used)),
                    None => None,
                },
            }
        },
    }
}

/// The `n` objects whose entries start at `pos`, and where they end.
pub open spec fn objects_from(data: Seq<u8>, pos: nat, n: nat) -> Option<(Seq<(ObjectType, Seq<u8>)>, nat)>
    decreases n,
{
    if n == 0 {
        Some((Seq::empty(), pos))
    } else {
        match object_at(data, pos) {
            Some((t, c, next)) => match objects_from(data, next, (n - 1) as nat) {
                Some((rest, end)) => Some((seq![(t, c)] + rest, end)),
                None => None,
            },
            None => None,
        }
    }
}

/// The objects of a packfile; `None` where it is not one or is cut short.
pub open spec fn packfile_objects_spec(data: Seq<u8>) -> Option<Seq<(ObjectType, Seq<u8>)>> {
    if data.len() < 12 || data.subrange(0, 8) != pack_header() {
        None
    } else {
        match objects_from(data, 12, be_value4(data.subrange(8, 12))) {
            Some((objs, end)) => if end + 20 <= data.len() { Some(objs) } else { None },
            None => None,
        }
    }
}

/// Four bytes as `Debug` prints an array of them.
pub open spec fn bytes4_debug(b: Seq<u8>) -> Seq<char> {
    "["@ + decimal(b[0] as nat) + ", "@ + decimal(b[1] as nat) + ", "@ + decimal(b[2] as nat) + ", "@ + decimal(b[3] as nat) + "]"@
}

/// The objects of a list as types and plain bytes.
pub open spec fn objects_view(v: Seq<(ObjectType, Vec<u8>)>) -> Seq<(ObjectType, Seq<u8>)> {
    v.map_values(|p: (ObjectType, Vec<u8>)| (p.0, p.1@))
}

/// Four bytes of `data` from `pos` as `Debug` prints them.
fn bytes4_text(data: &[u8], pos: usize) -> (r: String)
    requires
        pos + 4 <= data@.len(),
    ensures
        r@ == bytes4_debug(data@.subrange(pos as int, pos + 4)),
{
    let mut r = String::from_str("[");
    push_text(&mut r, u64_to_decimal(data[pos] as u64).as_str());
    push_text(&mut r, ", ");
    push_text(&mut r, u64_to_decimal(data[pos + 1] as u64).as_str());
    push_text(&mut r, ", ");
    push_text(&mut r, u64_to_decimal(data[pos + 2] as u64).as_str());
    push_text(&mut r, ", ");
    push_text(&mut r, u64_to_decimal(data[pos + 3] as u64).as_str());
    push_text(&mut r, "]");
    r
}

/// Reads the object whose entry starts at `pos`: header, then compressed
/// content. Gives its type, its content and where the next entry starts.
pub fn read_pack_object(data: &[u8], pos: usize) -> (r: Result<(ObjectType, Vec<u8>, usize), ErrorType>)
    ensures
        match object_at(data@, pos as nat) {
            Some((t, c, next)) => r matches Ok((rt, rc, rn)) && rt == t && rc@ == c && rn as nat == next,
            None => r is Err,
        },
        r matches Ok((_, _, rn)) ==> rn <= data@.len(),
{
    if pos >= data.len() {
        return Err(ErrorType::IOError(unexpected_eof()));
    }
    let mut i: usize = pos;
    loop
        invariant_except_break
            pos <= i <= data@.len(),
            header_end(data@, pos as nat) == header_end(data@, i as nat),
        ensures
            pos < i <= data@.len(),
            header_end(data@, pos as nat) == Some(i as nat),
        decreases data@.len() - i,
    {
        if i >= data.len() {
            return Err(ErrorType::IOError(unexpected_eof()));
        }
        let byte = data[i];
        i = i + 1;
        if byte < 128 {
            break;
        }
    }
    let header = slice_range(data, pos, i);
    let (type_number, size) = match parse_object_size_and_type(header) {
        Ok(p) => p,
        Err(e) => return Err(e),
    };
    let object_type = if type_number == 1 {
        ObjectType::Commit
    } else if type_number == 2 {
        ObjectType::Tree
    } else if type_number == 3 {
        ObjectType::Blob
    } else {
        let mut m = String::from_str("Invalid object type: ");
        push_text(&mut m, u64_to_decimal(type_number as u64).as_str());
        return Err(ErrorType::RepositoryError(m));
    };
    let rest = slice_range(data, i, data.len());
    let (content, used) = match inflate_prefix(rest.as_slice(), size) {
        Ok(p) => p,
        Err(e) => return Err(ErrorType::IOError(e)),
    };
    Ok((object_type, content, i + used))
}

/// Reads a packfile: `PACK`, version 2, the count of objects, their entries
/// and the 20-byte checksum (not checked against the content). Gives the
/// objects with their types.
pub fn read_packfile(data: &[u8]) -> (r: Result<Vec<(ObjectType, Vec<u8>)>, ErrorType>)
    ensures
        match packfile_objects_spec(data@) {
            Some(objs) => r matches Ok(v) && objects_view(v@) == objs,
            None => r is Err,
        },
        data@.len() >= 4 && data@.subrange(0, 4) != pack_header().subrange(0, 4) ==>
            (r matches Err(ErrorType::ProtocolError(m)) && m@ == "invalid packfile header "@
                + bytes4_debug(data@.subrange(0, 4)) + ", expected [80, 65, 67, 75]  (PACK)"@),
        data@.len() >= 8 && data@.subrange(0, 4) == pack_header().subrange(0, 4)
            && data@.subrange(4, 8) != pack_header().subrange(4, 8) ==>
            (r matches Err(ErrorType::ProtocolError(m)) && m@ == "invalid packfile version "@
                + bytes4_debug(data@.subrange(4, 8)) + ", expected [0, 0, 0, 2] (2)"@),
{
    if data.len() < 4 {
        return Err(ErrorType::IOError(unexpected_eof()));
    }
    if !(data[0] == 80 && data[1] == 65 && data[2] == 67 && data[3] == 75) {
        proof {
            if data@.subrange(0, 4) == pack_header().subrange(0, 4) {
                assert(data@[0] == data@.subrange(0, 4)[0]);
                assert(data@[1] == data@.subrange(0, 4)[1]);
                assert(data@[2] == data@.subrange(0, 4)[2]);
                assert(data@[3] == data@.subrange(0, 4)[3]);
            }
        }
        let mut m = String::from_str("invalid packfile header ");
        push_text(&mut m, bytes4_text(data, 0).as_str());
        push_text(&mut m, ", expected [80, 65, 67, 75]  (PACK)");
        return Err(ErrorType::ProtocolError(m));
    }
    assert(data@.subrange(0, 4) =~= pack_header().subrange(0, 4));
    if data.len() < 8 {
        return Err(ErrorType::IOError(unexpected_eof()));
    }
    if !(data[4] == 0 && data[5] == 0 && data[6] == 0 && data[7] == 2) {
        proof {
            if data@.subrange(4, 8) == pack_header().subrange(4, 8) {
                assert(data@[4] == data@.subrange(4, 8)[0]);
                assert(data@[5] == data@.subrange(4, 8)[1]);
                assert(data@[6] == data@.subrange(4, 8)[2]);
                assert(data@[7] == data@.subrange(4, 8)[3]);
            }
        }
        let mut m = String::from_str("invalid packfile version ");
        push_text(&mut m, bytes4_text(data, 4).as_str());
        push_text(&mut m, ", expected [0, 0, 0, 2] (2)");
        return Err(ErrorType::ProtocolError(m));
    }
    assert(data@.subrange(0, 8) =~= pack_header());
    assert(data@.subrange(4, 8) =~= pack_header().subrange(4, 8));
    if data.len() < 12 {
        return Err(ErrorType::IOError(unexpected_eof()));
    }
    let amount: u32 = (data[8] as u32) * 16777216 + (data[9] as u32) * 65536 + (data[10] as u32) * 256 + data[11] as u32;
    assert(amount as nat == be_value4(data@.subrange(8, 12)));
    let ghost whole = objects_from(data@, 12, amount as nat);
    let mut objects: Vec<(ObjectType, Vec<u8>)> = Vec::new();
    let mut pos: usize = 12;
    let mut k: u32 = 0;
    while k < amount
        invariant
            k <= amount,
            pos <= data@.len(),
            data@.len() >= 12,
            data@.subrange(0, 8) == pack_header(),
            data@.subrange(0, 4) == pack_header().subrange(0, 4),
            data@.subrange(4, 8) == pack_header().subrange(4, 8),
            amount as nat == be_value4(data@.subrange(8, 12)),
            whole == objects_from(data@, 12, amount as nat),
            match objects_from(data@, pos as nat, (amount - k) as nat) {
                Some((rest, end)) => whole == Some((objects_view(objects@) + rest, end)),
                None => whole is None,
            },
        decreases amount - k,
    {
        let ghost here = objects_from(data@, pos as nat, (amount - k) as nat);
        let (t, content, next) = match read_pack_object(data, pos) {
            Ok(o) => o,
            Err(e) => {
                proof { assert(here is None); }
                return Err(e);
            },
        };
        let ghost before = objects_view(objects@);
        objects.push((t, content));
        proof {
            assert(objects_view(objects@) =~= before.push((t, content@)));
            match objects_from(data@, next as nat, (amount - k - 1) as nat) {
                Some((rest, end)) => {
                    assert(before + (seq![(t, content@)] + rest) =~= objects_view(objects@) + rest);
                },
                None => {},
            }
        }
        pos = next;
        k = k + 1;
    }
    assert(objects_view(objects@) + Seq::<(ObjectType, Seq<u8>)>::empty() =~= objects_view(objects@));
    if data.len() - pos < 20 {
        return Err(ErrorType::IOError(unexpected_eof()));
    }
    Ok(objects)
}


/// Reads `count` bytes of `data` from `pos`; an error where the data ends
/// first. Gives the bytes and the position after them.
pub fn read_bytes(data: &[u8], pos: usize, count: usize) -> (r: Result<(Vec<u8>, usize), ErrorType>)
    ensures
        pos + count <= data@.len() ==> (r matches Ok((b, next)) && b@ == data@.subrange(pos as int, pos + count)
            && next == pos + count),
        pos + count > data@.len() ==> r matches Err(ErrorType::IOError(_)),
{
    if pos > data.len() || count > data.len() - pos {
        return Err(ErrorType::IOError(unexpected_eof()));
    }
    Ok((slice_range(data, pos, pos + count), pos + count))
}

/// The bytes of the packfile that a push sends for the given objects, as
/// `build_packfile` makes them.
pub fn send_packfile(packfile_objects: Vec<(ObjectType, GitHash, Vec<u8>)>) -> (r: Result<Vec<u8>, ErrorType>)
    ensures
        packfile_objects@.len() > u32::MAX ==> r matches Err(ErrorType::ProtocolError(_)),
        r is Ok <==> packfile_objects@.len() <= u32::MAX,
        r matches Ok(v) ==> v@ == pack_body(packfile_objects@) + sha1_digest(pack_body(packfile_objects@)),
        r matches Ok(v) ==> v@.len() == pack_body(packfile_objects@).len() + 20,
{
    build_packfile(packfile_objects)
}

} // verus!
