use vstd::prelude::*;
use crate::errors::{ErrorType, ParseError};
use crate::text::{pad4, hex, hex_char, digits_value, digit_value, parse_usize_spec, trim_end, usize_to_hex_pad4, push_char, string_from_utf8, parse_usize_radix, unexpected_eof, slice_range, trim_end_string};

verus! {

/// The four hexadecimal digits that open a pkt-line carrying a payload of
/// `payload_len` bytes: the payload, its newline and these four digits.
pub open spec fn pkt_len_prefix(payload_len: nat) -> Seq<char> {
    pad4(hex(payload_len + 5))
}

/// Whether a text fits in a pkt-line: the length of the whole line (the
/// text, its newline and the four digits) fits in four hexadecimal digits.
pub open spec fn fits_pkt(t: Seq<char>) -> bool {
    (vstd::utf8::encode_utf8(t).len() as usize) + 5 <= 0xffff
}

/// A number below `0x10000` takes at most four hexadecimal digits.
proof fn lemma_hex_len4(n: nat)
    requires
        n < 0x10000,
    ensures
        hex(n).len() <= 4,
        pad4(hex(n)).len() == 4,
{
    reveal_with_fuel(hex, 5);
    assert(n / 16 < 0x1000);
    assert(n / 16 / 16 < 0x100);
    assert(n / 16 / 16 / 16 < 0x10);
}

/// Frames a text as a pkt-line: four hexadecimal digits with the length of the
/// whole line, the text and a newline. A text whose line length would not fit
/// in four hexadecimal digits is refused.
pub fn create_pkt_line(text: &str) -> (r: Result<String, ErrorType>)
    ensures
        r is Ok <==> fits_pkt(text@),
        r is Ok <==> text.len() + 5 <= 0xffff,
        r matches Ok(s) ==> s@ == pkt_len_prefix(text.len() as nat) + text@ + seq!['\n'],
        r matches Ok(s) ==> pkt_len_prefix(text.len() as nat).len() == 4,
        r matches Err(e) ==> e is ProtocolError,
{
    let n = text.len();
    if n > 0xffff - 5 {
        return Err(ErrorType::ProtocolError(String::from_str("pktline: can't be larger than 4k")));
    }
    proof { lemma_hex_len4((n + 5) as nat); }
    let mut s = usize_to_hex_pad4(n + 5);
    s.append(text);
    push_char(&mut s, '\n');
    Ok(s)
}

/// The line length that the four header bytes of a pkt-line denote, when they
/// are UTF-8 text that `usize::from_str_radix(_, 16)` accepts.
pub open spec fn pkt_size_of(header: Seq<u8>) -> Option<nat> {
    if vstd::utf8::valid_utf8(header) {
        parse_usize_spec(vstd::utf8::decode_utf8(header), 16)
    } else {
        None
    }
}

/// Reads the length that the four header bytes of a pkt-line hold (hexadecimal).
/// Bytes that are not UTF-8 give a protocol error; text that is not a
/// hexadecimal number gives a parse error.
pub fn pkt_line_size(size_bytes: [u8; 4]) -> (r: Result<usize, ErrorType>)
    ensures
        r matches Ok(v) ==> pkt_size_of(size_bytes@) == Some(v as nat),
        r is Ok <==> pkt_size_of(size_bytes@) is Some,
        r matches Err(e) ==> (!vstd::utf8::valid_utf8(size_bytes@) <==> e is ProtocolError),
        r matches Err(e) ==> (e is ProtocolError || e is Parse),
{
    let v: Vec<u8> = vec![size_bytes[0], size_bytes[1], size_bytes[2], size_bytes[3]];
    assert(v@ =~= size_bytes@);
    let line_size = match string_from_utf8(v) {
        Ok(s) => s,
        Err(_) => {
            return Err(ErrorType::ProtocolError(
                String::from_str("corrupt pktline: failed to parse to utf8"),
            ));
        },
    };
    match parse_usize_radix(line_size.as_str(), 16) {
        Ok(n) => Ok(n),
        Err(e) => Err(ErrorType::Parse(ParseError::Int(e))),
    }
}

/// Reads the payload of a pkt-line of `line_size` bytes from the bytes that
/// follow its header: `line_size - 4` bytes, as UTF-8 text without trailing
/// whitespace. Fewer bytes than that give an I/O error, bytes that are not
/// UTF-8 a protocol error.
pub fn pkt_line_content(line_size: usize, stream: &[u8]) -> (r: Result<String, ErrorType>)
    requires
        line_size >= 4,
    ensures
        r is Ok <==> (line_size - 4 <= stream@.len()
            && vstd::utf8::valid_utf8(stream@.subrange(0, line_size - 4))),
        r matches Ok(s) ==> s@ == trim_end(vstd::utf8::decode_utf8(stream@.subrange(0, line_size - 4))),
        r matches Err(e) ==> (e is IOError <==> line_size - 4 > stream@.len()),
        r matches Err(e) ==> (e is IOError || e is ProtocolError),
{
    let len = line_size - 4;
    if len > stream.len() {
        return Err(ErrorType::IOError(unexpected_eof()));
    }
    let content = slice_range(stream, 0, len);
    match string_from_utf8(content) {
        Ok(s) => Ok(trim_end_string(s.as_str())),
        Err(_) => Err(ErrorType::ProtocolError(
            String::from_str("corrupt pktline: failed to parse to utf8"),
        )),
    }
}

/// The four bytes of a flush line.
pub open spec fn flush_line() -> Seq<u8> {
    seq![48u8, 48u8, 48u8, 48u8]
}

/// A pkt-line header that declares a length below the four header bytes
/// themselves (other than the flush line): reading past it is undefined.
pub open spec fn pkt_header_too_short(data: Seq<u8>) -> bool {
    &&& data.len() >= 4
    &&& data.subrange(0, 4) != flush_line()
    &&& pkt_size_of(data.subrange(0, 4)) matches Some(n) && n < 4
}

/// Reads one pkt-line from the front of `data`. Gives the payload (`None` for a
/// flush line) and the number of bytes that the line takes.
pub fn read_pkt_line(data: &[u8]) -> (r: Result<(Option<String>, usize), ErrorType>)
    requires
        !pkt_header_too_short(data@),
    ensures
        r matches Ok((None, n)) ==> n == 4 && data@.subrange(0, 4) == flush_line(),
        r matches Ok((Some(s), n)) ==> {
            &&& 4 <= n <= data@.len()
            &&& data@.subrange(0, 4) != flush_line()
            &&& pkt_size_of(data@.subrange(0, 4)) == Some(n as nat)
            &&& s@ == trim_end(vstd::utf8::decode_utf8(data@.subrange(4, n as int)))
        },
        data@.len() >= 4 && data@.subrange(0, 4) == flush_line() ==> r matches Ok((None, 4)),
        r is Ok <==> (data@.len() >= 4 && (data@.subrange(0, 4) == flush_line() || (
            pkt_size_of(data@.subrange(0, 4)) matches Some(n) && n <= data@.len()
            && vstd::utf8::valid_utf8(data@.subrange(4, n as int))))),
{
    if data.len() < 4 {
        return Err(ErrorType::ProtocolError(String::from_str("failed to read pktline")));
    }
    let size_bytes: [u8; 4] = [data[0], data[1], data[2], data[3]];
    assert(size_bytes@ =~= data@.subrange(0, 4));
    if size_bytes[0] == 48 && size_bytes[1] == 48 && size_bytes[2] == 48 && size_bytes[3] == 48 {
        assert(data@.subrange(0, 4) =~= flush_line());
        return Ok((None, 4));
    }
    assert(data@.subrange(0, 4) != flush_line()) by {
        if data@.subrange(0, 4) == flush_line() {
            assert(size_bytes@[0] == 48u8);
        }
    }
    let line_size = pkt_line_size(size_bytes)?;
    let rest = &data[4..data.len()];
    assert(rest@ =~= data@.subrange(4, data@.len() as int));
    if line_size - 4 <= rest.len() {
        assert(rest@.subrange(0, line_size - 4) =~= data@.subrange(4, line_size as int));
    }
    let content = pkt_line_content(line_size, rest)?;
    Ok((Some(content), line_size))
}

proof fn lemma_hex_char_value(d: nat)
    requires
        d < 16,
    ensures
        digit_value(hex_char(d), 16) == Some(d),
        hex_char(d) != '+',
{
    let c = hex_char(d);
    if d < 10 {
        assert(c as int == d + 48);
    } else {
        assert(c as int == d - 10 + 97);
    }
}

proof fn lemma_hex_digits_value(n: nat)
    ensures
        digits_value(hex(n), 16) == Some(n),
        hex(n).len() >= 1,
        n < 16 ==> hex(n).len() == 1,
        16 <= n < 256 ==> hex(n).len() == 2,
        256 <= n < 4096 ==> hex(n).len() == 3,
        4096 <= n < 65536 ==> hex(n).len() == 4,
    decreases n,
{
    lemma_hex_char_value(n % 16);
    if n >= 16 {
        lemma_hex_digits_value(n / 16);
        assert(hex(n).drop_last() =~= hex(n / 16));
        assert(hex(n).last() == hex_char(n % 16));
        assert(digits_value(hex(n), 16) == Some((n / 16) * 16 + n % 16));
    } else {
        assert(hex(n).last() == hex_char(n % 16));
        assert(hex(n).drop_last() =~= Seq::<char>::empty());
        assert(digits_value(hex(n).drop_last(), 16) == Some(0nat));
        assert(digit_value(hex(n).last(), 16) == Some(n));
        assert(hex(n).len() == 1);
    }
}

proof fn lemma_leading_zeros(z: nat, s: Seq<char>)
    ensures
        digits_value(Seq::new(z, |i: int| '0') + s, 16) == digits_value(s, 16),
    decreases s.len(), z,
{
    let zs = Seq::new(z, |i: int| '0');
    if s.len() == 0 {
        if z > 0 {
            assert((zs + s).drop_last() =~= Seq::new((z - 1) as nat, |i: int| '0') + s);
            lemma_leading_zeros((z - 1) as nat, s);
            assert(digit_value('0', 16) == Some(0nat));
        }
        assert(zs + s =~= zs);
    } else {
        assert((zs + s).drop_last() =~= zs + s.drop_last());
        lemma_leading_zeros(z, s.drop_last());
    }
}

/// The length field that `create_pkt_line` writes reads back as the length of
/// the whole line: for every payload short enough for four hexadecimal digits,
/// the four header characters are ASCII and `pkt_line_size` accepts their
/// bytes with the value payload length plus five.
pub proof fn lemma_pkt_len_prefix_roundtrip(payload_len: nat)
    requires
        payload_len + 5 <= 0xffff,
    ensures
        pkt_len_prefix(payload_len).len() == 4,
        parse_usize_spec(pkt_len_prefix(payload_len), 16) == Some(payload_len + 5),
        pkt_size_of(vstd::utf8::encode_utf8(pkt_len_prefix(payload_len))) == Some(payload_len + 5),
{
    let n = payload_len + 5;
    lemma_hex_digits_value(n);
    let h = hex(n);
    let p = pkt_len_prefix(payload_len);
    if h.len() < 4 {
        lemma_leading_zeros((4 - h.len()) as nat, h);
    }
    assert(p.len() == 4);
    assert(p[0] != '+') by {
        if h.len() < 4 {
            assert(p[0] == '0');
        } else {
            assert(p[0] == h[0]);
            assert(h == hex(n / 16).push(hex_char(n % 16)));
            assert(h[0] == hex(n / 16)[0]);
            assert(hex(n / 16) == hex(n / 256).push(hex_char((n / 16) % 16)));
            assert(hex(n / 256) == hex(n / 4096).push(hex_char((n / 256) % 16)));
            assert(hex(n / 4096) == seq![hex_char(n / 4096)]);
        }
    }
    vstd::utf8::encode_utf8_decode_utf8(p);
    vstd::utf8::encode_utf8_valid_utf8(p);
}

/// The hexadecimal digits of a number are ASCII.
proof fn lemma_hex_ascii(n: nat)
    ensures
        vstd::utf8::is_ascii_chars(hex(n)),
    decreases n,
{
    if n >= 16 {
        lemma_hex_ascii(n / 16);
        assert(hex_char(n % 16) <= '\u{7f}');
    } else {
        assert(hex_char(n) <= '\u{7f}');
    }
}

/// The header of a pkt-line is ASCII.
proof fn lemma_prefix_ascii(len: nat)
    ensures
        vstd::utf8::is_ascii_chars(pkt_len_prefix(len)),
{
    let h = hex(len + 5);
    lemma_hex_ascii(len + 5);
    let p = pkt_len_prefix(len);
    assert forall|i: int| 0 <= i < p.len() implies '\0' <= #[trigger] p[i] <= '\u{7f}' by {
        if h.len() < 4 {
            let z = (4 - h.len()) as int;
            if i >= z {
                assert(p[i] == h[i - z]);
            } else {
                assert(p[i] == '0');
            }
        } else {
            assert(p[i] == h[i]);
        }
    }
}

/// The four bytes of a flush line read as the length zero.
proof fn lemma_flush_size()
    ensures
        pkt_size_of(flush_line()) == Some(0nat),
{
    let f = flush_line();
    let z = seq!['0', '0', '0', '0'];
    assert(vstd::utf8::is_ascii_chars(z));
    vstd::utf8::is_ascii_chars_encode_utf8(z);
    assert(vstd::utf8::encode_utf8(z) =~= f);
    vstd::utf8::encode_utf8_valid_utf8(z);
    vstd::utf8::encode_utf8_decode_utf8(z);
    lemma_leading_zeros(4, Seq::empty());
    assert(Seq::new(4, |i: int| '0') + Seq::<char>::empty() =~= z);
}

/// The UTF-8 bytes of two texts one after the other are the bytes of each.
pub proof fn lemma_encode_concat(a: Seq<char>, b: Seq<char>)
    ensures
        vstd::utf8::encode_utf8(a + b) == vstd::utf8::encode_utf8(a) + vstd::utf8::encode_utf8(b),
    decreases a.len(),
{
    if a.len() > 0 {
        assert((a + b).drop_first() =~= a.drop_first() + b);
        lemma_encode_concat(a.drop_first(), b);
        assert(vstd::utf8::encode_utf8(a + b) =~= vstd::utf8::encode_scalar(a[0] as u32)
            + vstd::utf8::encode_utf8(a.drop_first() + b));
    } else {
        assert(a + b =~= b);
    }
}

/// A pkt-line that `create_pkt_line` frames reads back: its bytes do not
/// start like a flush line, their header gives the line's whole length,
/// the payload after the header is UTF-8, and it is the text given with
/// the trailing whitespace that reading drops (the framing newline among
/// it). Stated for texts short enough for the four hexadecimal digits of
/// the header.
pub proof fn law_pkt_line_roundtrip(t: Seq<char>)
    requires
        vstd::utf8::encode_utf8(t).len() + 5 <= 0xffff,
    ensures
        ({
            let len = vstd::utf8::encode_utf8(t).len();
            let data = vstd::utf8::encode_utf8(pkt_len_prefix(len) + t + seq!['\n']);
            &&& data.len() == len + 5
            &&& data.subrange(0, 4) != flush_line()
            &&& pkt_size_of(data.subrange(0, 4)) == Some(len + 5)
            &&& vstd::utf8::valid_utf8(data.subrange(4, (len + 5) as int))
            &&& trim_end(vstd::utf8::decode_utf8(data.subrange(4, (len + 5) as int))) == trim_end(t)
        }),
{
    let len = vstd::utf8::encode_utf8(t).len();
    let p = pkt_len_prefix(len);
    let nl = seq!['\n'];
    lemma_pkt_len_prefix_roundtrip(len);
    let ep = vstd::utf8::encode_utf8(p);
    let et = vstd::utf8::encode_utf8(t);
    let en = vstd::utf8::encode_utf8(nl);
    lemma_encode_concat(p, t);
    lemma_encode_concat(p + t, nl);
    lemma_encode_concat(t, nl);
    let data = vstd::utf8::encode_utf8(p + t + nl);
    assert(data == ep + et + en);
    assert(en.len() == 1) by {
        assert(vstd::utf8::is_ascii_chars(nl));
        vstd::utf8::is_ascii_chars_encode_utf8(nl);
    }
    assert(ep.len() == 4) by {
        lemma_prefix_ascii(len);
        vstd::utf8::is_ascii_chars_encode_utf8(p);
    }
    assert(data.subrange(0, 4) =~= ep);
    assert(data.subrange(4, (len + 5) as int) =~= et + en);
    if data.subrange(0, 4) == flush_line() {
        assert(pkt_size_of(flush_line()) == Some(0nat)) by {
            lemma_flush_size();
        }
    }
    vstd::utf8::encode_utf8_valid_utf8(t + nl);
    vstd::utf8::encode_utf8_decode_utf8(t + nl);
    assert(et + en == vstd::utf8::encode_utf8(t + nl));
    assert((t + nl).drop_last() =~= t);
    assert(trim_end(t + nl) == trim_end(t)) by {
        assert((t + nl).last() == '\n');
    }
}

} // verus!
