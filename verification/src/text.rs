use vstd::prelude::*;

verus! {

/// Appends one character to a string (`String::push`).
/// Trusted: the new contents are the old ones followed by `c`.
#[verifier::external_body]
pub(crate) fn push_char(s: &mut String, c: char)
    ensures
        final(s)@ == old(s)@.push(c),
{
    s.push(c);
}

/// The characters of a string slice, in order.
pub fn str_to_chars(s: &str) -> (v: Vec<char>)
    ensures
        v@ == s@,
{
    let n = s.unicode_len();
    let mut v: Vec<char> = Vec::new();
    let mut i: usize = 0;
    while i < n
        invariant
            n == s@.len(),
            i <= n,
            v@ == s@.subrange(0, i as int),
        decreases n - i,
    {
        let c = s.get_char(i);
        v.push(c);
        i = i + 1;
    }
    v
}

/// Builds a string holding exactly the given characters.
pub fn chars_to_string(v: &[char]) -> (s: String)
    ensures
        s@ == v@,
{
    let mut s = String::new();
    let mut i: usize = 0;
    while i < v.len()
        invariant
            i <= v.len(),
            s@ == v@.subrange(0, i as int),
        decreases v.len() - i,
    {
        push_char(&mut s, v[i]);
        i = i + 1;
    }
    s
}

/// The value of a digit character in the given radix, if it is one:
/// `0`-`9`, then letters of either case from 10 on.
pub open spec fn digit_value(c: char, radix: nat) -> Option<nat> {
    let v: int = if '0' <= c && c <= '9' {
        c as int - '0' as int
    } else if 'a' <= c && c <= 'z' {
        c as int - 'a' as int + 10
    } else if 'A' <= c && c <= 'Z' {
        c as int - 'A' as int + 10
    } else {
        -1
    };
    if 0 <= v < radix { Some(v as nat) } else { None }
}

/// The number that a run of digits denotes, most significant first;
/// `None` when some character is not a digit of the radix.
pub open spec fn digits_value(cs: Seq<char>, radix: nat) -> Option<nat>
    decreases cs.len(),
{
    if cs.len() == 0 {
        Some(0)
    } else {
        match (digits_value(cs.drop_last(), radix), digit_value(cs.last(), radix)) {
            (Some(hi), Some(d)) => Some(hi * radix + d),
            _ => None,
        }
    }
}

/// What `usize::from_str_radix` accepts: an optional `+`, then at least one
/// digit of the radix, denoting a number that fits in a `usize`.
pub open spec fn parse_usize_spec(s: Seq<char>, radix: nat) -> Option<nat> {
    let body = if s.len() > 0 && s[0] == '+' { s.drop_first() } else { s };
    if body.len() == 0 {
        None
    } else {
        match digits_value(body, radix) {
            Some(v) => if v <= usize::MAX { Some(v) } else { None },
            None => None,
        }
    }
}

/// `usize::from_str_radix`: trusted to accept exactly what `parse_usize_spec`
/// describes and to return that number; on any other text it returns the
/// standard library's `ParseIntError`.
#[verifier::external_body]
pub(crate) fn parse_usize_radix(s: &str, radix: u32) -> (r: Result<usize, core::num::ParseIntError>)
    requires
        2 <= radix <= 36,
    ensures
        r is Ok <==> parse_usize_spec(s@, radix as nat) is Some,
        r matches Ok(v) ==> v as nat == parse_usize_spec(s@, radix as nat)->0,
{
    usize::from_str_radix(s, radix)
}

/// What `i64::from_str` accepts: an optional sign, then at least one decimal
/// digit, denoting a number that fits in an `i64`.
pub open spec fn parse_i64_spec(s: Seq<char>) -> Option<int> {
    if s.len() > 0 && s[0] == '-' {
        let body = s.drop_first();
        if body.len() == 0 {
            None
        } else {
            match digits_value(body, 10) {
                Some(v) => if -(v as int) >= i64::MIN { Some(-(v as int)) } else { None },
                None => None,
            }
        }
    } else {
        let body = if s.len() > 0 && s[0] == '+' { s.drop_first() } else { s };
        if body.len() == 0 {
            None
        } else {
            match digits_value(body, 10) {
                Some(v) => if v <= i64::MAX { Some(v as int) } else { None },
                None => None,
            }
        }
    }
}

/// `i64::from_str`: trusted to accept exactly what `parse_i64_spec`
/// describes and to return that number; on any other text it returns the
/// standard library's `ParseIntError`.
#[verifier::external_body]
pub(crate) fn parse_i64(s: &str) -> (r: Result<i64, core::num::ParseIntError>)
    ensures
        r is Ok <==> parse_i64_spec(s@) is Some,
        r matches Ok(v) ==> v as int == parse_i64_spec(s@)->0,
{
    s.parse::<i64>()
}

/// `String::from_utf8`: trusted to succeed exactly on valid UTF-8 and then to
/// hold the decoded characters.
#[verifier::external_body]
pub(crate) fn string_from_utf8(bytes: Vec<u8>) -> (r: Result<String, std::string::FromUtf8Error>)
    ensures
        r is Ok <==> vstd::utf8::valid_utf8(bytes@),
        r matches Ok(s) ==> s@ == vstd::utf8::decode_utf8(bytes@),
{
    String::from_utf8(bytes)
}

/// The decimal digit character of `d` (below 10).
pub open spec fn decimal_char(d: nat) -> char
    recommends
        d < 10,
{
    ((d + '0' as nat) as u32) as char
}

/// The decimal representation of a number, without leading zeros ("0" for zero).
pub open spec fn decimal(n: nat) -> Seq<char>
    decreases n,
{
    if n < 10 {
        seq![decimal_char(n)]
    } else {
        decimal(n / 10).push(decimal_char(n % 10))
    }
}

/// The decimal representation of a 64-bit number, as `to_string` writes it.
pub fn u64_to_decimal(n: u64) -> (s: String)
    ensures
        s@ == decimal(n as nat),
{
    // collect the digits least significant first, then write them out reversed
    let mut digits: Vec<char> = Vec::new();
    let mut m: u64 = n;
    let ghost mut done: Seq<char> = Seq::empty();
    loop
        invariant_except_break
            decimal(n as nat) == decimal(m as nat) + done,
        invariant
            digits@ == done.reverse(),
        ensures
            done == decimal(n as nat),
        decreases m,
    {
        let d: u32 = (m % 10) as u32;
        let c: char = char_of_digit(d);
        if m < 10 {
            digits.push(c);
            proof {
                assert(decimal(m as nat) == seq![c]);
                done = seq![c] + done;
                assert(digits@ =~= done.reverse());
                assert(decimal(n as nat) =~= done);
            }
            break;
        }
        proof {
            assert(decimal(m as nat) == decimal((m / 10) as nat).push(c));
            assert(decimal(n as nat) =~= decimal((m / 10) as nat) + (seq![c] + done));
            done = seq![c] + done;
        }
        digits.push(c);
        assert(digits@ =~= done.reverse());
        m = m / 10;
    }
    let mut s = String::new();
    let mut i: usize = digits.len();
    while i > 0
        invariant
            i <= digits@.len(),
            digits@ == done.reverse(),
            done == decimal(n as nat),
            s@ == done.subrange(0, (digits@.len() - i) as int),
        decreases i,
    {
        i = i - 1;
        push_char(&mut s, digits[i]);
        assert(s@ =~= done.subrange(0, (digits@.len() - i) as int));
    }
    s
}

/// The decimal representation of a number, as `to_string` writes it.
pub fn usize_to_decimal(n: usize) -> (s: String)
    ensures
        s@ == decimal(n as nat),
{
    u64_to_decimal(n as u64)
}

/// The text of an integer: its decimal representation, after a `-` when it
/// is negative.
pub open spec fn int_text(i: int) -> Seq<char> {
    if i < 0 { seq!['-'] + decimal((-i) as nat) } else { decimal(i as nat) }
}

/// The text of a signed 64-bit number, as `to_string` writes it.
pub fn i64_to_decimal(n: i64) -> (s: String)
    ensures
        s@ == int_text(n as int),
{
    if n < 0 {
        let m: u64 = if n == i64::MIN { 9223372036854775808u64 } else { (-n) as u64 };
        let mut s = String::new();
        push_char(&mut s, '-');
        let d = u64_to_decimal(m);
        s.append(d.as_str());
        s
    } else {
        u64_to_decimal(n as u64)
    }
}

fn char_of_digit(d: u32) -> (c: char)
    requires
        d < 10,
    ensures
        c == decimal_char(d as nat),
{
    if d == 0 { '0' } else if d == 1 { '1' } else if d == 2 { '2' } else if d == 3 { '3' }
    else if d == 4 { '4' } else if d == 5 { '5' } else if d == 6 { '6' } else if d == 7 { '7' }
    else if d == 8 { '8' } else { '9' }
}

/// The lowercase hexadecimal digit character of `d` (below 16).
pub open spec fn hex_char(d: nat) -> char
    recommends
        d < 16,
{
    if d < 10 {
        ((d + '0' as nat) as u32) as char
    } else {
        ((d - 10 + 'a' as nat) as u32) as char
    }
}

/// The lowercase hexadecimal representation of a number, without leading zeros.
pub open spec fn hex(n: nat) -> Seq<char>
    decreases n,
{
    if n < 16 {
        seq![hex_char(n)]
    } else {
        hex(n / 16).push(hex_char(n % 16))
    }
}

/// `s` left-padded with `'0'` up to four characters, as `{:04x}` pads.
pub open spec fn pad4(s: Seq<char>) -> Seq<char> {
    if s.len() < 4 {
        Seq::new((4 - s.len()) as nat, |i: int| '0') + s
    } else {
        s
    }
}

pub(crate) fn hex_digit_char(d: u32) -> (c: char)
    requires
        d < 16,
    ensures
        c == hex_char(d as nat),
{
    if d < 10 {
        char_of_digit(d)
    } else if d == 10 { 'a' } else if d == 11 { 'b' } else if d == 12 { 'c' }
    else if d == 13 { 'd' } else if d == 14 { 'e' } else { 'f' }
}

/// The lowercase hexadecimal representation of a number, padded with zeros to
/// at least four digits (`format!("{:04x}", n)`).
pub fn usize_to_hex_pad4(n: usize) -> (s: String)
    ensures
        s@ == pad4(hex(n as nat)),
{
    let mut digits: Vec<char> = Vec::new();
    let mut m: usize = n;
    let ghost mut done: Seq<char> = Seq::empty();
    loop
        invariant_except_break
            hex(n as nat) == hex(m as nat) + done,
        invariant
            digits@ == done.reverse(),
        ensures
            done == hex(n as nat),
        decreases m,
    {
        let d: u32 = (m % 16) as u32;
        let c: char = hex_digit_char(d);
        if m < 16 {
            digits.push(c);
            proof {
                assert(hex(m as nat) == seq![c]);
                done = seq![c] + done;
                assert(digits@ =~= done.reverse());
                assert(hex(n as nat) =~= done);
            }
            break;
        }
        proof {
            assert(hex(m as nat) == hex((m / 16) as nat).push(c));
            assert(hex(n as nat) =~= hex((m / 16) as nat) + (seq![c] + done));
            done = seq![c] + done;
        }
        digits.push(c);
        assert(digits@ =~= done.reverse());
        m = m / 16;
    }
    let mut s = String::new();
    let mut pad: usize = 0;
    let ghost zeros = Seq::new((4 - done.len()) as nat, |i: int| '0');
    if digits.len() < 4 {
        while pad < 4 - digits.len()
            invariant
                digits@.len() < 4,
                pad <= 4 - digits@.len(),
                zeros.len() == 4 - digits@.len(),
                forall|k: int| 0 <= k < zeros.len() ==> zeros[k] == '0',
                digits@.len() == done.len(),
                s@ == zeros.subrange(0, pad as int),
            decreases 4 - digits.len() - pad,
        {
            push_char(&mut s, '0');
            pad = pad + 1;
            assert(s@ =~= zeros.subrange(0, pad as int));
        }
    }
    let ghost prefix = s@;
    assert(prefix + done == pad4(done)) by {
        if done.len() < 4 {
            assert(prefix =~= zeros);
        } else {
            assert(prefix =~= Seq::<char>::empty());
        }
    }
    let mut i: usize = digits.len();
    while i > 0
        invariant
            i <= digits@.len(),
            digits@ == done.reverse(),
            done == hex(n as nat),
            s@ == prefix + done.subrange(0, (digits@.len() - i) as int),
        decreases i,
    {
        i = i - 1;
        push_char(&mut s, digits[i]);
        assert(s@ =~= prefix + done.subrange(0, (digits@.len() - i) as int));
    }
    assert(done.subrange(0, digits@.len() as int) =~= done);
    s
}

/// `char::is_whitespace`: the characters with the Unicode White_Space property.
pub open spec fn is_whitespace(c: char) -> bool {
    ||| ('\u{9}' <= c && c <= '\u{d}')
    ||| c == ' '
    ||| c == '\u{85}'
    ||| c == '\u{a0}'
    ||| c == '\u{1680}'
    ||| ('\u{2000}' <= c && c <= '\u{200a}')
    ||| c == '\u{2028}'
    ||| c == '\u{2029}'
    ||| c == '\u{202f}'
    ||| c == '\u{205f}'
    ||| c == '\u{3000}'
}

pub fn char_is_whitespace(c: char) -> (b: bool)
    ensures
        b == is_whitespace(c),
{
    ('\u{9}' <= c && c <= '\u{d}') || c == ' ' || c == '\u{85}' || c == '\u{a0}'
        || c == '\u{1680}' || ('\u{2000}' <= c && c <= '\u{200a}') || c == '\u{2028}'
        || c == '\u{2029}' || c == '\u{202f}' || c == '\u{205f}' || c == '\u{3000}'
}

/// `s` without its trailing whitespace (`str::trim_end`).
pub open spec fn trim_end(s: Seq<char>) -> Seq<char>
    decreases s.len(),
{
    if s.len() > 0 && is_whitespace(s.last()) {
        trim_end(s.drop_last())
    } else {
        s
    }
}

/// `s` without its trailing whitespace.
pub fn trim_end_string(s: &str) -> (r: String)
    ensures
        r@ == trim_end(s@),
{
    let v = str_to_chars(s);
    let mut end: usize = v.len();
    assert(v@.subrange(0, end as int) =~= v@);
    while end > 0 && char_is_whitespace(v[end - 1])
        invariant
            end <= v@.len(),
            trim_end(v@) == trim_end(v@.subrange(0, end as int)),
        decreases end,
    {
        assert(v@.subrange(0, end as int).drop_last() =~= v@.subrange(0, end - 1));
        end = end - 1;
    }
    let r = chars_to_string(&v.as_slice()[0..end]);
    r
}

/// The `std::io::Error` of a file that is not there.
#[verifier::external_body]
pub(crate) fn not_found() -> std::io::Error {
    std::io::Error::from(std::io::ErrorKind::NotFound)
}

/// The `std::io::Error` that `read_exact` reports when the input ends early.
#[verifier::external_body]
pub(crate) fn unexpected_eof() -> std::io::Error {
    std::io::Error::from(std::io::ErrorKind::UnexpectedEof)
}

/// The `std::io::Error` that reading text reports for bytes that are not
/// UTF-8.
#[verifier::external_body]
pub(crate) fn invalid_data() -> std::io::Error {
    std::io::Error::from(std::io::ErrorKind::InvalidData)
}

/// The bytes `data[from..to]` as a new vector.
pub fn slice_range(data: &[u8], from: usize, to: usize) -> (v: Vec<u8>)
    requires
        from <= to <= data@.len(),
    ensures
        v@ == data@.subrange(from as int, to as int),
{
    let mut v: Vec<u8> = Vec::new();
    let mut i: usize = from;
    while i < to
        invariant
            from <= i <= to <= data@.len(),
            v@ == data@.subrange(from as int, i as int),
        decreases to - i,
    {
        v.push(data[i]);
        i = i + 1;
        assert(v@ =~= data@.subrange(from as int, i as int));
    }
    v
}

/// Whether two character slices hold the same characters.
pub fn chars_eq(a: &[char], b: &[char]) -> (r: bool)
    ensures
        r == (a@ == b@),
{
    if a.len() != b.len() {
        return false;
    }
    let mut i: usize = 0;
    while i < a.len()
        invariant
            a@.len() == b@.len(),
            i <= a@.len(),
            forall|j: int| 0 <= j < i ==> a@[j] == b@[j],
        decreases a.len() - i,
    {
        if a[i] != b[i] {
            return false;
        }
        i = i + 1;
    }
    assert(a@ =~= b@);
    true
}

/// Index of the first occurrence of `b` in `s`, or the length of `s`.
pub open spec fn find_byte(s: Seq<u8>, b: u8) -> nat
    decreases s.len(),
{
    if s.len() == 0 {
        0
    } else if s[0] == b {
        0
    } else {
        1 + find_byte(s.drop_first(), b)
    }
}

/// The bytes before the first `b` (all of `s` when there is none).
pub open spec fn bytes_before(s: Seq<u8>, b: u8) -> Seq<u8> {
    s.subrange(0, find_byte(s, b) as int)
}

/// The bytes after the first `b` (none when there is none).
pub open spec fn bytes_after(s: Seq<u8>, b: u8) -> Seq<u8> {
    if find_byte(s, b) < s.len() {
        s.subrange(find_byte(s, b) as int + 1, s.len() as int)
    } else {
        Seq::empty()
    }
}

/// Each byte read as the character of the same number (`byte as char`).
pub open spec fn latin1(s: Seq<u8>) -> Seq<char> {
    s.map_values(|b: u8| b as char)
}

pub proof fn lemma_find_byte_bound(s: Seq<u8>, b: u8)
    ensures
        find_byte(s, b) <= s.len(),
        find_byte(s, b) < s.len() ==> s[find_byte(s, b) as int] == b,
        forall|i: int| 0 <= i < find_byte(s, b) ==> s[i] != b,
    decreases s.len(),
{
    if s.len() > 0 && s[0] != b {
        lemma_find_byte_bound(s.drop_first(), b);
        assert forall|i: int| 0 <= i < find_byte(s, b) implies s[i] != b by {
            if i > 0 {
                assert(s[i] == s.drop_first()[i - 1]);
            }
        }
    }
}

pub proof fn lemma_find_byte_concat(a: Seq<u8>, s: Seq<u8>, b: u8)
    requires
        forall|i: int| 0 <= i < a.len() ==> a[i] != b,
    ensures
        find_byte(a + s, b) == a.len() + find_byte(s, b),
    decreases a.len(),
{
    if a.len() > 0 {
        assert((a + s).drop_first() =~= a.drop_first() + s);
        lemma_find_byte_concat(a.drop_first(), s, b);
    } else {
        assert(a + s =~= s);
    }
}

/// Position of the first `b` in `data`, or its length.
pub fn find_byte_exec(data: &[u8], b: u8) -> (k: usize)
    ensures
        k == find_byte(data@, b),
{
    proof {
        lemma_find_byte_bound(data@, b);
    }
    let mut k: usize = 0;
    while k < data.len() && data[k] != b
        invariant
            k <= data@.len(),
            k <= find_byte(data@, b),
            find_byte(data@, b) <= data@.len(),
            find_byte(data@, b) < data@.len() ==> data@[find_byte(data@, b) as int] == b,
            forall|i: int| 0 <= i < k ==> data@[i] != b,
        decreases data.len() - k,
    {
        k = k + 1;
    }
    proof {
        if k < find_byte(data@, b) {
            if k < data@.len() {
                assert(data@[k as int] == b);
            }
        }
        lemma_find_byte_exact(data@, b, k as nat);
    }
    k
}

proof fn lemma_find_byte_exact(s: Seq<u8>, b: u8, k: nat)
    requires
        k <= s.len(),
        k == s.len() || s[k as int] == b,
        forall|i: int| 0 <= i < k ==> s[i] != b,
    ensures
        find_byte(s, b) == k,
    decreases k,
{
    if k > 0 {
        assert forall|i: int| 0 <= i < k - 1 implies s.drop_first()[i] != b by {
            assert(s.drop_first()[i] == s[i + 1]);
        }
        lemma_find_byte_exact(s.drop_first(), b, (k - 1) as nat);
    } else if s.len() > 0 {
        assert(s[0] == b);
    }
}

/// The characters `byte as char` of the given bytes.
pub fn latin1_string(data: &[u8]) -> (s: String)
    ensures
        s@ == latin1(data@),
{
    let mut s = String::new();
    let mut i: usize = 0;
    while i < data.len()
        invariant
            i <= data@.len(),
            s@ == latin1(data@.subrange(0, i as int)),
        decreases data.len() - i,
    {
        push_char(&mut s, data[i] as char);
        i = i + 1;
        assert(s@ =~= latin1(data@.subrange(0, i as int)));
    }
    assert(data@.subrange(0, data@.len() as int) =~= data@);
    s
}

/// Index of the first `c` in `s`, or the length of `s`.
pub open spec fn find_char(s: Seq<char>, c: char) -> nat
    decreases s.len(),
{
    if s.len() == 0 {
        0
    } else if s[0] == c {
        0
    } else {
        1 + find_char(s.drop_first(), c)
    }
}

pub proof fn lemma_find_char_bound(s: Seq<char>, c: char)
    ensures
        find_char(s, c) <= s.len(),
        find_char(s, c) < s.len() ==> s[find_char(s, c) as int] == c,
        forall|i: int| 0 <= i < find_char(s, c) ==> s[i] != c,
    decreases s.len(),
{
    if s.len() > 0 && s[0] != c {
        lemma_find_char_bound(s.drop_first(), c);
        assert forall|i: int| 0 <= i < find_char(s, c) implies s[i] != c by {
            if i > 0 {
                assert(s[i] == s.drop_first()[i - 1]);
            }
        }
    }
}

pub proof fn lemma_find_char_exact(s: Seq<char>, c: char, k: nat)
    requires
        k <= s.len(),
        k == s.len() || s[k as int] == c,
        forall|i: int| 0 <= i < k ==> s[i] != c,
    ensures
        find_char(s, c) == k,
    decreases k,
{
    if k > 0 {
        assert forall|i: int| 0 <= i < k - 1 implies s.drop_first()[i] != c by {
            assert(s.drop_first()[i] == s[i + 1]);
        }
        lemma_find_char_exact(s.drop_first(), c, (k - 1) as nat);
    } else if s.len() > 0 {
        assert(s[0] == c);
    }
}

/// Position of the first `c` in `v` at or after `from`, or the length of `v`.
pub fn find_char_from(v: &[char], from: usize, c: char) -> (k: usize)
    requires
        from <= v@.len(),
    ensures
        k == from + find_char(v@.subrange(from as int, v@.len() as int), c),
{
    let ghost t = v@.subrange(from as int, v@.len() as int);
    proof { lemma_find_char_bound(t, c); }
    let mut k: usize = from;
    while k < v.len() && v[k] != c
        invariant
            from <= k <= v@.len(),
            t == v@.subrange(from as int, v@.len() as int),
            forall|i: int| from <= i < k ==> v@[i] != c,
        decreases v.len() - k,
    {
        k = k + 1;
    }
    proof {
        assert forall|i: int| 0 <= i < k - from implies t[i] != c by {
            assert(t[i] == v@[from + i]);
        }
        lemma_find_char_exact(t, c, (k - from) as nat);
    }
    k
}

/// A line without its terminator: a trailing carriage return is dropped.
pub open spec fn strip_cr(line: Seq<char>) -> Seq<char> {
    if line.len() > 0 && line.last() == '\r' { line.drop_last() } else { line }
}

/// The lines of a text, as `str::lines` gives them: split at `\n`, a `\r`
/// just before a `\n` dropped, no empty line after a final `\n`.
pub open spec fn lines(s: Seq<char>) -> Seq<Seq<char>>
    decreases s.len(),
{
    if s.len() == 0 {
        Seq::empty()
    } else {
        let k = find_char(s, '\n');
        if k < s.len() {
            seq![strip_cr(s.subrange(0, k as int))] + lines(s.subrange(k as int + 1, s.len() as int))
        } else {
            seq![s]
        }
    }
}

/// The texts of a sequence of strings.
pub open spec fn views(v: Seq<String>) -> Seq<Seq<char>> {
    v.map_values(|x: String| x@)
}

/// The lines of a text (`str::lines`).
pub fn lines_of(s: &str) -> (r: Vec<String>)
    ensures
        views(r@) == lines(s@),
{
    let v = str_to_chars(s);
    let n = v.len();
    let mut r: Vec<String> = Vec::new();
    let mut pos: usize = 0;
    assert(v@.subrange(0, n as int) =~= s@);
    assert(views(r@) + lines(s@) =~= lines(s@));
    while pos < n
        invariant
            n == v@.len(),
            v@ == s@,
            pos <= n,
            lines(s@) == views(r@) + lines(v@.subrange(pos as int, n as int)),
        decreases n - pos,
    {
        let ghost rest = v@.subrange(pos as int, n as int);
        let k = find_char_from(v.as_slice(), pos, '\n');
        proof { lemma_find_char_bound(rest, '\n'); }
        let mut end = k;
        if k > pos && v[k - 1] == '\r' && k < n {
            end = k - 1;
        }
        let line = chars_to_string(&v.as_slice()[pos..end]);
        let ghost old_r = r@;
        r.push(line);
        proof {
            if k < n {
                assert(rest.subrange(0, (k - pos) as int) =~= v@.subrange(pos as int, k as int));
                assert(line@ =~= strip_cr(rest.subrange(0, (k - pos) as int)));
                assert(rest.subrange((k - pos) as int + 1, rest.len() as int) =~= v@.subrange(k + 1, n as int));
            } else {
                assert(line@ =~= rest);
            }
            assert(views(r@) =~= views(old_r).push(line@));
        }
        if k < n {
            pos = k + 1;
        } else {
            pos = n;
            assert(v@.subrange(pos as int, n as int) =~= Seq::<char>::empty());
        }
        assert(lines(s@) =~= views(r@) + lines(v@.subrange(pos as int, n as int)));
    }
    assert(v@.subrange(pos as int, n as int) =~= Seq::<char>::empty());
    assert(views(r@) + lines(Seq::<char>::empty()) =~= views(r@));
    r
}

/// Lines joined with `\n` between them (`[..].join("\n")`).
pub open spec fn join_lines(ls: Seq<Seq<char>>) -> Seq<char>
    decreases ls.len(),
{
    if ls.len() == 0 {
        Seq::empty()
    } else if ls.len() == 1 {
        ls[0]
    } else {
        join_lines(ls.drop_last()) + seq!['\n'] + ls.last()
    }
}

/// Joins strings with a newline between each two.
pub fn join_with_newlines(v: &Vec<String>) -> (r: String)
    ensures
        r@ == join_lines(views(v@)),
{
    let mut r = String::new();
    let mut i: usize = 0;
    while i < v.len()
        invariant
            i <= v@.len(),
            r@ == join_lines(views(v@.subrange(0, i as int))),
        decreases v.len() - i,
    {
        let ghost prev = views(v@.subrange(0, i as int));
        if i > 0 {
            push_char(&mut r, '\n');
        }
        r.append(v[i].as_str());
        i = i + 1;
        proof {
            let cur = views(v@.subrange(0, i as int));
            assert(cur.drop_last() =~= prev);
            assert(cur.last() == v@[i - 1]@);
            if i == 1 {
                assert(cur.len() == 1);
            }
        }
    }
    assert(v@.subrange(0, v@.len() as int) =~= v@);
    r
}

/// The pieces of `s` between occurrences of `c` (`str::split` on a
/// character): one piece more than there are `c`s, empty pieces included.
pub open spec fn split_on(s: Seq<char>, c: char) -> Seq<Seq<char>>
    decreases s.len(),
{
    let k = find_char(s, c);
    if k < s.len() {
        seq![s.subrange(0, k as int)] + split_on(s.subrange(k as int + 1, s.len() as int), c)
    } else {
        seq![s]
    }
}

/// The pieces of a text between occurrences of `c`.
pub fn split_char(s: &str, c: char) -> (r: Vec<String>)
    ensures
        views(r@) == split_on(s@, c),
{
    let v = str_to_chars(s);
    let n = v.len();
    let mut r: Vec<String> = Vec::new();
    let mut pos: usize = 0;
    assert(v@.subrange(0, n as int) =~= s@);
    loop
        invariant
            n == v@.len(),
            v@ == s@,
            pos <= n,
            split_on(s@, c) == views(r@) + split_on(v@.subrange(pos as int, n as int), c),
        decreases n - pos,
    {
        let ghost rest = v@.subrange(pos as int, n as int);
        let k = find_char_from(v.as_slice(), pos, c);
        proof { lemma_find_char_bound(rest, c); }
        let piece = chars_to_string(&v.as_slice()[pos..k]);
        let ghost old_r = r@;
        r.push(piece);
        proof {
            assert(rest.subrange(0, (k - pos) as int) =~= v@.subrange(pos as int, k as int));
            assert(views(r@) =~= views(old_r).push(piece@));
        }
        if k < n {
            proof {
                assert(rest.subrange((k - pos) as int + 1, rest.len() as int) =~= v@.subrange(k + 1, n as int));
                assert(split_on(s@, c) =~= views(r@) + split_on(v@.subrange(k + 1, n as int), c));
            }
            pos = k + 1;
        } else {
            proof {
                assert(piece@ =~= rest);
                assert(split_on(s@, c) =~= views(r@));
            }
            return r;
        }
    }
}

/// Texts joined with `sep` between each two (`[..].join(sep)`).
pub open spec fn join_with(ls: Seq<Seq<char>>, sep: Seq<char>) -> Seq<char>
    decreases ls.len(),
{
    if ls.len() == 0 {
        Seq::empty()
    } else if ls.len() == 1 {
        ls[0]
    } else {
        join_with(ls.drop_last(), sep) + sep + ls.last()
    }
}

/// Joins strings with `sep` between each two.
pub fn join_strings(v: &Vec<String>, sep: &str) -> (r: String)
    ensures
        r@ == join_with(views(v@), sep@),
{
    let mut r = String::new();
    let mut i: usize = 0;
    while i < v.len()
        invariant
            i <= v@.len(),
            r@ == join_with(views(v@.subrange(0, i as int)), sep@),
        decreases v.len() - i,
    {
        let ghost prev = views(v@.subrange(0, i as int));
        if i > 0 {
            r.append(sep);
        }
        r.append(v[i].as_str());
        i = i + 1;
        proof {
            let cur = views(v@.subrange(0, i as int));
            assert(cur.drop_last() =~= prev);
            assert(cur.last() == v@[i - 1]@);
            if i == 1 {
                assert(cur.len() == 1);
            }
        }
    }
    assert(v@.subrange(0, v@.len() as int) =~= v@);
    r
}

/// Whether `s` begins with `p`.
pub open spec fn has_prefix(s: Seq<char>, p: Seq<char>) -> bool {
    p.len() <= s.len() && s.subrange(0, p.len() as int) == p
}

/// Whether a text begins with the given characters.
pub fn starts_with(s: &str, p: &str) -> (r: bool)
    ensures
        r == has_prefix(s@, p@),
{
    let a = str_to_chars(s);
    let b = str_to_chars(p);
    if b.len() > a.len() {
        return false;
    }
    let r = chars_eq(&a.as_slice()[0..b.len()], b.as_slice());
    assert(a@.subrange(0, b@.len() as int) =~= a@.subrange(0, b@.len() as int));
    r
}

/// The text before the first `c` and the text after it, if there is a `c`
/// (`str::split_once`).
pub open spec fn split_once_spec(s: Seq<char>, c: char) -> Option<(Seq<char>, Seq<char>)> {
    let k = find_char(s, c);
    if k < s.len() {
        Some((s.subrange(0, k as int), s.subrange(k as int + 1, s.len() as int)))
    } else {
        None
    }
}

/// Splits a text at its first `c`.
pub fn split_once_char(s: &str, c: char) -> (r: Option<(String, String)>)
    ensures
        match (r, split_once_spec(s@, c)) {
            (Some((a, b)), Some((x, y))) => a@ == x && b@ == y,
            (None, None) => true,
            _ => false,
        },
{
    let v = str_to_chars(s);
    let k = find_char_from(v.as_slice(), 0, c);
    assert(v@.subrange(0, v@.len() as int) =~= v@);
    if k < v.len() {
        let a = chars_to_string(&v.as_slice()[0..k]);
        let b = chars_to_string(&v.as_slice()[k + 1..v.len()]);
        Some((a, b))
    } else {
        None
    }
}

/// Appends a string slice to a string.
pub fn push_text(s: &mut String, t: &str)
    ensures
        final(s)@ == old(s)@ + t@,
{
    s.append(t);
}

/// The concatenation of a sequence of texts.
pub open spec fn concat(ls: Seq<Seq<char>>) -> Seq<char>
    decreases ls.len(),
{
    if ls.len() == 0 {
        Seq::empty()
    } else {
        concat(ls.drop_last()) + ls.last()
    }
}

/// The UTF-8 bytes of a text, as a new vector.
pub fn text_bytes(s: &str) -> (r: Vec<u8>)
    ensures
        r@ == vstd::utf8::encode_utf8(s@),
{
    let b = s.as_bytes();
    slice_range(b, 0, b.len())
}

/// Whether two texts are the same.
pub fn text_eq(a: &str, b: &str) -> (r: bool)
    ensures
        r == (a@ == b@),
{
    String::from_str(a) == String::from_str(b)
}

/// The first `c` of `x + [c] + y`, where `x` has none, is right after `x`.
pub proof fn lemma_find_char_after(x: Seq<char>, c: char, y: Seq<char>)
    requires
        !x.contains(c),
    ensures
        find_char(x + seq![c] + y, c) == x.len(),
{
    let s = x + seq![c] + y;
    assert forall|i: int| 0 <= i < x.len() implies s[i] != c by {
        assert(s[i] == x[i]);
    }
    lemma_find_char_exact(s, c, x.len());
}

/// A line without a line break, then a line break, then the rest: the line
/// comes first among the lines.
pub proof fn lemma_lines_cons(x: Seq<char>, y: Seq<char>)
    requires
        !x.contains('\n'),
    ensures
        lines(x + seq!['\n'] + y) == seq![strip_cr(x)] + lines(y),
{
    let s = x + seq!['\n'] + y;
    lemma_find_char_after(x, '\n', y);
    assert(s.subrange(0, x.len() as int) =~= x);
    assert(s.subrange(x.len() as int + 1, s.len() as int) =~= y);
}

/// Splitting `x + [c] + y` at its first `c`, where `x` has none, gives `x`
/// and `y`.
pub proof fn lemma_split_once_at(x: Seq<char>, c: char, y: Seq<char>)
    requires
        !x.contains(c),
    ensures
        split_once_spec(x + seq![c] + y, c) == Some((x, y)),
{
    let s = x + seq![c] + y;
    lemma_find_char_after(x, c, y);
    assert(s.subrange(0, x.len() as int) =~= x);
    assert(s.subrange(x.len() as int + 1, s.len() as int) =~= y);
}

/// Whether a text can stand as one line of a file: no line break in it and
/// no carriage return at its end.
pub open spec fn plain_line(l: Seq<char>) -> bool {
    !l.contains('\n') && (l.len() > 0 ==> l.last() != '\r')
}

/// Lines joined by line breaks, then a line break and a text, read back
/// as the lines and then the text's lines.
pub proof fn lemma_lines_join_then(ls: Seq<Seq<char>>, t: Seq<char>)
    requires
        ls.len() > 0,
        forall|i: int| 0 <= i < ls.len() ==> plain_line(#[trigger] ls[i]),
    ensures
        lines(join_with(ls, seq!['\n']) + seq!['\n'] + t) == ls + lines(t),
    decreases ls.len(),
{
    let last = ls.last();
    assert(plain_line(ls[ls.len() - 1]));
    if ls.len() == 1 {
        lemma_lines_cons(ls[0], t);
        assert(strip_cr(ls[0]) == ls[0]);
        assert(seq![ls[0]] =~= ls);
    } else {
        let front = ls.drop_last();
        assert forall|i: int| 0 <= i < front.len() implies plain_line(#[trigger] front[i]) by {
            assert(front[i] == ls[i]);
        }
        let rest = last + seq!['\n'] + t;
        assert(join_with(ls, seq!['\n']) + seq!['\n'] + t =~= join_with(front, seq!['\n']) + seq!['\n'] + rest);
        lemma_lines_join_then(front, rest);
        lemma_lines_cons(last, t);
        assert(strip_cr(last) == last);
        assert(front + (seq![last] + lines(t)) =~= ls + lines(t));
    }
}

/// Non-empty plain lines joined by line breaks read back as themselves.
pub proof fn lemma_lines_join(ls: Seq<Seq<char>>)
    requires
        forall|i: int| 0 <= i < ls.len() ==> plain_line(#[trigger] ls[i]) && ls[i].len() > 0,
    ensures
        lines(join_with(ls, seq!['\n'])) == ls,
{
    if ls.len() == 0 {
        assert(lines(Seq::<char>::empty()) == Seq::<Seq<char>>::empty());
        assert(ls =~= Seq::<Seq<char>>::empty());
    } else {
        let last = ls.last();
        assert(plain_line(ls[ls.len() - 1]) && ls[ls.len() - 1].len() > 0);
        assert(lines(last) == seq![last]) by {
            lemma_find_char_exact(last, '\n', last.len());
            assert forall|i: int| 0 <= i < last.len() implies last[i] != '\n' by {
                if last[i] == '\n' {
                    assert(last.contains('\n'));
                }
            }
            lemma_find_char_exact(last, '\n', last.len());
        }
        if ls.len() == 1 {
            assert(seq![last] =~= ls);
        } else {
            let front = ls.drop_last();
            assert forall|i: int| 0 <= i < front.len() implies plain_line(#[trigger] front[i]) by {
                assert(front[i] == ls[i]);
            }
            lemma_lines_join_then(front, last);
            assert(front + seq![last] =~= ls);
        }
    }
}

/// Splitting a text with no `c` in it gives the text itself.
pub proof fn lemma_split_on_none(x: Seq<char>, c: char)
    requires
        !x.contains(c),
    ensures
        split_on(x, c) == seq![x],
{
    assert forall|i: int| 0 <= i < x.len() implies x[i] != c by {
        if x[i] == c {
            assert(x.contains(c));
        }
    }
    lemma_find_char_exact(x, c, x.len());
}

/// Splitting `x + [c] + y`, where `x` has no `c`, gives `x` and then the
/// pieces of `y`.
pub proof fn lemma_split_on_cons(x: Seq<char>, c: char, y: Seq<char>)
    requires
        !x.contains(c),
    ensures
        split_on(x + seq![c] + y, c) == seq![x] + split_on(y, c),
{
    let s = x + seq![c] + y;
    lemma_find_char_after(x, c, y);
    assert(s.subrange(0, x.len() as int) =~= x);
    assert(s.subrange(x.len() as int + 1, s.len() as int) =~= y);
}

/// The concatenation of a text followed by others.
pub proof fn lemma_concat_cons(a: Seq<char>, rest: Seq<Seq<char>>)
    ensures
        concat(seq![a] + rest) == a + concat(rest),
    decreases rest.len(),
{
    let t = seq![a] + rest;
    if rest.len() == 0 {
        assert(t.drop_last() =~= Seq::<Seq<char>>::empty());
        assert(t.last() == a);
        assert(concat(t) == concat(t.drop_last()) + t.last());
        assert(concat(t) =~= a);
        assert(a + concat(rest) =~= a);
    } else {
        lemma_concat_cons(a, rest.drop_last());
        assert(t.drop_last() =~= seq![a] + rest.drop_last());
        assert(t.last() == rest.last());
        assert(concat(t) == concat(t.drop_last()) + t.last());
        assert(a + concat(rest) =~= a + concat(rest.drop_last()) + rest.last());
    }
}

/// A character takes at most four bytes in UTF-8.
pub proof fn lemma_encode_len_bound(s: Seq<char>)
    ensures
        vstd::utf8::encode_utf8(s).len() <= 4 * s.len(),
    decreases s.len(),
{
    if s.len() > 0 {
        lemma_encode_len_bound(s.drop_first());
        assert(vstd::utf8::encode_scalar(s[0] as u32).len() <= 4);
    }
}

/// Index of the first whitespace character of `s`, or its length.
pub open spec fn find_whitespace(s: Seq<char>) -> nat
    decreases s.len(),
{
    if s.len() == 0 {
        0
    } else if is_whitespace(s[0]) {
        0
    } else {
        1 + find_whitespace(s.drop_first())
    }
}

/// The words of a text: its maximal runs of non-whitespace characters
/// (`str::split_whitespace`).
pub open spec fn words(s: Seq<char>) -> Seq<Seq<char>>
    decreases s.len(),
{
    if s.len() == 0 {
        Seq::empty()
    } else if is_whitespace(s[0]) {
        words(s.drop_first())
    } else {
        let k = find_whitespace(s);
        proof {
            lemma_find_whitespace(s);
        }
        seq![s.subrange(0, k as int)] + words(s.subrange(k as int, s.len() as int))
    }
}

pub proof fn lemma_find_whitespace(s: Seq<char>)
    ensures
        find_whitespace(s) <= s.len(),
        find_whitespace(s) < s.len() ==> is_whitespace(s[find_whitespace(s) as int]),
        forall|i: int| 0 <= i < find_whitespace(s) ==> !is_whitespace(s[i]),
    decreases s.len(),
{
    if s.len() > 0 && !is_whitespace(s[0]) {
        lemma_find_whitespace(s.drop_first());
        assert forall|i: int| 0 <= i < find_whitespace(s) implies !is_whitespace(s[i]) by {
            if i > 0 {
                assert(s[i] == s.drop_first()[i - 1]);
            }
        }
    }
}

proof fn lemma_find_whitespace_exact(s: Seq<char>, k: nat)
    requires
        k <= s.len(),
        k == s.len() || is_whitespace(s[k as int]),
        forall|i: int| 0 <= i < k ==> !is_whitespace(s[i]),
    ensures
        find_whitespace(s) == k,
    decreases k,
{
    if k > 0 {
        assert forall|i: int| 0 <= i < k - 1 implies !is_whitespace(s.drop_first()[i]) by {
            assert(s.drop_first()[i] == s[i + 1]);
        }
        lemma_find_whitespace_exact(s.drop_first(), (k - 1) as nat);
    }
}

/// A word: a non-empty text without whitespace.
pub open spec fn is_word(w: Seq<char>) -> bool {
    w.len() > 0 && forall|i: int| 0 <= i < w.len() ==> !is_whitespace(#[trigger] w[i])
}

/// The words of a word are itself.
pub proof fn lemma_words_single(w: Seq<char>)
    requires
        is_word(w),
    ensures
        words(w) == seq![w],
{
    lemma_find_whitespace_exact(w, w.len());
    assert(!is_whitespace(w[0]));
    assert(w.subrange(0, w.len() as int) =~= w);
    assert(w.subrange(w.len() as int, w.len() as int) =~= Seq::<char>::empty());
    assert(words(Seq::<char>::empty()) == Seq::<Seq<char>>::empty());
    assert(words(w) == seq![w.subrange(0, w.len() as int)] + words(w.subrange(w.len() as int, w.len() as int)));
    assert(seq![w] + Seq::<Seq<char>>::empty() =~= seq![w]);
}

/// The words of a word, a space and a text: the word, then the text's words.
pub proof fn lemma_words_cons(w: Seq<char>, rest: Seq<char>)
    requires
        is_word(w),
    ensures
        words(w + seq![' '] + rest) == seq![w] + words(rest),
{
    let s = w + seq![' '] + rest;
    assert forall|i: int| 0 <= i < w.len() implies !is_whitespace(s[i]) by {
        assert(s[i] == w[i]);
    }
    lemma_find_whitespace_exact(s, w.len());
    assert(s.subrange(0, w.len() as int) =~= w);
    let t = s.subrange(w.len() as int, s.len() as int);
    assert(t[0] == ' ');
    assert(t.drop_first() =~= rest);
    assert(is_whitespace(t[0]));
    assert(words(t) == words(t.drop_first()));
    assert(!is_whitespace(s[0])) by {
        assert(s[0] == w[0]);
    }
    assert(words(s) == seq![s.subrange(0, w.len() as int)] + words(t));
}

/// Every word that `words` finds is a word: non-empty, without whitespace.
pub proof fn lemma_words_are_words(s: Seq<char>)
    ensures
        forall|i: int| 0 <= i < words(s).len() ==> is_word(#[trigger] words(s)[i]),
    decreases s.len(),
{
    if s.len() == 0 {
    } else if is_whitespace(s[0]) {
        lemma_words_are_words(s.drop_first());
        assert(words(s) == words(s.drop_first()));
    } else {
        let k = find_whitespace(s);
        lemma_find_whitespace(s);
        let w = s.subrange(0, k as int);
        let rest = s.subrange(k as int, s.len() as int);
        lemma_words_are_words(rest);
        assert(is_word(w)) by {
            assert forall|j: int| 0 <= j < w.len() implies !is_whitespace(#[trigger] w[j]) by {
                assert(w[j] == s[j]);
            }
        }
        assert(words(s) == seq![w] + words(rest));
        assert forall|i: int| 0 <= i < words(s).len() implies is_word(#[trigger] words(s)[i]) by {
            if i > 0 {
                assert(words(s)[i] == words(rest)[i - 1]);
            }
        }
    }
}

/// The words of a text.
pub fn split_whitespace(s: &str) -> (r: Vec<String>)
    ensures
        views(r@) == words(s@),
{
    let v = str_to_chars(s);
    let n = v.len();
    let mut r: Vec<String> = Vec::new();
    let mut pos: usize = 0;
    assert(v@.subrange(0, n as int) =~= s@);
    while pos < n
        invariant
            n == v@.len(),
            v@ == s@,
            pos <= n,
            words(s@) == views(r@) + words(v@.subrange(pos as int, n as int)),
        decreases n - pos,
    {
        let ghost rest = v@.subrange(pos as int, n as int);
        if char_is_whitespace(v[pos]) {
            assert(rest.drop_first() =~= v@.subrange(pos + 1, n as int));
            pos = pos + 1;
        } else {
            let mut end = pos;
            while end < n && !char_is_whitespace(v[end])
                invariant
                    pos <= end <= n,
                    n == v@.len(),
                    forall|i: int| pos <= i < end ==> !is_whitespace(v@[i]),
                decreases n - end,
            {
                end = end + 1;
            }
            proof {
                assert forall|i: int| 0 <= i < end - pos implies !is_whitespace(rest[i]) by {
                    assert(rest[i] == v@[pos + i]);
                }
                lemma_find_whitespace_exact(rest, (end - pos) as nat);
                assert(rest.subrange(0, (end - pos) as int) =~= v@.subrange(pos as int, end as int));
                assert(rest.subrange((end - pos) as int, rest.len() as int) =~= v@.subrange(end as int, n as int));
            }
            let w = chars_to_string(&v.as_slice()[pos..end]);
            let ghost old_r = r@;
            r.push(w);
            assert(views(r@) =~= views(old_r).push(w@));
            pos = end;
        }
    }
    assert(v@.subrange(n as int, n as int) =~= Seq::<char>::empty());
    r
}

/// Whether a character is ASCII whitespace (`char::is_ascii_whitespace`):
/// space, tab, line feed, form feed or carriage return.
pub open spec fn is_ascii_space(c: char) -> bool {
    c == ' ' || c == '\t' || c == '\n' || c == '\u{c}' || c == '\r'
}

/// The length of the run of characters before the first ASCII whitespace.
pub open spec fn find_ascii_space(s: Seq<char>) -> nat
    decreases s.len(),
{
    if s.len() == 0 {
        0
    } else if is_ascii_space(s[0]) {
        0
    } else {
        1 + find_ascii_space(s.drop_first())
    }
}

pub proof fn lemma_find_ascii_space(s: Seq<char>)
    ensures
        find_ascii_space(s) <= s.len(),
    decreases s.len(),
{
    if s.len() > 0 && !is_ascii_space(s[0]) {
        lemma_find_ascii_space(s.drop_first());
    }
}

proof fn lemma_find_ascii_space_exact(s: Seq<char>, k: nat)
    requires
        k <= s.len(),
        k == s.len() || is_ascii_space(s[k as int]),
        forall|i: int| 0 <= i < k ==> !is_ascii_space(s[i]),
    ensures
        find_ascii_space(s) == k,
    decreases k,
{
    if k > 0 {
        assert forall|i: int| 0 <= i < k - 1 implies !is_ascii_space(s.drop_first()[i]) by {
            assert(s.drop_first()[i] == s[i + 1]);
        }
        lemma_find_ascii_space_exact(s.drop_first(), (k - 1) as nat);
    }
}

/// The words of a text split at ASCII whitespace
/// (`str::split_ascii_whitespace`).
pub open spec fn ascii_words(s: Seq<char>) -> Seq<Seq<char>>
    decreases s.len(),
{
    if s.len() == 0 {
        Seq::empty()
    } else if is_ascii_space(s[0]) {
        ascii_words(s.drop_first())
    } else {
        let k = find_ascii_space(s);
        proof {
            lemma_find_ascii_space(s);
        }
        seq![s.subrange(0, k as int)] + ascii_words(s.subrange(k as int, s.len() as int))
    }
}

/// The words of a text split at ASCII whitespace.
pub fn split_ascii_whitespace(s: &str) -> (r: Vec<String>)
    ensures
        views(r@) == ascii_words(s@),
{
    let v = str_to_chars(s);
    let n = v.len();
    let mut r: Vec<String> = Vec::new();
    let mut pos: usize = 0;
    assert(v@.subrange(0, n as int) =~= s@);
    while pos < n
        invariant
            n == v@.len(),
            v@ == s@,
            pos <= n,
            ascii_words(s@) == views(r@) + ascii_words(v@.subrange(pos as int, n as int)),
        decreases n - pos,
    {
        let ghost rest = v@.subrange(pos as int, n as int);
        let c = v[pos];
        if c == ' ' || c == '\t' || c == '\n' || c == '\u{c}' || c == '\r' {
            assert(rest.drop_first() =~= v@.subrange(pos + 1, n as int));
            pos = pos + 1;
        } else {
            let mut end = pos;
            while end < n && !(v[end] == ' ' || v[end] == '\t' || v[end] == '\n' || v[end] == '\u{c}' || v[end] == '\r')
                invariant
                    pos <= end <= n,
                    n == v@.len(),
                    forall|i: int| pos <= i < end ==> !is_ascii_space(v@[i]),
                decreases n - end,
            {
                end = end + 1;
            }
            proof {
                assert forall|i: int| 0 <= i < end - pos implies !is_ascii_space(rest[i]) by {
                    assert(rest[i] == v@[pos + i]);
                }
                lemma_find_ascii_space_exact(rest, (end - pos) as nat);
                assert(rest.subrange(0, (end - pos) as int) =~= v@.subrange(pos as int, end as int));
                assert(rest.subrange((end - pos) as int, rest.len() as int) =~= v@.subrange(end as int, n as int));
            }
            let w = chars_to_string(&v.as_slice()[pos..end]);
            let ghost old_r = r@;
            r.push(w);
            assert(views(r@) =~= views(old_r).push(w@));
            pos = end;
        }
    }
    assert(v@.subrange(n as int, n as int) =~= Seq::<char>::empty());
    r
}

/// Whether `a` comes strictly before `b` in lexicographic order of their
/// characters (the order of `String`s, whose UTF-8 bytes keep it).
pub open spec fn text_lt(a: Seq<char>, b: Seq<char>) -> bool
    decreases a.len(),
{
    if a.len() == 0 {
        b.len() > 0
    } else if b.len() == 0 {
        false
    } else if a[0] != b[0] {
        a[0] < b[0]
    } else {
        text_lt(a.drop_first(), b.drop_first())
    }
}

pub proof fn lemma_text_lt_irreflexive(a: Seq<char>)
    ensures
        !text_lt(a, a),
    decreases a.len(),
{
    if a.len() > 0 {
        lemma_text_lt_irreflexive(a.drop_first());
    }
}

pub proof fn lemma_text_lt_trichotomy(a: Seq<char>, b: Seq<char>)
    ensures
        text_lt(a, b) || text_lt(b, a) || a == b,
        !(text_lt(a, b) && text_lt(b, a)),
    decreases a.len(),
{
    if a.len() > 0 && b.len() > 0 && a[0] == b[0] {
        lemma_text_lt_trichotomy(a.drop_first(), b.drop_first());
        if a.drop_first() == b.drop_first() {
            assert(a =~= seq![a[0]] + a.drop_first());
            assert(b =~= seq![b[0]] + b.drop_first());
        }
    } else if a.len() == 0 && b.len() == 0 {
        assert(a =~= b);
    }
}

pub proof fn lemma_text_lt_transitive(a: Seq<char>, b: Seq<char>, c: Seq<char>)
    requires
        text_lt(a, b),
        text_lt(b, c),
    ensures
        text_lt(a, c),
    decreases a.len(),
{
    if a.len() > 0 && b.len() > 0 && c.len() > 0 && a[0] == b[0] && b[0] == c[0] {
        lemma_text_lt_transitive(a.drop_first(), b.drop_first(), c.drop_first());
    }
}

/// Whether one text comes strictly before another.
pub fn text_less(a: &str, b: &str) -> (r: bool)
    ensures
        r == text_lt(a@, b@),
{
    let x = str_to_chars(a);
    let y = str_to_chars(b);
    let mut i: usize = 0;
    assert(a@.subrange(0, a@.len() as int) =~= a@);
    assert(b@.subrange(0, b@.len() as int) =~= b@);
    while i < x.len() && i < y.len() && x[i] == y[i]
        invariant
            i <= x@.len(),
            i <= y@.len(),
            x@ == a@,
            y@ == b@,
            forall|j: int| 0 <= j < i ==> x@[j] == y@[j],
            text_lt(a@, b@) == text_lt(a@.subrange(i as int, a@.len() as int), b@.subrange(i as int, b@.len() as int)),
        decreases x.len() - i,
    {
        proof {
            let sa = a@.subrange(i as int, a@.len() as int);
            let sb = b@.subrange(i as int, b@.len() as int);
            assert(sa.drop_first() =~= a@.subrange(i + 1, a@.len() as int));
            assert(sb.drop_first() =~= b@.subrange(i + 1, b@.len() as int));
        }
        i = i + 1;
    }
    if i == x.len() {
        i < y.len()
    } else if i == y.len() {
        false
    } else {
        x[i] < y[i]
    }
}

/// Index of the first occurrence of `p` in `s`, or the length of `s`.
pub open spec fn find_text(s: Seq<char>, p: Seq<char>) -> nat
    decreases s.len(),
{
    if s.len() < p.len() {
        s.len()
    } else if s.subrange(0, p.len() as int) == p {
        0
    } else {
        proof {
            if s.len() == 0 {
                assert(s.subrange(0, p.len() as int) =~= p);
            }
        }
        1 + find_text(s.drop_first(), p)
    }
}

/// The text before the first occurrence of `p` and the text after it, if
/// `p` occurs (`str::split_once` with a text pattern).
pub open spec fn split_once_text(s: Seq<char>, p: Seq<char>) -> Option<(Seq<char>, Seq<char>)> {
    let k = find_text(s, p);
    if k < s.len() {
        Some((s.subrange(0, k as int), s.subrange((k + p.len()) as int, s.len() as int)))
    } else {
        None
    }
}

pub proof fn lemma_find_text_bound(s: Seq<char>, p: Seq<char>)
    ensures
        find_text(s, p) <= s.len(),
        find_text(s, p) < s.len() ==> find_text(s, p) + p.len() <= s.len()
            && s.subrange(find_text(s, p) as int, (find_text(s, p) + p.len()) as int) == p,
    decreases s.len(),
{
    if s.len() >= p.len() && s.subrange(0, p.len() as int) != p {
        if s.len() == 0 {
            assert(s.subrange(0, p.len() as int) =~= p);
        }
        let t = s.drop_first();
        lemma_find_text_bound(t, p);
        let k = find_text(t, p);
        if k < t.len() {
            assert(s.subrange((k + 1) as int, (k + 1 + p.len()) as int) =~= t.subrange(k as int, (k + p.len()) as int));
        }
    }
}

/// Splits a text at the first occurrence of a non-empty pattern.
pub fn split_once_str(s: &str, p: &str) -> (r: Option<(String, String)>)
    requires
        p@.len() > 0,
    ensures
        match (r, split_once_text(s@, p@)) {
            (Some((a, b)), Some((x, y))) => a@ == x && b@ == y,
            (None, None) => true,
            _ => false,
        },
{
    let v = str_to_chars(s);
    let q = str_to_chars(p);
    let n = v.len();
    let m = q.len();
    let mut i: usize = 0;
    proof { lemma_find_text_bound(s@, p@); }
    assert(v@.subrange(0, n as int) =~= s@);
    while i < n
        invariant
            n == v@.len(),
            m == q@.len(),
            v@ == s@,
            q@ == p@,
            m > 0,
            i <= n,
            find_text(s@, p@) == i + find_text(v@.subrange(i as int, n as int), p@),
        decreases n - i,
    {
        let ghost rest = v@.subrange(i as int, n as int);
        if n - i < m {
            proof { assert(find_text(rest, p@) == rest.len()); }
            return None;
        }
        let same = chars_eq(&v.as_slice()[i..i + m], q.as_slice());
        proof {
            assert(v@.subrange(i as int, (i + m) as int) =~= rest.subrange(0, m as int));
        }
        if same {
            let a = chars_to_string(&v.as_slice()[0..i]);
            let b = chars_to_string(&v.as_slice()[i + m..n]);
            proof {
                assert(find_text(rest, p@) == 0);
            }
            return Some((a, b));
        }
        proof {
            assert(rest.drop_first() =~= v@.subrange(i + 1, n as int));
        }
        i = i + 1;
    }
    proof {
        assert(v@.subrange(n as int, n as int).len() == 0);
    }
    None
}


/// Whether `s` ends with `p`.
pub open spec fn has_suffix(s: Seq<char>, p: Seq<char>) -> bool {
    p.len() <= s.len() && s.subrange(s.len() - p.len(), s.len() as int) == p
}

/// `s` without the suffix `p` where it ends with it, else `s` itself.
pub open spec fn strip_suffix_or_self(s: Seq<char>, p: Seq<char>) -> Seq<char> {
    if has_suffix(s, p) { s.subrange(0, s.len() - p.len()) } else { s }
}

/// `s` without the suffix `p` where it ends with it, else `s` itself.
pub fn strip_suffix_or_same(s: &str, p: &str) -> (r: String)
    ensures
        r@ == strip_suffix_or_self(s@, p@),
{
    let sv = str_to_chars(s);
    let pv = str_to_chars(p);
    if pv.len() > sv.len() {
        return String::from_str(s);
    }
    let start = sv.len() - pv.len();
    let mut k: usize = 0;
    while k < pv.len()
        invariant
            sv@ == s@,
            pv@ == p@,
            pv@.len() <= sv@.len(),
            start == sv@.len() - pv@.len(),
            k <= pv@.len(),
            forall|i: int| 0 <= i < k ==> sv@[start + i] == pv@[i],
        decreases pv.len() - k,
    {
        assert(start + k < sv.len());
        if sv[start + k] != pv[k] {
            assert(sv@[start + k as int] != pv@[k as int]);
            assert(s@.subrange(start as int, s@.len() as int)[k as int] != p@[k as int]);
            return String::from_str(s);
        }
        k = k + 1;
    }
    assert(s@.subrange(start as int, s@.len() as int) =~= p@);
    let mut out = String::new();
    let mut i: usize = 0;
    while i < start
        invariant
            sv@ == s@,
            start <= sv@.len(),
            i <= start,
            out@ == s@.subrange(0, i as int),
        decreases start - i,
    {
        push_char(&mut out, sv[i]);
        i = i + 1;
    }
    out
}


/// `s` without its leading whitespace (`str::trim_start`).
pub open spec fn trim_start(s: Seq<char>) -> Seq<char>
    decreases s.len(),
{
    if s.len() > 0 && is_whitespace(s[0]) {
        trim_start(s.drop_first())
    } else {
        s
    }
}

/// `s` without leading and trailing whitespace (`str::trim`).
pub open spec fn trim(s: Seq<char>) -> Seq<char> {
    trim_start(trim_end(s))
}

/// `s` without leading and trailing whitespace.
pub fn trim_string(s: &str) -> (r: String)
    ensures
        r@ == trim(s@),
{
    let t = trim_end_string(s);
    let v = str_to_chars(t.as_str());
    let mut start: usize = 0;
    assert(v@.subrange(0, v@.len() as int) =~= v@);
    while start < v.len() && char_is_whitespace(v[start])
        invariant
            start <= v@.len(),
            trim_start(v@) == trim_start(v@.subrange(start as int, v@.len() as int)),
        decreases v.len() - start,
    {
        assert(v@.subrange(start as int, v@.len() as int).drop_first() =~= v@.subrange(start + 1, v@.len() as int));
        start = start + 1;
    }
    chars_to_string(&v.as_slice()[start..v.len()])
}


/// `s` with every occurrence of the non-empty pattern `p` replaced by `t`,
/// from left to right (`str::replace`).
pub open spec fn replace_text(s: Seq<char>, p: Seq<char>, t: Seq<char>) -> Seq<char>
    decreases s.len(),
{
    if p.len() == 0 {
        s
    } else {
        match split_once_text(s, p) {
            Some((a, b)) => {
                proof { lemma_find_text_bound(s, p); }
                a + t + replace_text(b, p, t)
            },
            None => s,
        }
    }
}

/// Replaces every occurrence of a non-empty pattern.
pub fn replace_str(s: &str, p: &str, t: &str) -> (r: String)
    requires
        p@.len() > 0,
    ensures
        r@ == replace_text(s@, p@, t@),
{
    let mut out = String::new();
    let mut rest = String::from_str(s);
    loop
        invariant
            p@.len() > 0,
            out@ + replace_text(rest@, p@, t@) == replace_text(s@, p@, t@),
        decreases rest@.len(),
    {
        match split_once_str(rest.as_str(), p) {
            Some((a, b)) => {
                proof { lemma_find_text_bound(rest@, p@); }
                let ghost before = out@;
                push_text(&mut out, a.as_str());
                push_text(&mut out, t);
                assert(before + replace_text(rest@, p@, t@) == out@ + replace_text(b@, p@, t@));
                rest = b;
            },
            None => {
                push_text(&mut out, rest.as_str());
                return out;
            },
        }
    }
}


/// Whether texts are in ascending order.
pub open spec fn sorted_texts(s: Seq<Seq<char>>) -> bool {
    forall|i: int, j: int| 0 <= i < j < s.len() ==> !text_lt(#[trigger] s[j], #[trigger] s[i])
}

/// The strings in ascending order of their texts.
pub fn sort_strings(v: &Vec<String>) -> (r: Vec<String>)
    ensures
        sorted_texts(views(r@)),
        views(r@).to_multiset() == views(v@).to_multiset(),
{
    broadcast use vstd::seq_lib::group_to_multiset_ensures;
    let mut res: Vec<String> = Vec::new();
    let mut k: usize = 0;
    assert(views(v@).subrange(0, 0) =~= Seq::<Seq<char>>::empty());
    assert(views(res@) =~= Seq::<Seq<char>>::empty());
    while k < v.len()
        invariant
            k <= v@.len(),
            sorted_texts(views(res@)),
            views(res@).to_multiset() == views(v@).subrange(0, k as int).to_multiset(),
        decreases v.len() - k,
    {
        let x = v[k].clone();
        let ghost old_res = views(res@);
        let mut p: usize = 0;
        while p < res.len() && !text_less(x.as_str(), res[p].as_str())
            invariant
                p <= res@.len(),
                old_res == views(res@),
                forall|i: int| 0 <= i < p ==> !text_lt(x@, #[trigger] old_res[i]),
            decreases res.len() - p,
        {
            p = p + 1;
        }
        proof {
            assert forall|j: int| p <= j < old_res.len() implies !text_lt(#[trigger] old_res[j], x@) by {
                assert(text_lt(x@, old_res[p as int]));
                if j > p {
                    assert(!text_lt(old_res[j], old_res[p as int]));
                }
                if text_lt(old_res[j], x@) {
                    lemma_text_lt_transitive(old_res[j], x@, old_res[p as int]);
                    if j == p {
                        lemma_text_lt_irreflexive(old_res[j]);
                    }
                }
            }
        }
        let ghost xv = x@;
        res.insert(p, x);
        proof {
            let n = views(res@);
            assert(n =~= old_res.insert(p as int, xv));
            vstd::seq_lib::to_multiset_insert(old_res, p as int, xv);
            assert(views(v@).subrange(0, k + 1) =~= views(v@).subrange(0, k as int).push(xv));
            vstd::seq_lib::to_multiset_build(views(v@).subrange(0, k as int), xv);
            assert forall|i: int, j: int| 0 <= i < j < n.len() implies !text_lt(#[trigger] n[j], #[trigger] n[i]) by {
                if j < p {
                    assert(n[i] == old_res[i] && n[j] == old_res[j]);
                } else if j == p {
                    assert(n[i] == old_res[i]);
                } else if i < p {
                    assert(n[i] == old_res[i] && n[j] == old_res[j - 1]);
                    if text_lt(old_res[j - 1], old_res[i]) {
                    }
                } else if i == p {
                    assert(n[j] == old_res[j - 1]);
                } else {
                    assert(n[i] == old_res[i - 1] && n[j] == old_res[j - 1]);
                }
            }
        }
        k = k + 1;
    }
    assert(views(v@).subrange(0, k as int) =~= views(v@));
    res
}

} // verus!
