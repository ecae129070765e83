//! Small conversions: dotted IPv4 text, the top-level label of a host, and
//! the base64url text that carries a DNS message in a GET request.
use vstd::prelude::*;
use crate::text::{lemma_split_dots_step, parse_u8, parse_u8_spec, split_dots, split_on_dots};

verus! {

/// The four bytes of `a.b.c.d` when the text has exactly four dot-separated
/// parts and each is a decimal byte.
pub open spec fn ipv4_spec(s: Seq<char>) -> Option<Seq<u8>> {
    let p = split_dots(s);
    if p.len() == 4 && (forall|k: int| 0 <= k < 4 ==> (#[trigger] parse_u8_spec(p[k])) is Some) {
        Some(
            seq![
                parse_u8_spec(p[0])->0,
                parse_u8_spec(p[1])->0,
                parse_u8_spec(p[2])->0,
                parse_u8_spec(p[3])->0,
            ],
        )
    } else {
        None
    }
}

/// The first four dot-separated parts of `s`, read as decimal bytes.
pub open spec fn leading_octets(s: Seq<char>) -> Seq<u8> {
    let p = split_dots(s);
    seq![
        parse_u8_spec(p[0])->0,
        parse_u8_spec(p[1])->0,
        parse_u8_spec(p[2])->0,
        parse_u8_spec(p[3])->0,
    ]
}

/// `s` has at least four dot-separated parts, the first four decimal bytes.
pub open spec fn has_leading_octets(s: Seq<char>) -> bool {
    let p = split_dots(s);
    p.len() >= 4 && forall|k: int| 0 <= k < 4 ==> (#[trigger] parse_u8_spec(p[k])) is Some
}

/// Reads an A record value: exactly four dot-separated decimal bytes.
pub fn parse_a_record(a_record: &str) -> (r: Option<[u8; 4]>)
    ensures
        r is Some == ipv4_spec(a_record@) is Some,
        r is Some ==> r->0@ == ipv4_spec(a_record@)->0,
{
    let parts = split_on_dots(a_record);
    if parts.len() != 4 {
        return None;
    }
    let mut a: [u8; 4] = [0; 4];
    let mut k: usize = 0;
    while k < 4
        invariant
            k <= 4,
            parts@.len() == 4,
            parts@.len() == split_dots(a_record@).len(),
            forall|j: int| 0 <= j < 4 ==> #[trigger] parts@[j]@ == split_dots(a_record@)[j],
            forall|j: int| 0 <= j < k ==> parse_u8_spec(#[trigger] split_dots(a_record@)[j]) == Some(a@[j]),
        decreases 4 - k,
    {
        match parse_u8(parts[k].as_str()) {
            Some(v) => {
                a[k] = v;
            },
            None => {
                return None;
            },
        }
        k = k + 1;
    }
    assert(a@ =~= ipv4_spec(a_record@)->0);
    Some(a)
}

/// Reads the first four dot-separated parts of `ip` as bytes.
pub fn ip_string_to_u8_array(ip: &str) -> (r: [u8; 4])
    requires
        has_leading_octets(ip@),
    ensures
        r@ == leading_octets(ip@),
{
    let parts = split_on_dots(ip);
    let mut a: [u8; 4] = [0; 4];
    let mut k: usize = 0;
    while k < 4
        invariant
            k <= 4,
            has_leading_octets(ip@),
            parts@.len() == split_dots(ip@).len(),
            forall|j: int| 0 <= j < parts@.len() ==> #[trigger] parts@[j]@ == split_dots(ip@)[j],
            forall|j: int| 0 <= j < k ==> parse_u8_spec(#[trigger] split_dots(ip@)[j]) == Some(a@[j]),
        decreases 4 - k,
    {
        let v = parse_u8(parts[k].as_str());
        a[k] = v.unwrap();
        k = k + 1;
    }
    assert(a@ =~= leading_octets(ip@));
    a
}

/// The registrable part of `host`: everything before its last dot, or
/// nothing when it has no dot.
pub open spec fn name_before_tld(host: Seq<char>) -> Seq<char> {
    let tld = split_dots(host).last();
    if tld.len() < host.len() {
        host.subrange(0, host.len() - tld.len() - 1)
    } else {
        Seq::<char>::empty()
    }
}

/// Splits `host` into the part before its last dot and the label after it.
pub fn extract_tld(host: &str) -> (r: (&str, &str))
    ensures
        r.1@ == split_dots(host@).last(),
        r.0@ == name_before_tld(host@),
        r.1@.len() < host@.len() ==> host@ == r.0@ + seq!['.'] + r.1@,
{
    let n = host.unicode_len();
    let mut start: usize = 0;
    let mut i: usize = 0;
    assert(host@.subrange(0, 0) =~= Seq::<char>::empty());
    while i < n
        invariant
            start <= i <= n,
            n == host@.len(),
            split_dots(host@.subrange(0, i as int)).last() =~= host@.subrange(start as int, i as int),
            start > 0 ==> host@[start - 1] == '.',
        decreases n - i,
    {
        proof {
            lemma_split_dots_step(host@, i as int);
        }
        if host.get_char(i) == '.' {
            start = i + 1;
        }
        i = i + 1;
    }
    assert(host@.subrange(0, n as int) =~= host@);
    let tld = host.substring_char(start, n);
    let name = if start > 0 {
        host.substring_char(0, start - 1)
    } else {
        host.substring_char(0, 0)
    };
    assert(start > 0 ==> host@ =~= name@ + seq!['.'] + tld@);
    (name, tld)
}

/// The character for a binary digit.
pub open spec fn bit_char(d: nat) -> char {
    if d == 0 {
        '0'
    } else {
        '1'
    }
}

/// The binary digits of `n`, most significant first, without leading zeros.
pub open spec fn bin_digits(n: nat) -> Seq<char>
    decreases n,
{
    if n < 2 {
        seq![bit_char(n)]
    } else {
        bin_digits(n / 2).push(bit_char(n % 2))
    }
}

pub open spec fn zeros(k: nat) -> Seq<char> {
    Seq::new(k, |i: int| '0')
}

/// The binary text of `num`, left-padded with zeros to six digits if `pad`.
pub open spec fn to_binary_spec(num: nat, pad: bool) -> Seq<char> {
    let u = bin_digits(num);
    if pad && u.len() < 6 {
        zeros((6 - u.len()) as nat) + u
    } else {
        u
    }
}

fn bin_digits_of(n: u64) -> (r: String)
    ensures
        r@ == bin_digits(n as nat),
    decreases n,
{
    if n < 2 {
        let mut r = String::new();
        r.push(if n == 0 { '0' } else { '1' });
        r
    } else {
        let mut r = bin_digits_of(n / 2);
        r.push(if n % 2 == 0 { '0' } else { '1' });
        r
    }
}

/// Writes `num` in binary, padded with zeros to six digits if `pad`.
pub fn to_binary(num: u64, pad: bool) -> (r: String)
    ensures
        r@ == to_binary_spec(num as nat, pad),
{
    let unpadded = bin_digits_of(num);
    let len = unpadded.unicode_len();
    if len < 6 && pad {
        let mut r = String::new();
        let mut i: usize = 0;
        while i < 6 - len
            invariant
                i <= 6 - len,
                r@ == zeros(i as nat),
            decreases 6 - len - i,
        {
            r.push('0');
            assert(r@ =~= zeros((i + 1) as nat));
            i = i + 1;
        }
        r.concat(unpadded.as_str())
    } else {
        unpadded
    }
}

/// The number that a text of binary digits spells; any character other
/// than `1` counts as a zero digit.
pub open spec fn bits_value(s: Seq<char>) -> nat
    decreases s.len(),
{
    if s.len() == 0 {
        0
    } else {
        2 * bits_value(s.drop_last()) + if s.last() == '1' {
            1nat
        } else {
            0nat
        }
    }
}

pub open spec fn two_pow(n: nat) -> nat
    decreases n,
{
    if n == 0 {
        1
    } else {
        2 * two_pow((n - 1) as nat)
    }
}

proof fn lemma_bits_value_bound(s: Seq<char>)
    ensures
        bits_value(s) < two_pow(s.len()),
    decreases s.len(),
{
    if s.len() > 0 {
        lemma_bits_value_bound(s.drop_last());
    }
}

proof fn lemma_two_pow_le_256(n: nat)
    requires
        n <= 8,
    ensures
        two_pow(n) <= 256,
    decreases 8 - n,
{
    if n == 8 {
        assert(two_pow(0) == 1);
        assert(two_pow(1) == 2);
        assert(two_pow(2) == 4);
        assert(two_pow(3) == 8);
        assert(two_pow(4) == 16);
        assert(two_pow(5) == 32);
        assert(two_pow(6) == 64);
        assert(two_pow(7) == 128);
        assert(two_pow(8) == 256);
    } else {
        lemma_two_pow_le_256(n + 1);
        assert(two_pow(n + 1) == 2 * two_pow(n));
    }
}

/// Reads up to eight binary digits as a byte.
pub fn binary_to_u8(binary_chars: &str) -> (r: u8)
    requires
        binary_chars@.len() <= 8,
    ensures
        r as nat == bits_value(binary_chars@),
{
    let n = binary_chars.unicode_len();
    let mut total: u32 = 0;
    let mut i: usize = 0;
    assert(binary_chars@.subrange(0, 0) =~= Seq::<char>::empty());
    while i < n
        invariant
            i <= n,
            n == binary_chars@.len(),
            n <= 8,
            total as nat == bits_value(binary_chars@.subrange(0, i as int)),
        decreases n - i,
    {
        proof {
            let pre = binary_chars@.subrange(0, i as int);
            assert(binary_chars@.subrange(0, i + 1).drop_last() =~= pre);
            lemma_bits_value_bound(pre);
            lemma_two_pow_le_256(i as nat);
        }
        let c = binary_chars.get_char(i);
        total = 2 * total + if c == '1' {
            1
        } else {
            0
        };
        i = i + 1;
    }
    assert(binary_chars@.subrange(0, n as int) =~= binary_chars@);
    proof {
        lemma_bits_value_bound(binary_chars@);
        lemma_two_pow_le_256(n as nat);
    }
    total as u8
}

/// The value of a base64url digit.
pub open spec fn b64_value(c: char) -> Option<nat> {
    if 'A' <= c && c <= 'Z' {
        Some((c as u32 - 'A' as u32) as nat)
    } else if 'a' <= c && c <= 'z' {
        Some((c as u32 - 'a' as u32 + 26) as nat)
    } else if '0' <= c && c <= '9' {
        Some((c as u32 - '0' as u32 + 52) as nat)
    } else if c == '-' {
        Some(62)
    } else if c == '_' {
        Some(63)
    } else {
        None
    }
}

fn b64_index(c: char) -> (r: Option<u64>)
    ensures
        match r {
            Some(v) => b64_value(c) == Some(v as nat),
            None => b64_value(c) is None,
        },
{
    if 'A' <= c && c <= 'Z' {
        Some((c as u32 - 'A' as u32) as u64)
    } else if 'a' <= c && c <= 'z' {
        Some((c as u32 - 'a' as u32 + 26) as u64)
    } else if '0' <= c && c <= '9' {
        Some((c as u32 - '0' as u32 + 52) as u64)
    } else if c == '-' {
        Some(62)
    } else if c == '_' {
        Some(63)
    } else {
        None
    }
}

/// The bits that a base64url text carries, six per digit, as binary text;
/// `=` padding is skipped and any other non-digit makes the text invalid.
pub open spec fn b64_bits(s: Seq<char>) -> Option<Seq<char>>
    decreases s.len(),
{
    if s.len() == 0 {
        Some(Seq::<char>::empty())
    } else {
        match b64_bits(s.drop_last()) {
            None => None,
            Some(b) => if s.last() == '=' {
                Some(b)
            } else {
                match b64_value(s.last()) {
                    Some(v) => Some(b + to_binary_spec(v, true)),
                    None => None,
                }
            },
        }
    }
}

/// Binary text extended with zeros to a whole number of bytes.
pub open spec fn pad_to_bytes(b: Seq<char>) -> Seq<char> {
    if b.len() % 8 == 0 {
        b
    } else {
        b + zeros((8 - b.len() % 8) as nat)
    }
}

/// Binary text read eight digits at a time.
pub open spec fn bytes_of_bits(b: Seq<char>) -> Seq<u8> {
    Seq::new(b.len() / 8, |i: int| bits_value(b.subrange(8 * i, 8 * i + 8)) as u8)
}

/// Decodes base64url text into bytes; a final partial byte is filled with zeros.
pub fn b64_url_to_u8_vec(b64: &str) -> (r: Result<Vec<u8>, ()>)
    ensures
        match r {
            Ok(v) => b64_bits(b64@) is Some && v@ == bytes_of_bits(
                pad_to_bytes(b64_bits(b64@)->0),
            ),
            Err(_) => b64_bits(b64@) is None,
        },
{
    let n = b64.unicode_len();
    let mut binary = String::new();
    let mut i: usize = 0;
    assert(b64@.subrange(0, 0) =~= Seq::<char>::empty());
    while i < n
        invariant
            i <= n,
            n == b64@.len(),
            b64_bits(b64@.subrange(0, i as int)) == Some(binary@),
        decreases n - i,
    {
        let c = b64.get_char(i);
        assert(b64@.subrange(0, i + 1).drop_last() =~= b64@.subrange(0, i as int));
        if c != '=' {
            match b64_index(c) {
                Some(pos) => {
                    let piece = to_binary(pos, true);
                    binary = binary.concat(piece.as_str());
                },
                None => {
                    assert(b64@.subrange(0, n as int) =~= b64@);
                    proof {
                        lemma_b64_bits_invalid_prefix(b64@, (i + 1) as nat);
                    }
                    return Err(());
                },
            }
        }
        i = i + 1;
    }
    assert(b64@.subrange(0, n as int) =~= b64@);
    let ghost bits = binary@;
    let len = binary.unicode_len();
    if len % 8 != 0 {
        let mut k: usize = 0;
        let fill = 8 - len % 8;
        while k < fill
            invariant
                k <= fill,
                fill == 8 - len % 8,
                binary@ == bits + zeros(k as nat),
            decreases fill - k,
        {
            binary.push('0');
            assert(binary@ =~= bits + zeros((k + 1) as nat));
            k = k + 1;
        }
    }
    let ghost padded = binary@;
    assert(padded == pad_to_bytes(bits));
    let total = binary.unicode_len();
    let mut u8_vec: Vec<u8> = Vec::new();
    let mut j: usize = 0;
    while j < total / 8
        invariant
            j <= total / 8,
            total == padded.len(),
            binary@ == padded,
            u8_vec@ =~= bytes_of_bits(padded).subrange(0, j as int),
        decreases total / 8 - j,
    {
        let chunk = binary.as_str().substring_char(8 * j, 8 * j + 8);
        u8_vec.push(binary_to_u8(chunk));
        j = j + 1;
    }
    Ok(u8_vec)
}

proof fn lemma_b64_bits_invalid_prefix(s: Seq<char>, k: nat)
    requires
        k <= s.len(),
        b64_bits(s.subrange(0, k as int)) is None,
    ensures
        b64_bits(s) is None,
    decreases s.len() - k,
{
    if k < s.len() {
        assert(s.subrange(0, k + 1 as int).drop_last() =~= s.subrange(0, k as int));
        lemma_b64_bits_invalid_prefix(s, k + 1);
    } else {
        assert(s.subrange(0, k as int) =~= s);
    }
}

} // verus!
