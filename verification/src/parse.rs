use vstd::prelude::*;

use vstd::slice::slice_subrange;

use crate::range::IpRange;

verus! {

/// The byte value of the digit `0`.
pub const DIGIT_ZERO: u8 = 48;

/// The byte value of the digit `9`.
pub const DIGIT_NINE: u8 = 57;

/// The byte value of the octet separator `.`.
pub const DOT: u8 = 46;

/// The byte value of the prefix separator `/`.
pub const SLASH: u8 = 47;

/// The byte value of the line separator.
pub const NEWLINE: u8 = 10;

/// Is `b` the byte of a decimal digit?
pub open spec fn is_digit(b: u8) -> bool {
    DIGIT_ZERO <= b <= DIGIT_NINE
}

/// The numeric value of a string of decimal digits, most significant
/// digit first.
pub open spec fn digits_val(s: Seq<u8>) -> int
    decreases s.len(),
{
    if s.len() == 0 {
        0
    } else {
        digits_val(s.drop_last()) * 10 + (s.last() - DIGIT_ZERO)
    }
}

/// The index of the first occurrence of `sep` in `s`, or `s.len()` when
/// `s` does not contain `sep`.
pub open spec fn sep_pos(s: Seq<u8>, sep: u8) -> int
    decreases s.len(),
{
    if s.len() == 0 {
        0
    } else if s[0] == sep {
        0
    } else {
        1 + sep_pos(s.drop_first(), sep)
    }
}

pub proof fn lemma_sep_pos(s: Seq<u8>, sep: u8)
    ensures
        0 <= sep_pos(s, sep) <= s.len(),
        sep_pos(s, sep) < s.len() ==> s[sep_pos(s, sep)] == sep,
        forall|k: int| 0 <= k < sep_pos(s, sep) ==> s[k] != sep,
    decreases s.len(),
{
    if s.len() != 0 && s[0] != sep {
        let t = s.drop_first();
        lemma_sep_pos(t, sep);
        let p = sep_pos(s, sep);
        if p < s.len() {
            assert(s[p] == t[p - 1]);
        }
        assert forall|k: int| 0 <= k < p implies s[k] != sep by {
            if k > 0 {
                assert(s[k] == t[k - 1]);
            }
        }
    }
}

/// `s` split on `sep`: the pieces (possibly empty) between occurrences
/// of the separator. A string without the separator is one piece, so
/// the result is never empty.
pub open spec fn split_bytes(s: Seq<u8>, sep: u8) -> Seq<Seq<u8>>
    decreases s.len(),
{
    let p = sep_pos(s, sep);
    if 0 <= p < s.len() {
        seq![s.subrange(0, p)] + split_bytes(s.subrange(p + 1, s.len() as int), sep)
    } else {
        seq![s]
    }
}

pub proof fn lemma_split_nonempty(s: Seq<u8>, sep: u8)
    ensures
        split_bytes(s, sep).len() >= 1,
    decreases s.len(),
{
    let p = sep_pos(s, sep);
    if 0 <= p < s.len() {
        lemma_split_nonempty(s.subrange(p + 1, s.len() as int), sep);
    }
}

/// Unfold one step of `split_bytes` when the separator occurs.
pub proof fn lemma_split_step(s: Seq<u8>, sep: u8)
    requires
        sep_pos(s, sep) < s.len(),
    ensures
        split_bytes(s, sep) == seq![s.subrange(0, sep_pos(s, sep))] + split_bytes(
            s.subrange(sep_pos(s, sep) + 1, s.len() as int),
            sep,
        ),
{
    lemma_sep_pos(s, sep);
}

/// A string without the separator is a single piece.
pub proof fn lemma_split_whole(s: Seq<u8>, sep: u8)
    requires
        sep_pos(s, sep) == s.len(),
    ensures
        split_bytes(s, sep) == seq![s],
{
}

/// A field of one to `max_len` decimal digits whose value is at most
/// `limit`, written without a leading zero.
pub open spec fn is_dec_field(s: Seq<u8>, max_len: int, limit: int) -> bool {
    &&& 1 <= s.len() <= max_len
    &&& (forall|k: int| 0 <= k < s.len() ==> is_digit(#[trigger] s[k]))
    &&& digits_val(s) <= limit
    &&& (s[0] == DIGIT_ZERO ==> s.len() == 1)
}

/// A decimal octet `0..=255`.
pub open spec fn is_octet(s: Seq<u8>) -> bool {
    is_dec_field(s, 3, 255)
}

/// A prefix length `0..=32`.
pub open spec fn is_prefix_len(s: Seq<u8>) -> bool {
    is_dec_field(s, 2, 32)
}

/// A dotted-quad IPv4 address literal `a.b.c.d`.
pub open spec fn is_ipv4(s: Seq<u8>) -> bool {
    let p = split_bytes(s, DOT);
    &&& p.len() == 4
    &&& is_octet(p[0])
    &&& is_octet(p[1])
    &&& is_octet(p[2])
    &&& is_octet(p[3])
}

/// The 32-bit value of a dotted-quad literal.
pub open spec fn ipv4_value(s: Seq<u8>) -> u32 {
    let p = split_bytes(s, DOT);
    (digits_val(p[0]) * 0x100_0000 + digits_val(p[1]) * 0x1_0000 + digits_val(p[2]) * 0x100
        + digits_val(p[3])) as u32
}

/// A CIDR line `a.b.c.d/p`: a valid address, one slash, a valid prefix
/// length.
pub open spec fn is_cidr(s: Seq<u8>) -> bool {
    let q = split_bytes(s, SLASH);
    &&& q.len() == 2
    &&& is_ipv4(q[0])
    &&& is_prefix_len(q[1])
}

/// The mask of the host bits a prefix length leaves free: ones in the
/// low `32 - p` bits.
pub open spec fn host_mask(p: int) -> u32 {
    if p >= 32 {
        0
    } else {
        0xffff_ffffu32 >> (p as u32)
    }
}

/// The address range a CIDR line denotes, from its network address to
/// its broadcast address.
pub open spec fn cidr_range(s: Seq<u8>) -> IpRange {
    let q = split_bytes(s, SLASH);
    let base = ipv4_value(q[0]);
    let m = host_mask(digits_val(q[1]));
    IpRange { start: base & !m, end: (base & !m) | m }
}

/// Scan for the first occurrence of `sep` in `s`.
pub fn find_byte(s: &[u8], sep: u8) -> (p: usize)
    ensures
        p == sep_pos(s@, sep),
        p <= s@.len(),
{
    let n = s.len();
    let mut i: usize = 0;
    while i < n
        invariant
            i <= n == s@.len(),
            forall|k: int| 0 <= k < i ==> s@[k] != sep,
        decreases n - i,
    {
        if s[i] == sep {
            proof {
                lemma_sep_pos(s@, sep);
            }
            return i;
        }
        i = i + 1;
    }
    proof {
        lemma_sep_pos(s@, sep);
    }
    n
}

/// Parse a decimal field of at most `max_len` digits with value at most
/// `limit`, rejecting leading zeros.
fn parse_dec_field(s: &[u8], max_len: usize, limit: u32) -> (r: Option<u32>)
    requires
        1 <= max_len <= 3,
        limit <= 999,
    ensures
        r is Some <==> is_dec_field(s@, max_len as int, limit as int),
        r is Some ==> r->0 == digits_val(s@),
{
    let n = s.len();
    if n == 0 || n > max_len {
        return None;
    }
    if n > 1 && s[0] == DIGIT_ZERO {
        return None;
    }
    let mut v: u32 = 0;
    let mut i: usize = 0;
    while i < n
        invariant
            i <= n == s@.len() <= 3,
            forall|k: int| 0 <= k < i ==> is_digit(#[trigger] s@[k]),
            v == digits_val(s@.subrange(0, i as int)),
            i == 0 ==> v == 0,
            i <= 1 ==> v <= 9,
            i <= 2 ==> v <= 99,
            v <= 999,
        decreases n - i,
    {
        let b = s[i];
        if b < DIGIT_ZERO || b > DIGIT_NINE {
            return None;
        }
        v = v * 10 + ((b - DIGIT_ZERO) as u32);
        proof {
            assert(s@.subrange(0, i as int + 1).drop_last() =~= s@.subrange(0, i as int));
            assert(s@.subrange(0, i as int + 1).last() == s@[i as int]);
        }
        i = i + 1;
    }
    proof {
        assert(s@.subrange(0, n as int) =~= s@);
    }
    if v > limit {
        return None;
    }
    Some(v)
}

/// Parse a dotted-quad IPv4 address literal into its 32-bit value.
pub fn parse_ipv4(s: &[u8]) -> (r: Option<u32>)
    ensures
        r is Some <==> is_ipv4(s@),
        r is Some ==> r->0 == ipv4_value(s@),
{
    let n = s.len();
    let p1 = find_byte(s, DOT);
    if p1 == n {
        proof {
            lemma_split_whole(s@, DOT);
        }
        return None;
    }
    let part0 = slice_subrange(s, 0, p1);
    let rest1 = slice_subrange(s, p1 + 1, n);
    proof {
        lemma_split_step(s@, DOT);
    }
    let p2 = find_byte(rest1, DOT);
    if p2 == rest1.len() {
        proof {
            lemma_split_whole(rest1@, DOT);
            assert(split_bytes(s@, DOT) =~= seq![part0@, rest1@]);
        }
        return None;
    }
    let part1 = slice_subrange(rest1, 0, p2);
    let rest2 = slice_subrange(rest1, p2 + 1, rest1.len());
    proof {
        lemma_split_step(rest1@, DOT);
    }
    let p3 = find_byte(rest2, DOT);
    if p3 == rest2.len() {
        proof {
            lemma_split_whole(rest2@, DOT);
            assert(split_bytes(s@, DOT) =~= seq![part0@, part1@, rest2@]);
        }
        return None;
    }
    let part2 = slice_subrange(rest2, 0, p3);
    let part3 = slice_subrange(rest2, p3 + 1, rest2.len());
    proof {
        lemma_split_step(rest2@, DOT);
    }
    let p4 = find_byte(part3, DOT);
    proof {
        if p4 == part3@.len() {
            lemma_split_whole(part3@, DOT);
            assert(split_bytes(s@, DOT) =~= seq![part0@, part1@, part2@, part3@]);
        } else {
            lemma_split_step(part3@, DOT);
            lemma_split_nonempty(part3@.subrange(p4 + 1, part3@.len() as int), DOT);
            assert(split_bytes(s@, DOT).len() >= 5);
        }
    }
    if p4 != part3.len() {
        return None;
    }
    let o0 = match parse_dec_field(part0, 3, 255) {
        Some(v) => v,
        None => {
            return None;
        },
    };
    let o1 = match parse_dec_field(part1, 3, 255) {
        Some(v) => v,
        None => {
            return None;
        },
    };
    let o2 = match parse_dec_field(part2, 3, 255) {
        Some(v) => v,
        None => {
            return None;
        },
    };
    let o3 = match parse_dec_field(part3, 3, 255) {
        Some(v) => v,
        None => {
            return None;
        },
    };
    Some(o0 * 0x100_0000 + o1 * 0x1_0000 + o2 * 0x100 + o3)
}

/// Parse one CIDR line `a.b.c.d/p` into the address range it denotes.
pub fn parse_cidr(s: &[u8]) -> (r: Option<IpRange>)
    ensures
        r is Some <==> is_cidr(s@),
        r is Some ==> r->0 == cidr_range(s@) && r->0.wf(),
{
    let n = s.len();
    let q1 = find_byte(s, SLASH);
    if q1 == n {
        proof {
            lemma_split_whole(s@, SLASH);
        }
        return None;
    }
    let addr_part = slice_subrange(s, 0, q1);
    let len_part = slice_subrange(s, q1 + 1, n);
    proof {
        lemma_split_step(s@, SLASH);
    }
    let q2 = find_byte(len_part, SLASH);
    proof {
        if q2 == len_part@.len() {
            lemma_split_whole(len_part@, SLASH);
            assert(split_bytes(s@, SLASH) =~= seq![addr_part@, len_part@]);
        } else {
            lemma_split_step(len_part@, SLASH);
            lemma_split_nonempty(len_part@.subrange(q2 + 1, len_part@.len() as int), SLASH);
            assert(split_bytes(s@, SLASH).len() >= 3);
        }
    }
    if q2 != len_part.len() {
        return None;
    }
    let base = match parse_ipv4(addr_part) {
        Some(v) => v,
        None => {
            return None;
        },
    };
    let plen = match parse_dec_field(len_part, 2, 32) {
        Some(v) => v,
        None => {
            return None;
        },
    };
    let m: u32 = if plen >= 32 {
        0
    } else {
        0xffff_ffffu32 >> plen
    };
    let start = base & !m;
    let end = start | m;
    proof {
        assert((base & !m) <= ((base & !m) | m)) by (bit_vector);
    }
    Some(IpRange { start, end })
}

} // verus!
