//! The marks a text store puts on the temporary files it writes beside its
//! own, and what a sweep reads off a name before it takes a leftover away.
//!
//! A mark is a nonce and what this library works out from it. Not a secret -
//! anyone can spell a name that verifies - but a file left beside the store
//! whose name merely has the same shape is not one.

use crate::filename::{file_name, file_name_of};
use vstd::prelude::*;
use vstd::string::StringSliceAdditionalSpecFns;
use vstd::utf8::is_ascii_chars;

verus! {

/// What `xxhash_rust`'s 64-bit XXH3 makes of some bytes.
pub uninterp spec fn xxh3_64_of(bytes: Seq<u8>) -> u64;

/// What `xxhash_rust`'s 128-bit XXH3 makes of some bytes.
pub uninterp spec fn xxh3_128_of(bytes: Seq<u8>) -> u128;

/// `xxhash_rust::xxh3::xxh3_64`: the 64-bit XXH3 hash of `input`, a
/// function of the bytes alone.
#[verifier::external_body]
fn xxh3_64(input: &[u8]) -> (h: u64)
    ensures
        h == xxh3_64_of(input@),
{
    xxhash_rust::xxh3::xxh3_64(input)
}

/// `xxhash_rust::xxh3::xxh3_128`: the 128-bit XXH3 hash of `input`, a
/// function of the bytes alone.
#[verifier::external_body]
fn xxh3_128(input: &[u8]) -> (h: u128)
    ensures
        h == xxh3_128_of(input@),
{
    xxhash_rust::xxh3::xxh3_128(input)
}

/// `uuid::Uuid::new_v4`, as the number its 128 bits spell: a random
/// number. Nothing is claimed of it.
#[verifier::external_body]
fn random_nonce() -> (n: u128) {
    uuid::Uuid::new_v4().as_u128()
}

/// What the mark on a temporary is worked out against.
pub const WRITTEN_BY_US: u64 = 0x616d_6574_6879_7374;

/// The bytes worked out from: the nonce and then [`WRITTEN_BY_US`], each
/// least significant byte first.
pub open spec fn vouched_bytes(nonce: u32) -> Seq<u8> {
    seq![
        (nonce & 0xff) as u8,
        ((nonce >> 8u32) & 0xff) as u8,
        ((nonce >> 16u32) & 0xff) as u8,
        ((nonce >> 24u32) & 0xff) as u8,
        (WRITTEN_BY_US & 0xff) as u8,
        ((WRITTEN_BY_US >> 8u64) & 0xff) as u8,
        ((WRITTEN_BY_US >> 16u64) & 0xff) as u8,
        ((WRITTEN_BY_US >> 24u64) & 0xff) as u8,
        ((WRITTEN_BY_US >> 32u64) & 0xff) as u8,
        ((WRITTEN_BY_US >> 40u64) & 0xff) as u8,
        ((WRITTEN_BY_US >> 48u64) & 0xff) as u8,
        ((WRITTEN_BY_US >> 56u64) & 0xff) as u8,
    ]
}

/// What this library makes of a nonce.
pub open spec fn vouched_of(nonce: u32) -> u32 {
    xxh3_64_of(vouched_bytes(nonce)) as u32
}

/// What this library makes of `nonce`: the low half of the hash of the nonce
/// beside [`WRITTEN_BY_US`].
pub fn vouched_for(nonce: u32) -> (r: u32)
    ensures
        r == vouched_of(nonce),
{
    let mut bytes: Vec<u8> = Vec::new();
    bytes.push((nonce & 0xff) as u8);
    bytes.push(((nonce >> 8u32) & 0xff) as u8);
    bytes.push(((nonce >> 16u32) & 0xff) as u8);
    bytes.push(((nonce >> 24u32) & 0xff) as u8);
    bytes.push((WRITTEN_BY_US & 0xff) as u8);
    bytes.push(((WRITTEN_BY_US >> 8u64) & 0xff) as u8);
    bytes.push(((WRITTEN_BY_US >> 16u64) & 0xff) as u8);
    bytes.push(((WRITTEN_BY_US >> 24u64) & 0xff) as u8);
    bytes.push(((WRITTEN_BY_US >> 32u64) & 0xff) as u8);
    bytes.push(((WRITTEN_BY_US >> 40u64) & 0xff) as u8);
    bytes.push(((WRITTEN_BY_US >> 48u64) & 0xff) as u8);
    bytes.push(((WRITTEN_BY_US >> 56u64) & 0xff) as u8);
    assert(bytes@ =~= vouched_bytes(nonce));
    let h = xxh3_64(bytes.as_slice());
    h as u32
}

/// The value of a hex digit, or `None` for a character that is not one.
pub open spec fn hex_value(c: char) -> Option<u32> {
    if '0' <= c <= '9' {
        Some((c as u32 - '0' as u32) as u32)
    } else if 'a' <= c <= 'f' {
        Some((c as u32 - 'a' as u32 + 10) as u32)
    } else if 'A' <= c <= 'F' {
        Some((c as u32 - 'A' as u32 + 10) as u32)
    } else {
        None
    }
}

/// The digits of `s` read as a hex number, most significant first, or
/// `None` where one is not a digit.
pub open spec fn hex_digits(s: Seq<char>) -> Option<int>
    decreases s.len(),
{
    if s.len() == 0 {
        Some(0)
    } else {
        match (hex_digits(s.drop_last()), hex_value(s[s.len() - 1])) {
            (Some(v), Some(d)) => Some(v * 16 + d),
            _ => None,
        }
    }
}

/// What `u32::from_str_radix(s, 16)` makes of a text of at most eight
/// characters: an optional leading `+`, then at least one hex digit.
pub open spec fn parse_hex(s: Seq<char>) -> Option<int> {
    let digits = if s.len() > 0 && s[0] == '+' { s.drop_first() } else { s };
    if digits.len() == 0 {
        None
    } else {
        hex_digits(digits)
    }
}

/// Whether `mark` is one this library wrote: sixteen ASCII characters, the
/// first eight a nonce and the last eight what this library makes of it.
pub open spec fn is_mark(mark: Seq<char>) -> bool {
    &&& is_ascii_chars(mark)
    &&& mark.len() == 16
    &&& parse_hex(mark.subrange(0, 8)) is Some
    &&& parse_hex(mark.subrange(8, 16)) is Some
    &&& parse_hex(mark.subrange(8, 16))->0 == vouched_of(parse_hex(mark.subrange(0, 8))->0 as u32) as int
}

/// Sixteen to the `k`.
pub open spec fn p16(k: nat) -> int
    decreases k,
{
    if k == 0 { 1 } else { 16 * p16((k - 1) as nat) }
}

proof fn lemma_p16_grows(a: nat, b: nat)
    requires
        a <= b,
    ensures
        1 <= p16(a) <= p16(b),
    decreases b,
{
    if b > a {
        lemma_p16_grows(a, (b - 1) as nat);
    } else if a > 0 {
        lemma_p16_grows((a - 1) as nat, (a - 1) as nat);
    }
}

proof fn lemma_hex_digits_bound(s: Seq<char>)
    requires
        hex_digits(s) is Some,
    ensures
        0 <= hex_digits(s)->0 < p16(s.len()),
    decreases s.len(),
{
    if s.len() > 0 {
        lemma_hex_digits_bound(s.drop_last());
        let v = hex_digits(s.drop_last())->0;
        let p = p16((s.len() - 1) as nat);
        assert(v * 16 + 15 < p * 16) by (nonlinear_arith)
            requires
                0 <= v < p,
        ;
    }
}

/// The digit `c` stands for, if it is a hex digit.
fn hex_digit_value(c: char) -> (r: Option<u32>)
    ensures
        r == hex_value(c),
{
    if '0' <= c && c <= '9' {
        Some(c as u32 - '0' as u32)
    } else if 'a' <= c && c <= 'f' {
        Some(c as u32 - 'a' as u32 + 10)
    } else if 'A' <= c && c <= 'F' {
        Some(c as u32 - 'A' as u32 + 10)
    } else {
        None
    }
}

/// `s` from `from` to `to` read as `u32::from_str_radix` reads hex.
fn parse_hex_between(s: &str, from: usize, to: usize) -> (r: Option<u32>)
    requires
        from <= to <= s@.len(),
        to - from <= 8,
    ensures
        match r {
            Some(v) => parse_hex(s@.subrange(from as int, to as int)) == Some(v as int),
            None => parse_hex(s@.subrange(from as int, to as int)) is None,
        },
{
    let ghost whole = s@.subrange(from as int, to as int);
    let mut start = from;
    if from < to && s.get_char(from) == '+' {
        start = from + 1;
    }
    let ghost digits = s@.subrange(start as int, to as int);
    assert(from < to ==> whole[0] == s@[from as int]);
    assert(digits =~= if whole.len() > 0 && whole[0] == '+' { whole.drop_first() } else { whole });
    if start == to {
        assert(digits.len() == 0);
        return None;
    }
    assert(parse_hex(whole) == hex_digits(digits));
    let mut v: u32 = 0;
    let mut i = start;
    assert(s@.subrange(start as int, start as int) =~= Seq::<char>::empty());
    while i < to
        invariant
            start <= i <= to <= s@.len(),
            to - start <= 8,
            start < to,
            parse_hex(s@.subrange(from as int, to as int)) == hex_digits(s@.subrange(start as int, to as int)),
            hex_digits(s@.subrange(start as int, i as int)) == Some(v as int),
        decreases to - i,
    {
        let c = s.get_char(i);
        assert(s@.subrange(start as int, i + 1).drop_last() =~= s@.subrange(start as int, i as int));
        match hex_digit_value(c) {
            None => {
                proof {
                    assert(s@.subrange(start as int, to as int).subrange(0, (i + 1 - start) as int)
                        =~= s@.subrange(start as int, i + 1));
                    assert(s@.subrange(start as int, i + 1)[(i - start) as int] == c);
                    assert(hex_digits(s@.subrange(start as int, i + 1)) is None);
                    lemma_none_spreads(s@.subrange(start as int, to as int), (i + 1 - start) as int);
                }
                return None;
            },
            Some(d) => {
                proof {
                    lemma_hex_digits_bound(s@.subrange(start as int, i as int));
                    lemma_p16_grows((i - start) as nat, 7);
                    reveal_with_fuel(p16, 8);
                    assert(p16(7) == 268435456);
                }
                v = v * 16 + d;
            },
        }
        i = i + 1;
    }
    assert(s@.subrange(start as int, i as int) == s@.subrange(start as int, to as int));
    Some(v)
}

proof fn lemma_none_spreads(s: Seq<char>, k: int)
    requires
        0 < k <= s.len(),
        hex_digits(s.subrange(0, k)) is None,
    ensures
        hex_digits(s) is None,
    decreases s.len() - k,
{
    if k < s.len() {
        assert(s.subrange(0, k + 1).drop_last() =~= s.subrange(0, k));
        lemma_none_spreads(s, k + 1);
    } else {
        assert(s.subrange(0, k) =~= s);
    }
}

/// Whether `mark` is one this library wrote, rather than a name that looks
/// like one.
pub fn is_a_mark_of_ours(mark: &str) -> (r: bool)
    requires
        mark.spec_bytes().len() == 16 ==> vstd::utf8::is_char_boundary(mark.spec_bytes(), 8),
    ensures
        r == is_mark(mark@),
{
    if !mark.is_ascii() {
        return false;
    }
    if mark.unicode_len() != 16 {
        return false;
    }
    let nonce = match parse_hex_between(mark, 0, 8) {
        Some(n) => n,
        None => {
            return false;
        },
    };
    let claimed = match parse_hex_between(mark, 8, 16) {
        Some(c) => c,
        None => {
            return false;
        },
    };
    let v = vouched_for(nonce);
    assert(parse_hex(mark@.subrange(0, 8))->0 as u32 == nonce);
    v == claimed
}

/// The hex digit for a value below sixteen.
pub open spec fn hex_char(d: u32) -> char {
    if d < 10 {
        ('0' as u32 + d) as char
    } else {
        ('a' as u32 + d - 10) as char
    }
}

/// A number as eight lowercase hex digits, most significant first.
pub open spec fn hex8(n: u32) -> Seq<char> {
    Seq::new(8, |i: int| hex_char(((n >> ((28 - 4 * i) as u32)) & 0xf) as u32))
}

fn push_hex8(into: &mut String, n: u32)
    ensures
        final(into)@ == old(into)@ + hex8(n),
{
    let digits = "0123456789abcdef";
    proof {
        reveal_strlit("0123456789abcdef");
    }
    let ghost start = into@;
    let mut i: u32 = 0;
    while i < 8
        invariant
            i <= 8,
            digits@ == "0123456789abcdef"@,
            digits@.len() == 16,
            into@ == start + hex8(n).subrange(0, i as int),
        decreases 8 - i,
    {
        let shift: u32 = 28 - 4 * i;
        let d = (n >> shift) & 0xf;
        assert(d < 16) by (bit_vector)
            requires
                d == (n >> shift) & 0xf,
        ;
        let one = digits.substring_char(d as usize, d as usize + 1);
        proof {
            reveal_strlit("0123456789abcdef");
            assert(one@ =~= seq![digits@[d as int]]);
            assert(digits@[d as int] == hex_char(d)) by {
                assert("0123456789abcdef"@ =~= seq!['0', '1', '2', '3', '4', '5', '6', '7', '8', '9', 'a', 'b', 'c', 'd', 'e', 'f']);
            }
        }
        into.append(one);
        assert(hex8(n).subrange(0, i + 1) =~= hex8(n).subrange(0, i as int).push(hex_char(d)));
        i = i + 1;
    }
    assert(hex8(n).subrange(0, 8) =~= hex8(n));
}

proof fn lemma_hex8_reads_back(n: u32)
    ensures
        parse_hex(hex8(n)) == Some(n as int),
        is_ascii_chars(hex8(n)),
{
    let s = hex8(n);
    assert forall|i: int| 0 <= i < 8 implies hex_value(#[trigger] s[i]) == Some(((n >> ((28 - 4 * i) as u32)) & 0xf) as u32)
        && '\0' <= s[i] <= '\u{7f}' by {
        let d = ((n >> ((28 - 4 * i) as u32)) & 0xf) as u32;
        let sh = (28 - 4 * i) as u32;
        assert(d < 16) by (bit_vector)
            requires
                d == (n >> sh) & 0xf,
        ;
    }
    assert forall|k: int| 0 <= k <= 8 implies hex_digits(#[trigger] s.subrange(0, k)) == Some((n >> ((32 - 4 * k) as u32)) as int) by {
        lemma_hex8_prefix(n, k);
    }
    assert(s.subrange(0, 8) =~= s);
    assert(n >> 0u32 == n) by (bit_vector);
    assert(s[0] != '+');
}

proof fn lemma_hex8_prefix(n: u32, k: int)
    requires
        0 <= k <= 8,
    ensures
        hex_digits(hex8(n).subrange(0, k)) == Some((n >> ((32 - 4 * k) as u32)) as int),
    decreases k,
{
    let s = hex8(n);
    if k == 0 {
        assert(s.subrange(0, 0) =~= Seq::<char>::empty());
        assert(n >> 32u32 == 0) by (bit_vector);
    } else {
        lemma_hex8_prefix(n, k - 1);
        assert(s.subrange(0, k).drop_last() =~= s.subrange(0, k - 1));
        let hi = (32 - 4 * k) as u32;
        let lo = (28 - 4 * (k - 1)) as u32;
        let d = ((n >> ((28 - 4 * (k - 1)) as u32)) & 0xf) as u32;
        assert(d < 16) by (bit_vector)
            requires
                d == (n >> lo) & 0xf,
        ;
        assert(hex_value(s[k - 1]) == Some(d));
        assert(lo == hi);
        assert(((n >> (hi + 4)) as int) * 16 + (((n >> hi) & 0xf) as int) == (n >> hi) as int) by (bit_vector)
            requires
                hi <= 28,
        ;
    }
}

/// A fresh mark: a random nonce and what this library makes of it, each as
/// eight hex digits. Every mark made here reads back as one of ours.
pub fn a_mark_of_ours() -> (r: String)
    ensures
        is_mark(r@),
        exists|nonce: u32| r@ == hex8(nonce) + hex8(vouched_of(nonce)),
{
    let nonce = (random_nonce() & 0xffff_ffff) as u32;
    let mut r = String::new();
    push_hex8(&mut r, nonce);
    push_hex8(&mut r, vouched_for(nonce));
    proof {
        lemma_hex8_reads_back(nonce);
        lemma_hex8_reads_back(vouched_of(nonce));
        let s = r@;
        assert(s.subrange(0, 8) =~= hex8(nonce));
        assert(s.subrange(8, 16) =~= hex8(vouched_of(nonce)));
        assert(is_ascii_chars(s)) by {
            assert forall|i: int| 0 <= i < s.len() implies '\0' <= #[trigger] s[i] <= '\u{7f}' by {
                if i < 8 {
                    assert(s[i] == hex8(nonce)[i]);
                } else {
                    assert(s[i] == hex8(vouched_of(nonce))[i - 8]);
                }
            }
        }
    }
    r
}

/// What the end of a temporary's name is.
pub const TEMPORARY: &'static str = ".tmp";

/// What a temporary standing in for `target` is called, before the mark: the
/// name of the file it is going to become, and a dot.
pub fn temporaries_of(target: &str) -> (r: String)
    ensures
        r@ == temporaries_of_spec(target@),
{
    let mut r = file_name_of(target);
    r.append(".");
    proof {
        reveal_strlit(".");
    }
    r
}

/// Whether a file named `name`, beside `target`, is a temporary this library
/// left: named after `target`, ending the way a temporary does, and carrying
/// a mark in between.
pub open spec fn is_our_leftover(name: Seq<char>, prefix: Seq<char>) -> bool {
    &&& name.len() >= prefix.len() + 4
    &&& name.subrange(0, prefix.len() as int) == prefix
    &&& name.subrange(name.len() - 4, name.len() as int) == ".tmp"@
    &&& is_mark(name.subrange(prefix.len() as int, name.len() - 4))
}

/// Whether a file named `name` in the directory of `target` is one of the
/// temporaries this library writes beside it. Whether it has stood long
/// enough to be taken away is the sweep's to ask.
pub fn a_leftover_of(name: &str, target: &str) -> (r: bool)
    ensures
        r == is_our_leftover(name@, temporaries_of_spec(target@)),
{
    let prefix = temporaries_of(target);
    let p = prefix.as_str().unicode_len();
    let n = name.unicode_len();
    proof {
        reveal_strlit(".tmp");
    }
    if n < 4 || n - 4 < p {
        return false;
    }
    let head = name.substring_char(0, p);
    if !crate::format::same_text(head, prefix.as_str()) {
        return false;
    }
    let tail = name.substring_char(n - 4, n);
    if !crate::format::same_text(tail, TEMPORARY) {
        return false;
    }
    let mark = name.substring_char(p, n - 4);
    if !mark.is_ascii() {
        proof {
            assert(!is_ascii_chars(mark@));
        }
        return false;
    }
    proof {
        vstd::string::is_ascii_spec_bytes(mark);
        if mark.spec_bytes().len() == 16 {
            vstd::utf8::is_ascii_chars_encode_utf8(mark@);
            assert(vstd::utf8::is_char_boundary(mark.spec_bytes(), 8)) by {
                let b = mark.spec_bytes();
                vstd::utf8::encode_utf8_valid_utf8(mark@);
                vstd::utf8::utf8_byte_ranges_bitwise(b[8]);
                assert(b[8] == mark@[8] as u8);
                vstd::utf8::is_char_boundary_iff_not_is_continuation_byte(b, 8);
            }
        }
    }
    is_a_mark_of_ours(mark)
}

/// [`temporaries_of`], as a value.
pub open spec fn temporaries_of_spec(target: Seq<char>) -> Seq<char> {
    let n = match file_name(target) {
        Some(n) => n,
        None => Seq::<char>::empty(),
    };
    n + seq!['.']
}

/// How a file stood: its length, when it was last modified, and a hash of
/// its bytes.
#[derive(Debug, Clone, Copy, PartialEq, Eq, Structural)]
pub struct FileStanding {
    pub len: u64,
    /// When it was last modified, in nanoseconds since the epoch.
    pub modified: u128,
    pub hash: u128,
}

/// A file's bytes as one number, for telling "the same file" from "the same
/// size and time".
pub fn hash_of(content: &str) -> (h: u128)
    ensures
        h == xxh3_128_of(content.spec_bytes()),
{
    xxh3_128(content.as_bytes())
}

/// How the file stands now, if what stands there is what was just put in it:
/// the standing read, kept only where its hash is the hash of `content`.
pub fn what_we_left(found: Option<FileStanding>, content: &str) -> (r: Option<FileStanding>)
    ensures
        r == match found {
            Some(s) => if s.hash == xxh3_128_of(content.spec_bytes()) { Some(s) } else { None },
            None => None,
        },
{
    match found {
        Some(s) => {
            if s.hash == hash_of(content) {
                Some(s)
            } else {
                None
            }
        },
        None => None,
    }
}

} // verus!
