//! Byte-level text helpers shared by the search engine and the event
//! renderer: ASCII-aware lowercasing, decimal rendering of counters, and the
//! stripping of line-break characters from match snippets.

use vstd::prelude::*;

verus! {

/// ASCII-lowercased byte: letters 'A' through 'Z' map to their lower-case
/// forms, every other byte is unchanged.
pub open spec fn spec_lower(b: u8) -> u8 {
    if 65 <= b && b <= 90 {
        (b + 32) as u8
    } else {
        b
    }
}

/// ASCII-lowercase every byte of a sequence.
pub open spec fn spec_lower_seq(s: Seq<u8>) -> Seq<u8> {
    s.map_values(|b: u8| spec_lower(b))
}

/// ASCII-lowercase one byte.
pub fn lower_byte(b: u8) -> (r: u8)
    ensures
        r == spec_lower(b),
{
    if 65 <= b && b <= 90 {
        b + 32
    } else {
        b
    }
}

/// ASCII-lowercase a whole byte vector.
pub fn lower_bytes(s: &Vec<u8>) -> (r: Vec<u8>)
    ensures
        r@ == spec_lower_seq(s@),
{
    let mut r: Vec<u8> = Vec::new();
    let mut i: usize = 0;
    while i < s.len()
        invariant
            i <= s@.len(),
            r@.len() == i,
            forall|j: int| 0 <= j < i ==> r@[j] == spec_lower(s@[j]),
        decreases s@.len() - i,
    {
        r.push(lower_byte(s[i]));
        i = i + 1;
    }
    proof {
        assert(r@ =~= spec_lower_seq(s@));
    }
    r
}

/// The ASCII digit for a value below ten.
pub open spec fn spec_digit(d: nat) -> u8
    recommends
        d < 10,
{
    (48 + d) as u8
}

/// The decimal representation of a value as ASCII digits, most significant
/// digit first, with no leading zeroes (zero itself renders as "0").
pub open spec fn spec_dec(n: nat) -> Seq<u8>
    decreases n,
{
    if n < 10 {
        seq![spec_digit(n)]
    } else {
        spec_dec(n / 10).push(spec_digit(n % 10))
    }
}

/// Render a counter in decimal.
pub fn dec_u64(n: u64) -> (r: Vec<u8>)
    ensures
        r@ == spec_dec(n as nat),
    decreases n,
{
    if n < 10 {
        let mut r: Vec<u8> = Vec::new();
        r.push(48 + (n as u8));
        proof {
            assert(r@ =~= spec_dec(n as nat));
        }
        r
    } else {
        let mut r = dec_u64(n / 10);
        r.push(48 + ((n % 10) as u8));
        proof {
            assert(r@ =~= spec_dec(n as nat));
        }
        r
    }
}

/// The decimal representation of a value zero-padded to a fixed width,
/// keeping only the lowest `w` digits.
pub open spec fn spec_dec_pad(n: nat, w: nat) -> Seq<u8>
    decreases w,
{
    if w == 0 {
        Seq::empty()
    } else {
        spec_dec_pad(n / 10, (w - 1) as nat).push(spec_digit(n % 10))
    }
}

/// Render a counter in decimal, zero-padded to a fixed width.
pub fn dec_u64_pad(n: u64, w: usize) -> (r: Vec<u8>)
    ensures
        r@ == spec_dec_pad(n as nat, w as nat),
    decreases w,
{
    if w == 0 {
        let r: Vec<u8> = Vec::new();
        proof {
            assert(r@ =~= spec_dec_pad(n as nat, 0));
        }
        r
    } else {
        let mut r = dec_u64_pad(n / 10, w - 1);
        r.push(48 + ((n % 10) as u8));
        proof {
            assert(r@ =~= spec_dec_pad(n as nat, w as nat));
        }
        r
    }
}

/// Whether a byte sequence begins with a given prefix.
pub open spec fn spec_starts_with(s: Seq<u8>, prefix: Seq<u8>) -> bool {
    prefix.len() <= s.len() && s.subrange(0, prefix.len() as int) == prefix
}

/// Test whether a message begins with a prefix.
pub fn starts_with_bytes(s: &Vec<u8>, prefix: &Vec<u8>) -> (r: bool)
    ensures
        r == spec_starts_with(s@, prefix@),
{
    if prefix.len() > s.len() {
        return false;
    }
    let mut i: usize = 0;
    while i < prefix.len()
        invariant
            i <= prefix@.len() <= s@.len(),
            forall|j: int| 0 <= j < i ==> s@[j] == prefix@[j],
        decreases prefix@.len() - i,
    {
        if s[i] != prefix[i] {
            proof {
                if spec_starts_with(s@, prefix@) {
                    assert(s@.subrange(0, prefix@.len() as int)[i as int] == prefix@[i as int]);
                }
            }
            return false;
        }
        i = i + 1;
    }
    proof {
        assert(s@.subrange(0, prefix@.len() as int) =~= prefix@);
    }
    true
}

/// Compare two byte vectors for equality.
pub fn bytes_eq(a: &Vec<u8>, b: &Vec<u8>) -> (r: bool)
    ensures
        r == (a@ == b@),
{
    if a.len() != b.len() {
        return false;
    }
    let mut i: usize = 0;
    while i < a.len()
        invariant
            i <= a@.len(),
            a@.len() == b@.len(),
            forall|j: int| 0 <= j < i ==> a@[j] == b@[j],
        decreases a@.len() - i,
    {
        if a[i] != b[i] {
            return false;
        }
        i = i + 1;
    }
    proof {
        assert(a@ =~= b@);
    }
    true
}

/// Copy a byte vector.
pub fn copy_bytes(v: &Vec<u8>) -> (r: Vec<u8>)
    ensures
        r@ == v@,
{
    let mut r: Vec<u8> = Vec::new();
    let mut i: usize = 0;
    while i < v.len()
        invariant
            i <= v@.len(),
            r@ == v@.subrange(0, i as int),
        decreases v@.len() - i,
    {
        r.push(v[i]);
        proof {
            assert(r@ =~= v@.subrange(0, i as int + 1));
        }
        i = i + 1;
    }
    proof {
        assert(r@ =~= v@);
    }
    r
}

/// Concatenate two byte vectors.
pub fn concat_bytes(a: &Vec<u8>, b: &Vec<u8>) -> (r: Vec<u8>)
    ensures
        r@ == a@ + b@,
{
    let mut r = copy_bytes(a);
    let mut i: usize = 0;
    while i < b.len()
        invariant
            i <= b@.len(),
            r@ == a@ + b@.subrange(0, i as int),
        decreases b@.len() - i,
    {
        r.push(b[i]);
        proof {
            assert(r@ =~= a@ + b@.subrange(0, i as int + 1));
        }
        i = i + 1;
    }
    proof {
        assert(r@ =~= a@ + b@);
    }
    r
}

/// Copy the tail of a byte vector from a given start position.
pub fn suffix_bytes(v: &Vec<u8>, start: usize) -> (r: Vec<u8>)
    requires
        start <= v@.len(),
    ensures
        r@ == v@.subrange(start as int, v@.len() as int),
{
    let mut r: Vec<u8> = Vec::new();
    let mut i: usize = start;
    while i < v.len()
        invariant
            start <= i <= v@.len(),
            r@ == v@.subrange(start as int, i as int),
        decreases v@.len() - i,
    {
        r.push(v[i]);
        proof {
            assert(r@ =~= v@.subrange(start as int, i as int + 1));
        }
        i = i + 1;
    }
    r
}

/// Whether a byte survives snippet cleaning: line feeds and carriage returns
/// are removed, everything else stays.
pub open spec fn spec_keep_in_snippet(b: u8) -> bool {
    b != 10 && b != 13
}

/// A byte sequence with its line-break characters removed.
pub open spec fn spec_strip_crlf(s: Seq<u8>) -> Seq<u8> {
    s.filter(|b: u8| spec_keep_in_snippet(b))
}

/// Remove line feeds and carriage returns from a snippet.
pub fn strip_crlf(s: &Vec<u8>) -> (r: Vec<u8>)
    ensures
        r@ == spec_strip_crlf(s@),
{
    let mut r: Vec<u8> = Vec::new();
    let mut i: usize = 0;
    while i < s.len()
        invariant
            i <= s@.len(),
            r@ == spec_strip_crlf(s@.subrange(0, i as int)),
        decreases s@.len() - i,
    {
        let b = s[i];
        let ghost pre = s@.subrange(0, i as int);
        if b != 10 && b != 13 {
            r.push(b);
        }
        proof {
            assert(s@.subrange(0, i as int + 1) =~= pre.push(s@[i as int]));
            assert(pre.push(s@[i as int]).drop_last() =~= pre);
            reveal(Seq::filter);
        }
        i = i + 1;
    }
    proof {
        assert(s@.subrange(0, s@.len() as int) =~= s@);
    }
    r
}

} // verus!
