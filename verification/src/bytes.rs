//! Byte-string groundwork: whitespace classification, substring search,
//! ASCII case folding, and decimal rendering of counters. Documents,
//! package identifiers and command arguments are all byte strings here.

use vstd::prelude::*;

verus! {

/// The bytes of an ASCII string literal, for naming constants in contracts.
pub open spec fn lit(s: Seq<char>) -> Seq<u8> {
    Seq::new(s.len(), |i: int| s[i] as u8)
}

/// Whitespace as the configuration syntax knows it.
pub open spec fn is_ws(b: u8) -> bool {
    b == 32 || b == 9 || b == 10 || b == 13
}

/// A pattern `pat` occurs in `s` at position `i`.
pub open spec fn match_at(s: Seq<u8>, pat: Seq<u8>, i: int) -> bool {
    0 <= i && i + pat.len() <= s.len() && s.subrange(i, i + pat.len()) == pat
}

/// The first position at or after `i` where `pat` occurs in `s`.
pub open spec fn first_match(s: Seq<u8>, pat: Seq<u8>, i: int) -> Option<int>
    decreases s.len() - i,
{
    if i + pat.len() > s.len() {
        None
    } else if match_at(s, pat, i) {
        Some(i)
    } else if i + pat.len() == s.len() {
        None
    } else {
        first_match(s, pat, i + 1)
    }
}

/// What the first-match scan promises: a hit is a match and nothing
/// earlier matches; a miss means nothing matches at all.
pub proof fn lemma_first_match(s: Seq<u8>, pat: Seq<u8>, i: int)
    requires
        0 <= i,
    ensures
        (match first_match(s, pat, i) {
            Some(j) => i <= j && match_at(s, pat, j) && (forall|k: int|
                i <= k < j ==> !match_at(s, pat, k)),
            None => forall|k: int| i <= k ==> !match_at(s, pat, k),
        }),
    decreases s.len() - i,
{
    if i + pat.len() > s.len() {
        assert forall|k: int| i <= k implies !match_at(s, pat, k) by {
            if match_at(s, pat, k) {
                assert(k + pat.len() <= s.len());
            }
        }
    } else if match_at(s, pat, i) {
    } else if i + pat.len() == s.len() {
        assert forall|k: int| i <= k implies !match_at(s, pat, k) by {
            if k > i && match_at(s, pat, k) {
                assert(k + pat.len() <= s.len());
            }
        }
    } else {
        lemma_first_match(s, pat, i + 1);
    }
}

/// ASCII lower case, byte by byte; case-insensitive matching folds
/// both sides through this map.
pub open spec fn lower_byte(b: u8) -> u8 {
    if 65 <= b <= 90 {
        (b + 32) as u8
    } else {
        b
    }
}

/// A byte string folded to ASCII lower case.
pub open spec fn lower(s: Seq<u8>) -> Seq<u8> {
    Seq::new(s.len(), |i: int| lower_byte(s[i]))
}

/// The decimal rendering of a number, most significant digit first.
pub open spec fn dec_rep(n: nat) -> Seq<u8>
    decreases n,
{
    if n < 10 {
        seq![(48 + n) as u8]
    } else {
        dec_rep(n / 10).push((48 + n % 10) as u8)
    }
}

/// The bytes of an ASCII string literal. Relies on vstd's contract for
/// `str::as_bytes_vec`: ASCII text encodes byte-for-byte.
pub fn ascii(s: &str) -> (r: Vec<u8>)
    requires
        vstd::utf8::is_ascii_chars(s@),
    ensures
        r@ == lit(s@),
{
    let r = s.as_bytes_vec();
    proof {
        vstd::string::is_ascii_spec_bytes(s);
        assert(r@ =~= lit(s@));
    }
    r
}

/// Compares two byte slices for equality.
pub fn bytes_eq(a: &[u8], b: &[u8]) -> (r: bool)
    ensures
        r == (a@ == b@),
{
    if a.len() != b.len() {
        proof {
            assert(a@.len() != b@.len());
        }
        return false;
    }
    let mut i: usize = 0;
    while i < a.len()
        invariant
            i <= a.len(),
            a.len() == b.len(),
            forall|j: int| 0 <= j < i ==> a@[j] == b@[j],
        decreases a.len() - i,
    {
        if a[i] != b[i] {
            return false;
        }
        i = i + 1;
    }
    proof {
        assert(a@ =~= b@);
    }
    true
}

/// Tests whether `pat` occurs in `s` at position `i`.
pub fn match_at_exec(s: &[u8], pat: &[u8], i: usize) -> (r: bool)
    requires
        i + pat@.len() <= s@.len(),
    ensures
        r == match_at(s@, pat@, i as int),
{
    let n = s.len();
    let mut k: usize = 0;
    while k < pat.len()
        invariant
            k <= pat.len(),
            n == s@.len(),
            i + pat@.len() <= s@.len(),
            forall|j: int| 0 <= j < k ==> s@[i + j] == pat@[j],
        decreases pat.len() - k,
    {
        if s[i + k] != pat[k] {
            proof {
                assert(s@.subrange(i as int, i + pat@.len()) != pat@) by {
                    assert(s@.subrange(i as int, i + pat@.len())[k as int] != pat@[k as int]);
                }
            }
            return false;
        }
        k = k + 1;
    }
    proof {
        assert(s@.subrange(i as int, i + pat@.len()) =~= pat@);
    }
    true
}

/// Finds the first occurrence of `pat` in `s` at or after `from`.
pub fn find_sub(s: &[u8], pat: &[u8], from: usize) -> (r: Option<usize>)
    ensures
        (match r {
            Some(u) => first_match(s@, pat@, from as int) == Some(u as int),
            None => first_match(s@, pat@, from as int) is None,
        }),
{
    let mut i: usize = from;
    loop
        invariant
            from <= i,
            first_match(s@, pat@, from as int) == first_match(s@, pat@, i as int),
        decreases s@.len() + 1 - i,
    {
        if pat.len() > s.len() || i > s.len() - pat.len() {
            return None;
        }
        if match_at_exec(s, pat, i) {
            return Some(i);
        }
        if i + pat.len() == s.len() {
            return None;
        }
        i = i + 1;
    }
}

/// Folds a byte string to ASCII lower case.
pub fn to_lower(s: &[u8]) -> (r: Vec<u8>)
    ensures
        r@ == lower(s@),
{
    let mut r: Vec<u8> = Vec::new();
    let mut i: usize = 0;
    while i < s.len()
        invariant
            i <= s.len(),
            r@.len() == i,
            forall|j: int| 0 <= j < i ==> r@[j] == lower_byte(s@[j]),
        decreases s.len() - i,
    {
        let b = s[i];
        if 65 <= b && b <= 90 {
            r.push(b + 32);
        } else {
            r.push(b);
        }
        i = i + 1;
    }
    proof {
        assert(r@ =~= lower(s@));
    }
    r
}

/// Appends the decimal rendering of `n` to `out`.
fn push_dec(n: u64, out: &mut Vec<u8>)
    ensures
        final(out)@ == old(out)@ + dec_rep(n as nat),
    decreases n,
{
    if n < 10 {
        out.push(48 + (n as u8));
        proof {
            assert(out@ =~= old(out)@ + dec_rep(n as nat));
        }
    } else {
        push_dec(n / 10, out);
        out.push(48 + ((n % 10) as u8));
        proof {
            assert(out@ =~= old(out)@ + dec_rep(n as nat));
        }
    }
}

/// Renders a counter in decimal, as a byte string.
pub fn dec_bytes(n: u64) -> (r: Vec<u8>)
    ensures
        r@ == dec_rep(n as nat),
{
    let mut r: Vec<u8> = Vec::new();
    push_dec(n, &mut r);
    proof {
        assert(r@ =~= dec_rep(n as nat));
    }
    r
}

} // verus!
