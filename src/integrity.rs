//! Integrity digests: reading the published digest file and comparing it,
//! without regard to letter case, with the digest computed over the
//! downloaded file.

use vstd::prelude::*;
use crate::error::Error;

verus! {

pub open spec fn is_hex_digit(b: u8) -> bool {
    (48 <= b && b <= 57) || (65 <= b && b <= 70) || (97 <= b && b <= 102)
}

pub open spec fn is_space(b: u8) -> bool {
    b == 32 || b == 9 || b == 10 || b == 13
}

/// The end of the run of hexadecimal digits that starts at `i`.
pub open spec fn hex_run_end(s: Seq<u8>, i: int) -> int
    decreases s.len() - i,
{
    if 0 <= i < s.len() && is_hex_digit(s[i]) {
        hex_run_end(s, i + 1)
    } else {
        i
    }
}

/// The digest that a digest file states: its leading run of hexadecimal
/// digits, which must be non-empty and end the file or be followed by
/// white space (a file name may come after).
pub open spec fn stated_digest(body: Seq<u8>) -> Option<Seq<u8>> {
    let e = hex_run_end(body, 0);
    if e > 0 && (e == body.len() || is_space(body[e])) {
        Some(body.subrange(0, e))
    } else {
        None
    }
}

/// Reads the digest that a published digest file states.
pub fn parse_digest_file(body: &[u8]) -> (r: Result<Vec<u8>, Error>)
    ensures
        match r {
            Ok(d) => stated_digest(body@) == Some(d@),
            Err(e) => e == Error::DigestUnavailable && stated_digest(body@) is None,
        },
{
    let mut i: usize = 0;
    while i < body.len() && ((48 <= body[i] && body[i] <= 57) || (65 <= body[i] && body[i] <= 70) || (97
        <= body[i] && body[i] <= 102))
        invariant
            i <= body@.len(),
            hex_run_end(body@, i as int) == hex_run_end(body@, 0),
        decreases body@.len() - i,
    {
        i = i + 1;
    }
    if i == 0 {
        return Err(Error::DigestUnavailable);
    }
    if i < body.len() {
        let b = body[i];
        if !(b == 32 || b == 9 || b == 10 || b == 13) {
            return Err(Error::DigestUnavailable);
        }
    }
    Ok(vstd::slice::slice_to_vec(vstd::slice::slice_subrange(body, 0, i)))
}

pub open spec fn ascii_lower(b: u8) -> u8 {
    if 65 <= b && b <= 90 { (b + 32) as u8 } else { b }
}

/// A byte string with its ASCII capitals made small.
pub open spec fn lowercase(s: Seq<u8>) -> Seq<u8> {
    s.map_values(|b: u8| ascii_lower(b))
}

/// Two digests match when they are equal once both are lowercased.
pub open spec fn digests_agree(a: Seq<u8>, b: Seq<u8>) -> bool {
    lowercase(a) == lowercase(b)
}

fn lower_byte(b: u8) -> (r: u8)
    ensures
        r == ascii_lower(b),
{
    if 65 <= b && b <= 90 {
        b + 32
    } else {
        b
    }
}

/// Compares two hex digests byte for byte, ignoring letter case.
pub fn digests_match(computed: &[u8], expected: &[u8]) -> (r: bool)
    ensures
        r == digests_agree(computed@, expected@),
{
    if computed.len() != expected.len() {
        proof {
            assert(lowercase(computed@).len() != lowercase(expected@).len());
        }
        return false;
    }
    let mut i: usize = 0;
    while i < computed.len()
        invariant
            i <= computed@.len(),
            computed@.len() == expected@.len(),
            forall|k: int| 0 <= k < i ==> ascii_lower(computed@[k]) == ascii_lower(expected@[k]),
        decreases computed@.len() - i,
    {
        if lower_byte(computed[i]) != lower_byte(expected[i]) {
            proof {
                assert(lowercase(computed@)[i as int] != lowercase(expected@)[i as int]);
            }
            return false;
        }
        i = i + 1;
    }
    assert(lowercase(computed@) =~= lowercase(expected@));
    true
}

/// The result of checking a downloaded file against its published digest.
#[derive(Debug, Clone, PartialEq, Eq)]
pub struct VerificationOutcome {
    pub computed_digest: Vec<u8>,
    pub expected_digest: Vec<u8>,
    pub matched: bool,
}

impl VerificationOutcome {
    pub open spec fn consistent(&self) -> bool {
        self.matched == digests_agree(self.computed_digest@, self.expected_digest@)
    }
}

/// Compares the digest computed over the file with the expected one.
pub fn verify(computed: &[u8], expected: &[u8]) -> (r: VerificationOutcome)
    ensures
        r.computed_digest@ == computed@,
        r.expected_digest@ == expected@,
        r.matched == digests_agree(computed@, expected@),
{
    let matched = digests_match(computed, expected);
    VerificationOutcome {
        computed_digest: vstd::slice::slice_to_vec(computed),
        expected_digest: vstd::slice::slice_to_vec(expected),
        matched,
    }
}

/// The outcome of the whole operation: the download's failure if it failed,
/// else `IntegrityMismatch` unless the digests matched.
pub open spec fn final_result(download: Result<(), Error>, matched: bool) -> Result<(), Error> {
    match download {
        Err(e) => Err(e),
        Ok(()) => if matched { Ok(()) } else { Err(Error::IntegrityMismatch) },
    }
}

/// Combines the download's result with the digest check.
pub fn conclude(download: Result<(), Error>, outcome: &VerificationOutcome) -> (r: Result<(), Error>)
    ensures
        r == final_result(download, outcome.matched),
{
    match download {
        Err(e) => Err(e),
        Ok(()) => {
            if outcome.matched {
                Ok(())
            } else {
                Err(Error::IntegrityMismatch)
            }
        },
    }
}

/// A file whose digest differs from the expected one, other than in letter
/// case, is reported as `IntegrityMismatch` after a complete download, and
/// never as a success.
pub proof fn lemma_mismatch_reported(computed: Seq<u8>, expected: Seq<u8>)
    requires
        lowercase(computed) != lowercase(expected),
    ensures
        !digests_agree(computed, expected),
        final_result(Ok(()), digests_agree(computed, expected)) == Err::<(), Error>(Error::IntegrityMismatch),
{
}

} // verus!
