//! Validated input text: lowercase ASCII letters and digits only.

use vstd::prelude::*;
use vstd::string::StringSliceAdditionalSpecFns;

verus! {

/// Error returned by [`crate::Segmenter::segment`] when given an invalid
/// character.
#[derive(Debug, PartialEq, Eq, Structural)]
pub struct InvalidCharacter;

/// A run of text whose bytes have all been checked to be lowercase ASCII
/// letters or ASCII digits.
#[derive(Debug)]
pub struct Ascii {
    bytes: Vec<u8>,
}

/// Holds exactly of the bytes the segmenter accepts: `a-z` and `0-9`.
pub open spec fn valid_byte(b: u8) -> bool {
    (97 <= b <= 122) || (48 <= b <= 57)
}

/// Every byte of the sequence is acceptable input for the segmenter.
pub open spec fn all_valid(s: Seq<u8>) -> bool {
    forall|i: int| 0 <= i < s.len() ==> valid_byte(#[trigger] s[i])
}

impl Ascii {
    pub closed spec fn view(&self) -> Seq<u8> {
        self.bytes@
    }

    /// Validate `s` and take a copy of its bytes.  Fails exactly when some
    /// byte is neither a lowercase ASCII letter nor an ASCII digit.
    pub fn new(s: &str) -> (r: Result<Ascii, InvalidCharacter>)
        ensures
            match r {
                Ok(a) => a@ == s.spec_bytes() && all_valid(s.spec_bytes()),
                Err(_) => !all_valid(s.spec_bytes()),
            },
    {
        Ascii::from_bytes(s.as_bytes())
    }

    /// Validate a byte string directly.
    pub fn from_bytes(b: &[u8]) -> (r: Result<Ascii, InvalidCharacter>)
        ensures
            match r {
                Ok(a) => a@ == b@ && all_valid(b@),
                Err(_) => !all_valid(b@),
            },
    {
        let mut out: Vec<u8> = Vec::new();
        let mut i: usize = 0;
        while i < b.len()
            invariant
                i <= b@.len(),
                out@ == b@.subrange(0, i as int),
                forall|j: int| 0 <= j < i ==> valid_byte(#[trigger] b@[j]),
            decreases b@.len() - i,
        {
            let c = b[i];
            if !((97 <= c && c <= 122) || (48 <= c && c <= 57)) {
                return Err(InvalidCharacter);
            }
            out.push(c);
            i += 1;
        }
        proof {
            assert(out@ =~= b@);
        }
        Ok(Ascii { bytes: out })
    }

    pub fn len(&self) -> (r: usize)
        ensures
            r == self@.len(),
    {
        self.bytes.len()
    }

    /// Borrow the validated bytes.
    pub fn as_bytes(&self) -> (r: &[u8])
        ensures
            r@ == self@,
    {
        self.bytes.as_slice()
    }

    /// Copy of the byte range `[start, end)`, the text of one candidate word.
    pub fn word(&self, start: usize, end: usize) -> (r: Vec<u8>)
        requires
            start <= end <= self@.len(),
        ensures
            r@ == self@.subrange(start as int, end as int),
    {
        let mut out: Vec<u8> = Vec::new();
        let mut i: usize = start;
        while i < end
            invariant
                start <= i <= end <= self.bytes@.len(),
                out@ == self.bytes@.subrange(start as int, i as int),
            decreases end - i,
        {
            out.push(self.bytes[i]);
            i += 1;
            proof {
                assert(out@ =~= self.bytes@.subrange(start as int, i as int));
            }
        }
        out
    }
}

} // verus!
