//! A fixed-capacity ASCII string of at most 20 bytes, stored inline and
//! padded with zero bytes.

use vstd::prelude::*;
use vstd::string::StringSliceAdditionalSpecFns;

verus! {

/// Capacity of a `TinyStr` in bytes.
pub const TINY_STR_CAPACITY: usize = 20;

#[derive(Clone, Copy, Debug, PartialEq, Eq)]
pub struct TinyStr {
    pub bytes: [u8; 20],
}

/// Position of the first zero byte of `b` at or after `i`, or `b.len()`.
pub open spec fn first_zero_from(b: Seq<u8>, i: int) -> int
    decreases b.len() - i,
{
    if i < 0 || i >= b.len() {
        b.len() as int
    } else if b[i] == 0 {
        i
    } else {
        first_zero_from(b, i + 1)
    }
}

/// Length of the text held in `b`: the bytes before the first zero byte.
pub open spec fn text_len(b: Seq<u8>) -> int {
    first_zero_from(b, 0)
}

/// Relies on std::str::from_utf8: a valid UTF-8 byte slice is viewed as a
/// string with those bytes; invalid input gives the empty string here.
#[verifier::external_body]
fn utf8_prefix(b: &[u8; 20], n: usize) -> (r: &str)
    requires
        n <= 20,
    ensures
        vstd::utf8::valid_utf8(b@.subrange(0, n as int)) ==> r.spec_bytes() == b@.subrange(0, n as int),
{
    match std::str::from_utf8(&b[..n]) {
        Ok(s) => s,
        Err(_) => "",
    }
}

impl TinyStr {
    /// The empty string.
    pub fn new() -> (r: TinyStr)
        ensures
            forall|i: int| 0 <= i < 20 ==> r.bytes@[i] == 0,
    {
        TinyStr { bytes: [0u8; 20] }
    }

    /// `s` as a `TinyStr`, or `None` when it is longer than 20 bytes or not ASCII.
    pub fn from_str(s: &str) -> (r: Option<TinyStr>)
        ensures
            r is None <==> (s.spec_bytes().len() > 20 || !vstd::string::is_ascii(s)),
            r matches Some(t) ==> forall|i: int|
                0 <= i < 20 ==> #[trigger] t.bytes@[i] == if i < s.spec_bytes().len() {
                    s.spec_bytes()[i]
                } else {
                    0
                },
    {
        let src = s.as_bytes();
        if src.len() > TINY_STR_CAPACITY || !s.is_ascii() {
            return None;
        }
        let mut bytes = [0u8; 20];
        let mut i: usize = 0;
        while i < src.len()
            invariant
                i <= src@.len(),
                src@ == s.spec_bytes(),
                src@.len() <= 20,
                forall|j: int| 0 <= j < 20 ==> #[trigger] bytes@[j] == if j < i {
                    src@[j]
                } else {
                    0
                },
            decreases src@.len() - i,
        {
            bytes[i] = src[i];
            i += 1;
        }
        Some(TinyStr { bytes })
    }

    /// Length of the text: the bytes before the first zero byte.
    pub fn len(&self) -> (r: usize)
        ensures
            r == text_len(self.bytes@),
            r <= 20,
    {
        let mut i: usize = 0;
        while i < TINY_STR_CAPACITY
            invariant
                i <= 20,
                self.bytes@.len() == 20,
                text_len(self.bytes@) == first_zero_from(self.bytes@, i as int),
            decreases 20 - i,
        {
            if self.bytes[i] == 0 {
                return i;
            }
            i += 1;
        }
        i
    }

    pub fn is_empty(&self) -> (r: bool)
        ensures
            r == (self.bytes@[0] == 0),
    {
        self.bytes[0] == 0
    }

    /// The text as a string slice.
    pub fn as_str(&self) -> (r: &str)
        ensures
            vstd::utf8::valid_utf8(self.bytes@.subrange(0, text_len(self.bytes@))) ==> r.spec_bytes()
                == self.bytes@.subrange(0, text_len(self.bytes@)),
    {
        let n = self.len();
        utf8_prefix(&self.bytes, n)
    }

}

} // verus!
