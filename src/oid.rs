//! A git object id written as 40 lowercase hex digits, held inline.
use vstd::prelude::*;
use vstd::string::StringSliceAdditionalSpecFns;

verus! {

/// Whether `b` is a lowercase ASCII hex digit.
pub open spec fn is_lower_hex(b: u8) -> bool {
    (48 <= b && b <= 57) || (97 <= b && b <= 102)
}

/// A SHA-1 object id as 40 hex bytes.
#[derive(Clone, Copy, PartialEq, Eq, Hash, Debug)]
pub struct OidHash([u8; 40]);

impl View for OidHash {
    type V = Seq<u8>;

    closed spec fn view(&self) -> Seq<u8> {
        self.0@
    }
}

impl OidHash {
    /// Takes a buffer already filled with the hex digits of an id.
    pub fn from_hex_buf(buf: [u8; 40]) -> (r: Self)
        ensures
            r@ == buf@,
    {
        OidHash(buf)
    }

    /// Takes the 40 hex digits of an id from a string.
    pub fn from_hex_str(s: &str) -> (r: Self)
        requires
            s.spec_bytes().len() == 40,
        ensures
            r@ == s.spec_bytes(),
    {
        let bytes = s.as_bytes();
        let mut buf = [0u8; 40];
        let mut i: usize = 0;
        while i < 40
            invariant
                bytes@ == s.spec_bytes(),
                bytes@.len() == 40,
                i <= 40,
                buf@.len() == 40,
                forall|j: int| 0 <= j < i ==> buf@[j] == bytes@[j],
            decreases 40 - i,
        {
            buf[i] = bytes[i];
            i += 1;
        }
        assert(buf@ =~= s.spec_bytes());
        OidHash(buf)
    }

    /// The 40 bytes of the id.
    pub fn as_bytes(&self) -> (r: &[u8; 40])
        ensures
            r@ == self@,
    {
        &self.0
    }

    /// Whether the id is spelled by the bytes of `other`.
    pub fn eq_str(&self, other: &str) -> (r: bool)
        ensures
            r == (self@ == other.spec_bytes()),
    {
        let b = other.as_bytes();
        if b.len() != 40 {
            return false;
        }
        let mut i: usize = 0;
        while i < 40
            invariant
                b@ == other.spec_bytes(),
                b@.len() == 40,
                self.0@.len() == 40,
                i <= 40,
                forall|j: int| 0 <= j < i ==> self.0@[j] == b@[j],
            decreases 40 - i,
        {
            if self.0[i] != b[i] {
                return false;
            }
            i += 1;
        }
        assert(self.0@ =~= b@);
        true
    }

    /// The id as a string; each byte becomes the character with that code.
    pub fn to_hex_string(&self) -> (r: String)
        ensures
            r@ == self@.map(|_i: int, b: u8| b as char),
    {
        let mut r = String::new();
        let mut i: usize = 0;
        while i < 40
            invariant
                self.0@.len() == 40,
                i <= 40,
                r@ == self.0@.subrange(0, i as int).map(|_i: int, b: u8| b as char),
            decreases 40 - i,
        {
            crate::text::push_char(&mut r, self.0[i] as char);
            assert(self.0@.subrange(0, i + 1).map(|_i: int, b: u8| b as char) =~= self.0@.subrange(
                0,
                i as int,
            ).map(|_i: int, b: u8| b as char).push(self.0@[i as int] as char));
            i += 1;
        }
        assert(self.0@.subrange(0, 40) =~= self.0@);
        r
    }
}

} // verus!
