use vstd::prelude::*;
use vstd::string::StringSliceAdditionalSpecFns;

verus! {

/// The hash algorithm that digests file content.
#[derive(Debug, Clone, Copy, PartialEq, Eq, Structural)]
pub enum DigestKind {
    MD5,
    SHA1,
    SHA2,
}

/// A digest name that names no supported algorithm.
#[derive(Debug, Clone, Copy, PartialEq, Eq, Structural)]
pub struct UnknownDigest;

/// ASCII lower-casing of one byte; other bytes are left alone.
pub open spec fn ascii_lower(b: u8) -> u8 {
    if 65 <= b <= 90 {
        (b + 32) as u8
    } else {
        b
    }
}

/// ASCII lower-casing of a byte string.
pub open spec fn lower_bytes(s: Seq<u8>) -> Seq<u8> {
    s.map_values(|b: u8| ascii_lower(b))
}

/// `md5` in ASCII.
pub open spec fn md5_name() -> Seq<u8> {
    seq![109u8, 100u8, 53u8]
}

/// `sha1` in ASCII.
pub open spec fn sha1_name() -> Seq<u8> {
    seq![115u8, 104u8, 97u8, 49u8]
}

/// `sha128` in ASCII.
pub open spec fn sha128_name() -> Seq<u8> {
    seq![115u8, 104u8, 97u8, 49u8, 50u8, 56u8]
}

/// `sha2` in ASCII.
pub open spec fn sha2_name() -> Seq<u8> {
    seq![115u8, 104u8, 97u8, 50u8]
}

/// `sha256` in ASCII.
pub open spec fn sha256_name() -> Seq<u8> {
    seq![115u8, 104u8, 97u8, 50u8, 53u8, 54u8]
}

/// The algorithm that a name selects, ignoring ASCII case:
/// `md5`; `sha1` or `sha128`; `sha2` or `sha256`.
pub open spec fn kind_named(s: Seq<u8>) -> Option<DigestKind> {
    let l = lower_bytes(s);
    if l == md5_name() {
        Some(DigestKind::MD5)
    } else if l == sha1_name() || l == sha128_name() {
        Some(DigestKind::SHA1)
    } else if l == sha2_name() || l == sha256_name() {
        Some(DigestKind::SHA2)
    } else {
        None
    }
}

fn lower_byte(b: u8) -> (r: u8)
    ensures
        r == ascii_lower(b),
{
    if 65u8 <= b && b <= 90u8 {
        b + 32
    } else {
        b
    }
}

/// Whether `s`, lower-cased, is exactly `name`.
fn lower_equals(s: &[u8], name: &[u8]) -> (r: bool)
    ensures
        r == (lower_bytes(s@) == name@),
{
    if s.len() != name.len() {
        proof {
            assert(lower_bytes(s@).len() != name@.len());
        }
        return false;
    }
    let mut i: usize = 0;
    while i < s.len()
        invariant
            s.len() == name.len(),
            i <= s.len(),
            forall|j: int| 0 <= j < i ==> ascii_lower(s@[j]) == name@[j],
        decreases s.len() - i,
    {
        if lower_byte(s[i]) != name[i] {
            proof {
                assert(lower_bytes(s@)[i as int] != name@[i as int]);
            }
            return false;
        }
        i = i + 1;
    }
    proof {
        assert(lower_bytes(s@) =~= name@);
    }
    true
}

impl DigestKind {
    /// Selects an algorithm by name, ignoring ASCII case.
    pub fn parse(name: &str) -> (r: Result<DigestKind, UnknownDigest>)
        ensures
            match kind_named(name.spec_bytes()) {
                Some(k) => r == Ok::<DigestKind, UnknownDigest>(k),
                None => r is Err,
            },
    {
        let s = name.as_bytes();
        let md5: [u8; 3] = [109u8, 100u8, 53u8];
        let sha1: [u8; 4] = [115u8, 104u8, 97u8, 49u8];
        let sha128: [u8; 6] = [115u8, 104u8, 97u8, 49u8, 50u8, 56u8];
        let sha2: [u8; 4] = [115u8, 104u8, 97u8, 50u8];
        let sha256: [u8; 6] = [115u8, 104u8, 97u8, 50u8, 53u8, 54u8];
        proof {
            assert(md5@ =~= md5_name());
            assert(sha1@ =~= sha1_name());
            assert(sha128@ =~= sha128_name());
            assert(sha2@ =~= sha2_name());
            assert(sha256@ =~= sha256_name());
        }
        if lower_equals(s, md5.as_slice()) {
            Ok(DigestKind::MD5)
        } else if lower_equals(s, sha1.as_slice()) || lower_equals(s, sha128.as_slice()) {
            Ok(DigestKind::SHA1)
        } else if lower_equals(s, sha2.as_slice()) || lower_equals(s, sha256.as_slice()) {
            Ok(DigestKind::SHA2)
        } else {
            Err(UnknownDigest)
        }
    }

    /// The algorithm's display name.
    pub fn name(&self) -> (r: &'static str)
        ensures
            *self == DigestKind::MD5 ==> r@ == "MD5"@,
            *self == DigestKind::SHA1 ==> r@ == "SHA1"@,
            *self == DigestKind::SHA2 ==> r@ == "SHA2"@,
    {
        match self {
            DigestKind::MD5 => "MD5",
            DigestKind::SHA1 => "SHA1",
            DigestKind::SHA2 => "SHA2",
        }
    }
}

} // verus!
