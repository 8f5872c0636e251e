//! The release check: whether the version published on crates.io differs
//! from the one running.

use vstd::prelude::*;
use vstd::utf8::encode_utf8_decode_utf8;

verus! {

/// A new release is announced whenever the latest published version is not
/// the installed one.
pub fn new_version_available(installed: &str, latest: &str) -> (r: bool)
    ensures
        r == (installed@ != latest@),
{
    let a = installed.as_bytes();
    let b = latest.as_bytes();
    proof {
        encode_utf8_decode_utf8(installed@);
        encode_utf8_decode_utf8(latest@);
    }
    if a.len() != b.len() {
        return true;
    }
    let mut i: usize = 0;
    while i < a.len()
        invariant
            a@.len() == b@.len(),
            a@ == vstd::utf8::encode_utf8(installed@),
            b@ == vstd::utf8::encode_utf8(latest@),
            i <= a@.len(),
            forall|j: int| 0 <= j < i ==> a@[j] == b@[j],
        decreases a.len() - i,
    {
        if a[i] != b[i] {
            return true;
        }
        i = i + 1;
    }
    assert(a@ =~= b@);
    false
}

} // verus!
