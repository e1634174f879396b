//! Names and other fixed texts of the protocol, as the bytes they are
//! on the wire.

use vstd::prelude::*;
use vstd::slice::slice_to_vec;
use vstd::string::StringSliceAdditionalSpecFns;

verus! {

/// The bytes of `lit`.
pub open spec fn text(lit: &str) -> Seq<u8> {
    lit.spec_bytes()
}

/// The bytes of `lit`.
pub fn text_of(lit: &str) -> (r: Vec<u8>)
    ensures
        r@ == text(lit),
{
    slice_to_vec(lit.as_bytes())
}

/// `name` is the name that `lit` spells.
pub open spec fn named(name: Seq<u8>, lit: &str) -> bool {
    name == lit.spec_bytes()
}

/// Whether `name` is the name that `lit` spells.
pub fn is_named(name: &Vec<u8>, lit: &str) -> (r: bool)
    ensures
        r == named(name@, lit),
{
    let bytes = lit.as_bytes();
    if bytes.len() != name.len() {
        return false;
    }
    let mut i: usize = 0;
    while i < name.len()
        invariant
            i <= name.len(),
            bytes@.len() == name@.len(),
            bytes@ == lit.spec_bytes(),
            forall|k: int| 0 <= k < i ==> name@[k] == bytes@[k],
        decreases name.len() - i,
    {
        if name[i] != bytes[i] {
            return false;
        }
        i = i + 1;
    }
    proof {
        assert(name@ =~= bytes@);
    }
    true
}

} // verus!
