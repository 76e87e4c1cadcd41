use vstd::prelude::*;

use crate::poly256::Poly256;

verus! {

/// The public key: four elements, `t = A s`.
#[derive(PartialEq, Clone, Copy, Debug)]
pub struct PublicKey {
    pub t: [Poly256; 4],
}

/// The secret key: nine elements with coefficients in {-1, 0, 1}.
#[derive(PartialEq, Clone, Copy, Debug)]
pub struct SecretKey {
    pub s: [Poly256; 9],
}

} // verus!
