use vstd::prelude::*;

use crate::poly256::Poly256;

verus! {

/// The modulus of the small ring Z_P[x]/(x^32 + R).
pub const P: i64 = 2_097_169;

/// The prime modulus of the ring Z_Q[x]/(x^256 + 1).
pub const Q: i64 = 100_679_681;

/// A root with (x^32 + R) dividing (x^256 + 1) modulo P.
pub const R: i64 = 852_368;

/// The largest multiple of Q below 2^32: 32-bit words under it reduce to a
/// uniform residue modulo Q.
pub const Q_RS_RANGE: u32 = 4_228_546_602;

/// The largest multiple of P below 2^32.
pub const P_RS_RANGE: u32 = 4_292_904_943;

/// Masking coefficients lie in [-BETA, BETA].
pub const BETA: i64 = 89_856;

/// The number of values in [-BETA, BETA].
pub const BETA_M2_P1: u32 = 179_703;

/// The acceptance bound on the response coefficients.
pub const BETA_M_KAPPA: i64 = 89_817;

/// The largest multiple of 2 * BETA + 1 below 2^32.
pub const BETA_RS_RANGE: u32 = 4_294_901_700;

/// The number of non-zero coefficients of a challenge.
pub const KAPPA: usize = 39;

/// Bytes of one packed element modulo Q.
pub const Q_POLY_LEN: usize = 896;

/// The public parameters: a 4 x 9 matrix of elements with coefficients in [0, Q).
#[derive(Clone, Copy, Debug, PartialEq)]
pub struct Param {
    pub matrix: [[Poly256; 9]; 4],
}

} // verus!
