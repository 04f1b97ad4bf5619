//! A small contract function of the kind whose compiled IR the translator
//! lowers: nested conditions, a mutable local and several returns.
use vstd::prelude::*;

verus! {

/// The value of `mock_check`: with `flag`, the secret tripled (modulo 2^32);
/// otherwise 900 is accepted at once, and else the secret plus 100 (modulo
/// 2^32), with 101 replaced by 102; then 800 is accepted, and anything else is
/// accepted when the running value is 102.
pub open spec fn mock_check_spec(secret: u32, flag: bool) -> bool {
    if !flag && secret == 900 {
        true
    } else if secret == 800 {
        true
    } else if flag {
        (secret as int * 3) % 0x1_0000_0000 == 102
    } else {
        let r = (secret as int + 100) % 0x1_0000_0000;
        (if r == 101 { 102 } else { r }) == 102
    }
}

pub struct SimpleContract {}

impl SimpleContract {
    /// Knowing a secret and flag for which this returns true shows knowledge of
    /// a number that meets the conditions below.
    pub fn mock_check(&self, secret: u32, flag: bool) -> (r: bool)
        ensures
            r == mock_check_spec(secret, flag),
    {
        let mut result = secret;
        if flag {
            result = result.wrapping_mul(3);
        } else {
            if result == 900 {
                return true;
            } else {
                result = result.wrapping_add(100);
                if result == 101 {
                    result = 102;
                }
            }
        }
        if secret == 800 {
            return true;
        }
        result == 102
    }
}

} // verus!
