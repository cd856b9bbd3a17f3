//! Earned value: which period the headline figures come from, and which
//! estimate-at-completion method applies.

use vstd::prelude::*;
use vstd::string::StringSliceAdditionalSpecFns;

use crate::error::KernelError;
use crate::text::{bytes_le, owned, same_text, text_le};

verus! {

/// EAC method of a request that names none.
pub fn default_eac_method() -> (r: String)
    ensures
        r@ == "cpi"@,
{
    owned("cpi")
}

/// How the estimate at completion is forecast.
#[derive(Debug, Clone, Copy, PartialEq, Eq)]
pub enum EacMethod {
    /// `BAC / CPI`.
    Cpi,
    /// `AC + (BAC − EV)`.
    Spi,
    /// `AC + (BAC − EV)`.
    Remaining,
    /// The supplied manual estimate.
    Manual,
}

/// The period whose figures are the headline: the last one whose end (as text)
/// is no later than the data date, or the first period when there is none.
pub open spec fn spec_active_period(ends: Seq<Seq<u8>>, data_date: Seq<u8>, k: int) -> int
    decreases k,
{
    if k <= 0 {
        0
    } else if bytes_le(ends[k - 1], data_date) {
        k - 1
    } else {
        spec_active_period(ends, data_date, k - 1)
    }
}

/// The active period is the last period that ends by the data date, when any
/// does; otherwise it is the first period.
pub proof fn lemma_active_period_is_last_reached(ends: Seq<Seq<u8>>, data_date: Seq<u8>, k: int)
    requires
        0 <= k <= ends.len(),
    ensures
        ({
            let r = spec_active_period(ends, data_date, k);
            if exists|i: int| 0 <= i < k && bytes_le(#[trigger] ends[i], data_date) {
                &&& 0 <= r < k
                &&& bytes_le(ends[r], data_date)
                &&& forall|j: int| r < j < k ==> !bytes_le(#[trigger] ends[j], data_date)
            } else {
                r == 0
            }
        }),
    decreases k,
{
    if k > 0 {
        lemma_active_period_is_last_reached(ends, data_date, k - 1);
        if !bytes_le(ends[k - 1], data_date) {
            if exists|i: int| 0 <= i < k && bytes_le(#[trigger] ends[i], data_date) {
                let i = choose|i: int| 0 <= i < k && bytes_le(#[trigger] ends[i], data_date);
                assert(i < k - 1);
            }
        }
    }
}

pub open spec fn byte_views(s: Seq<String>) -> Seq<Seq<u8>> {
    s.map_values(|x: String| vstd::utf8::encode_utf8(x@))
}

/// The active period (see `spec_active_period`), comparing texts as Rust orders `str`.
pub fn active_period(period_ends: &Vec<String>, data_date: &str) -> (r: usize)
    requires
        period_ends.len() > 0,
    ensures
        r < period_ends.len(),
        r == spec_active_period(byte_views(period_ends@), data_date.spec_bytes(), period_ends.len() as int),
{
    let n = period_ends.len();
    let mut k: usize = n;
    while k > 0
        invariant
            k <= n,
            n == period_ends.len(),
            spec_active_period(byte_views(period_ends@), data_date.spec_bytes(), n as int)
                == spec_active_period(byte_views(period_ends@), data_date.spec_bytes(), k as int),
        decreases k,
    {
        if text_le(period_ends[k - 1].as_str(), data_date) {
            assert(byte_views(period_ends@)[k - 1] == vstd::utf8::encode_utf8(period_ends[k - 1]@));
            return k - 1;
        }
        assert(byte_views(period_ends@)[k - 1] == vstd::utf8::encode_utf8(period_ends[k - 1]@));
        k = k - 1;
    }
    0
}

/// What `plan_evm` decides: no periods is an error; otherwise the active period
/// and the EAC method, where `manual` needs a manual estimate and any other name
/// than `cpi`, `spi`, `remaining` and `manual` is an error.
pub open spec fn is_evm_plan(
    r: Result<(usize, EacMethod), KernelError>,
    ends: Seq<String>,
    data_date: Seq<u8>,
    method: Seq<char>,
    has_manual_eac: bool,
) -> bool {
    if ends.len() == 0 {
        r matches Err(KernelError::InvalidInput(m)) && m@ == "periods must not be empty"@
    } else {
        let active = spec_active_period(byte_views(ends), data_date, ends.len() as int) as usize;
        if method == "cpi"@ {
            r == Ok::<(usize, EacMethod), KernelError>((active, EacMethod::Cpi))
        } else if method == "spi"@ {
            r == Ok::<(usize, EacMethod), KernelError>((active, EacMethod::Spi))
        } else if method == "remaining"@ {
            r == Ok::<(usize, EacMethod), KernelError>((active, EacMethod::Remaining))
        } else if method == "manual"@ {
            if has_manual_eac {
                r == Ok::<(usize, EacMethod), KernelError>((active, EacMethod::Manual))
            } else {
                r matches Err(KernelError::InvalidInput(m)) && m@
                    == "manual_eac required when eac_method = manual"@
            }
        } else {
            r matches Err(KernelError::InvalidInput(m)) && m@ == "unknown eac_method '"@ + method
                + "'"@
        }
    }
}

/// Checks an EVM request and picks its active period and EAC method (see `is_evm_plan`).
pub fn plan_evm(period_ends: &Vec<String>, data_date: &str, method: &str, has_manual_eac: bool) -> (r:
    Result<(usize, EacMethod), KernelError>)
    ensures
        is_evm_plan(r, period_ends@, data_date.spec_bytes(), method@, has_manual_eac),
{
    if period_ends.len() == 0 {
        return Err(KernelError::InvalidInput(owned("periods must not be empty")));
    }
    let active = active_period(period_ends, data_date);
    if same_text(method, "cpi") {
        Ok((active, EacMethod::Cpi))
    } else if same_text(method, "spi") {
        Ok((active, EacMethod::Spi))
    } else if same_text(method, "remaining") {
        Ok((active, EacMethod::Remaining))
    } else if same_text(method, "manual") {
        if has_manual_eac {
            Ok((active, EacMethod::Manual))
        } else {
            Err(KernelError::InvalidInput(owned("manual_eac required when eac_method = manual")))
        }
    } else {
        let mut m = owned("unknown eac_method '");
        m.append(method);
        m.append("'");
        Err(KernelError::InvalidInput(m))
    }
}

} // verus!
