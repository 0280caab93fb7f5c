//! Outcomes of the resolver feature probes and the decisions taken on
//! the replies: whether a reply demonstrates EDNS0 support or the
//! DNSSEC-OK bit.  Sending the probe queries is transport work and
//! stays outside the library; these functions classify what came back.

use vstd::prelude::*;

verus! {

/// Outcome of one resolver feature probe.
#[derive(Debug)]
pub enum TestResult {
    Success,
    Fail(&'static str),
}

/// Classify a reply to the EDNS0 probe: the reply must carry an EDNS
/// section of version zero.
pub fn edns0_result(edns_version: Option<u8>) -> (r: TestResult)
    ensures
        match edns_version {
            Some(v) => if v == 0 {
                r is Success
            } else {
                r matches TestResult::Fail(m) && m@ == "Wrong EDNS option"@
            },
            None => r matches TestResult::Fail(m) && m@ == "No EDNS option"@,
        },
{
    match edns_version {
        Some(v) => if v == 0 {
            TestResult::Success
        } else {
            TestResult::Fail("Wrong EDNS option")
        },
        None => TestResult::Fail("No EDNS option"),
    }
}

/// Classify a reply to the DNSSEC-OK probe: the reply must carry an
/// EDNS section with the DO bit set.
pub fn do_bit_result(dnssec_ok: Option<bool>) -> (r: TestResult)
    ensures
        match dnssec_ok {
            Some(set) => if set {
                r is Success
            } else {
                r matches TestResult::Fail(m) && m@ == "DO not set"@
            },
            None => r matches TestResult::Fail(m) && m@ == "No EDNS option"@,
        },
{
    match dnssec_ok {
        Some(set) => if set {
            TestResult::Success
        } else {
            TestResult::Fail("DO not set")
        },
        None => TestResult::Fail("No EDNS option"),
    }
}

} // verus!
