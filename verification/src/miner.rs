//! The miner, and what it is told on the command line.

use crate::address::{parsed_address, read_address, AddressError};
use crate::utils::{green_bold, painted};
use vstd::prelude::*;
use vstd::string::StringExecFns;

verus! {

/// A miner: the address that its rewards go to, where it was given one.
#[derive(Debug)]
pub struct Miner {
    pub address: Option<String>,
}

/// Why rewards cannot be claimed: there is no address, or the text is none.
#[derive(Clone, Copy, Debug, PartialEq, Eq, Structural)]
pub enum ClaimError {
    NoAddress,
    BadAddress(AddressError),
}

/// What a miner is told who wants to claim rewards.
pub open spec fn claim_notice() -> Seq<char> {
    "Rewards will be automatically sent to your miner address once every hour if your pending balance is greater than 0.02 ORE."@
}

/// What a miner does in distributed mining.
#[derive(Debug)]
pub enum Role {
    Coordinator,
    Worker,
    Invalid(String),
}

impl Miner {
    /// The miner of an address.
    pub fn new(address: Option<String>) -> (out: Miner)
        ensures
            out.address == address,
    {
        Miner { address }
    }

    /// What the miner is told about its rewards, in green; they need an address.
    pub fn claim(&self) -> (out: Result<String, ClaimError>)
        ensures
            match self.address {
                None => out == Err::<String, ClaimError>(ClaimError::NoAddress),
                Some(address) => match parsed_address(address@) {
                    Err(error) => out == Err::<String, ClaimError>(ClaimError::BadAddress(error)),
                    Ok(_) => out is Ok && painted(out->Ok_0@, claim_notice(), "32"@),
                },
            },
    {
        match &self.address {
            None => Err(ClaimError::NoAddress),
            Some(address) => match read_address(address.as_str()) {
                Err(error) => Err(ClaimError::BadAddress(error)),
                Ok(_) => Ok(
                    green_bold(
                        "Rewards will be automatically sent to your miner address once every hour if your pending balance is greater than 0.02 ORE.",
                    ),
                ),
            },
        }
    }

    /// What the miner does in the role it was given; a line to print where there is no
    /// such role.
    pub fn mine_distributed(role: &str) -> (out: Role)
        ensures
            role@ == "coordinator"@ ==> out == Role::Coordinator,
            role@ == "worker"@ ==> out == Role::Worker,
            role@ != "coordinator"@ && role@ != "worker"@ ==> {
                &&& out is Invalid
                &&& out->Invalid_0@ == "Invalid role. Choose 'coordinator' or 'worker'."@
            },
    {
        proof {
            reveal_strlit("coordinator");
            reveal_strlit("worker");
            assert("coordinator"@.len() != "worker"@.len());
        }
        let role = String::from_str(role);
        if role == String::from_str("coordinator") {
            Role::Coordinator
        } else if role == String::from_str("worker") {
            Role::Worker
        } else {
            Role::Invalid(String::from_str("Invalid role. Choose 'coordinator' or 'worker'."))
        }
    }
}

/// What a miner is told who wants to claim rewards is that they come by themselves.
pub proof fn law_claim_notice()
    ensures
        claim_notice()
            == "Rewards will be automatically sent to your miner address once every hour if your pending balance is greater than 0.02 ORE."@,
{
}

} // verus!
