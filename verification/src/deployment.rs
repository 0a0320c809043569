//! Data model for recorded contract deployments.
//!
//! A deployment run produces a [`DeploymentOutput`]: which network was
//! targeted, who administered the run, when it started, and the state
//! each contract reached.  The [`Deployer`] couples that record with the
//! path it is persisted at.  Reading the clock and loading or saving the
//! record are the caller's business; the constructors here only assemble
//! the values the caller hands in.

use vstd::prelude::*;

verus! {

/// Environment profiles a deployment can target.
#[derive(Debug, Clone, PartialEq, Eq)]
pub enum NetworkProfile {
    Dev,
    Testnet,
    Mainnet,
}

/// The states a contract moves through during a deployment run.
#[derive(Debug, Clone, PartialEq, Eq)]
pub enum ContractState {
    /// Deployment was requested but has not produced an address yet.
    Pending,
    /// The contract code is on chain at `address`.
    Deployed { address: String, wasm_hash: String },
    /// The deployed contract has also been initialized.
    Initialized { address: String, wasm_hash: String },
    /// The run gave up on this contract, with a reason.
    Failed(String),
}

/// The persisted record of one deployment run.  Contract states are kept
/// as a list of `(name, state)` pairs with unique names.
#[derive(Debug, Clone, PartialEq, Eq)]
pub struct DeploymentOutput {
    /// The network the run targeted.
    pub network: NetworkProfile,
    /// Address of the administrator that drove the run.
    pub admin_address: String,
    /// Per-contract outcome, keyed by contract name.
    pub contracts: Vec<(String, ContractState)>,
    /// When the run started, as seconds since the epoch.
    pub timestamp: u64,
}

impl DeploymentOutput {
    /// A fresh record for a run on `network` driven by `admin_address`,
    /// started at `timestamp`, with no contracts touched yet.
    pub fn new(network: NetworkProfile, admin_address: String, timestamp: u64) -> (r:
        DeploymentOutput)
        ensures
            r.network == network,
            r.admin_address == admin_address,
            r.contracts@.len() == 0,
            r.timestamp == timestamp,
    {
        DeploymentOutput { network, admin_address, contracts: Vec::new(), timestamp }
    }
}

/// A deployment manager: the record being built and where it is stored.
#[derive(Debug, Clone, PartialEq, Eq)]
pub struct Deployer {
    /// The record of the current run.
    pub output: DeploymentOutput,
    /// Where the caller persists `output`.
    pub storage_path: String,
}

impl Deployer {
    /// Resume or start a run.  The caller reads the clock and tries to
    /// load an existing record from `path`; whatever it found comes in as
    /// `loaded`, and a run on `network` under `admin` starts fresh at
    /// `timestamp` when there was none.
    pub fn new(
        network: NetworkProfile,
        admin: String,
        path: String,
        timestamp: u64,
        loaded: Option<DeploymentOutput>,
    ) -> (r: Deployer)
        ensures
            r.storage_path == path,
            loaded is Some ==> r.output == loaded->0,
            loaded is None ==> {
                &&& r.output.network == network
                &&& r.output.admin_address == admin
                &&& r.output.contracts@.len() == 0
                &&& r.output.timestamp == timestamp
            },
    {
        let output = match loaded {
            Some(out) => out,
            None => DeploymentOutput::new(network, admin, timestamp),
        };
        Deployer { output, storage_path: path }
    }
}

} // verus!
