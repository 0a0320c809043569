use stellarcade::deployment::{ContractState, Deployer, DeploymentOutput, NetworkProfile};
use stellarcade::docgen::{DocGenerator, GeneratorState};

#[test]
fn test_deployment_output_new() {
    let out = DeploymentOutput::new(NetworkProfile::Testnet, String::from("GAdmin"), 1700000000);
    assert_eq!(out.network, NetworkProfile::Testnet);
    assert_eq!(out.admin_address, "GAdmin");
    assert!(out.contracts.is_empty());
    assert_eq!(out.timestamp, 1700000000);
}

#[test]
fn test_deployer_new_fresh() {
    let d = Deployer::new(
        NetworkProfile::Dev,
        String::from("GAdmin"),
        String::from("deployments.json"),
        42,
        None,
    );
    assert_eq!(d.storage_path, "deployments.json");
    assert_eq!(d.output.network, NetworkProfile::Dev);
    assert_eq!(d.output.admin_address, "GAdmin");
    assert_eq!(d.output.timestamp, 42);
    assert!(d.output.contracts.is_empty());
}

#[test]
fn test_deployer_new_resumes_loaded_record() {
    let mut loaded = DeploymentOutput::new(NetworkProfile::Mainnet, String::from("GAdmin"), 7);
    loaded.contracts.push((
        String::from("staking"),
        ContractState::Deployed {
            address: String::from("C_staking_7"),
            wasm_hash: String::from("W_staking"),
        },
    ));
    let d = Deployer::new(
        NetworkProfile::Dev,
        String::from("GOther"),
        String::from("deployments.json"),
        99,
        Some(loaded.clone()),
    );
    // A loaded record wins over the fresh-run arguments.
    assert_eq!(d.output, loaded);
    assert_eq!(d.storage_path, "deployments.json");
}

#[test]
fn test_doc_generator_new() {
    let g = DocGenerator::new(String::from("contracts"), String::from("docs/contracts"));
    assert_eq!(g.base_path, "contracts");
    assert_eq!(g.output_path, "docs/contracts");
    assert_eq!(g.state, GeneratorState::Idle);
}
