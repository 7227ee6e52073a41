pub mod provisioner;
pub mod invariants;
