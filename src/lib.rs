pub mod field;
pub mod group;
pub mod polynomial;
pub mod shamir_secret_sharing;
pub mod pedersen_vss;
pub mod pedersen_dvss;
