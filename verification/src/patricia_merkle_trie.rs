pub mod pmt_proof;
pub mod state_root;
