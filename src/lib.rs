pub mod bigint;
pub mod modular;
pub mod curve;
pub mod sieve;
pub mod ecm;
pub mod primality;
pub mod montgomery;
pub mod tagging;
