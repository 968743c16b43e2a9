pub mod linear_sieve;
pub mod monotonic;

pub use self::linear_sieve::linear_sieve;
pub use self::monotonic::is_monotonic;
