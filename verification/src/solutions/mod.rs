//! Solutions to number puzzles, built on the helpers of this crate.

pub mod p001_010;
pub mod p007_010_primes;
pub mod p008_series_product;
pub mod p011_grid_product;
pub mod p012_triangle_divisors;
pub mod p013_large_sum;
pub mod p014_collatz;
pub mod p015_lattice_paths;
pub mod p050_prime_sum;
pub mod p051_digit_replacement;
pub mod p076_sum_partition;
pub mod p078_coin_partition;
pub mod partition_rows;
pub mod p081_path_sum;
pub mod p084_monopoly;
pub mod p085_rectangles;
pub mod p087_prime_power_triples;
pub mod p089_roman;
pub mod p092_square_digit_chains;
pub mod p093_arithmetic;
pub mod p097_non_mersenne;
pub mod p099_base_exp;
pub mod p107_network;
pub mod p127_abc_hits;
pub mod p206_concealed_square;
pub mod p357_prime_generating_ints;
pub mod p719_number_splitting;
pub mod p751_concatenation;

pub use p001_010::p1;
pub use p001_010::p2;
pub use p001_010::p3;
pub use p001_010::p4;
pub use p001_010::p5;
pub use p001_010::p6;
pub use p001_010::p9;
pub use p007_010_primes::p10;
pub use p007_010_primes::p7;
pub use p008_series_product::p8;
pub use p011_grid_product::p011;
pub use p012_triangle_divisors::p12;
pub use p013_large_sum::p13;
pub use p014_collatz::p14;
pub use p015_lattice_paths::p015;
pub use p050_prime_sum::p50;
pub use p051_digit_replacement::p51;
pub use p076_sum_partition::p76;
pub use p078_coin_partition::p78;
pub use p081_path_sum::p81;
pub use p081_path_sum::p82;
pub use p081_path_sum::p83;
pub use p015_lattice_paths::p15;
