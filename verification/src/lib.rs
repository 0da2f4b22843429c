//! Finite-field arithmetic and short-Weierstrass elliptic-curve point groups
//! over small prime fields, together with the modular-arithmetic toolbox that
//! supports them: extended-Euclidean and Fermat inverses, modular square
//! roots, Lagrange interpolation, and a few self-contained protocol demos.

pub mod big_o_notation;
pub mod commit_reveal_pok;
pub mod conversion;
pub mod ec_point;
pub mod ec_projective;
pub mod eea_gcd;
pub mod extended_euclidean_algo;
pub mod feldman_vss;
pub mod fermat_little_theorem;
pub mod finite_field_element;
pub mod finite_field_mul_inv;
pub mod lagrange_interpolation;
pub mod modular_sqrt;
pub mod monoid;
pub mod nonce_reuse;
pub mod number_theory;
pub mod rsa_dp_old_attack;
