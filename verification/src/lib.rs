//! Elementary elliptic-curve arithmetic over a small prime field:
//! modular field elements, Weierstrass curve points with the group law,
//! two discrete-logarithm solvers, and Diffie-Hellman key agreement.

pub mod agreement;
pub mod closure;
pub mod discrete_logarithm_problem;
pub mod fermat;
pub mod finite_body;
pub mod point_elliptic_curve;
