//! A harness that checks a geodesic solver program against reference values.
//!
//! The verified part holds the line grammar of the solver protocol, the
//! request encodings of each calculation, the running maxima of the error
//! dimensions, and the decisions of a validation session.
pub mod line;
pub mod calculation;
pub mod maximum;
pub mod session;
