//! Resolution, verified fetching and extraction planning for packages of a
//! vendor component manifest, and case repair of the extracted header tree.
pub mod model;
pub mod resolve;
pub mod directive;
pub mod casefix;
pub mod fetch;
pub mod extract;
