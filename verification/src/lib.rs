//! Transitive dependency resolution over a package manifest.
//!
//! A manifest ("invoice") groups its artifacts ("parcels") into named group
//! labels; a parcel expresses its dependencies indirectly, as a list of group
//! labels it requires.  This crate answers structural queries about parcels
//! and invoices and computes, for a starting parcel, the complete
//! deduplicated set of parcels it transitively requires.

pub mod closure;
pub mod connection;
pub mod index;
pub mod model;
pub mod resolver;

pub use connection::{AuthMethod, BindleConnectionInfo};
pub use index::{InvoiceHelpers, ParcelHelpers};
pub use model::{Conditions, Invoice, Label, Parcel};
