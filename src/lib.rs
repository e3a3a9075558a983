//! An identity registry: per-account identity records carrying a bounded,
//! id-ordered list of judgements, a second keyed store of judgements kept
//! outside the record, and deposits sized to the encoded identity data.
//!
//! Setting a new identity drops the non-sticky judgements held inline in the
//! record and leaves the outside store as it is; clearing an identity removes
//! both.

pub mod balances;
pub mod deposit;
pub mod error;
pub mod info;
pub mod inline;
pub mod judgement;
pub mod registry;

pub use balances::Balances;
pub use deposit::{deposit_change, Config, DepositChange, InsufficientBalance, ReservableCurrency};
pub use error::Error;
pub use info::IdentityInfo;
pub use judgement::Judgement;
pub use registry::{Event, Pallet, Registration};
