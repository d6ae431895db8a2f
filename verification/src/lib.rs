//! A registry of jointly controlled accounts.
//!
//! A multi-signatory account is owned by a set of signatories who must
//! jointly approve a proposed action before it is handed to the host for
//! execution.  The registry owns every account record and offers six
//! operations: creating an account, proposing an action, approving it,
//! revoking an approval, adjusting the approval threshold, and removing a
//! pending action.  Every operation either commits all of its changes or
//! leaves the registry untouched and reports a specific error.

pub mod canonical;
pub mod types;
pub mod derivation;
pub mod registry;
pub mod laws;
