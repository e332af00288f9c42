//! Why a read was refused, in a word every surface can translate.
//!
//! The refusal crosses an adapter error, the host's error type and the surface's
//! bridge, and every one of them carries only text. So the message starts with
//! a token from this enum, and the surfaces look the sentence up in their own
//! locale files:
//!
//! ```text
//! token-refused: users search (projects)
//! ```
//!
//! The token is the rule; the detail behind the colon names what the provider
//! wanted, in the provider's own words.

use vstd::prelude::*;

verus! {

/// The reason a read did not happen.
#[derive(Debug, Clone, Copy, PartialEq, Eq, Structural)]
pub enum ReadRefusal {
    /// The provider refused the account's token for this read. Either the
    /// token lacks the permission the read needs, or it is no longer valid,
    /// and the provider does not say which. The detail names the permission
    /// the read needs.
    TokenRefused,
}

impl ReadRefusal {
    pub open spec fn name(self) -> Seq<char> {
        match self {
            ReadRefusal::TokenRefused => "token-refused"@,
        }
    }

    /// The token that starts the message.
    pub fn token(self) -> (r: &'static str)
        ensures
            r@ == self.name(),
    {
        match self {
            ReadRefusal::TokenRefused => "token-refused",
        }
    }

    /// The message an adapter hands over: the token, then the detail.
    pub fn message(self, detail: &str) -> (r: String)
        ensures
            r@ == self.name() + ": "@ + detail@,
    {
        let mut out = self.token().to_owned();
        out.append(": ");
        out.append(detail);
        out
    }
}

} // verus!
