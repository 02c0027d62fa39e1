//! The observable status of one bridge.

use crate::timestamp::Timestamp;
use vstd::prelude::*;

verus! {

/// What a [`BridgeResult`] says, as a mathematical value.
pub struct BridgeResultView {
    /// Whether the bridge answered its most recent probe.
    pub functional: bool,
    /// When that probe began.
    pub last_tested: Timestamp,
    /// Why the probe failed, where it did and a reason is known.
    pub error: Option<Seq<char>>,
}

impl BridgeResultView {
    /// A bridge that works carries no error.
    pub open spec fn coherent(self) -> bool {
        self.functional ==> self.error is None
    }
}

/// The status of one bridge as of its most recent probe.
///
/// A result that says `functional` never carries an error.
#[derive(Debug)]
pub struct BridgeResult {
    functional: bool,
    last_tested: Timestamp,
    error: Option<String>,
}

impl View for BridgeResult {
    type V = BridgeResultView;

    closed spec fn view(&self) -> BridgeResultView {
        BridgeResultView {
            functional: self.functional,
            last_tested: self.last_tested,
            error: match self.error {
                Some(e) => Some(e@),
                None => None,
            },
        }
    }
}

impl DeepView for BridgeResult {
    type V = BridgeResultView;

    open spec fn deep_view(&self) -> BridgeResultView {
        self@
    }
}

/// The result that a probe begun at `time` gives: `functional` exactly when a
/// channel was opened, and then without an error whatever was reported.
pub open spec fn probe_result(opened: bool, time: Timestamp, error: Option<Seq<char>>)
    -> BridgeResultView {
    BridgeResultView {
        functional: opened,
        last_tested: time,
        error: if opened {
            None
        } else {
            error
        },
    }
}

impl BridgeResult {
    #[verifier::type_invariant]
    spec fn inv(self) -> bool {
        self.functional ==> self.error is None
    }

    /// The result of a probe begun at `time`; see [`probe_result`].
    pub fn from_probe(opened: bool, time: Timestamp, error: Option<String>) -> (r: BridgeResult)
        ensures
            r@ == probe_result(opened, time, error.deep_view()),
            r@.coherent(),
    {
        if opened {
            BridgeResult { functional: true, last_tested: time, error: None }
        } else {
            BridgeResult { functional: false, last_tested: time, error }
        }
    }

    /// Whether the bridge answered its most recent probe.
    pub fn functional(&self) -> (b: bool)
        ensures
            b == self@.functional,
            self@.coherent(),
    {
        proof {
            use_type_invariant(self);
        }
        self.functional
    }

    /// When the most recent probe began.
    pub fn last_tested(&self) -> (t: Timestamp)
        ensures
            t == self@.last_tested,
    {
        self.last_tested
    }

    /// Why the most recent probe failed, where a reason is known.
    pub fn error(&self) -> (e: Option<&String>)
        ensures
            e.deep_view() == self@.error,
            self@.coherent(),
    {
        proof {
            use_type_invariant(self);
        }
        match &self.error {
            Some(e) => Some(e),
            None => None,
        }
    }

    /// Takes the result apart: `functional`, `last_tested`, `error`.
    pub fn into_parts(self) -> (parts: (bool, Timestamp, Option<String>))
        ensures
            parts.0 == self@.functional,
            parts.1 == self@.last_tested,
            parts.2.deep_view() == self@.error,
            self@.coherent(),
    {
        proof {
            use_type_invariant(&self);
        }
        (self.functional, self.last_tested, self.error)
    }
}

impl Clone for BridgeResult {
    fn clone(&self) -> (r: BridgeResult)
        ensures
            r@ == self@,
    {
        proof {
            use_type_invariant(self);
        }
        let error = match &self.error {
            Some(e) => Some(e.clone()),
            None => None,
        };
        BridgeResult { functional: self.functional, last_tested: self.last_tested, error }
    }
}

} // verus!
