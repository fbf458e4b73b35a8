//! Walk-forward route dispatch.
//!
//! A `RouteKey` of feature flags selects the walk-forward route; today
//! only the two single-asset routes exist and multi-asset keys are refused.
use vstd::prelude::*;
use vstd::string::*;

verus! {

/// Feature flags that select a walk-forward route; all default to `false`.
#[derive(Debug, Clone, Copy, PartialEq, Eq, Hash, Structural)]
pub struct RouteKey {
    pub regime: bool,
    pub multi_asset: bool,
    pub multi_leg: bool,
    pub record_costs: bool,
    pub hold_period_set: bool,
}

impl Default for RouteKey {
    fn default() -> (k: RouteKey)
        ensures
            !k.regime && !k.multi_asset && !k.multi_leg && !k.record_costs && !k.hold_period_set,
    {
        RouteKey {
            regime: false,
            multi_asset: false,
            multi_leg: false,
            record_costs: false,
            hold_period_set: false,
        }
    }
}

/// The routes that exist today.
#[derive(Debug, Clone, Copy, PartialEq, Eq, Hash, Structural)]
pub enum OrchestratorMode {
    /// Single asset, no regime segmentation.
    SingleNoRegime,
    /// Single asset with regime segmentation.
    SingleWithRegime,
}

/// Why a route key cannot be served.
#[derive(Debug, Clone, PartialEq, Eq)]
pub enum RouteError {
    NotYetSupported(String),
}

/// Explanation given for multi-asset keys.
pub open spec fn multi_asset_reason() -> Seq<char> {
    seq![
        'm', 'u', 'l', 't', 'i', '_', 'a', 's', 's', 'e', 't', ' ', 'r', 'o', 'u', 't', 'e', 's', ' ',
        's', 'h', 'i', 'p', ' ', 'w', 'i', 't', 'h', ' ', 't', 'h', 'e', ' ', 'p', 'a', 'n', 'e', 'l', ' ',
        'p', 'l', 'u', 'g', 'i', 'n', ' ', 'i', 'n', ' ', 'P', 'h', 'a', 's', 'e', ' ', '2'
    ]
}

/// Prefix of every rendered route error.
pub open spec fn route_error_prefix() -> Seq<char> {
    seq![
        'r', 'o', 'u', 't', 'e', ' ', 'n', 'o', 't', ' ', 's', 'u', 'p', 'p', 'o', 'r', 't', 'e', 'd', ':',
        ' '
    ]
}

impl RouteError {
    /// Human-readable rendering of the error.
    pub fn message(&self) -> (s: String)
        ensures
            match self {
                RouteError::NotYetSupported(msg) => s@ == route_error_prefix() + msg@,
            },
    {
        match self {
            RouteError::NotYetSupported(msg) => {
                let mut s = String::from_str("route not supported: ");
                proof {
                    reveal_strlit("route not supported: ");
                    assert(s@ =~= route_error_prefix());
                }
                s.append(msg.as_str());
                s
            },
        }
    }
}

/// The mode a key routes to, or `None` when the key is refused.
pub open spec fn spec_dispatch(key: RouteKey) -> Option<OrchestratorMode> {
    if key.multi_asset {
        None
    } else if key.regime {
        Some(OrchestratorMode::SingleWithRegime)
    } else {
        Some(OrchestratorMode::SingleNoRegime)
    }
}

/// Resolves a route key: multi-asset keys are refused, otherwise the
/// regime flag picks between the two single-asset routes.
pub fn dispatch(key: RouteKey) -> (r: Result<OrchestratorMode, RouteError>)
    ensures
        match r {
            Ok(m) => spec_dispatch(key) == Some(m),
            Err(RouteError::NotYetSupported(msg)) => spec_dispatch(key) is None && msg@ == multi_asset_reason(),
        },
{
    if key.multi_asset {
        let msg = String::from_str("multi_asset routes ship with the panel plugin in Phase 2");
        proof {
            reveal_strlit("multi_asset routes ship with the panel plugin in Phase 2");
            assert(msg@ =~= multi_asset_reason());
        }
        return Err(RouteError::NotYetSupported(msg));
    }
    if key.regime {
        Ok(OrchestratorMode::SingleWithRegime)
    } else {
        Ok(OrchestratorMode::SingleNoRegime)
    }
}

/// Only the regime and multi-asset flags decide the route: keys that agree
/// on those two flags route alike, whatever their other flags.
pub proof fn lemma_dispatch_reads_two_flags(a: RouteKey, b: RouteKey)
    requires
        a.regime == b.regime,
        a.multi_asset == b.multi_asset,
    ensures
        spec_dispatch(a) == spec_dispatch(b),
{
}

} // verus!
