use vstd::prelude::*;

verus! {

/// Where the process stands with its one attempt to load the settings
/// module.
#[derive(Debug, PartialEq, Eq)]
pub enum LoadState {
    NotAttempted,
    Attempting,
    Loaded,
    Failed { reason: String },
}

/// What a use of the module boundary must do next.
#[derive(Debug, PartialEq, Eq)]
pub enum LoadStep {
    /// Load the module now, then record how that went.
    Attempt,
    /// The attempt is under way and has not been recorded yet.
    Pending,
    /// The module is loaded: call through it.
    Ready,
    /// The attempt failed; it is never made again.
    Unavailable { reason: String },
}

/// The record of the settings module's load: it is attempted at most once
/// per process, lazily, and its outcome, success or failure, is kept for
/// the rest of the process.
pub struct BottlerocketSettingsPluginRef {
    state: LoadState,
}

/// Marks the interface that a settings module implements: default,
/// deserialize and serialize, with equality and cloning through the
/// serialized form.
#[derive(Debug, PartialEq, Eq, Structural, Clone, Copy)]
pub struct BottlerocketSettingsInterface;

/// Produces a value built from a schema's declared defaults.
pub trait BottlerocketDefaults: Sized {
    /// Whether `v` is the schema's declared default value.
    spec fn is_default_value(v: Self) -> bool;

    fn defaults() -> (r: Self)
        ensures
            Self::is_default_value(r),
    ;
}

/// The state after one use of the boundary.
pub open spec fn after_use(s: LoadState) -> LoadState {
    match s {
        LoadState::NotAttempted => LoadState::Attempting,
        _ => s,
    }
}

impl BottlerocketSettingsPluginRef {
    pub closed spec fn state(&self) -> LoadState {
        self.state
    }

    /// No load has been attempted yet.
    pub fn new() -> (r: Self)
        ensures
            r.state() == LoadState::NotAttempted,
    {
        BottlerocketSettingsPluginRef { state: LoadState::NotAttempted }
    }

    /// Decides what a use of the boundary does: the first use is told to
    /// load the module, and every later one sees the recorded outcome.
    pub fn load(&mut self) -> (r: LoadStep)
        ensures
            final(self).state() == after_use(old(self).state()),
            old(self).state() == LoadState::NotAttempted ==> r == LoadStep::Attempt
                && final(self).state() == LoadState::Attempting,
            old(self).state() == LoadState::Attempting ==> r == LoadStep::Pending
                && final(self).state() == old(self).state(),
            old(self).state() == LoadState::Loaded ==> r == LoadStep::Ready
                && final(self).state() == old(self).state(),
            old(self).state() matches LoadState::Failed { reason } ==> (r matches LoadStep::Unavailable {
                reason: given,
            } && given@ == reason@ && final(self).state() == old(self).state()),
    {
        match &self.state {
            LoadState::NotAttempted => {
                self.state = LoadState::Attempting;
                LoadStep::Attempt
            },
            LoadState::Attempting => LoadStep::Pending,
            LoadState::Loaded => LoadStep::Ready,
            LoadState::Failed { reason } => LoadStep::Unavailable { reason: reason.clone() },
        }
    }

    /// Records how the one attempt went.
    pub fn record(&mut self, outcome: Result<(), String>)
        requires
            old(self).state() == LoadState::Attempting,
        ensures
            outcome is Ok ==> final(self).state() == LoadState::Loaded,
            outcome matches Err(reason) ==> final(self).state() == (LoadState::Failed { reason }),
    {
        self.state = match outcome {
            Ok(()) => LoadState::Loaded,
            Err(reason) => LoadState::Failed { reason },
        };
    }
}

/// The module is loaded at most once: after any use of the boundary the
/// state is past `NotAttempted`, which is the only state that asks for an
/// attempt; and once recorded, an outcome (a success or a failure) stays
/// as it is through every later use.
pub proof fn lemma_single_load(s: LoadState)
    ensures
        after_use(s) != LoadState::NotAttempted,
        after_use(after_use(s)) == after_use(s),
        s == LoadState::Loaded || s is Failed ==> after_use(s) == s,
{
}

} // verus!
