//! Opening an archive and its sidecar: what to do next, and what comes of it.
//!
//! The files are opened by the caller, who performs each step and says whether it
//! succeeded.
use vstd::prelude::*;

verus! {

/// What is to be done next, or what came of it.
#[derive(Clone, Copy, Debug, PartialEq, Eq, Structural)]
pub enum OpenStep {
    /// Open the parent archive.
    Parent,
    /// Open the sidecar.
    Sidecar,
    /// Attach the sidecar to the parent, which is used up by the attempt.
    Attach,
    /// Open the parent archive again.
    Reopen,
    /// There is no archive.
    Failed,
    /// The parent archive is open, without a sidecar.
    Plain,
    /// The parent archive is open with its sidecar.
    WithSidecar,
}

/// The steps of opening one archive.
#[derive(Clone, Copy, Debug, PartialEq, Eq, Structural)]
pub struct Opening {
    pub step: OpenStep,
    /// A sidecar was named.
    pub wants_sidecar: bool,
}

/// The step that follows, by whether this one succeeded. Nothing follows an
/// outcome.
pub open spec fn step_after(o: Opening, succeeded: bool) -> OpenStep {
    match o.step {
        OpenStep::Parent => if !succeeded {
            OpenStep::Failed
        } else if o.wants_sidecar {
            OpenStep::Sidecar
        } else {
            OpenStep::Plain
        },
        OpenStep::Sidecar => if succeeded {
            OpenStep::Attach
        } else {
            OpenStep::Plain
        },
        OpenStep::Attach => if succeeded {
            OpenStep::WithSidecar
        } else {
            OpenStep::Reopen
        },
        OpenStep::Reopen => if succeeded {
            OpenStep::Plain
        } else {
            OpenStep::Failed
        },
        OpenStep::Failed => OpenStep::Failed,
        OpenStep::Plain => OpenStep::Plain,
        OpenStep::WithSidecar => OpenStep::WithSidecar,
    }
}

/// Begins to open an archive, and its sidecar when one is named. Without a
/// readable path there is no archive.
pub fn osmflat_archive_open(path: Option<&str>, ext_path: Option<&str>) -> (r: Opening)
    ensures
        r.step == if path is Some {
            OpenStep::Parent
        } else {
            OpenStep::Failed
        },
        r.wants_sidecar == (ext_path is Some),
{
    let step: OpenStep = match path {
        Some(_) => OpenStep::Parent,
        None => OpenStep::Failed,
    };
    let wants_sidecar: bool = match ext_path {
        Some(_) => true,
        None => false,
    };
    Opening { step, wants_sidecar }
}

impl Opening {
    /// Goes on after the step was performed.
    pub fn advance(self, succeeded: bool) -> (r: Opening)
        ensures
            r.step == step_after(self, succeeded),
            r.wants_sidecar == self.wants_sidecar,
    {
        let step: OpenStep = match self.step {
            OpenStep::Parent => if !succeeded {
                OpenStep::Failed
            } else if self.wants_sidecar {
                OpenStep::Sidecar
            } else {
                OpenStep::Plain
            },
            OpenStep::Sidecar => if succeeded {
                OpenStep::Attach
            } else {
                OpenStep::Plain
            },
            OpenStep::Attach => if succeeded {
                OpenStep::WithSidecar
            } else {
                OpenStep::Reopen
            },
            OpenStep::Reopen => if succeeded {
                OpenStep::Plain
            } else {
                OpenStep::Failed
            },
            outcome => outcome,
        };
        Opening { step, wants_sidecar: self.wants_sidecar }
    }
}

/// How each step goes when it is performed.
pub struct Results {
    pub parent: bool,
    pub sidecar: bool,
    pub attach: bool,
    pub reopen: bool,
}

/// Whether a step succeeds.
pub open spec fn goes_well(results: Results, step: OpenStep) -> bool {
    match step {
        OpenStep::Parent => results.parent,
        OpenStep::Sidecar => results.sidecar,
        OpenStep::Attach => results.attach,
        OpenStep::Reopen => results.reopen,
        _ => true,
    }
}

/// The step after `n` steps.
pub open spec fn after_steps(o: Opening, results: Results, n: nat) -> OpenStep
    decreases n,
{
    if n == 0 {
        o.step
    } else {
        let before = after_steps(o, results, (n - 1) as nat);
        step_after(
            Opening { step: before, wants_sidecar: o.wants_sidecar },
            goes_well(results, before),
        )
    }
}

/// After at most four steps there is an outcome. It is a failure only if the
/// parent archive cannot be opened, at first or when it is opened again: a sidecar
/// that is missing, broken or made for another archive never is the reason. The
/// sidecar is in use exactly if it was named, opened and attached.
pub proof fn a_sidecar_never_keeps_an_archive_closed(wants_sidecar: bool, results: Results)
    ensures
        ({
            let outcome = after_steps(
                Opening { step: OpenStep::Parent, wants_sidecar },
                results,
                4,
            );
            let attached = wants_sidecar && results.sidecar && results.attach;
            let lost = wants_sidecar && results.sidecar && !results.attach;
            &&& outcome == OpenStep::Failed <==> !results.parent || (lost && !results.reopen)
            &&& outcome == OpenStep::WithSidecar <==> results.parent && attached
            &&& outcome == OpenStep::Failed || outcome == OpenStep::WithSidecar || outcome
                == OpenStep::Plain
        }),
{
    reveal_with_fuel(after_steps, 5);
}

} // verus!
