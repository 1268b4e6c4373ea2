//! Lifecycle of a check: the busy slot, the inputs, the cancellation token and
//! the result.
//!
//! A checker runs one check at a time. The slot is claimed before anything
//! else happens, given back on every failure before the native job starts,
//! and held by the job until it has drained, even where its caller is gone.
use super::native::{
    collect_diagnostics, inputs_of, row_diagnostic, row_diagnostics, sort_diagnostics,
    sorted_diagnostics, CheckCall, InputsModel, OwnedCheckInputs, RawDiagnostic,
};
use super::plan::passes;
use super::{
    has_some, AnalysisError, AnalysisFault, CancellationToken, CheckModel, CheckOptions,
    CheckResult, CheckerOptions, Severity,
};
use crate::resolver::ModuleId;
use vstd::prelude::*;

verus! {

/// The in-flight state of a checker.
#[derive(Debug, Clone, Copy, PartialEq, Eq, Structural)]
pub struct CheckerHandle {
    /// Set while a check or a definition load is in flight.
    pub busy: bool,
}

impl CheckerHandle {
    /// A handle that nothing runs on.
    pub fn new() -> (r: Self)
        ensures
            !r.busy,
    {
        CheckerHandle { busy: false }
    }

    /// Claims the slot, or tells that it is taken.
    pub fn claim(&mut self) -> (r: Result<(), AnalysisError>)
        ensures
            final(self).busy,
            r is Ok <==> !old(self).busy,
            r matches Err(e) ==> e@ == AnalysisFault::Busy,
    {
        if self.busy {
            Err(AnalysisError::Busy)
        } else {
            self.busy = true;
            Ok(())
        }
    }

    /// Gives the slot back.
    pub fn clear_busy(&mut self)
        ensures
            !final(self).busy,
    {
        self.busy = false;
    }
}

/// What a check has to do next.
#[derive(Debug)]
pub enum CheckStep {
    /// Make a fresh token, then go on with these inputs.
    CreateToken(OwnedCheckInputs),
    /// Run the native check; the job owns the slot from here on.
    Run(OwnedCheckInputs, CancellationToken),
    /// Return this error; the slot was not taken or has been given back.
    Fail(AnalysisError),
}

/// Model of a [`CheckStep`].
pub enum StepModel {
    CreateToken(InputsModel),
    Run(InputsModel, CancellationToken),
    Fail(AnalysisFault),
}

impl CheckStep {
    pub open spec fn view(&self) -> StepModel {
        match self {
            CheckStep::CreateToken(inputs) => StepModel::CreateToken(inputs@),
            CheckStep::Run(inputs, token) => StepModel::Run(inputs@, *token),
            CheckStep::Fail(e) => StepModel::Fail(e@),
        }
    }

    /// The inputs of a step are well-formed.
    pub open spec fn wf(&self) -> bool {
        match self {
            CheckStep::CreateToken(inputs) => inputs.wf(),
            CheckStep::Run(inputs, _) => inputs.wf(),
            CheckStep::Fail(_) => true,
        }
    }
}

/// How a check starts: not at all where one is in flight or an input is too
/// large, and otherwise with the token of the call or a fresh one.
pub open spec fn first_step(
    busy: bool,
    source: Seq<char>,
    call: CheckCall,
    defaults: CheckerOptions,
) -> StepModel {
    if busy {
        StepModel::Fail(AnalysisFault::Busy)
    } else {
        match inputs_of(source, call, defaults) {
            Err(e) => StepModel::Fail(e),
            Ok(inputs) => match call.cancellation_token {
                Some(token) => StepModel::Run(inputs, token),
                None => StepModel::CreateToken(inputs),
            },
        }
    }
}

/// Starts a check: claims the slot, copies the inputs, and takes the token of
/// the caller where there is one. The slot is taken exactly where the check
/// goes on or was in flight before.
pub fn begin_check(
    handle: &mut CheckerHandle,
    source: &str,
    options: &CheckOptions<'_>,
    defaults: &CheckerOptions,
) -> (r: CheckStep)
    ensures
        r.wf(),
        r@ == first_step(old(handle).busy, source@, options@, *defaults),
        final(handle).busy == (old(handle).busy || !(r is Fail)),
{
    match handle.claim() {
        Ok(()) => {},
        Err(e) => {
            return CheckStep::Fail(e);
        },
    }
    match OwnedCheckInputs::from_borrowed(source, options, defaults) {
        Err(e) => {
            handle.clear_busy();
            CheckStep::Fail(e)
        },
        Ok(inputs) => match options.cancellation_token {
            Some(token) => CheckStep::Run(inputs, token),
            None => CheckStep::CreateToken(inputs),
        },
    }
}

/// Goes on after a token was asked for; `None` tells that it could not be made.
pub fn with_token(
    handle: &mut CheckerHandle,
    inputs: OwnedCheckInputs,
    token: Option<CancellationToken>,
) -> (r: CheckStep)
    requires
        old(handle).busy,
    ensures
        match r {
            CheckStep::Run(i, t) => i == inputs && token == Some(t) && final(handle).busy,
            CheckStep::Fail(e) => token is None && e@
                == AnalysisFault::CreateCancellationTokenFailed && !final(handle).busy,
            CheckStep::CreateToken(_) => false,
        },
{
    match token {
        Some(token) => CheckStep::Run(inputs, token),
        None => {
            handle.clear_busy();
            CheckStep::Fail(AnalysisError::CreateCancellationTokenFailed)
        },
    }
}

/// Reply of the native checker.
#[derive(Debug)]
pub struct RawCheckResult {
    pub diagnostics: Vec<RawDiagnostic>,
    pub timed_out: u32,
    pub cancelled: u32,
}

/// How a native job ended.
#[derive(Debug)]
pub enum CheckOutcome {
    /// The native checker returned.
    Completed(RawCheckResult),
    /// The job panicked or the runtime dropped it.
    JobFailed(String),
    /// The caller went away while the job was running.
    Abandoned,
}

/// Whether `m` is the result of a native reply for a module: its flags, and
/// its diagnostics in order.
pub open spec fn result_of(m: CheckModel, raw: RawCheckResult, module: Seq<char>) -> bool {
    &&& sorted_diagnostics(m.diagnostics)
    &&& m.diagnostics.to_multiset() == row_diagnostics(raw.diagnostics@, module).to_multiset()
    &&& m.timed_out == (raw.timed_out != 0)
    &&& m.cancelled == (raw.cancelled != 0)
}

/// Decodes the reply of the native checker.
pub fn decode_check(raw: &RawCheckResult, module: &ModuleId) -> (r: CheckResult)
    ensures
        result_of(r@, *raw, module@),
{
    let diagnostics = sort_diagnostics(collect_diagnostics(raw.diagnostics.as_slice(), module));
    CheckResult { diagnostics, timed_out: raw.timed_out != 0, cancelled: raw.cancelled != 0 }
}

/// Ends a check. The first result is what the caller gets, where it is still
/// there; the second tells whether the token must be signalled: it stays clean
/// only after a check that completed. A job that is still draining keeps the
/// slot.
pub fn finish_check(handle: &mut CheckerHandle, module: &ModuleId, outcome: CheckOutcome) -> (r: (
    Option<Result<CheckResult, AnalysisError>>,
    bool,
))
    requires
        old(handle).busy,
    ensures
        match outcome {
            CheckOutcome::Completed(raw) => !final(handle).busy && !r.1 && (r.0 matches Some(Ok(c))
                && result_of(c@, raw, module@)),
            CheckOutcome::JobFailed(message) => !final(handle).busy && r.1 && (
            r.0 matches Some(Err(e)) && e@ == AnalysisFault::BlockingTask(message@)),
            CheckOutcome::Abandoned => final(handle).busy && r.1 && r.0 is None,
        },
{
    match outcome {
        CheckOutcome::Completed(raw) => {
            handle.clear_busy();
            (Some(Ok(decode_check(&raw, module))), false)
        },
        CheckOutcome::JobFailed(message) => {
            handle.clear_busy();
            (Some(Err(AnalysisError::BlockingTask(message))), true)
        },
        CheckOutcome::Abandoned => (None, true),
    }
}

/// A checker runs one check at a time: while one is in flight the next one is
/// refused, and otherwise a check is refused only for an input that is too
/// large. What goes on to the native checker are the inputs of the call, with
/// the token of the call where it has one.
pub proof fn law_one_check_at_a_time(
    busy: bool,
    source: Seq<char>,
    call: CheckCall,
    defaults: CheckerOptions,
)
    ensures
        busy ==> first_step(busy, source, call, defaults) == StepModel::Fail(AnalysisFault::Busy),
        first_step(busy, source, call, defaults) is Fail <==> busy || inputs_of(
            source,
            call,
            defaults,
        ) is Err,
        !busy ==> (inputs_of(source, call, defaults) matches Ok(inputs) ==> (
        call.cancellation_token matches Some(token) ==> first_step(busy, source, call, defaults)
            == StepModel::Run(inputs, token))),
        !busy && call.cancellation_token is None ==> (inputs_of(
            source,
            call,
            defaults,
        ) matches Ok(inputs) ==> first_step(busy, source, call, defaults)
            == StepModel::CreateToken(inputs)),
{
}

/// A reply of the native checker passes only where it has no error row and was
/// neither timed out nor cancelled, whatever the order of its rows.
pub proof fn law_native_errors_fail_the_check(m: CheckModel, raw: RawCheckResult, module: Seq<char>)
    requires
        result_of(m, raw, module),
    ensures
        passes(m) <==> raw.timed_out == 0 && raw.cancelled == 0 && forall|k: int|
            0 <= k < raw.diagnostics@.len() ==> (#[trigger] raw.diagnostics@[k]).severity != 0,
        m.diagnostics.len() == raw.diagnostics@.len(),
{
    broadcast use vstd::seq_lib::group_to_multiset_ensures;

    let rows = row_diagnostics(raw.diagnostics@, module);
    let all = m.diagnostics;
    assert(all.to_multiset().len() == rows.to_multiset().len());
    assert forall|k: int|
        0 <= k < rows.len() && (#[trigger] raw.diagnostics@[k]).severity == 0 implies has_some(
        all,
        Severity::Error,
    ) by {
        assert(rows[k].severity == Severity::Error);
        assert(rows.contains(rows[k]));
        assert(all.to_multiset().count(rows[k]) > 0);
        assert(all.contains(rows[k]));
    }
    if has_some(all, Severity::Error) {
        let i = choose|i: int| 0 <= i < all.len() && (#[trigger] all[i]).severity == Severity::Error;
        assert(all.contains(all[i]));
        assert(rows.to_multiset().count(all[i]) > 0);
        assert(rows.contains(all[i]));
        let k = rows.index_of(all[i]);
        assert(rows[k] == row_diagnostic(raw.diagnostics@[k], module));
        assert(raw.diagnostics@[k].severity == 0);
    }
}

} // verus!
