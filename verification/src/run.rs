//! The order in which a measurement does its work.
//!
//! The work itself happens elsewhere: a run says what to do next, and is told when it is done.

use crate::launch::{StatusError, VerifyError};
use vstd::prelude::*;

verus! {

/// What a measurement of Parquet decompression does next.
#[derive(Clone, Copy, Debug, PartialEq, Eq, Structural)]
pub enum ParquetAction {
    /// Stage the row group's chunks, launch its decompression and wait for it, which alone is
    /// measured; then release the chunks.
    Decompress(usize),
    /// Compare the row group's output with the host decoder, and release it.
    Verify(usize),
    /// Check the row group's status and size tables.
    CheckStatuses(usize),
    /// Report the time taken.
    Finish,
}

/// What came of an action.
#[derive(Clone, Copy, Debug, PartialEq, Eq)]
pub enum ParquetEvent {
    /// The row group was decompressed.
    Decompressed {
        /// In so many nanoseconds.
        took: u64,
    },
    /// The row group's output was compared with the host decoder.
    Verified(Result<(), VerifyError>),
    /// The row group's tables were checked.
    Checked(Result<(), StatusError>),
}

/// Why a measurement reports no time.
#[derive(Clone, Copy, Debug, PartialEq, Eq, Structural)]
pub enum CheckFailed {
    /// A row group's output is not what the host decoder makes of it.
    Verification {
        /// The row group.
        row_group: usize,
        /// The first page that is not.
        difference: VerifyError,
    },
    /// A row group's tables report a page that was not decompressed.
    Status {
        /// The row group.
        row_group: usize,
        /// The first such page.
        error: StatusError,
    },
}

/// The time that an event adds to the measurement: that of decompression alone.
pub open spec fn took_by(event: ParquetEvent) -> int {
    match event {
        ParquetEvent::Decompressed { took } => took as int,
        _ => 0,
    }
}

/// A measurement of Parquet decompression under way.
///
/// Row groups are decompressed one at a time, so that the device never holds more than one.
/// Their tables are checked at the end, outside the measurement but on every run.
#[derive(Clone, Copy, Debug, PartialEq, Eq, Structural)]
pub struct ParquetRun {
    /// How many row groups there are.
    pub row_groups: usize,
    /// Whether the output is compared with the host decoder.
    pub verify: bool,
    /// What to do next.
    pub action: ParquetAction,
    /// Nanoseconds measured so far.
    pub elapsed: u128,
}

/// How many actions a row group takes until its tables are checked.
pub open spec fn actions_per_group(verify: bool) -> int {
    if verify {
        2
    } else {
        1
    }
}

/// All that a measurement does, in order: every row group decompressed and, if asked for,
/// verified at once; then all tables checked.
pub open spec fn parquet_script(row_groups: usize, verify: bool) -> Seq<ParquetAction> {
    let width = actions_per_group(verify);
    let worked = row_groups * width;
    Seq::new(
        (worked + row_groups + 1) as nat,
        |k: int|
            if k < worked {
                if k % width == 0 {
                    ParquetAction::Decompress((k / width) as usize)
                } else {
                    ParquetAction::Verify((k / width) as usize)
                }
            } else if k < worked + row_groups {
                ParquetAction::CheckStatuses((k - worked) as usize)
            } else {
                ParquetAction::Finish
            },
    )
}

impl ParquetRun {
    /// How many actions are behind the run.
    pub open spec fn step(self) -> int {
        let width = actions_per_group(self.verify);
        match self.action {
            ParquetAction::Decompress(i) => i * width,
            ParquetAction::Verify(i) => i * width + 1,
            ParquetAction::CheckStatuses(i) => self.row_groups * width + i,
            ParquetAction::Finish => self.row_groups * width + self.row_groups,
        }
    }

    /// How many row groups were decompressed.
    pub open spec fn decompressed(self) -> int {
        match self.action {
            ParquetAction::Decompress(i) => i as int,
            ParquetAction::Verify(i) => i + 1,
            _ => self.row_groups as int,
        }
    }

    /// Whether the run is on its script, with no more time measured than can be.
    pub open spec fn wf(self) -> bool {
        &&& 0 <= self.step() < parquet_script(self.row_groups, self.verify).len()
        &&& self.action == parquet_script(self.row_groups, self.verify)[self.step()]
        &&& self.elapsed <= self.decompressed() * u64::MAX
    }

    /// A measurement that has done nothing yet.
    pub open spec fn initial(row_groups: usize, verify: bool) -> ParquetRun {
        ParquetRun {
            row_groups,
            verify,
            action: parquet_script(row_groups, verify)[0],
            elapsed: 0,
        }
    }

    /// Whether `event` can come of the run's action.
    pub open spec fn awaits(self, event: ParquetEvent) -> bool {
        match (self.action, event) {
            (ParquetAction::Decompress(_), ParquetEvent::Decompressed { .. }) => true,
            (ParquetAction::Verify(_), ParquetEvent::Verified(_)) => true,
            (ParquetAction::CheckStatuses(_), ParquetEvent::Checked(_)) => true,
            _ => false,
        }
    }

    /// The next action of the script, with so much more time measured.
    pub open spec fn advanced(self, took: u64) -> ParquetRun {
        ParquetRun {
            action: parquet_script(self.row_groups, self.verify)[self.step() + 1],
            elapsed: (self.elapsed + took) as u128,
            ..self
        }
    }

    /// Where an event takes the run: on to the next action, unless a check failed.
    pub open spec fn after(self, event: ParquetEvent) -> Result<ParquetRun, CheckFailed> {
        match (self.action, event) {
            (ParquetAction::Verify(i), ParquetEvent::Verified(Err(error))) => Err(
                CheckFailed::Verification { row_group: i, difference: error },
            ),
            (ParquetAction::CheckStatuses(i), ParquetEvent::Checked(Err(error))) => Err(
                CheckFailed::Status { row_group: i, error },
            ),
            (_, ParquetEvent::Decompressed { took }) => Ok(self.advanced(took)),
            _ => Ok(self.advanced(0)),
        }
    }

    /// Starts a measurement.
    pub fn start(row_groups: usize, verify: bool) -> (run: Self)
        ensures
            run == ParquetRun::initial(row_groups, verify),
            run.wf(),
            run.step() == 0,
            run.row_groups == row_groups,
            run.verify == verify,
            run.elapsed == 0,
            run.action == if row_groups > 0 {
                ParquetAction::Decompress(0)
            } else {
                ParquetAction::Finish
            },
    {
        let action: ParquetAction = if row_groups > 0 {
            ParquetAction::Decompress(0)
        } else {
            ParquetAction::Finish
        };
        let run = ParquetRun { row_groups, verify, action, elapsed: 0 };
        proof {
            lemma_initial(row_groups, verify);
        }
        run
    }

    /// Takes note of what came of the action, and goes on to the next. Fails where a row group
    /// did not pass its check or its verification, so that no time is reported of it. Only
    /// the time of decompression counts.
    pub fn on(self, event: ParquetEvent) -> (next: Result<Self, CheckFailed>)
        requires
            self.wf(),
            self.awaits(event),
        ensures
            next == self.after(event),
            next matches Ok(run) ==> run.wf() && run.step() == self.step() + 1,
            next matches Ok(run) ==> run.row_groups == self.row_groups && run.verify == self.verify,
            match (self.action, event, next) {
                (
                    ParquetAction::Decompress(i),
                    ParquetEvent::Decompressed { took },
                    Ok(run),
                ) => run.elapsed == self.elapsed + took && run.action == if self.verify {
                    ParquetAction::Verify(i)
                } else if i + 1 < self.row_groups {
                    ParquetAction::Decompress((i + 1) as usize)
                } else {
                    ParquetAction::CheckStatuses(0)
                },
                (
                    ParquetAction::Verify(i),
                    ParquetEvent::Verified(Ok(_)),
                    Ok(run),
                ) => run.elapsed == self.elapsed && run.action == if i + 1 < self.row_groups {
                    ParquetAction::Decompress((i + 1) as usize)
                } else {
                    ParquetAction::CheckStatuses(0)
                },
                (
                    ParquetAction::Verify(i),
                    ParquetEvent::Verified(Err(error)),
                    Err(CheckFailed::Verification { row_group, difference }),
                ) => row_group == i && difference == error,
                (
                    ParquetAction::CheckStatuses(i),
                    ParquetEvent::Checked(Ok(_)),
                    Ok(run),
                ) => run.elapsed == self.elapsed && run.action == if i + 1 < self.row_groups {
                    ParquetAction::CheckStatuses((i + 1) as usize)
                } else {
                    ParquetAction::Finish
                },
                (
                    ParquetAction::CheckStatuses(i),
                    ParquetEvent::Checked(Err(error)),
                    Err(CheckFailed::Status { row_group, error: reported }),
                ) => row_group == i && reported == error,
                _ => false,
            },
    {
        proof {
            lemma_advances(self, event);
        }
        match (self.action, event) {
            (ParquetAction::Decompress(i), ParquetEvent::Decompressed { took }) => {
                let action: ParquetAction = if self.verify {
                    ParquetAction::Verify(i)
                } else {
                    self.past(i)
                };
                Ok(ParquetRun { action, elapsed: self.elapsed + took as u128, ..self })
            },
            (ParquetAction::Verify(i), ParquetEvent::Verified(Err(error))) => Err(
                CheckFailed::Verification { row_group: i, difference: error },
            ),
            (ParquetAction::Verify(i), _) => {
                let action: ParquetAction = self.past(i);
                Ok(ParquetRun { action, ..self })
            },
            (ParquetAction::CheckStatuses(i), ParquetEvent::Checked(Err(error))) => Err(
                CheckFailed::Status { row_group: i, error },
            ),
            (ParquetAction::CheckStatuses(i), _) => {
                let action: ParquetAction = if i + 1 < self.row_groups {
                    ParquetAction::CheckStatuses(i + 1)
                } else {
                    ParquetAction::Finish
                };
                Ok(ParquetRun { action, ..self })
            },
            _ => Ok(self),
        }
    }

    /// What follows the work on row group `i`.
    fn past(&self, i: usize) -> (action: ParquetAction)
        requires
            i < self.row_groups,
        ensures
            action == past_row_group(self.row_groups, i),
    {
        if i + 1 < self.row_groups {
            ParquetAction::Decompress(i + 1)
        } else {
            ParquetAction::CheckStatuses(0)
        }
    }
}

/// What follows the work on row group `i`: the next one, or the first check.
spec fn past_row_group(row_groups: usize, i: usize) -> ParquetAction {
    if i + 1 < row_groups {
        ParquetAction::Decompress((i + 1) as usize)
    } else {
        ParquetAction::CheckStatuses(0)
    }
}

/// What follows an action on a row group that there is.
spec fn following(run: ParquetRun) -> ParquetAction {
    match run.action {
        ParquetAction::Decompress(i) => if run.verify {
            ParquetAction::Verify(i)
        } else {
            past_row_group(run.row_groups, i)
        },
        ParquetAction::Verify(i) => past_row_group(run.row_groups, i),
        ParquetAction::CheckStatuses(i) => if i + 1 < run.row_groups {
            ParquetAction::CheckStatuses((i + 1) as usize)
        } else {
            ParquetAction::Finish
        },
        ParquetAction::Finish => ParquetAction::Finish,
    }
}

/// A measurement starts at the first action of its script.
proof fn lemma_initial(row_groups: usize, verify: bool)
    ensures
        ParquetRun::initial(row_groups, verify).wf(),
        ParquetRun::initial(row_groups, verify).step() == 0,
        ParquetRun::initial(row_groups, verify).action == if row_groups > 0 {
            ParquetAction::Decompress(0)
        } else {
            ParquetAction::Finish
        },
{
    let width = actions_per_group(verify);
    assert(0 * width == 0 && row_groups * width >= row_groups) by (nonlinear_arith)
        requires
            width >= 1,
            row_groups >= 0,
    ;
}

/// An event that a run awaits, and that fails no check, takes it one step along its script.
proof fn lemma_advances(run: ParquetRun, event: ParquetEvent)
    requires
        run.wf(),
        run.awaits(event),
    ensures
        match run.action {
            ParquetAction::Decompress(i) => i < run.row_groups,
            ParquetAction::Verify(i) => i < run.row_groups && run.verify,
            ParquetAction::CheckStatuses(i) => i < run.row_groups,
            ParquetAction::Finish => true,
        },
        run.action is Decompress ==> run.elapsed + u64::MAX <= u128::MAX,
        run.after(event) matches Ok(next) ==> {
            &&& next.action == following(run)
            &&& next.wf()
            &&& next.step() == run.step() + 1
            &&& next.row_groups == run.row_groups
            &&& next.verify == run.verify
            &&& next.elapsed == run.elapsed + took_by(event)
        },
{
    let width = actions_per_group(run.verify);
    lemma_on_script(run);
    let took = took_by(event) as u64;
    if let ParquetAction::Decompress(i) = run.action {
        assert(i * u64::MAX + u64::MAX == (i + 1) * u64::MAX);
        assert((i + 1) * u64::MAX <= u128::MAX) by (nonlinear_arith)
            requires
                0 <= i < u64::MAX,
        ;
    }
    if let ParquetAction::Decompress(i) | ParquetAction::Verify(i) = run.action {
        assert((i + 1) * width == i * width + width) by (nonlinear_arith);
    }
    let next = ParquetRun {
        action: following(run),
        elapsed: (run.elapsed + took) as u128,
        ..run
    };
    lemma_script_positions(next);
    assert(next.step() == run.step() + 1);
    assert(next == run.advanced(took));
}

/// A run that is on its script works on a row group that there is.
proof fn lemma_on_script(run: ParquetRun)
    requires
        run.wf(),
    ensures
        match run.action {
            ParquetAction::Decompress(i) => i < run.row_groups,
            ParquetAction::Verify(i) => i < run.row_groups && run.verify,
            ParquetAction::CheckStatuses(i) => i < run.row_groups,
            ParquetAction::Finish => true,
        },
{
    let n = run.row_groups as int;
    if run.verify {
        assert(n * 2 >= 0);
    }
}

/// An action on a row group that there is stands in the script where the run counts it.
proof fn lemma_script_positions(run: ParquetRun)
    requires
        match run.action {
            ParquetAction::Decompress(i) => i < run.row_groups,
            ParquetAction::Verify(i) => i < run.row_groups && run.verify,
            ParquetAction::CheckStatuses(i) => i < run.row_groups,
            ParquetAction::Finish => true,
        },
    ensures
        0 <= run.step() < parquet_script(run.row_groups, run.verify).len(),
        run.action == parquet_script(run.row_groups, run.verify)[run.step()],
{
}

/// A measurement that verifies does what one that does not does, in the same order, and
/// besides compares each row group before it goes on to another.
pub proof fn law_verification_follows_decompression(row_groups: usize, i: int)
    requires
        0 <= i < row_groups,
    ensures
        parquet_script(row_groups, false)[i] == ParquetAction::Decompress(i as usize),
        parquet_script(row_groups, true)[2 * i] == ParquetAction::Decompress(i as usize),
        parquet_script(row_groups, true)[2 * i + 1] == ParquetAction::Verify(i as usize),
        parquet_script(row_groups, false)[row_groups + i] == ParquetAction::CheckStatuses(
            i as usize,
        ),
        parquet_script(row_groups, true)[2 * row_groups + i] == ParquetAction::CheckStatuses(
            i as usize,
        ),
        parquet_script(row_groups, false)[2 * row_groups] == ParquetAction::Finish,
        parquet_script(row_groups, true)[3 * row_groups] == ParquetAction::Finish,
        parquet_script(row_groups, false).len() == 2 * row_groups + 1,
        parquet_script(row_groups, true).len() == 3 * row_groups + 1,
{
}

/// Where a run stands after events; the check that failed; or `None` where some event was not
/// one that the run awaited.
pub open spec fn parquet_run_after(run: ParquetRun, events: Seq<ParquetEvent>) -> Option<
    Result<ParquetRun, CheckFailed>,
>
    decreases events.len(),
{
    if events.len() == 0 {
        Some(Ok(run))
    } else {
        match parquet_run_after(run, events.drop_last()) {
            Some(Ok(before)) => if before.awaits(events.last()) {
                Some(before.after(events.last()))
            } else {
                None
            },
            _ => None,
        }
    }
}

/// Whether an event says that an action was done, and that what it checked is as it should be.
pub open spec fn passed(action: ParquetAction, event: ParquetEvent) -> bool {
    match (action, event) {
        (ParquetAction::Decompress(_), ParquetEvent::Decompressed { .. }) => true,
        (ParquetAction::Verify(_), ParquetEvent::Verified(Ok(_))) => true,
        (ParquetAction::CheckStatuses(_), ParquetEvent::Checked(Ok(_))) => true,
        _ => false,
    }
}

/// The time of all decompressions.
pub open spec fn measured(events: Seq<ParquetEvent>) -> int
    decreases events.len(),
{
    if events.len() == 0 {
        0
    } else {
        measured(events.drop_last()) + took_by(events.last())
    }
}

/// A run that no check has ended passed every check so far, and has measured the time of
/// every decompression so far.
proof fn lemma_run_passed_so_far(row_groups: usize, verify: bool, events: Seq<ParquetEvent>)
    requires
        parquet_run_after(ParquetRun::initial(row_groups, verify), events) matches Some(Ok(_)),
    ensures
        ({
            let run = parquet_run_after(
                ParquetRun::initial(row_groups, verify),
                events,
            )->Some_0->Ok_0;
            &&& run.wf()
            &&& run.row_groups == row_groups
            &&& run.verify == verify
            &&& run.step() == events.len()
            &&& run.elapsed == measured(events)
            &&& forall|k: int|
                0 <= k < events.len() ==> passed(
                    parquet_script(row_groups, verify)[k],
                    #[trigger] events[k],
                )
        }),
    decreases events.len(),
{
    if events.len() == 0 {
        lemma_initial(row_groups, verify);
    } else {
        let shorter = events.drop_last();
        lemma_run_passed_so_far(row_groups, verify, shorter);
        let before = parquet_run_after(
            ParquetRun::initial(row_groups, verify),
            shorter,
        )->Some_0->Ok_0;
        lemma_advances(before, events.last());
        assert forall|k: int| 0 <= k < events.len() implies passed(
            parquet_script(row_groups, verify)[k],
            #[trigger] events[k],
        ) by {
            if k < shorter.len() {
                assert(shorter[k] == events[k]);
            }
        }
    }
}

/// A measurement that comes to report its time has done all of its script, and passed every
/// check: the tables of every row group and, where it verifies, every comparison with the
/// host decoder. The time that it reports is that of all decompressions, and of nothing else.
pub proof fn law_finished_run_passed_every_check(
    row_groups: usize,
    verify: bool,
    events: Seq<ParquetEvent>,
)
    requires
        parquet_run_after(ParquetRun::initial(row_groups, verify), events) matches Some(Ok(run))
            && run.action == ParquetAction::Finish,
    ensures
        events.len() == row_groups * actions_per_group(verify) + row_groups,
        forall|k: int|
            0 <= k < events.len() ==> passed(
                parquet_script(row_groups, verify)[k],
                #[trigger] events[k],
            ),
        forall|i: int|
            0 <= i < row_groups ==> #[trigger] events[row_groups * actions_per_group(verify) + i]
                matches ParquetEvent::Checked(Ok(_)),
        verify ==> forall|i: int|
            0 <= i < row_groups ==> #[trigger] events[2 * i + 1] matches ParquetEvent::Verified(
                Ok(_),
            ),
        parquet_run_after(
            ParquetRun::initial(row_groups, verify),
            events,
        )->Some_0->Ok_0.elapsed == measured(events),
{
    lemma_run_passed_so_far(row_groups, verify, events);
    let script = parquet_script(row_groups, verify);
    let worked = row_groups * actions_per_group(verify);
    assert forall|i: int| 0 <= i < row_groups implies #[trigger] events[worked + i]
        matches ParquetEvent::Checked(Ok(_)) by {
        assert(script[worked + i] == ParquetAction::CheckStatuses(i as usize));
    }
    if verify {
        assert forall|i: int| 0 <= i < row_groups implies #[trigger] events[2 * i + 1]
            matches ParquetEvent::Verified(Ok(_)) by {
            assert(script[2 * i + 1] == ParquetAction::Verify(i as usize));
        }
    }
}

/// A check that fails ends the run, and names the row group.
pub proof fn law_failed_check_ends_the_run(
    run: ParquetRun,
    events: Seq<ParquetEvent>,
    event: ParquetEvent,
)
    requires
        parquet_run_after(run, events) matches Some(Ok(before)) && before.awaits(event)
            && !passed(before.action, event),
    ensures
        parquet_run_after(run, events.push(event)) matches Some(Err(failed)) && match (
            parquet_run_after(run, events)->Some_0->Ok_0.action,
            event,
            failed,
        ) {
            (
                ParquetAction::Verify(i),
                ParquetEvent::Verified(Err(error)),
                CheckFailed::Verification { row_group, difference: reported },
            ) => row_group == i && reported == error,
            (
                ParquetAction::CheckStatuses(i),
                ParquetEvent::Checked(Err(error)),
                CheckFailed::Status { row_group, error: reported },
            ) => row_group == i && reported == error,
            _ => false,
        },
{
    assert(events.push(event).drop_last() =~= events);
}

/// What a measurement of Vortex decompression does next.
#[derive(Clone, Copy, Debug, PartialEq, Eq, Structural)]
pub enum VortexAction {
    /// Ask for the next batch.
    NextBatch,
    /// Decode this field of the batch on the device.
    Decode(usize),
    /// Compare the decoded field with the same field decoded on the host.
    Compare(usize),
    /// Wait for the device.
    Synchronize,
    /// Report the time taken.
    Finish,
}

/// What came of an action.
#[derive(Clone, Copy, Debug, PartialEq, Eq, Structural)]
pub enum VortexEvent {
    /// A batch of so many fields arrived.
    Batch(usize),
    /// There are no more batches.
    EndOfStream,
    /// The field was decoded.
    Decoded,
    /// The field was compared: whether the two are the same.
    Compared(bool),
    /// The device has caught up.
    Synchronized,
}

/// A field whose decoding on the device does not match its decoding on the host.
#[derive(Clone, Copy, Debug, PartialEq, Eq, Structural)]
pub struct FieldMismatch {
    /// The field's index in its batch.
    pub field: usize,
}

/// A measurement of Vortex decompression under way, batch by batch and field by field.
#[derive(Clone, Copy, Debug, PartialEq, Eq, Structural)]
pub struct VortexRun {
    /// Whether each decoded field is compared with the host.
    pub verify: bool,
    /// How many fields the current batch has.
    pub fields: usize,
    /// What to do next.
    pub action: VortexAction,
}

impl VortexRun {
    /// Whether the run works on a field that there is, and compares only if it verifies.
    pub open spec fn wf(self) -> bool {
        match self.action {
            VortexAction::Decode(i) => i < self.fields,
            VortexAction::Compare(i) => i < self.fields && self.verify,
            _ => true,
        }
    }

    /// Whether `event` can come of the run's action.
    pub open spec fn awaits(self, event: VortexEvent) -> bool {
        match (self.action, event) {
            (VortexAction::NextBatch, VortexEvent::Batch(_)) => true,
            (VortexAction::NextBatch, VortexEvent::EndOfStream) => true,
            (VortexAction::Decode(_), VortexEvent::Decoded) => true,
            (VortexAction::Compare(_), VortexEvent::Compared(_)) => true,
            (VortexAction::Synchronize, VortexEvent::Synchronized) => true,
            _ => false,
        }
    }

    /// What follows the work on fields up to `i`: the field `i`, or the next batch.
    pub open spec fn at_field(verify: bool, fields: usize, i: int) -> VortexRun {
        VortexRun {
            verify,
            fields,
            action: if i < fields {
                VortexAction::Decode(i as usize)
            } else {
                VortexAction::NextBatch
            },
        }
    }

    /// Where an event takes the run.
    pub open spec fn after(self, event: VortexEvent) -> Result<VortexRun, FieldMismatch> {
        match (self.action, event) {
            (VortexAction::NextBatch, VortexEvent::Batch(fields)) => Ok(
                VortexRun::at_field(self.verify, fields, 0),
            ),
            (VortexAction::NextBatch, _) => Ok(
                VortexRun { action: VortexAction::Synchronize, ..self },
            ),
            (VortexAction::Decode(i), _) => if self.verify {
                Ok(VortexRun { action: VortexAction::Compare(i), ..self })
            } else {
                Ok(VortexRun::at_field(self.verify, self.fields, i + 1))
            },
            (VortexAction::Compare(i), VortexEvent::Compared(true)) => Ok(
                VortexRun::at_field(self.verify, self.fields, i + 1),
            ),
            (VortexAction::Compare(i), _) => Err(FieldMismatch { field: i }),
            _ => Ok(VortexRun { action: VortexAction::Finish, ..self }),
        }
    }

    /// Starts a measurement, with the first batch to ask for.
    pub fn start(verify: bool) -> (run: Self)
        ensures
            run.wf(),
            run.verify == verify,
            run.action == VortexAction::NextBatch,
    {
        VortexRun { verify, fields: 0, action: VortexAction::NextBatch }
    }

    /// Takes note of what came of the action, and goes on to the next. Fails on a field that
    /// does not match.
    pub fn on(self, event: VortexEvent) -> (next: Result<Self, FieldMismatch>)
        requires
            self.wf(),
            self.awaits(event),
        ensures
            next == self.after(event),
            next matches Ok(run) ==> run.wf() && run.verify == self.verify,
            match (self.action, event, next) {
                (VortexAction::NextBatch, VortexEvent::Batch(fields), Ok(run)) => run.fields
                    == fields && run.action == if fields > 0 {
                    VortexAction::Decode(0)
                } else {
                    VortexAction::NextBatch
                },
                (VortexAction::NextBatch, VortexEvent::EndOfStream, Ok(run)) => run.action
                    is Synchronize,
                (VortexAction::Decode(i), VortexEvent::Decoded, Ok(run)) => run.fields
                    == self.fields && run.action == if self.verify {
                    VortexAction::Compare(i)
                } else if i + 1 < self.fields {
                    VortexAction::Decode((i + 1) as usize)
                } else {
                    VortexAction::NextBatch
                },
                (VortexAction::Compare(i), VortexEvent::Compared(true), Ok(run)) => run.fields
                    == self.fields && run.action == if i + 1 < self.fields {
                    VortexAction::Decode((i + 1) as usize)
                } else {
                    VortexAction::NextBatch
                },
                (VortexAction::Compare(i), VortexEvent::Compared(false), Err(mismatch)) => {
                    mismatch.field == i
                },
                (VortexAction::Synchronize, VortexEvent::Synchronized, Ok(run)) => run.action
                    is Finish,
                _ => false,
            },
    {
        match (self.action, event) {
            (VortexAction::NextBatch, VortexEvent::Batch(fields)) => {
                let action: VortexAction = if fields > 0 {
                    VortexAction::Decode(0)
                } else {
                    VortexAction::NextBatch
                };
                Ok(VortexRun { verify: self.verify, fields, action })
            },
            (VortexAction::NextBatch, _) => Ok(
                VortexRun { action: VortexAction::Synchronize, ..self },
            ),
            (VortexAction::Decode(i), _) => if self.verify {
                Ok(VortexRun { action: VortexAction::Compare(i), ..self })
            } else {
                Ok(self.past_field(i))
            },
            (VortexAction::Compare(i), VortexEvent::Compared(true)) => Ok(self.past_field(i)),
            (VortexAction::Compare(i), _) => Err(FieldMismatch { field: i }),
            _ => Ok(VortexRun { action: VortexAction::Finish, ..self }),
        }
    }

    /// What follows the work on field `i`.
    fn past_field(&self, i: usize) -> (next: Self)
        requires
            i < self.fields,
        ensures
            next == VortexRun::at_field(self.verify, self.fields, i + 1),
            next.wf(),
    {
        let action: VortexAction = if i + 1 < self.fields {
            VortexAction::Decode(i + 1)
        } else {
            VortexAction::NextBatch
        };
        VortexRun { verify: self.verify, fields: self.fields, action }
    }
}

/// Where a run stands after events, each of which it awaited and none of which failed it; or
/// the first mismatch.
pub open spec fn vortex_run_after(run: VortexRun, events: Seq<VortexEvent>) -> Result<
    VortexRun,
    FieldMismatch,
>
    decreases events.len(),
{
    if events.len() == 0 {
        Ok(run)
    } else {
        match vortex_run_after(run, events.drop_last()) {
            Err(mismatch) => Err(mismatch),
            Ok(before) => before.after(events.last()),
        }
    }
}

/// The events of a batch in which each of the first `done` fields was decoded and, where the
/// run verifies, found to match.
pub open spec fn matching_fields(verify: bool, fields: usize, done: nat) -> Seq<VortexEvent>
    decreases done,
{
    if done == 0 {
        seq![VortexEvent::Batch(fields)]
    } else {
        let before = matching_fields(verify, fields, (done - 1) as nat).push(VortexEvent::Decoded);
        if verify {
            before.push(VortexEvent::Compared(true))
        } else {
            before
        }
    }
}

/// A run decodes the fields of a batch in order, each once; where it verifies it compares
/// each before it decodes another; and after the last it asks for the next batch.
pub proof fn law_batch_is_decoded_field_by_field(run: VortexRun, fields: usize, done: nat)
    requires
        run.action == VortexAction::NextBatch,
        done <= fields,
    ensures
        vortex_run_after(run, matching_fields(run.verify, fields, done)) == Ok::<
            VortexRun,
            FieldMismatch,
        >(VortexRun::at_field(run.verify, fields, done as int)),
    decreases done,
{
    let events = matching_fields(run.verify, fields, done);
    if done == 0 {
        assert(events.drop_last() =~= Seq::empty());
        assert(vortex_run_after(run, events.drop_last()) == Ok::<VortexRun, FieldMismatch>(run));
    } else {
        let before = matching_fields(run.verify, fields, (done - 1) as nat);
        law_batch_is_decoded_field_by_field(run, fields, (done - 1) as nat);
        let decoded = before.push(VortexEvent::Decoded);
        assert(decoded.drop_last() =~= before);
        if run.verify {
            assert(events.drop_last() =~= decoded);
            assert(vortex_run_after(run, decoded) == Ok::<VortexRun, FieldMismatch>(
                VortexRun {
                    verify: run.verify,
                    fields,
                    action: VortexAction::Compare((done - 1) as usize),
                },
            ));
        }
    }
}

/// A verifying run that meets a field that does not match ends there, with that field.
pub proof fn law_mismatch_ends_the_run(run: VortexRun, fields: usize, field: usize)
    requires
        run.action == VortexAction::NextBatch,
        run.verify,
        field < fields,
    ensures
        vortex_run_after(
            run,
            matching_fields(true, fields, field as nat).push(VortexEvent::Decoded).push(
                VortexEvent::Compared(false),
            ),
        ) == Err::<VortexRun, FieldMismatch>(FieldMismatch { field }),
{
    law_batch_is_decoded_field_by_field(run, fields, field as nat);
    let before = matching_fields(true, fields, field as nat);
    let decoded = before.push(VortexEvent::Decoded);
    let events = decoded.push(VortexEvent::Compared(false));
    assert(decoded.drop_last() =~= before);
    assert(events.drop_last() =~= decoded);
    assert(vortex_run_after(run, decoded) == Ok::<VortexRun, FieldMismatch>(
        VortexRun { verify: true, fields, action: VortexAction::Compare(field) },
    ));
}

/// Whether each of the events is one that the run awaited when it came.
pub open spec fn vortex_run_takes(run: VortexRun, events: Seq<VortexEvent>) -> bool
    decreases events.len(),
{
    events.len() == 0 || {
        &&& vortex_run_takes(run, events.drop_last())
        &&& vortex_run_after(run, events.drop_last()) matches Ok(before) && before.awaits(
            events.last(),
        )
    }
}

/// A verifying run that no mismatch has ended compared every field that it decoded, but for
/// one that it is about to compare.
proof fn lemma_compared_so_far(run: VortexRun, events: Seq<VortexEvent>)
    requires
        run.verify,
        vortex_run_takes(run, events),
        vortex_run_after(run, events) is Ok,
    ensures
        vortex_run_after(run, events)->Ok_0.verify,
        forall|k: int|
            0 <= k < events.len() && #[trigger] events[k] == VortexEvent::Decoded ==> {
                ||| k + 1 < events.len() && events[k + 1] == VortexEvent::Compared(true)
                ||| k + 1 == events.len() && vortex_run_after(
                    run,
                    events,
                )->Ok_0.action is Compare
            },
    decreases events.len(),
{
    if events.len() > 0 {
        let shorter = events.drop_last();
        lemma_compared_so_far(run, shorter);
        assert forall|k: int|
            0 <= k < events.len() && #[trigger] events[k] == VortexEvent::Decoded implies {
            ||| k + 1 < events.len() && events[k + 1] == VortexEvent::Compared(true)
            ||| k + 1 == events.len() && vortex_run_after(run, events)->Ok_0.action is Compare
        } by {
            if k < shorter.len() {
                assert(shorter[k] == events[k]);
            }
        }
    }
}

/// A verifying measurement that comes to report its time compared every field that it decoded,
/// right after it was decoded, and found it to match.
pub proof fn law_finished_vortex_run_compared_every_field(
    run: VortexRun,
    events: Seq<VortexEvent>,
)
    requires
        run.verify,
        vortex_run_takes(run, events),
        vortex_run_after(run, events) matches Ok(after) && after.action == VortexAction::Finish,
    ensures
        forall|k: int|
            0 <= k < events.len() && #[trigger] events[k] == VortexEvent::Decoded ==> k + 1
                < events.len() && events[k + 1] == VortexEvent::Compared(true),
{
    lemma_compared_so_far(run, events);
}

} // verus!
