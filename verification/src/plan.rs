//! What a run does once ingestion is over.
//!
//! A run that ingested no record at all ends there, with a status of its
//! own, and calls nothing of the model pipeline. Any other run fits the
//! pipeline once and then asks for each of its ranked views.

use crate::catalog::{record_total, SeriesCatalog};
use vstd::prelude::*;

verus! {

/// Exit status of a run that ingested no record.
pub const EMPTY_CATALOG_STATUS: i32 = 1;

/// Exit status of a run that went through.
pub const SUCCESS_STATUS: i32 = 0;

/// One call into the model pipeline.
#[derive(Clone, Copy, Debug, PartialEq, Eq, Structural)]
pub enum PipelineCall {
    /// Fit the pipeline to the whole catalog.
    Train,
    /// The ranking by momentum.
    RankByMomentum,
    /// The ranking by volume.
    RankByVolume,
    /// The ranking by probability-weighted alpha.
    RankByProbableAlpha,
    /// The summary of the correlation matrix.
    CorrelationSummary,
}

/// What a run does once ingestion is over.
#[derive(Debug, Clone, PartialEq, Eq)]
pub struct RunPlan {
    /// The status with which the process ends.
    pub exit_status: i32,
    /// The calls into the model pipeline, in the order in which they are
    /// made.
    pub calls: Vec<PipelineCall>,
}

/// The calls of a run that has records: the fit first, then each view.
pub open spec fn analysis_calls() -> Seq<PipelineCall> {
    seq![
        PipelineCall::Train,
        PipelineCall::RankByMomentum,
        PipelineCall::RankByVolume,
        PipelineCall::RankByProbableAlpha,
        PipelineCall::CorrelationSummary,
    ]
}

/// Decides what a run that ingested `total_records` records does next.
pub fn plan_run(total_records: usize) -> (plan: RunPlan)
    ensures
        total_records == 0 ==> plan.exit_status == EMPTY_CATALOG_STATUS && plan.calls@
            == Seq::<PipelineCall>::empty(),
        total_records > 0 ==> plan.exit_status == SUCCESS_STATUS && plan.calls@
            == analysis_calls(),
        plan.exit_status != 0 <==> total_records == 0,
{
    if total_records == 0 {
        RunPlan { exit_status: EMPTY_CATALOG_STATUS, calls: Vec::new() }
    } else {
        let mut calls: Vec<PipelineCall> = Vec::new();
        calls.push(PipelineCall::Train);
        calls.push(PipelineCall::RankByMomentum);
        calls.push(PipelineCall::RankByVolume);
        calls.push(PipelineCall::RankByProbableAlpha);
        calls.push(PipelineCall::CorrelationSummary);
        RunPlan { exit_status: SUCCESS_STATUS, calls }
    }
}

/// Decides what the run that assembled `catalog` does next: it stops where
/// the catalog holds no record, and goes on to the pipeline where it holds
/// any.
pub fn plan_for<R>(catalog: &SeriesCatalog<R>) -> (plan: RunPlan)
    ensures
        record_total(catalog.listing()) == 0 ==> plan.exit_status == EMPTY_CATALOG_STATUS
            && plan.calls@ == Seq::<PipelineCall>::empty(),
        record_total(catalog.listing()) > 0 ==> plan.exit_status == SUCCESS_STATUS && plan.calls@
            == analysis_calls(),
        plan.exit_status != 0 <==> record_total(catalog.listing()) == 0,
{
    match catalog.total_records() {
        Some(total) => plan_run(total),
        None => plan_run(usize::MAX),
    }
}

} // verus!
