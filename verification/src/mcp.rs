//! The tools that are offered to an assistant: read-only, bounded questions about
//! a trace.
//!
//! A tool gets its arguments and what came of reading the trace file they name;
//! it hands back the text of its reply, or of an error.
use vstd::prelude::*;
use crate::mcp_core::{
    self, kernel_sequence_in_stage, lane_kernels_csv_in_stage, stage_summary_for, TraceSummary,
};
use crate::names::{self, list_trace_names};
use crate::scalar::Scalar;
use crate::stage::{self, parse_stage_filter, Stage};
use crate::text::{self, join};
use crate::trace::Trace;

verus! {

/// The tools.
#[derive(Debug, Clone, Copy)]
pub struct TraceMcpServer;

/// The arguments of a tool that looks at a whole trace.
#[derive(Debug, Clone)]
pub struct PathParam {
    /// Path to a `.pt.trace.json` or `.pt.trace.json.gz` file.
    pub path: String,
}

/// The arguments of the summary of a stream by stages.
#[derive(Debug, Clone)]
pub struct StageSummaryParam {
    /// Path to a `.pt.trace.json` or `.pt.trace.json.gz` file.
    pub path: String,
    /// CUDA stream id to aggregate per-stage stats for.
    pub stream: u64,
}

/// The arguments of the kernel table of a stream.
#[derive(Debug, Clone)]
pub struct LaneParam {
    /// Path to a `.pt.trace.json` or `.pt.trace.json.gz` file.
    pub path: String,
    /// CUDA stream id whose kernel lane to export.
    pub stream: u64,
    /// Rows to skip from the start of the lane.
    pub offset: usize,
    /// Max rows to return (capped by the server). Defaults to 100.
    pub limit: Option<usize>,
    /// Optional stage filter: prefill, decode, or mixed. Absent for all kernels.
    pub stage: Option<String>,
}

/// The arguments of a kernel sequence.
#[derive(Debug, Clone)]
pub struct SequenceParam {
    /// Path to a `.pt.trace.json` or `.pt.trace.json.gz` file.
    pub path: String,
    /// CUDA stream id to scan.
    pub stream: u64,
    /// Kernel name that starts the sequence.
    pub kernel_name: String,
    /// Rows to skip from the start of the sequence.
    pub offset: usize,
    /// Max rows to return (capped by the server). Defaults to 100.
    pub limit: Option<usize>,
    /// Optional stage filter: prefill, decode, or mixed. Absent for all kernels.
    pub stage: Option<String>,
}

/// Whether a stage filter is refused.
pub open spec fn refused(filter: Option<String>) -> bool {
    filter matches Some(s) && stage::named_stage(s@) is None
}

/// The stage that a filter names; none without a filter.
pub open spec fn asked_stage(filter: Option<String>) -> Option<Stage> {
    match filter {
        Some(s) => stage::named_stage(s@),
        None => None,
    }
}

/// Whether `lines` lists exactly the trace files among some file names, each as
/// often as it is named, in dictionary order.
pub open spec fn lists_traces(names: Seq<Seq<char>>, lines: Seq<Seq<char>>) -> bool {
    &&& lines.to_multiset() == names::trace_names(names).to_multiset()
    &&& names::in_dictionary_order(lines)
}

impl TraceMcpServer {
    /// The trace files among the names of a directory, in dictionary order, one on a
    /// line. Where the directory could not be read, the error is handed on.
    pub fn list_traces(&self, names: Result<Vec<String>, String>) -> (r: Result<String, String>)
        ensures
            match (names, r) {
                (Ok(names), Ok(reply)) => exists|lines: Seq<Seq<char>>| #[trigger]
                    lists_traces(text::texts(names@), lines) && reply@ == text::joined(
                        lines,
                        "\n"@,
                    ),
                (Err(e), Err(said)) => said == e,
                _ => false,
            },
    {
        match names {
            Ok(names) => {
                let ghost all = text::texts(names@);
                let listed = list_trace_names(names);
                assert(lists_traces(all, text::texts(listed@)));
                Ok(join(&listed, "\n"))
            },
            Err(e) => Err(e),
        }
    }

    /// Aggregate overview of a trace. Where the trace could not be read, the error is
    /// handed on.
    pub fn summary<T: Scalar>(&self, loaded: Result<Trace<T>, String>) -> (r: Result<
        TraceSummary<T>,
        String,
    >)
        ensures
            match (loaded, r) {
                (Ok(trace), Ok(reply)) => mcp_core::summarises(trace, reply),
                (Err(e), Err(said)) => said == e,
                _ => false,
            },
    {
        match loaded {
            Ok(trace) => Ok(mcp_core::summary(&trace)),
            Err(e) => Err(e),
        }
    }

    /// CSV of kernels on one CUDA stream, including the covering annotation and
    /// derived stage; with a filter only the kernels of that stage. Paginated by
    /// offset and limit. A bad filter is refused first, then a trace that could
    /// not be read.
    pub fn lane_kernels_csv<T: Scalar>(
        &self,
        p: &LaneParam,
        loaded: Result<Trace<T>, String>,
    ) -> (r: Result<String, String>)
        ensures
            refused(p.stage) ==> (r matches Err(e) && e@ == stage::bad_stage_text(p.stage->0@)),
            !refused(p.stage) ==> match (loaded, r) {
                (Ok(trace), Ok(reply)) => reply@ == mcp_core::table_page(
                    trace,
                    p.stream,
                    p.offset,
                    p.limit,
                    asked_stage(p.stage),
                ),
                (Err(e), Err(said)) => said == e,
                _ => false,
            },
    {
        let filter = match parse_stage_filter(&p.stage) {
            Ok(filter) => filter,
            Err(e) => {
                return Err(e);
            },
        };
        match loaded {
            Ok(trace) => Ok(
                lane_kernels_csv_in_stage(&trace, p.stream, p.offset, p.limit, filter),
            ),
            Err(e) => Err(e),
        }
    }

    /// Tab-separated kernel sequence on a stream from the first kernel of the given
    /// name up to the next occurrence of that name; with a filter only the kernels
    /// of that stage. Paginated by offset and limit. A bad filter is refused first,
    /// then a trace that could not be read.
    pub fn kernel_sequence<T: Scalar>(
        &self,
        p: &SequenceParam,
        loaded: Result<Trace<T>, String>,
    ) -> (r: Result<String, String>)
        ensures
            refused(p.stage) ==> (r matches Err(e) && e@ == stage::bad_stage_text(p.stage->0@)),
            !refused(p.stage) ==> match (loaded, r) {
                (Ok(trace), Ok(reply)) => reply@ == mcp_core::sequence_page(
                    trace,
                    p.stream,
                    p.kernel_name@,
                    p.offset,
                    p.limit,
                    asked_stage(p.stage),
                ),
                (Err(e), Err(said)) => said == e,
                _ => false,
            },
    {
        let filter = match parse_stage_filter(&p.stage) {
            Ok(filter) => filter,
            Err(e) => {
                return Err(e);
            },
        };
        match loaded {
            Ok(trace) => Ok(
                kernel_sequence_in_stage(
                    &trace,
                    p.stream,
                    p.kernel_name.as_str(),
                    p.offset,
                    p.limit,
                    filter,
                ),
            ),
            Err(e) => Err(e),
        }
    }

    /// Per-stage aggregate stats for one CUDA stream. Where the trace could not be
    /// read, the error is handed on.
    pub fn stage_summary<T: Scalar>(
        &self,
        p: &StageSummaryParam,
        loaded: Result<Trace<T>, String>,
    ) -> (r: Result<String, String>)
        ensures
            match (loaded, r) {
                (Ok(trace), Ok(reply)) => reply@ == mcp_core::stage_table(trace, p.stream),
                (Err(e), Err(said)) => said == e,
                _ => false,
            },
    {
        match loaded {
            Ok(trace) => Ok(stage_summary_for(&trace, p.stream)),
            Err(e) => Err(e),
        }
    }
}

} // verus!
