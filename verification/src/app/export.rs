//! Exporting the kernels of the active lane.
use vstd::prelude::*;
use vstd::string::StringExecFns;
use crate::app::App;
use crate::csv::{self, new_kernel_table, push_kernel_line};
use crate::lane::Lane;
use crate::scalar::Scalar;
use crate::text::{self, owned, push_decimal};

verus! {

/// The first lane from `from` on that holds the kernels of a stream; the number of
/// lanes where there is none.
pub open spec fn kernel_lane_from(lanes: Seq<Lane>, stream: u64, from: int) -> int
    decreases lanes.len() - from,
{
    if from >= lanes.len() {
        lanes.len() as int
    } else if !lanes[from]@.annotations && lanes[from]@.stream_id == stream {
        from
    } else {
        kernel_lane_from(lanes, stream, from + 1)
    }
}

impl<T: Scalar> App<T> {
    /// Makes the first kernel lane of a stream the active one. Returns `false`, and
    /// leaves everything as it is, where the stream has no kernels.
    pub fn open_kernel_lane(&mut self, stream: u64) -> (r: bool)
        ensures
            r == (kernel_lane_from(old(self).lanes@, stream, 0) < old(self).lanes@.len()),
            *final(self) == if r {
                old(self).with_lane(kernel_lane_from(old(self).lanes@, stream, 0) as usize)
            } else {
                *old(self)
            },
    {
        let mut i: usize = 0;
        while i < self.lanes.len()
            invariant
                i <= self.lanes@.len(),
                *self == *old(self),
                kernel_lane_from(self.lanes@, stream, 0) == kernel_lane_from(
                    self.lanes@,
                    stream,
                    i as int,
                ),
            decreases self.lanes@.len() - i,
        {
            if !self.lanes[i].is_annotations() && self.lanes[i].stream_id() == stream {
                self.active_lane = i;
                self.clamp_selected_item();
                return true;
            }
            i += 1;
        }
        false
    }

    /// The rows of the first `n` items of a kernel lane, numbered by their
    /// position in the lane.
    pub open spec fn lane_lines(&self, items: Seq<usize>, n: int) -> Seq<char>
        decreases n,
    {
        if n <= 0 {
            Seq::empty()
        } else if items[n - 1] < self.kernels@.len() {
            self.lane_lines(items, n - 1) + csv::kernel_line(
                n as nat,
                self.annotations@,
                self.kernels@[items[n - 1] as int],
            )
        } else {
            self.lane_lines(items, n - 1)
        }
    }

    /// CSV of every kernel in the active lane (raw timestamps, full fields), or
    /// `None` when the active lane is not a kernel lane. Row order matches the
    /// lane's on-screen order.
    pub fn lane_kernels_csv(&self) -> (r: Option<String>)
        ensures
            match self.kernel_lane_items(self.active_lane) {
                Some(items) => r is Some && (r->0)@ == csv::kernel_table_header()
                    + self.lane_lines(items, items.len() as int),
                None => r is None,
            },
    {
        if self.active_lane >= self.lanes.len() || self.lanes[self.active_lane].is_annotations() {
            return None;
        }
        let items = self.lanes[self.active_lane].item_indices();
        let mut out = new_kernel_table();
        let mut i: usize = 0;
        assert(out@ == csv::kernel_table_header() + self.lane_lines(items@, 0));
        while i < items.len()
            invariant
                i <= items@.len(),
                out@ == csv::kernel_table_header() + self.lane_lines(items@, i as int),
            decreases items@.len() - i,
        {
            if items[i] < self.kernels.len() {
                push_kernel_line(
                    &mut out,
                    i + 1,
                    self.annotations.as_slice(),
                    &self.kernels[items[i]],
                );
            }
            i += 1;
            assert(out@ == csv::kernel_table_header() + self.lane_lines(items@, i as int));
        }
        Some(out)
    }

    /// Suggested filename for the active kernel lane's CSV dump, e.g.
    /// `lane-cuda4-trace0.csv` (trace suffix only when multiple traces are open).
    pub fn lane_csv_filename(&self) -> (r: String)
        ensures
            r@ == match self.active() {
                None => "lane.csv"@,
                Some(lane) => if self.traces@.len() > 1 {
                    "lane-cuda"@ + text::decimal_text(lane.stream_id as nat) + "-trace"@
                        + text::decimal_text(lane.trace_id as nat) + ".csv"@
                } else {
                    "lane-cuda"@ + text::decimal_text(lane.stream_id as nat) + ".csv"@
                },
            },
    {
        if self.active_lane >= self.lanes.len() {
            return owned("lane.csv");
        }
        let lane = &self.lanes[self.active_lane];
        let mut out = owned("lane-cuda");
        push_decimal(&mut out, lane.stream_id() as u128);
        if self.traces.len() > 1 {
            out.append("-trace");
            push_decimal(&mut out, lane.trace_id() as u128);
        }
        out.append(".csv");
        out
    }
}

} // verus!
