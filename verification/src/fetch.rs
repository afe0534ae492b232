//! Forecast files: which to fetch, from where, and what becomes of each.
//!
//! A run goes from frame to frame. For each it asks for the index of the file that
//! holds it, then for the runs of bytes that hold wind, then that all of them be written
//! at once, and then reports what came of it. Whoever drives the run does as it asks and
//! tells it what came back.
pub mod index;
pub mod records;
pub mod when;

use crate::bytes;
use crate::calendar;
use crate::calendar::UtcTime;
use crate::fetch::index::{parse_idx_for_10m_wind, ByteRange};
use crate::fetch_ensemble;
use crate::fetch_ensemble::{gefs_url_for_frame, GefsMember};
use crate::grib2;
use crate::io_error::IoError;
use crate::text;
use crate::wind_av1::encoder::EncodeError;
use vstd::prelude::*;
use vstd::string::*;

verus! {

/// Hours from one model run to the next.
pub const CYCLE_HOURS: u32 = 6;

/// The longest lead time that is fetched.
pub const MAX_FORECAST_HOUR: u32 = 5;

/// The frames to fetch: one at `start`, and one every `interval_h` hours from
/// there on and before `end`.
#[derive(Clone, Copy, Debug)]
pub struct FetchSpec {
    pub start: UtcTime,
    pub end: UtcTime,
    pub interval_h: u32,
}

/// The quotient, rounded up.
pub open spec fn rounded_up(a: int, b: int) -> int {
    (a + b - 1) / b
}

impl FetchSpec {
    /// Nanoseconds between frames; an interval of 0 counts as one hour.
    pub open spec fn step(self) -> int {
        (if self.interval_h == 0 {
            1
        } else {
            self.interval_h as int
        }) * 3_600_000_000_000
    }

    /// How many frames there are.
    pub open spec fn frames(self) -> int {
        if self.end.instant() <= self.start.instant() {
            0
        } else {
            rounded_up(self.end.instant() - self.start.instant(), self.step())
        }
    }

    /// Whether both ends are instants.
    pub open spec fn wf(self) -> bool {
        self.start.wf() && self.end.wf()
    }

    /// Whether the frames can be fetched.
    pub open spec fn valid(self) -> bool {
        &&& self.start.hour_of() % 6 == 0
        &&& self.start.instant() < self.end.instant()
        &&& divides_cycle(self.interval_h)
    }
}

/// Whether frames so many hours apart all fall on lead times that are fetched.
pub open spec fn divides_cycle(interval_h: u32) -> bool {
    interval_h == 1 || interval_h == 2 || interval_h == 3 || interval_h == 6
}

/// What came of a frame.
#[derive(Debug)]
pub enum FetchProgress {
    /// The frame was fetched.
    Fetched { idx: u32, total: u32, timestamp: UtcTime, bytes: u64 },
    /// The frame could not be fetched.
    Skipped { idx: u32, total: u32, timestamp: UtcTime, reason: String },
}

/// Why a run gives no file.
#[derive(Debug)]
pub enum FetchError {
    /// The first frame does not fall on the start of a model run.
    StartNotOnCycle { hour: u32 },
    /// The end is not after the start.
    BadWindow,
    /// Some frame would need a lead time that is not fetched.
    BadInterval { interval_h: u32 },
    /// A frame has a lead time that is not fetched.
    ForecastHourOutOfRange { forecast_hour: u32 },
    /// The output could not be written.
    Io(IoError),
    /// No frame could be fetched.
    NoFramesFetched { skipped: u32 },
}

impl FetchError {
    /// The error in words.
    pub open spec fn words(&self) -> Seq<char> {
        match self {
            FetchError::StartNotOnCycle { hour } => "start hour "@ + text::decimal(*hour as nat)
                + " is not a GFS cycle (must be 00, 06, 12, or 18 UTC)"@,
            FetchError::BadWindow => "end must be strictly after start"@,
            FetchError::BadInterval { interval_h } => "interval_h="@ + text::decimal(
                *interval_h as nat,
            ) + " would require a forecast hour > 5; use one of 1, 2, 3, or 6"@,
            FetchError::ForecastHourOutOfRange { forecast_hour } => "internal error: forecast hour "@
                + text::decimal(*forecast_hour as nat) + " exceeds f005"@,
            FetchError::Io(e) => "I/O error: "@ + e.message@,
            FetchError::NoFramesFetched { skipped } => "no frames fetched successfully ("@
                + text::decimal(*skipped as nat) + " attempts skipped)"@,
        }
    }

    /// The error in words.
    pub fn message(&self) -> (s: String)
        ensures
            s@ == self.words(),
    {
        match self {
            FetchError::StartNotOnCycle { hour } => {
                let mut s: String = "start hour ".to_owned();
                text::push_decimal(&mut s, *hour as u64);
                s.append(" is not a GFS cycle (must be 00, 06, 12, or 18 UTC)");
                s
            },
            FetchError::BadWindow => "end must be strictly after start".to_owned(),
            FetchError::BadInterval { interval_h } => {
                let mut s: String = "interval_h=".to_owned();
                text::push_decimal(&mut s, *interval_h as u64);
                s.append(" would require a forecast hour > 5; use one of 1, 2, 3, or 6");
                s
            },
            FetchError::ForecastHourOutOfRange { forecast_hour } => {
                let mut s: String = "internal error: forecast hour ".to_owned();
                text::push_decimal(&mut s, *forecast_hour as u64);
                s.append(" exceeds f005");
                s
            },
            FetchError::Io(e) => {
                let mut s: String = "I/O error: ".to_owned();
                s.append(e.message.as_str());
                s
            },
            FetchError::NoFramesFetched { skipped } => {
                let mut s: String = "no frames fetched successfully (".to_owned();
                text::push_decimal(&mut s, *skipped as u64);
                s.append(" attempts skipped)");
                s
            },
        }
    }
}

/// What a run came to.
#[derive(Clone, Copy, Debug, PartialEq, Eq, Structural)]
pub struct FetchStats {
    pub fetched: u32,
    pub skipped: u32,
    pub total_bytes: u64,
}

/// Whether the frames can be fetched. The first that does not hold is told: the
/// start falls on a model run, the end is after the start, the interval divides
/// the time between model runs.
pub fn validate_spec(spec: &FetchSpec) -> (r: Result<(), FetchError>)
    requires
        spec.wf(),
    ensures
        r is Ok <==> spec.valid(),
        r matches Err(e) ==> match e {
            FetchError::StartNotOnCycle { hour } => hour == spec.start.hour_of() && hour % 6 != 0,
            FetchError::BadWindow => spec.start.hour_of() % 6 == 0 && spec.end.instant()
                <= spec.start.instant(),
            FetchError::BadInterval { interval_h } => {
                &&& spec.start.hour_of() % 6 == 0
                &&& spec.start.instant() < spec.end.instant()
                &&& interval_h == spec.interval_h
                &&& !divides_cycle(interval_h)
            },
            _ => false,
        },
{
    let hour: u32 = spec.start.hour();
    if hour % CYCLE_HOURS != 0 {
        return Err(FetchError::StartNotOnCycle { hour });
    }
    if !spec.start.is_before(spec.end) {
        return Err(FetchError::BadWindow);
    }
    match spec.interval_h {
        1 | 2 | 3 | 6 => Ok(()),
        _ => Err(FetchError::BadInterval { interval_h: spec.interval_h }),
    }
}

/// How many frames there are, at most the greatest 32-bit number.
pub fn expected_frame_count(spec: &FetchSpec) -> (n: u32)
    requires
        spec.wf(),
    ensures
        n == (if spec.frames() > u32::MAX {
            u32::MAX as int
        } else {
            spec.frames()
        }),
{
    if !spec.start.is_before(spec.end) {
        return 0;
    }
    let interval: i128 = if spec.interval_h == 0 {
        1
    } else {
        spec.interval_h as i128
    };
    let step: i128 = interval * 3_600_000_000_000;
    let window: i128 = (spec.end.seconds as i128 - spec.start.seconds as i128) * 1_000_000_000 + (
    spec.end.nanos as i128 - spec.start.nanos as i128);
    let n: i128 = (window + step - 1) / step;
    proof {
        assert(window == spec.end.instant() - spec.start.instant());
        assert(step == spec.step());
        assert(n == spec.frames());
        assert(n >= 0);
    }
    if n > u32::MAX as i128 {
        u32::MAX
    } else {
        n as u32
    }
}

/// The model run and the lead time that give a frame: the latest run that begins
/// at or before its hour, and the hours from there.
pub fn resolve_cycle(frame_t: UtcTime) -> (r: Result<(UtcTime, u32), FetchError>)
    requires
        frame_t.wf(),
    ensures
        r matches Ok((cycle, forecast_hour)) && {
            &&& cycle.wf()
            &&& forecast_hour == frame_t.hour_of() % 6
            &&& forecast_hour <= MAX_FORECAST_HOUR
            &&& cycle.hour_of() == frame_t.hour_of() - forecast_hour
            &&& cycle.hour_of() % 6 == 0
            &&& cycle.day_of() == frame_t.day_of()
            &&& cycle.instant() + forecast_hour * 3_600_000_000_000 == frame_t.instant()
        },
{
    let hour: u32 = frame_t.hour();
    let cycle_hour: u32 = hour / CYCLE_HOURS * CYCLE_HOURS;
    let forecast_hour: u32 = hour - cycle_hour;
    proof {
        let s = frame_t.seconds as int;
        assert(s - forecast_hour * 3600 >= s / 86_400 * 86_400);
        assert(s / 86_400 >= -96_465_292);
    }
    let cycle: UtcTime = frame_t.minus_hours(forecast_hour);
    Ok((cycle, forecast_hour))
}

/// Where the frames come from.
#[derive(Clone, Copy, Debug)]
pub enum Source {
    /// The single forecast.
    Gfs,
    /// A member of the ensemble.
    Gefs(GefsMember),
}

/// Where the file of the single forecast for a lead time lies.
pub open spec fn gfs_url(cycle: UtcTime, forecast_hour: u32) -> Seq<char> {
    "https://noaa-gfs-bdp-pds.s3.amazonaws.com/gfs."@ + calendar::yyyymmdd(cycle.day_of()) + "/"@
        + text::padded(cycle.hour_of() as nat, 2) + "/atmos/gfs.t"@ + text::padded(
        cycle.hour_of() as nat,
        2,
    ) + "z.pgrb2.0p25.f"@ + text::padded(forecast_hour as nat, 3)
}

/// Where the file of the single forecast for a lead time lies.
pub fn gfs_url_for_frame(cycle: UtcTime, forecast_hour: u32) -> (url: String)
    requires
        cycle.wf(),
    ensures
        url@ == gfs_url(cycle, forecast_hour),
{
    let mut url: String = "https://noaa-gfs-bdp-pds.s3.amazonaws.com/gfs.".to_owned();
    calendar::push_yyyymmdd(&mut url, cycle);
    url.append("/");
    text::push_padded(&mut url, cycle.hour() as u64, 2);
    url.append("/atmos/gfs.t");
    text::push_padded(&mut url, cycle.hour() as u64, 2);
    url.append("z.pgrb2.0p25.f");
    text::push_padded(&mut url, forecast_hour as u64, 3);
    url
}

/// The model run that gives a frame.
pub open spec fn cycle_of(t: UtcTime) -> UtcTime {
    UtcTime { seconds: (t.seconds - t.hour_of() % 6 * 3600) as i64, nanos: t.nanos }
}

/// Where the file that holds a frame lies.
pub open spec fn frame_url(source: Source, t: UtcTime) -> Seq<char> {
    let lead = (t.hour_of() % 6) as u32;
    match source {
        Source::Gfs => gfs_url(cycle_of(t), lead),
        Source::Gefs(member) => fetch_ensemble::gefs_url(cycle_of(t), lead, member),
    }
}

/// Where the file that holds a frame lies.
fn url_of_frame(source: Source, t: UtcTime) -> (r: Result<String, FetchError>)
    requires
        t.wf(),
    ensures
        r matches Ok(url) && url@ == frame_url(source, t),
{
    match resolve_cycle(t) {
        Err(e) => Err(e),
        Ok((cycle, lead)) => {
            assert(cycle == cycle_of(t));
            match source {
                Source::Gfs => Ok(gfs_url_for_frame(cycle, lead)),
                Source::Gefs(member) => Ok(gefs_url_for_frame(cycle, lead, member)),
            }
        },
    }
}

/// How a request asks for a run of bytes.
pub open spec fn range_text(range: ByteRange) -> Seq<char> {
    match range.1 {
        Some(end) => "bytes="@ + text::decimal(range.0 as nat) + "-"@ + text::decimal((end - 1) as nat),
        None => "bytes="@ + text::decimal(range.0 as nat) + "-"@,
    }
}

/// How a request asks for a run of bytes.
pub fn range_header(range: ByteRange) -> (s: String)
    requires
        range.1 != Some(0u64),
    ensures
        s@ == range_text(range),
{
    let mut s: String = "bytes=".to_owned();
    text::push_decimal(&mut s, range.0);
    s.append("-");
    match range.1 {
        Some(end) => {
            text::push_decimal(&mut s, end - 1);
        },
        None => {},
    }
    s
}

/// What a run asks for next.
#[derive(Debug)]
pub enum FetchAction {
    /// The text of an index.
    ReadIndex { url: String },
    /// A run of bytes.
    ReadRange { url: String, range: String },
    /// That the bytes of a frame be appended to the output.
    WriteFrame { bytes: Vec<u8> },
    /// That what came of a frame be reported.
    Report { progress: FetchProgress },
    /// Nothing: this is what the run came to.
    Finish { outcome: Result<FetchStats, FetchError> },
}

/// What a run waits for.
#[derive(Clone, Copy, Debug, PartialEq, Eq, Structural)]
pub enum Awaits {
    Index,
    Range,
    Write,
    Report,
    Nothing,
}

/// A run in progress.
pub struct FetchRun {
    pub spec: FetchSpec,
    pub source: Source,
    pub total: u32,
    pub fetched: u32,
    pub skipped: u32,
    pub total_bytes: u64,
    /// The number of the frame, counted from 1.
    pub idx: u32,
    pub frame_t: UtcTime,
    pub url: String,
    pub ranges: Vec<ByteRange>,
    pub range_at: usize,
    /// The bytes of the frame that were read so far.
    pub frame: Vec<u8>,
    /// How many bytes of the frame are to be written.
    pub frame_bytes: u64,
    pub awaits: Awaits,
    /// The bytes that are to be written.
    pub sent: Ghost<Seq<u8>>,
    /// What was written of each frame that was reported, in order; nothing of a skipped one.
    pub bodies: Ghost<Seq<Option<Seq<u8>>>>,
}

/// The bytes of frames one after the other, without those that were skipped.
pub open spec fn joined(bodies: Seq<Option<Seq<u8>>>) -> Seq<u8>
    decreases bodies.len(),
{
    if bodies.len() == 0 {
        Seq::empty()
    } else {
        match bodies.last() {
            Some(b) => joined(bodies.drop_last()) + b,
            None => joined(bodies.drop_last()),
        }
    }
}

/// How many frames were not skipped.
pub open spec fn count_fetched(bodies: Seq<Option<Seq<u8>>>) -> nat
    decreases bodies.len(),
{
    if bodies.len() == 0 {
        0
    } else if bodies.last() is Some {
        count_fetched(bodies.drop_last()) + 1
    } else {
        count_fetched(bodies.drop_last())
    }
}

/// Whether an action is to read the index of a frame.
pub open spec fn reads_index(a: FetchAction, source: Source, t: UtcTime) -> bool {
    a matches FetchAction::ReadIndex { url } && url@ == frame_url(source, t) + ".idx"@
}

/// What a run comes to.
pub open spec fn ends(a: FetchAction, run: FetchRun) -> bool {
    a matches FetchAction::Finish { outcome } && if run.fetched == 0 {
        outcome matches Err(FetchError::NoFramesFetched { skipped }) && skipped == run.skipped
    } else {
        outcome == Ok::<FetchStats, FetchError>(
            (FetchStats {
                fetched: run.fetched,
                skipped: run.skipped,
                total_bytes: run.total_bytes,
            }),
        )
    }
}

/// Whether a run skips its frame for a reason.
pub open spec fn skips(a: FetchAction, before: FetchRun, after: FetchRun, reason: Seq<char>) -> bool {
    &&& a matches FetchAction::Report {
        progress: FetchProgress::Skipped { idx, total, timestamp, reason: told },
    } && idx == before.idx && total == before.total && timestamp == before.frame_t && told@ == reason
    &&& after.skipped == before.skipped + 1
    &&& after.fetched == before.fetched
    &&& after.total_bytes == before.total_bytes
    &&& after.awaits == Awaits::Report
    &&& after.bodies@ == before.bodies@.push(None)
}

/// Whether no message is listed to begin at byte 0 behind one that holds wind.
pub open spec fn askable(ranges: Seq<ByteRange>) -> bool {
    forall|k: int| 0 <= k < ranges.len() ==> (#[trigger] ranges[k]).1 != Some(0u64)
}

impl FetchRun {
    /// Whether the run is in order: its frame is the one with its number and lies
    /// in the window, each frame before it was either fetched or skipped, and the counts
    /// are those of what was written.
    pub open spec fn wf(&self) -> bool {
        &&& self.spec.wf()
        &&& self.spec.valid()
        &&& self.total == (if self.spec.frames() > u32::MAX {
            u32::MAX as int
        } else {
            self.spec.frames()
        })
        &&& 1 <= self.idx <= self.spec.frames()
        &&& self.frame_t.wf()
        &&& self.frame_t.instant() == self.spec.start.instant() + (self.idx - 1) * self.spec.step()
        &&& self.frame_t.instant() < self.spec.end.instant()
        &&& self.url@ == frame_url(self.source, self.frame_t)
        &&& askable(self.ranges@)
        &&& self.fetched + self.skipped == (match self.awaits {
            Awaits::Report => self.idx as int,
            Awaits::Nothing => self.fetched + self.skipped,
            _ => self.idx - 1,
        })
        &&& self.awaits == Awaits::Range ==> self.range_at < self.ranges@.len()
        &&& self.awaits == Awaits::Write ==> self.frame_bytes == self.sent@.len()
        &&& self.fetched + self.skipped == self.bodies@.len()
        &&& self.fetched == count_fetched(self.bodies@)
        &&& self.total_bytes == joined(self.bodies@).len()
    }

    /// Whether what a run was made for, and its place in the window, stay.
    pub open spec fn same_frame(&self, other: FetchRun) -> bool {
        &&& self.spec == other.spec
        &&& self.source == other.source
        &&& self.total == other.total
        &&& self.idx == other.idx
        &&& self.frame_t == other.frame_t
    }

    /// A run at its first frame, and what it asks for; or why the frames cannot be
    /// fetched.
    pub fn begin(spec: FetchSpec, source: Source) -> (r: Result<(FetchRun, FetchAction), FetchError>)
        requires
            spec.wf(),
        ensures
            r is Ok <==> spec.valid(),
            r matches Ok((run, action)) ==> {
                &&& run.wf()
                &&& run.spec == spec
                &&& run.source == source
                &&& run.fetched == 0
                &&& run.skipped == 0
                &&& run.total_bytes == 0
                &&& run.idx == 1
                &&& run.frame_t == spec.start
                &&& run.awaits == Awaits::Index
                &&& run.bodies@.len() == 0
                &&& reads_index(action, source, spec.start)
            },
            r matches Err(e) ==> match e {
                FetchError::StartNotOnCycle { hour } => hour == spec.start.hour_of() && hour % 6 != 0,
                FetchError::BadWindow => spec.start.hour_of() % 6 == 0 && spec.end.instant()
                    <= spec.start.instant(),
                FetchError::BadInterval { interval_h } => {
                    &&& spec.start.hour_of() % 6 == 0
                    &&& spec.start.instant() < spec.end.instant()
                    &&& interval_h == spec.interval_h
                    &&& !divides_cycle(interval_h)
                },
                _ => false,
            },
    {
        match validate_spec(&spec) {
            Err(e) => {
                return Err(e);
            },
            Ok(_) => {},
        }
        let total: u32 = expected_frame_count(&spec);
        match url_of_frame(source, spec.start) {
            Err(e) => Err(e),
            Ok(url) => {
                proof {
                    lemma_some_frame(spec);
                }
                let mut idx_url: String = url.clone();
                idx_url.append(".idx");
                let run: FetchRun = FetchRun {
                    spec,
                    source,
                    total,
                    fetched: 0,
                    skipped: 0,
                    total_bytes: 0,
                    idx: 1,
                    frame_t: spec.start,
                    url,
                    ranges: Vec::new(),
                    range_at: 0,
                    frame: Vec::new(),
                    frame_bytes: 0,
                    awaits: Awaits::Index,
                    sent: Ghost(Seq::empty()),
                    bodies: Ghost(Seq::empty()),
                };
                Ok((run, FetchAction::ReadIndex { url: idx_url }))
            },
        }
    }

    /// Skips the frame.
    fn skip(&mut self, reason: String) -> (action: FetchAction)
        requires
            old(self).wf(),
            old(self).awaits == Awaits::Index || old(self).awaits == Awaits::Range,
        ensures
            final(self).wf(),
            final(self).same_frame(*old(self)),
            skips(action, *old(self), *final(self), reason@),
    {
        self.skipped = self.skipped + 1;
        self.awaits = Awaits::Report;
        let ghost before = self.bodies@;
        self.bodies = Ghost(before.push(None));
        assert(self.bodies@.drop_last() =~= before);
        FetchAction::Report {
            progress: FetchProgress::Skipped {
                idx: self.idx,
                total: self.total,
                timestamp: self.frame_t,
                reason,
            },
        }
    }

    /// Tells the run what came of reading the index: its text, or why it could not
    /// be read. The frame is skipped unless the index lists two runs of bytes that
    /// hold wind; otherwise the first of them is asked for.
    pub fn on_index(&mut self, got: Result<String, String>) -> (action: FetchAction)
        requires
            old(self).wf(),
            old(self).awaits == Awaits::Index,
            got matches Ok(idx) ==> askable(index::wind_ranges(idx@)),
        ensures
            final(self).wf(),
            final(self).same_frame(*old(self)),
            match got {
                Err(e) => skips(action, *old(self), *final(self), "idx unavailable: "@ + e@),
                Ok(idx) => {
                    let ranges = index::wind_ranges(idx@);
                    if ranges.len() < 2 {
                        skips(
                            action,
                            *old(self),
                            *final(self),
                            "UGRD/VGRD@10m not found in idx (got "@ + text::decimal(ranges.len())
                                + " hits)"@,
                        )
                    } else {
                        &&& action matches FetchAction::ReadRange { url, range } && url@
                            == frame_url(old(self).source, old(self).frame_t) && range@ == range_text(
                            ranges[0],
                        )
                        &&& final(self).ranges@ == ranges
                        &&& final(self).range_at == 0
                        &&& final(self).frame@.len() == 0
                        &&& final(self).awaits == Awaits::Range
                        &&& final(self).fetched == old(self).fetched
                        &&& final(self).skipped == old(self).skipped
                        &&& final(self).total_bytes == old(self).total_bytes
                        &&& final(self).bodies == old(self).bodies
                    }
                },
            },
    {
        let idx: String = match got {
            Err(e) => {
                let mut reason: String = "idx unavailable: ".to_owned();
                reason.append(e.as_str());
                return self.skip(reason);
            },
            Ok(idx) => idx,
        };
        let ranges: Vec<ByteRange> = parse_idx_for_10m_wind(idx.as_str());
        if ranges.len() < 2 {
            let mut reason: String = "UGRD/VGRD@10m not found in idx (got ".to_owned();
            text::push_decimal(&mut reason, ranges.len() as u64);
            reason.append(" hits)");
            return self.skip(reason);
        }
        let range: String = range_header(ranges[0]);
        self.ranges = ranges;
        self.range_at = 0;
        self.frame = Vec::new();
        self.awaits = Awaits::Range;
        FetchAction::ReadRange { url: self.url.clone(), range }
    }

    /// Tells the run what came of a run of bytes: the bytes, or why they could not be
    /// read. The frame is skipped where they could not, and what was read of it is left
    /// out; otherwise the next run of bytes is asked for, and after the last that the
    /// frame be written.
    pub fn on_range(&mut self, got: Result<Vec<u8>, String>) -> (action: FetchAction)
        requires
            old(self).wf(),
            old(self).awaits == Awaits::Range,
        ensures
            final(self).wf(),
            final(self).same_frame(*old(self)),
            match got {
                Err(e) => skips(action, *old(self), *final(self), "range fetch failed: "@ + e@),
                Ok(b) => {
                    &&& final(self).fetched == old(self).fetched
                    &&& final(self).skipped == old(self).skipped
                    &&& final(self).total_bytes == old(self).total_bytes
                    &&& final(self).bodies == old(self).bodies
                    &&& if old(self).range_at + 1 < old(self).ranges@.len() {
                        &&& action matches FetchAction::ReadRange { url, range } && url@ == frame_url(
                            old(self).source,
                            old(self).frame_t,
                        ) && range@ == range_text(old(self).ranges@[old(self).range_at + 1])
                        &&& final(self).ranges == old(self).ranges
                        &&& final(self).range_at == old(self).range_at + 1
                        &&& final(self).frame@ == old(self).frame@ + b@
                        &&& final(self).awaits == Awaits::Range
                    } else {
                        &&& action matches FetchAction::WriteFrame { bytes } && bytes@
                            == old(self).frame@ + b@
                        &&& final(self).frame_bytes == (old(self).frame@ + b@).len()
                        &&& final(self).sent@ == old(self).frame@ + b@
                        &&& final(self).awaits == Awaits::Write
                    }
                },
            },
    {
        let b: Vec<u8> = match got {
            Err(e) => {
                let mut reason: String = "range fetch failed: ".to_owned();
                reason.append(e.as_str());
                return self.skip(reason);
            },
            Ok(b) => b,
        };
        let mut frame: Vec<u8> = Vec::new();
        std::mem::swap(&mut frame, &mut self.frame);
        bytes::push_all(&mut frame, b.as_slice());
        let count: usize = self.ranges.len();
        if self.range_at + 1 < count {
            self.frame = frame;
            self.range_at = self.range_at + 1;
            let range: String = range_header(self.ranges[self.range_at]);
            return FetchAction::ReadRange { url: self.url.clone(), range };
        }
        self.frame_bytes = frame.len() as u64;
        self.sent = Ghost(frame@);
        self.awaits = Awaits::Write;
        FetchAction::WriteFrame { bytes: frame }
    }

    /// Tells the run what came of writing the bytes of a frame. Where they were written
    /// the frame is fetched; otherwise the run ends with the failure.
    pub fn on_written(&mut self, got: Result<(), IoError>) -> (action: FetchAction)
        requires
            old(self).wf(),
            old(self).awaits == Awaits::Write,
            old(self).total_bytes + old(self).frame_bytes <= u64::MAX,
        ensures
            final(self).wf(),
            final(self).same_frame(*old(self)),
            final(self).skipped == old(self).skipped,
            got matches Err(e) ==> {
                &&& action matches FetchAction::Finish { outcome: Err(FetchError::Io(f)) } && f == e
                &&& final(self).fetched == old(self).fetched
                &&& final(self).total_bytes == old(self).total_bytes
                &&& final(self).bodies == old(self).bodies
                &&& final(self).awaits == Awaits::Nothing
            },
            got is Ok ==> {
                &&& action matches FetchAction::Report {
                    progress: FetchProgress::Fetched { idx, total, timestamp, bytes },
                } && idx == old(self).idx && total == old(self).total && timestamp
                    == old(self).frame_t && bytes == old(self).frame_bytes
                &&& final(self).fetched == old(self).fetched + 1
                &&& final(self).total_bytes == old(self).total_bytes + old(self).frame_bytes
                &&& final(self).bodies@ == old(self).bodies@.push(Some(old(self).sent@))
                &&& final(self).awaits == Awaits::Report
            },
    {
        match got {
            Err(e) => {
                self.awaits = Awaits::Nothing;
                FetchAction::Finish { outcome: Err(FetchError::Io(e)) }
            },
            Ok(_) => {
                self.fetched = self.fetched + 1;
                self.total_bytes = self.total_bytes + self.frame_bytes;
                self.awaits = Awaits::Report;
                let ghost before = self.bodies@;
                self.bodies = Ghost(before.push(Some(self.sent@)));
                assert(self.bodies@.drop_last() =~= before);
                FetchAction::Report {
                    progress: FetchProgress::Fetched {
                        idx: self.idx,
                        total: self.total,
                        timestamp: self.frame_t,
                        bytes: self.frame_bytes,
                    },
                }
            },
        }
    }

    /// Tells the run that a frame was reported, and whether it is to stop. It goes
    /// on to the next frame of the window. Where there is none, or it is to stop,
    /// it comes to its end, which is an error where no frame was fetched.
    pub fn on_reported(&mut self, stop: bool) -> (action: FetchAction)
        requires
            old(self).wf(),
            old(self).awaits == Awaits::Report,
            !stop && old(self).idx < old(self).spec.frames() ==> old(self).idx < u32::MAX,
        ensures
            final(self).wf(),
            final(self).spec == old(self).spec,
            final(self).source == old(self).source,
            final(self).total == old(self).total,
            final(self).fetched == old(self).fetched,
            final(self).skipped == old(self).skipped,
            final(self).total_bytes == old(self).total_bytes,
            final(self).bodies == old(self).bodies,
            if stop || old(self).idx == old(self).spec.frames() {
                &&& ends(action, *old(self))
                &&& final(self).awaits == Awaits::Nothing
                &&& final(self).idx == old(self).idx
            } else {
                &&& reads_index(action, old(self).source, final(self).frame_t)
                &&& final(self).awaits == Awaits::Index
                &&& final(self).idx == old(self).idx + 1
                &&& final(self).frame_t.instant() == old(self).frame_t.instant() + old(self).spec.step()
            },
    {
        let next: i64 = self.frame_t.seconds + self.spec.interval_h as i64 * 3600;
        let next_t: UtcTime = UtcTime { seconds: next, nanos: self.frame_t.nanos };
        let more: bool = next < self.spec.end.seconds || (next == self.spec.end.seconds
            && self.frame_t.nanos < self.spec.end.nanos);
        proof {
            lemma_frames(self.spec, self.idx as int);
            assert(next_t.instant() == self.frame_t.instant() + self.spec.step());
            assert(self.idx * self.spec.step() == (self.idx - 1) * self.spec.step() + self.spec.step())
                by (nonlinear_arith);
            assert(more <==> next_t.instant() < self.spec.end.instant());
            assert(more <==> self.idx < self.spec.frames());
        }
        if stop || !more {
            self.awaits = Awaits::Nothing;
            let outcome: Result<FetchStats, FetchError> = if self.fetched == 0 {
                Err(FetchError::NoFramesFetched { skipped: self.skipped })
            } else {
                Ok(
                    FetchStats {
                        fetched: self.fetched,
                        skipped: self.skipped,
                        total_bytes: self.total_bytes,
                    },
                )
            };
            return FetchAction::Finish { outcome };
        }
        match url_of_frame(self.source, next_t) {
            Err(e) => FetchAction::Finish { outcome: Err(e) },
            Ok(url) => {
                let mut idx_url: String = url.clone();
                idx_url.append(".idx");
                self.idx = self.idx + 1;
                self.frame_t = next_t;
                self.url = url;
                self.awaits = Awaits::Index;
                FetchAction::ReadIndex { url: idx_url }
            },
        }
    }
}

/// What a run tells at its end are the counts of what was written: of the frames that were
/// fetched, of those that were skipped, and of the bytes of the fetched ones, which stand in
/// the output one after the other in order of time.
pub proof fn law_a_run_counts_its_output(run: FetchRun, action: FetchAction, stats: FetchStats)
    requires
        run.wf(),
        ends(action, run),
        action matches FetchAction::Finish { outcome } && outcome == Ok::<FetchStats, FetchError>(stats),
    ensures
        stats.fetched == count_fetched(run.bodies@) > 0,
        stats.skipped == run.bodies@.len() - count_fetched(run.bodies@),
        stats.total_bytes == joined(run.bodies@).len(),
{
}

/// Writing one more frame appends its bytes to the output, and skipping one leaves it.
pub proof fn law_output_grows_by_frames(bodies: Seq<Option<Seq<u8>>>, body: Option<Seq<u8>>)
    ensures
        joined(bodies.push(body)) == joined(bodies) + (match body {
            Some(b) => b,
            None => Seq::empty(),
        }),
{
    assert(bodies.push(body).drop_last() =~= bodies);
    assert(joined(bodies) + Seq::<u8>::empty() =~= joined(bodies));
}

/// A window that is not empty has a frame.
proof fn lemma_some_frame(spec: FetchSpec)
    requires
        spec.valid(),
    ensures
        spec.frames() >= 1,
{
    lemma_frames(spec, 0);
}

/// There are more than `n` frames where frame `n`, counted from 0, lies in the
/// window.
proof fn lemma_frames(spec: FetchSpec, n: int)
    requires
        spec.valid(),
        n >= 0,
    ensures
        n < spec.frames() <==> spec.start.instant() + n * spec.step() < spec.end.instant(),
{
    let w = spec.end.instant() - spec.start.instant();
    let s = spec.step();
    assert(n < (w + s - 1) / s <==> n * s < w) by (nonlinear_arith)
        requires
            s > 0,
            w > 0,
            n >= 0,
    ;
}

/// The frames of a window that can be fetched fall on lead times that are multiples
/// of the interval, and none of them is longer than is fetched.
pub proof fn law_frames_fall_on_leads(spec: FetchSpec, k: int, t: UtcTime)
    requires
        spec.wf(),
        spec.valid(),
        0 <= k < spec.frames(),
        t.wf(),
        t.instant() == spec.start.instant() + k * spec.step(),
    ensures
        t.hour_of() % 6 == (k * spec.interval_h) % 6,
        (t.hour_of() % 6) % (spec.interval_h as int) == 0,
        t.hour_of() % 6 <= MAX_FORECAST_HOUR,
{
    let i = spec.interval_h as int;
    let p = k * i;
    assert(k * spec.step() == p * 3_600_000_000_000) by (nonlinear_arith)
        requires
            spec.step() == i * 3_600_000_000_000,
            p == k * i,
    ;
    lemma_whole_seconds(spec.start, t, p * 3600);
    lemma_hours_later(spec.start.seconds as int, t.seconds as int, p);
    lemma_leads(k, i);
}

/// A multiple of a divisor of 6 leaves a multiple of it when divided by 6.
proof fn lemma_leads(k: int, i: int)
    requires
        i == 1 || i == 2 || i == 3 || i == 6,
    ensures
        ((k * i) % 6) % i == 0,
{
    let p = k * i;
    vstd::arithmetic::div_mod::lemma_mod_multiples_basic(k, i);
    if i == 1 {
        vstd::arithmetic::div_mod::lemma_mod_mod(p, 1, 6);
    } else if i == 2 {
        vstd::arithmetic::div_mod::lemma_mod_mod(p, 2, 3);
    } else if i == 3 {
        vstd::arithmetic::div_mod::lemma_mod_mod(p, 3, 2);
    } else {
        vstd::arithmetic::div_mod::lemma_mod_mod(p, 6, 1);
    }
}

/// Instants that are whole seconds apart have the same nanoseconds.
proof fn lemma_whole_seconds(a: UtcTime, b: UtcTime, n: int)
    requires
        a.wf(),
        b.wf(),
        b.instant() == a.instant() + n * 1_000_000_000,
    ensures
        b.seconds == a.seconds + n,
{
}

/// The hour of the day is that of the whole hours, counted within days.
proof fn lemma_hour_of_day(a: int)
    ensures
        a % 86_400 / 3600 == (a / 3600) % 24,
{
    let d = a / 86_400;
    let s = a % 86_400;
    assert(a == d * 86_400 + s);
    assert(a / 3600 == d * 24 + s / 3600);
}

/// The hour of the day after some hours, counted from the last model run.
proof fn lemma_hours_later(a: int, b: int, hours: int)
    requires
        b == a + hours * 3600,
        a % 86_400 / 3600 % 6 == 0,
    ensures
        b % 86_400 / 3600 % 6 == hours % 6,
{
    let h = a / 3600;
    lemma_hour_of_day(a);
    lemma_hour_of_day(b);
    assert(b / 3600 == h + hours);
    vstd::arithmetic::div_mod::lemma_mod_mod(h, 6, 4);
    vstd::arithmetic::div_mod::lemma_mod_mod(h + hours, 6, 4);
}

/// Why a GRIB2 file cannot be turned into a file of wind fields.
#[derive(Debug)]
pub enum TranscodeError {
    /// The GRIB2 file cannot be opened.
    OpenGrib2 { path: String, source: IoError },
    /// The GRIB2 file cannot be read.
    DecodeGrib2 { path: String, source: grib2::LoadError },
    /// The other file cannot be made.
    CreateWcav { path: String, source: IoError },
    /// The wind fields cannot be written.
    EncodeWcav { path: String, source: EncodeError },
}

impl TranscodeError {
    /// The error in words.
    pub open spec fn words(&self) -> Seq<char> {
        match self {
            TranscodeError::OpenGrib2 { path, source } => "opening "@ + path@ + ": "@
                + source.message@,
            TranscodeError::DecodeGrib2 { path, source } => "decoding GRIB2 from "@ + path@ + ": "@
                + source.words(),
            TranscodeError::CreateWcav { path, source } => "creating "@ + path@ + ": "@
                + source.message@,
            TranscodeError::EncodeWcav { path, source } => "encoding wind_av1 at "@ + path@ + ": "@
                + source.words(),
        }
    }

    /// The error in words.
    pub fn message(&self) -> (s: String)
        ensures
            s@ == self.words(),
    {
        match self {
            TranscodeError::OpenGrib2 { path, source } => about(
                "opening ",
                path,
                source.message.as_str(),
            ),
            TranscodeError::DecodeGrib2 { path, source } => about(
                "decoding GRIB2 from ",
                path,
                source.message().as_str(),
            ),
            TranscodeError::CreateWcav { path, source } => about(
                "creating ",
                path,
                source.message.as_str(),
            ),
            TranscodeError::EncodeWcav { path, source } => about(
                "encoding wind_av1 at ",
                path,
                source.message().as_str(),
            ),
        }
    }
}

/// What was done, with which file, and what came of it.
fn about(doing: &str, path: &String, what: &str) -> (s: String)
    ensures
        s@ == doing@ + path@ + ": "@ + what@,
{
    let mut s: String = doing.to_owned();
    s.append(path.as_str());
    s.append(": ");
    s.append(what);
    s
}

/// There is a frame so many steps after the start just if that is before the end.
pub proof fn law_frames_lie_before_the_end(spec: FetchSpec, k: int)
    requires
        k >= 0,
    ensures
        k < spec.frames() <==> spec.start.instant() + k * spec.step() < spec.end.instant(),
        spec.interval_h > 0 ==> spec.step() == spec.interval_h * 3_600_000_000_000,
        spec.interval_h == 0 ==> spec.step() == 3_600_000_000_000,
        spec.frames() >= 0,
{
    let d = spec.end.instant() - spec.start.instant();
    let st = spec.step();
    if d > 0 {
        let q = (d + st - 1) / st;
        vstd::arithmetic::div_mod::lemma_fundamental_div_mod(d + st - 1, st);
        vstd::arithmetic::div_mod::lemma_mod_bound(d + st - 1, st);
        let r = (d + st - 1) % st;
        assert(k < q <==> k * st < d) by (nonlinear_arith)
            requires
                d + st - 1 == st * q + r,
                0 <= r < st,
                st > 0,
        ;
        assert(q >= 0) by (nonlinear_arith)
            requires
                d + st - 1 == st * q + r,
                0 <= r < st,
                st > 0,
                d > 0,
        ;
    } else {
        assert(k * st >= 0) by (nonlinear_arith)
            requires
                k >= 0,
                st > 0,
        ;
    }
}

/// Frames may be as many hours apart as six can be divided by.
pub proof fn law_intervals_divide_a_cycle(interval_h: u32)
    ensures
        divides_cycle(interval_h) <==> interval_h > 0 && 6int % (interval_h as int) == 0,
{
    if interval_h > 6 {
        vstd::arithmetic::div_mod::lemma_small_mod(6, interval_h as nat);
    }
    assert(6int % 1 == 0 && 6int % 2 == 0 && 6int % 3 == 0 && 6int % 4 == 2 && 6int % 5 == 1 && 6int % 6
        == 0);
    let h = interval_h;
    assert(h == 0 || h == 1 || h == 2 || h == 3 || h == 4 || h == 5 || h == 6 || h > 6);
}

/// A request can be fetched just if it starts in the first hour of a model run, ends after it
/// starts, and its interval divides six hours.
pub proof fn law_requests_that_can_be_fetched(spec: FetchSpec)
    ensures
        spec.valid() <==> (spec.start.seconds as int / 3600) % 6 == 0 && spec.start.instant()
            < spec.end.instant() && spec.interval_h > 0 && 6int % (spec.interval_h as int) == 0,
{
    law_intervals_divide_a_cycle(spec.interval_h);
    let s = spec.start.seconds as int;
    assert((s % 86_400 / 3600) % 6 == (s / 3600) % 6);
}

/// A frame comes from the model run that began at most five hours before it, in one of the
/// hours 0, 6, 12 and 18 of the same day, as many whole hours later as its address tells.
pub proof fn law_frames_come_from_the_last_run(t: UtcTime)
    requires
        t.wf(),
    ensures
        cycle_of(t).nanos == t.nanos,
        cycle_of(t).hour_of() % 6 == 0,
        cycle_of(t).day_of() == t.day_of(),
        ({
            let lead = t.hour_of() % 6;
            &&& 0 <= lead <= 5
            &&& t.seconds - cycle_of(t).seconds == lead * 3600
            &&& frame_url(Source::Gfs, t) == gfs_url(cycle_of(t), lead as u32)
        }),
        forall|m: GefsMember| #[trigger]
            frame_url(Source::Gefs(m), t) == fetch_ensemble::gefs_url(
                cycle_of(t),
                (t.hour_of() % 6) as u32,
                m,
            ),
{
    let s = t.seconds as int;
    let day = s / 86_400;
    let rest = s % 86_400;
    let lead = rest / 3600 % 6;
    let c = s - lead * 3600;
    assert(s == 86_400 * day + rest && 0 <= rest < 86_400);
    assert(0 <= lead <= 5 && lead <= rest / 3600);
    assert(c == day * 86_400 + (rest - lead * 3600));
    vstd::arithmetic::div_mod::lemma_fundamental_div_mod_converse(
        c,
        86_400,
        day,
        rest - lead * 3600,
    );
    assert((rest - lead * 3600) / 3600 == rest / 3600 - lead);
    assert((rest / 3600 - lead) % 6 == 0);
    assert(cycle_of(t).seconds == c);
}

/// A run is asked for by its first and its last byte; the last message's by its first alone.
pub proof fn law_runs_are_asked_for_by_their_ends(first: u64, end: u64)
    requires
        end > 0,
    ensures
        range_text((first, None)) == "bytes="@ + text::decimal(first as nat) + "-"@,
        range_text((first, Some(end))) == range_text((first, None)) + text::decimal(
            (end - 1) as nat,
        ),
{
    assert(range_text((first, Some(end))) =~= range_text((first, None)) + text::decimal(
        (end - 1) as nat,
    ));
}

/// A frame counts as fetched where something was written of it.
pub proof fn law_fetched_frames_are_counted(bodies: Seq<Option<Seq<u8>>>, body: Option<Seq<u8>>)
    ensures
        count_fetched(bodies.push(body)) == count_fetched(bodies) + (if body is Some {
            1nat
        } else {
            0nat
        }),
        count_fetched(Seq::empty()) == 0,
        joined(Seq::empty()).len() == 0,
{
    assert(bodies.push(body).drop_last() =~= bodies);
}

/// A run stands at the frame of its number, so many steps after the start, and the index that it
/// asks for first is that of the frame's file, with `.idx` behind its name.
pub proof fn law_run_stands_at_its_frame(run: FetchRun, a: FetchAction, url: String)
    requires
        run.wf(),
        a == (FetchAction::ReadIndex { url }),
        reads_index(a, run.source, run.frame_t),
    ensures
        run.frame_t.instant() == run.spec.start.instant() + (run.idx - 1) * run.spec.step(),
        run.frame_t.instant() < run.spec.end.instant(),
        ({
            let n = frame_url(run.source, run.frame_t).len() as int;
            &&& url@.len() == n + 4
            &&& url@.take(n) == frame_url(run.source, run.frame_t)
            &&& url@[n] == '.' && url@[n + 1] == 'i' && url@[n + 2] == 'd' && url@[n + 3] == 'x'
        }),
{
    reveal_strlit(".idx");
    let n = frame_url(run.source, run.frame_t).len() as int;
    assert(url@.take(n) =~= frame_url(run.source, run.frame_t));
}

/// A frame that is skipped is reported under its number and its time, and counted with the
/// skipped ones alone.
pub proof fn law_skipped_frames(a: FetchAction, before: FetchRun, after: FetchRun, reason: Seq<char>)
    requires
        skips(a, before, after, reason),
    ensures
        match a {
            FetchAction::Report {
                progress: FetchProgress::Skipped { idx, total, timestamp, reason: told },
            } => idx == before.idx && total == before.total && timestamp == before.frame_t && told@
                == reason,
            _ => false,
        },
        after.skipped == before.skipped + 1,
        after.fetched == before.fetched,
        after.total_bytes == before.total_bytes,
        joined(after.bodies@) == joined(before.bodies@),
{
    law_output_grows_by_frames(before.bodies@, None);
    assert(joined(before.bodies@) + Seq::<u8>::empty() =~= joined(before.bodies@));
}

/// A run that fetched nothing ends in an error that tells how many frames were skipped, every
/// other in its counts.
pub proof fn law_runs_end_with_their_counts(a: FetchAction, run: FetchRun)
    requires
        ends(a, run),
    ensures
        match a {
            FetchAction::Finish { outcome: Ok(stats) } => run.fetched > 0 && stats.fetched
                == run.fetched && stats.skipped == run.skipped && stats.total_bytes == run.total_bytes,
            FetchAction::Finish { outcome: Err(FetchError::NoFramesFetched { skipped }) } => run.fetched
                == 0 && skipped == run.skipped,
            _ => false,
        },
{
}

} // verus!
