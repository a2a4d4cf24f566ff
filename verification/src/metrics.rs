use vstd::prelude::*;
use crate::text::{decimal, push_decimal, push_signed_decimal, push_str, signed_decimal, string_of};

verus! {

/// Schema version written at the head of every metrics JSON document.
pub const METRICS_SCHEMA_VERSION: u32 = 1;

/// Compiler and runtime stages to which measurements are attributed.
#[derive(Clone, Copy, Debug, PartialEq, Eq, Structural)]
pub enum Stage {
    SourceLoading,
    ModuleDiscovery,
    Lexing,
    Parsing,
    InterfaceExtraction,
    CacheLookup,
    IncrementalRebuild,
    Hir,
    Mir,
    Linking,
    Bytecode,
    Verification,
    Vm,
    Cache,
    Jit,
    Sapi,
    PreparedExecution,
    Other,
}

/// The stable snake-case label of a stage.
pub open spec fn stage_label(stage: Stage) -> Seq<char> {
    match stage {
        Stage::SourceLoading => "source_loading"@,
        Stage::ModuleDiscovery => "module_discovery"@,
        Stage::Lexing => "lexing"@,
        Stage::Parsing => "parsing"@,
        Stage::InterfaceExtraction => "interface_extraction"@,
        Stage::CacheLookup => "cache_lookup"@,
        Stage::IncrementalRebuild => "incremental_rebuild"@,
        Stage::Hir => "hir"@,
        Stage::Mir => "mir"@,
        Stage::Linking => "linking"@,
        Stage::Bytecode => "bytecode"@,
        Stage::Verification => "verification"@,
        Stage::Vm => "vm"@,
        Stage::Cache => "cache"@,
        Stage::Jit => "jit"@,
        Stage::Sapi => "sapi"@,
        Stage::PreparedExecution => "prepared_execution"@,
        Stage::Other => "other"@,
    }
}

impl Stage {
    /// Returns the stable label used in reports.
    pub fn as_str(self) -> (label: &'static str)
        ensures
            label@ == stage_label(self),
    {
        match self {
            Stage::SourceLoading => "source_loading",
            Stage::ModuleDiscovery => "module_discovery",
            Stage::Lexing => "lexing",
            Stage::Parsing => "parsing",
            Stage::InterfaceExtraction => "interface_extraction",
            Stage::CacheLookup => "cache_lookup",
            Stage::IncrementalRebuild => "incremental_rebuild",
            Stage::Hir => "hir",
            Stage::Mir => "mir",
            Stage::Linking => "linking",
            Stage::Bytecode => "bytecode",
            Stage::Verification => "verification",
            Stage::Vm => "vm",
            Stage::Cache => "cache",
            Stage::Jit => "jit",
            Stage::Sapi => "sapi",
            Stage::PreparedExecution => "prepared_execution",
            Stage::Other => "other",
        }
    }
}

/// The allocator counters of one stage, and the live and peak live bytes,
/// at one moment.
#[derive(Clone, Copy, Debug, Default)]
pub struct AllocationSnapshot {
    pub allocations: u64,
    pub deallocations: u64,
    pub allocated_bytes: u64,
    pub deallocated_bytes: u64,
    pub live_bytes: u64,
    pub peak_live_bytes: u64,
}

/// What one measured stage did.
#[derive(Clone, Copy, Debug)]
pub struct Measurement {
    pub stage: Stage,
    /// Elapsed wall time in nanoseconds.
    pub wall_nanos: u128,
    pub allocations: u64,
    pub deallocations: u64,
    pub allocated_bytes: u64,
    pub deallocated_bytes: u64,
    pub retained_bytes_delta: i64,
    pub peak_live_bytes: u64,
    pub items: u64,
    pub output_bytes: u64,
}

impl Measurement {
    /// Records how many items and bytes the stage produced.
    pub fn set_output(&mut self, items: usize, bytes: usize)
        ensures
            *final(self) == (Measurement { items: items as u64, output_bytes: bytes as u64, ..*old(self) }),
    {
        self.items = items as u64;
        self.output_bytes = bytes as u64;
    }
}

/// `after - before` as a signed count, saturating at the `i64` range.
pub open spec fn delta(after: u64, before: u64) -> i64 {
    if after >= before {
        if after - before > i64::MAX { i64::MAX } else { (after - before) as i64 }
    } else {
        if before - after > i64::MAX { -i64::MAX as i64 } else { -((before - after) as int) as i64 }
    }
}

/// `after - before` as a signed count, saturating at the `i64` range.
pub fn signed_delta(after: u64, before: u64) -> (d: i64)
    ensures
        d == delta(after, before),
{
    if after >= before {
        let difference = after - before;
        if difference > 9223372036854775807u64 {
            9223372036854775807i64
        } else {
            difference as i64
        }
    } else {
        let difference = before - after;
        if difference > 9223372036854775807u64 {
            -9223372036854775807i64
        } else {
            -(difference as i64)
        }
    }
}

/// `a - b`, or zero when `b` is larger.
pub open spec fn saturating_difference(a: u64, b: u64) -> u64 {
    if a >= b { (a - b) as u64 } else { 0 }
}

/// The measurement of a stage from the counters before and after it.
pub open spec fn measured(stage: Stage, wall_nanos: u128, before: AllocationSnapshot, after: AllocationSnapshot) -> Measurement {
    Measurement {
        stage,
        wall_nanos,
        allocations: saturating_difference(after.allocations, before.allocations),
        deallocations: saturating_difference(after.deallocations, before.deallocations),
        allocated_bytes: saturating_difference(after.allocated_bytes, before.allocated_bytes),
        deallocated_bytes: saturating_difference(after.deallocated_bytes, before.deallocated_bytes),
        retained_bytes_delta: delta(after.live_bytes, before.live_bytes),
        peak_live_bytes: after.peak_live_bytes,
        items: 0,
        output_bytes: 0,
    }
}

/// The measurements of one run, in the order they were taken.
#[derive(Clone, Debug, Default)]
pub struct Metrics {
    measurements: Vec<Measurement>,
}

impl View for Metrics {
    type V = Seq<Measurement>;

    closed spec fn view(&self) -> Seq<Measurement> {
        self.measurements@
    }
}

/// The stage and timing fields of a measurement's JSON object.
pub open spec fn measurement_json_head(m: Measurement) -> Seq<char> {
    "{\"stage\":\""@ + stage_label(m.stage) + "\",\"wall_ns\":"@ + decimal(m.wall_nanos as nat)
}

/// The allocation fields of a measurement's JSON object.
pub open spec fn measurement_json_allocations(m: Measurement) -> Seq<char> {
    ",\"allocations\":"@ + decimal(m.allocations as nat) + ",\"deallocations\":"@ + decimal(m.deallocations as nat)
        + ",\"allocated_bytes\":"@ + decimal(m.allocated_bytes as nat) + ",\"deallocated_bytes\":"@ + decimal(
        m.deallocated_bytes as nat,
    )
}

/// The remaining fields of a measurement's JSON object.
pub open spec fn measurement_json_tail(m: Measurement) -> Seq<char> {
    ",\"retained_bytes_delta\":"@ + signed_decimal(m.retained_bytes_delta as int) + ",\"peak_live_bytes\":"@
        + decimal(m.peak_live_bytes as nat) + ",\"items\":"@ + decimal(m.items as nat) + ",\"output_bytes\":"@
        + decimal(m.output_bytes as nat) + "}"@
}

/// One measurement as a JSON object.
pub open spec fn measurement_json(m: Measurement) -> Seq<char> {
    measurement_json_head(m) + measurement_json_allocations(m) + measurement_json_tail(m)
}

/// The measurements as JSON objects separated by commas.
pub open spec fn measurements_json(ms: Seq<Measurement>) -> Seq<char>
    decreases ms.len(),
{
    if ms.len() == 0 {
        Seq::empty()
    } else if ms.len() == 1 {
        measurement_json(ms[0])
    } else {
        measurements_json(ms.drop_last()) + ","@ + measurement_json(ms.last())
    }
}

/// The metrics document.
pub open spec fn metrics_json(ms: Seq<Measurement>) -> Seq<char> {
    "{\"schema_version\":"@ + decimal(1) + ",\"measurements\":["@ + measurements_json(ms) + "]}"@
}

fn push_measurement_head(out: &mut Vec<char>, m: &Measurement)
    ensures
        final(out)@ == old(out)@ + measurement_json_head(*m),
{
    push_str(out, "{\"stage\":\"");
    push_str(out, m.stage.as_str());
    push_str(out, "\",\"wall_ns\":");
    push_decimal(out, m.wall_nanos);
    assert(final(out)@ =~= old(out)@ + measurement_json_head(*m));
}

fn push_measurement_allocations(out: &mut Vec<char>, m: &Measurement)
    ensures
        final(out)@ == old(out)@ + measurement_json_allocations(*m),
{
    push_str(out, ",\"allocations\":");
    push_decimal(out, m.allocations as u128);
    push_str(out, ",\"deallocations\":");
    push_decimal(out, m.deallocations as u128);
    push_str(out, ",\"allocated_bytes\":");
    push_decimal(out, m.allocated_bytes as u128);
    push_str(out, ",\"deallocated_bytes\":");
    push_decimal(out, m.deallocated_bytes as u128);
    assert(final(out)@ =~= old(out)@ + measurement_json_allocations(*m));
}

fn push_measurement_tail(out: &mut Vec<char>, m: &Measurement)
    ensures
        final(out)@ == old(out)@ + measurement_json_tail(*m),
{
    push_str(out, ",\"retained_bytes_delta\":");
    push_signed_decimal(out, m.retained_bytes_delta as i128);
    push_str(out, ",\"peak_live_bytes\":");
    push_decimal(out, m.peak_live_bytes as u128);
    push_str(out, ",\"items\":");
    push_decimal(out, m.items as u128);
    push_str(out, ",\"output_bytes\":");
    push_decimal(out, m.output_bytes as u128);
    push_str(out, "}");
    assert(final(out)@ =~= old(out)@ + measurement_json_tail(*m));
}

fn push_measurement(out: &mut Vec<char>, m: &Measurement)
    ensures
        final(out)@ == old(out)@ + measurement_json(*m),
{
    push_measurement_head(out, m);
    push_measurement_allocations(out, m);
    push_measurement_tail(out, m);
    assert(final(out)@ =~= old(out)@ + measurement_json(*m));
}

impl Metrics {
    /// No measurements.
    pub fn new() -> (metrics: Metrics)
        ensures
            metrics@.len() == 0,
    {
        Metrics { measurements: Vec::new() }
    }

    /// Appends the measurement of a stage that ran for `wall_nanos` between
    /// the two counter snapshots.
    pub fn record(&mut self, stage: Stage, wall_nanos: u128, before: AllocationSnapshot, after: AllocationSnapshot)
        ensures
            final(self)@ == old(self)@.push(measured(stage, wall_nanos, before, after)),
    {
        let m = Measurement {
            stage,
            wall_nanos,
            allocations: if after.allocations >= before.allocations { after.allocations - before.allocations } else { 0 },
            deallocations: if after.deallocations >= before.deallocations {
                after.deallocations - before.deallocations
            } else {
                0
            },
            allocated_bytes: if after.allocated_bytes >= before.allocated_bytes {
                after.allocated_bytes - before.allocated_bytes
            } else {
                0
            },
            deallocated_bytes: if after.deallocated_bytes >= before.deallocated_bytes {
                after.deallocated_bytes - before.deallocated_bytes
            } else {
                0
            },
            retained_bytes_delta: signed_delta(after.live_bytes, before.live_bytes),
            peak_live_bytes: after.peak_live_bytes,
            items: 0,
            output_bytes: 0,
        };
        self.measurements.push(m);
    }

    /// The measurements, oldest first.
    pub fn measurements(&self) -> (measurements: &[Measurement])
        ensures
            measurements@ == self@,
    {
        self.measurements.as_slice()
    }

    /// The latest measurement, to be changed in place.
    pub fn last_mut(&mut self) -> (last: Option<&mut Measurement>)
        ensures
            old(self)@.len() == 0 ==> (last is None && final(self)@ == old(self)@),
            old(self)@.len() > 0 ==> (last matches Some(r) && *r == old(self)@.last() && final(self)@ == old(
                self,
            )@.update(old(self)@.len() - 1, *final(r))),
    {
        self.measurements.as_mut_slice().last_mut()
    }

    /// The measurements as a JSON document.
    pub fn to_json(&self) -> (json: String)
        ensures
            json@ == metrics_json(self@),
    {
        let mut out: Vec<char> = Vec::new();
        push_str(&mut out, "{\"schema_version\":");
        push_decimal(&mut out, METRICS_SCHEMA_VERSION as u128);
        push_str(&mut out, ",\"measurements\":[");
        let ghost head = out@;
        let mut i: usize = 0;
        while i < self.measurements.len()
            invariant
                i <= self.measurements@.len(),
                out@ == head + measurements_json(self.measurements@.subrange(0, i as int)),
            decreases self.measurements.len() - i,
        {
            if i > 0 {
                push_str(&mut out, ",");
            }
            push_measurement(&mut out, &self.measurements[i]);
            i = i + 1;
            let ghost done = self.measurements@.subrange(0, i as int);
            assert(done.drop_last() =~= self.measurements@.subrange(0, i - 1));
            assert(out@ =~= head + measurements_json(done));
        }
        assert(self.measurements@.subrange(0, self.measurements@.len() as int) =~= self.measurements@);
        push_str(&mut out, "]}");
        assert(out@ =~= metrics_json(self@));
        string_of(out.as_slice())
    }
}

} // verus!
