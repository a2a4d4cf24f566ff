use thp::metrics::{signed_delta, AllocationSnapshot, Metrics, Stage, METRICS_SCHEMA_VERSION};

fn snapshot(allocations: u64, live: u64) -> AllocationSnapshot {
    AllocationSnapshot {
        allocations,
        deallocations: 0,
        allocated_bytes: allocations * 8,
        deallocated_bytes: 0,
        live_bytes: live,
        peak_live_bytes: live,
    }
}

#[test]
fn records_timing_and_serializes_schema() {
    let mut metrics = Metrics::new();
    metrics.record(Stage::Parsing, 1_500, snapshot(1, 10), snapshot(4, 6));
    assert_eq!(metrics.measurements().len(), 1);
    assert!(metrics.to_json().contains("\"schema_version\":1"));
    assert!(metrics.to_json().contains("\"stage\":\"parsing\""));
}

#[test]
fn measurements_serialize_in_order() {
    let mut metrics = Metrics::new();
    metrics.record(Stage::Lexing, 7, snapshot(0, 0), snapshot(2, 5));
    metrics.last_mut().unwrap().set_output(3, 40);
    metrics.record(Stage::Vm, 9, snapshot(5, 9), snapshot(5, 1));
    assert_eq!(METRICS_SCHEMA_VERSION, 1);
    assert_eq!(
        metrics.to_json(),
        "{\"schema_version\":1,\"measurements\":[\
{\"stage\":\"lexing\",\"wall_ns\":7,\"allocations\":2,\"deallocations\":0,\"allocated_bytes\":16,\"deallocated_bytes\":0,\"retained_bytes_delta\":5,\"peak_live_bytes\":5,\"items\":3,\"output_bytes\":40},\
{\"stage\":\"vm\",\"wall_ns\":9,\"allocations\":0,\"deallocations\":0,\"allocated_bytes\":0,\"deallocated_bytes\":0,\"retained_bytes_delta\":-8,\"peak_live_bytes\":1,\"items\":0,\"output_bytes\":0}]}"
    );
}

#[test]
fn last_measurement_is_absent_until_one_is_recorded() {
    let mut metrics = Metrics::new();
    assert!(metrics.last_mut().is_none());
    metrics.record(Stage::Parsing, 1, snapshot(0, 0), snapshot(0, 0));
    metrics.last_mut().unwrap().set_output(2, 9);
    assert_eq!(metrics.measurements()[0].items, 2);
    assert_eq!(metrics.measurements()[0].output_bytes, 9);
}

#[test]
fn deltas_saturate_at_the_signed_range() {
    assert_eq!(signed_delta(10, 3), 7);
    assert_eq!(signed_delta(3, 10), -7);
    assert_eq!(signed_delta(u64::MAX, 0), i64::MAX);
    assert_eq!(signed_delta(0, u64::MAX), -i64::MAX);
    assert_eq!(Stage::PreparedExecution.as_str(), "prepared_execution");
}
