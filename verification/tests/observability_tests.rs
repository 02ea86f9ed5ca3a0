use siput_core::observability::config::ObservabilityConfig;
use siput_core::observability::tracing::{
    create_operation_span, trace_block_production, trace_transaction_lifecycle, PerformanceSpan, SpanManager,
    TraceStatus, TracingContext, TracingContextManager,
};

#[test]
fn config_builders() {
    let c = ObservabilityConfig::new();
    assert_eq!(c.service_name, "siput-node");
    assert_eq!(c.log_level, "info");
    assert_eq!(c.metrics_port, 9090);
    assert!(c.enable_tracing && c.enable_metrics);
    let c = c.service_name("n").service_version("2").log_level("debug").metrics_port(1).jaeger_endpoint("j").enable_tracing(false).enable_metrics(false);
    assert_eq!(c.service_name, "n");
    assert_eq!(c.service_version, "2");
    assert_eq!(c.log_level, "debug");
    assert_eq!(c.metrics_port, 1);
    assert_eq!(c.jaeger_endpoint.as_deref(), Some("j"));
    assert!(!c.enable_tracing && !c.enable_metrics);
}

fn is_lower_hex(s: &str) -> bool {
    s.chars().all(|c| c.is_ascii_digit() || ('a'..='f').contains(&c))
}

#[test]
fn contexts_have_hex_ids() {
    let c = TracingContext::new();
    assert_eq!(c.trace_id.len(), 32);
    assert_eq!(c.span_id.len(), 16);
    assert!(is_lower_hex(&c.trace_id) && is_lower_hex(&c.span_id));
    assert!(c.parent_span_id.is_none());
    let child = TracingContext::with_parent(c.trace_id.clone(), c.span_id.clone());
    assert_eq!(child.trace_id, c.trace_id);
    assert_eq!(child.parent_span_id, Some(c.span_id.clone()));
}

#[test]
fn attributes_replace_by_key() {
    let mut c = TracingContext::new();
    c.add_attribute("a", "1");
    c.add_attribute("b", "2");
    c.add_attribute("a", "3");
    assert_eq!(c.attributes.len(), 2);
    assert!(c.attributes.contains(&("a".to_string(), "3".to_string())));
}

#[test]
fn context_manager_lifecycle() {
    let mut m = TracingContextManager::new();
    assert!(m.get_context("op").is_none());
    let c = m.create_context("op");
    let got = m.get_context("op").unwrap();
    assert_eq!(got.trace_id, c.trace_id);
    assert_eq!(got.span_id, c.span_id);
    let child = m.create_child_context("child", "op").unwrap();
    assert_eq!(child.trace_id, c.trace_id);
    assert_eq!(child.parent_span_id, Some(c.span_id.clone()));
    assert!(m.create_child_context("x", "missing").is_none());
    assert!(m.get_context("x").is_none());
    m.remove_context("op");
    assert!(m.get_context("op").is_none());
    assert!(m.get_context("child").is_some());
}

#[test]
fn spans_are_inert() {
    let span = create_operation_span("op");
    let _guard = span.enter();
    span.set_status(TraceStatus::Success);
    span.set_attribute("k", "v");
    let manager = SpanManager::new("svc");
    let _s = manager.create_span("x");
    let mut p = PerformanceSpan::new("work");
    let started = p.start_time();
    p.add_attribute("k", "v");
    assert_eq!(p.start_time(), started);
    p.record_error("boom");
    assert_eq!(p.operation_name(), "work");
    assert_eq!(trace_block_production(3).operation_name(), "block_production");
    assert_eq!(trace_transaction_lifecycle("ab").operation_name(), "transaction_lifecycle");
}
