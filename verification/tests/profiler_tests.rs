use evosim::profiler::{Profiler, SAMPLES_PER_NODE, WINDOW_MS};
use serde_json::Value;

fn push_with_duration(p: &mut Profiler, name: &str, at_us: u64, dur_us: u64) {
    let guard = if name == "tick" { p.push_root(at_us) } else { p.push(name, at_us) };
    p.end_span(guard, at_us + dur_us);
}

fn root(v: &Value, name: &str) -> Value {
    v["tree"].as_array().unwrap().iter().find(|n| n["name"] == name).unwrap().clone()
}

fn child(n: &Value, name: &str) -> Value {
    n["children"].as_array().unwrap().iter().find(|c| c["name"] == name).unwrap().clone()
}

#[test]
fn profiler_builds_correct_tree() {
    let mut p = Profiler::new(0);
    p.set_enabled(true, 0);
    let t = p.push_root(0);
    let v = p.push("vision_pass", 0);
    p.end_span(v, 0);
    let v = p.push("vision_pass", 0);
    p.end_span(v, 0);
    let n = p.push("nn_forward", 0);
    p.end_span(n, 0);
    p.end_span(t, 0);
    let v: Value = serde_json::from_str(&p.report_json(0)).unwrap();
    let tick = root(&v, "tick");
    assert_eq!(tick["call_count"], 1, "tick must have call_count=1");
    assert_eq!(child(&tick, "vision_pass")["call_count"], 2, "vision_pass must have call_count=2");
    assert_eq!(child(&tick, "nn_forward")["call_count"], 1, "nn_forward must have call_count=1");
}

#[test]
fn profiler_prunes_stale_samples() {
    let mut p = Profiler::new(0);
    p.set_enabled(true, 0);
    let t = p.push_root(0);
    p.end_span(t, 0);
    let later = (WINDOW_MS as u64 + 1000) * 1000;
    let v: Value = serde_json::from_str(&p.report_json(later)).unwrap();
    assert_eq!(root(&v, "tick")["call_count"], 0, "stale sample must be pruned after window expires");
}

#[test]
fn profiler_total_us_sums_in_window_samples_only() {
    let mut p = Profiler::new(0);
    p.set_enabled(true, 0);
    push_with_duration(&mut p, "tick", 0, 100);
    push_with_duration(&mut p, "tick", 10_000_000, 200);
    push_with_duration(&mut p, "tick", 20_000_000, 300);
    let v: Value = serde_json::from_str(&p.report_json(20_000_300)).unwrap();
    let tick = root(&v, "tick");
    assert_eq!(tick["total_us"], 600, "total_us must be 100+200+300=600");
    assert_eq!(tick["call_count"], 3, "call_count must be 3");
    let v: Value = serde_json::from_str(&p.report_json(65_000_000)).unwrap();
    let tick = root(&v, "tick");
    assert_eq!(tick["total_us"], 500, "only 200+300=500 remain after t=0 sample pruned");
    assert_eq!(tick["call_count"], 2, "call_count must be 2 after pruning");
}

#[test]
fn profiler_disabled_records_nothing() {
    let mut p = Profiler::new(0);
    if p.enabled() {
        let t = p.push_root(0);
        p.end_span(t, 0);
    }
    p.record_under_tick("nn.proximity", 50, 0);
    let v: Value = serde_json::from_str(&p.report_json(0)).unwrap();
    for r in v["tree"].as_array().unwrap() {
        assert_eq!(r["call_count"], 0, "disabled profiler must record nothing (node: {})", r["name"]);
        assert!(r["children"].as_array().unwrap().is_empty());
    }
}

#[test]
fn profiler_external_spans_attach_under_frame() {
    let mut p = Profiler::new(0);
    p.set_enabled(true, 0);
    p.record_external("renderWorld.drawCreatures", 1500, 0);
    p.record_external("step_n", 4200, 0);
    let v: Value = serde_json::from_str(&p.report_json(0)).unwrap();
    let frame = root(&v, "frame");
    let rw = child(&frame, "renderWorld");
    assert_eq!(rw["children"].as_array().unwrap().len(), 1, "renderWorld must have 1 child");
    assert_eq!(child(&frame, "step_n")["call_count"], 1);
}

#[test]
fn profiler_json_shape_is_stable() {
    let mut p = Profiler::new(0);
    p.set_enabled(true, 0);
    let t = p.push_root(0);
    let v = p.push("vision_pass", 0);
    p.end_span(v, 0);
    p.end_span(t, 0);
    let v: Value = serde_json::from_str(&p.report_json(0)).unwrap();
    assert!(v["now_ms"].is_number(), "now_ms must be a number");
    assert_eq!(v["window_ms"], WINDOW_MS, "window_ms must match WINDOW_MS");
    assert_eq!(v["enabled"], true, "enabled must be true");
    let tree = v["tree"].as_array().unwrap();
    assert!(tree.iter().any(|n| n["name"] == "frame"), "tree must contain frame root");
    assert!(tree.iter().any(|n| n["name"] == "tick"), "tree must contain tick root");
    for node in tree {
        for field in &["name", "total_us", "call_count", "parent_call_count", "effective_window_ms", "children"] {
            assert!(node.get(field).is_some(), "missing field {field} in node {}", node["name"]);
        }
    }
}

#[test]
fn profiler_siblings_do_not_nest() {
    let mut p = Profiler::new(0);
    p.set_enabled(true, 0);
    let t = p.push_root(0);
    let a = p.push("span_a", 0);
    p.end_span(a, 0);
    let b = p.push("span_b", 0);
    p.end_span(b, 0);
    p.end_span(t, 0);
    let v: Value = serde_json::from_str(&p.report_json(0)).unwrap();
    let tick = root(&v, "tick");
    let span_a = child(&tick, "span_a");
    let _ = child(&tick, "span_b");
    assert!(span_a["children"].as_array().unwrap().is_empty(), "span_a must have no children");
}

#[test]
fn profiler_effective_window_ms_is_accurate() {
    let mut p = Profiler::new(0);
    p.set_enabled(true, 0);
    let v: Value = serde_json::from_str(&p.report_json(0)).unwrap();
    assert_eq!(root(&v, "tick")["effective_window_ms"], 0, "no samples → effective_window_ms=0");
    push_with_duration(&mut p, "tick", 0, 100);
    let v: Value = serde_json::from_str(&p.report_json(5_000_000)).unwrap();
    let ew = root(&v, "tick")["effective_window_ms"].as_u64().unwrap();
    assert!((4990..=5010).contains(&ew), "effective_window_ms={ew} expected ~5000");
}

#[test]
fn profiler_ring_buffer_cap_drops_oldest() {
    let mut p = Profiler::new(0);
    p.set_enabled(true, 0);
    for i in 0..(SAMPLES_PER_NODE + 10) {
        push_with_duration(&mut p, "tick", i as u64 * 1000, 1);
    }
    let now = (SAMPLES_PER_NODE as u64 + 10) * 1000;
    let v: Value = serde_json::from_str(&p.report_json(now)).unwrap();
    let cc = root(&v, "tick")["call_count"].as_u64().unwrap();
    assert!(cc <= SAMPLES_PER_NODE as u64, "call_count={cc} must not exceed SAMPLES_PER_NODE={SAMPLES_PER_NODE}");
    assert_eq!(cc, SAMPLES_PER_NODE as u64);
}

#[test]
fn profiler_report_exact_text() {
    let mut p = Profiler::new(1_000);
    p.set_enabled(true, 1_000);
    p.record_under_tick("a..b", 7, 3_001_234);
    let s = p.report_json(3_001_234);
    assert_eq!(
        s,
        "{\"now_ms\":3001.234,\"window_ms\":60000,\"enabled\":true,\"tree\":[\
{\"name\":\"tick\",\"total_us\":0,\"call_count\":0,\"parent_call_count\":null,\"effective_window_ms\":0,\"children\":[\
{\"name\":\"a\",\"total_us\":0,\"call_count\":0,\"parent_call_count\":0,\"effective_window_ms\":0,\"children\":[\
{\"name\":\"b\",\"total_us\":7,\"call_count\":1,\"parent_call_count\":0,\"effective_window_ms\":0,\"children\":[]}]}]},\
{\"name\":\"frame\",\"total_us\":0,\"call_count\":0,\"parent_call_count\":null,\"effective_window_ms\":0,\"children\":[]}]}"
    );
}

#[test]
fn profiler_escapes_names() {
    let mut p = Profiler::new(0);
    p.set_enabled(true, 0);
    p.record_external("q\"t\\n", 1, 0);
    let s = p.report_json(0);
    assert!(s.contains("\"name\":\"q\\\"t\\\\n\""));
    let v: Value = serde_json::from_str(&s).unwrap();
    assert_eq!(child(&root(&v, "frame"), "q\"t\\n")["call_count"], 1);
}

#[test]
fn profiler_disable_clears_samples_keeps_tree() {
    let mut p = Profiler::new(0);
    p.set_enabled(true, 0);
    p.record_under_tick("x", 5, 0);
    p.set_enabled(false, 0);
    let v: Value = serde_json::from_str(&p.report_json(0)).unwrap();
    assert_eq!(v["enabled"], false);
    let x = child(&root(&v, "tick"), "x");
    assert_eq!(x["call_count"], 0);
}
