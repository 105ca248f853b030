use hotreload::codec::{encode_message, Message};
use hotreload::layer::{ForkResult, Layer, LineAction, ProcessResult};
use hotreload::resolver::Resolver;

fn fork_response_line(uuid: &str, name: &str, pid: i32) -> String {
    encode_message(&Message::ForkResponse {
        request_id: uuid.to_string(),
        request_name: name.to_string(),
        child_pid: pid,
    })
}

#[test]
fn resolver_is_single_shot() {
    let mut r: Resolver<u32> = Resolver::new();
    assert!(r.try_value().is_none());
    r.resolve(7);
    assert_eq!(r.try_value(), Some(&7));
    r.resolve(99);
    assert_eq!(r.try_value(), Some(&7), "a second resolve must be a no-op");
}

#[test]
fn register_then_fork_response_records_pid() {
    let mut l = Layer::new();
    assert!(l.register_worker("u-1".to_string(), "job".to_string()));
    assert!(!l.register_worker("u-1".to_string(), "job".to_string()), "duplicate UUID refused");

    assert!(l.fork_value(&"u-1".to_string()).is_none());
    l.on_fork_response(&"u-1".to_string(), &"job".to_string(), 1001);
    assert_eq!(l.uuid_for_pid(1001), Some("u-1".to_string()));
    assert_eq!(
        l.fork_value(&"u-1".to_string()),
        Some(ForkResult::Complete(Some("1001".to_string())))
    );
}

#[test]
fn duplicate_pid_response_is_dropped() {
    let mut l = Layer::new();
    l.register_worker("u-1".to_string(), "a".to_string());
    l.register_worker("u-2".to_string(), "b".to_string());
    l.on_fork_response(&"u-1".to_string(), &"a".to_string(), 1001);
    l.on_fork_response(&"u-2".to_string(), &"b".to_string(), 1001);
    assert_eq!(l.uuid_for_pid(1001), Some("u-1".to_string()));
    assert!(l.fork_value(&"u-2".to_string()).is_none(), "conflicting response dropped");
}

#[test]
fn process_line_routes_message_and_output() {
    let mut l = Layer::new();
    l.register_worker("u-1".to_string(), "job".to_string());

    // The loader's own (unwrapped) fork response is applied.
    let act = l.process_line(&fork_response_line("u-1", "job", 2002));
    assert!(matches!(act, LineAction::Applied));
    assert_eq!(l.uuid_for_pid(2002), Some("u-1".to_string()));

    // A wrapped human-readable line from the worker is attributed to it.
    match l.process_line("2002:stdout:HELLO_OUT") {
        LineAction::WorkerOutput { name, content } => {
            assert_eq!(name, "job");
            assert_eq!(content, "HELLO_OUT");
        }
        other => panic!("unexpected action: {other:?}"),
    }

    // A wrapped line from an unknown pid is printed with its pid.
    match l.process_line("9999:stderr:lost") {
        LineAction::UnmatchedOutput { pid, stream, content } => {
            assert_eq!(pid, 9999);
            assert_eq!(stream, hotreload::mux::StreamKind::Stderr);
            assert_eq!(content, "lost");
        }
        other => panic!("unexpected action: {other:?}"),
    }

    // A wrapped completion message resolves the worker's completion.
    let complete = encode_message(&Message::ChildComplete { result: Some("ok".to_string()) });
    let act = l.process_line(&format!("2002:stdout:{complete}"));
    assert!(matches!(act, LineAction::Applied));
    assert_eq!(
        l.completion_value(&"u-1".to_string()),
        Some(ProcessResult::Complete(Some("ok".to_string())))
    );

    // The worker left the live tables when it completed.
    assert_eq!(l.uuid_for_pid(2002), None);
    assert!(l.live_uuids().is_empty());

    // A raw unparseable line changes nothing.
    assert!(matches!(l.process_line("noise"), LineAction::RawOutput));
}

#[test]
fn child_error_carries_traceback() {
    let mut l = Layer::new();
    l.register_worker("u-1".to_string(), "job".to_string());
    l.on_fork_response(&"u-1".to_string(), &"job".to_string(), 3003);
    let err = encode_message(&Message::ChildError {
        error: "boom".to_string(),
        traceback: Some("Traceback (most recent call last): ...".to_string()),
    });
    l.process_line(&format!("3003:stderr:{err}"));
    match l.completion_value(&"u-1".to_string()) {
        Some(ProcessResult::Error(e)) => {
            assert!(e.contains("boom"));
            assert!(e.contains("Traceback"));
        }
        other => panic!("unexpected completion: {other:?}"),
    }
}

#[test]
fn stop_worker_resolves_with_stopped() {
    let mut l = Layer::new();
    l.register_worker("u-1".to_string(), "job".to_string());
    l.on_fork_response(&"u-1".to_string(), &"job".to_string(), 4004);
    let pid = l.stop_worker(&"u-1".to_string());
    assert_eq!(pid, Some(Some(4004)));
    assert_eq!(l.uuid_for_pid(4004), None, "stopped worker leaves the tables");
    assert_eq!(
        l.completion_value(&"u-1".to_string()),
        Some(ProcessResult::Error("stopped".to_string()))
    );
    // Stopping again finds no live worker.
    assert_eq!(l.stop_worker(&"u-1".to_string()), None);
}

#[test]
fn workload_resolves_each_result_once() {
    // N concurrent execs followed by N completions: every UUID carries
    // exactly its own result.
    let mut l = Layer::new();
    let n = 5;
    for i in 0..n {
        assert!(l.register_worker(format!("u-{i}"), format!("job-{i}")));
        l.on_fork_response(&format!("u-{i}"), &format!("job-{i}"), 5000 + i);
    }
    assert_eq!(l.live_uuids().len(), 5);
    for i in (0..n).rev() {
        let msg = encode_message(&Message::ChildComplete { result: Some(format!("result-{i}")) });
        let act = l.process_line(&format!("{}:stdout:{msg}", 5000 + i));
        assert!(matches!(act, LineAction::Applied));
    }
    for i in 0..n {
        assert_eq!(
            l.completion_value(&format!("u-{i}")),
            Some(ProcessResult::Complete(Some(format!("result-{i}")))),
            "worker u-{i} must carry its own result"
        );
    }
    assert!(l.live_uuids().is_empty());
}

#[test]
fn teardown_resolves_everything() {
    let mut l = Layer::new();
    l.register_worker("u-1".to_string(), "a".to_string());
    l.register_worker("u-2".to_string(), "b".to_string());
    l.on_fork_response(&"u-1".to_string(), &"a".to_string(), 6001);
    l.teardown();
    for u in ["u-1", "u-2"] {
        assert_eq!(
            l.completion_value(&u.to_string()),
            Some(ProcessResult::Error("layer terminated".to_string()))
        );
    }
    // u-1's fork had resolved with its pid; u-2's pending fork resolver was
    // resolved by teardown.
    assert_eq!(
        l.fork_value(&"u-1".to_string()),
        Some(ForkResult::Complete(Some("6001".to_string())))
    );
    assert_eq!(
        l.fork_value(&"u-2".to_string()),
        Some(ForkResult::Error("layer terminated".to_string()))
    );
    assert!(l.live_uuids().is_empty());
    // Teardown is idempotent.
    l.teardown();
    assert_eq!(
        l.completion_value(&"u-1".to_string()),
        Some(ProcessResult::Error("layer terminated".to_string()))
    );
}

#[test]
fn mixed_workload_resolves_each_outcome_once() {
    // Completions, errors and stops interleaved: every worker carries
    // exactly its own outcome.
    let mut l = Layer::new();
    for i in 0..3 {
        assert!(l.register_worker(format!("w-{i}"), format!("job-{i}")));
        l.on_fork_response(&format!("w-{i}"), &format!("job-{i}"), 7000 + i);
    }
    let done = encode_message(&Message::ChildComplete { result: Some("fine".to_string()) });
    assert!(matches!(l.process_line(&format!("7000:stdout:{done}")), LineAction::Applied));
    let err = encode_message(&Message::ChildError { error: "bad".to_string(), traceback: None });
    assert!(matches!(l.process_line(&format!("7001:stderr:{err}")), LineAction::Applied));
    assert_eq!(l.stop_worker(&"w-2".to_string()), Some(Some(7002)));

    assert_eq!(
        l.completion_value(&"w-0".to_string()),
        Some(ProcessResult::Complete(Some("fine".to_string())))
    );
    assert_eq!(
        l.completion_value(&"w-1".to_string()),
        Some(ProcessResult::Error("bad".to_string()))
    );
    assert_eq!(
        l.completion_value(&"w-2".to_string()),
        Some(ProcessResult::Error("stopped".to_string()))
    );
    assert!(l.live_uuids().is_empty());
}
