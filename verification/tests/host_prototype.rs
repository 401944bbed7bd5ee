//! The host-side design study: capabilities, policy by name, tasks and IPC.

use radian_core::proto::cap::{log_message, CapSet, Capability};
use radian_core::proto::ipc::{Message, MessageQueue};
use radian_core::proto::memory::MemoryRegion;
use radian_core::proto::policy::{Action, PolicyEngine, PolicyRule};
use radian_core::proto::runtime::Runtime;
use radian_core::proto::scheduler::RoundRobinScheduler;
use radian_core::proto::task::{TaskManager, TaskState};

fn full_caps() -> CapSet {
    CapSet::new(vec![
        Capability::WriteLog,
        Capability::SpawnTask,
        Capability::SendMessage,
        Capability::ReceiveMessage,
    ])
}

#[test]
fn capability_gate_on_logging() {
    assert!(log_message(&full_caps(), "starting").is_ok());
    let none = CapSet::new(vec![Capability::ReadFilesystem]);
    assert_eq!(log_message(&none, "starting"), Err("Permission denied: WriteLog"));
}

#[test]
fn policy_first_match_by_name() {
    let mut policy = PolicyEngine::new();
    policy.add_rule(PolicyRule {
        subject: "worker_1".into(),
        action: Action::StartTask,
        allow: true,
    });
    policy.add_rule(PolicyRule {
        subject: "worker_1".into(),
        action: Action::StartTask,
        allow: false,
    });
    assert!(policy.check("worker_1", &Action::StartTask));
    assert!(!policy.check("worker_2", &Action::StartTask));
    assert!(!policy.check("worker_1", &Action::ReceiveMessage));
}

#[test]
fn spawn_and_message_round_trip() {
    let caps = full_caps();
    let mut policy = PolicyEngine::new();
    policy.add_rule(PolicyRule {
        subject: "worker_1".into(),
        action: Action::StartTask,
        allow: true,
    });
    policy.add_rule(PolicyRule {
        subject: "worker_2".into(),
        action: Action::StartTask,
        allow: true,
    });
    policy.add_rule(PolicyRule {
        subject: "worker_1".into(),
        action: Action::SendMessageTo("worker_2".into()),
        allow: true,
    });
    let mut tm = TaskManager::new();
    let w1 = tm.spawn("worker_1", &caps, &policy).expect("policy admits worker_1");
    let w2 = tm.spawn("worker_2", &caps, &policy).expect("policy admits worker_2");
    assert_eq!((w1, w2), (0, 1));
    assert!(tm.spawn("worker_3", &caps, &policy).is_err());
    let ran = tm.run_next().expect("a task is ready");
    assert_eq!(ran, 0);
    assert!(matches!(tm.tasks[0].state, TaskState::Running));
    tm.send_message("worker_1", "worker_2", b"Hello from worker_1".to_vec(), &caps, &policy)
        .expect("the route is allowed");
    let msg = tm.tasks[1].receive_message().expect("worker_2 got the message");
    assert_eq!(msg.payload, b"Hello from worker_1");
    assert_eq!(msg.sender, "worker_1");
    assert!(tm.tasks[1].receive_message().is_none());
}

#[test]
fn message_gates_fail_in_order() {
    let caps = full_caps();
    let mut policy = PolicyEngine::new();
    policy.add_rule(PolicyRule {
        subject: "worker_1".into(),
        action: Action::StartTask,
        allow: true,
    });
    policy.add_rule(PolicyRule {
        subject: "worker_1".into(),
        action: Action::SendMessageTo("worker_2".into()),
        allow: true,
    });
    let mut tm = TaskManager::new();
    tm.spawn("worker_1", &caps, &policy).expect("policy admits worker_1");
    // the capability is checked first
    let none = CapSet::new(vec![Capability::ReadFilesystem]);
    assert_eq!(
        tm.send_message("worker_1", "worker_2", b"x".to_vec(), &none, &policy),
        Err("Missing SendMessage capability")
    );
    // then the policy: no rule admits a send to worker_3
    assert_eq!(
        tm.send_message("worker_1", "worker_3", b"x".to_vec(), &caps, &policy),
        Err("Policy denies sending message")
    );
    // then the sender's existence; worker_9 was never spawned but may send
    let mut wide = PolicyEngine::new();
    wide.add_rule(PolicyRule {
        subject: "worker_9".into(),
        action: Action::SendMessageTo("worker_2".into()),
        allow: true,
    });
    assert_eq!(
        tm.send_message("worker_9", "worker_2", b"x".to_vec(), &caps, &wide),
        Err("Sender task not found")
    );
    // and last the receiver's: worker_2 was never spawned
    assert_eq!(
        tm.send_message("worker_1", "worker_2", b"x".to_vec(), &caps, &policy),
        Err("Receiver task not found")
    );
}

#[test]
fn queue_is_bounded() {
    let mut q = MessageQueue::new(2);
    assert!(q.enqueue(Message { sender: "a".into(), payload: vec![1] }).is_ok());
    assert!(q.enqueue(Message { sender: "a".into(), payload: vec![2] }).is_ok());
    assert_eq!(
        q.enqueue(Message { sender: "a".into(), payload: vec![3] }),
        Err("Message queue full")
    );
    assert_eq!(q.dequeue().unwrap().payload, vec![1]);
}

#[test]
fn memory_region_bounds() {
    let mut mem = MemoryRegion::new(1024);
    assert!(mem.write(1000, &[1, 2, 3, 4]).is_ok());
    assert_eq!(mem.write(1021, &[1, 2, 3, 4]), Err("Memory access out of bounds"));
    assert_eq!(mem.read(1000, 4).unwrap(), vec![1, 2, 3, 4]);
    assert!(mem.read(1021, 4).is_err());
}

#[test]
fn runtime_reports_idle() {
    let mut rt = Runtime::new(RoundRobinScheduler::new(), TaskManager::new());
    assert!(rt.step().is_none());
    let caps = full_caps();
    let mut policy = PolicyEngine::new();
    policy.add_rule(PolicyRule {
        subject: "worker_1".into(),
        action: Action::StartTask,
        allow: true,
    });
    rt.task_manager.spawn("worker_1", &caps, &policy).unwrap();
    assert_eq!(rt.step(), Some(0));
}
