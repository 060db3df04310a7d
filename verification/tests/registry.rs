use driftdb::registry::{Connection, Policy, Registry};

fn all() -> Policy {
    Policy::broadcast_all()
}

#[test]
fn default_policy_tells_everyone() {
    assert_eq!(all(), Policy { echo_to_sender: true, stream_size_to_all: true });
}

#[test]
fn registry_registers_in_order() {
    let mut registry = Registry::new();
    assert!(registry.has_room());
    assert!(!registry.is_registered(0));
    let first = registry.register(false);
    let second = registry.register(true);
    assert_eq!(first, Connection { id: 0, debug: false });
    assert_eq!(second, Connection { id: 1, debug: true });
    assert!(registry.is_registered(0));
    assert!(registry.is_registered(1));
    assert!(!registry.is_registered(2));
    assert_eq!(registry.push_recipients(all(), 0), vec![0, 1]);
    assert_eq!(registry.size_recipients(all(), 0), vec![1]);
}

#[test]
fn deregister_is_idempotent() {
    let mut registry = Registry::new();
    for _ in 0..4 {
        registry.register(true);
    }
    registry.deregister(1);
    assert_eq!(registry.push_recipients(all(), 0), vec![0, 2, 3]);
    registry.deregister(1);
    assert_eq!(registry.push_recipients(all(), 0), vec![0, 2, 3]);
    registry.deregister(9);
    assert_eq!(registry.size_recipients(all(), 0), vec![0, 2, 3]);
    assert!(!registry.is_registered(1));
}

#[test]
fn recipients_follow_the_policy() {
    let mut registry = Registry::new();
    registry.register(false);
    registry.register(true);
    registry.register(true);
    let quiet = Policy { echo_to_sender: false, stream_size_to_all: false };
    assert_eq!(registry.push_recipients(quiet, 1), vec![0, 2]);
    assert_eq!(registry.push_recipients(quiet, 7), vec![0, 1, 2]);
    assert_eq!(registry.size_recipients(quiet, 1), vec![1]);
    assert_eq!(registry.size_recipients(quiet, 0), Vec::<u64>::new());
    let echo = Policy { echo_to_sender: true, stream_size_to_all: false };
    assert_eq!(registry.push_recipients(echo, 1), vec![0, 1, 2]);
    let wide = Policy { echo_to_sender: false, stream_size_to_all: true };
    assert_eq!(registry.size_recipients(wide, 0), vec![1, 2]);
}

#[test]
fn deregister_all_removes_each_identifier() {
    let mut registry = Registry::new();
    for _ in 0..5 {
        registry.register(false);
    }
    registry.deregister_all(&vec![4, 0, 4, 7]);
    assert_eq!(registry.push_recipients(all(), 0), vec![1, 2, 3]);
    registry.deregister_all(&vec![]);
    assert_eq!(registry.push_recipients(all(), 0), vec![1, 2, 3]);
    assert_eq!(registry.register(false), Connection { id: 5, debug: false });
}
