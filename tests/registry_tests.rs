use copydocx::registry::Registry;
use tokio::sync::mpsc::unbounded_channel;

#[test]
fn relay_reaches_peer_but_not_sender() {
    let mut reg = Registry::new();
    let (a_tx, mut a_rx) = unbounded_channel::<String>();
    let (b_tx, mut b_rx) = unbounded_channel::<String>();
    reg.join("room1".to_string(), 1, a_tx);
    reg.join("room1".to_string(), 2, b_tx);
    reg.relay(&"room1".to_string(), 1, &"hi".to_string());
    assert_eq!(b_rx.try_recv().unwrap(), "hi");
    assert!(b_rx.try_recv().is_err());
    assert!(a_rx.try_recv().is_err());
}

#[test]
fn relay_stays_within_its_path() {
    let mut reg = Registry::new();
    let (a_tx, _a_rx) = unbounded_channel::<String>();
    let (b_tx, mut b_rx) = unbounded_channel::<String>();
    let (c_tx, mut c_rx) = unbounded_channel::<String>();
    reg.join("doc".to_string(), 10, a_tx);
    reg.join("other".to_string(), 11, b_tx);
    reg.join("doc".to_string(), 12, c_tx);
    reg.relay(&"doc".to_string(), 10, &"edit".to_string());
    assert_eq!(c_rx.try_recv().unwrap(), "edit");
    assert!(b_rx.try_recv().is_err());
}

#[test]
fn relay_in_order_from_one_sender() {
    let mut reg = Registry::new();
    let (a_tx, _a_rx) = unbounded_channel::<String>();
    let (b_tx, mut b_rx) = unbounded_channel::<String>();
    reg.join("p".to_string(), 1, a_tx);
    reg.join("p".to_string(), 2, b_tx);
    reg.relay(&"p".to_string(), 1, &"first".to_string());
    reg.relay(&"p".to_string(), 1, &"second".to_string());
    assert_eq!(b_rx.try_recv().unwrap(), "first");
    assert_eq!(b_rx.try_recv().unwrap(), "second");
}

#[test]
fn relay_to_closed_peer_is_swallowed() {
    let mut reg = Registry::new();
    let (a_tx, _a_rx) = unbounded_channel::<String>();
    let (b_tx, b_rx) = unbounded_channel::<String>();
    let (c_tx, mut c_rx) = unbounded_channel::<String>();
    reg.join("p".to_string(), 1, a_tx);
    reg.join("p".to_string(), 2, b_tx);
    reg.join("p".to_string(), 3, c_tx);
    drop(b_rx);
    reg.relay(&"p".to_string(), 1, &"x".to_string());
    assert_eq!(c_rx.try_recv().unwrap(), "x");
    assert!(c_rx.try_recv().is_err());
}

#[test]
fn relay_on_unknown_path_reaches_nobody() {
    let mut reg = Registry::new();
    let (a_tx, mut a_rx) = unbounded_channel::<String>();
    reg.join("somewhere".to_string(), 2, a_tx);
    reg.relay(&"nowhere".to_string(), 1, &"x".to_string());
    assert!(a_rx.try_recv().is_err());
    assert_eq!(reg.peers(&"somewhere".to_string()), vec![2]);
}

#[test]
fn join_then_leave_leaves_no_room() {
    let mut reg = Registry::new();
    assert!(reg.is_empty());
    let (tx, _rx) = unbounded_channel::<String>();
    reg.join("solo".to_string(), 7, tx);
    assert!(!reg.is_empty());
    reg.leave(&"solo".to_string(), 7);
    assert!(reg.is_empty());
    assert!(reg.peers(&"solo".to_string()).is_empty());
}

#[test]
fn leave_keeps_room_with_other_members() {
    let mut reg = Registry::new();
    let (a_tx, _a_rx) = unbounded_channel::<String>();
    let (b_tx, _b_rx) = unbounded_channel::<String>();
    reg.join("p".to_string(), 1, a_tx);
    reg.join("p".to_string(), 2, b_tx);
    reg.leave(&"p".to_string(), 1);
    assert_eq!(reg.peers(&"p".to_string()), vec![2]);
    assert!(!reg.is_empty());
    reg.leave(&"p".to_string(), 1);
    assert_eq!(reg.peers(&"p".to_string()), vec![2]);
}

#[test]
fn peers_lists_each_member_once() {
    let mut reg = Registry::new();
    let (a_tx, _a_rx) = unbounded_channel::<String>();
    let (b_tx, _b_rx) = unbounded_channel::<String>();
    let (c_tx, _c_rx) = unbounded_channel::<String>();
    reg.join("p".to_string(), 1, a_tx);
    reg.join("q".to_string(), 2, b_tx);
    reg.join("p".to_string(), 3, c_tx);
    let mut ids = reg.peers(&"p".to_string());
    ids.sort();
    assert_eq!(ids, vec![1, 3]);
}

#[test]
fn joining_again_replaces_the_queue() {
    let mut reg = Registry::new();
    let (a_tx, _a_rx) = unbounded_channel::<String>();
    let (old_tx, mut old_rx) = unbounded_channel::<String>();
    let (new_tx, mut new_rx) = unbounded_channel::<String>();
    reg.join("p".to_string(), 1, a_tx);
    reg.join("p".to_string(), 2, old_tx);
    reg.join("p".to_string(), 2, new_tx);
    assert_eq!(reg.peers(&"p".to_string()).len(), 2);
    reg.relay(&"p".to_string(), 1, &"m".to_string());
    assert_eq!(new_rx.try_recv().unwrap(), "m");
    assert!(old_rx.try_recv().is_err());
}
