use bite::codec::Opcode;
use bite::connection::{Interest, ReadEvent, Step, WriteEvent};
use bite::registry::{Action, Cluster};

fn read_pass(r: &mut Cluster, id: u64, chunks: Vec<Vec<u8>>) {
    for c in chunks {
        assert_eq!(r.try_read(id, ReadEvent::Bytes(c)), Step::Again);
    }
    assert_eq!(r.try_read(id, ReadEvent::WouldBlock), Step::Stop);
}

#[test]
fn pairs_get_fresh_ids() {
    let mut r = Cluster::new();
    assert_eq!(r.insert_pair(), Some((1, 2)));
    assert_eq!(r.insert_pair(), Some((3, 4)));
    assert_eq!(r.len(), 2);
    assert!(r.contains(1) && r.contains(2) && r.contains(3) && r.contains(4));
    assert!(!r.contains(5));
}

#[test]
fn text_frame_ping_reaches_upstream_as_its_bytes() {
    let mut r = Cluster::new();
    let (ws, up) = r.insert_pair().unwrap();
    assert_eq!(r.try_read(ws, ReadEvent::Frame(Opcode::Text, b"ping".to_vec())), Step::Again);
    assert_eq!(r.try_read(ws, ReadEvent::WouldBlock), Step::Stop);
    let actions = r.settle(ws);
    assert_eq!(actions, vec![Action::Arm(ws, Interest::Readable), Action::Arm(up, Interest::Writable)]);
    assert_eq!(r.pending(up), &[0x70, 0x69, 0x6e, 0x67]);
    assert_eq!(r.try_write(up, WriteEvent::Sent(4)), Step::Stop);
    assert_eq!(r.settle(up), vec![Action::Arm(up, Interest::Readable), Action::Arm(ws, Interest::Readable)]);
}

#[test]
fn closing_one_leg_tears_down_both_in_one_pass() {
    let mut r = Cluster::new();
    let (ws, up) = r.insert_pair().unwrap();
    assert_eq!(r.try_read(up, ReadEvent::Bytes(Vec::new())), Step::Stop);
    assert_eq!(r.settle(up), vec![Action::Drop(ws), Action::Drop(up)]);
    assert!(!r.contains(ws));
    assert!(!r.contains(up));
    assert_eq!(r.len(), 0);
}

#[test]
fn failure_on_client_leg_drops_the_upstream_too() {
    let mut r = Cluster::new();
    let (ws, up) = r.insert_pair().unwrap();
    r.try_read(ws, ReadEvent::Failed);
    assert_eq!(r.settle(ws), vec![Action::Drop(ws), Action::Drop(up)]);
    assert_eq!(r.len(), 0);
}

#[test]
fn failing_one_pair_leaves_another_untouched() {
    let mut r = Cluster::new();
    let (a_ws, a_up) = r.insert_pair().unwrap();
    let (b_ws, b_up) = r.insert_pair().unwrap();
    read_pass(&mut r, b_ws, vec![b"hello ".to_vec()]);
    r.settle(b_ws);
    r.try_read(a_up, ReadEvent::Failed);
    assert_eq!(r.settle(a_up), vec![Action::Drop(a_ws), Action::Drop(a_up)]);
    assert!(r.contains(b_ws) && r.contains(b_up));
    assert_eq!(r.pending(b_up), b"hello ");
    read_pass(&mut r, b_ws, vec![b"world".to_vec()]);
    r.settle(b_ws);
    let mut out = Vec::new();
    while !r.pending(b_up).is_empty() {
        let p = r.pending(b_up).to_vec();
        out.extend_from_slice(&p);
        r.try_write(b_up, WriteEvent::Sent(p.len()));
    }
    assert_eq!(out, b"hello world");
}

#[test]
fn legs_are_present_together_or_not_at_all() {
    let mut r = Cluster::new();
    let mut ids = Vec::new();
    for _ in 0..4 {
        ids.push(r.insert_pair().unwrap());
    }
    r.try_read(ids[1].0, ReadEvent::Failed);
    r.settle(ids[1].0);
    r.remove_pair(ids[3].1);
    for (ws, up) in ids {
        assert_eq!(r.contains(ws), r.contains(up));
    }
    assert_eq!(r.len(), 2);
}

#[test]
fn many_writes_arrive_concatenated_whatever_the_fragmentation() {
    let mut r = Cluster::new();
    let (ws, up) = r.insert_pair().unwrap();
    let writes: Vec<Vec<u8>> = (0..20u8).map(|i| vec![i; (i as usize) * 7 + 1]).collect();
    let expected: Vec<u8> = writes.concat();
    let mut out = Vec::new();
    for w in writes {
        read_pass(&mut r, ws, vec![w]);
        r.settle(ws);
        // the upstream takes at most 5 bytes per call
        loop {
            let p = r.pending(up).to_vec();
            if p.is_empty() {
                break;
            }
            let k = p.len().min(5);
            out.extend_from_slice(&p[..k]);
            r.try_write(up, WriteEvent::Sent(k));
        }
    }
    assert_eq!(out, expected);
}

#[test]
fn unknown_ids_are_ignored() {
    let mut r = Cluster::new();
    r.insert_pair();
    assert_eq!(r.try_read(9, ReadEvent::Bytes(b"x".to_vec())), Step::Stop);
    assert_eq!(r.try_write(9, WriteEvent::Sent(1)), Step::Stop);
    assert!(r.pending(9).is_empty());
    assert!(r.settle(9).is_empty());
    assert_eq!(r.remove_pair(9), None);
    assert_eq!(r.len(), 1);
}

#[test]
fn remove_pair_takes_both_legs() {
    let mut r = Cluster::new();
    let (ws, up) = r.insert_pair().unwrap();
    assert_eq!(r.remove_pair(up), Some((ws, up)));
    assert!(!r.contains(ws) && !r.contains(up));
}

#[test]
fn leg_closed_by_its_read_pass_gets_nothing_to_write() {
    let mut r = Cluster::new();
    let (ws, up) = r.insert_pair().unwrap();
    read_pass(&mut r, ws, vec![b"data".to_vec()]);
    r.settle(ws);
    assert_eq!(r.pending(up), b"data");
    r.try_read(up, ReadEvent::Bytes(Vec::new()));
    assert!(r.pending(up).is_empty());
    assert_eq!(r.settle(up), vec![Action::Drop(ws), Action::Drop(up)]);
}

#[test]
fn flush_failure_on_an_idle_leg_tears_the_pair_down() {
    let mut r = Cluster::new();
    let (ws, up) = r.insert_pair().unwrap();
    assert_eq!(r.try_write(ws, WriteEvent::Failed), Step::Stop);
    assert_eq!(r.settle(ws), vec![Action::Drop(ws), Action::Drop(up)]);
    assert_eq!(r.len(), 0);
}
