use zero::balance::{split_list, Handoff, SendSlab, Step, Turns};
use zero::ring::{
    after_serve, buffer_start, give_back, on_accept, on_ctrl, on_recv, read_token, token, Kind, Next,
    OnCtrl, OnRecv, BUF_ENTRIES, BUF_LEN,
};
use zero::sending::{self, Failure, Sending};

#[test]
fn tokens_round_trip() {
    let kinds = [Kind::Accept, Kind::Ctrl, Kind::Recv, Kind::Send];
    for (i, kind) in kinds.into_iter().enumerate() {
        for payload in [0u64, 1, 77, i32::MAX as u64, (1 << 56) - 1] {
            let t = token(kind, payload);
            assert_eq!(t, ((i as u64 + 1) << 56) | payload);
            assert_eq!(read_token(t), (Some(kind), payload));
        }
    }
    assert_eq!(read_token(5), (None, 5));
    assert_eq!(read_token((9 << 56) | 4), (None, 4));
    assert_eq!(token(Kind::Recv, u64::MAX), (3 << 56) | ((1 << 56) - 1));
}

#[test]
fn completions() {
    assert_eq!(on_recv(10, Some(3)), OnRecv::Serve { n: 10, buffer: 3 });
    assert_eq!(on_recv(10, None), OnRecv::Close);
    assert_eq!(on_recv(0, Some(3)), OnRecv::Close);
    assert_eq!(on_recv(-105, None), OnRecv::Close);
    assert_eq!(after_serve(true, false, true), Next::Close);
    assert_eq!(after_serve(false, false, true), Next::Rearm);
    assert_eq!(after_serve(false, false, false), Next::Keep);
    assert_eq!(after_serve(false, true, true), Next::Keep);
    assert_eq!(on_accept(7, true), (Some(7), false));
    assert_eq!(on_accept(-1, false), (None, true));
    assert_eq!(on_ctrl(1, 12), OnCtrl::Take { client: Some(12) });
    assert_eq!(on_ctrl(1, -1), OnCtrl::Take { client: None });
    assert_eq!(on_ctrl(0, 12), OnCtrl::Drop);
}

#[test]
fn buffers_go_round() {
    assert_eq!(buffer_start(0), 0);
    assert_eq!(buffer_start(BUF_ENTRIES - 1), (BUF_ENTRIES as usize - 1) * BUF_LEN);
    assert_eq!(give_back(1023), (1023, 1024));
    assert_eq!(give_back(1024), (0, 1025));
    assert_eq!(give_back(u16::MAX), (1023, 0));
    let mut tail = 65000;
    let mut seen = vec![false; BUF_ENTRIES as usize];
    for _ in 0..BUF_ENTRIES {
        let (slot, next) = give_back(tail);
        assert!(!seen[slot]);
        seen[slot] = true;
        tail = next;
    }
}

#[test]
fn messages_in_parts() {
    let (mut s, step) = Sending::new(10);
    assert_eq!(step, sending::Step::Send);
    assert_eq!(s.sent(4, Failure::Other), sending::Step::Send);
    assert_eq!(s.sent(-1, Failure::WouldBlock), sending::Step::Wait);
    assert_eq!(s.waited(1), sending::Step::Send);
    assert_eq!(s.sent(-1, Failure::Interrupted), sending::Step::Send);
    assert_eq!(s.sent, 4);
    assert_eq!(s.sent(6, Failure::Other), sending::Step::Done);
    assert_eq!(s.sent, 10);
    let (mut s, _) = Sending::new(3);
    assert_eq!(s.sent(0, Failure::WouldBlock), sending::Step::Fail);
    assert_eq!(s.sent(-1, Failure::Other), sending::Step::Fail);
    assert_eq!(s.waited(0), sending::Step::Fail);
    assert_eq!(s.waited(-1), sending::Step::Fail);
    assert_eq!(Sending::new(0).1, sending::Step::Done);
}

#[test]
fn turns_go_round() {
    let mut t = Turns::new();
    let got: Vec<usize> = (0..7).map(|_| t.take(3)).collect();
    assert_eq!(got, [0, 1, 2, 0, 1, 2, 0]);
    let mut t = Turns { next: u64::MAX };
    assert_eq!(t.take(2), 1);
    assert_eq!(t.next, 0);
}

#[test]
fn a_client_that_is_taken_at_once() {
    let (mut h, step) = Handoff::new(1, 2);
    assert_eq!(step, Step::Send { worker: 1 });
    assert_eq!(h.sent(true), Step::Done { taken: true });
}

#[test]
fn every_worker_is_tried() {
    let (mut h, step) = Handoff::new(2, 3);
    assert_eq!(step, Step::Send { worker: 2 });
    assert_eq!(h.sent(false), Step::Connect { worker: 2 });
    assert_eq!(h.connected(false), Step::Send { worker: 0 });
    assert_eq!(h.sent(false), Step::Connect { worker: 0 });
    assert_eq!(h.connected(true), Step::Send { worker: 0 });
    assert_eq!(h.sent(false), Step::Send { worker: 1 });
    assert_eq!(h.sent(false), Step::Connect { worker: 1 });
    assert_eq!(h.connected(true), Step::Send { worker: 1 });
    assert_eq!(h.sent(false), Step::Done { taken: false });
    let (mut h, _) = Handoff::new(0, 1);
    assert_eq!(h.sent(false), Step::Connect { worker: 0 });
    assert_eq!(h.connected(false), Step::Done { taken: false });
}

#[test]
fn slots_are_used_again() {
    let mut s: SendSlab<&str> = SendSlab::new();
    assert_eq!(s.put("a"), 0);
    assert_eq!(s.put("b"), 1);
    assert_eq!(s.take(0), Some("a"));
    assert_eq!(s.take(0), None);
    assert_eq!(s.take(9), None);
    assert_eq!(s.put("c"), 0);
    assert_eq!(s.put("d"), 2);
    assert_eq!(s.take(1), Some("b"));
    assert_eq!(s.take(2), Some("d"));
    assert_eq!(s.take(0), Some("c"));
    // the slot that was freed last comes first
    assert_eq!(s.put("e"), 0);
    assert_eq!(s.put("f"), 2);
    assert_eq!(s.put("g"), 1);
    assert_eq!(s.put("h"), 3);
}

#[test]
fn lists_split_as_strings_do() {
    for text in ["", "a", "a,b", ",", "a,,b,", "/run/sock/api0.ctrl,/run/sock/api1.ctrl"] {
        let parts: Vec<&str> = split_list(text.as_bytes()).iter().map(|&(a, b)| &text[a..b]).collect();
        let expected: Vec<&str> = text.split(',').collect();
        assert_eq!(parts, expected);
        assert_eq!(parts.join(","), text);
    }
}
