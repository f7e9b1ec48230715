use pipe_dispatch::{
    backend_for, enqueue_all, pool_size, pump, run, start, step, Backend, ConfigError, Dequeued,
    LineSplitter, Pumped, WorkQueue, WorkerAction, WorkerEvent, WorkerState, BACKOFF_MS, DEFAULT_POOL_SIZE,
};

fn drain(q: &mut WorkQueue<Vec<u8>>) -> Vec<Vec<u8>> {
    let mut out = Vec::new();
    loop {
        match q.dequeue() {
            Dequeued::Item(x) => out.push(x),
            Dequeued::Empty => panic!("queue reported empty while closed"),
            Dequeued::End => return out,
        }
    }
}

#[test]
fn queue_is_fifo() {
    let mut q: WorkQueue<u32> = WorkQueue::new();
    assert!(q.enqueue(1).is_ok());
    assert!(q.enqueue(2).is_ok());
    assert!(q.enqueue(3).is_ok());
    assert_eq!(q.len(), 3);
    assert!(matches!(q.dequeue(), Dequeued::Item(1)));
    assert!(matches!(q.dequeue(), Dequeued::Item(2)));
    assert!(matches!(q.dequeue(), Dequeued::Item(3)));
    assert!(matches!(q.dequeue(), Dequeued::Empty));
}

#[test]
fn closed_queue_refuses_and_drains() {
    let mut q: WorkQueue<u32> = WorkQueue::new();
    assert!(q.enqueue(7).is_ok());
    q.close();
    assert!(q.is_closed_now());
    assert!(matches!(q.enqueue(8), Err(8)));
    assert!(matches!(q.dequeue(), Dequeued::Item(7)));
    assert!(matches!(q.dequeue(), Dequeued::End));
    assert!(matches!(q.dequeue(), Dequeued::End));
}

#[test]
fn splitter_keeps_partial_line() {
    let mut t = LineSplitter::new();
    let a = t.feed(b"INSERT A\nINS");
    assert_eq!(a, vec![b"INSERT A".to_vec()]);
    assert_eq!(t.pending_len(), 3);
    let b = t.feed(b"ERT B\n\nX");
    assert_eq!(b, vec![b"INSERT B".to_vec(), Vec::new()]);
    assert_eq!(t.pending_len(), 1);
    assert!(t.feed(b"").is_empty());
}

#[test]
fn lines_enter_queue_in_input_order() {
    let mut t = LineSplitter::new();
    let mut q: WorkQueue<Vec<u8>> = WorkQueue::new();
    assert_eq!(pump(&mut t, b"one\ntw", &mut q), Pumped::Sent);
    assert_eq!(pump(&mut t, b"o\nthree\n", &mut q), Pumped::Sent);
    q.close();
    assert_eq!(drain(&mut q), vec![b"one".to_vec(), b"two".to_vec(), b"three".to_vec()]);
}

#[test]
fn pump_stops_on_closed_queue() {
    let mut t = LineSplitter::new();
    let mut q: WorkQueue<Vec<u8>> = WorkQueue::new();
    q.close();
    assert_eq!(pump(&mut t, b"a\n", &mut q), Pumped::Closed);
    assert_eq!(q.len(), 0);
    assert!(!enqueue_all(&mut q, vec![b"b".to_vec()]));
}

#[test]
fn enqueue_all_keeps_order() {
    let mut q: WorkQueue<Vec<u8>> = WorkQueue::new();
    assert!(enqueue_all(&mut q, vec![b"x".to_vec(), b"y".to_vec()]));
    q.close();
    assert_eq!(drain(&mut q), vec![b"x".to_vec(), b"y".to_vec()]);
}

#[test]
fn worker_transitions() {
    assert_eq!(start(), (WorkerState::Disconnected, WorkerAction::Acquire));
    assert_eq!(
        step(WorkerState::Disconnected, WorkerEvent::Acquired),
        (WorkerState::Connected, WorkerAction::Dequeue)
    );
    assert_eq!(
        step(WorkerState::Connected, WorkerEvent::Received),
        (WorkerState::Connected, WorkerAction::Execute)
    );
    assert_eq!(
        step(WorkerState::Connected, WorkerEvent::Executed { ok: false, usable: true }),
        (WorkerState::Connected, WorkerAction::ReportAndDequeue { ok: false })
    );
    assert_eq!(
        step(WorkerState::Connected, WorkerEvent::Executed { ok: true, usable: false }),
        (WorkerState::Disconnected, WorkerAction::ReportAndReconnect { ok: true })
    );
    assert_eq!(
        step(WorkerState::Connected, WorkerEvent::QueueEnd),
        (WorkerState::Terminated, WorkerAction::Exit)
    );
    assert_eq!(
        step(WorkerState::Terminated, WorkerEvent::Acquired),
        (WorkerState::Terminated, WorkerAction::Exit)
    );
}

#[test]
fn retry_backoff_three_failures() {
    let events = vec![
        WorkerEvent::AcquireTransient,
        WorkerEvent::AcquireTransient,
        WorkerEvent::AcquireTransient,
        WorkerEvent::Acquired,
        WorkerEvent::Received,
    ];
    let r = run(WorkerState::Disconnected, &events);
    let backoffs = r.iter().filter(|x| x.1 == WorkerAction::Backoff).count() as u64;
    assert_eq!(backoffs, 3);
    assert_eq!(backoffs * BACKOFF_MS, 9000);
    assert_eq!(r[3], (WorkerState::Connected, WorkerAction::Dequeue));
    assert_eq!(r[4], (WorkerState::Connected, WorkerAction::Execute));
}

#[test]
fn fatal_acquire_stops_worker() {
    let events = vec![WorkerEvent::AcquireFatal, WorkerEvent::Acquired, WorkerEvent::Received];
    let r = run(WorkerState::Disconnected, &events);
    assert_eq!(r[0], (WorkerState::Terminated, WorkerAction::Fatal));
    assert_eq!(r[1], (WorkerState::Terminated, WorkerAction::Exit));
    assert_eq!(r[2], (WorkerState::Terminated, WorkerAction::Exit));
    assert!(!r.iter().any(|x| x.1 == WorkerAction::Execute));
}

#[test]
fn unknown_scheme_is_fatal() {
    assert_eq!(backend_for(b"mysql://localhost/db"), Err(ConfigError::UnknownScheme));
    assert_eq!(backend_for(b"postgres:/x"), Err(ConfigError::UnknownScheme));
    assert_eq!(backend_for(b""), Err(ConfigError::UnknownScheme));
    assert_eq!(backend_for(b"postgres://u@h/db"), Ok(Backend::Postgres));
    assert_eq!(backend_for(b"postgresql://h/db"), Ok(Backend::Postgres));
}

#[test]
fn pool_size_parsing() {
    assert_eq!(pool_size(None), DEFAULT_POOL_SIZE);
    assert_eq!(DEFAULT_POOL_SIZE, 3);
    assert_eq!(pool_size(Some(&b"5"[..])), 5);
    assert_eq!(pool_size(Some(&b"+12"[..])), 12);
    assert_eq!(pool_size(Some(&b"255"[..])), 255);
    assert_eq!(pool_size(Some(&b"256"[..])), 3);
    assert_eq!(pool_size(Some(&b"0"[..])), 3);
    assert_eq!(pool_size(Some(&b""[..])), 3);
    assert_eq!(pool_size(Some(&b"+"[..])), 3);
    assert_eq!(pool_size(Some(&b"-1"[..])), 3);
    assert_eq!(pool_size(Some(&b"4x"[..])), 3);
    assert_eq!(pool_size(Some(&b"007"[..])), 7);
}

#[test]
fn three_inserts_two_workers() {
    let mut t = LineSplitter::new();
    let mut q: WorkQueue<Vec<u8>> = WorkQueue::new();
    assert_eq!(pump(&mut t, b"INSERT A\nINSERT B\nINSERT C\n", &mut q), Pumped::Sent);
    q.close();

    let mut states = [start().0, start().0];
    let mut actions = [start().1, start().1];
    let mut held: [Option<Vec<u8>>; 2] = [None, None];
    let mut reports: Vec<(usize, bool, Vec<u8>)> = Vec::new();
    let mut turn = 0usize;
    while states.iter().any(|s| *s != WorkerState::Terminated) {
        let w = turn % 2;
        turn += 1;
        let event = match actions[w] {
            WorkerAction::Acquire | WorkerAction::Backoff => WorkerEvent::Acquired,
            WorkerAction::Dequeue
            | WorkerAction::ReportAndDequeue { .. }
            | WorkerAction::ReportAndReconnect { .. } => {
                if let WorkerAction::ReportAndDequeue { ok } = actions[w] {
                    reports.push((w, ok, held[w].take().unwrap()));
                }
                match q.dequeue() {
                    Dequeued::Item(s) => {
                        held[w] = Some(s);
                        WorkerEvent::Received
                    }
                    Dequeued::Empty => continue,
                    Dequeued::End => WorkerEvent::QueueEnd,
                }
            }
            WorkerAction::Execute => WorkerEvent::Executed { ok: true, usable: true },
            WorkerAction::Fatal | WorkerAction::Exit => continue,
        };
        let (s, a) = step(states[w], event);
        states[w] = s;
        actions[w] = a;
    }
    assert_eq!(reports.len(), 3);
    assert!(reports.iter().all(|r| r.1));
    let mut seen: Vec<Vec<u8>> = reports.iter().map(|r| r.2.clone()).collect();
    seen.sort();
    assert_eq!(seen, vec![b"INSERT A".to_vec(), b"INSERT B".to_vec(), b"INSERT C".to_vec()]);
    assert!(reports.iter().any(|r| r.0 == 0));
    assert!(reports.iter().any(|r| r.0 == 1));
}

#[test]
fn crlf_terminator_is_stripped() {
    let mut t = LineSplitter::new();
    let mut q: WorkQueue<Vec<u8>> = WorkQueue::new();
    assert_eq!(pump(&mut t, b"A\r\n\nB\n", &mut q), Pumped::Sent);
    q.close();
    assert_eq!(drain(&mut q), vec![b"A".to_vec(), Vec::new(), b"B".to_vec()]);
}

#[test]
fn crlf_split_across_chunks() {
    let mut t = LineSplitter::new();
    assert!(t.feed(b"A\r").is_empty());
    assert_eq!(t.feed(b"\nB\r\r\n"), vec![b"A".to_vec(), b"B\r".to_vec()]);
}

#[test]
fn fragment_sent_once_terminated() {
    let mut t = LineSplitter::new();
    let mut q: WorkQueue<Vec<u8>> = WorkQueue::new();
    assert_eq!(pump(&mut t, b"ab", &mut q), Pumped::Sent);
    assert_eq!(q.len(), 0);
    assert_eq!(pump(&mut t, b"\n", &mut q), Pumped::Sent);
    q.close();
    assert_eq!(drain(&mut q), vec![b"ab".to_vec()]);
}

#[test]
fn invalid_utf8_line_stops_tailer() {
    let mut t = LineSplitter::new();
    let mut q: WorkQueue<Vec<u8>> = WorkQueue::new();
    assert_eq!(pump(&mut t, b"ok\n\xff\xfe\nlater\n", &mut q), Pumped::NotUtf8);
    q.close();
    assert_eq!(drain(&mut q), vec![b"ok".to_vec()]);
}

#[test]
fn multibyte_utf8_is_accepted() {
    let mut t = LineSplitter::new();
    let mut q: WorkQueue<Vec<u8>> = WorkQueue::new();
    assert_eq!(pump(&mut t, "caf\u{e9}\n".as_bytes(), &mut q), Pumped::Sent);
    q.close();
    assert_eq!(drain(&mut q), vec!["caf\u{e9}".as_bytes().to_vec()]);
}
