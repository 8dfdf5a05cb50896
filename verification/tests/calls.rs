use doors::cli::{attach_notice, key_source, speaks_after_auth};
use doors::key::Key;
use doors::runner::{Event, Runner};
use doors::wire::{
    frame, handle_request, too_large_message, DoorRequest, DoorResponse, Fed, FrameReader,
    HEADER_LEN, MAX_PAYLOAD,
};

/// Reads one frame from a stream, and gives what follows it.
fn read(stream: &[u8]) -> (Fed, Vec<u8>) {
    let mut reader = FrameReader::Header;
    let mut rest = stream;
    loop {
        let (bytes, tail) = rest.split_at(reader.wants());
        rest = tail;
        match reader.feed(bytes.to_vec()) {
            Fed::More(next) => reader = next,
            end => return (end, rest.to_vec()),
        }
    }
}

#[test]
fn length_stands_in_front() {
    assert_eq!(frame(b""), vec![0, 0, 0, 0]);
    assert_eq!(frame(b"abc"), vec![0, 0, 0, 3, 97, 98, 99]);
    let long = frame(&vec![9u8; 0x1234a]);
    assert_eq!(&long[..5], &[0x00, 0x01, 0x23, 0x4a, 9]);
    assert_eq!(long.len(), 4 + 0x1234a);
}

#[test]
fn frames_read_back() {
    for payload in [vec![], b"{}".to_vec(), vec![7u8; 70000]] {
        let mut stream = frame(&payload);
        stream.extend_from_slice(b"next");
        match read(&stream) {
            (Fed::Payload(p), rest) => {
                assert_eq!(p, payload);
                assert_eq!(rest, b"next".to_vec());
            }
            other => panic!("{:?}", other),
        }
    }
}

#[test]
fn header_is_wanted_first() {
    assert_eq!(HEADER_LEN, 4);
    assert_eq!(FrameReader::Header.wants(), 4);
    assert!(matches!(
        FrameReader::Header.feed(vec![0, 0, 2, 1]),
        Fed::More(FrameReader::Body { len: 513 })
    ));
}

#[test]
fn largest_payload_is_taken() {
    assert_eq!(MAX_PAYLOAD, 16777216);
    assert!(matches!(
        FrameReader::Header.feed(vec![1, 0, 0, 0]),
        Fed::More(FrameReader::Body { len: 16777216 })
    ));
}

#[test]
fn larger_payload_is_refused() {
    assert!(matches!(FrameReader::Header.feed(vec![1, 0, 0, 1]), Fed::TooLarge(16777217)));
    assert!(matches!(
        FrameReader::Header.feed(vec![255, 255, 255, 255]),
        Fed::TooLarge(4294967295)
    ));
    assert!(matches!(read(&frame(&vec![0u8; 16777217])), (Fed::TooLarge(16777217), _)));
    assert_eq!(too_large_message(16777217), "message too large: 16777217");
}

#[test]
fn door_answers_requests() {
    let request = DoorRequest { data: "ping".to_string() };
    let response = handle_request(None, &request);
    assert_eq!(response.data, "Well, hello to you too! You said: ping");
    assert!(response.error.is_none());
    let key = Key::load("n=1000003\nbits=20").unwrap();
    let request = DoorRequest {
        data: "AUTH:CHAL:abababababababababababababababab".to_string(),
    };
    assert_eq!(handle_request(Some(&key), &request).data, "AUTH:CHAL:068730:20");
}

#[test]
fn outcome_of_a_response() {
    let good = DoorResponse { data: "hi".to_string(), error: None };
    assert_eq!(good.outcome(), Ok("hi".to_string()));
    let bad = DoorResponse { data: "hi".to_string(), error: Some("shut".to_string()) };
    assert_eq!(bad.outcome(), Err("door error: shut".to_string()));
}

fn lines(log: &[Event]) -> Vec<String> {
    log.iter().map(|e| e.line().text).collect()
}

#[test]
fn no_more_calls_run_than_may() {
    let mut log = Vec::new();
    let mut runner = Runner::new(3, 2);
    assert_eq!(runner.start(&mut log), Some(0));
    assert_eq!(runner.start(&mut log), Some(1));
    assert_eq!(runner.start(&mut log), None);
    runner.finish(1, Ok("pong".to_string()), &mut log);
    assert_eq!(runner.start(&mut log), Some(2));
    assert_eq!(runner.start(&mut log), None);
    runner.finish(0, Err("door error: shut".to_string()), &mut log);
    runner.finish(2, Ok(String::new()), &mut log);
    assert_eq!(runner.start(&mut log), None);
    assert_eq!(
        lines(&log),
        vec![
            "[0] started",
            "status: running=1 done=0 queued=2",
            "[1] started",
            "status: running=2 done=0 queued=1",
            "[1] pong",
            "status: running=1 done=1 queued=1",
            "[2] started",
            "status: running=2 done=1 queued=0",
            "[0] ERROR: door error: shut",
            "status: running=1 done=2 queued=0",
            "[2] ",
            "status: running=0 done=3 queued=0",
        ]
    );
    assert_eq!(runner.exit_code(), 1);
}

#[test]
fn status_goes_to_the_error_stream() {
    let mut log = Vec::new();
    let mut runner = Runner::new(1, 8);
    runner.start(&mut log);
    runner.finish(0, Ok("pong".to_string()), &mut log);
    let streams: Vec<bool> = log.iter().map(|e| e.line().to_stderr).collect();
    assert_eq!(streams, vec![false, true, false, true]);
    assert_eq!(runner.exit_code(), 0);
}

#[test]
fn failed_call_has_no_output() {
    let mut log = Vec::new();
    let mut runner = Runner::new(1, 1);
    runner.start(&mut log);
    runner.finish(0, Err("gone".to_string()), &mut log);
    match &log[2] {
        Event::Finished { id, output, error } => {
            assert_eq!(*id, 0);
            assert_eq!(output, "");
            assert_eq!(error.as_deref(), Some("gone"));
        }
        other => panic!("{:?}", other),
    }
}

#[test]
fn empty_batch_succeeds() {
    let mut log = Vec::new();
    let mut runner = Runner::new(0, 8);
    assert_eq!(runner.start(&mut log), None);
    assert!(log.is_empty());
    assert_eq!(runner.exit_code(), 0);
}

#[test]
fn nothing_runs_where_nothing_may() {
    let mut log = Vec::new();
    assert_eq!(Runner::new(5, 0).start(&mut log), None);
}

#[test]
fn batch_goes_on_to_its_end() {
    let mut log = Vec::new();
    let mut runner = Runner::new(20, 4);
    let mut next_done = 0;
    loop {
        while let Some(_) = runner.start(&mut log) {
            assert!(runner.running() <= 4);
        }
        if runner.running() == 0 {
            break;
        }
        runner.finish(next_done, Ok("pong".to_string()), &mut log);
        next_done += 1;
    }
    assert_eq!(runner.done, 20);
    assert_eq!(log.last().unwrap().line().text, "status: running=0 done=20 queued=0");
    assert_eq!(log.len(), 80);
}

#[test]
fn named_key_goes_before_the_environment() {
    assert_eq!(key_source(Some("a"), Some("b")), Some("a"));
    assert_eq!(key_source(None, Some("b")), Some("b"));
    assert_eq!(key_source(Some("a"), None), Some("a"));
    assert_eq!(key_source::<&str>(None, None), None);
}

#[test]
fn only_a_message_of_ones_own_follows() {
    assert!(!speaks_after_auth(""));
    assert!(!speaks_after_auth("Hello, World!"));
    assert!(speaks_after_auth("Hello, World"));
    assert!(speaks_after_auth("Hello, World!!"));
    assert!(speaks_after_auth("secret payload"));
}

#[test]
fn attachment_is_announced() {
    assert_eq!(
        attach_notice("/tmp/secure.door", true),
        "door attached at /tmp/secure.door (authenticated)"
    );
    assert_eq!(
        attach_notice("/tmp/hello.door", false),
        "door attached at /tmp/hello.door (unauthenticated)"
    );
}

#[test]
fn each_number_is_told_once() {
    let mut log = Vec::new();
    let mut runner = Runner::new(9, 3);
    loop {
        while let Some(id) = runner.start(&mut log) {
            assert!(runner.is_running(id));
        }
        // The running call with the highest number ends first.
        match (0usize..9).rev().find(|id| runner.is_running(*id)) {
            Some(id) => {
                let result = if id % 2 == 0 { Ok("pong".to_string()) } else { Err("gone".to_string()) };
                runner.finish(id, result, &mut log);
                assert!(!runner.is_running(id));
            }
            None => break,
        }
    }
    for number in 0usize..9 {
        let starts: Vec<usize> = (0..log.len())
            .filter(|i| matches!(&log[*i], Event::Started { id } if *id == number))
            .collect();
        let ends: Vec<usize> = (0..log.len())
            .filter(|i| matches!(&log[*i], Event::Finished { id, .. } if *id == number))
            .collect();
        assert_eq!(starts.len(), 1);
        assert_eq!(ends.len(), 1);
        assert!(starts[0] < ends[0]);
    }
    assert_eq!(runner.failures, 4);
    assert_eq!(runner.exit_code(), 1);
}

#[test]
fn only_started_calls_run() {
    let mut log = Vec::new();
    let mut runner = Runner::new(3, 3);
    assert!(!runner.is_running(0));
    runner.start(&mut log);
    runner.start(&mut log);
    assert!(runner.is_running(0));
    assert!(runner.is_running(1));
    assert!(!runner.is_running(2));
    assert_eq!(runner.running(), 2);
    runner.finish(0, Ok(String::new()), &mut log);
    assert!(!runner.is_running(0));
    assert!(runner.is_running(1));
    assert_eq!(runner.running(), 1);
}
