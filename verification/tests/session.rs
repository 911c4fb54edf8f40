use rust_tcp_server::Server;

/// A deterministic stand-in for the task-execution engine.
fn engine(kind: u8, seed: u64) -> u8 {
    (kind as u64).wrapping_add(seed).wrapping_rem(251) as u8
}

#[test]
fn responses_answer_requests_in_order() {
    let lines: [&[u8]; 5] = [b"0:5", b"junk", b"1:9", b"99:1", b"0:7"];
    let mut responses: Vec<u8> = Vec::new();
    for line in lines {
        if let Some(p) = Server::plan_request(line) {
            responses.push(engine(p.kind, p.seed));
        }
    }
    assert_eq!(responses, vec![engine(0, 5), engine(1, 9), engine(0, 7)]);
}

#[test]
fn malformed_line_leaves_handler_ready() {
    assert!(Server::plan_request(b"nonsense").is_none());
    assert!(Server::plan_request(b"0:1").is_some());
}

#[test]
fn every_well_formed_request_gets_exactly_one_byte() {
    let lines: [&[u8]; 3] = [b"1:1", b"1:2", b"1:3"];
    let mut count: usize = 0;
    for line in lines {
        if Server::plan_request(line).is_some() {
            count += 1;
        }
    }
    assert_eq!(count, 3);
}
