//! Traces out of log lines, and their replay.
use std::collections::VecDeque;
use std::io::{BufRead, BufReader, Write};

use bytes::Bytes;
use net_proxy::packet_replay::{PacketDirection, PacketReplayer, PacketTrace, TraceParser};
use tempfile::NamedTempFile;

const MILLISECOND: u64 = 1_000_000;

/// Reads every line of a file, and says how many gave a trace.
fn load_from_file(parser: &mut TraceParser, file: &NamedTempFile) -> std::io::Result<usize> {
    let mut lines = Vec::new();
    for line in BufReader::new(file.reopen()?).lines() {
        lines.push((0, line?));
    }
    Ok(parser.load_lines(&lines))
}

#[test]
fn test_trace_parser() {
    let mut parser = TraceParser::new();

    let log_line = r#"2025-06-26T21:45:58.528696Z [IN] 192.168.100.2:54546 > 104.16.98.215:443: Flags [.P], seq 2595303071, ack 142241886, win 65535, len 31"#;

    let trace = parser.parse_log_line(log_line, 0);
    assert!(trace.is_some());

    let trace = trace.unwrap();
    assert_eq!(trace.direction, PacketDirection::VmToProxy);
    assert!(trace.data.len() > 0);
}

#[test]
fn test_docker_pull_replay() {
    let mut temp_file = NamedTempFile::new().expect("Failed to create temp file");

    let log_content = r#"2025-06-26T17:36:29.337481Z [IN] 192.168.100.2:40266 > 104.16.98.215:443: Flags [.P], seq 2595303071, ack 142241886, win 65535, len 31
2025-06-26T17:36:29.337500Z [OUT] 104.16.98.215:443 > 192.168.100.2:40266: Flags [.], ack 2595303102, win 65535, len 0
2025-06-26T17:36:29.338000Z [IN] 192.168.100.2:40266 > 104.16.98.215:443: Flags [.P], seq 2595303102, ack 142241886, win 65535, len 512
2025-06-26T17:36:29.338200Z [OUT] 104.16.98.215:443 > 192.168.100.2:40266: Flags [.P], seq 142241886, ack 2595303614, win 65535, len 1460
2025-06-26T17:36:29.338300Z [IN] 192.168.100.2:40266 > 104.16.98.215:443: Flags [.], ack 142243346, win 65535, len 0"#;

    temp_file.write_all(log_content.as_bytes()).expect("Failed to write to temp file");
    temp_file.flush().expect("Failed to flush temp file");

    let mut parser = TraceParser::new();
    let trace_count = load_from_file(&mut parser, &temp_file)
        .expect("Failed to load traces");

    assert_eq!(trace_count, 5, "Should parse 5 trace entries");

    let traces: VecDeque<PacketTrace> = parser.get_traces().clone();
    let mut replayer = PacketReplayer::new(traces);

    let mut packet_count = 0;
    while !replayer.is_complete() {
        if let Some(trace) = replayer.next_packet() {
            match trace.direction {
                PacketDirection::VmToProxy => {
                    assert!(trace.data.len() > 0);
                    packet_count += 1;
                }
                PacketDirection::ProxyToVm => {
                    assert!(trace.data.len() > 0);
                    packet_count += 1;
                }
                _ => {}
            }
        }
        replayer.advance_time(MILLISECOND);
    }

    assert_eq!(packet_count, 5, "Should replay all 5 packets");
}

#[test]
fn test_connection_stall_detection() {
    let mut parser = TraceParser::new();

    let stall_logs = vec![
        "2025-06-26T17:36:29.337481Z [IN] 192.168.100.2:40266 > 104.16.98.215:443: Flags [.P], seq 1000, ack 2000, win 65535, len 1460",
        "2025-06-26T17:36:29.337500Z [OUT] 104.16.98.215:443 > 192.168.100.2:40266: Flags [.], ack 2460, win 65535, len 0",
        "2025-06-26T17:36:29.338000Z [IN] 192.168.100.2:40266 > 104.16.98.215:443: Flags [.P], seq 2460, ack 2000, win 65535, len 1460",
    ];

    for log_line in stall_logs {
        parser.parse_log_line(log_line, 0);
    }

    let traces = parser.get_traces();
    assert_eq!(traces.len(), 3, "Should parse 3 active packets before stall");

    let connection_id = traces.front().unwrap().connection_id.clone();
    assert!(connection_id.is_some(), "Should extract connection ID");
    assert!(
        connection_id.unwrap().contains("192.168.100.2:40266"),
        "Should identify the Docker connection"
    );
}

fn trace(timestamp: u64, byte: u8) -> PacketTrace {
    PacketTrace {
        timestamp,
        direction: PacketDirection::ProxyToVm,
        data: Bytes::copy_from_slice(&[byte]),
        connection_id: None,
    }
}

#[test]
fn replay_keeps_order_and_waits() {
    let mut replayer = PacketReplayer::new(VecDeque::from(vec![trace(5, 1), trace(3, 2), trace(9, 3)]));
    assert!(replayer.next_packet().is_none());
    replayer.advance_time(5);
    assert_eq!(replayer.next_packet().unwrap().data[0], 1);
    assert_eq!(replayer.next_packet().unwrap().data[0], 2);
    assert!(replayer.next_packet().is_none());
    assert!(!replayer.is_complete());
    replayer.advance_time(4);
    assert_eq!(replayer.next_packet().unwrap().data[0], 3);
    assert!(replayer.is_complete());
    assert!(replayer.next_packet().is_none());
}

#[test]
fn times_count_from_the_first_line_with_one() {
    let mut parser = TraceParser::new();
    assert_eq!(parser.parse_log_line("[OUT] no time here", 70).unwrap().timestamp, 0);
    assert_eq!(parser.parse_log_line("2025-06-26T21:45:58Z [IN] x", 100).unwrap().timestamp, 0);
    assert_eq!(parser.parse_log_line("2025-06-26T21:45:59Z [IN] x", 130).unwrap().timestamp, 30);
    assert_eq!(parser.parse_log_line("[OUT] no time here", 200).unwrap().timestamp, 0);
    assert_eq!(parser.parse_log_line("2025-06-26T21:45:59Z [OUT] x", 90).unwrap().timestamp, 0);
    assert!(parser.parse_log_line("2025-06-26T21:45:59Z no direction", 95).is_none());
    assert_eq!(parser.get_traces().len(), 5);
}

#[test]
fn made_up_packets() {
    let mut parser = TraceParser::new();
    let t = parser.parse_log_line("[IN] a > b: Flags [.], seq 1, ack 2, len +3 x", 0).unwrap();
    assert_eq!(t.connection_id.as_deref(), Some("a > b"));
    let mut expected = vec![0xde, 0xad, 0xbe, 0xef, 0, 0, 2, 0, 0, 1, 2, 3];
    expected.extend(vec![0u8; 51]);
    assert_eq!(&t.data[..], &expected[..]);
    for text in ["[OUT] seq ack len x", "[OUT] seq ack len 4294967296", "[OUT] seq ack len +", "[OUT] seq ack len "] {
        assert_eq!(parser.parse_log_line(text, 0).unwrap().data.len(), 60);
    }
    let t = parser.parse_log_line("[OUT] [IN] nothing else", 0).unwrap();
    assert_eq!(t.direction, PacketDirection::VmToProxy);
    assert_eq!(&t.data[..], &[0u8; 60][..]);
    assert!(t.connection_id.is_some() == false);
}

#[test]
fn lines_are_looked_at_before_they_are_read() {
    assert!(TraceParser::accepts("no direction, however odd: T Z : Flags ] "));
    assert!(TraceParser::accepts("2025-07-12T10:20:30Z [IN] a.1 > b.2: Flags [S], seq 1"));
    assert!(!TraceParser::accepts("25-07-12T10:20:30Z [IN] a.1 > b.2: Flags [S], seq 1"));
    assert!(!TraceParser::accepts("2025-07-12T10:20:30Z [IN: Flags] [IN] a.1 > b.2"));
    assert!(TraceParser::accepts("[OUT] a.1 > b.2: Flags [.], ack 1"));
}

#[test]
fn lines_are_loaded_in_order() {
    let mut parser = TraceParser::new();
    let lines = vec![
        (100, "2025-06-26T21:45:58Z [IN] x".to_string()),
        (110, "no direction".to_string()),
        (130, "2025-06-26T21:45:59Z [OUT] x".to_string()),
    ];
    assert_eq!(parser.load_lines(&lines), 2);
    let times: Vec<u64> = parser.get_traces().iter().map(|t| t.timestamp).collect();
    assert_eq!(times, vec![0, 30]);
    assert_eq!(parser.get_traces()[1].direction, PacketDirection::ProxyToVm);
    assert_eq!(parser.load_lines(&vec![]), 0);
    assert_eq!(parser.get_traces().len(), 2);
}
