use flight_telemetry::decoder::{ReadEvent, StepOutcome, StreamDecoder};
use flight_telemetry::record::{convert_to_packet, parse_telemetry, TelemetryPacket};

fn bytes(s: &str) -> Vec<u8> {
    s.as_bytes().to_vec()
}

/// A well-formed 17-field telemetry line with a distinguishing timestamp.
fn telemetry_line(ts: &str) -> String {
    format!("{},1,2,3,4,5,6,7,8,9,10,11,12,13,14,15,16", ts)
}

#[test]
fn single_line_emits_packet_one() {
    let mut d = StreamDecoder::new();
    let chunk = bytes(&format!("{}\n", telemetry_line("t1")));
    let packets = d.push_chunk(&chunk);
    assert_eq!(packets.len(), 1);
    assert_eq!(packets[0].packet_id, 1);
    assert_eq!(packets[0].timestamp, bytes("t1"));
    assert_eq!(packets[0].satellites, 15);
}

#[test]
fn sequence_ids_are_gapless_across_chunks() {
    // Three parsed lines fed in ragged chunks carry ids 1, 2, 3.
    let mut d = StreamDecoder::new();
    let l1 = telemetry_line("a");
    let l2 = telemetry_line("b");
    let l3 = telemetry_line("c");
    let stream = format!("{}\n{}\n{}\n", l1, l2, l3);
    let raw = stream.as_bytes();
    let mut all: Vec<TelemetryPacket> = Vec::new();
    // Feed in 7-byte chunks, a size that splits every line.
    for chunk in raw.chunks(7) {
        let mut got = d.push_chunk(&chunk.to_vec());
        all.append(&mut got);
    }
    assert_eq!(all.len(), 3);
    assert_eq!(all[0].packet_id, 1);
    assert_eq!(all[1].packet_id, 2);
    assert_eq!(all[2].packet_id, 3);
    assert_eq!(all[0].timestamp, bytes("a"));
    assert_eq!(all[1].timestamp, bytes("b"));
    assert_eq!(all[2].timestamp, bytes("c"));
}

#[test]
fn line_split_across_reads_reassembles_once() {
    let mut d = StreamDecoder::new();
    // First read ends mid-line ("...,1,2" / ",3,4,..."): no packet yet.
    let full = telemetry_line("split-stamp");
    let (first, second) = full.split_at(15);
    let none = d.push_chunk(&bytes(first));
    assert_eq!(none.len(), 0);
    let packets = d.push_chunk(&bytes(&format!("{}\n", second)));
    assert_eq!(packets.len(), 1);
    assert_eq!(packets[0].packet_id, 1);
    assert_eq!(packets[0].timestamp, bytes("split-stamp"));
    // Exactly one candidate line: no loss, no duplication.
    let trailing = d.push_chunk(&bytes("\n"));
    assert_eq!(trailing.len(), 0);
}

#[test]
fn malformed_lines_dropped_without_sequence_gap() {
    let mut d = StreamDecoder::new();
    let chunk = bytes(&format!(
        "not,enough,fields\n{}\ngarbage\n{}\n",
        telemetry_line("x"),
        telemetry_line("y")
    ));
    let packets = d.push_chunk(&chunk);
    assert_eq!(packets.len(), 2);
    assert_eq!(packets[0].packet_id, 1);
    assert_eq!(packets[0].timestamp, bytes("x"));
    assert_eq!(packets[1].packet_id, 2);
    assert_eq!(packets[1].timestamp, bytes("y"));
}

#[test]
fn carriage_return_stripped_and_blank_lines_skipped() {
    let mut d = StreamDecoder::new();
    let chunk = bytes(&format!("\r\n\n{}\r\n", telemetry_line("z")));
    let packets = d.push_chunk(&chunk);
    assert_eq!(packets.len(), 1);
    assert_eq!(packets[0].packet_id, 1);
    assert_eq!(packets[0].timestamp, bytes("z"));
    assert_eq!(packets[0].alt_gps, bytes("16"));
}

#[test]
fn oversized_unterminated_buffer_is_discarded() {
    let mut d = StreamDecoder::new();
    // Far past the 4096-byte ceiling, never a terminator.
    let junk: Vec<u8> = vec![b'x'; 5000];
    let none = d.push_chunk(&junk);
    assert_eq!(none.len(), 0);
    // The decoder keeps operating, and the discarded bytes are truly gone:
    // the next line parses with its own timestamp, not 5000 x's in front.
    let packets = d.push_chunk(&bytes(&format!("{}\n", telemetry_line("after"))));
    assert_eq!(packets.len(), 1);
    assert_eq!(packets[0].packet_id, 1);
    assert_eq!(packets[0].timestamp, bytes("after"));
}

#[test]
fn buffer_at_ceiling_is_kept() {
    let mut d = StreamDecoder::new();
    // Exactly 4096 unterminated bytes: within the ceiling, kept.
    let mut head = bytes("kept,");
    head.extend(std::iter::repeat(b'1').take(4096 - head.len()));
    assert_eq!(d.push_chunk(&head).len(), 0);
    // Finish the line: 17 fields whose first is the kept prefix.
    let packets = d.push_chunk(&bytes(",2,3,4,5,6,7,8,9,10,11,12,13,14,15,16\n"));
    assert_eq!(packets.len(), 1);
    assert_eq!(packets[0].timestamp, bytes("kept"));
}

#[test]
fn invalid_utf8_is_replaced_not_fatal() {
    let mut d = StreamDecoder::new();
    // An invalid byte inside the timestamp field becomes U+FFFD, and the
    // line still parses: encoding errors never stop the loop.
    let mut chunk: Vec<u8> = vec![0xFF];
    chunk.extend_from_slice(",1,2,3,4,5,6,7,8,9,10,11,12,13,14,15,16\n".as_bytes());
    let packets = d.push_chunk(&chunk);
    assert_eq!(packets.len(), 1);
    assert_eq!(packets[0].timestamp, "\u{FFFD}".as_bytes().to_vec());
}

#[test]
fn cancellation_stops_without_reading() {
    let mut d = StreamDecoder::new();
    let out = d.handle_event(true, ReadEvent::NoData);
    assert!(matches!(out, StepOutcome::Stop));
}

#[test]
fn no_data_and_timeout_pause() {
    let mut d = StreamDecoder::new();
    assert!(matches!(d.handle_event(false, ReadEvent::NoData), StepOutcome::Pause));
    assert!(matches!(d.handle_event(false, ReadEvent::TimedOut), StepOutcome::Pause));
}

#[test]
fn fatal_read_error_stops() {
    let mut d = StreamDecoder::new();
    assert!(matches!(d.handle_event(false, ReadEvent::Failed), StepOutcome::Stop));
}

#[test]
fn data_event_emits_packets() {
    let mut d = StreamDecoder::new();
    let chunk = bytes(&format!("{}\n", telemetry_line("ev")));
    match d.handle_event(false, ReadEvent::Data(chunk)) {
        StepOutcome::Emitted(packets) => {
            assert_eq!(packets.len(), 1);
            assert_eq!(packets[0].packet_id, 1);
            assert_eq!(packets[0].timestamp, bytes("ev"));
        }
        _ => panic!("data must yield an emission outcome"),
    }
}

#[test]
fn packet_assembly_copies_fields() {
    let l = bytes("ts,1,2,3,4,5,6,7,8,9,10,11,12,13,14,7,16");
    let rec = parse_telemetry(&l).expect("must parse");
    let p = convert_to_packet(&rec, 99);
    assert_eq!(p.packet_id, 99);
    assert_eq!(p.timestamp, rec.timestamp);
    assert_eq!(p.accel_x, rec.accel_x);
    assert_eq!(p.satellites, 7);
    assert_eq!(p.alt_gps, rec.alt_gps);
}
