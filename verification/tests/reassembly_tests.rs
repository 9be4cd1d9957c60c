use reassembly::file_manager::FileManager;
use reassembly::file_manager::ReconstructionError;
use reassembly::packet::Data;
use reassembly::packet::Header;
use reassembly::packet::Packet;

fn header(file_id: u8, name: &[u8]) -> Packet {
    Packet::Header(Header {
        file_id,
        file_name: name.to_vec(),
    })
}

fn data(file_id: u8, packet_number: u16, is_last_packet: bool, payload: &[u8]) -> Packet {
    Packet::Data(Data {
        file_id,
        packet_number,
        is_last_packet,
        data: payload.to_vec(),
    })
}

fn tracked_file_count(fm: &FileManager) -> usize {
    let mut count: usize = 0;
    for id in 0..=255u8 {
        if fm.received_count(id) > 0 {
            count += 1;
        }
    }
    count
}

#[test]
fn test_file_manager() {
    let mut file_manager = FileManager::default();
    file_manager.process_packet(header(1, b"test_file"));
    file_manager.process_packet(data(1, 1, false, b"Hello"));
    assert_eq!(tracked_file_count(&file_manager), 1);
}

#[test]
fn two_fragment_file_reassembles() {
    let mut fm = FileManager::new(1);
    fm.process_packet(header(1, b"hello.txt"));
    fm.process_packet(data(1, 0, false, b"He"));
    fm.process_packet(data(1, 1, true, b"llo"));
    assert!(fm.is_file_complete(1));
    let (name, bytes) = fm.finalize(1).unwrap();
    assert_eq!(name, b"hello.txt".to_vec());
    assert_eq!(bytes, b"Hello".to_vec());
}

#[test]
fn completion_grows_with_arrivals() {
    let mut fm = FileManager::new(1);
    assert!(!fm.is_file_complete(1));
    assert!(!fm.received_all_packets());
    fm.process_packet(data(1, 1, true, b"llo"));
    assert!(!fm.is_file_complete(1));
    fm.process_packet(data(1, 0, false, b"He"));
    assert!(!fm.is_file_complete(1));
    fm.process_packet(header(1, b"hello.txt"));
    assert!(fm.is_file_complete(1));
    assert!(fm.received_all_packets());
}

#[test]
fn duplicate_data_keeps_fragments_but_counts_twice() {
    let mut fm = FileManager::new(1);
    fm.process_packet(data(7, 0, false, b"abc"));
    fm.process_packet(data(7, 0, false, b"abc"));
    assert_eq!(fm.received_count(7), 2);
    assert_eq!(fm.fragment(7, 0), Some(&b"abc".to_vec()));
    assert_eq!(fm.fragment(7, 1), None);
}

#[test]
fn later_duplicate_payload_wins() {
    let mut fm = FileManager::new(1);
    fm.process_packet(data(4, 2, false, b"first"));
    fm.process_packet(data(4, 2, false, b"second"));
    assert_eq!(fm.fragment(4, 2), Some(&b"second".to_vec()));
}

#[test]
fn out_of_order_delivery_reassembles_identically() {
    let fragments: &[(u16, bool, &[u8])] =
        &[(0, false, b"ab"), (1, false, b"cd"), (2, true, b"ef")];

    let mut in_order = FileManager::new(1);
    in_order.process_packet(header(5, b"f.bin"));
    for &(seq, last, payload) in fragments {
        in_order.process_packet(data(5, seq, last, payload));
    }

    let mut reversed = FileManager::new(1);
    for &(seq, last, payload) in fragments.iter().rev() {
        reversed.process_packet(data(5, seq, last, payload));
    }
    reversed.process_packet(header(5, b"f.bin"));

    assert!(in_order.is_file_complete(5));
    assert!(reversed.is_file_complete(5));
    assert_eq!(in_order.finalize(5).unwrap(), reversed.finalize(5).unwrap());
    assert_eq!(in_order.finalize(5).unwrap().1, b"abcdef".to_vec());
}

#[test]
fn missing_fragment_is_reported() {
    // Two copies of the terminal fragment satisfy the received count, but
    // index 0 of the sequence space was never filled.
    let mut fm = FileManager::new(1);
    fm.process_packet(header(9, b"holey"));
    fm.process_packet(data(9, 1, true, b"x"));
    fm.process_packet(data(9, 1, true, b"x"));
    assert!(fm.is_file_complete(9));
    assert_eq!(
        fm.sort_and_return_data(9),
        Err(ReconstructionError::MissingFragment(0))
    );
    assert_eq!(fm.finalize(9), Err(ReconstructionError::MissingFragment(0)));
}

#[test]
fn last_header_wins() {
    let mut fm = FileManager::new(1);
    fm.process_packet(header(2, b"old_name"));
    fm.process_packet(header(2, b"new_name"));
    assert_eq!(fm.header_name(2), Some(&b"new_name".to_vec()));
}

#[test]
fn last_terminal_fragment_wins() {
    let mut fm = FileManager::new(1);
    fm.process_packet(data(2, 3, true, b"a"));
    assert_eq!(fm.expected_count(2), Some(3));
    fm.process_packet(data(2, 1, true, b"b"));
    assert_eq!(fm.expected_count(2), Some(1));
}

#[test]
fn session_needs_the_configured_file_count() {
    let mut fm = FileManager::default();
    for id in 1..=3u8 {
        fm.process_packet(header(id, b"name"));
        fm.process_packet(data(id, 0, true, b"z"));
        let done = fm.received_all_packets();
        assert_eq!(done, id == 3);
    }
}

#[test]
fn empty_session_is_never_complete() {
    let fm = FileManager::new(0);
    assert!(!fm.received_all_packets());
}

#[test]
fn incomplete_file_blocks_the_session() {
    let mut fm = FileManager::new(1);
    fm.process_packet(header(1, b"a"));
    fm.process_packet(data(1, 1, false, b"half"));
    assert!(!fm.received_all_packets());
    fm.process_packet(data(1, 0, true, b"oops"));
    // The terminal fragment arrived under sequence number 0 but two data
    // packets were received, so the count can never match.
    assert!(!fm.received_all_packets());
}

#[test]
fn single_fragment_file_reassembles() {
    let mut fm = FileManager::new(1);
    fm.process_packet(header(0, b"one.bin"));
    fm.process_packet(data(0, 0, true, b"only"));
    assert!(fm.received_all_packets());
    let (name, bytes) = fm.finalize(0).unwrap();
    assert_eq!(name, b"one.bin".to_vec());
    assert_eq!(bytes, b"only".to_vec());
}

#[test]
fn finalize_is_repeatable() {
    let mut fm = FileManager::new(1);
    fm.process_packet(header(6, b"again"));
    fm.process_packet(data(6, 0, true, b"payload"));
    let first = fm.finalize(6).unwrap();
    let second = fm.finalize(6).unwrap();
    assert_eq!(first, second);
}

#[test]
fn decoded_packets_drive_the_store() {
    let mut fm = FileManager::new(1);
    let wire_header: &[u8] = b"\x00\x01hello.txt";
    let wire_d0: &[u8] = b"\x01\x01\x00\x00\x00He";
    let wire_d1: &[u8] = b"\x01\x01\x00\x01\x01llo";
    for wire in [wire_header, wire_d0, wire_d1] {
        fm.process_packet(Packet::try_from(wire).unwrap());
    }
    assert!(fm.is_file_complete(1));
    let (name, bytes) = fm.finalize(1).unwrap();
    assert_eq!(name, b"hello.txt".to_vec());
    assert_eq!(bytes, b"Hello".to_vec());
}
