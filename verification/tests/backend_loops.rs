use keith_shareit::backend::endpoint::{
    discovery_step, route_log, shortened_id, stops_discovery, DiscoveryAction, DiscoveryInput, LogTarget,
};
use keith_shareit::backend::receiver::{
    export_label, is_graceful_close, progress_step, receiver_step, total_size, ApplicationClose,
    ReceiverAction, ReceiverEvent, RECEIVER_CLOSE_REASON,
};
use keith_shareit::backend::secret::{key_from_bytes, KeyError};
use keith_shareit::backend::sender::{
    sender_close_reason, sender_step, shortened_hash, SenderAction, SenderEvent, SENDER_CLOSE_CODE,
};
use keith_shareit::backend::ticket::{ticket_from_text, ticket_target, ticket_text, TicketAddr, TicketError, TicketTarget};
use keith_shareit::backend::direct::endpoint_id_from_file;
use keith_shareit::backend::BackendEvent;
use keith_shareit::frontend::TuiCommand;
use std::path::PathBuf;

fn bytes32(prefix: &[u8]) -> [u8; 32] {
    let mut a = [0u8; 32];
    a[..prefix.len()].copy_from_slice(prefix);
    a
}

#[test]
fn shortened_hash_is_first_eight_hex_digits() {
    assert_eq!(shortened_hash(&bytes32(&[0xde, 0xad, 0xbe, 0xef, 0x99])), "deadbeef...");
    assert_eq!(shortened_hash(&bytes32(&[])), "00000000...");
}

#[test]
fn shortened_id_matches_hex_display() {
    let id = bytes32(&[0x01, 0x23, 0x45, 0x67, 0x89]);
    let full = data_encoding::HEXLOWER.encode(&id);
    assert_eq!(shortened_id(&id), format!("{}...", &full[..8]));
    assert_eq!(shortened_id(&id), "01234567...");
}

#[test]
fn route_log_by_role() {
    assert!(matches!(route_log("m".to_string(), true), LogTarget::Frontend(BackendEvent::StatusUpdate(ref s)) if s == "m"));
    assert!(matches!(route_log("m".to_string(), false), LogTarget::Console(ref s) if s == "m"));
}

#[test]
fn discovery_decisions() {
    assert_eq!(discovery_step(true, DiscoveryInput::Discovered), DiscoveryAction::Connect);
    assert_eq!(discovery_step(false, DiscoveryInput::Discovered), DiscoveryAction::Accept);
    assert_eq!(discovery_step(true, DiscoveryInput::Expired), DiscoveryAction::ReportExpired);
    assert_eq!(discovery_step(false, DiscoveryInput::Other), DiscoveryAction::Ignore);
    assert_eq!(discovery_step(true, DiscoveryInput::StreamEnded), DiscoveryAction::FailNoPeer);
    assert!(stops_discovery(&None));
    assert!(stops_discovery(&Some(TuiCommand::Shutdown)));
    assert!(!stops_discovery(&Some(TuiCommand::TicketInput("t".to_string()))));
}

#[test]
fn sender_decisions() {
    assert!(matches!(sender_step(SenderEvent::ReceiverDisconnected), SenderAction::StopDisconnected));
    assert!(matches!(sender_step(SenderEvent::Command(None)), SenderAction::StopShutdown));
    assert!(matches!(sender_step(SenderEvent::Command(Some(TuiCommand::Shutdown))), SenderAction::StopShutdown));
    assert!(matches!(sender_step(SenderEvent::Command(Some(TuiCommand::TicketInput("x".into())))), SenderAction::Ignore));
    match sender_step(SenderEvent::Command(Some(TuiCommand::SyncPath(PathBuf::from("/r/a"), PathBuf::from("/r"))))) {
        SenderAction::Share(f, r) => {
            assert_eq!(f, PathBuf::from("/r/a"));
            assert_eq!(r, PathBuf::from("/r"));
        }
        _ => panic!("expected share"),
    }
}

#[test]
fn law_receiver_sees_sender_close_as_graceful() {
    let reason = sender_close_reason();
    assert_eq!(reason, b"graceful shutdown".to_vec());
    assert!(is_graceful_close(SENDER_CLOSE_CODE, &reason));
    assert!(!is_graceful_close(1, &reason));
    assert!(!is_graceful_close(0, RECEIVER_CLOSE_REASON.as_bytes()));
    assert!(!is_graceful_close(0, b"graceful shutdown!"));
}

#[test]
fn receiver_decisions() {
    assert_eq!(receiver_step(&ReceiverEvent::SenderDisconnected), ReceiverAction::Finish);
    assert_eq!(receiver_step(&ReceiverEvent::Command(None)), ReceiverAction::Stop);
    assert_eq!(receiver_step(&ReceiverEvent::Command(Some(TuiCommand::Shutdown))), ReceiverAction::Stop);
    assert_eq!(
        receiver_step(&ReceiverEvent::Command(Some(TuiCommand::TicketInput("t".into())))),
        ReceiverAction::Unsupported
    );
    assert_eq!(receiver_step(&ReceiverEvent::StreamAccepted), ReceiverAction::ReadStream);
    let graceful = ApplicationClose { code: 0, reason: b"graceful shutdown".to_vec() };
    assert_eq!(receiver_step(&ReceiverEvent::StreamFailed(Some(graceful))), ReceiverAction::SenderDone);
    let other = ApplicationClose { code: 0, reason: b"done".to_vec() };
    assert_eq!(receiver_step(&ReceiverEvent::StreamFailed(Some(other))), ReceiverAction::StreamError);
    assert_eq!(receiver_step(&ReceiverEvent::StreamFailed(None)), ReceiverAction::StreamError);
}

#[test]
fn progress_steps() {
    assert_eq!(progress_step(50, 100, 0), (Some(50), 1));
    assert_eq!(progress_step(50, 100, 50), (None, 50));
    assert_eq!(progress_step(100, 100, 99), (Some(100), 100));
    assert_eq!(progress_step(100, 100, 100), (None, 100));
    assert_eq!(progress_step(1, 3, 0), (Some(33), 1));
    assert_eq!(progress_step(0, 3, 0), (None, 0));
}

#[test]
fn law_progress_checkpoint_never_passes_100() {
    let mut cp = 0;
    for off in 0..=1000u64 {
        let (_, next) = progress_step(off, 1000, cp);
        assert!(next <= cp + 1 && next <= 100);
        cp = next;
    }
    assert_eq!(cp, 100);
}

#[test]
fn total_size_sums() {
    assert_eq!(total_size(&vec![]), 0);
    assert_eq!(total_size(&vec![1, 2, 3]), 6);
}

#[test]
fn export_label_is_first_part() {
    assert_eq!(export_label("music/song.mp3"), "music");
    assert_eq!(export_label("song"), "song");
    assert_eq!(export_label(""), "");
    assert_eq!(export_label("/x"), "");
}

#[test]
fn key_bytes_need_exactly_32() {
    let k = key_from_bytes(&[7u8; 32]).unwrap();
    assert_eq!(k, [7u8; 32]);
    assert_eq!(key_from_bytes(&[7u8; 31]), Err(KeyError::WrongLength));
    assert_eq!(key_from_bytes(&[7u8; 33]), Err(KeyError::WrongLength));
}

fn sample_ticket() -> (String, [u8; 32]) {
    let id = iroh::SecretKey::from_bytes(&[7u8; 32]).public();
    let addr = iroh::EndpointAddr::from_parts(
        id,
        [iroh::TransportAddr::Ip("127.0.0.1:4433".parse().unwrap())],
    );
    let ticket = iroh_tickets::endpoint::EndpointTicket::new(addr);
    (ticket.to_string(), *id.as_bytes())
}

#[test]
fn ticket_text_names_its_peer() {
    let (text, id) = sample_ticket();
    let target = ticket_from_text(&text).unwrap();
    assert_eq!(target.id, id);
    assert_eq!(target.addrs.len(), 1);
    assert!(matches!(&target.addrs[0], TicketAddr::Ip(ip) if ip == "127.0.0.1:4433"));
}

#[test]
fn ticket_text_that_is_no_ticket_is_refused() {
    assert!(matches!(ticket_from_text("not a ticket"), Err(TicketError::Unparsable)));
    assert!(matches!(ticket_from_text(""), Err(TicketError::Unparsable)));
}

#[test]
fn ticket_target_by_command() {
    let (text, id) = sample_ticket();
    assert!(matches!(ticket_target(Some(TuiCommand::TicketInput(text))), Ok(Some(ref t)) if t.id == id));
    assert!(matches!(ticket_target(Some(TuiCommand::TicketInput("abc".into()))), Err(TicketError::Unparsable)));
    assert!(matches!(ticket_target(Some(TuiCommand::Shutdown)), Ok(None)));
    assert!(matches!(ticket_target(None), Err(TicketError::UnexpectedCommand)));
    assert!(matches!(
        ticket_target(Some(TuiCommand::SyncPath(PathBuf::new(), PathBuf::new()))),
        Err(TicketError::UnexpectedCommand)
    ));
}

#[test]
fn endpoint_id_file_bytes() {
    let id = *iroh::SecretKey::from_bytes(&[9u8; 32]).public().as_bytes();
    assert_eq!(endpoint_id_from_file(&id), Ok(id));
    assert_eq!(endpoint_id_from_file(&id[..31]), Err(KeyError::WrongLength));
    let mut bad = [0u8; 32];
    bad[0] = 2;
    let valid = iroh::EndpointId::from_bytes(&bad).is_ok();
    assert_eq!(endpoint_id_from_file(&bad).is_ok(), valid);
}

#[test]
fn shortened_hash_matches_blob_hash_display() {
    let hash = iroh_blobs::Hash::new(b"hello");
    let full = hash.to_string();
    assert_eq!(shortened_hash(hash.as_bytes()), format!("{}...", &full[..8]));
}

#[test]
fn shortened_id_matches_endpoint_id_display() {
    let id = iroh::SecretKey::from_bytes(&[7u8; 32]).public();
    let full = id.to_string();
    assert_eq!(shortened_id(id.as_bytes()), format!("{}...", &full[..8]));
}

#[test]
fn ticket_text_of_a_peer_reads_back() {
    let (text, id) = sample_ticket();
    let target = ticket_from_text(&text).unwrap();
    let again = ticket_text(&target).unwrap();
    assert_eq!(again, text);
    let back = ticket_from_text(&again).unwrap();
    assert_eq!(back.id, id);
    let bad = TicketTarget { id, addrs: vec![TicketAddr::Ip("not an address".to_string())] };
    assert!(ticket_text(&bad).is_none());
}
