use quantun::http::request::{Event, Phase, Task};
use quantun::http::tls::{TlsBuilder, TlsError};

#[test]
fn whole_course_leads_to_parsed() {
    let mut phase = Phase::start();
    assert_eq!(phase, Phase::Built);
    let events = [
        (Event::Started, Phase::Connecting),
        (Event::Connected, Phase::Handshaking),
        (Event::Secured, Phase::Sending),
        (Event::Written, Phase::Receiving),
        (Event::Received, Phase::Parsed),
    ];
    for (event, expected) in events {
        assert!(!phase.is_terminal());
        phase = phase.step(event);
        assert_eq!(phase, expected);
    }
    assert!(phase.is_terminal());
}

#[test]
fn io_error_fails_every_open_phase() {
    let open = [
        Phase::Built,
        Phase::Connecting,
        Phase::Handshaking,
        Phase::Sending,
        Phase::Receiving,
    ];
    for phase in open {
        assert_eq!(phase.step(Event::IoError), Phase::Failed);
    }
}

#[test]
fn finished_exchange_stays_as_it_is() {
    let events = [
        Event::Started,
        Event::Connected,
        Event::Secured,
        Event::Written,
        Event::Received,
        Event::IoError,
    ];
    for event in events {
        assert_eq!(Phase::Parsed.step(event), Phase::Parsed);
        assert_eq!(Phase::Failed.step(event), Phase::Failed);
    }
}

#[test]
fn event_out_of_turn_fails_the_exchange() {
    assert_eq!(Phase::Built.step(Event::Received), Phase::Failed);
    assert_eq!(Phase::Connecting.step(Event::Started), Phase::Failed);
    assert_eq!(Phase::Sending.step(Event::Received), Phase::Failed);
    assert_eq!(Phase::Receiving.step(Event::Written), Phase::Failed);
}

#[test]
fn each_phase_has_its_task() {
    assert_eq!(Phase::Built.task(), Task::Start);
    assert_eq!(Phase::Connecting.task(), Task::Connect);
    assert_eq!(Phase::Handshaking.task(), Task::Handshake);
    assert_eq!(Phase::Sending.task(), Task::Write);
    assert_eq!(Phase::Receiving.task(), Task::Read);
    assert_eq!(Phase::Parsed.task(), Task::Deliver);
    assert_eq!(Phase::Failed.task(), Task::GiveUp);
}

#[test]
fn dns_name_names_a_server() {
    let builder = TlsBuilder::new("example.com".to_string());
    assert_eq!(builder.hostname(), "example.com");
    let name = builder.name().unwrap();
    assert_eq!(name.to_str(), "example.com");
}

#[test]
fn ip_address_names_a_server() {
    let name = TlsBuilder::new("127.0.0.1".to_string()).name().unwrap();
    assert_eq!(name.to_str(), "127.0.0.1");
}

#[test]
fn other_text_names_no_server() {
    assert_eq!(
        TlsBuilder::new("not a host!".to_string()).name().err(),
        Some(TlsError::InvalidServerName)
    );
    assert_eq!(
        TlsBuilder::new("".to_string()).name().err(),
        Some(TlsError::InvalidServerName)
    );
    assert_eq!(
        TlsBuilder::new("example.com:443".to_string()).name().err(),
        Some(TlsError::InvalidServerName)
    );
}
