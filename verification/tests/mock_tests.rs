use bencode::mock::Announcer;
use bencode::mock::Client;
use bencode::mock::Event;
use bencode::mock::TrackerUpdates;
use bencode::mock::generate_i32_hex_key;
use bencode::mock::generate_transmission_294_id;

#[test]
fn generate_transmission_id() {
    let entropy = vec![3u8, 17, 250, 99, 4, 0, 77, 35, 128, 200, 11];
    println!("{}", generate_transmission_294_id(&entropy));
}

#[test]
fn generate_transmission_id_shape() {
    let entropy = vec![0u8, 1, 2, 3, 4, 5, 6, 7, 8, 9, 10];
    let id = generate_transmission_294_id(&entropy);

    assert_eq!(20, id.len());
    assert!(id.starts_with("-TR2940-"));
    assert_eq!("-TR2940-0123456789ah", id);
}

#[test]
fn generate_i32_key_returns_positive() {
    let entropy = vec![200u8, 15, 254, 3];
    let result = generate_i32_hex_key(&entropy);

    assert!(!result.starts_with("-"));
    println!("Result: {}", result);
}

#[test]
fn generate_i32_key_clears_sign_bit() {
    let entropy = vec![0xFFu8, 0xFF, 0xFF, 0xFF];
    let result = generate_i32_hex_key(&entropy);

    assert_eq!("7fffffff", result);
}

#[test]
fn client_builds_transmission_parameters() {
    let client = Client::new("cafe".to_string(), "-TR2940-abcdefghijk0".to_string(), 40000);
    let parameters = client.create_parameters("HASH", 1234, 80);

    assert_eq!(
        "?info_hash=HASH&peer_id=-TR2940-abcdefghijk0&port=40000&uploaded=1234&downloaded=0&left=0&numwant=80&key=cafe&compact=1&supportcrypto=1",
        parameters
    );
}

#[test]
fn client_event_parameters_mark_events() {
    let client = Client::new("k".to_string(), "p".to_string(), 1);

    let started = client.event_parameters(Event::STARTED, "H", 0);
    assert!(started.ends_with("&event=started"));
    assert!(started.contains("&numwant=80"));

    let stopped = client.event_parameters(Event::STOPPED, "H", 0);
    assert!(stopped.ends_with("&event=stopped"));
    assert!(stopped.contains("&numwant=0"));

    let update = client.event_parameters(Event::EMPTY, "H", 7);
    assert!(update.contains("&uploaded=7"));
    assert!(!update.contains("&event="));
}

#[test]
fn tracker_updates_decode_reads_compact_response() {
    let body =
        "d8:completei12e10:incompletei34e8:intervali1800e12:min intervali60e5:peers6:\u{0}\u{0}\u{0}\u{0}\u{0}\u{0}e"
            .as_bytes()
            .to_vec();
    let updates = TrackerUpdates::decode(&body).unwrap();

    assert_eq!(1800, updates.interval);
    assert_eq!(12, updates.seeders);
    assert_eq!(34, updates.leechers);
}

#[test]
fn tracker_updates_decode_rejects_garbage() {
    let body = "not bencode".as_bytes().to_vec();
    assert!(TrackerUpdates::decode(&body).is_none());
}

#[test]
fn announcer_decisions_follow_tracker_state() {
    let mut announcer = Announcer {
        client: Client::new("k".to_string(), "p".to_string(), 1),
        announce_url: "http://t/announce".to_string(),
        info_hash: "H".to_string(),
        uploaded: 0,
        name: "n".to_string(),
        tracker_info: None,
        last_announce: 0,
        failed: 0,
    };
    assert_eq!(Event::STARTED, announcer.next_event());
    assert!(!announcer.should_generate_upload());

    announcer.record_success(
        bencode::mock::TrackerUpdates { interval: 60, seeders: 1, leechers: 0 },
        100,
    );
    assert_eq!(Event::EMPTY, announcer.next_event());
    assert!(!announcer.should_generate_upload());
    assert!(!announcer.should_announce(120));
    assert!(announcer.should_announce(160));

    announcer.record_success(
        bencode::mock::TrackerUpdates { interval: 60, seeders: 1, leechers: 3 },
        200,
    );
    assert!(announcer.should_generate_upload());
}
