use tftp::codec::{
    slice_to_usize, Acknowledgement, Data, DecodeError, ErrorPacket, OptionAcknowledgement,
    ReadRequest, Tftp, TftpOption,
};
use tftp::negotiation::{negotiate, MAX_BLOCK_SIZE, MAX_WINDOW_SIZE};
use tftp::registry::Registry;
use tftp::session::{Action, Session, SessionState, TickAction};

fn request(name: &str, options: Vec<TftpOption>) -> Vec<u8> {
    Tftp::ReadRequest(ReadRequest {
        filename: name.as_bytes().to_vec(),
        mode: b"octet".to_vec(),
        options,
    })
    .serialise()
}

fn ack(block: u16) -> Vec<u8> {
    Tftp::Acknowledgement(Acknowledgement { block }).serialise()
}

fn content(n: usize) -> Vec<u8> {
    (0..n).map(|i| (i % 251) as u8).collect()
}

fn sent(a: Action) -> Vec<Vec<u8>> {
    match a {
        Action::Send(w) => w,
        Action::Load(_) => panic!("expected datagrams, got a load request"),
    }
}

fn data_of(bytes: &[u8]) -> (u16, Vec<u8>) {
    match Tftp::parse(bytes) {
        Ok(Tftp::Data(d)) => (d.block, d.data),
        _ => panic!("expected a Data packet"),
    }
}

fn oack_of(bytes: &[u8]) -> Vec<TftpOption> {
    match Tftp::parse(bytes) {
        Ok(Tftp::OptionAcknowledgement(o)) => o.options,
        _ => panic!("expected an OptionAcknowledgement"),
    }
}

#[test]
fn read_without_options_completes() {
    let file = content(1000);
    let mut reg = Registry::new(1000, 3);
    match reg.receive(7, &request("f.bin", vec![]), 0) {
        Action::Load(name) => assert_eq!(name, b"f.bin".to_vec()),
        Action::Send(_) => panic!("a request must ask for its resource"),
    }
    let out = reg.resource_loaded(7, Some(file.clone()), 1);
    assert_eq!(out.len(), 1);
    assert_eq!(out[0], vec![0, 6]);
    assert!(oack_of(&out[0]).is_empty());

    let w = sent(reg.receive(7, &ack(0), 2));
    assert_eq!(w.len(), 1);
    let (b, d) = data_of(&w[0]);
    assert_eq!(b, 1);
    assert_eq!(d, file[..512].to_vec());

    let w = sent(reg.receive(7, &ack(1), 3));
    assert_eq!(w.len(), 1);
    let (b, d) = data_of(&w[0]);
    assert_eq!(b, 2);
    assert_eq!(d.len(), 488);
    assert_eq!(d, file[512..].to_vec());
    assert!(reg.contains(7));

    let w = sent(reg.receive(7, &ack(2), 4));
    assert!(w.is_empty());
    assert!(!reg.contains(7));
    assert_eq!(reg.len(), 0);
}

#[test]
fn missing_resource_is_refused() {
    let mut reg = Registry::new(1000, 3);
    assert!(matches!(reg.receive(9, &request("nope", vec![]), 0), Action::Load(_)));
    let out = reg.resource_loaded(9, None, 0);
    assert_eq!(out.len(), 1);
    match Tftp::parse(&out[0]) {
        Ok(Tftp::Error(e)) => {
            assert_eq!(e.code, 1);
            assert_eq!(e.message, b"File not found".to_vec());
        }
        _ => panic!("expected an Error packet"),
    }
    assert!(!reg.contains(9));
    assert_eq!(reg.len(), 0);
}

#[test]
fn windowed_read_sends_four_blocks() {
    let file = content(5000);
    let mut reg = Registry::new(1000, 3);
    let req = request(
        "big",
        vec![TftpOption::BlockSize(1024), TftpOption::WindowSize(4)],
    );
    assert!(matches!(reg.receive(1, &req, 0), Action::Load(_)));
    let out = reg.resource_loaded(1, Some(file.clone()), 0);
    assert_eq!(
        oack_of(&out[0]),
        vec![TftpOption::BlockSize(1024), TftpOption::WindowSize(4)]
    );
    let s = reg.sessions.get(&1).unwrap();
    assert_eq!(s.block_size, 1024);
    assert_eq!(s.window_size, 4);
    assert_eq!(s.state, SessionState::Negotiated);

    let w = sent(reg.receive(1, &ack(0), 1));
    assert_eq!(w.len(), 4);
    let mut total = 0;
    for (i, dg) in w.iter().enumerate() {
        let (b, d) = data_of(dg);
        assert_eq!(b as usize, i + 1);
        assert_eq!(d, file[i * 1024..(i + 1) * 1024].to_vec());
        total += d.len();
    }
    assert_eq!(total, 4096);

    let w = sent(reg.receive(1, &ack(4), 2));
    assert_eq!(w.len(), 1);
    let (b, d) = data_of(&w[0]);
    assert_eq!(b, 5);
    assert_eq!(d.len(), 5000 - 4096);
    assert!(sent(reg.receive(1, &ack(5), 3)).is_empty());
    assert!(!reg.contains(1));
}

#[test]
fn exact_multiple_ends_with_empty_block() {
    let file = content(1024);
    let mut reg = Registry::new(1000, 3);
    reg.receive(2, &request("x", vec![]), 0);
    reg.resource_loaded(2, Some(file), 0);
    let lens: Vec<usize> = (0..3u16)
        .map(|n| {
            let w = sent(reg.receive(2, &ack(n), 1));
            assert_eq!(w.len(), 1);
            data_of(&w[0]).1.len()
        })
        .collect();
    assert_eq!(lens, vec![512, 512, 0]);
    assert!(reg.contains(2));
    assert!(sent(reg.receive(2, &ack(3), 2)).is_empty());
    assert!(!reg.contains(2));
}

#[test]
fn duplicate_ack_is_ignored() {
    let mut reg = Registry::new(1000, 3);
    reg.receive(3, &request("x", vec![]), 0);
    reg.resource_loaded(3, Some(content(2000)), 0);
    sent(reg.receive(3, &ack(0), 1));
    let w = sent(reg.receive(3, &ack(1), 2));
    assert_eq!(data_of(&w[0]).0, 2);
    let before = reg.sessions.get(&3).unwrap();
    let (last, activity) = (before.last_sent, before.last_activity);
    for stale in [0u16, 1, 9] {
        assert!(sent(reg.receive(3, &ack(stale), 5)).is_empty());
    }
    let after = reg.sessions.get(&3).unwrap();
    assert_eq!(after.last_sent, last);
    assert_eq!(after.last_activity, activity);
    assert_eq!(after.state, SessionState::Transferring);
}

#[test]
fn silent_client_gets_resends_then_eviction() {
    let mut reg = Registry::new(10, 2);
    reg.receive(4, &request("x", vec![]), 0);
    reg.resource_loaded(4, Some(content(700)), 0);
    let first = sent(reg.receive(4, &ack(0), 0));
    assert!(reg.tick(5).is_empty());
    let r1 = reg.tick(11);
    assert_eq!(r1, vec![(4u64, first.clone())]);
    let r2 = reg.tick(22);
    assert_eq!(r2, vec![(4u64, first.clone())]);
    assert!(reg.contains(4));
    let r3 = reg.tick(33);
    assert!(r3.is_empty());
    assert!(!reg.contains(4));
}

#[test]
fn session_tick_counts_retries() {
    let mut s = Session::new();
    Tftp::handle(&mut s, &request("x", vec![]), 0);
    let oack = s.resource_loaded(Some(content(10)), 0);
    match s.tick(2, 1, 1) {
        TickAction::Resend(w) => assert_eq!(w, oack),
        _ => panic!("expected a resend"),
    }
    assert_eq!(s.retries, 1);
    assert!(matches!(s.tick(3, 1, 1), TickAction::Wait));
    assert!(matches!(s.tick(4, 1, 1), TickAction::Abort));
    assert_eq!(s.state, SessionState::Aborted);
}

#[test]
fn round_trip_each_kind() {
    let packets = vec![
        Tftp::Data(Data { block: 258, data: vec![1, 0, 2] }),
        Tftp::Data(Data { block: 1, data: vec![] }),
        Tftp::OptionAcknowledgement(OptionAcknowledgement {
            options: vec![
                TftpOption::TransferSize(0),
                TftpOption::BlockSize(1468),
                TftpOption::WindowSize(16),
            ],
        }),
        Tftp::Error(ErrorPacket { code: 1, message: b"File not found".to_vec() }),
        Tftp::Acknowledgement(Acknowledgement { block: 65535 }),
    ];
    for p in packets {
        let bytes = p.serialise();
        let again = Tftp::parse(&bytes).unwrap().serialise();
        assert_eq!(bytes, again);
    }
}

#[test]
fn encodes_exact_bytes() {
    let d = Tftp::Data(Data { block: 258, data: vec![9] }).serialise();
    assert_eq!(d, vec![0, 3, 1, 2, 9]);
    let o = Tftp::OptionAcknowledgement(OptionAcknowledgement {
        options: vec![TftpOption::BlockSize(1024)],
    })
    .serialise();
    assert_eq!(o, b"\x00\x06blksize\x001024\x00".to_vec());
    let e = Tftp::Error(ErrorPacket { code: 4, message: b"x".to_vec() }).serialise();
    assert_eq!(e, vec![0, 5, 0, 4, b'x', 0]);
    let mut out = Vec::new();
    TftpOption::TransferSize(0).serialise(&mut out);
    assert_eq!(out, b"tsize\x000\x00".to_vec());
}

#[test]
fn decodes_request_with_options() {
    let bytes = b"\x00\x01a.txt\x00octet\x00tsize\x000\x00foo\x00bar\x00windowsize\x008\x00";
    match Tftp::parse(bytes) {
        Ok(Tftp::ReadRequest(r)) => {
            assert_eq!(r.filename, b"a.txt".to_vec());
            assert_eq!(r.mode, b"octet".to_vec());
            assert_eq!(
                r.options,
                vec![TftpOption::TransferSize(0), TftpOption::WindowSize(8)]
            );
        }
        _ => panic!("expected a request"),
    }
}

#[test]
fn malformed_input_is_rejected() {
    assert_eq!(Tftp::parse(&[]).err(), Some(DecodeError::Malformed));
    assert_eq!(Tftp::parse(&[0]).err(), Some(DecodeError::Malformed));
    assert_eq!(Tftp::parse(b"\x00\x01name").err(), Some(DecodeError::Malformed));
    assert_eq!(Tftp::parse(b"\x00\x01name\x00octet").err(), Some(DecodeError::Malformed));
    assert_eq!(
        Tftp::parse(b"\x00\x01n\x00octet\x00blksize\x00abc\x00").err(),
        Some(DecodeError::Malformed)
    );
    assert_eq!(
        Tftp::parse(b"\x00\x01n\x00octet\x00blksize\x00").err(),
        Some(DecodeError::Malformed)
    );
    assert_eq!(Tftp::parse(&[0, 4, 0]).err(), Some(DecodeError::Malformed));
    assert_eq!(Tftp::parse(&[0, 5, 0, 1, b'a']).err(), Some(DecodeError::Malformed));
    assert_eq!(Tftp::parse(&[0, 2, 0]).err(), Some(DecodeError::UnexpectedOpCode));
    assert_eq!(Tftp::parse(&[1, 1, 0]).err(), Some(DecodeError::UnexpectedOpCode));
    assert_eq!(Tftp::parse(&[0, 9]).err(), Some(DecodeError::UnexpectedOpCode));
}

#[test]
fn client_may_not_send_server_packets() {
    let d = Tftp::Data(Data { block: 1, data: vec![] }).serialise();
    assert_eq!(Tftp::parse_from_client(&d).err(), Some(DecodeError::UnexpectedOpCode));
    let o = Tftp::OptionAcknowledgement(OptionAcknowledgement { options: vec![] }).serialise();
    assert_eq!(Tftp::parse_from_client(&o).err(), Some(DecodeError::UnexpectedOpCode));
    assert!(Tftp::parse_from_client(&ack(3)).is_ok());
}

#[test]
fn bad_datagram_aborts_with_error() {
    let mut reg = Registry::new(1000, 3);
    let w = sent(reg.receive(5, &[0, 1, b'x'], 0));
    assert_eq!(w.len(), 1);
    match Tftp::parse(&w[0]) {
        Ok(Tftp::Error(e)) => {
            assert_eq!(e.code, 4);
            assert_eq!(e.message, b"Illegal TFTP operation".to_vec());
        }
        _ => panic!("expected an Error packet"),
    }
    assert!(!reg.contains(5));
    let w = sent(reg.receive(6, &ack(0), 0));
    assert_eq!(w.len(), 1);
    assert!(!reg.contains(6));
}

#[test]
fn client_error_ends_session_silently() {
    let mut reg = Registry::new(1000, 3);
    reg.receive(8, &request("x", vec![]), 0);
    reg.resource_loaded(8, Some(content(3)), 0);
    let err = Tftp::Error(ErrorPacket { code: 0, message: b"bye".to_vec() }).serialise();
    assert!(sent(reg.receive(8, &err, 1)).is_empty());
    assert!(!reg.contains(8));
}

#[test]
fn negotiation_substitutes_and_clamps() {
    let n = negotiate(
        &vec![
            TftpOption::WindowSize(0),
            TftpOption::TransferSize(99),
            TftpOption::BlockSize(100000),
        ],
        777,
    );
    assert_eq!(
        n.options,
        vec![
            TftpOption::WindowSize(1),
            TftpOption::TransferSize(777),
            TftpOption::BlockSize(MAX_BLOCK_SIZE),
        ]
    );
    assert_eq!(n.block_size, 65464);
    assert_eq!(n.window_size, 1);
    let n = negotiate(&vec![TftpOption::WindowSize(1000)], 0);
    assert_eq!(n.window_size, MAX_WINDOW_SIZE);
    let n = negotiate(&vec![], 10);
    assert!(n.options.is_empty());
    assert_eq!(n.block_size, 512);
}

#[test]
fn acknowledged_options_only_those_requested() {
    let mut reg = Registry::new(1000, 3);
    reg.receive(1, &request("x", vec![TftpOption::TransferSize(0)]), 0);
    let out = reg.resource_loaded(1, Some(content(1234)), 0);
    assert_eq!(oack_of(&out[0]), vec![TftpOption::TransferSize(1234)]);
}

#[test]
fn option_values_parse() {
    assert_eq!(slice_to_usize(b"0"), Some(0));
    assert_eq!(slice_to_usize(b"007"), Some(7));
    assert_eq!(slice_to_usize(b"65464"), Some(65464));
    assert_eq!(slice_to_usize(b""), None);
    assert_eq!(slice_to_usize(b"1a"), None);
    assert_eq!(slice_to_usize(b"-1"), None);
    assert_eq!(slice_to_usize(b"99999999999999999999999"), None);
    assert_eq!(
        slice_to_usize(usize::MAX.to_string().as_bytes()),
        Some(usize::MAX)
    );
}

#[test]
fn option_parse_skips_unknown_names() {
    let area = b"mode\x00blksize\x00blksize\x0016\x00";
    assert_eq!(
        TftpOption::parse(area),
        Some(vec![TftpOption::BlockSize(16)])
    );
    assert_eq!(TftpOption::parse(b""), Some(vec![]));
    assert_eq!(TftpOption::parse(b"tsize\x00"), None);
}

#[test]
fn next_block_after_ack() {
    let mut s = Session::new();
    Tftp::handle(&mut s, &request("x", vec![TftpOption::BlockSize(4)]), 0);
    s.resource_loaded(Some(vec![1, 2, 3, 4, 5, 6]), 0);
    let d = Data::new(&Acknowledgement { block: 1 }, &s).unwrap();
    assert_eq!(d.block, 2);
    assert_eq!(d.data, vec![5, 6]);
    assert!(Data::new(&Acknowledgement { block: 2 }, &s).is_none());
}

#[test]
fn new_request_restarts_session() {
    let mut reg = Registry::new(1000, 3);
    reg.receive(1, &request("a", vec![]), 0);
    reg.resource_loaded(1, Some(content(600)), 0);
    sent(reg.receive(1, &ack(0), 1));
    match reg.receive(1, &request("b", vec![]), 2) {
        Action::Load(n) => assert_eq!(n, b"b".to_vec()),
        _ => panic!("expected a load request"),
    }
    let s = reg.sessions.get(&1).unwrap();
    assert_eq!(s.state, SessionState::AwaitingResource);
    assert_eq!(s.last_sent, 0);
}

#[test]
fn option_acknowledgement_installs_sizes() {
    let mut s = Session::new();
    s.file_size = 50;
    let o = OptionAcknowledgement::new(
        &vec![TftpOption::BlockSize(8), TftpOption::WindowSize(3)],
        &mut s,
    );
    assert_eq!(o.options, vec![TftpOption::BlockSize(8), TftpOption::WindowSize(3)]);
    assert_eq!(s.block_size, 8);
    assert_eq!(s.window_size, 3);
}

#[test]
fn oversized_resource_is_refused() {
    let mut s = Session::new();
    Tftp::handle(&mut s, &request("x", vec![TftpOption::BlockSize(1)]), 0);
    let out = s.resource_loaded(Some(vec![0u8; 70000]), 0);
    match Tftp::parse(&out[0]) {
        Ok(Tftp::Error(e)) => assert_eq!(e.message, b"File too large".to_vec()),
        _ => panic!("expected an Error packet"),
    }
    assert_eq!(s.state, SessionState::Aborted);
}
