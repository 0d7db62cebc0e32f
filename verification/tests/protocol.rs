use streamchat::codec::{apply_keystream, decode, encode, frame_len, CodecError, MAX_MSG_LEN};
use streamchat::handshake::{
    accepts_peer_public, compute_proof, compute_public, compute_secret, derive_keys,
    derive_seeds, generate_private, Action, Event, Handshake, HandshakeError, Keys, Role, G, P,
};
use streamchat::keystream::Keystream;
use streamchat::numeric::{mix64, modexp, mul_mod};
use streamchat::session::{
    after_session, classify_codec, classify_handshake, code_for, Failure, Next,
};
use streamchat::wire::{u32_from_be, u32_to_be, u64_from_be, u64_to_be};

fn naive_modexp(base: u64, exp: u64, modulus: u64) -> u64 {
    let mut acc: u128 = 1 % (modulus as u128);
    let mut i = 0;
    while i < exp {
        acc = (acc * (base as u128)) % (modulus as u128);
        i += 1;
    }
    acc as u64
}

/// Runs both peers against each other over two in-memory pipes and returns
/// what each ended with, together with every byte that crossed the wire.
fn run_pair(
    listener_private: u64,
    connector_private: u64,
    tamper: Option<usize>,
) -> (Action, Action, Vec<u8>, Vec<u8>) {
    let (mut l, mut la) = Handshake::start(Role::Listener, listener_private);
    let (mut c, mut ca) = Handshake::start(Role::Connector, connector_private);
    let mut to_connector: Vec<[u8; 8]> = Vec::new();
    let mut to_listener: Vec<[u8; 8]> = Vec::new();
    let mut wire_l2c: Vec<u8> = Vec::new();
    let mut wire_c2l: Vec<u8> = Vec::new();
    let mut messages = 0usize;
    let mut rounds = 0;
    loop {
        rounds += 1;
        assert!(rounds < 64, "the handshake does not end");
        let mut moved = false;
        match la {
            Action::Send(bytes) => {
                let mut bytes = bytes;
                if tamper == Some(messages) {
                    bytes[7] ^= 1;
                }
                messages += 1;
                wire_l2c.extend_from_slice(&bytes);
                to_connector.push(bytes);
                let (n, a) = l.step(Event::Sent);
                l = n;
                la = a;
                moved = true;
            }
            Action::Receive => {
                if !to_listener.is_empty() {
                    let bytes = to_listener.remove(0);
                    let (n, a) = l.step(Event::Received(bytes));
                    l = n;
                    la = a;
                    moved = true;
                }
            }
            _ => {}
        }
        match ca {
            Action::Send(bytes) => {
                let mut bytes = bytes;
                if tamper == Some(messages) {
                    bytes[7] ^= 1;
                }
                messages += 1;
                wire_c2l.extend_from_slice(&bytes);
                to_listener.push(bytes);
                let (n, a) = c.step(Event::Sent);
                c = n;
                ca = a;
                moved = true;
            }
            Action::Receive => {
                if !to_connector.is_empty() {
                    let bytes = to_connector.remove(0);
                    let (n, a) = c.step(Event::Received(bytes));
                    c = n;
                    ca = a;
                    moved = true;
                }
            }
            _ => {}
        }
        if !moved {
            break;
        }
    }
    (la, ca, wire_l2c, wire_c2l)
}

fn keys_of(action: Action) -> Keys {
    match action {
        Action::Established(keys) => keys,
        other => panic!("not established: {:?}", other),
    }
}

#[test]
fn mul_mod_widens_before_reducing() {
    assert_eq!(mul_mod(u64::MAX, u64::MAX, u64::MAX - 58), {
        let m = (u64::MAX - 58) as u128;
        (((u64::MAX as u128) * (u64::MAX as u128)) % m) as u64
    });
    assert_eq!(mul_mod(3, 4, 5), 2);
    assert_eq!(mul_mod(0, 9, 7), 0);
    assert_eq!(mul_mod(6, 7, 1), 0);
}

#[test]
fn modexp_zero_exponent_is_one() {
    assert_eq!(modexp(0, 0, 5), 1);
    assert_eq!(modexp(7, 0, 13), 1);
    assert_eq!(modexp(u64::MAX, 0, 2), 1);
    assert_eq!(modexp(123, 0, P), 1);
}

#[test]
fn modexp_modulus_one_is_zero() {
    assert_eq!(modexp(7, 13, 1), 0);
    assert_eq!(modexp(0, 0, 1), 0);
}

#[test]
fn modexp_known_values() {
    assert_eq!(modexp(3, 200, 1000), 1);
    assert_eq!(modexp(5, 3, 13), 8);
    assert_eq!(modexp(2, 10, 1000), 24);
    assert_eq!(modexp(2, 64, P), 2846376245975527565);
    assert_eq!(
        modexp(u64::MAX, u64::MAX, u64::MAX - 58),
        4959809447704153900
    );
    assert_eq!(modexp(G, 123456789, P), 0x76ce25f1ba680402);
}

#[test]
fn modexp_agrees_with_repeated_multiplication() {
    for modulus in [2u64, 3, 7, 10, 13, 97, 256, 1000] {
        for base in 0u64..12 {
            for exp in 0u64..20 {
                assert_eq!(
                    modexp(base, exp, modulus),
                    naive_modexp(base, exp, modulus),
                    "{base}^{exp} mod {modulus}"
                );
            }
        }
    }
}

#[test]
fn mix64_known_values() {
    assert_eq!(mix64(0), 0xe220a8397b1dcdaf);
    assert_eq!(mix64(1), 0x910a2dec89025cc1);
    assert_eq!(mix64(u64::MAX), 0xe4d971771b652c20);
}

#[test]
fn keystream_known_bytes() {
    let mut ks = Keystream::new(1);
    let got: Vec<u8> = (0..8).map(|_| ks.next_byte()).collect();
    assert_eq!(got, vec![65, 150, 39, 196, 249, 149, 217, 156]);
    assert_eq!(ks.state(), 2633739833);
}

#[test]
fn keystream_zero_fold_uses_fallback() {
    assert_eq!(Keystream::new(0).state(), 0x6D2B_79F5);
    assert_eq!(Keystream::new(0x1234_5678_1234_5678).state(), 0x6D2B_79F5);
    let mut ks = Keystream::new(0);
    let got: Vec<u8> = (0..4).map(|_| ks.next_byte()).collect();
    assert_eq!(got, vec![67, 153, 208, 73]);
}

#[test]
fn keystream_folds_both_halves() {
    assert_eq!(Keystream::new(0x0000_0001_0000_0000).state(), 1);
    assert_eq!(Keystream::new(0xFFFF_0000_0000_FFFF).state(), 0xFFFF_FFFF);
}

#[test]
fn keystream_clone_is_independent() {
    let mut a = Keystream::new(42);
    let mut b = a.clone();
    let x = a.next_byte();
    assert_ne!(a.state(), b.state());
    assert_eq!(b.next_byte(), x);
    assert_eq!(a.state(), b.state());
}

#[test]
fn wire_big_endian_layout() {
    assert_eq!(u64_to_be(0x0102_0304_0506_0708), [1, 2, 3, 4, 5, 6, 7, 8]);
    assert_eq!(u64_from_be(&[1, 2, 3, 4, 5, 6, 7, 8]), 0x0102_0304_0506_0708);
    assert_eq!(u32_to_be(5), [0, 0, 0, 5]);
    assert_eq!(u32_to_be(0xDEAD_BEEF), [0xDE, 0xAD, 0xBE, 0xEF]);
    assert_eq!(u32_from_be(&[0, 0x10, 0, 0]), 1_048_576);
    for x in [0u64, 1, 255, 256, u64::MAX, P] {
        assert_eq!(u64_to_be(x), x.to_be_bytes());
        assert_eq!(u64_from_be(&x.to_be_bytes()), x);
    }
    for x in [0u32, 1, 255, 256, u32::MAX, MAX_MSG_LEN] {
        assert_eq!(u32_to_be(x), x.to_be_bytes());
        assert_eq!(u32_from_be(&x.to_be_bytes()), x);
    }
}

#[test]
fn encode_hello_frame() {
    let mut ks = Keystream::new(0x83538e5797053b7c);
    let frame = encode(&mut ks, b"Hello").unwrap();
    assert_eq!(frame, vec![0, 0, 0, 5, 0x56, 0xea, 0xc7, 0x01, 0xdd]);
}

#[test]
fn encode_then_decode_round_trip() {
    for seed in [0u64, 1, 0xDEAD_BEEF, u64::MAX] {
        let mut tx = Keystream::new(seed);
        let mut rx = Keystream::new(seed);
        for msg in [&b""[..], &b"a"[..], &b"Hello"[..], &[0u8, 255, 7, 7, 7][..]] {
            let frame = encode(&mut tx, msg).unwrap();
            assert_eq!(frame.len(), 4 + msg.len());
            assert_eq!(decode(&mut rx, &frame).unwrap(), msg.to_vec());
            assert_eq!(tx.state(), rx.state());
        }
    }
}

#[test]
fn round_trip_at_the_size_limit() {
    let plain: Vec<u8> = (0..MAX_MSG_LEN as usize).map(|i| (i % 251) as u8).collect();
    let mut tx = Keystream::new(77);
    let mut rx = Keystream::new(77);
    let frame = encode(&mut tx, &plain).unwrap();
    assert_eq!(&frame[..4], &[0, 0x10, 0, 0]);
    assert_eq!(decode(&mut rx, &frame).unwrap(), plain);
}

#[test]
fn encode_rejects_oversize_before_advancing() {
    let plain = vec![0u8; MAX_MSG_LEN as usize + 1];
    let mut ks = Keystream::new(9);
    let before = ks.state();
    assert_eq!(encode(&mut ks, &plain), Err(CodecError::MessageTooLarge));
    assert_eq!(ks.state(), before);
}

#[test]
fn generator_advances_once_per_byte() {
    let mut ks = Keystream::new(5);
    let mut reference = Keystream::new(5);
    encode(&mut ks, b"abc").unwrap();
    encode(&mut ks, b"de").unwrap();
    for _ in 0..5 {
        reference.next_byte();
    }
    assert_eq!(ks.state(), reference.state());
}

#[test]
fn apply_keystream_twice_restores() {
    let mut a = Keystream::new(31337);
    let mut b = Keystream::new(31337);
    let cipher = apply_keystream(&mut a, b"attack at dawn");
    assert_ne!(cipher, b"attack at dawn".to_vec());
    assert_eq!(apply_keystream(&mut b, &cipher), b"attack at dawn".to_vec());
}

#[test]
fn frame_len_limits() {
    assert_eq!(frame_len(&[0, 0, 0, 0]), Ok(0));
    assert_eq!(frame_len(&[0, 0, 0, 5]), Ok(5));
    assert_eq!(frame_len(&[0, 0x10, 0, 0]), Ok(1_048_576));
    assert_eq!(frame_len(&[0, 0x10, 0, 1]), Err(CodecError::FrameTooLarge));
    assert_eq!(frame_len(&[0xFF, 0xFF, 0xFF, 0xFF]), Err(CodecError::FrameTooLarge));
}

#[test]
fn decode_rejects_oversize_declared_length() {
    let mut ks = Keystream::new(3);
    let before = ks.state();
    assert_eq!(
        decode(&mut ks, &[0xFF, 0xFF, 0xFF, 0xFF, 1, 2, 3]),
        Err(CodecError::FrameTooLarge)
    );
    assert_eq!(decode(&mut ks, &[0, 0x10, 0, 1]), Err(CodecError::FrameTooLarge));
    assert_eq!(ks.state(), before);
}

#[test]
fn decode_rejects_truncated_input() {
    let mut ks = Keystream::new(3);
    let before = ks.state();
    assert_eq!(decode(&mut ks, &[]), Err(CodecError::Truncated));
    assert_eq!(decode(&mut ks, &[0, 0, 0]), Err(CodecError::Truncated));
    assert_eq!(decode(&mut ks, &[0, 0, 0, 3, 1, 2]), Err(CodecError::Truncated));
    assert_eq!(ks.state(), before);
}

#[test]
fn decode_leaves_following_bytes_alone() {
    let mut tx = Keystream::new(11);
    let mut rx = Keystream::new(11);
    let mut frame = encode(&mut tx, b"one").unwrap();
    frame.extend_from_slice(&[9, 9, 9, 9]);
    assert_eq!(decode(&mut rx, &frame).unwrap(), b"one".to_vec());
    assert_eq!(rx.state(), tx.state());
}

#[test]
fn listener_writes_first_and_connector_reads_first() {
    let (_, la) = Handshake::start(Role::Listener, 123456789);
    let (_, ca) = Handshake::start(Role::Connector, 987654321);
    match la {
        Action::Send(bytes) => assert_eq!(bytes, 0x76ce25f1ba680402u64.to_be_bytes()),
        other => panic!("listener must send first: {:?}", other),
    }
    assert!(matches!(ca, Action::Receive));
}

#[test]
fn handshake_derives_symmetric_keys() {
    let (la, ca, wire_l2c, wire_c2l) = run_pair(123456789, 987654321, None);
    let lk = keys_of(la);
    let ck = keys_of(ca);
    assert_eq!(lk.send.state(), ck.recv.state());
    assert_eq!(lk.recv.state(), ck.send.state());
    assert_eq!(lk.send.state(), 0x1456b52b);
    assert_eq!(lk.recv.state(), 0xa222dafa);
    let mut expected_l2c = 0x76ce25f1ba680402u64.to_be_bytes().to_vec();
    expected_l2c.extend_from_slice(&0x52aad4bea93d3286u64.to_be_bytes());
    let mut expected_c2l = 0xb2180b183735d238u64.to_be_bytes().to_vec();
    expected_c2l.extend_from_slice(&0x52aad4bea93d3286u64.to_be_bytes());
    assert_eq!(wire_l2c, expected_l2c);
    assert_eq!(wire_c2l, expected_c2l);
}

#[test]
fn handshake_symmetry_for_several_exponents() {
    for (a, b) in [(2u64, 2u64), (2, P - 2), (3, 5), (0xDEAD_BEEF, 0xFEED_FACE), (P - 2, P - 3)] {
        let (la, ca, _, _) = run_pair(a, b, None);
        let lk = keys_of(la);
        let ck = keys_of(ca);
        assert_eq!(lk.send.state(), ck.recv.state());
        assert_eq!(lk.recv.state(), ck.send.state());
    }
}

#[test]
fn end_to_end_hello() {
    let (la, ca, _, _) = run_pair(123456789, 987654321, None);
    let mut lk = keys_of(la);
    let mut ck = keys_of(ca);
    let frame = encode(&mut lk.send, b"Hello").unwrap();
    assert_eq!(frame.len(), 9);
    assert_eq!(&frame[..4], &[0x00, 0x00, 0x00, 0x05]);
    assert_eq!(&frame[4..], &[0x56, 0xea, 0xc7, 0x01, 0xdd]);
    let header = [frame[0], frame[1], frame[2], frame[3]];
    let len = frame_len(&header).unwrap();
    assert_eq!(len, 5);
    let plain = apply_keystream(&mut ck.recv, &frame[4..4 + len]);
    assert_eq!(plain, b"Hello".to_vec());
    let reply = encode(&mut ck.send, b"Hi!").unwrap();
    assert_eq!(decode(&mut lk.recv, &reply).unwrap(), b"Hi!".to_vec());
}

#[test]
fn tampered_proof_fails_its_reader() {
    // The third message on the wire is the listener's proof. The connector
    // reads it changed and fails; no keys are handed to it.
    let (la, ca, _, _) = run_pair(123456789, 987654321, Some(2));
    assert!(matches!(ca, Action::Failed(HandshakeError::SecretMismatch)));
    assert!(matches!(la, Action::Established(_)));
    // The fourth is the connector's proof, which the listener reads.
    let (la, ca, _, _) = run_pair(123456789, 987654321, Some(3));
    assert!(matches!(la, Action::Failed(HandshakeError::SecretMismatch)));
    assert!(matches!(ca, Action::Established(_)));
}

#[test]
fn tampered_public_value_fails_both_peers() {
    // A public value changed on the way gives the two peers different
    // secrets, and each fails on the other's proof.
    let (la, ca, _, _) = run_pair(123456789, 987654321, Some(0));
    assert!(matches!(la, Action::Failed(HandshakeError::SecretMismatch)));
    assert!(matches!(ca, Action::Failed(HandshakeError::SecretMismatch)));
    let (la, ca, _, _) = run_pair(123456789, 987654321, Some(1));
    assert!(matches!(la, Action::Failed(HandshakeError::SecretMismatch)));
    assert!(matches!(ca, Action::Failed(HandshakeError::SecretMismatch)));
}

#[test]
fn different_secrets_fail_with_secret_mismatch() {
    // Each peer is fed a valid public value that the other did not send, so
    // the two secrets differ, and then the other's true proof.
    let (l, _) = Handshake::start(Role::Listener, 1111);
    let (c, _) = Handshake::start(Role::Connector, 2222);
    let foreign = modexp(G, 3333, P).to_be_bytes();

    let (l, _) = l.step(Event::Sent);
    let (l, la) = l.step(Event::Received(foreign));
    let listener_proof = match la {
        Action::Send(bytes) => bytes,
        other => panic!("{:?}", other),
    };
    let (c, _) = c.step(Event::Received(foreign));
    let (c, ca) = c.step(Event::Sent);
    assert!(matches!(ca, Action::Receive));
    let (c, ca) = c.step(Event::Received(listener_proof));
    let connector_proof = match ca {
        Action::Send(bytes) => bytes,
        other => panic!("{:?}", other),
    };
    assert_ne!(listener_proof, connector_proof);
    let (c, ca) = c.step(Event::Sent);
    assert!(matches!(ca, Action::Failed(HandshakeError::SecretMismatch)));
    assert!(matches!(c, Handshake::Failed(HandshakeError::SecretMismatch)));

    let (l, la) = l.step(Event::Sent);
    assert!(matches!(la, Action::Receive));
    let (l, la) = l.step(Event::Received(connector_proof));
    assert!(matches!(la, Action::Failed(HandshakeError::SecretMismatch)));
    assert!(matches!(l, Handshake::Failed(HandshakeError::SecretMismatch)));
}

#[test]
fn degenerate_peer_public_value_is_rejected() {
    for bad in [0u64, 1, P - 1, P, u64::MAX] {
        let (l, _) = Handshake::start(Role::Listener, 12345);
        let (l, la) = l.step(Event::Sent);
        assert!(matches!(la, Action::Receive));
        let (l, la) = l.step(Event::Received(bad.to_be_bytes()));
        assert!(matches!(la, Action::Failed(HandshakeError::InvalidPeerKey)), "{bad}");
        assert!(matches!(l, Handshake::Failed(HandshakeError::InvalidPeerKey)));

        let (c, _) = Handshake::start(Role::Connector, 12345);
        let (c, ca) = c.step(Event::Received(bad.to_be_bytes()));
        assert!(matches!(ca, Action::Send(_)));
        let (c, ca) = c.step(Event::Sent);
        assert!(matches!(ca, Action::Failed(HandshakeError::InvalidPeerKey)), "{bad}");
        assert!(matches!(c, Handshake::Failed(HandshakeError::InvalidPeerKey)));
    }
}

#[test]
fn boundary_peer_public_values_are_accepted() {
    for good in [2u64, P - 2] {
        let (l, _) = Handshake::start(Role::Listener, 12345);
        let (l, _) = l.step(Event::Sent);
        let (l, la) = l.step(Event::Received(good.to_be_bytes()));
        assert!(matches!(la, Action::Send(_)));
        assert!(matches!(l, Handshake::ExchangeProof { .. }));
    }
}

#[test]
fn exponent_with_degenerate_public_value_is_refused_by_the_peer() {
    // (P - 1) / 2 is a valid private exponent whose public value is P - 1.
    let half = (P - 1) / 2;
    assert_eq!(modexp(G, half, P), P - 1);
    let (la, ca, _, _) = run_pair(half, 987654321, None);
    assert!(matches!(ca, Action::Failed(HandshakeError::InvalidPeerKey)));
    assert!(!matches!(la, Action::Established(_)));
}

#[test]
fn stream_failure_ends_the_handshake() {
    let (l, _) = Handshake::start(Role::Listener, 777);
    let (l, la) = l.step(Event::Failed);
    assert!(matches!(la, Action::Failed(HandshakeError::Transport)));
    assert!(l.is_over());
    let (l, la) = l.step(Event::Sent);
    assert!(matches!(la, Action::Failed(HandshakeError::Transport)));
    assert!(matches!(l, Handshake::Failed(HandshakeError::Transport)));

    let (c, _) = Handshake::start(Role::Connector, 777);
    let (c, _) = c.step(Event::Received(modexp(G, 5, P).to_be_bytes()));
    let (c, _) = c.step(Event::Sent);
    assert!(!c.is_over());
    let (c, ca) = c.step(Event::Failed);
    assert!(matches!(ca, Action::Failed(HandshakeError::Transport)));
    assert!(c.is_over());
}

#[test]
fn unexpected_event_ends_the_handshake() {
    let (l, _) = Handshake::start(Role::Listener, 777);
    let (_, la) = l.step(Event::Received([0, 0, 0, 0, 0, 0, 0, 9]));
    assert!(matches!(la, Action::Failed(HandshakeError::Transport)));
    let (c, _) = Handshake::start(Role::Connector, 777);
    let (_, ca) = c.step(Event::Sent);
    assert!(matches!(ca, Action::Failed(HandshakeError::Transport)));
}

#[test]
fn established_handshake_repeats_its_keys() {
    let (l, _) = Handshake::start(Role::Listener, 123456789);
    let (l, _) = l.step(Event::Sent);
    let (l, _) = l.step(Event::Received(0xb2180b183735d238u64.to_be_bytes()));
    let (l, _) = l.step(Event::Sent);
    let (l, la) = l.step(Event::Received(0x52aad4bea93d3286u64.to_be_bytes()));
    let first = keys_of(la);
    assert!(l.is_over());
    let (_, again) = l.step(Event::Sent);
    let second = keys_of(again);
    assert_eq!(first.send.state(), second.send.state());
    assert_eq!(first.recv.state(), second.recv.state());
}

#[test]
fn begin_draws_a_private_exponent_and_opens_the_exchange() {
    let mut drawn: Vec<u64> = Vec::new();
    for _ in 0..16 {
        let (l, la) = Handshake::begin(Role::Listener);
        match l {
            Handshake::ExchangePublic { private, exchange } => {
                assert!((2..=P - 2).contains(&private));
                drawn.push(private);
                assert_eq!(exchange.own, modexp(G, private, P));
                match la {
                    Action::Send(bytes) => assert_eq!(bytes, exchange.own.to_be_bytes()),
                    other => panic!("{:?}", other),
                }
            }
            other => panic!("{:?}", other),
        }
        let (_, ca) = Handshake::begin(Role::Connector);
        assert!(matches!(ca, Action::Receive));
    }
    // Sixteen draws from so wide a range are not all the same, nor its ends.
    assert!(drawn.iter().any(|&x| x != drawn[0]));
    assert!(drawn.iter().any(|&x| x != 2 && x != P - 1 && x != P - 2));
}

#[test]
fn errors_in_words() {
    assert_eq!(HandshakeError::InvalidPeerKey.message(), "invalid peer public key");
    assert_eq!(HandshakeError::SecretMismatch.message(), "secret verification failed");
    assert_eq!(HandshakeError::Transport.message(), "transport failure");
    assert_eq!(CodecError::MessageTooLong.message(), "message too long");
    assert_eq!(CodecError::MessageTooLarge.message(), "message too large");
    assert_eq!(CodecError::FrameTooLarge.message(), "incoming message too large");
    assert_eq!(CodecError::Truncated.message(), "frame ends early");
}

#[test]
fn listener_outlives_its_sessions_and_connector_does_not() {
    for outcome in [
        None,
        Some(Failure::Configuration),
        Some(Failure::Transport),
        Some(Failure::Protocol),
    ] {
        assert_eq!(after_session(Role::Listener, outcome), Next::Accept);
    }
    assert_eq!(after_session(Role::Connector, None), Next::Exit(0));
    assert_eq!(after_session(Role::Connector, Some(Failure::Configuration)), Next::Exit(2));
    assert_eq!(after_session(Role::Connector, Some(Failure::Transport)), Next::Exit(1));
    assert_eq!(after_session(Role::Connector, Some(Failure::Protocol)), Next::Exit(1));
    assert_eq!(code_for(None), 0);
    assert_eq!(code_for(Some(Failure::Transport)), 1);
}

#[test]
fn failures_are_sorted_into_kinds() {
    assert_eq!(classify_handshake(HandshakeError::Transport), Failure::Transport);
    assert_eq!(classify_handshake(HandshakeError::InvalidPeerKey), Failure::Protocol);
    assert_eq!(classify_handshake(HandshakeError::SecretMismatch), Failure::Protocol);
    assert_eq!(classify_codec(CodecError::MessageTooLong), Failure::Protocol);
    assert_eq!(classify_codec(CodecError::MessageTooLarge), Failure::Protocol);
    assert_eq!(classify_codec(CodecError::FrameTooLarge), Failure::Protocol);
    assert_eq!(classify_codec(CodecError::Truncated), Failure::Transport);
}

#[test]
fn public_values_and_secrets() {
    let (a, b) = (123456789u64, 987654321u64);
    assert_eq!(compute_public(a), 0x76ce25f1ba680402);
    assert_eq!(compute_public(b), 0xb2180b183735d238);
    assert_eq!(compute_secret(compute_public(b), a), 0x735df714dfe4fe11);
    assert_eq!(compute_secret(compute_public(a), b), 0x735df714dfe4fe11);
    for (a, b) in [(2u64, 3u64), (P - 2, 2), (0xABCDEF, 0x123456789)] {
        assert_eq!(
            compute_secret(compute_public(b), a),
            compute_secret(compute_public(a), b)
        );
    }
}

#[test]
fn peer_public_value_bounds() {
    assert!(!accepts_peer_public(0));
    assert!(!accepts_peer_public(1));
    assert!(accepts_peer_public(2));
    assert!(accepts_peer_public(P - 2));
    assert!(!accepts_peer_public(P - 1));
    assert!(!accepts_peer_public(P));
    assert!(!accepts_peer_public(u64::MAX));
}

#[test]
fn proofs_and_seeds() {
    let secret = 0x735df714dfe4fe11u64;
    assert_eq!(compute_proof(secret), 0x52aad4bea93d3286);
    assert_eq!(compute_proof(secret), mix64(secret ^ 0xA5A5_A5A5_A5A5_A5A5));
    assert_eq!(
        derive_seeds(Role::Listener, secret),
        (0x83538e5797053b7c, 0xf30354e151218e1b)
    );
    assert_eq!(
        derive_seeds(Role::Connector, secret),
        (0xf30354e151218e1b, 0x83538e5797053b7c)
    );
    assert_ne!(compute_proof(secret), compute_proof(secret + 1));
}

#[test]
fn derived_keys_mirror_each_other() {
    for secret in [0u64, 1, 0x735df714dfe4fe11, P - 1, u64::MAX] {
        let l = derive_keys(Role::Listener, secret);
        let c = derive_keys(Role::Connector, secret);
        assert_eq!(l.send.state(), c.recv.state());
        assert_eq!(l.recv.state(), c.send.state());
        let (out, back) = derive_seeds(Role::Listener, secret);
        assert_eq!(l.send.state(), Keystream::new(out).state());
        assert_eq!(l.recv.state(), Keystream::new(back).state());
    }
}

#[test]
fn private_exponents_are_in_range() {
    for _ in 0..64 {
        let x = generate_private();
        assert!(2 <= x && x <= P - 2);
    }
}
