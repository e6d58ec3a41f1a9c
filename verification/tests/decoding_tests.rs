use audio_fingerprint::decoding::{absorb_packet, next_packet, open_mp3, DecodeState, Mp3Error, PacketOutcome};

fn wav_bytes(rate: u32, samples: &[i16]) -> Vec<u8> {
    let data_len = (samples.len() * 2) as u32;
    let mut bytes = Vec::new();
    bytes.extend_from_slice(b"RIFF");
    bytes.extend_from_slice(&(36 + data_len).to_le_bytes());
    bytes.extend_from_slice(b"WAVEfmt ");
    bytes.extend_from_slice(&16u32.to_le_bytes());
    bytes.extend_from_slice(&1u16.to_le_bytes()); // PCM
    bytes.extend_from_slice(&1u16.to_le_bytes()); // mono
    bytes.extend_from_slice(&rate.to_le_bytes());
    bytes.extend_from_slice(&(rate * 2).to_le_bytes());
    bytes.extend_from_slice(&2u16.to_le_bytes());
    bytes.extend_from_slice(&16u16.to_le_bytes());
    bytes.extend_from_slice(b"data");
    bytes.extend_from_slice(&data_len.to_le_bytes());
    for s in samples {
        bytes.extend_from_slice(&s.to_le_bytes());
    }
    bytes
}

#[test]
fn absorbing_keeps_the_first_rate_and_appends_samples() {
    let mut state = DecodeState::new();
    assert!(state.samples.is_empty());
    assert_eq!(state.rate, None);
    assert!(absorb_packet(&mut state, PacketOutcome::Decoded { rate: 44100, samples: vec![1, 2] }));
    assert!(absorb_packet(&mut state, PacketOutcome::Decoded { rate: 22050, samples: vec![3] }));
    assert_eq!(state.samples, vec![1, 2, 3]);
    assert_eq!(state.rate, Some(44100));
}

#[test]
fn absorbing_skips_undecodable_packets_and_stops_at_the_end() {
    let mut state = DecodeState::new();
    assert!(absorb_packet(&mut state, PacketOutcome::Decoded { rate: 8000, samples: vec![5] }));
    let error = symphonia::core::errors::Error::DecodeError("broken packet");
    assert!(absorb_packet(&mut state, PacketOutcome::Undecodable(error)));
    let end = symphonia::core::errors::Error::DecodeError("no more packets");
    assert!(!absorb_packet(&mut state, PacketOutcome::Unreadable(end)));
    assert_eq!(state.samples, vec![5]);
    assert_eq!(state.rate, Some(8000));
}

#[test]
fn bytes_of_no_known_format_are_refused() {
    let result = open_mp3(vec![0u8; 64]);
    assert!(matches!(result, Err(Mp3Error::Probe(_))));
}

#[test]
fn decoding_a_stream_gathers_its_samples_and_rate() {
    let samples = [1i16, -2, 300, -400, 32767, -32768];
    let mut source = open_mp3(wav_bytes(8000, &samples)).expect("a PCM stream opens");
    let mut state = DecodeState::new();
    loop {
        let outcome = next_packet(&mut source);
        if let PacketOutcome::Undecodable(e) = &outcome {
            panic!("unexpected undecodable packet: {:?}", e);
        }
        if !absorb_packet(&mut state, outcome) {
            break;
        }
    }
    assert_eq!(state.samples, samples.to_vec());
    assert_eq!(state.rate, Some(8000));
}
