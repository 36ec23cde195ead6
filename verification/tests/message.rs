use chat_async::connect::multicast::message::{
    decode, encode, next_frame, split_frames, DecodingError, EncodingOverflow, Frame, Message,
    MulticastMessage,
};

fn encoded(message: MulticastMessage) -> Vec<u8> {
    let mut buf = [0xAAu8; 8];
    let written = message.encode_into(&mut buf).unwrap();
    buf[..written].to_vec()
}

#[test]
fn join_is_one_tag_byte() {
    assert_eq!(encoded(MulticastMessage::Join), vec![0x01]);
}

#[test]
fn new_server_is_tag_and_big_endian_port() {
    assert_eq!(encoded(MulticastMessage::NewServer { port: 8080 }), vec![0x02, 0x1F, 0x90]);
    assert_eq!(encoded(MulticastMessage::NewServer { port: 1 }), vec![0x02, 0x00, 0x01]);
    assert_eq!(encoded(MulticastMessage::NewServer { port: 256 }), vec![0x02, 0x01, 0x00]);
}

#[test]
fn close_server_is_tag_and_big_endian_port() {
    assert_eq!(encoded(MulticastMessage::CloseServer { port: 4983 }), vec![0x03, 0x13, 0x77]);
    assert_eq!(encoded(MulticastMessage::CloseServer { port: 0 }), vec![0x03, 0x00, 0x00]);
    assert_eq!(encoded(MulticastMessage::CloseServer { port: 65535 }), vec![0x03, 0xFF, 0xFF]);
}

#[test]
fn broker_decodes_new_server_8080() {
    let received = [0x02u8, 0x1F, 0x90];
    assert_eq!(
        MulticastMessage::decode(&received),
        Ok(MulticastMessage::NewServer { port: 8080 })
    );
    assert_eq!(decode::<MulticastMessage>(&received), Ok(MulticastMessage::NewServer { port: 8080 }));
}

#[test]
fn round_trip_of_all_variants_at_the_port_bounds() {
    let messages = [
        MulticastMessage::Join,
        MulticastMessage::NewServer { port: 0 },
        MulticastMessage::NewServer { port: 65535 },
        MulticastMessage::NewServer { port: 8080 },
        MulticastMessage::CloseServer { port: 0 },
        MulticastMessage::CloseServer { port: 65535 },
        MulticastMessage::CloseServer { port: 255 },
    ];
    for message in messages {
        let bytes = encoded(message);
        assert_eq!(MulticastMessage::decode(&bytes), Ok(message));
    }
}

#[test]
fn round_trip_of_every_port() {
    let mut port: u16 = 0;
    loop {
        let opened = MulticastMessage::NewServer { port };
        let closed = MulticastMessage::CloseServer { port };
        assert_eq!(MulticastMessage::decode(&encoded(opened)), Ok(opened));
        assert_eq!(MulticastMessage::decode(&encoded(closed)), Ok(closed));
        if port == u16::MAX {
            break;
        }
        port += 1;
    }
}

#[test]
fn encoding_is_deterministic() {
    let message = MulticastMessage::NewServer { port: 12345 };
    assert_eq!(encoded(message), encoded(message));
    assert_eq!(encoded(message), vec![0x02, 0x30, 0x39]);
}

#[test]
fn encoding_leaves_the_rest_of_the_buffer() {
    let mut buf = [0xAAu8; 6];
    assert_eq!(MulticastMessage::NewServer { port: 8080 }.encode_into(&mut buf), Ok(3));
    assert_eq!(buf, [0x02, 0x1F, 0x90, 0xAA, 0xAA, 0xAA]);
    assert_eq!(MulticastMessage::Join.encode_into(&mut buf), Ok(1));
    assert_eq!(buf, [0x01, 0x1F, 0x90, 0xAA, 0xAA, 0xAA]);
}

#[test]
fn encoding_into_a_short_buffer_overflows_and_writes_nothing() {
    let mut two = [0x55u8; 2];
    assert_eq!(
        MulticastMessage::NewServer { port: 8080 }.encode_into(&mut two),
        Err(EncodingOverflow { required: 3, available: 2 })
    );
    assert_eq!(two, [0x55, 0x55]);
    assert_eq!(
        MulticastMessage::CloseServer { port: 8080 }.encode_into(&mut two),
        Err(EncodingOverflow { required: 3, available: 2 })
    );
    assert_eq!(two, [0x55, 0x55]);
    let mut one = [0x55u8; 1];
    assert_eq!(
        MulticastMessage::NewServer { port: 1 }.encode_into(&mut one),
        Err(EncodingOverflow { required: 3, available: 1 })
    );
    assert_eq!(one, [0x55]);
    let mut none: [u8; 0] = [];
    assert_eq!(
        MulticastMessage::Join.encode_into(&mut none),
        Err(EncodingOverflow { required: 1, available: 0 })
    );
}

#[test]
fn encoding_into_an_exact_buffer_fits() {
    let mut one = [0u8; 1];
    assert_eq!(MulticastMessage::Join.encode_into(&mut one), Ok(1));
    assert_eq!(one, [0x01]);
    let mut three = [0u8; 3];
    assert_eq!(MulticastMessage::CloseServer { port: 513 }.encode_into(&mut three), Ok(3));
    assert_eq!(three, [0x03, 0x02, 0x01]);
}

#[test]
fn encode_returns_the_written_slice() {
    let mut buf = [0u8; 4096];
    let written = encode(&mut buf, &MulticastMessage::NewServer { port: 8080 }).unwrap();
    assert_eq!(written, &[0x02, 0x1F, 0x90]);
    let mut short = [9u8; 2];
    assert_eq!(
        encode(&mut short, &MulticastMessage::NewServer { port: 8080 }),
        Err(EncodingOverflow { required: 3, available: 2 })
    );
    assert_eq!(short, [9, 9]);
}

#[test]
fn decoding_nothing_is_truncated() {
    assert_eq!(MulticastMessage::decode(&[]), Err(DecodingError::Truncated));
}

#[test]
fn decoding_an_unknown_tag_names_it() {
    assert_eq!(MulticastMessage::decode(&[0x00]), Err(DecodingError::UnknownTag(0)));
    assert_eq!(MulticastMessage::decode(&[0x04, 0, 0]), Err(DecodingError::UnknownTag(4)));
    assert_eq!(MulticastMessage::decode(&[0xFF]), Err(DecodingError::UnknownTag(255)));
}

#[test]
fn decoding_a_cut_record_is_truncated() {
    assert_eq!(MulticastMessage::decode(&[0x02]), Err(DecodingError::Truncated));
    assert_eq!(MulticastMessage::decode(&[0x02, 0x1F]), Err(DecodingError::Truncated));
    assert_eq!(MulticastMessage::decode(&[0x03, 0x1F]), Err(DecodingError::Truncated));
}

#[test]
fn decoding_more_than_a_record_is_refused() {
    assert_eq!(MulticastMessage::decode(&[0x01, 0x00]), Err(DecodingError::TrailingBytes));
    assert_eq!(
        MulticastMessage::decode(&[0x02, 0x1F, 0x90, 0x00]),
        Err(DecodingError::TrailingBytes)
    );
    assert_eq!(
        MulticastMessage::decode(&[0x03, 0x1F, 0x90, 0x01]),
        Err(DecodingError::TrailingBytes)
    );
}

#[test]
fn the_announcement_is_join() {
    assert_eq!(<MulticastMessage as Message>::join(), MulticastMessage::Join);
}

#[test]
fn the_empty_message_has_no_bytes() {
    let mut buf = [7u8; 2];
    assert_eq!(().encode_into(&mut buf), Ok(0));
    assert_eq!(buf, [7, 7]);
    let mut none: [u8; 0] = [];
    assert_eq!(().encode_into(&mut none), Ok(0));
    assert_eq!(<() as Message>::decode(&[]), Ok(()));
    assert_eq!(<() as Message>::decode(&[1]), Err(DecodingError::TrailingBytes));
    assert_eq!(<() as Message>::join(), ());
}

#[test]
fn a_frame_is_found_at_the_front_of_what_follows_it() {
    assert_eq!(next_frame(&[0x01]), Frame::Message(MulticastMessage::Join, 1));
    assert_eq!(next_frame(&[0x01, 0xFF, 0xFF]), Frame::Message(MulticastMessage::Join, 1));
    assert_eq!(
        next_frame(&[0x02, 0x1F, 0x90]),
        Frame::Message(MulticastMessage::NewServer { port: 8080 }, 3)
    );
    assert_eq!(
        next_frame(&[0x03, 0x1F, 0x90, 0x01]),
        Frame::Message(MulticastMessage::CloseServer { port: 8080 }, 3)
    );
}

#[test]
fn a_cut_frame_is_incomplete() {
    assert_eq!(next_frame(&[]), Frame::Incomplete);
    assert_eq!(next_frame(&[0x02]), Frame::Incomplete);
    assert_eq!(next_frame(&[0x02, 0x1F]), Frame::Incomplete);
    assert_eq!(next_frame(&[0x03, 0x1F]), Frame::Incomplete);
}

#[test]
fn a_byte_that_is_no_tag_is_malformed() {
    assert_eq!(next_frame(&[0x00]), Frame::Malformed(0));
    assert_eq!(next_frame(&[0x04, 0x01]), Frame::Malformed(4));
    assert_eq!(next_frame(&[0xFF, 0x01, 0x02, 0x03]), Frame::Malformed(255));
}

#[test]
fn records_written_in_a_row_are_split_in_order() {
    let messages = vec![
        MulticastMessage::Join,
        MulticastMessage::NewServer { port: 8080 },
        MulticastMessage::Join,
        MulticastMessage::CloseServer { port: 8080 },
        MulticastMessage::NewServer { port: 0 },
        MulticastMessage::CloseServer { port: 65535 },
    ];
    let mut stream = Vec::new();
    for message in &messages {
        stream.extend(encoded(*message));
    }
    assert_eq!(stream.len(), 14);
    assert_eq!(split_frames(&stream), (messages, 14, Frame::Incomplete));
}

#[test]
fn splitting_stops_before_a_cut_record() {
    let stream = [0x01, 0x02, 0x1F, 0x90, 0x03, 0x00];
    assert_eq!(
        split_frames(&stream),
        (
            vec![MulticastMessage::Join, MulticastMessage::NewServer { port: 8080 }],
            4,
            Frame::Incomplete
        )
    );
    assert_eq!(split_frames(&[]), (vec![], 0, Frame::Incomplete));
    assert_eq!(split_frames(&[0x02, 0x1F]), (vec![], 0, Frame::Incomplete));
}

#[test]
fn splitting_stops_before_a_byte_that_is_no_tag() {
    let stream = [0x01, 0x01, 0x09, 0x01];
    assert_eq!(
        split_frames(&stream),
        (vec![MulticastMessage::Join, MulticastMessage::Join], 2, Frame::Malformed(9))
    );
    assert_eq!(split_frames(&[0x00, 0x01]), (vec![], 0, Frame::Malformed(0)));
}

#[test]
fn splitting_does_not_depend_on_where_reads_were_cut() {
    let messages = [
        MulticastMessage::NewServer { port: 4983 },
        MulticastMessage::Join,
        MulticastMessage::CloseServer { port: 4983 },
    ];
    let mut stream = Vec::new();
    for message in &messages {
        stream.extend(encoded(*message));
    }
    for cut in 0..=stream.len() {
        let mut buffered: Vec<u8> = Vec::new();
        let mut received = Vec::new();
        for chunk in [&stream[..cut], &stream[cut..]] {
            buffered.extend_from_slice(chunk);
            let (split, taken, _) = split_frames(&buffered);
            received.extend(split);
            buffered.drain(..taken);
        }
        assert_eq!(received, messages);
        assert!(buffered.is_empty());
    }
}
