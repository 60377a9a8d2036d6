use content_node::assembler::{FeedError, Fragment, FragmentAssembler};
use content_node::protocol::{ServerKind, WebRequest, WebResponse};
use content_node::protocol::{decode_request, encode_request, encode_response};
use content_node::routing::{RoutingError, RoutingHandler};
use content_node::server::{Command, MediaServer, TextServer};
use content_node::store::{uuid_text, ContentRecord};

fn frag(origin: u64, session_id: u64, index: u32, total: u32, payload: &[u8]) -> Fragment {
    Fragment { origin, session_id, index, total, payload: payload.to_vec() }
}

fn record(id: u128, title: &[u8], data: &[u8]) -> ContentRecord {
    ContentRecord { id, title: title.to_vec(), data: data.to_vec() }
}

#[test]
fn test_() {}

#[test]
fn reassembly_in_index_order_regardless_of_arrival() {
    // Three fragments fed in arrival order 0, 2, 1 reconstruct in index
    // order: "AB" ++ "CD" ++ "EF".
    let mut rasm = FragmentAssembler::new(8);
    assert_eq!(rasm.feed(frag(1, 42, 0, 3, b"AB")), Ok(None));
    assert_eq!(rasm.feed(frag(1, 42, 2, 3, b"EF")), Ok(None));
    let done = rasm.feed(frag(1, 42, 1, 3, b"CD")).unwrap().unwrap();
    assert_eq!(done, b"ABCDEF".to_vec());
}

#[test]
fn reassembly_returns_payload_exactly_once() {
    let mut rasm = FragmentAssembler::new(8);
    assert_eq!(rasm.feed(frag(9, 7, 1, 2, b"xyz")), Ok(None));
    let done = rasm.feed(frag(9, 7, 0, 2, b"uvw")).unwrap();
    assert_eq!(done, Some(b"uvwxyz".to_vec()));
    // Any further fragment of that key reports nothing, forever.
    assert_eq!(rasm.feed(frag(9, 7, 0, 2, b"uvw")), Ok(None));
    assert_eq!(rasm.feed(frag(9, 7, 1, 2, b"xyz")), Ok(None));
}

#[test]
fn split_and_reassemble_any_permutation() {
    // A payload longer than one fragment, planned by the routing layer and
    // fed back in a scrambled order, comes back unchanged.
    let handler = RoutingHandler::new(3, 4);
    let payload: Vec<u8> = (0u8..23).collect();
    let frags = handler.plan_fragments(&payload, 99);
    assert_eq!(frags.len(), 6);
    let order = [5usize, 0, 3, 1, 4, 2];
    let mut rasm = FragmentAssembler::new(4);
    let mut outputs = Vec::new();
    for &t in order.iter() {
        let f = &frags[t];
        let copy = frag(f.origin, f.session_id, f.index, f.total, &f.payload);
        outputs.push(rasm.feed(copy).unwrap());
    }
    assert!(outputs[..5].iter().all(|o| o.is_none()));
    assert_eq!(outputs[5], Some(payload));
}

#[test]
fn duplicate_fragment_before_completion_is_harmless() {
    let mut rasm = FragmentAssembler::new(8);
    assert_eq!(rasm.feed(frag(2, 5, 0, 3, b"aa")), Ok(None));
    // The same fragment again: no premature completion, no corruption.
    assert_eq!(rasm.feed(frag(2, 5, 0, 3, b"aa")), Ok(None));
    assert_eq!(rasm.feed(frag(2, 5, 1, 3, b"bb")), Ok(None));
    let done = rasm.feed(frag(2, 5, 2, 3, b"cc")).unwrap();
    assert_eq!(done, Some(b"aabbcc".to_vec()));
}

#[test]
fn malformed_fragment_rejected_session_unaffected() {
    let mut rasm = FragmentAssembler::new(8);
    assert_eq!(rasm.feed(frag(4, 1, 0, 2, b"he")), Ok(None));
    // index >= total
    assert_eq!(rasm.feed(frag(4, 1, 2, 2, b"xx")), Err(FeedError::Malformed));
    assert_eq!(rasm.feed(frag(4, 1, 9, 2, b"xx")), Err(FeedError::Malformed));
    // total == 0
    assert_eq!(rasm.feed(frag(4, 1, 0, 0, b"xx")), Err(FeedError::Malformed));
    // a total contradicting the session
    assert_eq!(rasm.feed(frag(4, 1, 0, 3, b"xx")), Err(FeedError::TotalMismatch));
    // the session is still intact and completes with the right bytes
    let done = rasm.feed(frag(4, 1, 1, 2, b"llo")).unwrap();
    assert_eq!(done, Some(b"hello".to_vec()));
}

#[test]
fn eviction_drops_oldest_incomplete_session() {
    let mut rasm = FragmentAssembler::new(1);
    assert_eq!(rasm.feed(frag(1, 1, 0, 2, b"one")), Ok(None));
    // A second incomplete session exceeds the limit: the first is evicted.
    assert_eq!(rasm.feed(frag(2, 2, 0, 2, b"two")), Ok(None));
    // A late fragment for the evicted key opens a fresh session.
    assert_eq!(rasm.feed(frag(1, 1, 1, 2, b"late")), Ok(None));
}

#[test]
fn request_codec_roundtrip() {
    let reqs = vec![
        WebRequest::ServerTypeQuery,
        WebRequest::TextListQuery,
        WebRequest::ItemQuery { id: b"some-id".to_vec() },
        WebRequest::MediaQuery { id: b"other".to_vec() },
    ];
    for req in reqs {
        let bytes = encode_request(&req);
        assert_eq!(decode_request(&bytes), Some(req));
    }
    assert_eq!(decode_request(&vec![]), None);
    assert_eq!(decode_request(&vec![9u8]), None);
    assert_eq!(decode_request(&vec![0u8, 0u8]), None);
}

#[test]
fn response_encoding_exact_bytes() {
    let bytes = encode_response(&WebResponse::ServerType { kind: ServerKind::Media });
    assert_eq!(bytes, vec![0u8, 1u8]);
    let bytes = encode_response(&WebResponse::ServerType { kind: ServerKind::Text });
    assert_eq!(bytes, vec![0u8, 0u8]);
    let bytes = encode_response(&WebResponse::ErrorInvalidId);
    assert_eq!(bytes, vec![4u8]);
    let bytes = encode_response(&WebResponse::ErrorNotFound { id: 0x0102 });
    let mut expected = vec![3u8];
    expected.extend([0u8; 14]);
    expected.extend([1u8, 2u8]);
    assert_eq!(bytes, expected);
    let bytes = encode_response(&WebResponse::ItemList {
        summaries: vec![b"ab".to_vec(), b"c".to_vec()],
    });
    let expected = vec![
        1u8, 0, 0, 0, 2, // two summaries
        0, 0, 0, 2, b'a', b'b', // "ab"
        0, 0, 0, 1, b'c', // "c"
    ];
    assert_eq!(bytes, expected);
}

#[test]
fn uuid_text_matches_canonical_rendering() {
    let u = uuid::Uuid::parse_str("67e55044-10b1-426f-9247-bb680e5fe0c8").unwrap();
    let text = uuid_text(u.as_u128());
    assert_eq!(text, format!("{}", u).into_bytes());
}

#[test]
fn listing_lines_are_id_colon_title() {
    let u = uuid::Uuid::parse_str("936da01f-9abd-4d9d-80c7-02af85c822a8").unwrap();
    let mut server = TextServer::new(1);
    assert!(server.add_text_file(record(u.as_u128(), b"notes", b"body")));
    let lines = server.get_files_list();
    assert_eq!(lines, vec![b"936da01f-9abd-4d9d-80c7-02af85c822a8:notes".to_vec()]);
}

#[test]
fn store_insert_refuses_duplicate_and_remove_hands_back() {
    let mut server = MediaServer::new(2);
    assert!(server.add_media_file(record(10, b"a", b"xx")));
    assert!(!server.add_media_file(record(10, b"b", b"yy")));
    let removed = server.remove_media_file(10).unwrap();
    assert_eq!(removed.title, b"a".to_vec());
    assert!(server.remove_media_file(10).is_none());
}

#[test]
fn get_file_by_id_finds_and_misses() {
    let mut server = TextServer::new(4);
    assert!(server.add_text_file(record(77, b"t", b"d")));
    assert_eq!(server.get_file_by_id(77).unwrap().data, b"d".to_vec());
    assert!(server.get_file_by_id(78).is_none());
}

#[test]
fn server_type_query_always_answered() {
    let mut text = TextServer::new(1);
    let media = MediaServer::new(2);
    let req = WebRequest::ServerTypeQuery;
    let resp = text.server.produce_response(&req).unwrap();
    assert_eq!(resp, WebResponse::ServerType { kind: ServerKind::Text });
    // regardless of store contents
    assert!(text.add_text_file(record(5, b"x", b"y")));
    let resp = text.server.produce_response(&req).unwrap();
    assert_eq!(resp, WebResponse::ServerType { kind: ServerKind::Text });
    let resp = media.server.produce_response(&req).unwrap();
    assert_eq!(resp, WebResponse::ServerType { kind: ServerKind::Media });
}

#[test]
fn item_query_unknown_id_yields_not_found_with_same_id() {
    let u = uuid::Uuid::parse_str("67e55044-10b1-426f-9247-bb680e5fe0c8").unwrap();
    let server = TextServer::new(1);
    let req = WebRequest::ItemQuery {
        id: b"67e55044-10b1-426f-9247-bb680e5fe0c8".to_vec(),
    };
    let resp = server.server.produce_response(&req).unwrap();
    assert_eq!(resp, WebResponse::ErrorNotFound { id: u.as_u128() });
}

#[test]
fn item_query_invalid_uuid_yields_format_error() {
    let server = TextServer::new(1);
    let req = WebRequest::ItemQuery { id: b"not-a-uuid".to_vec() };
    let resp = server.server.produce_response(&req).unwrap();
    assert_eq!(resp, WebResponse::ErrorInvalidId);
    // never a silent drop: an empty identifier errs too
    let req = WebRequest::ItemQuery { id: b"".to_vec() };
    let resp = server.server.produce_response(&req).unwrap();
    assert_eq!(resp, WebResponse::ErrorInvalidId);
}

#[test]
fn item_query_simple_format_finds_hyphenated_record() {
    // The UUID parser accepts the un-hyphenated form of the same
    // identifier, so a record stored under the parsed value is found.
    let u = uuid::Uuid::parse_str("67e55044-10b1-426f-9247-bb680e5fe0c8").unwrap();
    let mut server = TextServer::new(1);
    assert!(server.add_text_file(record(u.as_u128(), b"t", b"payload")));
    let req = WebRequest::ItemQuery { id: b"67e5504410b1426f9247bb680e5fe0c8".to_vec() };
    let resp = server.server.produce_response(&req).unwrap();
    match resp {
        WebResponse::Item { data } => {
            // the record's identifier leads the encoding
            assert_eq!(&data[..16], &u.as_u128().to_be_bytes());
        }
        other => panic!("expected the record, got {:?}", other),
    }
}

#[test]
fn queries_for_the_other_role_are_ignored() {
    let text = TextServer::new(1);
    let media = MediaServer::new(2);
    let req = WebRequest::MediaQuery { id: b"x".to_vec() };
    assert!(text.server.produce_response(&req).is_none());
    let req = WebRequest::TextListQuery;
    assert!(media.server.produce_response(&req).is_none());
}

#[test]
fn send_to_unknown_destination_is_a_routing_error() {
    let handler = RoutingHandler::new(1, 16);
    let r = handler.send(&b"hello".to_vec(), 9, 5);
    assert_eq!(r, Err(RoutingError::UnknownDestination { dest: 9 }));
}

#[test]
fn send_on_disconnected_channel_fails_cleanly() {
    let (tx, rx) = crossbeam::channel::unbounded::<Fragment>();
    let mut handler = RoutingHandler::new(1, 16);
    handler.add_neighbor(6, tx);
    drop(rx);
    let r = handler.send(&b"hi".to_vec(), 6, 3);
    assert_eq!(r, Err(RoutingError::ChannelClosed { dest: 6 }));
}

#[test]
fn send_on_full_channel_fails_cleanly() {
    // a zero-capacity channel with no receiver waiting has no room
    let (tx, rx) = crossbeam::channel::bounded::<Fragment>(0);
    let mut handler = RoutingHandler::new(1, 16);
    handler.add_neighbor(6, tx);
    let r = handler.send(&b"hi".to_vec(), 6, 3);
    assert_eq!(r, Err(RoutingError::ChannelFull { dest: 6 }));
    // once the receiver is gone the same send reports the closed channel
    drop(rx);
    let r = handler.send(&b"hi".to_vec(), 6, 3);
    assert_eq!(r, Err(RoutingError::ChannelClosed { dest: 6 }));
}

#[test]
fn add_neighbor_replaces_the_stored_channel() {
    let (tx1, rx1) = crossbeam::channel::unbounded::<Fragment>();
    let (tx2, rx2) = crossbeam::channel::unbounded::<Fragment>();
    let mut handler = RoutingHandler::new(1, 16);
    handler.add_neighbor(6, tx1);
    handler.add_neighbor(6, tx2);
    assert_eq!(handler.send(&b"abc".to_vec(), 6, 9), Ok(()));
    // delivery goes through the replacing channel, not the replaced one
    assert!(rx1.try_recv().is_err());
    let f = rx2.try_recv().unwrap();
    assert_eq!(f.payload, b"abc".to_vec());
}

#[test]
fn sent_fragments_arrive_with_session_correlation() {
    let (tx, rx) = crossbeam::channel::unbounded::<Fragment>();
    let mut handler = RoutingHandler::new(11, 4);
    handler.add_neighbor(6, tx);
    let payload = b"abcdefgh-".to_vec();
    assert_eq!(handler.send(&payload, 6, 1234), Ok(()));
    let mut rasm = FragmentAssembler::new(4);
    let mut done = None;
    while let Ok(f) = rx.try_recv() {
        assert_eq!(f.origin, 11);
        assert_eq!(f.session_id, 1234);
        if let Some(msg) = rasm.feed(f).unwrap() {
            done = Some(msg);
        }
    }
    assert_eq!(done, Some(payload));
}

#[test]
fn end_to_end_request_reply_over_fragments() {
    // A requester three bytes at a time: the request travels as fragments,
    // the reply comes back fragmented to the requester's id under the
    // requester's session id.
    let (tx, rx) = crossbeam::channel::unbounded::<Fragment>();
    let mut server = TextServer::new(1);
    server.server.handle_command(Command::AddNeighbor { id: 42, handle: tx });
    let request_bytes = encode_request(&WebRequest::ServerTypeQuery);
    let r = server.server.process_packet(Fragment {
        origin: 42,
        session_id: 777,
        index: 0,
        total: 1,
        payload: request_bytes,
    });
    assert_eq!(r, Ok(()));
    let mut rasm = FragmentAssembler::new(4);
    let mut reply = None;
    while let Ok(f) = rx.try_recv() {
        assert_eq!(f.session_id, 777);
        if let Some(msg) = rasm.feed(f).unwrap() {
            reply = Some(msg);
        }
    }
    let expected = encode_response(&WebResponse::ServerType { kind: ServerKind::Text });
    assert_eq!(reply, Some(expected));
}

#[test]
fn removing_neighbor_mid_session_keeps_reassembly_intact() {
    let (tx, rx) = crossbeam::channel::unbounded::<Fragment>();
    let mut server = TextServer::new(1);
    server.server.handle_command(Command::AddNeighbor { id: 42, handle: tx });
    // a session is in flight
    let req = encode_request(&WebRequest::ServerTypeQuery);
    assert_eq!(
        server.server.process_packet(frag(42, 5, 0, 2, &req[..0])),
        Ok(())
    );
    // topology changes mid-session
    let (tx2, _rx2) = crossbeam::channel::unbounded::<Fragment>();
    server.server.handle_command(Command::RemoveNeighbor { id: 99 });
    server.server.handle_command(Command::AddNeighbor { id: 7, handle: tx2 });
    // the in-flight session still completes and the reply still routes
    assert_eq!(server.server.process_packet(frag(42, 5, 1, 2, &req)), Ok(()));
    let mut rasm = FragmentAssembler::new(4);
    let mut reply = None;
    while let Ok(f) = rx.try_recv() {
        if let Some(msg) = rasm.feed(f).unwrap() {
            reply = Some(msg);
        }
    }
    assert_eq!(
        reply,
        Some(encode_response(&WebResponse::ServerType { kind: ServerKind::Text }))
    );
    // and sends to a removed neighbor fail cleanly
    server.server.handle_command(Command::RemoveNeighbor { id: 42 });
    assert_eq!(
        server.server.routing.send(&b"x".to_vec(), 42, 1),
        Err(RoutingError::UnknownDestination { dest: 42 })
    );
}

#[test]
fn shutdown_command_terminates() {
    let mut server = MediaServer::new(3);
    let out = server.server.handle_command(Command::ListCachedItems);
    assert!(!out.shutdown);
    assert!(matches!(out.reply, Some(WebResponse::ItemList { .. })));
    let out = server.server.handle_command(Command::Shutdown);
    assert!(out.shutdown);
    assert!(server.server.terminated);
}

#[test]
fn admin_queries_respect_the_role() {
    let mut media = MediaServer::new(3);
    assert!(media.add_media_file(record(50, b"song", b"bits")));
    let out = media.server.handle_command(Command::GetMediaItem { id: 50 });
    assert!(matches!(out.reply, Some(WebResponse::Item { .. })));
    let out = media.server.handle_command(Command::GetMediaItem { id: 51 });
    assert_eq!(out.reply, Some(WebResponse::ErrorNotFound { id: 51 }));
    let out = media.server.handle_command(Command::GetTextItem { id: 50 });
    assert!(out.reply.is_none());
    let out = media.server.handle_command(Command::GetItem { id: 50 });
    assert!(matches!(out.reply, Some(WebResponse::Item { .. })));
}
