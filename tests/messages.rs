use peerdb_route::mirror_status_response::Status;
use peerdb_route::{
    CdcMirrorStatus, CdcSyncStatus, CreateCdcFlowRequest, CreateCdcFlowResponse,
    CreatePeerRequest, CreatePeerResponse, CreatePeerStatus, CreateQRepFlowRequest,
    CreateQRepFlowResponse, DecodeError, FlowConnectionConfigs, MirrorStatusRequest,
    MirrorStatusResponse, PartitionStatus, Peer, QRepConfig, QRepMirrorStatus, ShutdownRequest,
    ShutdownResponse, SnapshotStatus, Timestamp, ValidatePeerRequest, ValidatePeerResponse,
    ValidatePeerStatus,
};
use prost::Message;

fn ts(seconds: i64, nanos: i32) -> Timestamp {
    Timestamp { seconds, nanos }
}

fn peer(b: &[u8]) -> Peer {
    Peer { encoded: b.to_vec() }
}

fn partition(id: &str, rows: i32) -> PartitionStatus {
    PartitionStatus {
        partition_id: id.to_string(),
        start_time: Some(ts(1_700_000_000, 5)),
        end_time: None,
        num_rows: rows,
    }
}

fn qrep_status() -> QRepMirrorStatus {
    QRepMirrorStatus {
        config: Some(QRepConfig { encoded: vec![0x0a, 0x02, b'q', b'r'] }),
        partitions: vec![partition("p-1", 10), partition("p-2", -1), partition("", 0)],
    }
}

fn cdc_status() -> CdcMirrorStatus {
    CdcMirrorStatus {
        config: Some(FlowConnectionConfigs { encoded: vec![0x0a, 0x01, b'f'] }),
        snapshot_status: Some(SnapshotStatus { clones: vec![qrep_status(), QRepMirrorStatus::default()] }),
        cdc_syncs: vec![
            CdcSyncStatus {
                start_lsn: 100,
                end_lsn: i64::MAX,
                num_rows: 42,
                start_time: Some(ts(-62_135_596_800, 0)),
                end_time: Some(ts(253_402_300_799, 999_999_999)),
            },
            CdcSyncStatus { start_lsn: i64::MIN, end_lsn: -1, num_rows: i32::MIN, start_time: None, end_time: None },
        ],
    }
}

#[test]
fn create_cdc_flow_response_keeps_workflow_id() {
    let m = CreateCdcFlowResponse { worflow_id: "wf-123".to_string() };
    let d = CreateCdcFlowResponse::decode(&m.encode()).unwrap();
    assert_eq!(d.worflow_id, "wf-123");
}

#[test]
fn shutdown_response_keeps_both_fields() {
    let m = ShutdownResponse { ok: false, error_message: "peer unreachable".to_string() };
    let d = ShutdownResponse::decode(&m.encode()).unwrap();
    assert!(!d.ok);
    assert_eq!(d.error_message, "peer unreachable");
}

#[test]
fn mirror_status_response_with_cdc_status_only() {
    let m = MirrorStatusResponse {
        flow_job_name: "job".to_string(),
        status: Some(Status::CdcStatus(cdc_status())),
        error_message: String::new(),
    };
    let d = MirrorStatusResponse::decode(&m.encode()).unwrap();
    assert!(!matches!(d.status, Some(Status::QrepStatus(_))));
    assert!(matches!(d.status, Some(Status::CdcStatus(_))));
    assert_eq!(d, m);
}

#[test]
fn validate_peer_status_names_read_back() {
    for s in [ValidatePeerStatus::CreationUnknown, ValidatePeerStatus::Valid, ValidatePeerStatus::Invalid] {
        assert_eq!(ValidatePeerStatus::from_str_name(s.as_str_name()), Some(s));
    }
    assert_eq!(ValidatePeerStatus::CreationUnknown.as_str_name(), "CREATION_UNKNOWN");
    assert_eq!(ValidatePeerStatus::Valid.as_str_name(), "VALID");
    assert_eq!(ValidatePeerStatus::Invalid.as_str_name(), "INVALID");
    assert_eq!(ValidatePeerStatus::from_str_name("valid"), None);
    assert_eq!(ValidatePeerStatus::from_str_name(""), None);
    assert_eq!(ValidatePeerStatus::from_str_name("CREATED"), None);
}

#[test]
fn create_peer_status_names_read_back() {
    for s in [CreatePeerStatus::ValidationUnknown, CreatePeerStatus::Created, CreatePeerStatus::Failed] {
        assert_eq!(CreatePeerStatus::from_str_name(s.as_str_name()), Some(s));
    }
    assert_eq!(CreatePeerStatus::ValidationUnknown.as_str_name(), "VALIDATION_UNKNOWN");
    assert_eq!(CreatePeerStatus::Created.as_str_name(), "CREATED");
    assert_eq!(CreatePeerStatus::Failed.as_str_name(), "FAILED");
    assert_eq!(CreatePeerStatus::from_str_name("FAILED "), None);
    assert_eq!(CreatePeerStatus::from_str_name("VALID"), None);
}

#[test]
fn unknown_status_numbers_are_kept() {
    let v = ValidatePeerResponse { status: 7, message: "?".to_string() };
    let bytes = v.encode();
    assert_eq!(bytes, vec![0x08, 0x07, 0x12, 0x01, b'?']);
    let d = ValidatePeerResponse::decode(&bytes).unwrap();
    assert_eq!(d.status, 7);
    assert_eq!(d.encode(), bytes);

    let c = CreatePeerResponse { status: -3, message: String::new() };
    let d = CreatePeerResponse::decode(&c.encode()).unwrap();
    assert_eq!(d.status, -3);
    assert_eq!(d.encode(), c.encode());
}

#[test]
fn setting_cdc_status_replaces_qrep_status() {
    let mut m = MirrorStatusResponse::default();
    m.status = Some(Status::QrepStatus(qrep_status()));
    m.status = Some(Status::CdcStatus(cdc_status()));
    assert!(matches!(m.status, Some(Status::CdcStatus(_))));
    let d = MirrorStatusResponse::decode(&m.encode()).unwrap();
    assert_eq!(d.status, Some(Status::CdcStatus(cdc_status())));
}

#[test]
fn last_oneof_field_on_the_wire_wins() {
    let q = MirrorStatusResponse {
        flow_job_name: "job".to_string(),
        status: Some(Status::QrepStatus(qrep_status())),
        error_message: String::new(),
    };
    let c = MirrorStatusResponse {
        flow_job_name: String::new(),
        status: Some(Status::CdcStatus(cdc_status())),
        error_message: String::new(),
    };
    let mut bytes = q.encode();
    bytes.extend(c.encode());
    let d = MirrorStatusResponse::decode(&bytes).unwrap();
    assert_eq!(d.flow_job_name, "job");
    assert_eq!(d.status, Some(Status::CdcStatus(cdc_status())));

    let mut bytes = c.encode();
    bytes.extend(q.encode());
    let d = MirrorStatusResponse::decode(&bytes).unwrap();
    assert_eq!(d.status, Some(Status::QrepStatus(qrep_status())));
}

#[test]
fn every_message_round_trips() {
    let a = CreateCdcFlowRequest {
        connection_configs: Some(FlowConnectionConfigs { encoded: vec![1, 2, 3] }),
        create_catalog_entry: true,
    };
    assert_eq!(CreateCdcFlowRequest::decode(&a.encode()).unwrap(), a);
    let a = CreateQRepFlowRequest { qrep_config: Some(QRepConfig { encoded: vec![] }), create_catalog_entry: false };
    assert_eq!(CreateQRepFlowRequest::decode(&a.encode()).unwrap(), a);
    let a = CreateQRepFlowResponse { worflow_id: "wf-\u{e9}\u{1f600}".to_string() };
    assert_eq!(CreateQRepFlowResponse::decode(&a.encode()).unwrap(), a);
    let a = ShutdownRequest {
        workflow_id: "wf".to_string(),
        flow_job_name: "job".to_string(),
        source_peer: Some(peer(b"\x0a\x03src")),
        destination_peer: Some(peer(b"")),
    };
    assert_eq!(ShutdownRequest::decode(&a.encode()).unwrap(), a);
    let a = ValidatePeerRequest { peer: Some(peer(b"\x0a\x01p")) };
    assert_eq!(ValidatePeerRequest::decode(&a.encode()).unwrap(), a);
    let a = CreatePeerRequest { peer: None };
    assert_eq!(CreatePeerRequest::decode(&a.encode()).unwrap(), a);
    let a = ValidatePeerResponse { status: ValidatePeerStatus::Invalid as i32, message: "bad".to_string() };
    assert_eq!(ValidatePeerResponse::decode(&a.encode()).unwrap(), a);
    let a = CreatePeerResponse { status: CreatePeerStatus::Created as i32, message: String::new() };
    assert_eq!(CreatePeerResponse::decode(&a.encode()).unwrap(), a);
    let a = MirrorStatusRequest { flow_job_name: "job".to_string() };
    assert_eq!(MirrorStatusRequest::decode(&a.encode()).unwrap(), a);
    let a = qrep_status();
    assert_eq!(QRepMirrorStatus::decode(&a.encode()).unwrap(), a);
    let a = cdc_status();
    assert_eq!(CdcMirrorStatus::decode(&a.encode()).unwrap(), a);
    let a = MirrorStatusResponse {
        flow_job_name: "j".to_string(),
        status: Some(Status::QrepStatus(qrep_status())),
        error_message: "e".to_string(),
    };
    assert_eq!(MirrorStatusResponse::decode(&a.encode()).unwrap(), a);
    let a = MirrorStatusResponse::default();
    assert_eq!(MirrorStatusResponse::decode(&a.encode()).unwrap(), a);
}

#[test]
fn empty_nested_message_differs_from_absent() {
    let set = CdcMirrorStatus { snapshot_status: Some(SnapshotStatus::default()), ..Default::default() };
    let unset = CdcMirrorStatus::default();
    assert_eq!(set.encode(), vec![0x12, 0x00]);
    assert!(unset.encode().is_empty());
    assert_eq!(CdcMirrorStatus::decode(&set.encode()).unwrap(), set);
    assert_eq!(CdcMirrorStatus::decode(&unset.encode()).unwrap(), unset);
    let empty = SnapshotStatus { clones: vec![] };
    assert_eq!(SnapshotStatus::decode(&empty.encode()).unwrap().clones.len(), 0);
}

#[test]
fn defaults_encode_to_nothing() {
    assert!(ShutdownResponse::default().encode().is_empty());
    assert!(CdcSyncStatus::default().encode().is_empty());
    assert!(PartitionStatus::default().encode().is_empty());
    assert_eq!(ShutdownResponse::decode(&[]).unwrap(), ShutdownResponse::default());
}

#[test]
fn encodings_are_exact() {
    let m = ShutdownResponse { ok: true, error_message: "x".to_string() };
    assert_eq!(m.encode(), vec![0x08, 0x01, 0x12, 0x01, b'x']);
    let s = CdcSyncStatus { start_lsn: 300, num_rows: -1, ..Default::default() };
    let mut want = vec![0x08, 0xac, 0x02, 0x18];
    want.extend([0xff, 0xff, 0xff, 0xff, 0xff, 0xff, 0xff, 0xff, 0xff, 0x01]);
    assert_eq!(s.encode(), want);
}

#[test]
fn timestamp_encoding_matches_prost() {
    for (s, n) in [(0i64, 0i32), (1_700_000_000, 123), (-5, 999_999_999), (i64::MIN, i32::MIN)] {
        let theirs = pbjson_types::Timestamp { seconds: s, nanos: n }.encode_to_vec();
        assert_eq!(ts(s, n).encode(), theirs);
        assert_eq!(Timestamp::decode(&theirs).unwrap(), ts(s, n));
    }
}

#[test]
fn unknown_fields_are_skipped() {
    // field 9 as a varint, field 10 as 64-bit, field 11 as 32-bit, field 12 as bytes
    let mut bytes = vec![0x48, 0x05, 0x51, 1, 2, 3, 4, 5, 6, 7, 8, 0x5d, 1, 2, 3, 4, 0x62, 0x01, 0xff];
    bytes.extend(ShutdownResponse { ok: true, error_message: "m".to_string() }.encode());
    let d = ShutdownResponse::decode(&bytes).unwrap();
    assert!(d.ok);
    assert_eq!(d.error_message, "m");
}

#[test]
fn malformed_bytes_fail() {
    // truncated length-delimited field
    assert_eq!(ShutdownResponse::decode(&[0x12, 0x05, b'a']), Err(DecodeError));
    // varint cut short
    assert_eq!(ShutdownResponse::decode(&[0x08, 0x80]), Err(DecodeError));
    // a string field sent as a varint
    assert_eq!(ShutdownResponse::decode(&[0x10, 0x01]), Err(DecodeError));
    // a bool field sent as bytes
    assert_eq!(ShutdownResponse::decode(&[0x0a, 0x00]), Err(DecodeError));
    // not UTF-8
    assert_eq!(ShutdownResponse::decode(&[0x12, 0x01, 0xff]), Err(DecodeError));
    // field number zero
    assert_eq!(ShutdownResponse::decode(&[0x00, 0x01]), Err(DecodeError));
    // nested message that is not well formed
    assert_eq!(CdcMirrorStatus::decode(&[0x12, 0x01, 0x0a]), Err(DecodeError));
}

#[test]
fn repeated_scalar_takes_last_and_nested_merges() {
    // error_message twice: the last one stands
    let bytes = [0x12, 0x01, b'a', 0x12, 0x01, b'b'];
    assert_eq!(ShutdownResponse::decode(&bytes).unwrap().error_message, "b");
    // start_time twice: seconds from the first, nanos from the second
    let bytes = [0x12, 0x02, 0x08, 0x07, 0x12, 0x02, 0x10, 0x09];
    let p = PartitionStatus::decode(&bytes).unwrap();
    assert_eq!(p.start_time, Some(ts(7, 9)));
}

#[test]
fn unknown_groups_are_skipped() {
    // field 9 as a group holding a varint field and a nested group, then its end
    let mut bytes = vec![0x4b, 0x08, 0x01, 0x53, 0x54, 0x4c];
    bytes.extend(ShutdownResponse { ok: true, error_message: "g".to_string() }.encode());
    let d = ShutdownResponse::decode(&bytes).unwrap();
    assert!(d.ok);
    assert_eq!(d.error_message, "g");
    // a group whose end key names another field
    assert_eq!(ShutdownResponse::decode(&[0x4b, 0x54]), Err(DecodeError));
    // an end key with no group open
    assert_eq!(ShutdownResponse::decode(&[0x4c]), Err(DecodeError));
    // a group that never ends
    assert_eq!(ShutdownResponse::decode(&[0x4b, 0x08, 0x01]), Err(DecodeError));
}

#[test]
fn known_field_with_fixed_width_type_fails() {
    // field 1 (a bool) sent as fixed 64 bits
    assert_eq!(ShutdownResponse::decode(&[0x09, 1, 0, 0, 0, 0, 0, 0, 0]), Err(DecodeError));
    // field 2 (a string) sent as fixed 32 bits
    assert_eq!(ShutdownResponse::decode(&[0x15, 1, 0, 0, 0]), Err(DecodeError));
    // fixed 32 bits cut short
    assert_eq!(ShutdownResponse::decode(&[0x5d, 1, 2]), Err(DecodeError));
}

#[test]
fn status_numbers_map_to_values() {
    assert_eq!(ValidatePeerStatus::from_i32(0), Some(ValidatePeerStatus::CreationUnknown));
    assert_eq!(ValidatePeerStatus::from_i32(1), Some(ValidatePeerStatus::Valid));
    assert_eq!(ValidatePeerStatus::from_i32(2), Some(ValidatePeerStatus::Invalid));
    assert_eq!(ValidatePeerStatus::from_i32(3), None);
    assert_eq!(ValidatePeerStatus::from_i32(-1), None);
    assert!(ValidatePeerStatus::is_valid(2));
    assert!(!ValidatePeerStatus::is_valid(7));
    assert_eq!(CreatePeerStatus::from_i32(1), Some(CreatePeerStatus::Created));
    assert_eq!(CreatePeerStatus::from_i32(2), Some(CreatePeerStatus::Failed));
    assert_eq!(CreatePeerStatus::from_i32(i32::MAX), None);
    assert!(CreatePeerStatus::is_valid(0));
    assert!(!CreatePeerStatus::is_valid(-3));
    // a response whose status names no value still reads back with that number
    let r = ValidatePeerResponse::decode(&ValidatePeerResponse { status: 9, message: String::new() }.encode()).unwrap();
    assert_eq!(ValidatePeerStatus::from_i32(r.status), None);
    assert_eq!(r.status, 9);
}
