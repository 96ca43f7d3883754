use nat_common::chat_protocol::{calculate_len_by_data, ChatCommand, Protocol, ProtocolField};
use nat_common::codec::{decode_login_request, encode_login_request, LoginReqData};
use nat_common::protocol_factory::{HandleProtocolData, HandleProtocolFactory, LoginReqHandler};
use nat_common::server::{
    login_response, registry_account_reply, MyError, PageParams, ServerEnvConfig,
    ServerLoginReqHandler, TcpSocketConfig, UserInfoModel, PAGE_SIZE,
};
use nat_common::session::{
    create_login_data, fill, get_local_addres_from_config, handle_pkg, route_pkg, take_frames,
    EnvConfig,
};

fn sample_config() -> EnvConfig {
    EnvConfig::new(
        "127.0.0.1".to_string(),
        "19999".to_string(),
        "127.0.0.1:9999".to_string(),
        "admin".to_string(),
        "123456".to_string(),
        "v1.0".to_string(),
    )
}

fn frame(version: &[u8], code: u8, data: &[u8]) -> Vec<u8> {
    let mut v = version.to_vec();
    v.push(code);
    v.extend_from_slice(&(data.len() as u32).to_be_bytes());
    v.extend_from_slice(data);
    v
}

#[test]
fn test_create_login_data() {
    let config = sample_config();
    let data = create_login_data(&config);
    assert!(data.len() > 0);
}

#[test]
fn login_data_has_exact_layout() {
    let config = sample_config();
    let data = create_login_data(&config);
    let payload = bincode::serialize(&("admin".to_string(), "123456".to_string())).unwrap();
    assert_eq!(payload.len(), 8 + 5 + 8 + 6);
    let expected = frame(b"v1.0", 1, &payload);
    assert_eq!(data, expected);
}

#[test]
fn login_data_reads_back_as_one_frame() {
    let config = sample_config();
    let data = create_login_data(&config);
    let mut pkg = Protocol::create_new();
    let used = fill(&mut pkg, &data, 0, data.len());
    assert_eq!(used, data.len());
    assert!(pkg.completion());
    assert_eq!(pkg.data_type, Some(vec![1]));
    let req = decode_login_request(pkg.data.as_ref().unwrap()).unwrap();
    assert_eq!(req.account, "admin");
    assert_eq!(req.pwd, "123456");
}

#[test]
fn login_request_roundtrip() {
    let req = LoginReqData { account: "zhang san".to_string(), pwd: "pässwörd".to_string() };
    let bytes = encode_login_request(&req);
    assert_eq!(bytes, bincode::serialize(&("zhang san", "pässwörd")).unwrap());
    let mut longer = bytes.clone();
    longer.extend_from_slice(&[1, 2, 3]);
    let back = decode_login_request(&longer).unwrap();
    assert_eq!(back.account, "zhang san");
    assert_eq!(back.pwd, "pässwörd");
}

#[test]
fn login_request_rejects_short_or_bad_bytes() {
    let req = LoginReqData { account: "a".to_string(), pwd: "b".to_string() };
    let bytes = encode_login_request(&req);
    assert!(decode_login_request(&bytes[..bytes.len() - 1].to_vec()).is_none());
    assert!(decode_login_request(&vec![]).is_none());
    let mut bad = vec![1, 0, 0, 0, 0, 0, 0, 0, 0xff];
    bad.extend_from_slice(&[0; 8]);
    assert!(decode_login_request(&bad).is_none());
}

#[test]
fn fill_leaves_complete_frame_alone() {
    let bytes = frame(b"abcd", 2, &[5, 6]);
    let mut pkg = Protocol::create_new();
    assert_eq!(fill(&mut pkg, &bytes, 0, bytes.len()), bytes.len());
    assert_eq!(fill(&mut pkg, &bytes, 3, bytes.len()), 3);
    assert_eq!(pkg.to_vec(), bytes);
}

#[test]
fn fill_stops_at_end_of_frame() {
    let mut bytes = frame(b"abcd", 2, &[5, 6, 7]);
    let first = bytes.len();
    bytes.extend_from_slice(&frame(b"efgh", 1, &[9]));
    let mut pkg = Protocol::create_new();
    let used = fill(&mut pkg, &bytes, 0, bytes.len());
    assert_eq!(used, first);
    assert_eq!(pkg.data, Some(vec![5, 6, 7]));
    let mut second = Protocol::create_new();
    let end = fill(&mut second, &bytes, used, bytes.len());
    assert_eq!(end, bytes.len());
    assert_eq!(second.version, Some(b"efgh".to_vec()));
}

#[test]
fn fill_completes_partly_received_frame() {
    let bytes = frame(b"abcd", 2, &[5, 6, 7]);
    let mut pkg = Protocol::create_new();
    pkg.fill_field(&ProtocolField::Version, bytes[0..2].to_vec());
    let used = fill(&mut pkg, &bytes, 2, bytes.len());
    assert_eq!(used, bytes.len());
    assert_eq!(pkg.to_vec(), bytes);
}

#[test]
fn field_checks_and_sizes() {
    let mut pkg = Protocol::create_new();
    assert!(!pkg.check_field_fill(&ProtocolField::Version));
    assert_eq!(pkg.get_diff_size(&ProtocolField::Version), 4);
    pkg.fill_field(&ProtocolField::Version, vec![1, 2, 3]);
    assert_eq!(pkg.get_diff_size(&ProtocolField::Version), 1);
    pkg.fill_field(&ProtocolField::Version, vec![4]);
    assert!(pkg.check_field_fill(&ProtocolField::Version));
    pkg.fill_field(&ProtocolField::DataType, vec![1]);
    pkg.fill_field(&ProtocolField::DataLen, vec![0, 0, 1, 0]);
    assert!(!pkg.check_field_fill(&ProtocolField::Data));
    assert_eq!(pkg.get_diff_size(&ProtocolField::Data), 256);
    assert!(!pkg.completion());
    assert_eq!(
        Protocol::get_all_filed_name(),
        vec![ProtocolField::Version, ProtocolField::DataType, ProtocolField::DataLen, ProtocolField::Data]
    );
}

#[test]
fn empty_payload_frame_is_complete_after_header() {
    let bytes = frame(b"abcd", 1, &[]);
    let mut pending = Protocol::create_new();
    let frames = take_frames(&mut pending, &bytes);
    assert_eq!(frames.len(), 1);
    assert!(frames[0].completion());
    assert_eq!(frames[0].to_vec(), bytes);
    assert_eq!(pending.to_vec(), Vec::<u8>::new());
}

#[test]
fn take_frames_cuts_consecutive_frames() {
    let a = frame(b"abcd", 1, &[1, 2, 3]);
    let b = frame(b"efgh", 2, &[]);
    let c = frame(b"ijkl", 1, &[4; 300]);
    let mut all = a.clone();
    all.extend_from_slice(&b);
    all.extend_from_slice(&c);
    all.extend_from_slice(&[9, 9, 9, 9, 2, 0]);
    let mut pending = Protocol::create_new();
    let frames = take_frames(&mut pending, &all);
    assert_eq!(frames.len(), 3);
    assert_eq!(frames[0].to_vec(), a);
    assert_eq!(frames[1].to_vec(), b);
    assert_eq!(frames[2].to_vec(), c);
    assert_eq!(pending.to_vec(), vec![9, 9, 9, 9, 2, 0]);
    assert!(!pending.completion());
}

#[test]
fn take_frames_continues_pending_frame() {
    let a = frame(b"abcd", 1, &[1, 2, 3, 4, 5]);
    let mut pending = Protocol::create_new();
    let first = take_frames(&mut pending, &a[..7].to_vec());
    assert!(first.is_empty());
    let second = take_frames(&mut pending, &a[7..].to_vec());
    assert_eq!(second.len(), 1);
    assert_eq!(second[0].to_vec(), a);
    assert_eq!(pending.to_vec(), Vec::<u8>::new());
}

#[test]
fn take_frames_hands_out_already_complete_pending() {
    let a = frame(b"abcd", 2, &[8]);
    let mut pending = Protocol::create_new();
    let mut unused = Protocol::create_new();
    fill(&mut pending, &a, 0, a.len());
    let frames = take_frames(&mut pending, &vec![]);
    assert_eq!(frames.len(), 1);
    assert_eq!(frames[0].to_vec(), a);
    assert_eq!(pending.to_vec(), unused.to_vec());
    unused.fill_field(&ProtocolField::Version, vec![]);
}

#[test]
fn length_field_is_big_endian() {
    assert_eq!(calculate_len_by_data(&vec![0; 258]), vec![0, 0, 1, 2]);
    assert_eq!(calculate_len_by_data(&vec![]), vec![0, 0, 0, 0]);
}

#[test]
fn command_codes() {
    assert_eq!(ChatCommand::LoginReq.to_data_type(), vec![1]);
    assert_eq!(ChatCommand::LoginResp.to_data_type(), vec![2]);
    assert_eq!(ChatCommand::to_self(1), Some(ChatCommand::LoginReq));
    assert_eq!(ChatCommand::to_self(2), Some(ChatCommand::LoginResp));
    assert_eq!(ChatCommand::to_self(3), None);
}

struct Echo;

impl HandleProtocolData for Echo {
    fn handle(&self, a: &Vec<u8>) -> Option<Vec<u8>> {
        Some(a.clone())
    }
}

#[test]
fn factory_registers_and_finds_handlers() {
    let mut factory: HandleProtocolFactory<u32> = HandleProtocolFactory::new();
    factory.registry_handler(ChatCommand::LoginReq, 7);
    factory.registry_handler(ChatCommand::LoginResp, 8);
    assert_eq!(*factory.get_handler(&ChatCommand::LoginReq), 7);
    factory.registry_handler(ChatCommand::LoginReq, 9);
    assert_eq!(*factory.get_handler(&ChatCommand::LoginReq), 9);
    assert_eq!(*factory.get_handler(&ChatCommand::LoginResp), 8);
}

#[test]
fn handle_pkg_dispatches_by_command() {
    let bytes = frame(b"abcd", 2, &[3, 4]);
    let mut pkg = Protocol::create_new();
    fill(&mut pkg, &bytes, 0, bytes.len());
    let mut factory: HandleProtocolFactory<Echo> = HandleProtocolFactory::new();
    factory.registry_handler(ChatCommand::LoginResp, Echo);
    assert_eq!(handle_pkg(&pkg, &factory), Some(vec![3, 4]));
    let mut quiet: HandleProtocolFactory<LoginReqHandler> = HandleProtocolFactory::new();
    quiet.registry_handler(ChatCommand::LoginResp, LoginReqHandler {});
    assert_eq!(handle_pkg(&pkg, &quiet), None);
    assert_eq!(ServerLoginReqHandler {}.handle(&vec![1]), None);
    let (handler, data) = route_pkg(&pkg, &factory);
    assert_eq!(data, vec![3, 4]);
    assert_eq!(handler.handle(&vec![6]), Some(vec![6]));
}

#[test]
fn local_address_joins_host_and_port() {
    let config = sample_config();
    assert_eq!(get_local_addres_from_config(&config), "127.0.0.1:19999");
    let socket = TcpSocketConfig::new("0.0.0.0".to_string(), "9999".to_string());
    assert_eq!(socket.get_url(), "0.0.0.0:9999");
    let server = ServerEnvConfig::new(
        "0.0.0.0".to_string(),
        "9999".to_string(),
        "localhost".to_string(),
        "8080".to_string(),
        "mysql://x".to_string(),
    );
    assert_eq!(server.web_url(), "localhost:8080");
    assert_eq!(server.socket_config.get_url(), "0.0.0.0:9999");
    assert_eq!(server.database_url, "mysql://x");
}

#[test]
fn page_params_defaults() {
    let none = PageParams { page_index: None, page_size: None };
    assert_eq!(none.page_index_or_default(), 1);
    assert_eq!(none.page_size_or_default(), PAGE_SIZE);
    assert_eq!(PAGE_SIZE, 5);
    let some = PageParams { page_index: Some(3), page_size: Some(20) };
    assert_eq!(some.page_index_or_default(), 3);
    assert_eq!(some.page_size_or_default(), 20);
}

#[test]
fn login_response_reports_lookup() {
    let user = UserInfoModel { id: 1, name: "a".to_string(), pwd: "b".to_string() };
    let ok = login_response(Ok(Some(user)));
    assert_eq!(ok.biz_type, ChatCommand::LoginResp);
    assert!(ok.flg);
    assert!(ok.err.is_none());
    assert_eq!(ok.result.as_ref().unwrap().as_ref().unwrap().id, 1);
    let missing = login_response(Ok(None));
    assert!(missing.flg);
    assert!(matches!(missing.result, Some(None)));
    let failed = login_response(Err("db down".to_string()));
    assert!(!failed.flg);
    assert!(failed.result.is_none());
    assert_eq!(failed.err, Some("db down".to_string()));
}

#[test]
fn web_errors() {
    assert_eq!(MyError::InternalError.status_code(), 500);
    assert_eq!(MyError::BadClientData.status_code(), 400);
    assert_eq!(MyError::Timeout.status_code(), 504);
    let v = MyError::ValidationError { field: "name".to_string() };
    assert_eq!(v.status_code(), 400);
    assert_eq!(MyError::InternalError.message(), "internal error");
    assert_eq!(MyError::BadClientData.message(), "bad request");
    assert_eq!(MyError::Timeout.message(), "timeout");
    assert_eq!(v.message(), "Validation error on field: name");
    assert_eq!(registry_account_reply(&"li".to_string()), "registry Successful! name:li!");
}

#[test]
fn frames_in_pieces_match_frames_at_once() {
    let mut all = frame(b"abcd", 1, &[1, 2, 3]);
    all.extend_from_slice(&frame(b"efgh", 2, &[]));
    all.extend_from_slice(&frame(b"ijkl", 1, &[7; 20]));
    all.extend_from_slice(&[1, 2, 3]);
    let mut pending = Protocol::create_new();
    let at_once: Vec<Vec<u8>> = take_frames(&mut pending, &all).iter().map(|f| f.to_vec()).collect();
    let rest_at_once = pending.to_vec();
    for cut in 0..=all.len() {
        let mut pending = Protocol::create_new();
        let mut frames: Vec<Vec<u8>> =
            take_frames(&mut pending, &all[..cut].to_vec()).iter().map(|f| f.to_vec()).collect();
        frames.extend(take_frames(&mut pending, &all[cut..].to_vec()).iter().map(|f| f.to_vec()));
        assert_eq!(frames, at_once);
        assert_eq!(pending.to_vec(), rest_at_once);
    }
    assert_eq!(at_once.len(), 3);
    assert_eq!(rest_at_once, vec![1, 2, 3]);
}
