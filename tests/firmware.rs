use myscontroller_rs::firmware::{checksum, FirmwareImage, BLOCK_SIZE};
use myscontroller_rs::intelhex::{load_image, LoadError};
use myscontroller_rs::interceptor::Endpoint;
use myscontroller_rs::ota::{ConfigReply, FirmwareCatalog, OtaManager, OtaState};
use myscontroller_rs::proxy::Proxy;

fn lines(ls: &[&str]) -> Vec<String> {
    ls.iter().map(|l| l.to_string()).collect()
}

const R0: &str = ":10000000000102030405060708090A0B0C0D0E0F78";
const R1: &str = ":10001000101112131415161718191A1B1C1D1E1F68";
const R2: &str = ":080020002021222324252627BC";
const EOF: &str = ":00000001FF";

fn catalog_with_image() -> FirmwareCatalog {
    let img = FirmwareImage::new(10, 3, (0u8..40).collect()).ok().unwrap();
    let mut cat = FirmwareCatalog::new();
    cat.add(img);
    cat
}

#[test]
fn crc16_check_value() {
    assert_eq!(checksum(&b"123456789".to_vec()), 0x4b37);
}

#[test]
fn image_is_padded_to_whole_blocks() {
    let img = FirmwareImage::new(10, 3, (0u8..40).collect()).ok().unwrap();
    assert_eq!(img.blocks(), 3);
    assert_eq!(img.block(2), vec![32, 33, 34, 35, 36, 37, 38, 39, 0xff, 0xff, 0xff, 0xff, 0xff, 0xff, 0xff, 0xff]);
    assert_eq!(img.crc(), 0x1c0d);
    assert_eq!(BLOCK_SIZE, 16);
    assert!(FirmwareImage::new(1, 1, Vec::new()).is_err());
}

#[test]
fn loads_image_from_hex_records_in_any_order() {
    let img = load_image(10, 3, &lines(&[R2, R0, "", R1, EOF])).ok().unwrap();
    assert_eq!(img.blocks(), 3);
    assert_eq!(img.block(0), (0u8..16).collect::<Vec<u8>>());
    assert_eq!(img.block(1), (16u8..32).collect::<Vec<u8>>());
    assert_eq!(img.crc(), 0x1c0d);
}

#[test]
fn small_gap_is_filled() {
    let img = load_image(1, 1, &lines(&[R0, ":10001400101112131415161718191A1B1C1D1E1F64", EOF]))
        .ok()
        .unwrap();
    assert_eq!(img.blocks(), 3);
    assert_eq!(img.block(1), vec![0xff, 0xff, 0xff, 0xff, 16, 17, 18, 19, 20, 21, 22, 23, 24, 25, 26, 27]);
    assert_eq!(img.crc(), 0xeb72);
}

#[test]
fn large_gap_fails_the_load() {
    let r = load_image(1, 1, &lines(&[R0, ":080028002021222324252627B4", EOF]));
    assert_eq!(r.err(), Some(LoadError::Gap));
}

#[test]
fn bad_record_fails_the_load() {
    let r = load_image(1, 1, &lines(&[R0, ":10001000101112131415161718191A1B1C1D1E1F00"]));
    assert_eq!(r.err(), Some(LoadError::BadRecord));
    assert_eq!(load_image(1, 1, &lines(&[EOF])).err(), Some(LoadError::Empty));
}

#[test]
fn records_after_end_of_file_are_ignored() {
    let img = load_image(1, 1, &lines(&[R0, EOF, ":080028002021222324252627B4"])).ok().unwrap();
    assert_eq!(img.blocks(), 1);
}

#[test]
fn catalog_lookup() {
    let cat = catalog_with_image();
    assert_eq!(cat.find(10, 3), Some(0));
    assert_eq!(cat.find(10, 4), None);
}

#[test]
fn streaming_serves_blocks_and_completes() {
    let cat = catalog_with_image();
    let mut ota = OtaManager::new(60);
    assert_eq!(ota.config_request(&cat, 7, 10, 3, 0), ConfigReply::Offer { blocks: 3, crc: 0x1c0d });
    let s = ota.session(7).unwrap();
    assert_eq!(s.state, OtaState::Streaming);
    assert_eq!(s.next_expected_block, 0);
    let b0 = ota.block_request(&cat, 7, 10, 3, 0, 1).unwrap();
    assert_eq!(b0, (0u8..16).collect::<Vec<u8>>());
    let again = ota.block_request(&cat, 7, 10, 3, 0, 2).unwrap();
    assert_eq!(again, b0);
    assert_eq!(ota.session(7).unwrap().next_expected_block, 1);
    ota.block_request(&cat, 7, 10, 3, 1, 3).unwrap();
    ota.block_request(&cat, 7, 10, 3, 2, 4).unwrap();
    let s = ota.session(7).unwrap();
    assert_eq!(s.state, OtaState::Completed);
    assert_eq!(s.next_expected_block, 3);
    // a duplicate tail request is still answered
    assert!(ota.block_request(&cat, 7, 10, 3, 2, 5).is_some());
}

#[test]
fn request_beyond_counter_aborts() {
    let cat = catalog_with_image();
    let mut ota = OtaManager::new(60);
    ota.config_request(&cat, 7, 10, 3, 0);
    assert!(ota.block_request(&cat, 7, 10, 3, 2, 1).is_none());
    assert!(ota.session(7).is_none());
    assert!(ota.block_request(&cat, 7, 10, 3, 0, 2).is_none());
}

#[test]
fn no_catalog_entry_means_no_update_and_no_session() {
    let cat = FirmwareCatalog::new();
    let mut ota = OtaManager::new(60);
    assert_eq!(ota.config_request(&cat, 7, 10, 3, 0), ConfigReply::NoUpdate);
    assert!(ota.session(7).is_none());
}

#[test]
fn idle_session_expires_and_restarts() {
    let cat = catalog_with_image();
    let mut ota = OtaManager::new(60);
    ota.config_request(&cat, 7, 10, 3, 0);
    ota.block_request(&cat, 7, 10, 3, 0, 10).unwrap();
    ota.expire(70);
    assert!(ota.session(7).is_some());
    ota.expire(71);
    assert!(ota.session(7).is_none());
    ota.config_request(&cat, 7, 10, 3, 80);
    assert_eq!(ota.session(7).unwrap().next_expected_block, 0);
}

#[test]
fn firmware_config_request_without_image_replies_no_update() {
    let mut proxy = Proxy::new(FirmwareCatalog::new(), 60);
    let out = proxy
        .handle_line(b"7;255;3;0;0;0A000300000000000000\n", Endpoint::Gateway, 0)
        .ok()
        .unwrap();
    assert!(out.events.is_empty());
    assert_eq!(out.outbound.len(), 1);
    assert_eq!(out.outbound[0].to, Endpoint::Gateway);
    assert_eq!(out.outbound[0].line, b"7;255;3;0;1;0A00030000000000\n".to_vec());
    assert!(proxy.session(7).is_none());
}

#[test]
fn firmware_exchange_through_the_proxy() {
    let mut proxy = Proxy::new(catalog_with_image(), 60);
    let out = proxy
        .handle_line(b"7;255;3;0;0;0a000300000000000000\n", Endpoint::Gateway, 0)
        .ok()
        .unwrap();
    assert_eq!(out.outbound[0].line, b"7;255;3;0;1;0A00030003000D1C\n".to_vec());
    let out = proxy.handle_line(b"7;255;4;0;2;0A0003000000\n", Endpoint::Gateway, 1).ok().unwrap();
    assert_eq!(
        out.outbound[0].line,
        b"7;255;4;0;3;0A0003000000000102030405060708090A0B0C0D0E0F\n".to_vec()
    );
    assert_eq!(proxy.session(7).unwrap().next_expected_block, 1);
}

#[test]
fn bad_hex_payload_is_ignored() {
    let mut proxy = Proxy::new(catalog_with_image(), 60);
    let out = proxy.handle_line(b"7;255;3;0;0;0G00\n", Endpoint::Gateway, 0).ok().unwrap();
    assert!(out.outbound.is_empty());
    assert!(proxy.session(7).is_none());
}
