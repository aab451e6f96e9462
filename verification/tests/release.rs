use manifest_browser::progress::{is_in_order, parse_progress};
use manifest_browser::release::{
    bundle_base_url, manifest_file_name, manifest_id, manifest_url, plan_fetch, unpack, unpacked,
    FetchPlan, Payload, UnpackError, MANIFESTS_DIR,
};

fn failure(cause: &str) -> UnpackError {
    UnpackError::Decompress { cause: cause.to_string() }
}

#[test]
fn manifests_have_names_and_addresses() {
    assert_eq!(MANIFESTS_DIR, "manifests");
    assert_eq!(manifest_file_name(0xab), "00000000000000AB.manifest");
    assert_eq!(manifest_file_name(u64::MAX), "FFFFFFFFFFFFFFFF.manifest");
    assert_eq!(
        manifest_url("lol", 0x1234567890abcdef),
        "https://lol.secure.dyn.riotcdn.net/channels/public/releases/1234567890ABCDEF.manifest"
    );
    assert_eq!(bundle_base_url("valorant"), "https://valorant.secure.dyn.riotcdn.net/channels/public");
}

#[test]
fn manifest_ids_are_hexadecimal() {
    assert_eq!(manifest_id("1234567890ABCDEF"), 0x1234567890abcdef);
    assert_eq!(manifest_id("ff"), 255);
    assert_eq!(manifest_id("not hex"), 0);
    assert_eq!(manifest_id(""), 0);
    assert_eq!(manifest_id(&manifest_file_name(77)[..16]), 77);
}

#[test]
fn manifests_on_disk_are_not_downloaded() {
    match plan_fetch(1, "lol", true) {
        FetchPlan::Read { file } => assert_eq!(file, "0000000000000001.manifest"),
        FetchPlan::Download { .. } => panic!("downloads"),
    }
    match plan_fetch(1, "lol", false) {
        FetchPlan::Download { url, keep_as } => {
            assert_eq!(url, manifest_url("lol", 1));
            assert_eq!(keep_as, "0000000000000001.manifest");
        }
        FetchPlan::Read { .. } => panic!("reads"),
    }
}

#[test]
fn payloads_are_unpacked() {
    let content: Vec<u8> = (0..5000u32).map(|i| (i % 7) as u8).collect();
    let packed = zstd::bulk::compress(&content, 3).unwrap();
    let payload = Payload { compressed_data: packed, uncompressed_size: content.len() };
    assert_eq!(unpack(&payload), Ok(content));
}

#[test]
fn payloads_that_understate_their_length_are_refused() {
    let content: Vec<u8> = vec![7; 1_000_000];
    let packed = zstd::bulk::compress(&content, 3).unwrap();
    let payload = Payload { compressed_data: packed, uncompressed_size: 10 };
    assert_eq!(unpack(&payload), Err(failure("Destination buffer is too small")));
}

#[test]
fn payloads_may_overstate_their_length() {
    let packed = zstd::bulk::compress(b"manifest", 3).unwrap();
    let payload = Payload { compressed_data: packed, uncompressed_size: 1000 };
    assert_eq!(unpack(&payload), Ok(b"manifest".to_vec()));
}

#[test]
fn broken_payloads_are_refused() {
    let short = Payload { compressed_data: vec![1, 2, 3, 4, 5], uncompressed_size: 100 };
    assert_eq!(unpack(&short), Err(failure("Src size is incorrect")));
    let foreign = Payload { compressed_data: vec![1; 32], uncompressed_size: 100 };
    assert_eq!(unpack(&foreign), Err(failure("Unknown frame descriptor")));
    assert_eq!(failure("x").message(), "Failed to decompress RMAN payload");
}

#[test]
fn written_bytes_are_taken_from_the_buffer() {
    assert_eq!(unpacked(vec![1, 2, 3], Ok(2)), Ok(vec![1, 2]));
    assert_eq!(unpacked(vec![1, 2, 3], Ok(0)), Ok(vec![]));
    assert_eq!(unpacked(vec![1, 2, 3], Err("no".to_string())), Err(failure("no")));
}

#[test]
fn payloads_unpack_the_same_each_time() {
    let packed = zstd::bulk::compress(b"manifest manifest", 3).unwrap();
    let payload = Payload { compressed_data: packed.clone(), uncompressed_size: 17 };
    let again = Payload { compressed_data: packed, uncompressed_size: 17 };
    assert_eq!(unpack(&payload), Ok(b"manifest manifest".to_vec()));
    assert_eq!(unpack(&payload), unpack(&again));
}

#[test]
fn progress_messages_are_read() {
    let text = "\"[ 42.5%] 12/30 files | Speed: 3.75 MB/s | ETA: 00:12 | done\"";
    assert!(is_in_order(text));
    let p = parse_progress(text).unwrap();
    assert_eq!(p.percent, "42.5");
    assert_eq!(p.speed, "3.75 MB/s");
    assert_eq!(p.eta, "00:12");
    assert_eq!(p.status, "[ 42.5%] 12/30 files | Speed: 3.75 MB/s | ETA: 00:12 | done");
}

#[test]
fn progress_messages_may_lack_speed_and_time() {
    let p = parse_progress("[7%] Speed: fast").unwrap();
    assert_eq!(p.percent, "7");
    assert_eq!(p.speed, "0.00 MB/s");
    assert_eq!(p.eta, "--:--");
    let p = parse_progress("[7%] MB/s ETA: 5").unwrap();
    assert_eq!(p.speed, "0.00 MB/s");
    assert_eq!(p.eta, "--:--");
}

#[test]
fn other_messages_say_nothing() {
    assert!(parse_progress("").is_none());
    assert!(parse_progress("50%").is_none());
    assert!(parse_progress("[50").is_none());
}

#[test]
fn messages_out_of_order_are_recognised() {
    assert!(!is_in_order("5% ["));
    assert!(!is_in_order("[5%] MB/s Speed:"));
    assert!(is_in_order("[%"));
    assert!(is_in_order("[5%] Speed:MB/s"));
    assert!(is_in_order("MB/s Speed:"));
    assert_eq!(parse_progress("[%").unwrap().percent, "");
}

#[test]
fn kept_manifests_are_read_back() {
    let kept = match plan_fetch(0xfeed, "lol", false) {
        FetchPlan::Download { keep_as, .. } => keep_as,
        FetchPlan::Read { .. } => panic!("reads"),
    };
    match plan_fetch(0xfeed, "valorant", true) {
        FetchPlan::Read { file } => assert_eq!(file, kept),
        FetchPlan::Download { .. } => panic!("downloads"),
    }
}

#[test]
fn percentage_stands_between_bracket_and_sign() {
    let p = parse_progress("busy [ 3.25 % of 9%]").unwrap();
    assert_eq!(p.percent, "3.25");
    assert_eq!(p.status, "busy [ 3.25 % of 9%]");
}

#[test]
fn unpacking_agrees_with_bulk_decompression() {
    let content: Vec<u8> = (0..300_000u32).map(|i| (i * i / 7 % 251) as u8).collect();
    let packed = zstd::bulk::compress(&content, 3).unwrap();
    let mut damaged = packed.clone();
    let middle = damaged.len() / 2;
    damaged[middle] ^= 0x55;
    let bodies = vec![packed.clone(), packed[..packed.len() - 3].to_vec(), damaged, Vec::new()];
    for body in bodies {
        for size in [0usize, 1, 1000, 299_999, 300_000, 300_001, 1_000_000] {
            let payload = Payload { compressed_data: body.clone(), uncompressed_size: size };
            let expected = zstd::bulk::decompress(&body, size);
            match unpack(&payload) {
                Ok(bytes) => assert_eq!(bytes, expected.unwrap()),
                Err(UnpackError::Decompress { cause }) => {
                    assert_eq!(cause, expected.unwrap_err().to_string())
                }
            }
        }
    }
}
