use bip110_crawler::json::Json;
use bip110_crawler::rpc::{
    analyze_block, base64_encode, basic_auth_header, block_count, block_hash_bytes, block_info,
    block_stats, block_txids, chain_tips, coinbase_sig, first_of_period, network_info,
    parse_coinbase_tag, peer_info, read_hex_pair, recent_heights, rpc_result, signals_bit,
    tip_height, BlockPayload, HashError, RpcReply, SignalScan,
};

fn text(s: &str) -> Json {
    Json::Text(s.to_string())
}

fn num(n: i64) -> Json {
    Json::Number(Some(n))
}

fn obj(fields: Vec<(&str, Json)>) -> Json {
    Json::Object(fields.into_iter().map(|(k, v)| (k.to_string(), v)).collect())
}

fn coinbase_hex(tag: &str) -> String {
    let mut s = String::from("03a1b2c300");
    for b in tag.bytes() {
        s.push_str(&format!("{b:02x}"));
    }
    s.push_str("00deadbeef");
    s
}

#[test]
fn coinbase_tag_is_unwrapped_from_its_slash_delimiters() {
    let t = |tag: &str| parse_coinbase_tag(&coinbase_hex(tag));

    assert_eq!(t("/Foundry USA Pool #dropgold/"), "Foundry USA Pool #dropgold");
    assert_eq!(t(&format!("/{}/", "x".repeat(50))), "x".repeat(32));
    assert_eq!(t("/slush/"), "slush");
    assert_eq!(t("/ViaBTC/Mined by someminer123/"), "ViaBTC");
    assert_eq!(t("/F2Pool/Mined by user/"), "F2Pool");
    assert_eq!(t("Mined by AntPool"), "Mined by AntPool");
    assert_eq!(t("BTC.COM"), "BTC.COM");
    assert_eq!(parse_coinbase_tag("03a1b2c300ff"), "");
    assert_eq!(parse_coinbase_tag(""), "");
}

fn block(txs: Vec<Json>) -> Json {
    let mut all = vec![obj(vec![
        ("weight", num(800)),
        ("vin", Json::Array(vec![obj(vec![("coinbase", text("03abcdef"))])])),
        ("vout", Json::Array(vec![])),
    ])];
    all.extend(txs);
    obj(vec![("tx", Json::Array(all))])
}

fn tx(weight: i64, witness: Vec<&str>, spks: Vec<&str>) -> Json {
    let items: Vec<Json> = witness.into_iter().map(text).collect();
    let outs: Vec<Json> = spks
        .into_iter()
        .map(|h| obj(vec![("scriptPubKey", obj(vec![("hex", text(h))]))]))
        .collect();
    obj(vec![
        ("weight", num(weight)),
        ("vin", Json::Array(vec![obj(vec![("txinwitness", Json::Array(items))])])),
        ("vout", Json::Array(outs)),
    ])
}

fn classify(v: &Json) -> BlockPayload {
    analyze_block(v).unwrap()
}

#[test]
fn detects_inscriptions_runes_and_opreturn() {
    let insc_witness = format!("20{}0063036f7264510b48656c6c6f21", "ab".repeat(32));
    let b = block(vec![
        tx(1200, vec![&insc_witness], vec!["0014abcdabcdabcdabcdabcdabcdabcdabcdabcdabcd"]),
        tx(600, vec![], vec!["6a5d0714c0a233c0843d"]),
        tx(700, vec![], vec!["6a4c50", "0014ffffffffffffffffffffffffffffffffffffffff"]),
        tx(560, vec!["3045022100"], vec!["0014deadbeefdeadbeefdeadbeefdeadbeefdeadbeef"]),
    ]);
    let p = classify(&b);

    assert_eq!(p.tx_total, 4, "coinbase excluded");
    assert_eq!(p.insc_count, 1);
    assert_eq!(p.rune_count, 1, "6a5d is a runestone, not generic OP_RETURN");
    assert_eq!(p.data_count, 1, "6a4c50 is a plain data carrier, not a rune");
    assert_eq!(p.payload_tx_count, 3, "the plain payment carries nothing");
    assert_eq!(p.payload_weight, 1200 + 600 + 700);
    assert_eq!(p.bip110_reject_count, 1);
    assert_eq!(p.bip110_reject_weight, 1200);
}

#[test]
fn oversized_witness_push_counts_as_a_bip110_reject() {
    let big = "cd".repeat(300);
    let p = classify(&block(vec![tx(2000, vec![&big], vec![])]));
    assert_eq!(p.insc_count, 0, "no envelope, so not an inscription");
    assert_eq!(p.payload_tx_count, 0, "an oversized push is not a 'data payload' category");
    assert_eq!(p.bip110_reject_count, 1, "but rule 2 would still reject it");

    let ok = "cd".repeat(200);
    assert_eq!(classify(&block(vec![tx(900, vec![&ok], vec![])])).bip110_reject_count, 0);
}

#[test]
fn op_return_over_83_bytes_counts_as_a_rule_1_reject() {
    let big = |lead: &str| format!("{lead}{}", "ab".repeat(89));
    let b = block(vec![
        tx(800, vec![], vec![&big("6a4c")]),
        tx(900, vec![], vec![&big("6a5d")]),
        tx(600, vec![], vec!["6a5d0714c0a233c0843d"]),
        tx(560, vec![], vec!["6a4c50"]),
    ]);
    let p = classify(&b);
    assert_eq!(p.bip110_reject_count, 2);
    assert_eq!(p.bip110_reject_weight, 800 + 900);
    assert_eq!(p.rune_count, 2, "both runestones are still classified as runestones");
}

#[test]
fn non_op_return_output_over_34_bytes_is_a_rule_1_reject() {
    let big_spk = "ab".repeat(40);
    let p2wsh = format!("0020{}", "cd".repeat(32));
    let p = classify(&block(vec![
        tx(700, vec![], vec![&big_spk]),
        tx(600, vec![], vec![&p2wsh]),
    ]));
    assert_eq!(p.bip110_reject_count, 1, "only the >34-byte output is a rule-1 reject");
    assert_eq!(p.bip110_reject_weight, 700);
}

#[test]
fn taproot_annex_is_a_rule_4_reject() {
    let script = format!("20{}ac", "ab".repeat(32));
    let control = format!("c0{}", "cd".repeat(32));
    let annex = "50aabbcc";
    let p = classify(&block(vec![
        tx(1000, vec![&script, &control, annex], vec![]),
        tx(900, vec![&script, &control], vec![]),
    ]));
    assert_eq!(p.bip110_reject_count, 1, "only the annex-carrying spend is a rule-4 reject");
    assert_eq!(p.bip110_reject_weight, 1000);
}

#[test]
fn payload_bytes_are_counted() {
    let insc = format!("20{}0063036f7264510b48656c6c6f21", "ab".repeat(32));
    let p = classify(&block(vec![
        tx(100, vec![&insc, &insc], vec![]),
        tx(200, vec![], vec!["6a5d0714c0a233c0843d"]),
        tx(300, vec![], vec!["6a4c50"]),
    ]));
    assert_eq!(p.insc_count, 1);
    assert_eq!(p.insc_weight, 100);
    assert_eq!(p.insc_bytes, 2 * (insc.len() as i64 / 2));
    assert_eq!(p.rune_weight, 200);
    assert_eq!(p.data_weight, 300);
    assert_eq!(analyze_block(&obj(vec![])).unwrap().tx_total, 0);
}

#[test]
fn a_sum_that_does_not_fit_is_not_told() {
    let b = block(vec![
        tx(i64::MAX, vec![], vec!["6a4c50"]),
        tx(i64::MAX, vec![], vec!["6a4c50"]),
    ]);
    assert!(analyze_block(&b).is_none());
}

#[test]
fn a_reported_error_counts_before_a_result() {
    let ok = obj(vec![("result", num(7)), ("error", Json::Null)]);
    assert!(matches!(rpc_result(&ok), RpcReply::Result(Json::Number(Some(7)))));
    let bad = obj(vec![("result", Json::Null), ("error", text("no"))]);
    assert!(matches!(rpc_result(&bad), RpcReply::Reported(Json::Text(t)) if t == "no"));
    assert!(matches!(rpc_result(&obj(vec![])), RpcReply::NoResult));
}

#[test]
fn the_own_node_names_its_best_public_address() {
    let addr = |a: &str, score: i64| obj(vec![("address", text(a)), ("score", num(score))]);
    let v = obj(vec![
        ("version", num(290000)),
        ("subversion", text("/Satoshi:29.0.0/")),
        ("localservices", text("0000000000000c09")),
        (
            "localaddresses",
            Json::Array(vec![addr("1.1.1.1", 3), addr("2.2.2.2", 9), addr("x.onion", 99)]),
        ),
    ]);
    let n = network_info(&v);
    assert_eq!(n.version, 290000);
    assert_eq!(n.subversion, "/Satoshi:29.0.0/");
    assert_eq!(n.services, 0xc09);
    assert_eq!(n.local_addr.as_deref(), Some("2.2.2.2"));
    assert_eq!(network_info(&obj(vec![])).local_addr, None);
}

#[test]
fn direct_peers_are_read_with_what_they_run() {
    let v = Json::Array(vec![
        obj(vec![
            ("addr", text("1.2.3.4:8333")),
            ("subver", text("/Satoshi:27.0.0/")),
            ("version", num(70016)),
            ("startingheight", num(900)),
        ]),
        obj(vec![("addr", text("not an address"))]),
    ]);
    let p = peer_info(&v);
    assert_eq!(p.len(), 1);
    assert_eq!(p[0].peer.to_string(), "1.2.3.4:8333");
    assert_eq!(p[0].subver, "/Satoshi:27.0.0/");
    assert_eq!(p[0].version, 70016);
}

#[test]
fn tips_counts_and_fees_are_read() {
    let tips = chain_tips(&Json::Array(vec![obj(vec![
        ("height", num(5)),
        ("hash", text("ab")),
        ("branchlen", num(2)),
        ("status", text("invalid")),
    ])]));
    assert_eq!(tips.len(), 1);
    assert_eq!((tips[0].height, tips[0].branchlen), (5, 2));
    assert_eq!(tips[0].status, "invalid");
    assert_eq!(block_count(&num(9)), Some(9));
    assert_eq!(block_count(&Json::Null), None);
    assert_eq!(tip_height(&obj(vec![("blocks", num(8))])), Some(8));
    assert_eq!(tip_height(&obj(vec![])), None);
    let s = block_stats(&obj(vec![
        ("totalfee", num(123)),
        ("feerate_percentiles", Json::Array(vec![num(1), num(2), num(3), num(4), num(5)])),
    ]));
    assert_eq!(s.total_fee, 123);
    assert_eq!(s.feerate_percentiles, vec![1, 2, 3, 4, 5]);
}

#[test]
fn a_block_hash_is_turned_round() {
    let hex = format!("ff{}01", "00".repeat(30));
    let h = block_hash_bytes(&text(&hex)).unwrap();
    assert_eq!(h[0], 1);
    assert_eq!(h[31], 0xff);
    assert_eq!(block_hash_bytes(&num(1)), Err(HashError::NotText));
    assert_eq!(block_hash_bytes(&text("ab")), Err(HashError::BadLength(2)));
    assert_eq!(block_hash_bytes(&text(&"zz".repeat(32))), Err(HashError::BadHex));
    assert_eq!(read_hex_pair(b'a', b'F'), Some(0xaf));
    assert_eq!(read_hex_pair(b'g', b'0'), None);
}

#[test]
fn a_period_starts_at_a_multiple_of_its_length() {
    assert_eq!(first_of_period(2015, 2016), 0);
    assert_eq!(first_of_period(2016, 2016), 2016);
    assert_eq!(first_of_period(963_346, 2016), 961_632);
    assert!(signals_bit(0x2000_0010, 4));
    assert!(!signals_bit(0x2000_0000, 4));
}

#[test]
fn a_scan_counts_the_headers_that_signal() {
    let mut s = SignalScan::new(10, 4, 23);
    let mut heights = vec![];
    while let Some(h) = s.next_height() {
        heights.push(h);
        let version = if h % 2 == 0 { 0x2000_0010 } else { 0x2000_0000 };
        s.on_header(&obj(vec![("version", num(version))]));
    }
    assert_eq!(heights, vec![20, 21, 22, 23]);
    let (stats, signalling) = s.finish();
    assert_eq!(stats.blocks_scanned, 4);
    assert_eq!(stats.blocks_signalling, 2);
    assert_eq!(stats.window, 10);
    assert_eq!(stats.tip_height, 23);
    assert_eq!(signalling, vec![20, 22]);
}

#[test]
fn the_newest_blocks_come_first() {
    assert_eq!(recent_heights(5, 3), vec![5, 4, 3]);
    assert_eq!(recent_heights(1, 9), vec![1, 0]);
    assert!(recent_heights(-1, 9).is_empty());
}

#[test]
fn a_block_is_described_by_its_header_and_miner() {
    let b = obj(vec![
        ("time", num(100)),
        ("version", num(0x2000_0010)),
        ("size", num(11)),
        ("weight", num(12)),
        ("tx", Json::Array(vec![text("t1"), text("t2")])),
    ]);
    assert_eq!(block_txids(&b), (2, Some("t1".to_string())));
    let i = block_info(7, "ab", &b, "Pool".to_string(), 4);
    assert_eq!((i.height, i.time, i.size, i.weight, i.tx_count), (7, 100, 11, 12, 2));
    assert!(i.signals);
    assert_eq!(i.miner, "Pool");
    let t = obj(vec![("vin", Json::Array(vec![obj(vec![("coinbase", text("03ab"))])]))]);
    assert_eq!(coinbase_sig(&t), "03ab");
    assert_eq!(coinbase_sig(&obj(vec![])), "");
}

#[test]
fn credentials_are_written_in_base_64() {
    assert_eq!(base64_encode(b""), "");
    assert_eq!(base64_encode(b"f"), "Zg==");
    assert_eq!(base64_encode(b"fo"), "Zm8=");
    assert_eq!(base64_encode(b"foo"), "Zm9v");
    assert_eq!(base64_encode(b"foobar"), "Zm9vYmFy");
    assert_eq!(basic_auth_header("user", "pass"), "Basic dXNlcjpwYXNz");
}
