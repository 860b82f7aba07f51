use ewm_cortex::fpga::{AlgebraOp, Command, FpgaSim, Response, SimFpgaDriver};
use ewm_cortex::hllset::HLLSet;
use ewm_cortex::ingest::{IngestSink, Ingestor, NoopSink};
use ewm_cortex::kstorage::TokenLutStorage;

fn list(words: &[&str]) -> Vec<Vec<u8>> {
    words.iter().map(|w| w.as_bytes().to_vec()).collect()
}

fn hll(words: &[&str]) -> HLLSet {
    HLLSet::from_tokens(&list(words))
}

#[derive(Default)]
struct CollectSink {
    originals: Vec<(String, u64)>,
}

impl IngestSink for CollectSink {
    fn on_original(&mut self, hllset: &HLLSet, sha1: String) {
        self.originals.push((sha1, hllset.popcount()));
    }
}

// ── ingest ─────────────────────────────────────────────────────────────────

#[test]
fn one_pass_updates_luts_hllsets_tf_and_sink() {
    let mut ingestor = Ingestor::new(&[0, 1, 2]);
    let mut sink = CollectSink::default();
    let out = ingestor.ingest_stream(&list(&["alpha", "beta", "alpha"]), &mut sink);

    assert_eq!(out.stats.tokens, 3);
    assert_eq!(out.stats.channels, 3);
    assert_eq!(out.stats.new_lut_entries, 2, "alpha counted once");
    assert_eq!(ingestor.catalog().len(), 2);
    assert_eq!(ingestor.token_tf(b"alpha"), 2);
    assert_eq!(ingestor.token_tf(b"beta"), 1);
    assert_eq!(out.channels.len(), 3);

    assert_eq!(sink.originals.len(), 3);
    assert_eq!(sink.originals[0].1, out.channels[0].popcount());

    let expected_total: u64 = out.channels.iter().map(|h| h.popcount()).sum();
    assert_eq!(ingestor.bit_tf_total(), expected_total);
}

#[test]
fn working_hllsets_are_not_exposed_mid_stream() {
    let mut ingestor = Ingestor::new(&[0, 1]);
    let out = ingestor.ingest_stream(&list(&["x", "y"]), &mut NoopSink);
    assert_eq!(out.channels.len(), 2);
    assert_eq!(out.stats.active_bits, out.channels[0].popcount().max(out.channels[1].popcount()));
}

#[test]
fn passes_accumulate_tf_monotonically() {
    let mut ingestor = Ingestor::new(&[0, 1, 2]);
    let first = ingestor.ingest_stream(&list(&["a", "b"]), &mut NoopSink);
    let second = ingestor.ingest_stream(&list(&["b", "c"]), &mut NoopSink);
    assert_eq!(ingestor.total_tokens(), 4);
    assert_eq!(first.stats.tokens + second.stats.tokens, 4);
    assert_eq!(ingestor.token_tf(b"b"), 2);
    let first_total: u64 = first.channels.iter().map(|h| h.popcount()).sum();
    assert!(ingestor.bit_tf_total() >= first_total);
}

#[test]
fn sink_receives_content_addresses() {
    let mut ingestor = Ingestor::new(&[0, 1]);
    let mut sink = CollectSink::default();
    ingestor.ingest_stream(&list(&["m"]), &mut sink);
    assert_eq!(sink.originals.len(), 2);
    for (cid, popcount) in &sink.originals {
        assert_eq!(cid.len(), 40);
        assert!(cid.chars().all(|c| c.is_ascii_hexdigit() && !c.is_ascii_uppercase()));
        assert_eq!(*popcount, 1);
    }
    assert_eq!(ingestor.total_new_entries(), 1);
}

#[test]
fn seed_zero_channel_is_the_host_hllset() {
    let mut ingestor = Ingestor::new(&[0, 5]);
    let tokens = list(&["p", "q", "r"]);
    let out = ingestor.ingest_stream(&tokens, &mut NoopSink);
    let host = HLLSet::from_tokens(&tokens);
    assert_eq!(out.channels[0].positions(), host.positions());
    let counts = ingestor.bit_tf();
    for p in host.positions() {
        assert!(counts[p as usize] >= 1);
    }
}

// ── FPGA delegation ────────────────────────────────────────────────────────

#[test]
fn algebra_crosschecks_against_host() {
    let mut sim = FpgaSim::new("crosscheck".to_string());
    let a = hll(&["alpha", "beta", "gamma"]);
    let b = hll(&["beta", "gamma", "delta"]);
    assert_eq!(sim.union(&a, &b).unwrap().popcount(), a.union(&b).popcount());
    assert_eq!(sim.intersection(&a, &b).unwrap().popcount(), a.intersection(&b).popcount());
    assert_eq!(sim.difference(&a, &b).unwrap().popcount(), a.difference(&b).popcount());
    assert_eq!(
        sim.symmetric_difference(&a, &b).unwrap().popcount(),
        a.symmetric_difference(&b).popcount()
    );
}

#[test]
fn drn_decomposes_exactly() {
    let mut sim = FpgaSim::new("drn".to_string());
    let prev = hll(&["a", "b", "c"]);
    let curr = hll(&["b", "c", "d"]);
    let (departed, retained, new) = sim.drn(&prev, &curr).unwrap();
    assert_eq!(departed.popcount(), prev.difference(&curr).popcount());
    assert_eq!(retained.popcount(), prev.intersection(&curr).popcount());
    assert_eq!(new.popcount(), curr.difference(&prev).popcount());
}

#[test]
fn ingest_and_popcount_match_host() {
    let mut sim = FpgaSim::new("ingest".to_string());
    let tokens = list(&["x", "y", "z"]);
    let plane = sim.ingest(&tokens, &[0]).unwrap();
    assert_eq!(plane.popcount(), hll(&["x", "y", "z"]).popcount());
    assert_eq!(sim.popcount(&plane).unwrap() as u64, plane.popcount());
}

#[test]
fn multi_seed_ingest_matches_host_hllsets() {
    let mut sim = FpgaSim::new("multi-seed".to_string());
    let tokens = list(&["m", "n"]);
    let g1 = sim.ingest(&tokens, &[0]).unwrap();
    let g2 = sim.ingest(&tokens, &[1]).unwrap();
    let g3 = sim.ingest(&tokens, &[2]).unwrap();
    let all = sim.ingest(&tokens, &[0, 1, 2]).unwrap();
    let host_g123 = g1.union(&g2).union(&g3);
    assert_eq!(all.popcount(), host_g123.popcount());
}

#[test]
fn tf_add_and_status_report() {
    let mut sim = FpgaSim::new("tf".to_string());
    let plane = hll(&["tf", "test"]);
    sim.tf_add(&plane, 3).unwrap();
    let status = sim.status().unwrap();
    assert!(status.iter().any(|(k, v)| k == "resident_planes" && *v >= 1));
}

#[test]
fn hist_counts_cells_per_lane() {
    let mut sim = FpgaSim::new("hist".to_string());
    let plane = hll(&["one", "two", "three", "four"]);
    let counts = sim.hist(&plane).unwrap();
    assert_eq!(counts.len(), 32);
    assert_eq!(counts.iter().map(|&c| c as u64).sum::<u64>(), plane.popcount());
    for p in plane.positions() {
        assert!(counts[(p % 32) as usize] >= 1);
    }
}

#[test]
fn gram_plane_of_empty_sequence_is_empty() {
    let mut sim = FpgaSim::new("gram".to_string());
    assert!(sim.gram(&[]).unwrap().is_empty());
    let g = sim.gram(&list(&["a", "b", "c", "d"])).unwrap();
    assert!(g.popcount() >= 1 && g.popcount() <= 4);
}

#[test]
fn driver_reports_unknown_planes_and_unsupported_commands() {
    let mut driver = SimFpgaDriver::new("raw".to_string());
    assert!(driver.submit(Command::Popcount { plane: 1 }).is_err());
    assert!(driver.submit(Command::Algebra { op: AlgebraOp::Or, a: 1, b: 2 }).is_err());
    assert!(driver.submit(Command::Forth { program: vec![1, 2, 3] }).is_err());
    let id = driver.upload(&hll(&["k"]));
    assert_eq!(id, 1);
    driver.submit(Command::Popcount { plane: id }).unwrap();
    driver.submit(Command::Status).unwrap();
    let responses = driver.drain().unwrap();
    assert_eq!(responses.len(), 2);
    match &responses[0] {
        Response::Popcount { value } => assert_eq!(*value, 1),
        other => panic!("unexpected {other:?}"),
    }
    match &responses[1] {
        Response::Status { counters } => {
            assert_eq!(counters[0], ("submitted".to_string(), 5));
            assert_eq!(counters[1], ("resident_planes".to_string(), 1));
        }
        other => panic!("unexpected {other:?}"),
    }
    assert!(driver.drain().unwrap().is_empty());
    assert_eq!(driver.name(), "raw");
    assert!(driver.download(9).is_err());
}

#[test]
fn lookup_reads_loaded_collision_groups() {
    let mut driver = SimFpgaDriver::new("lut".to_string());
    let storage = TokenLutStorage::from_tokens(&list(&["hello", "world"]));
    driver.load_lut(&storage);
    let plane = hll(&["hello"]);
    let p = plane.positions()[0];
    driver
        .submit(Command::Lookup { positions: vec![(p / 32, p % 32), (5000, 0)] })
        .unwrap();
    match driver.drain().unwrap().pop().unwrap() {
        Response::Candidates { tokens } => assert!(tokens.contains(&b"hello".to_vec())),
        other => panic!("unexpected {other:?}"),
    }
}

#[test]
fn tf_merge_takes_lane_maximum() {
    let mut driver = SimFpgaDriver::new("merge".to_string());
    let id = driver.upload(&hll(&["lane"]));
    driver.submit(Command::TfAdd { plane: id, delta: 4 }).unwrap();
    driver.submit(Command::TfMerge { a: 77, b: id }).unwrap();
    driver.submit(Command::Status).unwrap();
    match driver.drain().unwrap().pop().unwrap() {
        Response::Status { counters } => assert_eq!(counters[2], ("tf_accumulators".to_string(), 2)),
        other => panic!("unexpected {other:?}"),
    }
}

#[test]
fn sink_receives_each_channel_with_its_content_address() {
    let mut ingestor = Ingestor::new(&[0, 1, 2]);
    let mut sink = CollectSink::default();
    let out = ingestor.ingest_stream(&list(&["alpha", "beta"]), &mut sink);
    assert_eq!(sink.originals.len(), out.channels.len());
    for (c, h) in out.channels.iter().enumerate() {
        assert_eq!(sink.originals[c].0, ewm_cortex::hashing::sha1_hex(&h.to_bytes()));
        assert_eq!(sink.originals[c].1, h.popcount());
    }
}

#[test]
fn responses_describe_their_kind_and_numbers() {
    assert_eq!(Response::Plane { id: 5 }.describe(), "Plane 5");
    assert_eq!(Response::Drn { departed: 1, retained: 20, new: 300 }.describe(), "Drn 1 20 300");
    assert_eq!(Response::Popcount { value: 0 }.describe(), "Popcount 0");
    assert_eq!(Response::Hist { counts: vec![0; 32] }.describe(), "Hist of 32 lanes");
    assert_eq!(Response::Ack.describe(), "Ack");
}
