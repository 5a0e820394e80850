use fuzzcheck::{
    confirm_failure, name_key, parse_complexity, parse_decimal, simplest_input_file,
    string_from_args, Arguments, CodeCoverageSensor, CompiledTarget, Coverage, ExpressionCounter,
    Feature, FunctionRecord, FuzzerCommand, Region,
};

#[test]
fn flag_string_matches_the_driver_surface() {
    let args = Arguments {
        command: FuzzerCommand::Read { input_file: String::from("seed.in") },
        corpus_in: Some(String::from("corpus")),
        corpus_out: None,
        artifacts_folder: Some(String::from("artifacts")),
        stats_folder: None,
        max_input_cplx: 4096,
        maximum_duration_secs: 60,
        maximum_iterations: 1000,
        stop_after_first_failure: true,
        detect_infinite_loop: false,
    };
    let s = string_from_args(&args);
    assert_eq!(
        s,
        "--command read --input-file seed.in --in-corpus corpus  --no-out-corpus  \
         --artifacts artifacts  --no-stats  --max-cplx 4096 --max-duration 60 \
         --max-iterations 1000 --stop-after-first-failure "
    );
}

#[test]
fn flag_string_for_fuzz_mode() {
    let args = Arguments {
        command: FuzzerCommand::Fuzz,
        corpus_in: None,
        corpus_out: None,
        artifacts_folder: None,
        stats_folder: None,
        max_input_cplx: 0,
        maximum_duration_secs: 0,
        maximum_iterations: 0,
        stop_after_first_failure: false,
        detect_infinite_loop: true,
    };
    let s = string_from_args(&args);
    assert_eq!(
        s,
        "--command fuzz --no-in-corpus  --no-out-corpus  --no-artifacts  --no-stats  \
         --max-cplx 0 --max-duration 0 --max-iterations 0 --detect-infinite-loop "
    );
}

#[test]
fn flag_string_renders_the_largest_complexity() {
    let args = Arguments {
        command: FuzzerCommand::Fuzz,
        corpus_in: None,
        corpus_out: None,
        artifacts_folder: None,
        stats_folder: None,
        max_input_cplx: u64::MAX,
        maximum_duration_secs: 1,
        maximum_iterations: 1,
        stop_after_first_failure: false,
        detect_infinite_loop: false,
    };
    let s = string_from_args(&args);
    assert!(s.contains("--max-cplx 18446744073709551615 "));
}

#[test]
fn compiled_target_arguments() {
    assert_eq!(CompiledTarget::Lib.to_args(), vec!["--lib".to_string()]);
    assert_eq!(
        CompiledTarget::Bin(String::from("fuzz_me")).to_args(),
        vec!["--bin".to_string(), "fuzz_me".to_string()]
    );
    assert_eq!(
        CompiledTarget::Test(String::from("t")).to_args(),
        vec!["--test".to_string(), "t".to_string()]
    );
}

#[test]
fn decimal_parsing_accepts_integers_and_fractions() {
    let c = parse_decimal(b"1000").unwrap();
    assert_eq!(c.int_part, 1000);
    assert!(c.frac.is_empty());

    let c = parse_decimal(b"12.5").unwrap();
    assert_eq!(c.int_part, 12);
    assert_eq!(c.frac, vec![5]);

    assert!(parse_decimal(b"").is_none());
    assert!(parse_decimal(b".5").is_none());
    assert!(parse_decimal(b"12a").is_none());
    assert!(parse_decimal(b"1.2.3").is_none());
    // The integer part must fit 64 bits.
    assert!(parse_decimal(b"99999999999999999999").is_none());
}

#[test]
fn artifact_names_carry_their_complexity() {
    let c = parse_complexity(b"1000--abc.in").unwrap();
    assert_eq!(c.int_part, 1000);
    assert!(c.frac.is_empty());

    let c = parse_complexity(b"12.5--deadbeef.json").unwrap();
    assert_eq!(c.int_part, 12);
    assert_eq!(c.frac, vec![5]);

    assert!(parse_complexity(b"readme.txt").is_none());
    assert!(parse_complexity(b"--x.in").is_none());
    assert!(parse_complexity(b"x").is_none());
}

#[test]
fn minifier_picks_the_simplest_artifact() {
    let names: Vec<Vec<u8>> = vec![
        b"1000--abc.in".to_vec(),
        b"notes.txt".to_vec(),
        b"12.5--d.in".to_vec(),
        b"12.25--e.in".to_vec(),
        b"500--f.in".to_vec(),
    ];
    assert_eq!(simplest_input_file(&names), Some(3));

    let empty: Vec<Vec<u8>> = vec![];
    assert_eq!(simplest_input_file(&empty), None);

    let unparsed: Vec<Vec<u8>> = vec![b"a.txt".to_vec(), b"b.txt".to_vec()];
    assert_eq!(simplest_input_file(&unparsed), None);

    // Ties go to the last of the equally simplest files.
    let ties: Vec<Vec<u8>> = vec![b"7--a.in".to_vec(), b"7--b.in".to_vec(), b"9--c.in".to_vec()];
    assert_eq!(simplest_input_file(&ties), Some(1));
}

#[test]
fn minification_requires_a_reproduced_failure() {
    assert!(confirm_failure(false).is_ok());
    assert!(confirm_failure(true).is_err());
}

fn record(name: &str) -> FunctionRecord {
    FunctionRecord {
        name_function: String::from(name),
        file: String::from("src/lib.rs"),
        counter_regions: Vec::new(),
    }
}

#[test]
fn sensor_indexes_functions_contiguously() {
    let coverage = vec![
        Coverage {
            function_record: record("f"),
            single_counters: vec![0, 1],
            expression_counters: vec![],
            start_counters: 0,
            counters_len: 2,
        },
        Coverage {
            function_record: record("dropped"),
            single_counters: vec![2],
            expression_counters: vec![],
            start_counters: 2,
            counters_len: 1,
        },
        Coverage {
            function_record: record("g"),
            single_counters: vec![3, 4],
            expression_counters: vec![ExpressionCounter { add: vec![3], sub: vec![4] }],
            start_counters: 3,
            counters_len: 2,
        },
    ];
    let sensor = CodeCoverageSensor::new(coverage, 5).unwrap();
    // The single-counter function was dropped; indices are contiguous.
    assert_eq!(sensor.coverage.len(), 2);
    assert_eq!(sensor.index_ranges, vec![(0, 2), (2, 5)]);
}

#[test]
fn sensor_rejects_slots_outside_the_buffer() {
    let coverage = vec![Coverage {
        function_record: record("f"),
        single_counters: vec![0, 9],
        expression_counters: vec![],
        start_counters: 0,
        counters_len: 2,
    }];
    assert!(CodeCoverageSensor::new(coverage, 4).is_none());
}

#[test]
fn sensor_emits_features_for_nonzero_counters() {
    let coverage = vec![Coverage {
        function_record: record("f"),
        single_counters: vec![0, 1, 2],
        expression_counters: vec![
            ExpressionCounter { add: vec![0, 1], sub: vec![2] },
            ExpressionCounter { add: vec![2], sub: vec![0] },
        ],
        start_counters: 0,
        counters_len: 3,
    }];
    let sensor = CodeCoverageSensor::new(coverage, 3).unwrap();
    let counters = vec![5u64, 0, 2];
    let features = sensor.iterate_over_collected_features(0, &counters);
    // Singles at indices 0 and 2 (the zero counter is skipped), then
    // the expressions: 5 + 0 - 2 = 3 at index 3; 2 - 5 clamps to zero
    // and is skipped.
    assert_eq!(
        features,
        vec![
            Feature { index: 0, counter: 5 },
            Feature { index: 2, counter: 2 },
            Feature { index: 3, counter: 3 },
        ]
    );

    // The fast path: a function whose first counter is zero emits
    // nothing at all.
    let cold = vec![0u64, 7, 7];
    assert!(sensor.iterate_over_collected_features(0, &cold).is_empty());
}

#[test]
fn sensor_clear_zeroes_only_owned_slots() {
    let coverage = vec![Coverage {
        function_record: record("f"),
        single_counters: vec![1, 2],
        expression_counters: vec![],
        start_counters: 1,
        counters_len: 2,
    }];
    let sensor = CodeCoverageSensor::new(coverage, 4).unwrap();
    let mut counters = vec![9u64, 9, 9, 9];
    sensor.clear(&mut counters);
    assert_eq!(counters, vec![9, 0, 0, 9]);
}

#[test]
fn coverage_map_assigns_sequential_counter_ids() {
    let region = Region { lines: (1, 2), cols: (0, 10) };
    let coverage = vec![
        Coverage {
            function_record: FunctionRecord {
                name_function: String::from("f"),
                file: String::from("a.rs"),
                counter_regions: vec![vec![region], vec![]],
            },
            single_counters: vec![0, 1],
            expression_counters: vec![],
            start_counters: 0,
            counters_len: 2,
        },
        Coverage {
            function_record: FunctionRecord {
                name_function: String::from("g"),
                file: String::from("b.rs"),
                counter_regions: vec![vec![], vec![region]],
            },
            single_counters: vec![2, 3],
            expression_counters: vec![],
            start_counters: 2,
            counters_len: 2,
        },
    ];
    let sensor = CodeCoverageSensor::new(coverage, 4).unwrap();
    let map = sensor.coverage_map();
    assert_eq!(map.functions.len(), 2);
    assert_eq!(map.functions[0].name, "f");
    assert_eq!(map.functions[0].counters[0].id, 0);
    assert_eq!(map.functions[0].counters[1].id, 1);
    assert_eq!(map.functions[1].name, "g");
    assert_eq!(map.functions[1].counters[0].id, 2);
    assert_eq!(map.functions[1].counters[1].id, 3);
    assert_eq!(map.functions[1].counters[1].regions, vec![region]);
}

#[test]
fn name_keys_come_from_the_digest() {
    // The digest of the empty string is d41d8cd98f00b204e9800998ecf8427e;
    // its first eight bytes, least significant first, give this key.
    assert_eq!(name_key(b""), 0x04b2008fd98c1dd4);
    assert_ne!(name_key(b"main"), name_key(b"other"));
}
