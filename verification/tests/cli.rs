use manas::cli::{
    answer_source_label, joined_text, known_sidecar_paths, looks_like_path, parse_command,
    teach_arguments, teach_request, AnswerSource, Command, LearnCounts, PathKind,
    TeachArguments, TeachMode, TeachSource, TeachSummary,
};

fn strings(values: &[&str]) -> Vec<String> {
    values.iter().map(|v| v.to_string()).collect()
}

#[test]
fn commands_are_recognised() {
    assert!(matches!(parse_command(&strings(&[])), Ok(Command::Help)));
    assert!(matches!(parse_command(&strings(&["teach", "x"])), Ok(Command::Teach)));
    assert!(matches!(parse_command(&strings(&["ask"])), Ok(Command::Ask)));
    assert!(matches!(parse_command(&strings(&["inspect"])), Ok(Command::Inspect)));
    assert!(matches!(parse_command(&strings(&["reset"])), Ok(Command::Reset)));
    assert!(matches!(parse_command(&strings(&["-h"])), Ok(Command::Help)));
    assert!(matches!(parse_command(&strings(&["--help"])), Ok(Command::Help)));
    match parse_command(&strings(&["fly"])) {
        Err(e) => assert_eq!(e, "unknown command 'fly'"),
        Ok(_) => panic!("unknown command accepted"),
    }
}

#[test]
fn joined_text_trims_and_rejects_blank() {
    assert_eq!(joined_text(&strings(&[" what", "is ", "rust "])), Ok("what is  rust".to_string()));
    assert_eq!(joined_text(&strings(&[" ", ""])), Err("input text is empty".to_string()));
    assert_eq!(joined_text(&strings(&[])), Err("input text is empty".to_string()));
}

#[test]
fn teach_options_are_read() {
    let a = teach_arguments(&strings(&["--recursive", "docs", "more"])).ok().unwrap();
    assert!(a.recursive);
    assert_eq!(a.values, strings(&["docs", "more"]));
    assert_eq!(
        teach_arguments(&strings(&["a", "--fast", "--slow"])).err(),
        Some("unknown teach option '--fast'".to_string())
    );
    assert_eq!(
        teach_arguments(&strings(&["--recursive"])).err(),
        Some("input text is empty".to_string())
    );
}

fn args(recursive: bool, values: &[&str]) -> TeachArguments {
    TeachArguments { recursive, values: strings(values) }
}

#[test]
fn teach_request_sources() {
    match teach_request(args(false, &["a", "b"]), PathKind::Missing) {
        Ok(r) => {
            assert!(r.mode == TeachMode::Text);
            assert!(matches!(r.source, TeachSource::RawText(ref t) if t == "a b"));
        }
        Err(e) => panic!("{e}"),
    }
    match teach_request(args(true, &["notes"]), PathKind::File) {
        Ok(r) => {
            assert!(r.mode == TeachMode::File);
            assert!(matches!(r.source, TeachSource::File(ref t) if t == "notes"));
        }
        Err(e) => panic!("{e}"),
    }
    match teach_request(args(true, &["docs"]), PathKind::Folder) {
        Ok(r) => assert!(matches!(r.source, TeachSource::Folder(ref t) if t == "docs")),
        Err(e) => panic!("{e}"),
    }
    assert_eq!(
        teach_request(args(false, &["dev"]), PathKind::Other).err(),
        Some("input path is not a file or folder: dev".to_string())
    );
    assert_eq!(
        teach_request(args(false, &["notes.txt"]), PathKind::Missing).err(),
        Some("input path not found: notes.txt".to_string())
    );
    assert_eq!(
        teach_request(args(true, &["cats are cute"]), PathKind::Missing).err(),
        Some("--recursive can only be used with folder input".to_string())
    );
}

#[test]
fn path_like_values() {
    assert!(looks_like_path("a/b"));
    assert!(looks_like_path("a\\b"));
    assert!(looks_like_path("file.rs"));
    assert!(looks_like_path("."));
    assert!(looks_like_path(".."));
    assert!(!looks_like_path("hello"));
    assert!(!looks_like_path("has space.rs"));
    assert!(!looks_like_path(".hidden"));
}

#[test]
fn sidecar_paths() {
    assert_eq!(
        known_sidecar_paths("brain.manas"),
        strings(&[
            "brain.manas.sources",
            "brain.manas.sourceindex",
            "brain.manas.seq",
            "brain.manas.transformer",
            "brain.manas.langmeta"
        ])
    );
}

#[test]
fn labels() {
    assert_eq!(answer_source_label(AnswerSource::NeuralWeights), "neural weights");
    assert_eq!(answer_source_label(AnswerSource::NotEnough), "not enough");
    assert_eq!(TeachMode::Text.label(), "text");
    assert_eq!(TeachMode::File.label(), "file");
    assert_eq!(TeachMode::Folder.label(), "folder");
}

#[test]
fn summary_counts_saturate() {
    let mut summary = TeachSummary::new(TeachMode::Text, 2);
    let counts = LearnCounts {
        neurons_grown: u32::MAX - 1,
        layers_grown: 1,
        neurons_promoted: 2,
        neurons_frozen: 3,
        total_neurons: 40,
        update_applied: true,
    };
    summary.record("cat", "animal", &counts);
    let quiet = LearnCounts {
        neurons_grown: 5,
        layers_grown: 0,
        neurons_promoted: 0,
        neurons_frozen: 0,
        total_neurons: 41,
        update_applied: false,
    };
    summary.record("dog", "pet", &quiet);
    assert_eq!(summary.examples_learned, 2);
    assert_eq!(summary.chunks_processed, 2);
    assert_eq!(summary.neurons_grown, u32::MAX);
    assert_eq!(summary.layers_grown, 1);
    assert_eq!(summary.total_neurons, 41);
    assert!(summary.update_applied);
    assert_eq!(summary.last_input, "dog");
    assert_eq!(summary.last_target, "pet");
}

#[test]
fn summary_after_several_records() {
    let mut summary = TeachSummary::new(TeachMode::Folder, 3);
    for k in 0..4u32 {
        let counts = LearnCounts {
            neurons_grown: k,
            layers_grown: 1,
            neurons_promoted: 0,
            neurons_frozen: 2,
            total_neurons: 10 + k as u64,
            update_applied: k == 1,
        };
        summary.record(&format!("in{k}"), &format!("out{k}"), &counts);
    }
    assert_eq!(summary.examples_learned, 4);
    assert_eq!(summary.neurons_grown, 6);
    assert_eq!(summary.layers_grown, 4);
    assert_eq!(summary.neurons_frozen, 8);
    assert_eq!(summary.total_neurons, 13);
    assert!(summary.update_applied);
    assert_eq!(summary.last_input, "in3");
    assert_eq!(summary.last_target, "out3");
    assert!(summary.mode == TeachMode::Folder);
    assert_eq!(summary.chunks_processed, 3);
}
