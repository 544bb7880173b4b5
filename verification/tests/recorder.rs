use session_recorder::archive::{bundle_to_zip, RecordingFile};
use session_recorder::codec::{to_csv, to_csv_decode};
use session_recorder::errors::RecorderError;
use session_recorder::export::prepare_file;
use session_recorder::naming::{civil_from_millis, format_recording_name, name_for};
use session_recorder::sample_log::{Sample, SampleLog, SessionPhase, Timestamp};
use session_recorder::storage::{check_csv_extension, filter_recordings, validate_recording_name};
use std::io::Read;

fn sample(elapsed_ms: i64, value: i16) -> Sample {
    Sample { elapsed_ms, value }
}

#[test]
fn append_order_is_kept() {
    let mut log = SampleLog::new();
    log.start(Timestamp { millis: 1_000 });
    log.append(0, 10);
    log.append(120, -5);
    log.append(500, 0);
    let snap = log.snapshot();
    assert_eq!(snap, vec![sample(0, 10), sample(120, -5), sample(500, 0)]);
}

#[test]
fn start_clears_prior_samples() {
    let mut log = SampleLog::new();
    log.start(Timestamp { millis: 0 });
    log.append(1, 1);
    log.start(Timestamp { millis: 5 });
    assert_eq!(log.snapshot(), vec![]);
    assert_eq!(log.session_start().millis, 5);
}

#[test]
fn clear_then_snapshot_is_empty() {
    let mut log = SampleLog::new();
    log.start(Timestamp { millis: 0 });
    log.append(3, 7);
    log.append(9, -1);
    log.clear();
    assert_eq!(log.snapshot(), vec![]);
    assert_eq!(log.current_phase(), SessionPhase::Idle);
}

#[test]
fn session_phases_progress() {
    let mut log = SampleLog::new();
    assert_eq!(log.current_phase(), SessionPhase::Idle);
    log.start(Timestamp { millis: 42 });
    assert_eq!(log.current_phase(), SessionPhase::Recording);
    log.append(10, 50);
    log.end_session();
    assert_eq!(log.current_phase(), SessionPhase::Review);
    assert_eq!(log.snapshot(), vec![sample(10, 50)]);
    log.clear();
    assert_eq!(log.current_phase(), SessionPhase::Idle);
}

#[test]
fn elapsed_is_difference() {
    let start = Timestamp { millis: 1_000 };
    let now = Timestamp { millis: 1_750 };
    assert_eq!(now.elapsed_since(&start), 750);
    assert_eq!(start.elapsed_since(&now), -750);
}

#[test]
fn csv_bytes_are_exact() {
    let samples = vec![sample(0, 10), sample(120, -5), sample(500, 0)];
    let bytes = to_csv(&samples);
    assert_eq!(bytes, b"0,10\n120,-5\n500,0\n".to_vec());
}

#[test]
fn csv_of_empty_log_is_empty() {
    let bytes = to_csv(&vec![]);
    assert_eq!(bytes, Vec::<u8>::new());
}

#[test]
fn csv_round_trips() {
    let samples = vec![
        sample(0, 10),
        sample(120, -5),
        sample(500, 0),
        sample(i64::MAX, i16::MAX),
        sample(i64::MIN, i16::MIN),
        sample(-1, -100),
    ];
    let bytes = to_csv(&samples);
    let decoded = to_csv_decode(&bytes).expect("well-formed CSV must decode");
    assert_eq!(decoded, samples);
}

#[test]
fn csv_decode_rejects_malformed() {
    assert_eq!(to_csv_decode(&b"12;34\n".to_vec()), None);
    assert_eq!(to_csv_decode(&b"1,2".to_vec()), None);
    assert_eq!(to_csv_decode(&b"1,\n".to_vec()), None);
    assert_eq!(to_csv_decode(&b",1\n".to_vec()), None);
    assert_eq!(to_csv_decode(&b"99999999999999999999,0\n".to_vec()), None);
    assert_eq!(to_csv_decode(&b"0,40000\n".to_vec()), None);
    assert_eq!(to_csv_decode(&b"abc\n".to_vec()), None);
}

#[test]
fn csv_decode_accepts_leading_zeros() {
    let decoded = to_csv_decode(&b"007,-05\n".to_vec()).expect("digit runs decode");
    assert_eq!(decoded, vec![sample(7, -5)]);
}

#[test]
fn name_of_epoch_start() {
    let name = name_for(&Timestamp { millis: 0 });
    assert_eq!(name, "1970-01-01T00-00-00.000Z.csv");
}

#[test]
fn name_has_millisecond_precision() {
    // 2024-01-01T00:00:00.123 UTC
    let name = name_for(&Timestamp { millis: 1_704_067_200_123 });
    assert_eq!(name, "2024-01-01T00-00-00.123Z.csv");
}

#[test]
fn names_differ_across_milliseconds() {
    let a = name_for(&Timestamp { millis: 1_704_067_200_123 });
    let b = name_for(&Timestamp { millis: 1_704_067_200_124 });
    assert_ne!(a, b);
}

#[test]
fn civil_fields_format_as_fixed_width() {
    let c = civil_from_millis(1_704_067_200_123);
    assert_eq!(c.year, 2024);
    assert_eq!(c.month, 1);
    assert_eq!(c.day, 1);
    assert_eq!(c.millisecond, 123);
    assert_eq!(format_recording_name(&c), "2024-01-01T00-00-00.123Z.csv");
}

#[test]
fn traversal_names_are_rejected() {
    assert_eq!(
        validate_recording_name("../secret.csv"),
        Err(RecorderError::InvalidName)
    );
    assert_eq!(
        validate_recording_name("sub/x.csv"),
        Err(RecorderError::InvalidName)
    );
    assert_eq!(
        validate_recording_name("sub\\x.csv"),
        Err(RecorderError::InvalidName)
    );
    assert_eq!(
        validate_recording_name("notes.txt"),
        Err(RecorderError::InvalidName)
    );
    assert_eq!(
        validate_recording_name("C:x.csv"),
        Err(RecorderError::InvalidName)
    );
    assert_eq!(
        validate_recording_name(".csv"),
        Err(RecorderError::InvalidName)
    );
    assert_eq!(validate_recording_name(""), Err(RecorderError::InvalidName));
    assert_eq!(validate_recording_name("2024-01-01T00-00-00.csv"), Ok(()));
}

#[test]
fn listing_filters_to_recordings() {
    let names = vec![
        "a.csv".to_string(),
        "notes.txt".to_string(),
        "b.csv".to_string(),
        "csv".to_string(),
        ".csv".to_string(),
    ];
    let filtered = filter_recordings(&names);
    assert_eq!(
        filtered,
        vec![".csv".to_string(), "a.csv".to_string(), "b.csv".to_string()]
    );
    assert!(check_csv_extension("x.csv"));
    assert!(!check_csv_extension("x.txt"));
}

#[test]
fn listing_is_sorted() {
    let names = vec![
        "b.csv".to_string(),
        "c.csv".to_string(),
        "a.csv".to_string(),
        "a.csv".to_string(),
    ];
    let filtered = filter_recordings(&names);
    assert_eq!(
        filtered,
        vec![
            "a.csv".to_string(),
            "a.csv".to_string(),
            "b.csv".to_string(),
            "c.csv".to_string()
        ]
    );
}

#[test]
fn names_are_deterministic() {
    let a = name_for(&Timestamp { millis: 1_704_067_200_123 });
    let b = name_for(&Timestamp { millis: 1_704_067_200_123 });
    assert_eq!(a, b);
}

#[test]
fn bundle_holds_every_recording() {
    let files = vec![
        RecordingFile {
            name: "a.csv".to_string(),
            content: Some(b"0,1\n".to_vec()),
        },
        RecordingFile {
            name: "b.csv".to_string(),
            content: Some(b"5,-2\n10,3\n".to_vec()),
        },
    ];
    let bytes = bundle_to_zip(&files).expect("bundling retrievable contents succeeds");
    let mut archive =
        zip::ZipArchive::new(std::io::Cursor::new(bytes)).expect("output is a ZIP archive");
    assert_eq!(archive.len(), 2);
    let mut first = Vec::new();
    archive
        .by_name("a.csv")
        .expect("entry a.csv exists")
        .read_to_end(&mut first)
        .unwrap();
    assert_eq!(first, b"0,1\n".to_vec());
    let mut second = Vec::new();
    archive
        .by_name("b.csv")
        .expect("entry b.csv exists")
        .read_to_end(&mut second)
        .unwrap();
    assert_eq!(second, b"5,-2\n10,3\n".to_vec());
}

#[test]
fn bundle_aborts_on_missing_content() {
    let files = vec![
        RecordingFile {
            name: "a.csv".to_string(),
            content: Some(b"0,1\n".to_vec()),
        },
        RecordingFile {
            name: "b.csv".to_string(),
            content: None,
        },
    ];
    assert_eq!(bundle_to_zip(&files), Err(RecorderError::Archive));
}

#[test]
fn bundle_of_nothing_is_an_empty_archive() {
    let bytes = bundle_to_zip(&vec![]).expect("an empty bundle succeeds");
    let archive =
        zip::ZipArchive::new(std::io::Cursor::new(bytes)).expect("output is a ZIP archive");
    assert_eq!(archive.len(), 0);
}

#[test]
fn error_descriptions_are_nonempty() {
    assert!(!RecorderError::InvalidName.describe().is_empty());
    assert!(!RecorderError::NotFound.describe().is_empty());
    assert!(!RecorderError::Archive.describe().is_empty());
    assert!(!RecorderError::Io.describe().is_empty());
}

#[test]
fn whole_session_end_to_end() {
    // Start a session at a known instant.
    let t0 = Timestamp { millis: 1_704_067_200_123 };
    let mut log = SampleLog::new();
    log.start(t0);
    log.append(0, 10);
    log.append(120, -5);
    log.append(500, 0);
    log.end_session();

    // Export: exactly three lines, in order, under the derived name.
    let (name, data) = prepare_file(&log);
    assert_eq!(name, "2024-01-01T00-00-00.123Z.csv");
    assert_eq!(data, b"0,10\n120,-5\n500,0\n".to_vec());

    // A listing that now holds the new recording includes it.
    let mut stored: Vec<String> = vec!["old.csv".to_string(), "notes.txt".to_string()];
    stored.push(name.clone());
    let listed = filter_recordings(&stored);
    assert!(listed.contains(&name));

    // Deleting that recording removes exactly it from the next listing.
    assert_eq!(validate_recording_name(&name), Ok(()));
    stored.retain(|n| n != &name);
    let listed_after = filter_recordings(&stored);
    assert!(!listed_after.contains(&name));
    assert!(listed_after.contains(&"old.csv".to_string()));
}
