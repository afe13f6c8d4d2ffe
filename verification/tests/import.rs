//! Importing from a recorder, and deleting there.

use std::path::{Path, PathBuf};

use notetaker::commands::{
    import_job, import_stage, sync_summary, verified_sources, wipes,
};
use notetaker::db::{call_path, create_call_recording, create_imported_recording};
use notetaker::hash::{sha256_hex, Checksum};
use notetaker::ingest::{
    check_extension, check_format, copy_paths, import_file, import_filename, wipe_refusal, Copying,
    ImportError, ImportResult, Wipe, WipeStep,
};
use notetaker::models::{check_checksum, verify_sha256};
use notetaker::paths::partial_path;
use notetaker::store::{Source, Statement, Status};

const ABC: &str = "ba7816bf8f01cfea414140de5dae2223b00361a396177a9cb410ff61f20015ad";

#[test]
fn checksums_are_those_of_the_standard() {
    assert_eq!(sha256_hex(b"abc"), ABC);
    assert_eq!(
        sha256_hex(b""),
        "e3b0c44298fc1c149afbf4c8996fb92427ae41e4649b934ca495991b7852b855"
    );
    let mut c = Checksum::new();
    c.feed(b"a");
    c.feed(b"");
    c.feed(b"bc");
    assert_eq!(c.bytes(), 3);
    assert_eq!(c.finish(), ABC);
}

#[test]
fn checksums_are_checked_whatever_the_case() {
    assert!(verify_sha256(b"abc", &ABC.to_uppercase()).is_ok());
    let e = verify_sha256(b"abd", ABC).expect_err("a mismatch");
    assert_eq!(e.expected, ABC);
    assert_eq!(
        e.message("m.bin"),
        format!("checksum mismatch for m.bin: got {}, expected {ABC}", sha256_hex(b"abd"))
    );
    assert!(check_checksum("ab".to_string(), "AB").is_ok());
}

#[test]
fn only_wav_files_are_imported() {
    assert!(check_format(Path::new("a/b.wav")).is_ok());
    assert!(check_format(Path::new("B.WAV")).is_ok());
    let e = check_format(Path::new("a.MP3")).expect_err("refused");
    assert_eq!(
        e.message(),
        "unsupported format '.mp3' — v1 only handles .wav from the device. Convert with \
         `ffmpeg -i in.mp3 out.wav` and import the .wav."
    );
    assert!(matches!(
        check_format(Path::new("wav")),
        Err(ImportError::UnsupportedFormat { extension }) if extension.is_empty()
    ));
    assert!(check_extension("WAV".to_string()).is_err());
}

#[test]
fn files_keep_their_names() {
    assert_eq!(import_filename(Path::new("E:/rec/R 01.wav"), 5), "R 01.wav");
    assert_eq!(import_filename(Path::new("/"), 5), "import_5.wav");
    assert_eq!(import_filename(Path::new(".."), -5), "import_-5.wav");
}

#[test]
fn copies_have_places_of_their_own() {
    let (dest, partial) = copy_paths(Path::new("data"), 7, "R.01.wav");
    assert_eq!(dest, Path::new("data").join("audio").join("import_7_R.01.wav"));
    assert_eq!(partial, Path::new("data").join("audio").join("import_7_R.01.partial"));
    let (other, _) = copy_paths(Path::new("data"), 71, "R.01.wav");
    assert_ne!(dest, other);
    let (colon, partial) = copy_paths(Path::new("data"), 7, "a:b.wav");
    assert_eq!(colon, Path::new("data").join("audio").join("import_7_a:b.wav"));
    assert_eq!(partial, Path::new("data").join("audio").join("import_7_a:b.partial"));
    let (inside, _) = copy_paths(Path::new("//host/share"), 7, "x/y.wav");
    assert_eq!(inside, Path::new("//host/share").join("audio").join("import_7_x/y.wav"));
    assert_eq!(partial_path(Path::new("m/ggml.bin")), PathBuf::from("m/ggml.partial"));
    assert_eq!(partial_path(Path::new("m/.bin")), PathBuf::from("m/.bin.partial"));
    assert_eq!(partial_path(Path::new("m/.a.b")), PathBuf::from("m/.a.partial"));
    assert_eq!(call_path(Path::new("data"), 12), Path::new("data").join("audio").join("call_12.wav"));
}

#[test]
fn new_recordings_are_described() {
    let s = create_call_recording(Path::new("data/audio"), "now".to_string());
    assert!(matches!(
        s,
        Statement::InsertRecording { source: Source::Call, source_filename: None, imported_at, audio_path }
            if imported_at == "now" && audio_path == "data/audio"
    ));
    let s = create_imported_recording("a.wav", Path::new("E:/a.wav"), "now".to_string());
    assert!(matches!(
        s,
        Statement::InsertRecording { source: Source::Device, source_filename: Some(f), audio_path, .. }
            if f == "a.wav" && audio_path == "E:/a.wav"
    ));
    assert_eq!(Source::Call.as_str(), "call");
    assert_eq!(Source::Device.as_str(), "device");
    assert_eq!(Source::Call.initial_status(), Status::Recording);
    assert_eq!(Source::Device.initial_status().as_str(), "transcribing");
    assert_eq!(Source::Device.channel_layout(), "mono");
}

fn on_disk(data: &[u8]) -> Checksum {
    let mut c = Checksum::new();
    c.feed(data);
    c
}

#[test]
fn a_good_copy_is_adopted() {
    let mut copying = Copying::new(Path::new("data"), 9, "a.wav", 3);
    copying.piece(b"ab");
    copying.piece(b"c");
    assert_eq!(copying.bytes_read(), 3);
    let copied = copying.finish().ok().expect("as long as expected");
    let good = copied.verify(on_disk(b"abc"), 3).ok().expect("the same data");
    let (dest, partial) = copy_paths(Path::new("data"), 9, "a.wav");
    assert_eq!((good.dest_path(), good.partial_path()), (dest.as_path(), partial.as_path()));
    let s = good.adopt();
    let text = dest.to_string_lossy().into_owned();
    assert!(matches!(s, Statement::AdoptCopy { recording_id: 9, audio_path } if audio_path == text));
    let r = good.result(PathBuf::from("E:/a.wav"));
    assert!(r.verified && r.error.is_none());
    assert_eq!((r.recording_id, r.bytes), (Some(9), 3));
    assert_eq!((r.source_sha256.as_str(), r.dest_sha256.as_str()), (ABC, ABC));
    assert_eq!(r.source_path, PathBuf::from("E:/a.wav"));
    assert_eq!(r.dest_path, Some(dest));
    assert_eq!(import_job(&r), Some(9));
    assert_eq!(import_stage(&r), "verified");
}

#[test]
fn a_short_copy_is_rejected() {
    let mut copying = Copying::new(Path::new("data"), 9, "a.wav", 4);
    copying.piece(b"abc");
    assert_eq!(copying.partial_path(), Path::new("data").join("audio").join("import_9_a.partial"));
    let r = copying.finish().err().expect("too short");
    assert_eq!(r.partial, Path::new("data").join("audio").join("import_9_a.partial"));
    assert_eq!(r.error.message(), "size mismatch: expected 4 bytes, copied 3");
    assert!(matches!(
        r.statement,
        Statement::SetStatus { recording_id: 9, status: Status::Failed }
    ));
    assert_eq!(Status::Failed.as_str(), "failed");
}

#[test]
fn a_copy_with_other_data_is_rejected() {
    for (data, size) in [(b"abd", 3), (b"abc", 4)] {
        let mut copying = Copying::new(Path::new("data"), 9, "a.wav", 3);
        copying.piece(b"abc");
        let copied = copying.finish().ok().expect("as long as expected");
        let partial = copied.partial_path().to_path_buf();
        let r = copied.verify(on_disk(data), size).err().expect("not the same");
        assert_eq!(r.partial, partial);
        assert!(matches!(
            r.statement,
            Statement::SetStatus { recording_id: 9, status: Status::Failed }
        ));
        assert_eq!(
            r.error.message(),
            format!(
                "verification failed: source sha256 {ABC} vs dest sha256 {}, dest size {size} vs expected 3",
                sha256_hex(data)
            )
        );
    }
}

#[test]
fn a_failed_import_is_reported() {
    let r = import_file(PathBuf::from("E:/a.wav"), Err("why".to_string()));
    assert_eq!(r.source_path, PathBuf::from("E:/a.wav"));
    assert!(!r.verified && r.recording_id.is_none() && r.dest_path.is_none());
    assert_eq!((r.bytes, r.source_sha256.as_str(), r.dest_sha256.as_str()), (0, "", ""));
    assert_eq!(r.error.as_deref(), Some("why"));
    assert_eq!(import_job(&r), None);
    assert_eq!(import_stage(&r), "failed");
}

fn files(names: &[&str]) -> Vec<PathBuf> {
    names.iter().map(PathBuf::from).collect()
}

#[test]
fn files_on_the_device_are_deleted() {
    let mut w =
        Wipe::new(PathBuf::from("E"), Some(PathBuf::from("/mnt/e")), files(&["E/a.wav", "E/b.wav"]));
    assert_eq!(w.step(), WipeStep::Resolve(0));
    w.deleted(true);
    assert_eq!(w.step(), WipeStep::Resolve(0), "nothing was to be deleted yet");
    w.resolved(&Some(PathBuf::from("/mnt/e/a.wav")));
    assert_eq!(w.step(), WipeStep::Delete(0));
    w.resolved(&Some(PathBuf::from("/home/a.wav")));
    assert_eq!(w.step(), WipeStep::Delete(0));
    w.deleted(true);
    assert_eq!(w.step(), WipeStep::Resolve(1));
    w.resolved(&Some(PathBuf::from("/mnt/e/b.wav")));
    w.deleted(false);
    assert_eq!(w.step(), WipeStep::Done(1));
    w.resolved(&None);
    w.deleted(true);
    assert_eq!(w.step(), WipeStep::Done(1));
    assert_eq!(w.mount(), Path::new("/mnt/e"));
    assert_eq!(Wipe::new(PathBuf::from("E"), None, vec![]).step(), WipeStep::Done(0));
}

#[test]
fn files_elsewhere_are_not_deleted() {
    let three = files(&["/mnt/e/a.wav", "/mnt/e/b.wav", "/mnt/e/c.wav"]);
    let mut w = Wipe::new(PathBuf::from("/mnt/e"), None, three);
    w.resolved(&None);
    assert_eq!(w.step(), WipeStep::Delete(0));
    w.deleted(true);
    w.resolved(&Some(PathBuf::from("/home/b.wav")));
    assert_eq!(w.step(), WipeStep::Refuse(1));
    w.deleted(true);
    w.resolved(&None);
    assert_eq!(w.step(), WipeStep::Refuse(1), "nothing behind it is deleted");
    let mut w = Wipe::new(PathBuf::from("/mnt/e"), None, files(&["/mnt/elsewhere"]));
    w.resolved(&None);
    assert_eq!(w.step(), WipeStep::Refuse(0));
    assert_eq!(
        wipe_refusal("/home/a.wav", "/mnt/e"),
        "refusing to delete /home/a.wav — not under mount /mnt/e"
    );
}

fn result(verified: bool) -> ImportResult {
    let mut r = import_file(PathBuf::from("x"), Err("e".to_string()));
    r.verified = verified;
    r
}

#[test]
fn a_device_is_summed_up() {
    let results = vec![result(true), result(false), result(true)];
    assert_eq!(verified_sources(&results), [0, 2]);
    let s = sync_summary(results, Some(Ok(2)));
    assert_eq!((s.verified_count, s.failed_count, s.wiped_count), (2, 1, 2));
    assert!(s.wipe_error.is_none() && s.results.len() == 3);
    let s = sync_summary(vec![result(false)], Some(Err("refused".to_string())));
    assert_eq!((s.verified_count, s.failed_count, s.wiped_count), (0, 1, 0));
    assert_eq!(s.wipe_error.as_deref(), Some("refused"));
    let s = sync_summary(vec![], None);
    assert_eq!((s.wiped_count, s.wipe_error), (0, None));
    assert!(wipes(true, 1) && !wipes(true, 0) && !wipes(false, 1));
}
