//! Settings, models and what the user interface asks for.

use std::path::Path;

use notetaker::audio_capture::LoopbackSource;
use notetaker::commands::{
    capture_error, capture_settings, capture_state, choose_loopback, live_off_message,
    name_setting, resolve_loopback, settings_model, speech_models,
};
use notetaker::db::{
    insert_segment, mark_audio_deleted, seed_defaults, set_setting, update_status, upsert_cluster,
};
use notetaker::json::read_json_text;
use notetaker::models::{
    sherpa_paths, sherpa_steps, tarball_paths, whisper_downloads, whisper_models, whisper_path,
    whisper_url, Download, SherpaStep, EMBEDDING_URL, SEGMENTATION_TARBALL_URL,
};
use notetaker::pipeline::{configure, device_index, models_dir, resolve_config, ConfigError};
use notetaker::proc_loopback::Process;
use notetaker::store::{Statement, Status};
use notetaker::transcribe::TranscribedSegment;

fn some(s: &str) -> Option<String> {
    Some(s.to_string())
}

#[test]
fn strings_are_read_from_json() {
    assert_eq!(read_json_text(r#"{"model":"small.en"}"#, "model"), some("small.en"));
    assert_eq!(read_json_text(r#"{"model":1}"#, "model"), None);
    assert_eq!(read_json_text(r#"{"a":{"model":"x"}}"#, "model"), None);
    assert_eq!(read_json_text(r#"["model"]"#, "model"), None);
    assert_eq!(read_json_text(r#""model""#, "model"), None);
    assert_eq!(read_json_text("", "model"), None);
    assert_eq!(read_json_text("{", "model"), None);
}

#[test]
fn settings_are_seeded() {
    let seeds: Vec<(String, String)> = seed_defaults()
        .into_iter()
        .map(|s| match s {
            Statement::DefaultSetting { key, value } => (key, value),
            other => panic!("{other:?}"),
        })
        .collect();
    let keys: Vec<&str> = seeds.iter().map(|s| s.0.as_str()).collect();
    assert_eq!(keys, ["transcribe_live", "transcribe_finalize", "diarize", "summarize", "ollama_url"]);
    assert_eq!(seeds[0].1, r#"{"model":"small.en","backend":"cuda","device_index":0}"#);
    assert_eq!(seeds[1].1, r#"{"model":"medium.en","backend":"cuda","device_index":0}"#);
    assert_eq!(seeds[2].1, r#"{"backend":"cuda","device_index":0}"#);
    assert_eq!(seeds[3].1, r#"{"model":"qwen2.5:7b","backend":"cuda"}"#);
    assert_eq!(seeds[4].1, "http://localhost:11434");
    let s = set_setting("a".to_string(), "b".to_string());
    assert!(matches!(s, Statement::PutSetting { key, value } if key == "a" && value == "b"));
}

#[test]
fn rows_are_changed_by_statements() {
    assert!(matches!(
        update_status(1, Status::Diarizing),
        Statement::SetStatus { recording_id: 1, status: Status::Diarizing }
    ));
    assert_eq!(Status::Diarizing.as_str(), "diarizing");
    assert_eq!(Status::AwaitingNaming.as_str(), "awaiting_naming");
    assert_eq!(Status::Recording.as_str(), "recording");
    assert!(matches!(mark_audio_deleted(2), Statement::MarkAudioDeleted { recording_id: 2 }));
    let piece = TranscribedSegment {
        start_ns: 1,
        end_ns: 2,
        text: "t".to_string(),
        confidence: Some(0.5f64.to_bits()),
        channel: None,
    };
    assert!(matches!(
        insert_segment(3, None, Some(5), &piece),
        Statement::InsertSegment {
            recording_id: 3, cluster_id: None, speaker_id: Some(5), start_ns: 1, end_ns: 2, text, confidence,
        } if text == "t" && confidence == Some(0.5f64.to_bits())
    ));
    assert!(matches!(
        upsert_cluster(3, -1, &vec![9]),
        Statement::UpsertCluster { recording_id: 3, local_id: -1, embedding } if embedding == [9]
    ));
}

#[test]
fn a_configuration_is_read_from_settings() {
    let c = resolve_config(
        Path::new("data"),
        some(r#"{"model":"large-v3","backend":"cuda"}"#),
        some("http://box:1"),
        some(r#"{"model":"llama3.2:3b"}"#),
    )
    .expect("a configuration");
    assert_eq!(c.finalize_model, "large-v3");
    assert_eq!(c.config.device_index, 0);
    assert_eq!(c.config.ollama_url, "http://box:1");
    assert_eq!(c.config.ollama_model, "llama3.2:3b");
    let models = Path::new("data").join("models");
    assert_eq!(
        c.config.whisper_finalize_path,
        models.join("whisper").join("ggml-large-v3.bin")
    );
    assert_eq!(
        (c.config.diarize_segmentation_path, c.config.diarize_embedding_path),
        sherpa_paths(&models)
    );
}

#[test]
fn a_configuration_has_defaults() {
    let c = resolve_config(Path::new("d"), some("[]"), None, None).expect("a configuration");
    assert_eq!(c.finalize_model, "medium.en");
    assert_eq!(c.config.device_index, -1);
    assert_eq!(c.config.ollama_url, "http://localhost:11434");
    assert_eq!(c.config.ollama_model, "qwen2.5:7b");
    let same = configure(Path::new("d"), None, None, None, None);
    assert_eq!(same.config.whisper_finalize_path, c.config.whisper_finalize_path);
    assert_eq!(models_dir(Path::new("d")), Path::new("d").join("models"));
    assert_eq!(device_index("cuda"), 0);
    assert_eq!(device_index("CUDA"), -1);
}

#[test]
fn a_configuration_needs_its_setting() {
    let missing = resolve_config(Path::new("d"), None, None, None);
    assert!(matches!(missing, Err(ConfigError::MissingFinalize)));
    let malformed = resolve_config(Path::new("d"), some("{nope"), None, None);
    assert!(matches!(malformed, Err(ConfigError::MalformedFinalize(_))));
}

#[test]
fn models_have_addresses_and_places() {
    assert_eq!(
        whisper_url("tiny"),
        "https://huggingface.co/ggerganov/whisper.cpp/resolve/main/ggml-tiny.bin"
    );
    assert_eq!(
        whisper_path(Path::new("m"), "tiny"),
        Path::new("m").join("whisper").join("ggml-tiny.bin")
    );
    assert_eq!(
        whisper_path(Path::new("m"), "a/b"),
        Path::new("m").join("whisper").join("ggml-a/b.bin")
    );
    let dir = Path::new("m").join("sherpa");
    let (seg, emb) = sherpa_paths(Path::new("m"));
    assert_eq!(seg, dir.join("sherpa-onnx-pyannote-segmentation-3-0").join("model.onnx"));
    assert_eq!(emb, dir.join("3dspeaker_speech_eres2net_base_sv_zh-cn_3dspeaker_16k.onnx"));
    let (tarball, into) = tarball_paths(Path::new("m"));
    assert_eq!(tarball, dir.join("sherpa-onnx-pyannote-segmentation-3-0.tar.bz2"));
    assert_eq!(into, dir);
    assert!(SEGMENTATION_TARBALL_URL.ends_with(".tar.bz2") && EMBEDDING_URL.ends_with(".onnx"));
    let models = whisper_models();
    assert_eq!(models.len(), 10);
    assert_eq!((models[9].name, models[9].size_mb, models[9].sha256), ("large-v3-turbo", 1600, None));
}

#[test]
fn only_missing_models_are_fetched() {
    assert!(sherpa_steps(true, true).is_empty());
    assert_eq!(sherpa_steps(false, true), [SherpaStep::FetchEmbedding]);
    assert_eq!(
        sherpa_steps(false, false),
        [
            SherpaStep::FetchEmbedding,
            SherpaStep::FetchTarball,
            SherpaStep::UnpackTarball,
            SherpaStep::RemoveTarball,
        ]
    );
    let one = whisper_downloads("a", "a");
    assert_eq!(one.len(), 1);
    let two = whisper_downloads("a", "b");
    assert_eq!(two.len(), 2);
    assert_eq!((two[0].name.as_str(), two[0].label.as_str()), ("a", "whisper-live:a"));
    assert_eq!((two[1].name.as_str(), two[1].label.as_str()), ("b", "whisper-finalize:b"));
}

#[test]
fn downloads_show_their_progress() {
    let p = Download::not_needed("m");
    assert!(p.done && p.bytes == 0 && p.total.is_none() && p.label == "m");
    let mut d = Download::new("m", Some(10));
    let p = d.piece(4);
    assert_eq!((p.bytes, p.total, p.done), (4, Some(10), false));
    assert_eq!(d.piece(6).bytes, 10);
    let p = d.finish();
    assert_eq!((p.label.as_str(), p.bytes, p.total, p.done), ("m", 10, Some(10), true));
}

fn processes() -> Vec<Process> {
    vec![
        Process { pid: 3, name: "discordptb.EXE".to_string() },
        Process { pid: 4, name: "other.exe".to_string() },
    ]
}

#[test]
fn the_loopback_channel_comes_from_a_device() {
    for source in ["", "default", "device"] {
        let r = resolve_loopback(source, some("Speakers"), &processes(), true);
        assert!(matches!(r, Ok(LoopbackSource::Device { name }) if name == some("Speakers")));
    }
}

#[test]
fn the_loopback_channel_comes_from_a_process() {
    let r = resolve_loopback("discord", None, &processes(), true);
    assert!(matches!(r, Ok(LoopbackSource::Process { pid: 3, label }) if label == "Discord"));
    let r = choose_loopback("teams", None, None, Some(8), true);
    assert!(matches!(r, Ok(LoopbackSource::Process { pid: 8, label }) if label == "Teams"));
    let r = resolve_loopback("pid:+042", None, &processes(), true);
    assert!(matches!(r, Ok(LoopbackSource::Process { pid: 42, label }) if label == "pid 42"));
}

#[test]
fn the_loopback_channel_can_be_refused() {
    let refused = |source: &str, per_process: bool| {
        resolve_loopback(source, None, &vec![], per_process).expect_err("refused")
    };
    assert_eq!(refused("discord", true), "Discord is not running — start the call first");
    assert_eq!(refused("teams", true), "Teams is not running");
    assert_eq!(refused("pid:x", true), "bad pid: pid:x");
    assert_eq!(refused("pid:", true), "bad pid: pid:");
    assert_eq!(refused("zoom", true), "unknown loopback source: zoom");
    assert_eq!(refused("pid:7", false), "unknown loopback source: pid:7");
    assert_eq!(refused("discord", false), "unknown loopback source: discord");
}

#[test]
fn capturing_goes_by_the_settings() {
    let s = capture_settings(
        some("Mic"),
        some("discord"),
        some(""),
        some(r#"{"model":"tiny","backend":"cuda"}"#),
    );
    assert_eq!(s.mic_name, some("Mic"));
    assert_eq!(s.loopback_source, "discord");
    assert_eq!(s.loopback_name, None);
    assert_eq!((s.live_model.as_str(), s.device_index), ("tiny", 0));
    let s = capture_settings(None, None, None, None);
    assert_eq!((s.live_model.as_str(), s.device_index), ("small.en", -1));
    assert_eq!(s.loopback_source, "");
    assert_eq!(name_setting(some("")), None);
    assert_eq!(
        live_off_message("tiny"),
        "Live transcription off: model 'tiny' not downloaded yet"
    );
}

#[test]
fn speech_models_have_defaults() {
    assert_eq!(speech_models(None, None), ("small.en".to_string(), "medium.en".to_string()));
    assert_eq!(
        speech_models(some(r#"{"model":"a"}"#), some("nonsense")),
        ("a".to_string(), "medium.en".to_string())
    );
    assert_eq!(settings_model(None), None);
    assert_eq!(settings_model(some(r#"{"model":"b"}"#)), some("b"));
}

#[test]
fn what_is_going_on_is_told() {
    let word = |capturing: bool, id: Option<i64>, stage: Option<&str>| {
        capture_state(capturing, id, stage.map(|s| s.to_string())).state
    };
    assert_eq!(word(true, Some(1), Some("naming")), "recording");
    assert_eq!(word(false, Some(1), Some("naming")), "pipeline");
    assert_eq!(word(false, Some(1), Some("complete")), "idle");
    assert_eq!(word(false, Some(1), None), "idle");
    assert_eq!(word(false, None, Some("naming")), "idle");
    let s = capture_state(false, Some(1), some("naming"));
    assert_eq!((s.recording_id, s.pipeline_stage), (Some(1), some("naming")));
}

#[test]
fn the_current_error_counts_first() {
    assert_eq!(capture_error(some("now"), some("before")), some("now"));
    assert_eq!(capture_error(None, some("before")), some("before"));
    assert_eq!(capture_error(None, None), None);
}
