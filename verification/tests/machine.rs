//! Hardware, processes and drives.

use std::path::{Path, PathBuf};

use notetaker::call_detector::{call_app_of_lowercase, detect_call_app, CallApp};
use notetaker::device_watcher::{
    current_drives, drive_roots, inspect_drive, is_audio, names_audio, volume_label, AudioWalk,
    DriveWatch, ENOUGH_FILES,
};
use notetaker::hardware::{
    classify_vendor, detect, max_cuda_vram, merge_gpus, parse_nvidia_smi, pick_backend, pick_llm,
    pick_whisper, query_nvidia_smi, query_wmi_gpus, ram_gb, Backend, GpuInfo, GpuVendor,
    VideoController,
};
use notetaker::models::whisper_models;
use notetaker::proc_loopback::{
    find_pid, list_audio_sessions, Process, ProcessLoopbackFormat, RawSession,
};

fn gpu(name: &str, vendor: GpuVendor, vram_mb: Option<u32>) -> GpuInfo {
    GpuInfo {
        name: name.to_string(),
        vendor,
        vram_mb,
        cuda_capable: vendor == GpuVendor::Nvidia,
        directml_capable: vendor != GpuVendor::Unknown,
    }
}

fn strings(v: &[&str]) -> Vec<String> {
    v.iter().map(|s| s.to_string()).collect()
}

#[test]
fn nvidia_smi_is_read() {
    let out = "NVIDIA GeForce RTX 4060 Ti, 8188\r\nno comma here\n Tesla T4 ,[N/A]\n\n";
    let gpus = parse_nvidia_smi(out);
    assert_eq!(gpus.len(), 2);
    assert_eq!(gpus[0].name, "NVIDIA GeForce RTX 4060 Ti");
    assert_eq!(gpus[0].vram_mb, Some(8188));
    assert_eq!(gpus[0].vendor, GpuVendor::Nvidia);
    assert!(gpus[0].cuda_capable && gpus[0].directml_capable);
    assert_eq!((gpus[1].name.as_str(), gpus[1].vram_mb), ("Tesla T4", None));
}

#[test]
fn what_is_not_unicode_in_nvidia_smi_is_replaced() {
    let gpus = query_nvidia_smi(true, b"A\xff, 1000\n");
    assert_eq!(gpus.len(), 1);
    assert_eq!(gpus[0].name, "A\u{fffd}");
    assert_eq!(gpus[0].vram_mb, Some(1000));
    assert!(query_nvidia_smi(false, b"A, 1000\n").is_empty());
}

#[test]
fn vendors_are_told_by_names() {
    assert_eq!(classify_vendor("NVIDIA Foo"), GpuVendor::Nvidia);
    assert_eq!(classify_vendor("GeForce 8800"), GpuVendor::Nvidia);
    assert_eq!(classify_vendor("Quadro P400"), GpuVendor::Nvidia);
    assert_eq!(classify_vendor("TESLA K80"), GpuVendor::Nvidia);
    assert_eq!(classify_vendor("Intel(R) UHD Graphics"), GpuVendor::Intel);
    assert_eq!(classify_vendor("AMD Radeon 780M"), GpuVendor::Amd);
    assert_eq!(classify_vendor("Radeon"), GpuVendor::Amd);
    assert_eq!(classify_vendor("Microsoft Basic Display Adapter"), GpuVendor::Unknown);
}

#[test]
fn video_controllers_are_read() {
    let rows = vec![
        VideoController { name: None, adapter_ram: Some(1) },
        VideoController { name: Some("Intel UHD".to_string()), adapter_ram: Some(1_073_741_824) },
        VideoController { name: Some("Basic".to_string()), adapter_ram: None },
    ];
    let gpus = query_wmi_gpus(&rows);
    assert_eq!(gpus.len(), 2);
    assert_eq!(gpus[0].vram_mb, Some(1024));
    assert!(!gpus[0].cuda_capable && gpus[0].directml_capable);
    assert!(!gpus[1].cuda_capable && !gpus[1].directml_capable);
    assert_eq!(gpus[1].vram_mb, None);
}

#[test]
fn gpus_of_one_name_are_one() {
    let first = vec![gpu("A", GpuVendor::Nvidia, Some(8000))];
    let second = vec![
        gpu("B", GpuVendor::Intel, None),
        gpu("A", GpuVendor::Nvidia, Some(4)),
        gpu("B", GpuVendor::Intel, Some(1)),
    ];
    let all = merge_gpus(first, second);
    let names: Vec<&str> = all.iter().map(|g| g.name.as_str()).collect();
    assert_eq!(names, ["A", "B"]);
    assert_eq!(all[0].vram_mb, Some(8000));
    let twice = vec![gpu("B", GpuVendor::Intel, None), gpu("B", GpuVendor::Intel, None)];
    assert_eq!(merge_gpus(vec![], twice).len(), 2);
}

#[test]
fn the_backend_goes_by_the_gpus() {
    assert_eq!(pick_backend(&vec![gpu("A", GpuVendor::Nvidia, Some(4096))]), Backend::Cuda);
    assert_eq!(pick_backend(&vec![gpu("A", GpuVendor::Nvidia, Some(4095))]), Backend::DirectML);
    assert_eq!(pick_backend(&vec![gpu("A", GpuVendor::Nvidia, None)]), Backend::DirectML);
    assert_eq!(pick_backend(&vec![gpu("A", GpuVendor::Unknown, Some(9000))]), Backend::Cpu);
    assert_eq!(pick_backend(&vec![]), Backend::Cpu);
    assert_eq!(
        max_cuda_vram(&vec![
            gpu("A", GpuVendor::Nvidia, Some(5)),
            gpu("B", GpuVendor::Intel, Some(50)),
            gpu("C", GpuVendor::Nvidia, Some(7)),
            gpu("D", GpuVendor::Nvidia, None),
        ]),
        7
    );
}

#[test]
fn models_are_recommended_by_memory_and_cores() {
    assert_eq!(pick_whisper(&Backend::Cuda, 16_000, 1), ("large-v3-turbo", "large-v3"));
    assert_eq!(pick_whisper(&Backend::Cuda, 8_000, 1), ("medium", "large-v3"));
    assert_eq!(pick_whisper(&Backend::Cuda, 7_999, 1), ("small", "medium"));
    assert_eq!(pick_whisper(&Backend::DirectML, 0, 1), ("base", "small"));
    assert_eq!(pick_whisper(&Backend::Cpu, 0, 8), ("base.en", "medium.en"));
    assert_eq!(pick_whisper(&Backend::Cpu, 0, 7), ("base.en", "small.en"));
    assert_eq!(pick_llm(&Backend::Cuda, 16_000, 0), "qwen2.5:14b");
    assert_eq!(pick_llm(&Backend::Cuda, 8_000, 0), "qwen2.5:7b");
    assert_eq!(pick_llm(&Backend::Cuda, 1, 64), "llama3.2:3b");
    assert_eq!(pick_llm(&Backend::DirectML, 0, 32), "qwen2.5:7b");
    assert_eq!(pick_llm(&Backend::Cpu, 0, 31), "llama3.2:3b");
}

#[test]
fn every_recommended_model_is_one_that_there_is() {
    let names: Vec<&str> = whisper_models().iter().map(|m| m.name).collect();
    for backend in [Backend::Cpu, Backend::Cuda, Backend::DirectML] {
        for vram in [0, 8_000, 16_000] {
            for cores in [1, 8] {
                let (live, finalize) = pick_whisper(&backend, vram, cores);
                assert!(names.contains(&live) && names.contains(&finalize));
            }
        }
    }
}

#[test]
fn a_machine_is_profiled() {
    let p = detect(
        12,
        34_000_000_000,
        parse_nvidia_smi("NVIDIA GeForce RTX 4060 Ti, 8188\n"),
        vec![gpu("Intel UHD", GpuVendor::Intel, Some(128))],
    );
    assert_eq!((p.cpu_cores, p.total_ram_gb, p.gpus.len()), (12, 31, 2));
    assert_eq!(p.recommended_backend, Backend::Cuda);
    assert_eq!(p.recommended_whisper_live, "medium");
    assert_eq!(p.recommended_whisper_finalize, "large-v3");
    assert_eq!(p.recommended_llm, "qwen2.5:7b");
    assert_eq!(ram_gb(32 << 30), 32);
}

#[test]
fn call_programs_are_told_by_processes() {
    assert_eq!(detect_call_app(&strings(&["Explorer.EXE", "Discord.exe"])), CallApp::Discord);
    assert_eq!(detect_call_app(&strings(&["Discord.exe", "MS-Teams_autostart.exe"])), CallApp::Teams);
    assert_eq!(detect_call_app(&strings(&["Teams.exe"])), CallApp::Teams);
    assert_eq!(detect_call_app(&strings(&["xteams.exe", "discordptb.exe"])), CallApp::NotRunning);
    assert_eq!(call_app_of_lowercase(&strings(&["Teams.exe"])), CallApp::NotRunning);
    assert_eq!(CallApp::Discord.as_str(), "discord");
    assert_eq!(CallApp::Teams.as_str(), "teams");
    assert_eq!(CallApp::NotRunning.as_str(), "none");
}

#[test]
fn a_process_is_found_whatever_the_case() {
    let running = vec![
        Process { pid: 1, name: "init".to_string() },
        Process { pid: 7, name: "DISCORD.EXE".to_string() },
        Process { pid: 8, name: "discord.exe".to_string() },
    ];
    assert_eq!(find_pid(&["Nothing.exe", "Discord.exe"], &running), Some(7));
    assert_eq!(find_pid(&["Nothing.exe"], &running), None);
    assert_eq!(find_pid(&[], &running), None);
}

#[test]
fn each_process_with_sound_is_listed_once() {
    let raw = |pid: u32, process: Option<&str>, display: Option<&str>| RawSession {
        pid,
        process_name: process.map(|s| s.to_string()),
        display_name: display.map(|s| s.to_string()),
    };
    let v = list_audio_sessions(Some(vec![
        raw(0, None, Some("System")),
        raw(4, Some("zeta.exe"), None),
        raw(5, Some("Beta.EXE"), None),
        raw(4, Some("zeta.exe"), Some("again")),
        raw(6, None, None),
        raw(7, Some("x.exe"), Some("Alpha")),
        raw(8, Some("y.Exe"), Some("")),
        raw(9, Some("y.Exe"), None),
    ]));
    let shown: Vec<(u32, &str, &str)> =
        v.iter().map(|s| (s.pid, s.display_name.as_str(), s.process_name.as_str())).collect();
    assert_eq!(
        shown,
        [
            (8, "", "y.Exe"),
            (7, "Alpha", "x.exe"),
            (5, "Beta", "Beta.EXE"),
            (6, "pid 6", "pid 6"),
            (9, "y.Exe", "y.Exe"),
            (4, "zeta", "zeta.exe"),
        ]
    );
    assert!(list_audio_sessions(None).is_empty());
    assert_eq!(ProcessLoopbackFormat { channels: 2, sample_rate: 48_000 }.channels, 2);
}

#[test]
fn drives_are_read_from_a_mask() {
    assert_eq!(drive_roots(0), Vec::<String>::new());
    assert_eq!(drive_roots(0b1_0100), ["C:\\", "E:\\"]);
    assert_eq!(drive_roots(1 << 25), ["Z:\\"]);
    assert_eq!(drive_roots(1 << 26), Vec::<String>::new());
    assert_eq!(current_drives(&drive_roots(0b1_0100), &vec![3, 2]), ["E:\\"]);
}

#[test]
fn a_drive_is_new_when_it_was_not_there_before() {
    let mut w = DriveWatch::new(strings(&["C:\\"]));
    assert!(w.look(strings(&["C:\\"])).is_empty());
    assert_eq!(w.look(strings(&["C:\\", "E:\\"])), ["E:\\"]);
    assert!(w.look(strings(&["C:\\", "E:\\"])).is_empty());
    assert!(w.look(strings(&["C:\\"])).is_empty());
    assert_eq!(w.look(strings(&["C:\\", "E:\\"])), ["E:\\"]);
}

#[test]
fn audio_files_are_told_by_their_extension() {
    for name in ["a.wav", "dir/b.MP3", "c.m4a", "d.FLAC", "e.tar.ogg"] {
        assert!(is_audio(Path::new(name)), "{name}");
    }
    for name in ["a.txt", "wav", ".wav", "a.wav/b", "a.wavx", "", "..", "a."] {
        assert!(!is_audio(Path::new(name)), "{name}");
    }
    assert!(names_audio("ogg") && !names_audio("OGG"));
}

#[test]
fn a_walk_collects_audio_files() {
    let mut w = AudioWalk::new(PathBuf::from("root"));
    assert_eq!(w.next_dir(), Some(PathBuf::from("root")));
    w.entry(PathBuf::from("root/sub"), true);
    w.entry(PathBuf::from("root/a.wav"), false);
    w.entry(PathBuf::from("root/a.txt"), false);
    w.entry(PathBuf::from("root/x.wav"), true);
    assert_eq!(w.next_dir(), Some(PathBuf::from("root/x.wav")));
    assert_eq!(w.next_dir(), Some(PathBuf::from("root/sub")));
    w.entry(PathBuf::from("root/sub/b.ogg"), false);
    assert_eq!(w.next_dir(), None);
    assert_eq!(w.finish(), [PathBuf::from("root/a.wav"), PathBuf::from("root/sub/b.ogg")]);
}

#[test]
fn audio_files_come_out_in_order() {
    let mut w = AudioWalk::new(PathBuf::from("root"));
    w.next_dir();
    for name in ["c.wav", "a b.wav", "sub/a.wav", "b.WAV", "a.wav", "a/z.wav"] {
        w.entry(PathBuf::from("root").join(name), false);
    }
    let names: Vec<String> =
        w.finish().iter().map(|p| p.display().to_string().replace('\\', "/")).collect();
    assert_eq!(
        names,
        [
            "root/a/z.wav", "root/a b.wav", "root/a.wav", "root/b.WAV", "root/c.wav",
            "root/sub/a.wav",
        ]
    );
}

#[test]
fn a_walk_stops_when_there_are_files_enough() {
    let mut w = AudioWalk::new(PathBuf::from("root"));
    w.next_dir();
    w.entry(PathBuf::from("sub"), true);
    w.entry(PathBuf::from("sub2"), true);
    for i in 0..ENOUGH_FILES {
        w.entry(PathBuf::from(format!("{i}.wav")), false);
    }
    assert_eq!(w.next_dir(), Some(PathBuf::from("sub2")));
    w.entry(PathBuf::from("one more.wav"), false);
    assert_eq!(w.next_dir(), None);
    assert_eq!(w.finish().len(), ENOUGH_FILES + 1);
}

#[test]
fn only_drives_with_audio_are_reported() {
    assert!(inspect_drive(PathBuf::from("E:\\"), None, None).is_none());
    assert!(inspect_drive(PathBuf::from("E:\\"), Some(vec![]), None).is_none());
    let d = inspect_drive(
        PathBuf::from("E:\\"),
        Some(vec![PathBuf::from("E:\\a.wav")]),
        Some("REC".to_string()),
    );
    let d = d.expect("a device");
    assert_eq!(d.mount, PathBuf::from("E:\\"));
    assert_eq!(d.label.as_deref(), Some("REC"));
    assert_eq!(d.audio_files.len(), 1);
}

#[test]
fn labels_end_at_a_zero() {
    let mut buf: Vec<u16> = "RÉC".encode_utf16().collect();
    buf.extend([0, 88, 0]);
    assert_eq!(volume_label(Some(&buf)), Some("RÉC".to_string()));
    assert_eq!(volume_label(Some(&[65, 66])), Some("AB".to_string()));
    assert_eq!(volume_label(Some(&[0xd800])), Some("\u{fffd}".to_string()));
    assert_eq!(volume_label(Some(&[0, 65])), None);
    assert_eq!(volume_label(Some(&[])), None);
    assert_eq!(volume_label(None), None);
}
