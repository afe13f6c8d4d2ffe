//! What the user interface asks for.

use vstd::prelude::*;
use vstd::string::*;

use crate::audio_capture::LoopbackSource;
use crate::device_watcher::{not_empty, unless_empty};
use crate::digits::{
    decimal, decimal_u64, is_digit, law_decimals_read_back, parse_u32, parsed_u32,
};
use crate::ingest::ImportResult;
use crate::json::{read_setting_text, setting_text};
use crate::pipeline::{device_index, device_of, string_or, text_or};
use crate::proc_loopback::{find_pid, lowercase_process_names, pid_of, Process};
use crate::text::{
    chars_of, concat2, concat3, lowercase_texts, opt_text, same, starts_with, string_of,
};

verus! {

/// The sound devices.
#[derive(Debug)]
pub struct AudioDevices {
    pub inputs: Vec<String>,
    pub outputs: Vec<String>,
    pub default_input: Option<String>,
    pub default_output: Option<String>,
}

/// What has become of the files of a device.
#[derive(Debug)]
pub struct SyncSummary {
    pub results: Vec<ImportResult>,
    pub verified_count: usize,
    pub failed_count: usize,
    pub wiped_count: usize,
    pub wipe_error: Option<String>,
}

/// What is going on.
#[derive(Debug)]
pub struct CaptureState {
    /// "idle", "recording" or "pipeline".
    pub state: String,
    pub recording_id: Option<i64>,
    /// The stage that the work on a recording was last in, if any.
    pub pipeline_stage: Option<String>,
}

/// Which models are there.
#[derive(Debug)]
pub struct ModelsStatus {
    pub whisper_live: String,
    pub whisper_live_present: bool,
    pub whisper_finalize: String,
    pub whisper_finalize_present: bool,
    pub sherpa_segmentation_present: bool,
    pub sherpa_embedding_present: bool,
}

/// A source for the loopback channel, or why there is none, as a mathematical value.
pub enum Loopback {
    Device { name: Option<Seq<char>> },
    Process { pid: u32, label: Seq<char> },
    Refused { reason: Seq<char> },
}

/// What a result says about the source for the loopback channel.
pub open spec fn loopback_view(r: Result<LoopbackSource, String>) -> Loopback {
    match r {
        Ok(LoopbackSource::Device { name }) => Loopback::Device { name: opt_text(name) },
        Ok(LoopbackSource::Process { pid, label }) => Loopback::Process { pid, label: label@ },
        Err(reason) => Loopback::Refused { reason: reason@ },
    }
}

/// The process, if there is one, under this label.
pub open spec fn process_or(pid: Option<u32>, label: Seq<char>, reason: Seq<char>) -> Loopback {
    match pid {
        Some(pid) => Loopback::Process { pid, label },
        None => Loopback::Refused { reason },
    }
}

/// The source that a setting names, where `discord` and `teams` are the processes of those
/// programs, and `per_process` says whether the sound of one process can be captured.
pub open spec fn loopback_for(
    source: Seq<char>,
    device_name: Option<Seq<char>>,
    discord: Option<u32>,
    teams: Option<u32>,
    per_process: bool,
) -> Loopback {
    if source.len() == 0 || source == "default"@ || source == "device"@ {
        Loopback::Device { name: device_name }
    } else if per_process && source == "discord"@ {
        process_or(discord, "Discord"@, "Discord is not running — start the call first"@)
    } else if per_process && source == "teams"@ {
        process_or(teams, "Teams"@, "Teams is not running"@)
    } else if per_process && "pid:"@.is_prefix_of(source) {
        match parsed_u32(source.skip(4)) {
            Some(pid) => Loopback::Process { pid, label: "pid "@ + decimal(pid as nat) },
            None => Loopback::Refused { reason: "bad pid: "@ + source },
        }
    } else {
        Loopback::Refused { reason: "unknown loopback source: "@ + source }
    }
}

fn is_empty(s: &str) -> (r: bool)
    ensures
        r == (s@.len() == 0),
{
    let v = chars_of(s);
    v.len() == 0
}

fn behind_four(s: &str) -> (r: String)
    requires
        s@.len() >= 4,
    ensures
        r@ == s@.skip(4),
{
    let v = chars_of(s);
    let r = string_of(&v, 4, v.len());
    assert(r@ =~= s@.skip(4));
    r
}

/// The source that a setting names, where the processes of the programs for calls are known.
pub fn choose_loopback(
    source: &str,
    device_name: Option<String>,
    discord: Option<u32>,
    teams: Option<u32>,
    per_process: bool,
) -> (r: Result<LoopbackSource, String>)
    ensures
        loopback_view(r) == loopback_for(
            source@,
            opt_text(device_name),
            discord,
            teams,
            per_process,
        ),
{
    if is_empty(source) || same(source, "default") || same(source, "device") {
        return Ok(LoopbackSource::Device { name: device_name });
    }
    if per_process && same(source, "discord") {
        return match discord {
            Some(pid) => Ok(LoopbackSource::Process { pid, label: "Discord".to_owned() }),
            None => Err("Discord is not running — start the call first".to_owned()),
        };
    }
    if per_process && same(source, "teams") {
        return match teams {
            Some(pid) => Ok(LoopbackSource::Process { pid, label: "Teams".to_owned() }),
            None => Err("Teams is not running".to_owned()),
        };
    }
    if per_process && starts_with(source, "pid:") {
        proof {
            reveal_strlit("pid:");
            assert("pid:"@.len() == 4);
        }
        let digits = behind_four(source);
        return match parse_u32(digits.as_str()) {
            Some(pid) => {
                let number = decimal_u64(pid as u64);
                Ok(LoopbackSource::Process { pid, label: concat2("pid ", number.as_str()) })
            },
            None => Err(concat2("bad pid: ", source)),
        };
    }
    Err(concat2("unknown loopback source: ", source))
}

/// The names of the programs of Discord.
pub open spec fn discord_programs() -> Seq<Seq<char>> {
    seq!["Discord.exe"@, "DiscordCanary.exe"@, "DiscordPTB.exe"@]
}

/// The names of the programs of Teams.
pub open spec fn teams_programs() -> Seq<Seq<char>> {
    seq!["ms-teams.exe"@, "Teams.exe"@, "Microsoft.AAD.BrokerPlugin.exe"@]
}

/// The source that a setting names, where `processes` are those that are running.
pub fn resolve_loopback(
    source: &str,
    device_name: Option<String>,
    processes: &Vec<Process>,
    per_process: bool,
) -> (r: Result<LoopbackSource, String>)
    ensures
        loopback_view(r) == loopback_for(
            source@,
            opt_text(device_name),
            pid_of(
                lowercase_texts(discord_programs()),
                lowercase_process_names(processes@),
            ),
            pid_of(lowercase_texts(teams_programs()), lowercase_process_names(processes@)),
            per_process,
        ),
{
    let discord_names: [&str; 3] = ["Discord.exe", "DiscordCanary.exe", "DiscordPTB.exe"];
    let teams_names: [&str; 3] = ["ms-teams.exe", "Teams.exe", "Microsoft.AAD.BrokerPlugin.exe"];
    let discord = find_pid(discord_names.as_slice(), processes);
    let teams = find_pid(teams_names.as_slice(), processes);
    proof {
        assert(Seq::new(discord_names@.len(), |i: int| discord_names@[i]@) =~= discord_programs());
        assert(Seq::new(teams_names@.len(), |i: int| teams_names@[i]@) =~= teams_programs());
    }
    choose_loopback(source, device_name, discord, teams, per_process)
}

/// A process named by its pid is the one that is captured.
pub proof fn law_a_pid_names_its_process(
    pid: u32,
    device_name: Option<Seq<char>>,
    discord: Option<u32>,
    teams: Option<u32>,
)
    ensures
        loopback_for("pid:"@ + decimal(pid as nat), device_name, discord, teams, true) == (
        Loopback::Process { pid, label: "pid "@ + decimal(pid as nat) }),
{
    reveal_strlit("pid:");
    reveal_strlit("default");
    reveal_strlit("device");
    reveal_strlit("discord");
    reveal_strlit("teams");
    let d = decimal(pid as nat);
    let s = "pid:"@ + d;
    law_decimals_read_back(pid as nat);
    assert("pid:"@.len() == 4);
    assert(s[0] == 'p');
    assert("default"@[0] == 'd');
    assert("device"@[0] == 'd');
    assert("discord"@[0] == 'd');
    assert("teams"@[0] == 't');
    assert(s.skip(4) =~= d);
    assert("pid:"@ =~= s.take(4));
    assert(is_digit(d[0]));
}

/// What the settings say about capturing.
#[derive(Debug)]
pub struct CaptureSettings {
    pub mic_name: Option<String>,
    pub loopback_source: String,
    pub loopback_name: Option<String>,
    pub live_model: String,
    pub device_index: i32,
}

/// The name that a setting holds, if it is set and not empty.
pub open spec fn chosen_name(setting: Option<Seq<char>>) -> Option<Seq<char>> {
    match setting {
        Some(s) => not_empty(s),
        None => None,
    }
}

/// The name that a setting holds, if it is set and not empty.
pub fn name_setting(setting: Option<String>) -> (r: Option<String>)
    ensures
        opt_text(r) == chosen_name(opt_text(setting)),
{
    match setting {
        Some(s) => unless_empty(s),
        None => None,
    }
}

/// What the settings say about capturing, which are given as they are stored: the microphone,
/// the source and the device for the loopback channel, and that for live text.
pub fn capture_settings(
    device_mic: Option<String>,
    loopback_source: Option<String>,
    device_loopback: Option<String>,
    transcribe_live: Option<String>,
) -> (r: CaptureSettings)
    ensures
        opt_text(r.mic_name) == chosen_name(opt_text(device_mic)),
        r.loopback_source@ == text_or(opt_text(loopback_source), Seq::<char>::empty()),
        opt_text(r.loopback_name) == chosen_name(opt_text(device_loopback)),
        r.live_model@ == text_or(setting_text(opt_text(transcribe_live), "model"@), "small.en"@),
        r.device_index == device_of(
            text_or(setting_text(opt_text(transcribe_live), "backend"@), "cpu"@),
        ),
{
    let backend = string_or(read_setting_text(&transcribe_live, "backend"), "cpu");
    CaptureSettings {
        mic_name: name_setting(device_mic),
        loopback_source: match loopback_source {
            Some(s) => s,
            None => String::new(),
        },
        loopback_name: name_setting(device_loopback),
        live_model: string_or(read_setting_text(&transcribe_live, "model"), "small.en"),
        device_index: device_index(backend.as_str()),
    }
}

/// What is shown where there is no live text, as its model is not there.
pub fn live_off_message(model: &str) -> (r: String)
    ensures
        r@ == "Live transcription off: model '"@ + model@ + "' not downloaded yet"@,
{
    concat3("Live transcription off: model '", model, "' not downloaded yet")
}

/// The name of the model in a setting as it is stored, if it has one.
pub open spec fn model_in(setting: Option<Seq<char>>) -> Option<Seq<char>> {
    setting_text(setting, "model"@)
}

/// The name of the model in a setting as it is stored, if it has one.
pub fn settings_model(setting: Option<String>) -> (r: Option<String>)
    ensures
        opt_text(r) == model_in(opt_text(setting)),
{
    read_setting_text(&setting, "model")
}

/// The names of the speech models in the settings as they are stored: that for live text, and
/// that for the transcript that is kept, each with its default where it is not set.
pub fn speech_models(
    transcribe_live: Option<String>,
    transcribe_finalize: Option<String>,
) -> (r: (String, String))
    ensures
        r.0@ == text_or(model_in(opt_text(transcribe_live)), "small.en"@),
        r.1@ == text_or(model_in(opt_text(transcribe_finalize)), "medium.en"@),
{
    let live = string_or(settings_model(transcribe_live), "small.en");
    let finalize = string_or(settings_model(transcribe_finalize), "medium.en");
    (live, finalize)
}

/// The word for what is going on: something is being recorded; or there is a recording that is
/// being worked on; or nothing is going on.
pub open spec fn state_word(
    capturing: bool,
    recording_id: Option<i64>,
    stage: Option<Seq<char>>,
) -> Seq<char> {
    if capturing {
        "recording"@
    } else if recording_id is Some && stage is Some && stage != Some("complete"@) {
        "pipeline"@
    } else {
        "idle"@
    }
}

/// What is going on.
pub fn capture_state(capturing: bool, recording_id: Option<i64>, stage: Option<String>) -> (r:
    CaptureState)
    ensures
        r.state@ == state_word(capturing, recording_id, opt_text(stage)),
        r.recording_id == recording_id,
        r.pipeline_stage == stage,
{
    let working = match &stage {
        Some(s) => !same(s.as_str(), "complete"),
        None => false,
    };
    let state = if capturing {
        "recording".to_owned()
    } else if recording_id.is_some() && working {
        "pipeline".to_owned()
    } else {
        "idle".to_owned()
    };
    CaptureState { state, recording_id, pipeline_stage: stage }
}

/// The error to show: that of the capture under way, if it has one, and else the last one.
pub fn capture_error(current: Option<String>, last: Option<String>) -> (r: Option<String>)
    ensures
        r == (if current is Some {
            current
        } else {
            last
        }),
{
    match current {
        Some(e) => Some(e),
        None => last,
    }
}

/// The word by which the end of an import is announced.
pub fn import_stage(result: &ImportResult) -> (r: &'static str)
    ensures
        r@ == (if result.verified {
            "verified"@
        } else {
            "failed"@
        }),
{
    if result.verified {
        "verified"
    } else {
        "failed"
    }
}

/// The recording to work on after an import: only one whose copy is good, and which is known
/// with its place.
pub fn import_job(result: &ImportResult) -> (r: Option<i64>)
    ensures
        r == (if result.verified && result.dest_path is Some {
            result.recording_id
        } else {
            None
        }),
{
    if result.verified && result.dest_path.is_some() {
        result.recording_id
    } else {
        None
    }
}

/// The positions of the imports whose copies are good.
pub open spec fn good_ones(results: Seq<ImportResult>) -> Seq<usize>
    decreases results.len(),
{
    if results.len() == 0 {
        Seq::<usize>::empty()
    } else {
        let front = good_ones(results.drop_last());
        if results.last().verified {
            front.push((results.len() - 1) as usize)
        } else {
            front
        }
    }
}

/// The positions of the imports whose copies are good: these may be deleted from the device.
pub fn verified_sources(results: &Vec<ImportResult>) -> (r: Vec<usize>)
    ensures
        r@ == good_ones(results@),
        r@.len() <= results@.len(),
{
    let mut r: Vec<usize> = Vec::new();
    let mut i: usize = 0;
    while i < results.len()
        invariant
            i <= results@.len(),
            r@.len() <= i,
            r@ == good_ones(results@.take(i as int)),
        decreases results@.len() - i,
    {
        assert(results@.take(i + 1).drop_last() =~= results@.take(i as int));
        if results[i].verified {
            r.push(i);
        }
        i = i + 1;
    }
    assert(results@.take(results@.len() as int) =~= results@);
    r
}

/// Exactly the files whose copies are good may be deleted.
pub proof fn law_only_good_copies_are_deleted(results: Seq<ImportResult>)
    requires
        results.len() <= usize::MAX,
    ensures
        forall|p: usize| #[trigger]
            good_ones(results).contains(p) <==> p < results.len() && results[p as int].verified,
    decreases results.len(),
{
    if results.len() > 0 {
        let f = results.drop_last();
        let n = (results.len() - 1) as usize;
        law_only_good_copies_are_deleted(f);
        let front = good_ones(f);
        let all = good_ones(results);
        assert forall|p: usize| #[trigger] all.contains(p) <==> p < results.len()
            && results[p as int].verified by {
            assert(front.contains(p) <==> p < f.len() && f[p as int].verified);
            if front.contains(p) {
                let k = choose|k: int| 0 <= k < front.len() && front[k] == p;
                assert(all[k] == p);
            }
            if p == n && results.last().verified {
                assert(all[front.len() as int] == p);
            }
            if all.contains(p) && !front.contains(p) {
                let k = choose|k: int| 0 <= k < all.len() && all[k] == p;
                if k < front.len() {
                    assert(front[k] == p);
                }
            }
        }
    }
}

/// Whether files are to be deleted from the device: if that was asked for, and the copy of one
/// is good at least.
pub fn wipes(wipe: bool, verified_count: usize) -> (r: bool)
    ensures
        r == (wipe && verified_count > 0),
{
    wipe && verified_count > 0
}

/// What has become of the files of a device, where `wiped` says what has become of deleting
/// them, if that was tried.
pub fn sync_summary(
    results: Vec<ImportResult>,
    wiped: Option<Result<usize, String>>,
) -> (r: SyncSummary)
    ensures
        r.results == results,
        r.verified_count == good_ones(results@).len(),
        r.verified_count + r.failed_count == results@.len(),
        r.wiped_count == (match wiped {
            Some(Ok(n)) => n,
            _ => 0,
        }),
        r.wipe_error == (match wiped {
            Some(Err(e)) => Some(e),
            _ => None,
        }),
{
    let verified_count: usize = verified_sources(&results).len();
    let failed_count: usize = results.len() - verified_count;
    let (wiped_count, wipe_error): (usize, Option<String>) = match wiped {
        Some(Ok(n)) => (n, None),
        Some(Err(e)) => (0, Some(e)),
        None => (0, None),
    };
    SyncSummary { results, verified_count, failed_count, wiped_count, wipe_error }
}

/// Three settings name a device, whatever is running; another names what is captured only where
/// the sound of one process can be: a program for calls by its name if it is running, and a
/// process by its pid.
pub proof fn law_a_setting_names_its_source(
    source: Seq<char>,
    device_name: Option<Seq<char>>,
    discord: Option<u32>,
    teams: Option<u32>,
    per_process: bool,
)
    ensures
        loopback_for(source, device_name, discord, teams, per_process) == (Loopback::Device {
            name: device_name,
        }) <==> source == Seq::<char>::empty() || source == "default"@ || source == "device"@,
        loopback_for("discord"@, device_name, discord, teams, true) is Process <==> discord is Some,
        discord matches Some(pid) ==> loopback_for("discord"@, device_name, discord, teams, true) == (
        Loopback::Process { pid, label: "Discord"@ }),
        discord is None ==> loopback_for("discord"@, device_name, discord, teams, true) == (
        Loopback::Refused { reason: "Discord is not running — start the call first"@ }),
        loopback_for("teams"@, device_name, discord, teams, true) is Process <==> teams is Some,
        teams matches Some(pid) ==> loopback_for("teams"@, device_name, discord, teams, true) == (
        Loopback::Process { pid, label: "Teams"@ }),
        teams is None ==> loopback_for("teams"@, device_name, discord, teams, true) == (
        Loopback::Refused { reason: "Teams is not running"@ }),
        !(source == Seq::<char>::empty() || source == "default"@ || source == "device"@)
            && !per_process ==> loopback_for(source, device_name, discord, teams, per_process) == (
        Loopback::Refused { reason: "unknown loopback source: "@ + source }),
        parsed_u32(source) is None ==> loopback_for(
            "pid:"@ + source,
            device_name,
            discord,
            teams,
            true,
        ) == (Loopback::Refused { reason: "bad pid: "@ + ("pid:"@ + source) }),
        !(source == Seq::<char>::empty() || source == "default"@ || source == "device"@ || source
            == "discord"@ || source == "teams"@ || "pid:"@.is_prefix_of(source)) ==> loopback_for(
            source,
            device_name,
            discord,
            teams,
            true,
        ) == (Loopback::Refused { reason: "unknown loopback source: "@ + source }),
{
    reveal_strlit("pid:");
    reveal_strlit("default");
    reveal_strlit("device");
    reveal_strlit("discord");
    reveal_strlit("teams");
    assert("pid:"@.len() == 4 && "pid:"@[0] == 'p');
    assert("default"@[0] == 'd' && "default"@[1] == 'e');
    assert("device"@[0] == 'd' && "device"@[1] == 'e');
    assert("discord"@[0] == 'd' && "discord"@[1] == 'i');
    assert("teams"@[0] == 't');
    if source.len() == 0 {
        assert(source =~= Seq::<char>::empty());
    }
    let s = "pid:"@ + source;
    assert(s[0] == 'p');
    assert(s.skip(4) =~= source);
    assert("pid:"@ =~= s.subrange(0, 4));
}

/// The good copies are named in the order of the imports, each once.
pub proof fn law_good_copies_keep_their_order(results: Seq<ImportResult>)
    requires
        results.len() <= usize::MAX,
    ensures
        forall|a: int, b: int|
            0 <= a < b < good_ones(results).len() ==> good_ones(results)[a] < good_ones(results)[b],
    decreases results.len(),
{
    if results.len() > 0 {
        let f = results.drop_last();
        law_good_copies_keep_their_order(f);
        law_only_good_copies_are_deleted(f);
        let front = good_ones(f);
        let all = good_ones(results);
        assert forall|a: int, b: int| 0 <= a < b < all.len() implies all[a] < all[b] by {
            assert(all[a] == front[a]);
            assert(front.contains(front[a]));
            if b < front.len() {
                assert(all[b] == front[b]);
            }
        }
    }
}

/// What is being recorded comes first; a recording is being worked on from its first stage until
/// it is complete; and otherwise nothing is going on.
pub proof fn law_work_goes_on_until_it_is_complete(
    capturing: bool,
    recording_id: Option<i64>,
    stage: Option<Seq<char>>,
)
    ensures
        state_word(capturing, recording_id, stage) == "recording"@ <==> capturing,
        state_word(capturing, recording_id, stage) == "pipeline"@ <==> !capturing && recording_id
            is Some && stage is Some && stage.unwrap() != "complete"@,
        state_word(capturing, recording_id, stage) == "idle"@ <==> !capturing && (recording_id
            is None || stage is None || stage.unwrap() == "complete"@),
{
    reveal_strlit("recording");
    reveal_strlit("pipeline");
    reveal_strlit("idle");
    assert("recording"@[0] == 'r' && "pipeline"@[0] == 'p' && "idle"@[0] == 'i');
}

/// A name that is set is taken as it is, unless it is empty.
pub proof fn law_a_set_name_is_taken(name: Seq<char>)
    ensures
        chosen_name(Some(name)) == Some(name) <==> name != Seq::<char>::empty(),
        chosen_name(Some(name)) is Some <==> name != Seq::<char>::empty(),
        chosen_name(None) is None,
{
    if name.len() == 0 {
        assert(name =~= Seq::<char>::empty());
    }
}

} // verus!
