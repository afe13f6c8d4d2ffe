//! Telling by the running processes which program for calls is running.

use vstd::prelude::*;
use vstd::string::*;

use crate::text::{lowercase_texts, same, starts_with, texts, to_lowercase};

verus! {

/// A program for calls, or that none of them is running.
#[derive(Debug, Clone, Copy, PartialEq, Eq, Structural)]
pub enum CallApp {
    Discord,
    Teams,
    NotRunning,
}

/// Whether a process of this name, in small letters, is Teams.
pub open spec fn is_teams(name: Seq<char>) -> bool {
    "ms-teams"@.is_prefix_of(name) || name == "teams.exe"@
}

/// Whether a process of this name, in small letters, is Discord.
pub open spec fn is_discord(name: Seq<char>) -> bool {
    name == "discord.exe"@
}

/// The program for calls among processes of these names, in small letters: Teams if it is
/// running, else Discord if that is.
pub open spec fn call_app(names: Seq<Seq<char>>) -> CallApp {
    if exists|i: int| 0 <= i < names.len() && is_teams(#[trigger] names[i]) {
        CallApp::Teams
    } else if exists|i: int| 0 <= i < names.len() && is_discord(#[trigger] names[i]) {
        CallApp::Discord
    } else {
        CallApp::NotRunning
    }
}

/// The program for calls among processes of these names, which are in small letters.
pub fn call_app_of_lowercase(names: &Vec<String>) -> (r: CallApp)
    ensures
        r == call_app(texts(names@)),
{
    let ghost all = texts(names@);
    let mut discord = false;
    let mut i: usize = 0;
    while i < names.len()
        invariant
            i <= names@.len(),
            all == texts(names@),
            forall|k: int| 0 <= k < i ==> !is_teams(#[trigger] all[k]),
            discord == (exists|k: int| 0 <= k < i && is_discord(#[trigger] all[k])),
        decreases names@.len() - i,
    {
        let name = names[i].as_str();
        assert(all[i as int] == name@);
        if starts_with(name, "ms-teams") || same(name, "teams.exe") {
            assert(is_teams(all[i as int]));
            return CallApp::Teams;
        }
        if same(name, "discord.exe") {
            assert(is_discord(all[i as int]));
            discord = true;
        }
        i = i + 1;
    }
    if discord {
        CallApp::Discord
    } else {
        CallApp::NotRunning
    }
}

/// The program for calls among processes of these names, whatever the case of the letters.
pub fn detect_call_app(names: &Vec<String>) -> (r: CallApp)
    ensures
        r == call_app(lowercase_texts(texts(names@))),
{
    let ghost all = lowercase_texts(texts(names@));
    let mut lower: Vec<String> = Vec::new();
    let mut i: usize = 0;
    assert(texts(lower@) =~= all.take(0));
    while i < names.len()
        invariant
            i <= names@.len(),
            all == lowercase_texts(texts(names@)),
            texts(lower@) == all.take(i as int),
        decreases names@.len() - i,
    {
        let ghost before = texts(lower@);
        lower.push(to_lowercase(names[i].as_str()));
        assert(texts(lower@) =~= before.push(all[i as int]));
        assert(all.take(i + 1) =~= before.push(all[i as int]));
        i = i + 1;
    }
    assert(all.take(names@.len() as int) =~= all);
    call_app_of_lowercase(&lower)
}

impl CallApp {
    /// The word for a program.
    pub open spec fn word(self) -> Seq<char> {
        match self {
            CallApp::Discord => "discord"@,
            CallApp::Teams => "teams"@,
            CallApp::NotRunning => "none"@,
        }
    }

    /// The word for a program.
    pub fn as_str(self) -> (r: &'static str)
        ensures
            r@ == self.word(),
    {
        match self {
            CallApp::Discord => "discord",
            CallApp::Teams => "teams",
            CallApp::NotRunning => "none",
        }
    }
}

/// Which program for calls is running, by the names of the processes alone: Teams if one is
/// called so, and Discord if one is and none is Teams.
pub proof fn law_teams_comes_before_discord(names: Seq<Seq<char>>)
    ensures
        call_app(names) == CallApp::Teams <==> exists|i: int|
            0 <= i < names.len() && ("ms-teams"@.is_prefix_of(#[trigger] names[i]) || names[i]
                == "teams.exe"@),
        call_app(names) == CallApp::NotRunning <==> forall|i: int|
            0 <= i < names.len() ==> !"ms-teams"@.is_prefix_of(#[trigger] names[i]) && names[i]
                != "teams.exe"@ && names[i] != "discord.exe"@,
{
    if exists|i: int|
        0 <= i < names.len() && ("ms-teams"@.is_prefix_of(#[trigger] names[i]) || names[i]
            == "teams.exe"@) {
        let i = choose|i: int|
            0 <= i < names.len() && ("ms-teams"@.is_prefix_of(#[trigger] names[i]) || names[i]
                == "teams.exe"@);
        assert(is_teams(names[i]));
    }
    if call_app(names) == CallApp::Discord {
        let i = choose|i: int| 0 <= i < names.len() && is_discord(#[trigger] names[i]);
        assert(names[i] == "discord.exe"@);
    }
    if call_app(names) == CallApp::NotRunning {
        assert forall|i: int| 0 <= i < names.len() implies !"ms-teams"@.is_prefix_of(
            #[trigger] names[i],
        ) && names[i] != "teams.exe"@ && names[i] != "discord.exe"@ by {
            assert(!is_teams(names[i]) && !is_discord(names[i]));
        }
    }
}

} // verus!
