//! Processes whose sound can be captured.

use vstd::prelude::*;
use vstd::string::*;

use crate::digits::{decimal, decimal_u64};
use crate::order::{lemma_text_order, sorted, stable_sort, text_before, text_precedes, Ranked};
use crate::selection::{ascending, lemma_position_added};
use crate::text::{
    concat2, lowercase, lowercase_texts, opt_text, same, strip_suffix, texts, to_lowercase,
};

verus! {

/// The format in which the sound of a process is captured.
#[derive(Debug, Clone, Copy, PartialEq, Eq, Structural)]
pub struct ProcessLoopbackFormat {
    pub channels: u32,
    pub sample_rate: u32,
}

/// A process that is running.
#[derive(Debug)]
pub struct Process {
    pub pid: u32,
    pub name: String,
}

/// The pid of the first process whose name is one of these.
pub open spec fn pid_of(names: Seq<Seq<char>>, processes: Seq<(u32, Seq<char>)>) -> Option<u32>
    decreases processes.len(),
{
    if processes.len() == 0 {
        None
    } else if names.contains(processes.first().1) {
        Some(processes.first().0)
    } else {
        pid_of(names, processes.drop_first())
    }
}

/// The pids and the names of processes.
pub open spec fn process_names(processes: Seq<Process>) -> Seq<(u32, Seq<char>)> {
    Seq::new(processes.len(), |i: int| (processes[i].pid, processes[i].name@))
}

/// The pids and the names, in small letters, of processes.
pub open spec fn lowercase_process_names(processes: Seq<Process>) -> Seq<(u32, Seq<char>)> {
    Seq::new(processes.len(), |i: int| (processes[i].pid, lowercase(processes[i].name@)))
}

/// Whether the text is one of `names`.
pub fn is_one_of(names: &Vec<String>, text: &str) -> (r: bool)
    ensures
        r == texts(names@).contains(text@),
{
    let mut i: usize = 0;
    while i < names.len()
        invariant
            i <= names@.len(),
            forall|k: int| 0 <= k < i ==> #[trigger] texts(names@)[k] != text@,
        decreases names@.len() - i,
    {
        if same(names[i].as_str(), text) {
            assert(texts(names@)[i as int] == text@);
            return true;
        }
        i = i + 1;
    }
    false
}

/// The pid of the first process whose name is one of `names`.
pub fn find_named(names: &Vec<String>, processes: &Vec<Process>) -> (r: Option<u32>)
    ensures
        r == pid_of(texts(names@), process_names(processes@)),
{
    let ghost all = process_names(processes@);
    let mut i: usize = 0;
    assert(all.skip(0) =~= all);
    while i < processes.len()
        invariant
            i <= processes@.len(),
            all == process_names(processes@),
            pid_of(texts(names@), all) == pid_of(texts(names@), all.skip(i as int)),
        decreases processes@.len() - i,
    {
        assert(all.skip(i as int).drop_first() =~= all.skip(i + 1));
        if is_one_of(names, processes[i].name.as_str()) {
            return Some(processes[i].pid);
        }
        i = i + 1;
    }
    None
}

/// These texts in small letters.
pub fn lowercase_all(v: &[&str]) -> (r: Vec<String>)
    ensures
        texts(r@) == lowercase_texts(Seq::new(v@.len(), |i: int| v@[i]@)),
{
    let ghost given = Seq::new(v@.len(), |i: int| v@[i]@);
    let mut r: Vec<String> = Vec::new();
    let mut i: usize = 0;
    assert(texts(r@) =~= lowercase_texts(given).take(0));
    while i < v.len()
        invariant
            i <= v@.len() == given.len(),
            given == Seq::new(v@.len(), |i: int| v@[i]@),
            texts(r@) == lowercase_texts(given).take(i as int),
        decreases v@.len() - i,
    {
        let ghost before = texts(r@);
        r.push(to_lowercase(v[i]));
        assert(texts(r@) =~= before.push(lowercase(given[i as int])));
        assert(lowercase_texts(given).take(i + 1) =~= before.push(lowercase(given[i as int])));
        i = i + 1;
    }
    assert(lowercase_texts(given).take(v@.len() as int) =~= lowercase_texts(given));
    r
}

/// The pid of the first process whose name is one of `names`, whatever the case of the letters.
pub fn find_pid(names: &[&str], processes: &Vec<Process>) -> (r: Option<u32>)
    ensures
        r == pid_of(
            lowercase_texts(Seq::new(names@.len(), |i: int| names@[i]@)),
            lowercase_process_names(processes@),
        ),
{
    let wanted = lowercase_all(names);
    let mut running: Vec<Process> = Vec::new();
    let mut i: usize = 0;
    let ghost all = lowercase_process_names(processes@);
    assert(process_names(running@) =~= all.take(0));
    while i < processes.len()
        invariant
            i <= processes@.len(),
            all == lowercase_process_names(processes@),
            process_names(running@) == all.take(i as int),
        decreases processes@.len() - i,
    {
        let ghost before = process_names(running@);
        running.push(
            Process { pid: processes[i].pid, name: to_lowercase(processes[i].name.as_str()) },
        );
        assert(process_names(running@) =~= before.push(all[i as int]));
        assert(all.take(i + 1) =~= before.push(all[i as int]));
        i = i + 1;
    }
    assert(all.take(processes@.len() as int) =~= all);
    find_named(&wanted, &running)
}

/// A process that plays sound.
#[derive(Debug)]
pub struct AudioSession {
    pub pid: u32,
    pub display_name: String,
    pub process_name: String,
}

/// A process that plays sound, as a mathematical value.
pub struct Session {
    pub pid: u32,
    pub display_name: Seq<char>,
    pub process_name: Seq<char>,
}

impl View for AudioSession {
    type V = Session;

    open spec fn view(&self) -> Session {
        Session {
            pid: self.pid,
            display_name: self.display_name@,
            process_name: self.process_name@,
        }
    }
}

/// The mathematical values of processes that play sound.
pub open spec fn sessions(v: Seq<AudioSession>) -> Seq<Session> {
    Seq::new(v.len(), |i: int| v[i]@)
}

/// Sessions sort by the names shown, whatever the case of the letters.
impl Ranked for AudioSession {
    open spec fn before(&self, other: &Self) -> bool {
        text_before(lowercase(self.display_name@), lowercase(other.display_name@))
    }

    fn precedes(&self, other: &Self) -> (r: bool) {
        let a = to_lowercase(self.display_name.as_str());
        let b = to_lowercase(other.display_name.as_str());
        text_precedes(a.as_str(), b.as_str())
    }

    proof fn order_laws(a: &Self, b: &Self, c: &Self) {
        lemma_text_order(
            lowercase(a.display_name@),
            lowercase(b.display_name@),
            lowercase(c.display_name@),
        );
    }
}

/// A sound session as the system reports it: the process that it belongs to, the name of that
/// process where it is still running, and the name under which the session is shown, if it can
/// be read.
#[derive(Debug)]
pub struct RawSession {
    pub pid: u32,
    pub process_name: Option<String>,
    pub display_name: Option<String>,
}

/// The name of a process, or one made from its pid.
pub open spec fn name_of(pid: u32, name: Option<Seq<char>>) -> Seq<char> {
    match name {
        Some(n) => n,
        None => "pid "@ + decimal(pid as nat),
    }
}

/// The name of a process without the ending that programs have.
pub open spec fn bare_name(name: Seq<char>) -> Seq<char> {
    if ".exe"@.is_suffix_of(name) {
        name.take(name.len() - ".exe"@.len())
    } else if ".EXE"@.is_suffix_of(name) {
        name.take(name.len() - ".EXE"@.len())
    } else {
        name
    }
}

/// What is shown of a sound session.
pub open spec fn session_of(raw: RawSession) -> Session {
    let process_name = name_of(raw.pid, opt_text(raw.process_name));
    Session {
        pid: raw.pid,
        display_name: match opt_text(raw.display_name) {
            Some(d) => d,
            None => bare_name(process_name),
        },
        process_name,
    }
}

/// Whether one of the sessions belongs to this process.
pub open spec fn has_pid(v: Seq<Session>, pid: u32) -> bool {
    exists|i: int| 0 <= i < v.len() && (#[trigger] v[i]).pid == pid
}

/// The first session of each process, without those of the system itself.
pub open spec fn sessions_of(raw: Seq<RawSession>) -> Seq<Session>
    decreases raw.len(),
{
    if raw.len() == 0 {
        Seq::<Session>::empty()
    } else {
        let front = sessions_of(raw.drop_last());
        if raw.last().pid == 0 || has_pid(front, raw.last().pid) {
            front
        } else {
            front.push(session_of(raw.last()))
        }
    }
}

fn without_ending(name: &str) -> (r: String)
    ensures
        r@ == bare_name(name@),
{
    match strip_suffix(name, ".exe") {
        Some(n) => n,
        None => match strip_suffix(name, ".EXE") {
            Some(n) => n,
            None => name.to_owned(),
        },
    }
}

fn any_has_pid(v: &Vec<AudioSession>, pid: u32) -> (r: bool)
    ensures
        r == has_pid(sessions(v@), pid),
{
    let mut i: usize = 0;
    while i < v.len()
        invariant
            i <= v@.len(),
            forall|k: int| 0 <= k < i ==> (#[trigger] sessions(v@)[k]).pid != pid,
        decreases v@.len() - i,
    {
        if v[i].pid == pid {
            assert(sessions(v@)[i as int].pid == pid);
            return true;
        }
        i = i + 1;
    }
    false
}

/// The processes that play sound, by the names shown: the first session of each counts, and
/// there are none where the system cannot tell.
pub fn list_audio_sessions(raw: Option<Vec<RawSession>>) -> (r: Vec<AudioSession>)
    ensures
        match raw {
            Some(v) => exists|all: Seq<AudioSession>| #[trigger]
                sessions(all) == sessions_of(v@) && r@ == sorted(all),
            None => r@.len() == 0,
        },
{
    let raw = match raw {
        Some(v) => v,
        None => {
            return Vec::new();
        },
    };
    let mut out: Vec<AudioSession> = Vec::new();
    let mut i: usize = 0;
    assert(sessions(out@) =~= Seq::<Session>::empty());
    while i < raw.len()
        invariant
            i <= raw@.len(),
            sessions(out@) == sessions_of(raw@.take(i as int)),
        decreases raw@.len() - i,
    {
        assert(raw@.take(i + 1).drop_last() =~= raw@.take(i as int));
        let ghost before = sessions(out@);
        let pid: u32 = raw[i].pid;
        if pid != 0 && !any_has_pid(&out, pid) {
            let process_name = match &raw[i].process_name {
                Some(n) => n.clone(),
                None => {
                    let digits = decimal_u64(pid as u64);
                    concat2("pid ", digits.as_str())
                },
            };
            let display_name = match &raw[i].display_name {
                Some(d) => d.clone(),
                None => without_ending(process_name.as_str()),
            };
            let s = AudioSession { pid, display_name, process_name };
            assert(s@ == session_of(raw@[i as int]));
            out.push(s);
            assert(sessions(out@) =~= before.push(s@));
        }
        i = i + 1;
    }
    assert(raw@.take(raw@.len() as int) =~= raw@);
    let ghost all = out@;
    stable_sort(&mut out);
    assert(sessions(all) == sessions_of(raw@) && out@ == sorted(all));
    out
}

/// Each process is shown once, none of them is the system itself, and each that plays sound is
/// shown.
pub proof fn law_each_process_is_shown_once(raw: Seq<RawSession>)
    ensures
        forall|i: int, j: int|
            #![trigger sessions_of(raw)[i], sessions_of(raw)[j]]
            0 <= i < j < sessions_of(raw).len() ==> sessions_of(raw)[i].pid != sessions_of(
                raw,
            )[j].pid,
        forall|i: int|
            0 <= i < sessions_of(raw).len() ==> (#[trigger] sessions_of(raw)[i]).pid != 0,
        forall|i: int|
            0 <= i < raw.len() && (#[trigger] raw[i]).pid != 0 ==> has_pid(
                sessions_of(raw),
                raw[i].pid,
            ),
    decreases raw.len(),
{
    if raw.len() > 0 {
        let f = raw.drop_last();
        law_each_process_is_shown_once(f);
        let front = sessions_of(f);
        let all = sessions_of(raw);
        assert forall|i: int, j: int|
            #![trigger all[i], all[j]]
            0 <= i < j < all.len() implies all[i].pid != all[j].pid by {
            assert(all[i] == front[i]);
            if j < front.len() {
                assert(all[j] == front[j]);
            }
        }
        assert forall|i: int| 0 <= i < all.len() implies (#[trigger] all[i]).pid != 0 by {
            if i < front.len() {
                assert(all[i] == front[i]);
            }
        }
        assert forall|i: int| 0 <= i < raw.len() && (#[trigger] raw[i]).pid != 0 implies has_pid(
            all,
            raw[i].pid,
        ) by {
            if i < f.len() {
                assert(f[i] == raw[i]);
                let k = choose|k: int|
                    0 <= k < front.len() && (#[trigger] front[k]).pid == raw[i].pid;
                assert(all[k] == front[k]);
            } else if !has_pid(front, raw[i].pid) {
                assert(all[front.len() as int].pid == raw[i].pid);
            }
        }
    }
}

/// The process that is found is the first one whose name is among those that are looked for, and
/// none is found only where there is none.
pub proof fn law_the_first_such_process_is_found(
    names: Seq<Seq<char>>,
    processes: Seq<(u32, Seq<char>)>,
    i: int,
)
    ensures
        0 <= i < processes.len() && names.contains(processes[i].1) && (forall|j: int|
            0 <= j < i ==> !names.contains((#[trigger] processes[j]).1)) ==> pid_of(names, processes)
            == Some(processes[i].0),
        pid_of(names, processes) is None <==> forall|j: int|
            0 <= j < processes.len() ==> !names.contains((#[trigger] processes[j]).1),
    decreases processes.len(),
{
    if processes.len() > 0 {
        let rest = processes.drop_first();
        law_the_first_such_process_is_found(names, rest, i - 1);
        if !names.contains(processes.first().1) {
            assert(processes[0] == processes.first());
            assert forall|j: int| 0 <= j < rest.len() implies rest[j] == processes[j + 1] by {}
            if 0 <= i < processes.len() && names.contains(processes[i].1) && (forall|j: int|
                0 <= j < i ==> !names.contains((#[trigger] processes[j]).1)) {
                assert(i != 0);
                assert(rest[i - 1] == processes[i]);
                assert forall|j: int| 0 <= j < i - 1 implies !names.contains(
                    (#[trigger] rest[j]).1,
                ) by {
                    assert(rest[j] == processes[j + 1]);
                }
            }
            if pid_of(names, processes) is None {
                assert forall|j: int| 0 <= j < processes.len() implies !names.contains(
                    (#[trigger] processes[j]).1,
                ) by {
                    if j > 0 {
                        assert(rest[j - 1] == processes[j]);
                    }
                }
            } else {
                let j = choose|j: int| 0 <= j < rest.len() && names.contains((#[trigger] rest[j]).1);
                assert(processes[j + 1] == rest[j]);
            }
        } else {
            assert(processes[0] == processes.first());
        }
    }
}

/// The ending that programs have is not shown, and nothing else is left out.
pub proof fn law_only_the_ending_is_left_out(name: Seq<char>)
    ensures
        bare_name(name + ".exe"@) == name,
        bare_name(name + ".EXE"@) == name,
        !".exe"@.is_suffix_of(name) && !".EXE"@.is_suffix_of(name) ==> bare_name(name) == name,
{
    reveal_strlit(".exe");
    reveal_strlit(".EXE");
    let small = name + ".exe"@;
    let large = name + ".EXE"@;
    assert(".exe"@ =~= small.subrange(small.len() - 4, small.len() as int));
    assert(small.take(small.len() - 4) =~= name);
    assert(".EXE"@ =~= large.subrange(large.len() - 4, large.len() as int));
    assert(large.take(large.len() - 4) =~= name);
    assert(!".exe"@.is_suffix_of(large)) by {
        assert(large[large.len() - 1] == 'E');
        assert(".exe"@[3] == 'e');
        assert(large.subrange(large.len() - 4, large.len() as int)[3] == 'E');
    }
}

/// What is shown are the first sessions of the processes other than the system itself, in their
/// order, under the names that they have: a session that can say how it is shown is shown so, and
/// another by the name of its process.
pub proof fn law_the_first_session_of_a_process_is_shown(raw: Seq<RawSession>) -> (p: Seq<int>)
    ensures
        ascending(p),
        sessions_of(raw).len() == p.len(),
        forall|i: int| #[trigger]
            p.contains(i) <==> 0 <= i < raw.len() && raw[i].pid != 0 && forall|j: int|
                0 <= j < i ==> (#[trigger] raw[j]).pid != raw[i].pid,
        forall|k: int|
            0 <= k < p.len() ==> {
                let s = #[trigger] sessions_of(raw)[k];
                let r = raw[p[k]];
                &&& s.pid == r.pid
                &&& r.process_name matches Some(n) ==> s.process_name == n@
                &&& r.process_name is None ==> s.process_name == "pid "@ + decimal(r.pid as nat)
                &&& r.display_name matches Some(d) ==> s.display_name == d@
                &&& r.display_name is None ==> s.display_name == bare_name(s.process_name)
            },
{
    assert(raw.take(raw.len() as int) =~= raw);
    lemma_first_sessions(raw, raw.len() as int)
}

proof fn lemma_first_sessions(raw: Seq<RawSession>, n: int) -> (p: Seq<int>)
    requires
        0 <= n <= raw.len(),
    ensures
        ascending(p),
        sessions_of(raw.take(n)).len() == p.len(),
        forall|i: int| #[trigger]
            p.contains(i) <==> 0 <= i < n && raw[i].pid != 0 && forall|j: int|
                0 <= j < i ==> (#[trigger] raw[j]).pid != raw[i].pid,
        forall|k: int|
            0 <= k < p.len() ==> #[trigger] sessions_of(raw.take(n))[k] == session_of(raw[p[k]]),
    decreases n,
{
    if n == 0 {
        Seq::<int>::empty()
    } else {
        let m = n - 1;
        let q = lemma_first_sessions(raw, m);
        let f = raw.take(m);
        assert(raw.take(n).drop_last() =~= f);
        assert(raw.take(n).last() == raw[m]);
        let front = sessions_of(f);
        law_each_process_is_shown_once(f);
        let pid = raw[m].pid;
        assert(pid != 0 ==> (has_pid(front, pid) <==> exists|j: int|
            0 <= j < m && (#[trigger] raw[j]).pid == pid)) by {
            if pid != 0 && exists|j: int| 0 <= j < m && (#[trigger] raw[j]).pid == pid {
                let j = choose|j: int| 0 <= j < m && (#[trigger] raw[j]).pid == pid;
                assert(f[j].pid == pid);
            }
            if has_pid(front, pid) {
                let k = choose|k: int| 0 <= k < front.len() && (#[trigger] front[k]).pid == pid;
                assert(q.contains(q[k]));
                assert(raw[q[k]].pid == pid);
            }
        }
        if pid == 0 || has_pid(front, pid) {
            q
        } else {
            lemma_position_added(q, m);
            let p = q.push(m);
            assert(p.contains(m));
            p
        }
    }
}

} // verus!
