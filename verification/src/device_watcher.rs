//! Watching for a recorder that is plugged in.
//!
//! The removable drives are looked at once a second. A drive that was not there the time before
//! is searched for audio files.

use std::path::{Path, PathBuf};

use vstd::arithmetic::div_mod::lemma_div_denominator;
use vstd::arithmetic::power::{lemma_pow_positive, pow};
use vstd::prelude::*;
use vstd::slice::slice_subrange;
use vstd::string::*;

use crate::paths::{
    as_path, as_path_of, ends_in_a_name, extension, extension_of, in_path_order, level_with,
    name_extension, path_parts, sort_paths, utf8_text,
};
use crate::selection::{ascending, lemma_position_added};
use crate::text::{
    ascii_lowercase, is_ascii_text, lowercase, opt_text, same, texts, to_lowercase,
};

verus! {

/// A drive with audio files.
#[derive(Debug)]
pub struct PluggedDevice {
    pub mount: PathBuf,
    pub label: Option<String>,
    pub audio_files: Vec<PathBuf>,
}

/// How many drive letters there are.
pub const DRIVE_LETTERS: usize = 26;

/// The type that the system reports of a removable drive.
pub const DRIVE_REMOVABLE: u32 = 2;

/// Whether the bit at `i` of a mask is set.
pub open spec fn bit(mask: u32, i: nat) -> bool
    decreases i,
{
    if i == 0 {
        mask % 2 == 1
    } else {
        bit(mask / 2, (i - 1) as nat)
    }
}

/// The root of the drive of the letter at `i`.
pub open spec fn root(i: int) -> Seq<char> {
    seq![(65 + i) as char, ':', '\\']
}

/// The roots of the drives, among the first `n` letters, whose bits in the mask are set.
pub open spec fn roots(mask: u32, n: nat) -> Seq<Seq<char>>
    decreases n,
{
    if n == 0 {
        Seq::<Seq<char>>::empty()
    } else {
        let front = roots(mask, (n - 1) as nat);
        if bit(mask, (n - 1) as nat) {
            front.push(root(n - 1))
        } else {
            front
        }
    }
}

/// The roots of the drives in a mask that has a bit for each letter.
pub fn drive_roots(mask: u32) -> (r: Vec<String>)
    ensures
        texts(r@) == roots(mask, DRIVE_LETTERS as nat),
{
    let mut r: Vec<String> = Vec::new();
    let mut m: u32 = mask;
    let mut i: usize = 0;
    assert(texts(r@) =~= Seq::<Seq<char>>::empty());
    while i < DRIVE_LETTERS
        invariant
            i <= DRIVE_LETTERS,
            forall|k: nat| #[trigger] bit(m, k) == bit(mask, (i + k) as nat),
            texts(r@) == roots(mask, i as nat),
        decreases DRIVE_LETTERS - i,
    {
        let ghost before = texts(r@);
        assert(bit(m, 0) == bit(mask, i as nat));
        if m % 2 == 1 {
            let mut s = String::new();
            s.push((65 + i as u8) as char);
            s.push(':');
            s.push('\\');
            assert(s@ =~= root(i as int));
            r.push(s);
            assert(texts(r@) =~= before.push(root(i as int)));
        }
        let next: u32 = m / 2;
        assert forall|k: nat| #[trigger] bit(next, k) == bit(mask, (i + 1 + k) as nat) by {
            assert(bit(m, (k + 1) as nat) == bit(next, k));
        }
        m = next;
        i = i + 1;
    }
    r
}

/// The drives that are removable, where `types` are the types that the system reports of them.
pub open spec fn removable(drives: Seq<Seq<char>>, types: Seq<u32>) -> Seq<Seq<char>>
    decreases drives.len(),
{
    if drives.len() == 0 {
        Seq::<Seq<char>>::empty()
    } else {
        let front = removable(drives.drop_last(), types);
        if types[drives.len() - 1] == DRIVE_REMOVABLE {
            front.push(drives.last())
        } else {
            front
        }
    }
}

/// The removable drives, where `types` are the types that the system reports of the drives.
pub fn current_drives(drives: &Vec<String>, types: &Vec<u32>) -> (r: Vec<String>)
    requires
        types@.len() == drives@.len(),
    ensures
        texts(r@) == removable(texts(drives@), types@),
{
    let ghost all = texts(drives@);
    let mut r: Vec<String> = Vec::new();
    let mut i: usize = 0;
    assert(texts(r@) =~= Seq::<Seq<char>>::empty());
    while i < drives.len()
        invariant
            i <= drives@.len() == types@.len(),
            all == texts(drives@),
            texts(r@) == removable(all.take(i as int), types@),
        decreases drives@.len() - i,
    {
        assert(all.take(i + 1).drop_last() =~= all.take(i as int));
        let ghost before = texts(r@);
        if types[i] == DRIVE_REMOVABLE {
            r.push(drives[i].clone());
            assert(texts(r@) =~= before.push(all[i as int]));
        }
        i = i + 1;
    }
    assert(all.take(drives@.len() as int) =~= all);
    r
}

/// The drives that were there when they were last looked at.
#[derive(Debug)]
pub struct DriveWatch {
    seen: Vec<String>,
}

/// Those of `drives` that are not among `seen`.
pub open spec fn unseen(seen: Seq<Seq<char>>, drives: Seq<Seq<char>>) -> Seq<Seq<char>>
    decreases drives.len(),
{
    if drives.len() == 0 {
        Seq::<Seq<char>>::empty()
    } else {
        let front = unseen(seen, drives.drop_last());
        if seen.contains(drives.last()) {
            front
        } else {
            front.push(drives.last())
        }
    }
}

fn is_among(v: &Vec<String>, s: &String) -> (r: bool)
    ensures
        r == texts(v@).contains(s@),
{
    let mut i: usize = 0;
    while i < v.len()
        invariant
            i <= v@.len(),
            forall|k: int| 0 <= k < i ==> #[trigger] texts(v@)[k] != s@,
        decreases v@.len() - i,
    {
        if same(v[i].as_str(), s.as_str()) {
            assert(texts(v@)[i as int] == s@);
            return true;
        }
        i = i + 1;
    }
    false
}

impl DriveWatch {
    /// The drives that were there when they were last looked at.
    pub closed spec fn drives(&self) -> Seq<Seq<char>> {
        texts(self.seen@)
    }

    /// Starts to watch, with the drives that are there now, which thus are not new.
    pub fn new(drives: Vec<String>) -> (r: Self)
        ensures
            r.drives() == texts(drives@),
    {
        DriveWatch { seen: drives }
    }

    /// Takes note of the drives that are there now, and returns those that were not there the
    /// time before.
    pub fn look(&mut self, drives: Vec<String>) -> (r: Vec<String>)
        ensures
            texts(r@) == unseen(old(self).drives(), texts(drives@)),
            final(self).drives() == texts(drives@),
    {
        let ghost all = texts(drives@);
        let mut r: Vec<String> = Vec::new();
        let mut i: usize = 0;
        assert(texts(r@) =~= Seq::<Seq<char>>::empty());
        while i < drives.len()
            invariant
                i <= drives@.len(),
                all == texts(drives@),
                self.seen == old(self).seen,
                texts(r@) == unseen(texts(self.seen@), all.take(i as int)),
            decreases drives@.len() - i,
        {
            assert(all.take(i + 1).drop_last() =~= all.take(i as int));
            let ghost before = texts(r@);
            if !is_among(&self.seen, &drives[i]) {
                r.push(drives[i].clone());
                assert(texts(r@) =~= before.push(all[i as int]));
            }
            i = i + 1;
        }
        assert(all.take(drives@.len() as int) =~= all);
        self.seen = drives;
        r
    }
}

/// A drive is new if and only if it was not there the time before: none of those is that were
/// there from the start, and one that was gone in between is.
pub proof fn law_new_drives_were_not_there_before(seen: Seq<Seq<char>>, drives: Seq<Seq<char>>)
    ensures
        forall|d: Seq<char>| #[trigger]
            unseen(seen, drives).contains(d) <==> drives.contains(d) && !seen.contains(d),
    decreases drives.len(),
{
    let all = unseen(seen, drives);
    if drives.len() > 0 {
        let f = drives.drop_last();
        let front = unseen(seen, f);
        law_new_drives_were_not_there_before(seen, f);
        assert forall|d: Seq<char>| #[trigger] all.contains(d) <==> drives.contains(d)
            && !seen.contains(d) by {
            assert(front.contains(d) <==> f.contains(d) && !seen.contains(d));
            if f.contains(d) {
                let k = choose|k: int| 0 <= k < f.len() && f[k] == d;
                assert(drives[k] == d);
            }
            if drives.contains(d) && d != drives.last() {
                let k = choose|k: int| 0 <= k < drives.len() && drives[k] == d;
                assert(f[k] == d);
            }
            if d == drives.last() {
                assert(drives[drives.len() - 1] == d);
            }
            if front.contains(d) {
                let k = choose|k: int| 0 <= k < front.len() && front[k] == d;
                assert(all[k] == d);
            }
            if all.contains(d) && !front.contains(d) {
                let k = choose|k: int| 0 <= k < all.len() && all[k] == d;
                if k < front.len() {
                    assert(front[k] == d);
                }
            }
            if d == drives.last() && !seen.contains(d) {
                assert(all[front.len() as int] == d);
            }
        }
    }
}

/// The drives that are there ahead of the look after `i` others, where `first` are those from the
/// start, and `looks[i]` those that are found at that look.
pub open spec fn there_before(
    first: Seq<Seq<char>>,
    looks: Seq<Seq<Seq<char>>>,
    i: int,
) -> Seq<Seq<char>> {
    if i == 0 {
        first
    } else {
        looks[i - 1]
    }
}

/// A drive that is plugged in and stays is new at the first look that finds it, and at none after
/// that.
pub proof fn law_a_drive_that_stays_is_new_once(
    first: Seq<Seq<char>>,
    looks: Seq<Seq<Seq<char>>>,
    drive: Seq<char>,
    from: int,
    to: int,
)
    requires
        0 <= from <= to < looks.len(),
        forall|i: int| from <= i <= to ==> (#[trigger] looks[i]).contains(drive),
    ensures
        unseen(there_before(first, looks, from), looks[from]).contains(drive) <==> !there_before(
            first,
            looks,
            from,
        ).contains(drive),
        forall|i: int|
            from < i <= to ==> !unseen(
                there_before(first, looks, i),
                #[trigger] looks[i],
            ).contains(drive),
{
    law_new_drives_were_not_there_before(there_before(first, looks, from), looks[from]);
    assert forall|i: int| from < i <= to implies !unseen(
        there_before(first, looks, i),
        #[trigger] looks[i],
    ).contains(drive) by {
        assert(looks[i - 1].contains(drive));
        law_new_drives_were_not_there_before(there_before(first, looks, i), looks[i]);
    }
}

/// Whether an extension, in small letters, is that of an audio file.
pub open spec fn is_audio_extension(e: Seq<char>) -> bool {
    e == "wav"@ || e == "mp3"@ || e == "m4a"@ || e == "flac"@ || e == "ogg"@
}

/// Whether an extension, in small letters, is that of an audio file.
pub fn names_audio(e: &str) -> (r: bool)
    ensures
        r == is_audio_extension(e@),
{
    same(e, "wav") || same(e, "mp3") || same(e, "m4a") || same(e, "flac") || same(e, "ogg")
}

/// Whether a file of this extension is an audio file.
pub open spec fn audio_by_extension(extension: Option<Seq<char>>) -> bool {
    match extension {
        Some(e) => is_audio_extension(lowercase(e)),
        None => false,
    }
}

/// Whether a file is an audio file, by its extension.
pub fn is_audio(p: &Path) -> (r: bool)
    ensures
        r == audio_by_extension(extension_of(p)),
        ends_in_a_name(path_parts(p)) ==> r == audio_by_extension(
            utf8_text(name_extension(path_parts(p).last())),
        ),
        extension_of(p) matches Some(e) ==> is_ascii_text(e) ==> r == is_audio_extension(
            ascii_lowercase(e),
        ),
{
    match extension(p) {
        Some(e) => {
            let lower = to_lowercase(e.as_str());
            names_audio(lower.as_str())
        },
        None => false,
    }
}

/// How many audio files are enough: no further directory is searched once there are more.
pub const ENOUGH_FILES: usize = 4096;

/// Whether all these are audio files.
pub open spec fn all_audio(files: Seq<PathBuf>) -> bool {
    forall|i: int|
        0 <= i < files.len() ==> audio_by_extension(extension_of(as_path_of(&#[trigger] files[i])))
}

/// How far a search for audio files has come.
pub struct WalkState {
    /// The directories that are still to be searched, the next one last.
    pub pending: Seq<PathBuf>,
    /// The audio files so far.
    pub files: Seq<PathBuf>,
}

/// An entry of a directory: its path, and whether it is a directory itself.
pub struct Entry {
    pub path: PathBuf,
    pub is_dir: bool,
}

impl Entry {
    /// Whether it is an audio file.
    pub open spec fn is_audio_file(self) -> bool {
        !self.is_dir && audio_by_extension(extension_of(as_path_of(&self.path)))
    }
}

/// The search with an entry taken note of: directories are to be searched, and audio files found.
pub open spec fn with_entry(s: WalkState, e: Entry) -> WalkState {
    if e.is_dir {
        WalkState { pending: s.pending.push(e.path), ..s }
    } else if e.is_audio_file() {
        WalkState { files: s.files.push(e.path), ..s }
    } else {
        s
    }
}

/// The search with the entries of a directory taken note of.
pub open spec fn with_entries(s: WalkState, entries: Seq<Entry>) -> WalkState
    decreases entries.len(),
{
    if entries.len() == 0 {
        s
    } else {
        with_entry(with_entries(s, entries.drop_last()), entries.last())
    }
}

/// The search with the next directory taken to be searched.
pub open spec fn with_next_taken(s: WalkState) -> WalkState {
    WalkState { pending: s.pending.drop_last(), ..s }
}

/// A search that starts in a directory, after as many directories as there are listings, where
/// `listings[i]` has the entries of the directory that is searched after `i` others.
pub open spec fn walked(root: PathBuf, listings: Seq<Seq<Entry>>) -> WalkState
    decreases listings.len(),
{
    if listings.len() == 0 {
        WalkState { pending: seq![root], files: Seq::<PathBuf>::empty() }
    } else {
        with_entries(with_next_taken(walked(root, listings.drop_last())), listings.last())
    }
}

/// The directories that such a search has searched, in order.
pub open spec fn searched(root: PathBuf, listings: Seq<Seq<Entry>>) -> Seq<PathBuf> {
    Seq::new(listings.len(), |i: int| walked(root, listings.take(i)).pending.last())
}

/// Whether an entry stands in one of the listings.
pub open spec fn listed(listings: Seq<Seq<Entry>>, e: Entry) -> bool {
    exists|i: int| 0 <= i < listings.len() && (#[trigger] listings[i]).contains(e)
}

/// A search for audio files under way.
#[derive(Debug)]
pub struct AudioWalk {
    stack: Vec<PathBuf>,
    found: Vec<PathBuf>,
}

impl View for AudioWalk {
    type V = WalkState;

    closed spec fn view(&self) -> WalkState {
        WalkState { pending: self.stack@, files: self.found@ }
    }
}

impl AudioWalk {
    #[verifier::type_invariant]
    spec fn holds_audio(self) -> bool {
        all_audio(self.found@)
    }

    /// A search that starts in a directory.
    pub fn new(root: PathBuf) -> (r: Self)
        ensures
            r@ == walked(root, Seq::<Seq<Entry>>::empty()),
    {
        let mut stack: Vec<PathBuf> = Vec::new();
        stack.push(root);
        assert(stack@ =~= seq![root]);
        AudioWalk { stack, found: Vec::new() }
    }

    /// The directory to search next; none where none is left, or where there are files enough.
    pub fn next_dir(&mut self) -> (r: Option<PathBuf>)
        ensures
            if old(self)@.files.len() > ENOUGH_FILES || old(self)@.pending.len() == 0 {
                r is None && final(self)@ == old(self)@
            } else {
                r == Some(old(self)@.pending.last()) && final(self)@ == with_next_taken(old(self)@)
            },
    {
        if self.found.len() > ENOUGH_FILES {
            return None;
        }
        proof {
            use_type_invariant(&*self);
        }
        let mut stack: Vec<PathBuf> = Vec::new();
        std::mem::swap(&mut stack, &mut self.stack);
        let dir = stack.pop();
        self.stack = stack;
        dir
    }

    /// Takes note of an entry of the directory that is being searched.
    pub fn entry(&mut self, path: PathBuf, is_dir: bool)
        ensures
            final(self)@ == with_entry(old(self)@, Entry { path, is_dir }),
    {
        proof {
            use_type_invariant(&*self);
        }
        if is_dir {
            let mut stack: Vec<PathBuf> = Vec::new();
            std::mem::swap(&mut stack, &mut self.stack);
            stack.push(path);
            self.stack = stack;
        } else if is_audio(as_path(&path)) {
            let mut found: Vec<PathBuf> = Vec::new();
            std::mem::swap(&mut found, &mut self.found);
            found.push(path);
            self.found = found;
        }
    }

    /// The audio files in ascending order: exactly those that were found, and all of them are
    /// audio files. A file that was found once is there once.
    pub fn finish(self) -> (r: Vec<PathBuf>)
        ensures
            r@.to_multiset() == self@.files.to_multiset(),
            in_path_order(r@),
            forall|p: PathBuf| #[trigger] level_with(r@, p) == level_with(self@.files, p),
            forall|p: PathBuf| #[trigger] r@.contains(p) <==> self@.files.contains(p),
            all_audio(r@),
            self@.files.no_duplicates() ==> r@.no_duplicates(),
    {
        proof {
            use_type_invariant(&self);
        }
        let mut r = self.found;
        let ghost found = r@;
        sort_paths(&mut r);
        proof {
            broadcast use vstd::seq_lib::group_to_multiset_ensures;

            assert forall|p: PathBuf| #[trigger] r@.contains(p) <==> found.contains(p) by {
                assert(r@.to_multiset().count(p) == found.to_multiset().count(p));
            }
            assert forall|i: int| 0 <= i < r@.len() implies audio_by_extension(
                extension_of(as_path_of(&#[trigger] r@[i])),
            ) by {
                assert(r@.contains(r@[i]));
                let k = choose|k: int| 0 <= k < found.len() && found[k] == r@[i];
                assert(audio_by_extension(extension_of(as_path_of(&found[k]))));
            }
            if found.no_duplicates() {
                found.lemma_multiset_has_no_duplicates();
                r@.lemma_multiset_has_no_duplicates_conv();
            }
        }
        r
    }
}

proof fn lemma_with_entries(s: WalkState, entries: Seq<Entry>)
    ensures
        forall|p: PathBuf| #[trigger]
            with_entries(s, entries).files.contains(p) <==> s.files.contains(p) || exists|e: Entry|
                #[trigger] entries.contains(e) && e.is_audio_file() && e.path == p,
        forall|p: PathBuf| #[trigger]
            with_entries(s, entries).pending.contains(p) <==> s.pending.contains(p)
                || exists|e: Entry| #[trigger] entries.contains(e) && e.is_dir && e.path == p,
    decreases entries.len(),
{
    if entries.len() > 0 {
        let front = entries.drop_last();
        let last = entries.last();
        lemma_with_entries(s, front);
        let before = with_entries(s, front);
        let after = with_entries(s, entries);
        assert forall|e: Entry| #[trigger] entries.contains(e) <==> front.contains(e) || e
            == last by {
            lemma_pushed(front, last, e);
            assert(front.push(last) =~= entries);
        }
        assert(entries.contains(last));
        assert forall|p: PathBuf| #[trigger] after.files.contains(p) <==> s.files.contains(p)
            || exists|e: Entry| #[trigger]
            entries.contains(e) && e.is_audio_file() && e.path == p by {
            assert(before.files.contains(p) <==> s.files.contains(p) || exists|e: Entry| #[trigger]
                front.contains(e) && e.is_audio_file() && e.path == p);
            lemma_pushed(before.files, last.path, p);
            if exists|e: Entry| #[trigger] front.contains(e) && e.is_audio_file() && e.path == p {
                let e = choose|e: Entry| #[trigger]
                    front.contains(e) && e.is_audio_file() && e.path == p;
                assert(entries.contains(e));
            }
        }
        assert forall|p: PathBuf| #[trigger] after.pending.contains(p) <==> s.pending.contains(p)
            || exists|e: Entry| #[trigger] entries.contains(e) && e.is_dir && e.path == p by {
            assert(before.pending.contains(p) <==> s.pending.contains(p) || exists|e: Entry|
                #[trigger] front.contains(e) && e.is_dir && e.path == p);
            lemma_pushed(before.pending, last.path, p);
            if exists|e: Entry| #[trigger] front.contains(e) && e.is_dir && e.path == p {
                let e = choose|e: Entry| #[trigger] front.contains(e) && e.is_dir && e.path == p;
                assert(entries.contains(e));
            }
        }
    }
}

proof fn lemma_pushed<T>(s: Seq<T>, x: T, y: T)
    ensures
        s.push(x).contains(y) <==> s.contains(y) || y == x,
{
    if s.contains(y) {
        let k = choose|k: int| 0 <= k < s.len() && s[k] == y;
        assert(s.push(x)[k] == y);
    }
    assert(s.push(x)[s.len() as int] == x);
}

/// What a search has found are exactly the audio files among the entries of the directories that
/// it has searched. These, and those that are still to be searched, are exactly the directory in
/// which it starts and the directories among those entries: where none is left, all of them have
/// been searched.
pub proof fn law_a_search_finds_exactly_the_audio_files(root: PathBuf, listings: Seq<Seq<Entry>>)
    requires
        forall|i: int|
            0 <= i < listings.len() ==> walked(root, #[trigger] listings.take(i)).pending.len() > 0,
    ensures
        forall|p: PathBuf| #[trigger]
            walked(root, listings).files.contains(p) <==> exists|e: Entry| #[trigger]
                listed(listings, e) && e.is_audio_file() && e.path == p,
        forall|p: PathBuf|
            #![trigger walked(root, listings).pending.contains(p)]
            #![trigger searched(root, listings).contains(p)]
            walked(root, listings).pending.contains(p) || searched(root, listings).contains(p)
                <==> p == root || exists|e: Entry| #[trigger]
                listed(listings, e) && e.is_dir && e.path == p,
    decreases listings.len(),
{
    let after = walked(root, listings);
    let done = searched(root, listings);
    if listings.len() == 0 {
        assert(seq![root].contains(root)) by {
            assert(seq![root][0] == root);
        }
    } else {
        let front = listings.drop_last();
        let last = listings.last();
        let n = front.len() as int;
        assert(front =~= listings.take(n));
        assert forall|i: int| 0 <= i < front.len() implies walked(
            root,
            #[trigger] front.take(i),
        ).pending.len() > 0 by {
            assert(front.take(i) =~= listings.take(i));
        }
        law_a_search_finds_exactly_the_audio_files(root, front);
        let before = walked(root, front);
        let dir = before.pending.last();
        let taken = with_next_taken(before);
        lemma_with_entries(taken, last);
        assert forall|e: Entry| #[trigger] listed(listings, e) <==> listed(front, e)
            || last.contains(e) by {
            if listed(front, e) {
                let i = choose|i: int| 0 <= i < front.len() && (#[trigger] front[i]).contains(e);
                assert(listings[i].contains(e));
            }
            if last.contains(e) {
                assert(listings[n].contains(e));
            }
            if listed(listings, e) && !last.contains(e) {
                let i = choose|i: int|
                    0 <= i < listings.len() && (#[trigger] listings[i]).contains(e);
                assert(front[i].contains(e));
            }
        }
        assert forall|p: PathBuf| #[trigger] after.files.contains(p) <==> exists|e: Entry|
            #[trigger] listed(listings, e) && e.is_audio_file() && e.path == p by {
            assert(before.files.contains(p) <==> exists|e: Entry| #[trigger]
                listed(front, e) && e.is_audio_file() && e.path == p);
            if before.files.contains(p) {
                let e = choose|e: Entry| #[trigger]
                    listed(front, e) && e.is_audio_file() && e.path == p;
                assert(listed(listings, e));
            }
            if exists|e: Entry| #[trigger] last.contains(e) && e.is_audio_file() && e.path == p {
                let e = choose|e: Entry| #[trigger]
                    last.contains(e) && e.is_audio_file() && e.path == p;
                assert(listed(listings, e));
            }
        }
        assert(done =~= searched(root, front).push(dir)) by {
            assert forall|i: int| 0 <= i < n implies done[i] == searched(root, front)[i] by {
                assert(front.take(i) =~= listings.take(i));
            }
        }
        assert(before.pending =~= taken.pending.push(dir));
        assert forall|p: PathBuf|
            #![trigger after.pending.contains(p)]
            #![trigger done.contains(p)]
            after.pending.contains(p) || done.contains(p) <==> p == root || exists|e: Entry|
                #[trigger] listed(listings, e) && e.is_dir && e.path == p by {
            lemma_pushed(searched(root, front), dir, p);
            lemma_pushed(taken.pending, dir, p);
            assert(before.pending.contains(p) || searched(root, front).contains(p) <==> p == root
                || exists|e: Entry| #[trigger] listed(front, e) && e.is_dir && e.path == p);
            assert(after.pending.contains(p) <==> taken.pending.contains(p) || exists|e: Entry|
                #[trigger] last.contains(e) && e.is_dir && e.path == p);
            if exists|e: Entry| #[trigger] listed(front, e) && e.is_dir && e.path == p {
                let e = choose|e: Entry| #[trigger] listed(front, e) && e.is_dir && e.path == p;
                assert(listed(listings, e));
            }
            if exists|e: Entry| #[trigger] last.contains(e) && e.is_dir && e.path == p {
                let e = choose|e: Entry| #[trigger] last.contains(e) && e.is_dir && e.path == p;
                assert(listed(listings, e));
            }
        }
    }
}

/// What is reported of a new drive, where `audio_files` are the audio files on it: nothing where
/// there are none, or where it cannot be searched.
pub fn inspect_drive(
    mount: PathBuf,
    audio_files: Option<Vec<PathBuf>>,
    label: Option<String>,
) -> (r: Option<PluggedDevice>)
    ensures
        match audio_files {
            Some(files) => if files@.len() == 0 {
                r is None
            } else {
                r == Some(PluggedDevice { mount, label, audio_files: files })
            },
            None => r is None,
        },
{
    match audio_files {
        Some(files) => {
            if files.len() == 0 {
                None
            } else {
                Some(PluggedDevice { mount, label, audio_files: files })
            }
        },
        None => None,
    }
}

/// What `String::from_utf16_lossy` makes of 16-bit units.
pub uninterp spec fn utf16_text(units: Seq<u16>) -> Seq<char>;

/// Whether each unit stands for a character by itself: none is part of a pair.
pub open spec fn are_characters(units: Seq<u16>) -> bool {
    forall|i: int| 0 <= i < units.len() ==> !(0xd800 <= #[trigger] units[i] <= 0xdfff)
}

/// The text of units that stand for characters by themselves.
pub open spec fn text_of_units(units: Seq<u16>) -> Seq<char> {
    Seq::new(units.len(), |i: int| units[i] as char)
}

/// `String::from_utf16_lossy`: the text that 16-bit units stand for, where what is not UTF-16 is
/// replaced. It depends on the units alone; units that are no surrogates are the characters of
/// these numbers.
#[verifier::external_body]
fn from_utf16_lossy(units: &[u16]) -> (r: String)
    ensures
        r@ == utf16_text(units@),
        are_characters(units@) ==> r@ == text_of_units(units@),
{
    String::from_utf16_lossy(units)
}

/// The units ahead of the first that is zero.
pub open spec fn up_to_zero(units: Seq<u16>) -> Seq<u16>
    decreases units.len(),
{
    if units.len() == 0 || units.first() == 0 {
        Seq::<u16>::empty()
    } else {
        seq![units.first()] + up_to_zero(units.drop_first())
    }
}

/// A text, unless it is empty.
pub open spec fn not_empty(text: Seq<char>) -> Option<Seq<char>> {
    if text.len() == 0 {
        None
    } else {
        Some(text)
    }
}

/// A string, unless it is empty.
pub fn unless_empty(text: String) -> (r: Option<String>)
    ensures
        opt_text(r) == not_empty(text@),
{
    let empty = String::new();
    if same(text.as_str(), empty.as_str()) {
        assert(text@.len() == 0);
        None
    } else {
        assert(text@.len() != 0) by {
            if text@.len() == 0 {
                assert(text@ =~= empty@);
            }
        }
        Some(text)
    }
}

/// The label of a volume, where `name` is the buffer with its name, which ends at a zero; none
/// where the system cannot tell, or where it is empty.
pub fn volume_label(name: Option<&[u16]>) -> (r: Option<String>)
    ensures
        opt_text(r) == (match name {
            Some(units) => not_empty(utf16_text(up_to_zero(units@))),
            None => None,
        }),
        name matches Some(units) ==> are_characters(up_to_zero(units@)) ==> opt_text(r)
            == not_empty(text_of_units(up_to_zero(units@))),
{
    let units = match name {
        Some(units) => units,
        None => {
            return None;
        },
    };
    let mut n: usize = 0;
    assert(units@.skip(0) =~= units@);
    assert(units@.take(0) =~= Seq::<u16>::empty());
    while n < units.len() && units[n] != 0
        invariant
            n <= units@.len(),
            up_to_zero(units@) == units@.take(n as int) + up_to_zero(units@.skip(n as int)),
        decreases units@.len() - n,
    {
        assert(units@.skip(n as int).drop_first() =~= units@.skip(n + 1));
        assert(units@.take(n + 1) =~= units@.take(n as int).push(units@[n as int]));
        assert(units@.take(n as int) + (seq![units@[n as int]] + up_to_zero(units@.skip(n + 1)))
            =~= units@.take(n + 1) + up_to_zero(units@.skip(n + 1)));
        n = n + 1;
    }
    assert(up_to_zero(units@) =~= units@.take(n as int));
    let text = from_utf16_lossy(slice_subrange(units, 0, n));
    assert(units@.subrange(0, n as int) =~= units@.take(n as int));
    unless_empty(text)
}

/// Bit `i` of a mask counts for 2 to the power of `i`.
pub proof fn law_a_bit_counts_for_a_power_of_two(mask: u32, i: nat)
    ensures
        pow(2, i) > 0,
        bit(mask, i) <==> mask as int / pow(2, i) % 2 == 1,
    decreases i,
{
    reveal(pow);
    lemma_pow_positive(2, i);
    if i == 0 {
        assert(pow(2, 0) == 1);
    } else {
        let h = (i - 1) as nat;
        law_a_bit_counts_for_a_power_of_two(mask / 2, h);
        lemma_div_denominator(mask as int, 2, pow(2, h));
        assert(pow(2, i) == 2 * pow(2, h));
    }
}

/// The drives are those whose bits are set, by their letters and in the order of the alphabet.
pub proof fn law_each_bit_stands_for_a_letter(mask: u32, n: nat) -> (p: Seq<int>)
    ensures
        ascending(p),
        roots(mask, n).len() == p.len(),
        forall|k: int|
            0 <= k < p.len() ==> (#[trigger] roots(mask, n)[k]) == seq![
                ('A' as int + p[k]) as char,
                ':',
                '\\',
            ],
        forall|i: int| #[trigger]
            p.contains(i) <==> 0 <= i < n && mask as int / pow(2, i as nat) % 2 == 1,
    decreases n,
{
    if n == 0 {
        Seq::<int>::empty()
    } else {
        let m = n - 1;
        let q = law_each_bit_stands_for_a_letter(mask, m as nat);
        law_a_bit_counts_for_a_power_of_two(mask, m as nat);
        if bit(mask, m as nat) {
            lemma_position_added(q, m);
            q.push(m)
        } else {
            q
        }
    }
}

/// The removable drives are exactly those of type 2, each once and in their order.
pub proof fn law_drives_of_one_type_are_removable(drives: Seq<Seq<char>>, types: Seq<u32>) -> (p: Seq<
    int,
>)
    requires
        types.len() == drives.len(),
    ensures
        ascending(p),
        removable(drives, types).len() == p.len(),
        forall|k: int| 0 <= k < p.len() ==> #[trigger] removable(drives, types)[k] == drives[p[k]],
        forall|i: int| #[trigger] p.contains(i) <==> 0 <= i < drives.len() && types[i] == 2,
{
    assert(drives.take(drives.len() as int) =~= drives);
    lemma_removable(drives, types, drives.len() as int)
}

proof fn lemma_removable(drives: Seq<Seq<char>>, types: Seq<u32>, n: int) -> (p: Seq<int>)
    requires
        0 <= n <= drives.len(),
    ensures
        ascending(p),
        removable(drives.take(n), types).len() == p.len(),
        forall|k: int|
            0 <= k < p.len() ==> #[trigger] removable(drives.take(n), types)[k] == drives[p[k]],
        forall|i: int| #[trigger] p.contains(i) <==> 0 <= i < n && types[i] == 2,
    decreases n,
{
    if n == 0 {
        Seq::<int>::empty()
    } else {
        let m = n - 1;
        let q = lemma_removable(drives, types, m);
        assert(drives.take(n).drop_last() =~= drives.take(m));
        if types[m] == 2 {
            lemma_position_added(q, m);
            q.push(m)
        } else {
            q
        }
    }
}

/// New drives are told of in the order in which they are found, each as often as it is found.
pub proof fn law_new_drives_keep_their_order(seen: Seq<Seq<char>>, drives: Seq<Seq<char>>)
    ensures
        unseen(seen, drives) == drives.filter(|d: Seq<char>| !seen.contains(d)),
    decreases drives.len(),
{
    reveal(Seq::filter);
    if drives.len() > 0 {
        law_new_drives_keep_their_order(seen, drives.drop_last());
    }
}

/// Exactly five extensions are those of audio files.
pub proof fn law_five_extensions_are_audio(e: Seq<char>)
    ensures
        is_audio_extension(e) <==> seq!["wav"@, "mp3"@, "m4a"@, "flac"@, "ogg"@].contains(e),
        audio_by_extension(Some(e)) <==> seq![
            "wav"@,
            "mp3"@,
            "m4a"@,
            "flac"@,
            "ogg"@,
        ].contains(lowercase(e)),
        !audio_by_extension(None),
{
    let all = seq!["wav"@, "mp3"@, "m4a"@, "flac"@, "ogg"@];
    assert(all[0] == "wav"@ && all[1] == "mp3"@ && all[2] == "m4a"@ && all[3] == "flac"@ && all[4]
        == "ogg"@);
}

/// The audio files of a directory are found in the order of its entries, each once, behind those
/// that were found before; and so are its directories noted, behind those that are still to be
/// searched.
pub proof fn law_entries_are_noted_in_order(s: WalkState, entries: Seq<Entry>)
    ensures
        with_entries(s, entries).files == s.files + entries.filter(
            |e: Entry| !e.is_dir && audio_by_extension(extension_of(as_path_of(&e.path))),
        ).map_values(|e: Entry| e.path),
        with_entries(s, entries).pending == s.pending + entries.filter(
            |e: Entry| e.is_dir,
        ).map_values(|e: Entry| e.path),
    decreases entries.len(),
{
    reveal(Seq::filter);
    let audio = |e: Entry| !e.is_dir && audio_by_extension(extension_of(as_path_of(&e.path)));
    let dir = |e: Entry| e.is_dir;
    let path = |e: Entry| e.path;
    let after = with_entries(s, entries);
    if entries.len() == 0 {
        assert(after.files =~= s.files + entries.filter(audio).map_values(path));
        assert(after.pending =~= s.pending + entries.filter(dir).map_values(path));
    } else {
        let front = entries.drop_last();
        law_entries_are_noted_in_order(s, front);
        assert(with_entries(s, front).files == s.files + front.filter(audio).map_values(path));
        assert(with_entries(s, front).pending == s.pending + front.filter(dir).map_values(path));
        assert(after.files =~= s.files + entries.filter(audio).map_values(path));
        assert(after.pending =~= s.pending + entries.filter(dir).map_values(path));
    }
}

/// A search takes the directory that was noted last, and finds nothing by that.
pub proof fn law_the_directory_noted_last_is_next(s: WalkState, dir: PathBuf)
    ensures
        with_next_taken(WalkState { pending: s.pending.push(dir), files: s.files }) == s,
{
    assert(s.pending.push(dir).drop_last() =~= s.pending);
}

/// A name ends ahead of its first zero: what is behind that does not count, and no zero is in
/// what does.
pub proof fn law_a_name_ends_at_the_first_zero(units: Seq<u16>)
    ensures
        up_to_zero(units).is_prefix_of(units),
        forall|i: int| 0 <= i < up_to_zero(units).len() ==> #[trigger] units[i] != 0,
        up_to_zero(units).len() < units.len() ==> units[up_to_zero(units).len() as int] == 0,
    decreases units.len(),
{
    let r = up_to_zero(units);
    if units.len() == 0 || units.first() == 0 {
        assert(r =~= units.subrange(0, 0));
    } else {
        let rest = units.drop_first();
        law_a_name_ends_at_the_first_zero(rest);
        let t = up_to_zero(rest);
        assert(r =~= units.subrange(0, r.len() as int)) by {
            assert forall|i: int| 0 < i < r.len() implies r[i] == units[i] by {
                assert(r[i] == t[i - 1]);
                assert(t[i - 1] == rest.subrange(0, t.len() as int)[i - 1]);
                assert(rest[i - 1] == units[i]);
            }
        }
        assert forall|i: int| 0 <= i < r.len() implies #[trigger] units[i] != 0 by {
            if i > 0 {
                assert(rest[i - 1] == units[i]);
            }
        }
        if r.len() < units.len() {
            assert(rest[t.len() as int] == units[r.len() as int]);
        }
    }
}

} // verus!
