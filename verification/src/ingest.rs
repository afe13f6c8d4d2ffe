//! Importing recordings from a plugged-in recorder, and deleting them there.
//!
//! A file is copied beside its final place while a checksum is taken of what is read. What then
//! is on disk is read again and must have the same checksum and the expected size before the
//! copy is taken for good. Only files whose copies were found good are deleted from the device.

use std::path::{Path, PathBuf};

use vstd::prelude::*;
use vstd::string::*;
use vstd::utf8::{decode_utf8, encode_utf8, valid_utf8};

use crate::db::audio_dir;
use crate::digits::{
    decimal, decimal_i64, decimal_u64, hex, law_hex_tells_bytes_apart, law_signed_decimals_differ,
    signed_decimal,
};
use crate::hash::{sha256, Checksum};
use crate::paths::{
    as_path, as_path_of, buf_parts, ends_in_a_name, extended_path, extension, extension_of,
    file_name, file_name_of, in_one_part, is_ordinary, is_plain_name, join, joined_path,
    lemma_decimal_separates_nothing, lemma_plain_name_as_bytes, name_extension, partial_name,
    partial_path, path_parts, path_text, separates, starts_with, to_text, utf8_text, within,
};
use crate::store::{effect, RecordingRec, Statement, Status, Stmt, Tables};
use crate::text::{
    ascii_lowercase, concat2, concat3, is_ascii_text, lowercase, same, to_lowercase,
};

verus! {

/// What has become of an import.
#[derive(Debug)]
pub struct ImportResult {
    pub source_path: PathBuf,
    pub recording_id: Option<i64>,
    pub dest_path: Option<PathBuf>,
    pub bytes: u64,
    pub source_sha256: String,
    pub dest_sha256: String,
    pub verified: bool,
    pub error: Option<String>,
}

/// Why a recording is not imported.
#[derive(Debug)]
pub enum ImportError {
    /// It is not in the one format that is understood.
    UnsupportedFormat { extension: String },
    /// Not as much was copied as the file holds.
    SizeMismatch { expected: u64, copied: u64 },
    /// What is on disk is not what was read.
    VerificationFailed {
        source_sha256: String,
        dest_sha256: String,
        dest_size: u64,
        expected_size: u64,
    },
}

impl ImportError {
    /// What is shown to the user.
    pub open spec fn text(self) -> Seq<char> {
        match self {
            ImportError::UnsupportedFormat { extension } => "unsupported format '."@ + extension@
                + "' — v1 only handles .wav from the device. Convert with `ffmpeg -i in."@
                + extension@ + " out.wav` and import the .wav."@,
            ImportError::SizeMismatch { expected, copied } => "size mismatch: expected "@ + decimal(
                expected as nat,
            ) + " bytes, copied "@ + decimal(copied as nat),
            ImportError::VerificationFailed {
                source_sha256,
                dest_sha256,
                dest_size,
                expected_size,
            } => "verification failed: source sha256 "@ + source_sha256@ + " vs dest sha256 "@
                + dest_sha256@ + ", dest size "@ + decimal(dest_size as nat) + " vs expected "@
                + decimal(expected_size as nat),
        }
    }

    /// What is shown to the user.
    pub fn message(&self) -> (r: String)
        ensures
            r@ == self.text(),
    {
        match self {
            ImportError::UnsupportedFormat { extension } => {
                let mut r = concat3(
                    "unsupported format '.",
                    extension.as_str(),
                    "' — v1 only handles .wav from the device. Convert with `ffmpeg -i in.",
                );
                r.append(extension.as_str());
                r.append(" out.wav` and import the .wav.");
                r
            },
            ImportError::SizeMismatch { expected, copied } => {
                let e = decimal_u64(*expected);
                let c = decimal_u64(*copied);
                let mut r = concat3("size mismatch: expected ", e.as_str(), " bytes, copied ");
                r.append(c.as_str());
                r
            },
            ImportError::VerificationFailed {
                source_sha256,
                dest_sha256,
                dest_size,
                expected_size,
            } => {
                let mut r = concat3(
                    "verification failed: source sha256 ",
                    source_sha256.as_str(),
                    " vs dest sha256 ",
                );
                r.append(dest_sha256.as_str());
                r.append(", dest size ");
                let d = decimal_u64(*dest_size);
                r.append(d.as_str());
                r.append(" vs expected ");
                let e = decimal_u64(*expected_size);
                r.append(e.as_str());
                r
            },
        }
    }
}

/// The extension by which the format is told: in small letters, and empty where there is none.
pub open spec fn format_of(extension: Option<Seq<char>>) -> Seq<char> {
    match extension {
        Some(e) => lowercase(e),
        None => Seq::<char>::empty(),
    }
}

/// Checks an extension, in small letters, for the one format that is understood.
pub fn check_extension(extension: String) -> (r: Result<(), ImportError>)
    ensures
        match r {
            Ok(_) => extension@ == "wav"@,
            Err(e) => extension@ != "wav"@ && (e matches ImportError::UnsupportedFormat {
                extension: x,
            } && x@ == extension@),
        },
{
    if same(extension.as_str(), "wav") {
        Ok(())
    } else {
        Err(ImportError::UnsupportedFormat { extension })
    }
}

/// Checks that a file is in the one format that is understood, by its extension.
pub fn check_format(source: &Path) -> (r: Result<(), ImportError>)
    ensures
        match r {
            Ok(_) => format_of(extension_of(source)) == "wav"@,
            Err(e) => format_of(extension_of(source)) != "wav"@ && (
            e matches ImportError::UnsupportedFormat { extension: x } && x@ == format_of(
                extension_of(source),
            )),
        },
        ends_in_a_name(path_parts(source)) ==> (r is Ok <==> format_of(
            utf8_text(name_extension(path_parts(source).last())),
        ) == "wav"@),
        extension_of(source) matches Some(x) ==> is_ascii_text(x) ==> (r is Ok <==> ascii_lowercase(
            x,
        ) == "wav"@),
{
    let format = match extension(source) {
        Some(e) => to_lowercase(e.as_str()),
        None => String::new(),
    };
    check_extension(format)
}

/// The name under which a file is imported: its own, or one made from the time, in seconds,
/// where it has none.
pub open spec fn name_or(name: Option<Seq<char>>, timestamp: i64) -> Seq<char> {
    match name {
        Some(n) => n,
        None => "import_"@ + signed_decimal(timestamp as int) + ".wav"@,
    }
}

/// The name under which a file is imported at the time `timestamp`.
pub fn import_filename(source: &Path, timestamp: i64) -> (r: String)
    ensures
        r@ == name_or(file_name_of(source), timestamp),
        ends_in_a_name(path_parts(source)) && valid_utf8(path_parts(source).last()) ==> r@
            == decode_utf8(path_parts(source).last()),
{
    match file_name(source) {
        Some(n) => n,
        None => {
            let t = decimal_i64(timestamp);
            concat3("import_", t.as_str(), ".wav")
        },
    }
}

/// The name of the copy of a recording.
pub open spec fn copy_name(recording_id: i64, filename: Seq<char>) -> Seq<char> {
    "import_"@ + signed_decimal(recording_id as int) + "_"@ + filename
}

proof fn lemma_copy_name_is_plain(recording_id: i64, filename: Seq<char>)
    requires
        in_one_part(filename),
    ensures
        is_plain_name(copy_name(recording_id, filename)),
        copy_name(recording_id, filename)[0] == 'i',
{
    reveal_strlit("import_");
    reveal_strlit("_");
    let d = signed_decimal(recording_id as int);
    lemma_decimal_separates_nothing(recording_id as int);
    let n = copy_name(recording_id, filename);
    assert forall|i: int| 0 <= i < n.len() implies !separates(#[trigger] n[i]) by {
        if 7 <= i < 7 + d.len() {
            assert(n[i] == d[i - 7]);
        } else if i > 7 + d.len() {
            assert(n[i] == filename[i - 8 - d.len()]);
        }
    }
    assert(n[0] == 'i' && n[1] == 'm');
}

/// The final place of a copy.
pub open spec fn copy_place(data_dir: &Path, recording_id: i64, filename: Seq<char>) -> PathBuf {
    joined_path(within(data_dir, "audio"@), copy_name(recording_id, filename))
}

/// Where a copy is until it has been found good.
pub open spec fn incomplete_place(
    data_dir: &Path,
    recording_id: i64,
    filename: Seq<char>,
) -> PathBuf {
    extended_path(as_path_of(&copy_place(data_dir, recording_id, filename)), "partial"@)
}

/// Where a copy goes: its final place, and where it is until it has been found good.
pub fn copy_paths(data_dir: &Path, recording_id: i64, filename: &str) -> (r: (PathBuf, PathBuf))
    ensures
        r.0 == copy_place(data_dir, recording_id, filename@),
        r.1 == incomplete_place(data_dir, recording_id, filename@),
        is_ordinary(data_dir) && in_one_part(filename@) ==> {
            let dir = path_parts(data_dir).push(encode_utf8("audio"@));
            let name = encode_utf8(copy_name(recording_id, filename@));
            &&& buf_parts(r.0) == dir.push(name)
            &&& buf_parts(r.1) == dir.push(partial_name(name))
        },
{
    let dir = audio_dir(data_dir);
    let id = decimal_i64(recording_id);
    let mut name = concat3("import_", id.as_str(), "_");
    name.append(filename);
    let dest = join(as_path(&dir), name.as_str());
    proof {
        if is_ordinary(data_dir) && in_one_part(filename@) {
            lemma_copy_name_is_plain(recording_id, filename@);
            lemma_plain_name_as_bytes(copy_name(recording_id, filename@));
            assert(ends_in_a_name(buf_parts(dest)));
            let d = path_parts(data_dir).push(encode_utf8("audio"@));
            assert(d.push(encode_utf8(copy_name(recording_id, filename@))).drop_last() =~= d);
        }
    }
    let partial = partial_path(as_path(&dest));
    (dest, partial)
}

/// An import that is being copied, to a place beside the final one.
pub struct Copying {
    recording_id: i64,
    dest: PathBuf,
    partial: PathBuf,
    expected: u64,
    read: Checksum,
}

/// An import that has been copied, and whose copy has not been read again yet.
pub struct Copied {
    recording_id: i64,
    dest: PathBuf,
    partial: PathBuf,
    expected: u64,
    sha256: String,
}

/// An import whose copy is good, and is to be moved to its final place.
pub struct Verified {
    recording_id: i64,
    dest: PathBuf,
    partial: PathBuf,
    bytes: u64,
    source_sha256: String,
    dest_sha256: String,
}

/// An import whose copy is bad. The copy is to be removed, and the statement to be executed.
#[derive(Debug)]
pub struct Rejected {
    pub partial: PathBuf,
    pub statement: Statement,
    pub error: ImportError,
}

impl Copying {
    /// The recording.
    pub closed spec fn recording(&self) -> i64 {
        self.recording_id
    }

    /// Where the copy goes in the end.
    pub closed spec fn dest(&self) -> PathBuf {
        self.dest
    }

    /// Where the copy is until it has been found good.
    pub closed spec fn partial(&self) -> PathBuf {
        self.partial
    }

    /// The size that the source has.
    pub closed spec fn expected_bytes(&self) -> u64 {
        self.expected
    }

    /// What has been read of the source.
    pub closed spec fn data(&self) -> Seq<u8> {
        self.read.data()
    }

    /// An import of a file of this name of which nothing has been copied yet. The copy goes where
    /// `copy_paths` says.
    pub fn new(data_dir: &Path, recording_id: i64, filename: &str, expected_bytes: u64) -> (r: Self)
        ensures
            r.recording() == recording_id,
            r.dest() == copy_place(data_dir, recording_id, filename@),
            r.partial() == incomplete_place(data_dir, recording_id, filename@),
            r.expected_bytes() == expected_bytes,
            r.data() == Seq::<u8>::empty(),
    {
        let (dest, partial) = copy_paths(data_dir, recording_id, filename);
        Copying { recording_id, dest, partial, expected: expected_bytes, read: Checksum::new() }
    }

    /// Where the copy is.
    pub fn partial_path(&self) -> (r: &Path)
        ensures
            r == as_path_of(&self.partial()),
    {
        as_path(&self.partial)
    }

    /// Takes note of a piece that has been read and is to be written.
    pub fn piece(&mut self, data: &[u8])
        requires
            old(self).data().len() + data@.len() <= u64::MAX,
        ensures
            final(self).recording() == old(self).recording(),
            final(self).dest() == old(self).dest(),
            final(self).partial() == old(self).partial(),
            final(self).expected_bytes() == old(self).expected_bytes(),
            final(self).data() == old(self).data() + data@,
    {
        self.read.feed(data);
    }

    /// How much has been read.
    pub fn bytes_read(&self) -> (r: u64)
        ensures
            r == self.data().len(),
    {
        self.read.bytes()
    }

    /// All has been read and written: the copy is good so far if that is as much as was
    /// expected.
    pub fn finish(self) -> (r: Result<Copied, Rejected>)
        ensures
            match r {
                Ok(c) => self.data().len() == self.expected_bytes() && c.recording()
                    == self.recording() && c.dest() == self.dest() && c.partial() == self.partial()
                    && c.expected_bytes() == self.expected_bytes() && c.source_sha256() == hex(
                    sha256(self.data()),
                ),
                Err(e) => self.data().len() != self.expected_bytes() && e.rejects(
                    self.recording(),
                    self.partial(),
                ) && (e.error matches ImportError::SizeMismatch { expected, copied } && expected
                    == self.expected_bytes() && copied == self.data().len()),
            },
    {
        let copied: u64 = self.read.bytes();
        if copied != self.expected {
            return Err(
                Rejected {
                    partial: self.partial,
                    statement: Statement::SetStatus {
                        recording_id: self.recording_id,
                        status: Status::Failed,
                    },
                    error: ImportError::SizeMismatch { expected: self.expected, copied },
                },
            );
        }
        Ok(
            Copied {
                recording_id: self.recording_id,
                dest: self.dest,
                partial: self.partial,
                expected: self.expected,
                sha256: self.read.finish(),
            },
        )
    }
}

impl Rejected {
    /// Whether this marks the recording as failed and removes the copy at `partial`.
    pub open spec fn rejects(self, recording_id: i64, partial: PathBuf) -> bool {
        &&& self.statement@ == (Stmt::SetStatus { recording_id, status: Status::Failed })
        &&& self.partial == partial
    }
}

impl Copied {
    /// The recording.
    pub closed spec fn recording(&self) -> i64 {
        self.recording_id
    }

    /// Where the copy goes in the end.
    pub closed spec fn dest(&self) -> PathBuf {
        self.dest
    }

    /// Where the copy is until it has been found good.
    pub closed spec fn partial(&self) -> PathBuf {
        self.partial
    }

    /// The size that the source has, and as much has been copied.
    pub closed spec fn expected_bytes(&self) -> u64 {
        self.expected
    }

    /// The checksum of what was read of the source.
    pub closed spec fn source_sha256(&self) -> Seq<char> {
        self.sha256@
    }

    /// Where the copy is.
    pub fn partial_path(&self) -> (r: &Path)
        ensures
            r == as_path_of(&self.partial()),
    {
        as_path(&self.partial)
    }

    /// The copy has been read again, and found to be of the size `dest_size`: it is good if its
    /// checksum is that of what was read of the source, and its size the expected one.
    pub fn verify(self, on_disk: Checksum, dest_size: u64) -> (r: Result<Verified, Rejected>)
        ensures
            ({
                let dest_sha256 = hex(sha256(on_disk.data()));
                match r {
                    Ok(v) => dest_sha256 == self.source_sha256() && dest_size
                        == self.expected_bytes() && v.recording() == self.recording() && v.dest()
                        == self.dest() && v.partial() == self.partial() && v.bytes() == self.expected_bytes() && v.source_sha256() == self.source_sha256()
                        && v.dest_sha256() == dest_sha256,
                    Err(e) => (dest_sha256 != self.source_sha256() || dest_size
                        != self.expected_bytes()) && e.rejects(self.recording(), self.partial()) && (
                    e.error matches ImportError::VerificationFailed {
                        source_sha256,
                        dest_sha256: d,
                        dest_size: s,
                        expected_size,
                    } && source_sha256@ == self.source_sha256() && d@ == dest_sha256 && s
                        == dest_size && expected_size == self.expected_bytes()),
                }
            }),
    {
        let dest_sha256 = on_disk.finish();
        if !same(dest_sha256.as_str(), self.sha256.as_str()) || dest_size != self.expected {
            return Err(
                Rejected {
                    partial: self.partial,
                    statement: Statement::SetStatus {
                        recording_id: self.recording_id,
                        status: Status::Failed,
                    },
                    error: ImportError::VerificationFailed {
                        source_sha256: self.sha256,
                        dest_sha256,
                        dest_size,
                        expected_size: self.expected,
                    },
                },
            );
        }
        Ok(
            Verified {
                recording_id: self.recording_id,
                dest: self.dest,
                partial: self.partial,
                bytes: self.expected,
                source_sha256: self.sha256,
                dest_sha256,
            },
        )
    }
}

impl Verified {
    /// The recording.
    pub closed spec fn recording(&self) -> i64 {
        self.recording_id
    }

    /// Where the copy goes in the end.
    pub closed spec fn dest(&self) -> PathBuf {
        self.dest
    }

    /// Where the copy is until it has been found good.
    pub closed spec fn partial(&self) -> PathBuf {
        self.partial
    }

    /// The size of the copy.
    pub closed spec fn bytes(&self) -> u64 {
        self.bytes
    }

    /// The checksum of what was read of the source.
    pub closed spec fn source_sha256(&self) -> Seq<char> {
        self.source_sha256@
    }

    /// The checksum of what is on disk.
    pub closed spec fn dest_sha256(&self) -> Seq<char> {
        self.dest_sha256@
    }

    /// Where the copy is.
    pub fn partial_path(&self) -> (r: &Path)
        ensures
            r == as_path_of(&self.partial()),
    {
        as_path(&self.partial)
    }

    /// Where the copy is to be moved to.
    pub fn dest_path(&self) -> (r: &Path)
        ensures
            r == as_path_of(&self.dest()),
    {
        as_path(&self.dest)
    }

    /// The statement that gives the recording its copy, once that is at its final place.
    pub fn adopt(&self) -> (r: Statement)
        ensures
            r@ == (Stmt::AdoptCopy {
                recording_id: self.recording(),
                audio_path: path_text(as_path_of(&self.dest())),
            }),
    {
        Statement::AdoptCopy {
            recording_id: self.recording_id,
            audio_path: to_text(as_path(&self.dest)),
        }
    }

    /// What has become of the import of the file at `source_path`, once the statement has been
    /// executed.
    pub fn result(self, source_path: PathBuf) -> (r: ImportResult)
        ensures
            r.source_path == source_path,
            r.recording_id == Some(self.recording()),
            r.dest_path == Some(self.dest()),
            r.bytes == self.bytes(),
            r.source_sha256@ == self.source_sha256(),
            r.dest_sha256@ == self.dest_sha256(),
            r.verified,
            r.error is None,
    {
        ImportResult {
            source_path,
            recording_id: Some(self.recording_id),
            dest_path: Some(self.dest),
            bytes: self.bytes,
            source_sha256: self.source_sha256,
            dest_sha256: self.dest_sha256,
            verified: true,
            error: None,
        }
    }
}

/// What is reported of an import: its result, or that it has failed, with the reason.
pub fn import_file(source_path: PathBuf, outcome: Result<ImportResult, String>) -> (r: ImportResult)
    ensures
        match outcome {
            Ok(result) => r == result,
            Err(e) => r.source_path == source_path && r.recording_id is None && r.dest_path is None
                && r.bytes == 0 && r.source_sha256@ == Seq::<char>::empty() && r.dest_sha256@
                == Seq::<char>::empty() && !r.verified && r.error == Some(e),
        },
{
    match outcome {
        Ok(result) => result,
        Err(e) => ImportResult {
            source_path,
            recording_id: None,
            dest_path: None,
            bytes: 0,
            source_sha256: String::new(),
            dest_sha256: String::new(),
            verified: false,
            error: Some(e),
        },
    }
}

/// What is to be done next to delete files from a device.
#[derive(Debug, Clone, Copy, PartialEq, Eq, Structural)]
pub enum WipeStep {
    /// Find out where the file at this position really is.
    Resolve(usize),
    /// Delete the file at this position.
    Delete(usize),
    /// Stop: the file at this position is not on the device.
    Refuse(usize),
    /// Stop: so many files have been deleted.
    Done(usize),
}

/// What is known of the file whose turn it is to be deleted.
#[derive(Debug, Clone, Copy, PartialEq, Eq, Structural)]
pub enum WipePhase {
    /// Not yet where it really is.
    Unresolved,
    /// It is on the device.
    OnDevice,
    /// It is not on the device, and nothing more is done.
    Elsewhere,
}

/// How far the deleting of files from a device has come.
pub struct WipeState {
    /// The components of the path that the device is mounted at.
    pub mount: Seq<Seq<u8>>,
    /// The files to be deleted.
    pub files: Seq<PathBuf>,
    /// The position of the file whose turn it is.
    pub at: int,
    /// How many files have been deleted.
    pub removed: int,
    pub phase: WipePhase,
}

/// What happens while files are deleted from a device.
pub enum WipeEvent {
    /// The file whose turn it is really is here, or it could not be found out where it is.
    Resolved(Option<PathBuf>),
    /// The deletion of the file whose turn it is was tried, with success or not.
    Deleted(bool),
}

/// The path that something really has, or the one that is given where that is not known.
pub open spec fn real_path(given: PathBuf, canonical: Option<PathBuf>) -> PathBuf {
    match canonical {
        Some(c) => c,
        None => given,
    }
}

/// Whether a file, given as `file`, which really is at `canonical` where that is known, is on the
/// device that is mounted at `mount`.
pub open spec fn on_device(
    mount: Seq<Seq<u8>>,
    file: PathBuf,
    canonical: Option<PathBuf>,
) -> bool {
    mount.is_prefix_of(buf_parts(real_path(file, canonical)))
}

impl WipeState {
    /// Nothing has been done yet.
    pub open spec fn start(mount: Seq<Seq<u8>>, files: Seq<PathBuf>) -> WipeState {
        WipeState { mount, files, at: 0, removed: 0, phase: WipePhase::Unresolved }
    }

    /// What is to be done next.
    pub open spec fn step(self) -> WipeStep {
        match self.phase {
            WipePhase::Unresolved => if self.at < self.files.len() {
                WipeStep::Resolve(self.at as usize)
            } else {
                WipeStep::Done(self.removed as usize)
            },
            WipePhase::OnDevice => WipeStep::Delete(self.at as usize),
            WipePhase::Elsewhere => WipeStep::Refuse(self.at as usize),
        }
    }

    /// What an event comes to. A file may be deleted once it is known to be on the device, and
    /// one that cannot be deleted is passed over. What is not waited for changes nothing.
    pub open spec fn after(self, event: WipeEvent) -> WipeState {
        match (self.phase, event) {
            (WipePhase::Unresolved, WipeEvent::Resolved(canonical)) => if self.at
                >= self.files.len() {
                self
            } else if on_device(self.mount, self.files[self.at], canonical) {
                WipeState { phase: WipePhase::OnDevice, ..self }
            } else {
                WipeState { phase: WipePhase::Elsewhere, ..self }
            },
            (WipePhase::OnDevice, WipeEvent::Deleted(success)) => WipeState {
                at: self.at + 1,
                removed: if success {
                    self.removed + 1
                } else {
                    self.removed
                },
                phase: WipePhase::Unresolved,
                ..self
            },
            _ => self,
        }
    }

    /// What events come to one after another.
    pub open spec fn after_all(self, events: Seq<WipeEvent>) -> WipeState
        decreases events.len(),
    {
        if events.len() == 0 {
            self
        } else {
            self.after_all(events.drop_last()).after(events.last())
        }
    }
}

/// Files being deleted from a device.
pub struct Wipe {
    mount: PathBuf,
    files: Vec<PathBuf>,
    at: usize,
    removed: usize,
    phase: WipePhase,
}

impl View for Wipe {
    type V = WipeState;

    closed spec fn view(&self) -> WipeState {
        WipeState {
            mount: buf_parts(self.mount),
            files: self.files@,
            at: self.at as int,
            removed: self.removed as int,
            phase: self.phase,
        }
    }
}

impl Wipe {
    #[verifier::type_invariant]
    spec fn counts(self) -> bool {
        &&& self.removed <= self.at <= self.files@.len()
        &&& self.phase != WipePhase::Unresolved ==> self.at < self.files@.len()
    }

    /// Nothing deleted yet of these files on the device that is mounted at `mount`, which really
    /// is at `canonical`, where that is known.
    pub fn new(mount: PathBuf, canonical: Option<PathBuf>, files: Vec<PathBuf>) -> (r: Self)
        ensures
            r@ == WipeState::start(buf_parts(real_path(mount, canonical)), files@),
    {
        let mount = match canonical {
            Some(c) => c,
            None => mount,
        };
        Wipe { mount, files, at: 0, removed: 0, phase: WipePhase::Unresolved }
    }

    /// What is to be done next.
    pub fn step(&self) -> (r: WipeStep)
        ensures
            r == self@.step(),
    {
        match self.phase {
            WipePhase::Unresolved => {
                if self.at < self.files.len() {
                    WipeStep::Resolve(self.at)
                } else {
                    WipeStep::Done(self.removed)
                }
            },
            WipePhase::OnDevice => WipeStep::Delete(self.at),
            WipePhase::Elsewhere => WipeStep::Refuse(self.at),
        }
    }

    /// The file whose turn it is really is at `canonical`, where that is known: it may be deleted
    /// only if that is on the device.
    pub fn resolved(&mut self, canonical: &Option<PathBuf>)
        ensures
            final(self)@ == old(self)@.after(WipeEvent::Resolved(*canonical)),
    {
        proof {
            use_type_invariant(&*self);
        }
        let unresolved = match self.phase {
            WipePhase::Unresolved => true,
            _ => false,
        };
        if !unresolved || self.at >= self.files.len() {
            return ;
        }
        let place = match canonical {
            Some(c) => c,
            None => &self.files[self.at],
        };
        let phase = if starts_with(as_path(place), as_path(&self.mount)) {
            WipePhase::OnDevice
        } else {
            WipePhase::Elsewhere
        };
        self.phase = phase;
    }

    /// The deletion of the file whose turn it is was tried: a file that cannot be deleted is
    /// passed over.
    pub fn deleted(&mut self, success: bool)
        ensures
            final(self)@ == old(self)@.after(WipeEvent::Deleted(success)),
    {
        proof {
            use_type_invariant(&*self);
        }
        match self.phase {
            WipePhase::OnDevice => {
                let total: usize = self.files.len();
                assert(self.at < total);
                self.phase = WipePhase::Unresolved;
                self.at = self.at + 1;
                if success {
                    self.removed = self.removed + 1;
                }
            },
            _ => {},
        }
    }

    /// The path that the device is mounted at.
    pub fn mount(&self) -> (r: &Path)
        ensures
            path_parts(r) == self@.mount,
    {
        as_path(&self.mount)
    }
}

/// Why a file is not deleted, where it and the mount point are shown as `file` and `mount`.
pub fn wipe_refusal(file: &str, mount: &str) -> (r: String)
    ensures
        r@ == "refusing to delete "@ + file@ + " — not under mount "@ + mount@,
{
    let r = concat3("refusing to delete ", file, " — not under mount ");
    concat2(r.as_str(), mount)
}

/// Copies of different recordings have different names, and so have copies of differently named
/// files.
pub proof fn law_copies_have_names_of_their_own(a: i64, f: Seq<char>, b: i64, g: Seq<char>)
    requires
        copy_name(a, f) == copy_name(b, g),
    ensures
        a == b,
        f == g,
{
    reveal_strlit("import_");
    reveal_strlit("_");
    let x = signed_decimal(a as int);
    let y = signed_decimal(b as int);
    let m = copy_name(a, f);
    let n = copy_name(b, g);
    law_signed_decimals_differ(a as int, b as int);
    assert(m[7 + x.len() as int] == '_');
    assert(n[7 + y.len() as int] == '_');
    if x.len() < y.len() {
        assert(n[7 + x.len() as int] == y[x.len() as int]);
        assert(false);
    }
    if y.len() < x.len() {
        assert(m[7 + y.len() as int] == x[y.len() as int]);
        assert(false);
    }
    assert(x =~= y) by {
        assert forall|i: int| 0 <= i < x.len() implies x[i] == y[i] by {
            assert(m[7 + i] == x[i]);
            assert(n[7 + i] == y[i]);
        }
    }
    assert(f.len() == m.len() - 8 - x.len());
    assert(f =~= g) by {
        assert forall|i: int| 0 <= i < f.len() implies f[i] == g[i] by {
            assert(m[8 + x.len() as int + i] == f[i]);
            assert(n[8 + y.len() as int + i] == g[i]);
        }
    }
}

/// Checksums that are the same in hexadecimal are those of data with the same digest.
pub proof fn law_a_good_copy_has_the_digest_of_the_source(read: Seq<u8>, on_disk: Seq<u8>)
    requires
        hex(sha256(read)) == hex(sha256(on_disk)),
    ensures
        sha256(read) == sha256(on_disk),
{
    law_hex_tells_bytes_apart(sha256(read), sha256(on_disk));
}

/// Rejecting an import marks its recording as failed, and changes nothing else.
pub proof fn law_rejecting_marks_the_recording_failed(t: Tables, recording_id: i64, id: i64)
    requires
        t.recordings.dom().contains(recording_id),
    ensures
        effect(t, Stmt::SetStatus { recording_id, status: Status::Failed }, id) == Some(
            Tables {
                recordings: t.recordings.insert(
                    recording_id,
                    RecordingRec { status: Status::Failed, ..t.recordings[recording_id] },
                ),
                ..t
            },
        ),
{
}

/// Adopting a copy gives the recording its path and sets it to be transcribed, and changes
/// nothing else.
pub proof fn law_adopting_gives_the_recording_its_copy(
    t: Tables,
    recording_id: i64,
    audio_path: Seq<char>,
    id: i64,
)
    requires
        t.recordings.dom().contains(recording_id),
    ensures
        effect(t, Stmt::AdoptCopy { recording_id, audio_path }, id) == Some(
            Tables {
                recordings: t.recordings.insert(
                    recording_id,
                    RecordingRec {
                        audio_path,
                        status: Status::Transcribing,
                        ..t.recordings[recording_id]
                    },
                ),
                ..t
            },
        ),
{
}

/// Whatever happens while files are deleted, and in whatever order: a file is to be deleted only
/// after it was found out that it, or what it leads to, is on the device.
pub proof fn law_only_files_on_the_device_are_deleted(
    mount: Seq<Seq<u8>>,
    files: Seq<PathBuf>,
    events: Seq<WipeEvent>,
)
    ensures
        ({
            let s = WipeState::start(mount, files).after_all(events);
            &&& s.mount == mount && s.files == files
            &&& 0 <= s.removed <= s.at <= files.len()
            &&& s.phase == WipePhase::OnDevice ==> s.at < files.len() && exists|c: Option<PathBuf>|
                events.contains(WipeEvent::Resolved(c)) && #[trigger] on_device(
                    mount,
                    files[s.at],
                    c,
                )
        }),
    decreases events.len(),
{
    if events.len() > 0 {
        let front = events.drop_last();
        law_only_files_on_the_device_are_deleted(mount, files, front);
        let before = WipeState::start(mount, files).after_all(front);
        let s = WipeState::start(mount, files).after_all(events);
        if s.phase == WipePhase::OnDevice {
            if before.phase == WipePhase::OnDevice {
                let c = choose|c: Option<PathBuf>|
                    front.contains(WipeEvent::Resolved(c)) && #[trigger] on_device(
                        mount,
                        files[before.at],
                        c,
                    );
                let k = choose|k: int| 0 <= k < front.len() && front[k] == WipeEvent::Resolved(c);
                assert(events[k] == WipeEvent::Resolved(c));
                assert(events.contains(WipeEvent::Resolved(c)));
            } else if let WipeEvent::Resolved(c) = events.last() {
                assert(events[events.len() - 1] == WipeEvent::Resolved(c));
                assert(events.contains(WipeEvent::Resolved(c)));
            }
        }
    }
}

/// How many files ahead of the first that is not on the device there are, among the first `n`,
/// where `places[i]` is where `files[i]` really is, where that is known.
pub open spec fn wiped_up_to(
    mount: Seq<Seq<u8>>,
    files: Seq<PathBuf>,
    places: Seq<Option<PathBuf>>,
    n: int,
) -> int
    decreases n,
{
    if n <= 0 {
        0
    } else {
        let front = wiped_up_to(mount, files, places, n - 1);
        if front == n - 1 && on_device(mount, files[n - 1], places[n - 1]) {
            n
        } else {
            front
        }
    }
}

/// How many of the first `n` deletions were a success.
pub open spec fn successes(outcomes: Seq<bool>, n: int) -> int
    decreases n,
{
    if n <= 0 {
        0
    } else if outcomes[n - 1] {
        successes(outcomes, n - 1) + 1
    } else {
        successes(outcomes, n - 1)
    }
}

/// The deleting of files once it has been found out of the first `n` where they really are, and
/// the deletion of each that was to be deleted has been tried: `outcomes[i]` says whether that of
/// `files[i]` is a success.
pub open spec fn wiped(
    mount: Seq<Seq<u8>>,
    files: Seq<PathBuf>,
    places: Seq<Option<PathBuf>>,
    outcomes: Seq<bool>,
    n: int,
) -> WipeState
    decreases n,
{
    if n <= 0 {
        WipeState::start(mount, files)
    } else {
        wiped(mount, files, places, outcomes, n - 1).after(
            WipeEvent::Resolved(places[n - 1]),
        ).after(WipeEvent::Deleted(outcomes[n - 1]))
    }
}

/// The positions of the files, among the first `n`, whose deletion is tried.
pub open spec fn deletions(
    mount: Seq<Seq<u8>>,
    files: Seq<PathBuf>,
    places: Seq<Option<PathBuf>>,
    outcomes: Seq<bool>,
    n: int,
) -> Seq<int>
    decreases n,
{
    if n <= 0 {
        Seq::<int>::empty()
    } else {
        let front = deletions(mount, files, places, outcomes, n - 1);
        let s = wiped(mount, files, places, outcomes, n - 1).after(
            WipeEvent::Resolved(places[n - 1]),
        );
        match s.step() {
            WipeStep::Delete(i) => front.push(i as int),
            _ => front,
        }
    }
}

proof fn lemma_wiped_up_to(
    mount: Seq<Seq<u8>>,
    files: Seq<PathBuf>,
    places: Seq<Option<PathBuf>>,
    n: int,
)
    requires
        0 <= n,
    ensures
        0 <= wiped_up_to(mount, files, places, n) <= n,
        forall|i: int|
            0 <= i < wiped_up_to(mount, files, places, n) ==> on_device(
                mount,
                #[trigger] files[i],
                places[i],
            ),
        ({
            let k = wiped_up_to(mount, files, places, n);
            k < n ==> !on_device(mount, files[k], places[k])
        }),
    decreases n,
{
    if n > 0 {
        lemma_wiped_up_to(mount, files, places, n - 1);
    }
}

proof fn lemma_wiped(
    mount: Seq<Seq<u8>>,
    files: Seq<PathBuf>,
    places: Seq<Option<PathBuf>>,
    outcomes: Seq<bool>,
    n: int,
)
    requires
        0 <= n <= files.len() <= usize::MAX,
    ensures
        ({
            let k = wiped_up_to(mount, files, places, n);
            &&& wiped(mount, files, places, outcomes, n) == (WipeState {
                mount,
                files,
                at: k,
                removed: successes(outcomes, k),
                phase: if k == n {
                    WipePhase::Unresolved
                } else {
                    WipePhase::Elsewhere
                },
            })
            &&& deletions(mount, files, places, outcomes, n) == Seq::new(k as nat, |i: int| i)
            &&& 0 <= successes(outcomes, k) <= k
        }),
    decreases n,
{
    lemma_wiped_up_to(mount, files, places, n);
    if n > 0 {
        lemma_wiped(mount, files, places, outcomes, n - 1);
        lemma_wiped_up_to(mount, files, places, n - 1);
    }
    assert(deletions(mount, files, places, outcomes, n) =~= Seq::new(
        wiped_up_to(mount, files, places, n) as nat,
        |i: int| i,
    ));
}

/// The files whose deletion is tried are exactly those ahead of the first that is not on the
/// device, in order and each once: neither that one nor any behind it. Where all are on the
/// device, it is told at the end how many deletions were a success; otherwise which file was
/// refused.
pub proof fn law_deleting_stops_at_the_first_file_elsewhere(
    mount: Seq<Seq<u8>>,
    files: Seq<PathBuf>,
    places: Seq<Option<PathBuf>>,
    outcomes: Seq<bool>,
)
    requires
        files.len() <= usize::MAX,
        places.len() == files.len(),
        outcomes.len() == files.len(),
    ensures
        ({
            let n = files.len() as int;
            let k = wiped_up_to(mount, files, places, n);
            let tried = deletions(mount, files, places, outcomes, n);
            let end = wiped(mount, files, places, outcomes, n).step();
            &&& 0 <= k <= n
            &&& tried == Seq::new(k as nat, |i: int| i)
            &&& forall|i: int| 0 <= i < k ==> on_device(mount, #[trigger] files[i], places[i])
            &&& k < n ==> !on_device(mount, files[k], places[k]) && end == WipeStep::Refuse(
                k as usize,
            )
            &&& k == n ==> end == WipeStep::Done(successes(outcomes, n) as usize)
            &&& 0 <= successes(outcomes, k) <= k
        }),
{
    lemma_wiped_up_to(mount, files, places, files.len() as int);
    lemma_wiped(mount, files, places, outcomes, files.len() as int);
}

/// The name of a copy ends with the whole name of the file, and begins as all copies do.
pub proof fn law_a_copy_keeps_the_name_of_its_file(recording_id: i64, filename: Seq<char>)
    ensures
        filename.is_suffix_of(copy_name(recording_id, filename)),
        "import_"@.is_prefix_of(copy_name(recording_id, filename)),
        copy_name(recording_id, filename).len() == "import_"@.len() + signed_decimal(
            recording_id as int,
        ).len() + 1 + filename.len(),
{
    reveal_strlit("_");
    assert("_"@.len() == 1);
    let n = copy_name(recording_id, filename);
    assert(filename =~= n.skip(n.len() - filename.len()));
    assert("import_"@ =~= n.take("import_"@.len() as int));
}

/// A file has the name under which it is imported, and one without a name gets one that tells
/// when it was imported.
pub proof fn law_a_file_keeps_its_name(name: Option<Seq<char>>, timestamp: i64)
    ensures
        name is Some ==> name_or(name, timestamp) == name.unwrap(),
        name is None ==> "import_"@.is_prefix_of(name_or(name, timestamp)) && ".wav"@.is_suffix_of(
            name_or(name, timestamp),
        ),
{
    if name is None {
        let n = name_or(name, timestamp);
        assert(".wav"@ =~= n.skip(n.len() - ".wav"@.len()));
        assert("import_"@ =~= n.take("import_"@.len() as int));
    }
}

/// A file whose real path is `place` is on the device if and only if all components of the path
/// that the device is mounted at stand at the front of it. Where the real path is not known, the
/// file's own counts.
pub proof fn law_a_file_on_the_device_is_below_its_mount(
    mount: Seq<Seq<u8>>,
    file: PathBuf,
    place: PathBuf,
)
    ensures
        on_device(mount, file, Some(place)) <==> mount.len() <= buf_parts(place).len() && forall|i: int|
            0 <= i < mount.len() ==> #[trigger] buf_parts(place)[i] == mount[i],
        on_device(mount, file, None) <==> mount.len() <= buf_parts(file).len() && forall|i: int|
            0 <= i < mount.len() ==> #[trigger] buf_parts(file)[i] == mount[i],
{
    lemma_front(mount, buf_parts(place));
    lemma_front(mount, buf_parts(file));
}

proof fn lemma_front<T>(a: Seq<T>, b: Seq<T>)
    ensures
        a.is_prefix_of(b) <==> a.len() <= b.len() && forall|i: int|
            0 <= i < a.len() ==> #[trigger] b[i] == a[i],
{
    if a.is_prefix_of(b) {
        assert forall|i: int| 0 <= i < a.len() implies #[trigger] b[i] == a[i] by {
            assert(b.subrange(0, a.len() as int)[i] == b[i]);
        }
    } else if a.len() <= b.len() && forall|i: int| 0 <= i < a.len() ==> #[trigger] b[i] == a[i] {
        assert(a =~= b.subrange(0, a.len() as int));
    }
}

/// The format is told by the whole extension in small letters; a file without an extension has
/// none.
pub proof fn law_the_format_is_told_by_the_extension(extension: Seq<char>)
    ensures
        format_of(Some(extension)) == lowercase(extension),
        format_of(None).len() == 0,
{
}

/// A message tells all that there is to tell: the whole extension, and what it is to be called
/// with; both sizes; and both checksums and both sizes.
pub proof fn law_a_message_tells_what_is_wrong(e: ImportError) -> (at: (int, int))
    ensures
        e matches ImportError::UnsupportedFormat { extension } ==> 0 <= at.0 && at.0
            + extension@.len() <= at.1 && at.1 + extension@.len() <= e.text().len()
            && e.text().subrange(at.0, at.0 + extension@.len()) == extension@ && e.text().subrange(
            at.1,
            at.1 + extension@.len(),
        ) == extension@,
        e matches ImportError::SizeMismatch { expected, copied } ==> 0 <= at.0 && at.0 + decimal(
            expected as nat,
        ).len() <= at.1 && at.1 + decimal(copied as nat).len() == e.text().len()
            && e.text().subrange(at.0, at.0 + decimal(expected as nat).len()) == decimal(
            expected as nat,
        ) && e.text().subrange(at.1, e.text().len() as int) == decimal(copied as nat),
        e matches ImportError::VerificationFailed {
            source_sha256,
            dest_sha256,
            dest_size,
            expected_size,
        } ==> 0 <= at.0 && at.0 + source_sha256@.len() <= at.1 && at.1 + dest_sha256@.len()
            <= e.text().len() && e.text().subrange(at.0, at.0 + source_sha256@.len())
            == source_sha256@ && e.text().subrange(at.1, at.1 + dest_sha256@.len()) == dest_sha256@
            && decimal(expected_size as nat).is_suffix_of(e.text()),
{
    let t = e.text();
    match e {
        ImportError::UnsupportedFormat { extension } => {
            let x = extension@;
            let a = "unsupported format '."@.len() as int;
            let b = a + x.len()
                + "' — v1 only handles .wav from the device. Convert with `ffmpeg -i in."@.len();
            assert(t.subrange(a, a + x.len()) =~= x);
            assert(t.subrange(b, b + x.len()) =~= x);
            (a, b)
        },
        ImportError::SizeMismatch { expected, copied } => {
            let x = decimal(expected as nat);
            let y = decimal(copied as nat);
            let a = "size mismatch: expected "@.len() as int;
            let b = a + x.len() + " bytes, copied "@.len();
            assert(t.subrange(a, a + x.len()) =~= x);
            assert(t.subrange(b, t.len() as int) =~= y);
            (a, b)
        },
        ImportError::VerificationFailed { source_sha256, dest_sha256, dest_size, expected_size } => {
            let x = source_sha256@;
            let y = dest_sha256@;
            let z = decimal(expected_size as nat);
            let a = "verification failed: source sha256 "@.len() as int;
            let b = a + x.len() + " vs dest sha256 "@.len();
            assert(t.subrange(a, a + x.len()) =~= x);
            assert(t.subrange(b, b + y.len()) =~= y);
            assert(t.subrange(t.len() - z.len(), t.len() as int) =~= z);
            (a, b)
        },
    }
}

} // verus!
