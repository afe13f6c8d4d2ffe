//! The models: which there are, where they are kept, and how they are fetched.

use std::path::{Path, PathBuf};

use vstd::prelude::*;
use vstd::string::*;
use vstd::utf8::encode_utf8;

use crate::digits::hex;
use crate::hash::{sha256, sha256_hex};
use crate::paths::{
    as_path, buf_parts, in_one_part, is_ordinary, is_plain_name, join, joined_path, path_parts,
    separates, within,
};
use crate::text::{concat2, concat3, eq_ignore_ascii_case, same, same_ignoring_ascii_case};

verus! {

/// A speech model.
#[derive(Debug, Clone, Copy)]
pub struct WhisperModel {
    pub name: &'static str,
    pub size_mb: u32,
    pub sha256: Option<&'static str>,
}

/// The names and the sizes, in megabytes, of the speech models.
pub open spec fn whisper_table() -> Seq<(Seq<char>, u32)> {
    seq![
        ("tiny.en"@, 75u32),
        ("tiny"@, 75u32),
        ("base.en"@, 142u32),
        ("base"@, 142u32),
        ("small.en"@, 466u32),
        ("small"@, 466u32),
        ("medium.en"@, 1500u32),
        ("medium"@, 1500u32),
        ("large-v3"@, 3100u32),
        ("large-v3-turbo"@, 1600u32),
    ]
}

/// Whether there is a speech model of this name.
pub open spec fn is_whisper_model(name: Seq<char>) -> bool {
    exists|i: int| 0 <= i < whisper_table().len() && (#[trigger] whisper_table()[i]).0 == name
}

fn model(name: &'static str, size_mb: u32) -> (r: WhisperModel)
    ensures
        r.name@ == name@,
        r.size_mb == size_mb,
        r.sha256 is None,
{
    WhisperModel { name, size_mb, sha256: None }
}

/// The speech models.
pub fn whisper_models() -> (r: Vec<WhisperModel>)
    ensures
        r@.len() == whisper_table().len(),
        forall|i: int|
            0 <= i < r@.len() ==> {
                let m = #[trigger] r@[i];
                &&& m.name@ == whisper_table()[i].0
                &&& m.size_mb == whisper_table()[i].1
                &&& m.sha256 is None
            },
{
    vec![
        model("tiny.en", 75),
        model("tiny", 75),
        model("base.en", 142),
        model("base", 142),
        model("small.en", 466),
        model("small", 466),
        model("medium.en", 1500),
        model("medium", 1500),
        model("large-v3", 3100),
        model("large-v3-turbo", 1600),
    ]
}

/// The name of the file of a speech model.
pub open spec fn model_file(name: Seq<char>) -> Seq<char> {
    "ggml-"@ + name + ".bin"@
}

/// The address of a speech model.
pub fn whisper_url(name: &str) -> (r: String)
    ensures
        r@ == "https://huggingface.co/ggerganov/whisper.cpp/resolve/main/ggml-"@ + name@ + ".bin"@,
{
    concat3(
        "https://huggingface.co/ggerganov/whisper.cpp/resolve/main/ggml-",
        name,
        ".bin",
    )
}

/// The components of a path below a directory.
pub open spec fn below(dir: Seq<Seq<u8>>, names: Seq<Seq<char>>) -> Seq<Seq<u8>> {
    dir + Seq::new(names.len(), |i: int| encode_utf8(names[i]))
}

proof fn lemma_model_file_is_plain(name: Seq<char>)
    requires
        in_one_part(name),
    ensures
        is_plain_name(model_file(name)),
        is_plain_name("whisper"@),
{
    reveal_strlit("ggml-");
    reveal_strlit(".bin");
    reveal_strlit("whisper");
    let f = model_file(name);
    assert(f.len() >= 9 && f[1] == 'g');
    assert forall|i: int| 0 <= i < f.len() implies !separates(#[trigger] f[i]) by {
        if 5 <= i < 5 + name.len() {
            assert(f[i] == name[i - 5]);
        }
    }
}

/// Where a speech model is kept.
pub fn whisper_path(models_dir: &Path, name: &str) -> (r: PathBuf)
    ensures
        r == joined_path(within(models_dir, "whisper"@), model_file(name@)),
        is_ordinary(models_dir) && in_one_part(name@) ==> buf_parts(r) == below(
            path_parts(models_dir),
            seq!["whisper"@, model_file(name@)],
        ),
{
    let dir = join(models_dir, "whisper");
    let file = concat3("ggml-", name, ".bin");
    proof {
        assert(file@ == model_file(name@));
        if is_ordinary(models_dir) && in_one_part(name@) {
            lemma_model_file_is_plain(name@);
        }
    }
    let r = join(as_path(&dir), file.as_str());
    assert(is_ordinary(models_dir) && in_one_part(name@) ==> buf_parts(r) =~= below(
        path_parts(models_dir),
        seq!["whisper"@, model_file(name@)],
    ));
    r
}

proof fn lemma_sherpa_is_plain()
    ensures
        is_plain_name("sherpa"@),
{
    reveal_strlit("sherpa");
    let s = "sherpa"@;
    assert(s.len() == 6);
    assert(forall|i: int| 0 <= i < 6 ==> !separates(#[trigger] s[i]));
}

proof fn lemma_segmentation_is_plain()
    ensures
        is_plain_name("sherpa-onnx-pyannote-segmentation-3-0"@),
{
    reveal_strlit("sherpa-onnx-pyannote-segmentation-3-0");
    let s = "sherpa-onnx-pyannote-segmentation-3-0"@;
    assert(s.len() == 37);
    assert(forall|i: int| 0 <= i < 12 ==> !separates(#[trigger] s[i]));
    assert(forall|i: int| 12 <= i < 24 ==> !separates(#[trigger] s[i]));
    assert(forall|i: int| 24 <= i < 36 ==> !separates(#[trigger] s[i]));
    assert(forall|i: int| 36 <= i < 37 ==> !separates(#[trigger] s[i]));
}

proof fn lemma_model_onnx_is_plain()
    ensures
        is_plain_name("model.onnx"@),
{
    reveal_strlit("model.onnx");
    let s = "model.onnx"@;
    assert(s.len() == 10);
    assert(forall|i: int| 0 <= i < 10 ==> !separates(#[trigger] s[i]));
}

proof fn lemma_embedding_is_plain()
    ensures
        is_plain_name("3dspeaker_speech_eres2net_base_sv_zh-cn_3dspeaker_16k.onnx"@),
{
    reveal_strlit("3dspeaker_speech_eres2net_base_sv_zh-cn_3dspeaker_16k.onnx");
    let s = "3dspeaker_speech_eres2net_base_sv_zh-cn_3dspeaker_16k.onnx"@;
    assert(s.len() == 58);
    assert(forall|i: int| 0 <= i < 12 ==> !separates(#[trigger] s[i]));
    assert(forall|i: int| 12 <= i < 24 ==> !separates(#[trigger] s[i]));
    assert(forall|i: int| 24 <= i < 36 ==> !separates(#[trigger] s[i]));
    assert(forall|i: int| 36 <= i < 48 ==> !separates(#[trigger] s[i]));
    assert(forall|i: int| 48 <= i < 58 ==> !separates(#[trigger] s[i]));
}

proof fn lemma_tarball_is_plain()
    ensures
        is_plain_name("sherpa-onnx-pyannote-segmentation-3-0.tar.bz2"@),
{
    reveal_strlit("sherpa-onnx-pyannote-segmentation-3-0.tar.bz2");
    let s = "sherpa-onnx-pyannote-segmentation-3-0.tar.bz2"@;
    assert(s.len() == 45);
    assert(forall|i: int| 0 <= i < 12 ==> !separates(#[trigger] s[i]));
    assert(forall|i: int| 12 <= i < 24 ==> !separates(#[trigger] s[i]));
    assert(forall|i: int| 24 <= i < 36 ==> !separates(#[trigger] s[i]));
    assert(forall|i: int| 36 <= i < 45 ==> !separates(#[trigger] s[i]));
}

/// Where the models for diarization are kept: the one that finds the segments, and the one that
/// takes embeddings.
pub fn sherpa_paths(models_dir: &Path) -> (r: (PathBuf, PathBuf))
    ensures
        r.0 == joined_path(
            within(within(models_dir, "sherpa"@), "sherpa-onnx-pyannote-segmentation-3-0"@),
            "model.onnx"@,
        ),
        r.1 == joined_path(
            within(models_dir, "sherpa"@),
            "3dspeaker_speech_eres2net_base_sv_zh-cn_3dspeaker_16k.onnx"@,
        ),
        is_ordinary(models_dir) ==> buf_parts(r.0) == below(
            path_parts(models_dir),
            seq!["sherpa"@, "sherpa-onnx-pyannote-segmentation-3-0"@, "model.onnx"@],
        ),
        is_ordinary(models_dir) ==> buf_parts(r.1) == below(
            path_parts(models_dir),
            seq!["sherpa"@, "3dspeaker_speech_eres2net_base_sv_zh-cn_3dspeaker_16k.onnx"@],
        ),
{
    proof {
        lemma_sherpa_is_plain();
        lemma_segmentation_is_plain();
        lemma_model_onnx_is_plain();
        lemma_embedding_is_plain();
    }
    let dir = join(models_dir, "sherpa");
    let inner = join(as_path(&dir), "sherpa-onnx-pyannote-segmentation-3-0");
    let seg = join(as_path(&inner), "model.onnx");
    let emb = join(
        as_path(&dir),
        "3dspeaker_speech_eres2net_base_sv_zh-cn_3dspeaker_16k.onnx",
    );
    assert(is_ordinary(models_dir) ==> buf_parts(seg) =~= below(
        path_parts(models_dir),
        seq!["sherpa"@, "sherpa-onnx-pyannote-segmentation-3-0"@, "model.onnx"@],
    ));
    assert(is_ordinary(models_dir) ==> buf_parts(emb) =~= below(
        path_parts(models_dir),
        seq!["sherpa"@, "3dspeaker_speech_eres2net_base_sv_zh-cn_3dspeaker_16k.onnx"@],
    ));
    (seg, emb)
}

/// Where the archive with the segmentation model is put until it is unpacked, and the directory
/// that it is unpacked into.
pub fn tarball_paths(models_dir: &Path) -> (r: (PathBuf, PathBuf))
    ensures
        r.0 == joined_path(
            within(models_dir, "sherpa"@),
            "sherpa-onnx-pyannote-segmentation-3-0.tar.bz2"@,
        ),
        r.1 == joined_path(models_dir, "sherpa"@),
        is_ordinary(models_dir) ==> buf_parts(r.0) == below(
            path_parts(models_dir),
            seq!["sherpa"@, "sherpa-onnx-pyannote-segmentation-3-0.tar.bz2"@],
        ),
        is_ordinary(models_dir) ==> buf_parts(r.1) == below(
            path_parts(models_dir),
            seq!["sherpa"@],
        ),
{
    proof {
        lemma_sherpa_is_plain();
        lemma_tarball_is_plain();
    }
    let dir = join(models_dir, "sherpa");
    let tarball = join(as_path(&dir), "sherpa-onnx-pyannote-segmentation-3-0.tar.bz2");
    assert(is_ordinary(models_dir) ==> buf_parts(tarball) =~= below(
        path_parts(models_dir),
        seq!["sherpa"@, "sherpa-onnx-pyannote-segmentation-3-0.tar.bz2"@],
    ));
    assert(is_ordinary(models_dir) ==> buf_parts(dir) =~= below(
        path_parts(models_dir),
        seq!["sherpa"@],
    ));
    (tarball, dir)
}

/// The address of the archive with the segmentation model.
pub const SEGMENTATION_TARBALL_URL: &'static str = "https://github.com/k2-fsa/sherpa-onnx/releases/download/speaker-segmentation-models/sherpa-onnx-pyannote-segmentation-3-0.tar.bz2";

/// The address of the embedding model.
pub const EMBEDDING_URL: &'static str = "https://github.com/k2-fsa/sherpa-onnx/releases/download/speaker-recongition-models/3dspeaker_speech_eres2net_base_sv_zh-cn_3dspeaker_16k.onnx";

/// A step towards having the models for diarization.
#[derive(Debug, Clone, Copy, PartialEq, Eq, Structural)]
pub enum SherpaStep {
    FetchEmbedding,
    FetchTarball,
    UnpackTarball,
    RemoveTarball,
}

/// The steps that are left, where some of the models are there.
pub open spec fn sherpa_plan(embedding_there: bool, segmentation_there: bool) -> Seq<SherpaStep> {
    let fetch = if embedding_there {
        Seq::<SherpaStep>::empty()
    } else {
        seq![SherpaStep::FetchEmbedding]
    };
    let unpack = if segmentation_there {
        Seq::<SherpaStep>::empty()
    } else {
        seq![SherpaStep::FetchTarball, SherpaStep::UnpackTarball, SherpaStep::RemoveTarball]
    };
    fetch + unpack
}

/// The steps that are left towards having the models for diarization.
pub fn sherpa_steps(embedding_there: bool, segmentation_there: bool) -> (r: Vec<SherpaStep>)
    ensures
        r@ == sherpa_plan(embedding_there, segmentation_there),
{
    let mut r: Vec<SherpaStep> = Vec::new();
    if !embedding_there {
        r.push(SherpaStep::FetchEmbedding);
    }
    if !segmentation_there {
        r.push(SherpaStep::FetchTarball);
        r.push(SherpaStep::UnpackTarball);
        r.push(SherpaStep::RemoveTarball);
    }
    assert(r@ =~= sherpa_plan(embedding_there, segmentation_there));
    r
}

/// A speech model to fetch, and the label under which its progress is shown.
#[derive(Debug)]
pub struct ModelDownload {
    pub name: String,
    pub label: String,
}

/// The speech models to fetch: the one for live text, and the one for the transcript that is
/// kept unless it is the same.
pub fn whisper_downloads(live: &str, finalize: &str) -> (r: Vec<ModelDownload>)
    ensures
        r@.len() == (if live@ == finalize@ {
            1int
        } else {
            2int
        }),
        r@[0].name@ == live@,
        r@[0].label@ == "whisper-live:"@ + live@,
        live@ != finalize@ ==> r@[1].name@ == finalize@ && r@[1].label@ == "whisper-finalize:"@
            + finalize@,
{
    let mut r: Vec<ModelDownload> = Vec::new();
    r.push(ModelDownload { name: live.to_owned(), label: concat2("whisper-live:", live) });
    if !same(live, finalize) {
        r.push(
            ModelDownload {
                name: finalize.to_owned(),
                label: concat2("whisper-finalize:", finalize),
            },
        );
    }
    r
}

/// How far a download has come.
#[derive(Debug)]
pub struct DownloadProgress {
    pub label: String,
    pub bytes: u64,
    pub total: Option<u64>,
    pub done: bool,
}

/// A download under way.
#[derive(Debug)]
pub struct Download {
    label: String,
    bytes: u64,
    total: Option<u64>,
}

impl Download {
    /// The label under which the progress is shown.
    pub closed spec fn label(&self) -> Seq<char> {
        self.label@
    }

    /// How many bytes have come.
    pub closed spec fn bytes(&self) -> u64 {
        self.bytes
    }

    /// How many bytes there are in all, where that is known.
    pub closed spec fn total(&self) -> Option<u64> {
        self.total
    }

    /// What is shown of a download that is not needed, as the file is there.
    pub fn not_needed(label: &str) -> (r: DownloadProgress)
        ensures
            r.label@ == label@,
            r.bytes == 0,
            r.total is None,
            r.done,
    {
        DownloadProgress { label: label.to_owned(), bytes: 0, total: None, done: true }
    }

    /// A download of which nothing has come yet.
    pub fn new(label: &str, total: Option<u64>) -> (r: Self)
        ensures
            r.label() == label@,
            r.bytes() == 0,
            r.total() == total,
    {
        Download { label: label.to_owned(), bytes: 0, total }
    }

    /// Takes note of a piece that has come, and returns what is shown then.
    pub fn piece(&mut self, len: usize) -> (r: DownloadProgress)
        requires
            old(self).bytes() + len <= u64::MAX,
        ensures
            final(self).bytes() == old(self).bytes() + len,
            final(self).label() == old(self).label(),
            final(self).total() == old(self).total(),
            r.label@ == old(self).label(),
            r.bytes == final(self).bytes(),
            r.total == old(self).total(),
            !r.done,
    {
        self.bytes = self.bytes + len as u64;
        DownloadProgress {
            label: self.label.clone(),
            bytes: self.bytes,
            total: self.total,
            done: false,
        }
    }

    /// What is shown when all has come.
    pub fn finish(self) -> (r: DownloadProgress)
        ensures
            r.label@ == self.label(),
            r.bytes == self.bytes(),
            r.total == self.total(),
            r.done,
    {
        DownloadProgress { label: self.label, bytes: self.bytes, total: self.total, done: true }
    }
}

/// A checksum that is not the expected one.
#[derive(Debug)]
pub struct ChecksumMismatch {
    pub got: String,
    pub expected: String,
}

impl ChecksumMismatch {
    /// What is wrong with the file shown as `path`.
    pub fn message(&self, path: &str) -> (r: String)
        ensures
            r@ == "checksum mismatch for "@ + path@ + ": got "@ + self.got@ + ", expected "@
                + self.expected@,
    {
        let mut r = concat3("checksum mismatch for ", path, ": got ");
        r.append(self.got.as_str());
        r.append(", expected ");
        r.append(self.expected.as_str());
        r
    }
}

/// Checks a checksum, which is in hexadecimal, against the expected one; whether that has
/// capital letters does not matter.
pub fn check_checksum(got: String, expected: &str) -> (r: Result<(), ChecksumMismatch>)
    ensures
        match r {
            Ok(_) => same_ignoring_ascii_case(got@, expected@),
            Err(e) => !same_ignoring_ascii_case(got@, expected@) && e.got@ == got@ && e.expected@
                == expected@,
        },
{
    if eq_ignore_ascii_case(got.as_str(), expected) {
        Ok(())
    } else {
        Err(ChecksumMismatch { got, expected: expected.to_owned() })
    }
}

/// Checks the SHA-256 digest of the contents of a file against the expected one.
pub fn verify_sha256(data: &[u8], expected: &str) -> (r: Result<(), ChecksumMismatch>)
    ensures
        match r {
            Ok(_) => same_ignoring_ascii_case(hex(sha256(data@)), expected@),
            Err(e) => !same_ignoring_ascii_case(hex(sha256(data@)), expected@) && e.got@ == hex(
                sha256(data@),
            ) && e.expected@ == expected@,
        },
{
    check_checksum(sha256_hex(data), expected)
}

/// Each model that is missing is fetched and no other, and the archive is fetched ahead of being
/// unpacked and removed after that.
pub proof fn law_only_what_is_missing_is_fetched(embedding_there: bool, segmentation_there: bool)
    ensures
        ({
            let steps = sherpa_plan(embedding_there, segmentation_there);
            &&& steps.no_duplicates()
            &&& steps.contains(SherpaStep::FetchEmbedding) <==> !embedding_there
            &&& steps.contains(SherpaStep::FetchTarball) <==> !segmentation_there
            &&& steps.contains(SherpaStep::UnpackTarball) <==> !segmentation_there
            &&& steps.contains(SherpaStep::RemoveTarball) <==> !segmentation_there
            &&& forall|i: int, j: int|
                0 <= i < steps.len() && 0 <= j < steps.len() && (#[trigger] steps[i]
                    == SherpaStep::FetchTarball && #[trigger] steps[j] == SherpaStep::UnpackTarball
                    || steps[i] == SherpaStep::UnpackTarball && steps[j]
                    == SherpaStep::RemoveTarball) ==> i < j
        }),
{
    let steps = sherpa_plan(embedding_there, segmentation_there);
    let n = if embedding_there {
        0int
    } else {
        1int
    };
    if !embedding_there {
        assert(steps[0] == SherpaStep::FetchEmbedding);
    }
    if !segmentation_there {
        assert(steps[n] == SherpaStep::FetchTarball);
        assert(steps[n + 1] == SherpaStep::UnpackTarball);
        assert(steps[n + 2] == SherpaStep::RemoveTarball);
    }
}

/// A model for English alone is as large as the one of its name for all languages, and of the
/// models for all languages the next is larger, but for the fast one, which is not as large as the
/// one that it is made from.
pub proof fn law_models_are_ordered_by_size()
    ensures
        forall|k: int|
            0 <= k < 4 ==> #[trigger] whisper_table()[2 * k].1 == whisper_table()[2 * k + 1].1
                && whisper_table()[2 * k].0 == whisper_table()[2 * k + 1].0 + ".en"@,
        whisper_table().len() == 10,
        whisper_table()[1].1 < whisper_table()[3].1 < whisper_table()[5].1 < whisper_table()[7].1
            < whisper_table()[9].1 < whisper_table()[8].1,
        whisper_table()[9].0 == whisper_table()[8].0 + "-turbo"@,
{
    reveal_strlit(".en");
    reveal_strlit("-turbo");
    reveal_strlit("tiny.en");
    reveal_strlit("tiny");
    reveal_strlit("base.en");
    reveal_strlit("base");
    reveal_strlit("small.en");
    reveal_strlit("small");
    reveal_strlit("medium.en");
    reveal_strlit("medium");
    reveal_strlit("large-v3");
    reveal_strlit("large-v3-turbo");
    assert("tiny.en"@ =~= "tiny"@ + ".en"@);
    assert("base.en"@ =~= "base"@ + ".en"@);
    assert("small.en"@ =~= "small"@ + ".en"@);
    assert("medium.en"@ =~= "medium"@ + ".en"@);
    assert("large-v3-turbo"@ =~= "large-v3"@ + "-turbo"@);
    let t = whisper_table();
    assert forall|k: int| 0 <= k < 4 implies #[trigger] t[2 * k].1 == t[2 * k + 1].1 && t[2 * k].0
        == t[2 * k + 1].0 + ".en"@ by {
        assert(k == 0 || k == 1 || k == 2 || k == 3);
    }
}

/// The file of a speech model holds the whole name of the model, between a fixed beginning and a
/// fixed ending; so different models have different files.
pub proof fn law_a_model_file_holds_the_name(name: Seq<char>, other: Seq<char>)
    ensures
        "ggml-"@.is_prefix_of(model_file(name)),
        ".bin"@.is_suffix_of(model_file(name)),
        model_file(name).subrange(
            "ggml-"@.len() as int,
            model_file(name).len() - ".bin"@.len(),
        ) == name,
        model_file(name) == model_file(other) ==> name == other,
{
    let f = model_file(name);
    let g = model_file(other);
    let k = "ggml-"@.len() as int;
    let e = ".bin"@.len() as int;
    assert("ggml-"@ =~= f.subrange(0, k));
    assert(".bin"@ =~= f.subrange(f.len() - e, f.len() as int));
    assert(f.subrange(k, f.len() - e) =~= name);
    assert(g.subrange(k, g.len() - e) =~= other);
}

} // verus!
