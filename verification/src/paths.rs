//! Paths in the file system.
//!
//! A path is reasoned about as the sequence of its components, each as bytes: a name as its own,
//! and what may stand ahead of names, such as a drive or the root, as bytes that are no name and
//! the same for the same thing. How paths are written as text differs from system to system, and
//! little is said of it: what a name makes of a path is a value of its own, and what its
//! components are is said where that is the same on every system.

use std::path::{Path, PathBuf};

use vstd::prelude::*;
use vstd::utf8::{
    char_is_scalar, decode_utf8, encode_scalar, encode_utf8, encode_utf8_decode_utf8, valid_utf8,
};

use crate::digits::{decimal, signed_decimal};
use crate::text::opt_text;

verus! {

/// A path.
#[verifier::external_type_specification]
#[verifier::external_body]
pub struct ExPath(Path);

/// A path that owns its text.
#[verifier::external_type_specification]
#[verifier::external_body]
pub struct ExPathBuf(PathBuf);

/// The components of a path.
pub uninterp spec fn path_parts(p: &Path) -> Seq<Seq<u8>>;

/// The components of a path that owns its text.
pub uninterp spec fn buf_parts(p: PathBuf) -> Seq<Seq<u8>>;

/// Whether `c` may stand between components.
pub open spec fn separates(c: char) -> bool {
    c == '/' || c == '\\'
}

/// Whether nothing in `s` separates components.
pub open spec fn in_one_part(s: Seq<char>) -> bool {
    forall|i: int| 0 <= i < s.len() ==> !separates(#[trigger] s[i])
}

/// Whether `s` is the name of one file or directory on every system: it separates nothing, does
/// not begin with a drive, and is neither empty nor a name for a directory itself or for its
/// parent.
pub open spec fn is_plain_name(s: Seq<char>) -> bool {
    &&& s.len() > 0
    &&& in_one_part(s)
    &&& s.len() > 1 ==> s[1] != ':'
    &&& s != seq!['.']
    &&& s != seq!['.', '.']
}

/// Whether a component, as bytes, is the name of a file or directory on every system.
pub open spec fn is_file_name(part: Seq<u8>) -> bool {
    &&& part.len() > 0
    &&& forall|i: int| 0 <= i < part.len() ==> #[trigger] part[i] != 0x2f && part[i] != 0x5c
    &&& part.len() > 1 ==> part[1] != 0x3a
    &&& part != seq![0x2eu8]
    &&& part != seq![0x2eu8, 0x2eu8]
}

/// Whether the last component of a path is the name of a file or directory on every system.
pub open spec fn ends_in_a_name(parts: Seq<Seq<u8>>) -> bool {
    parts.len() > 0 && is_file_name(parts.last())
}

/// The position of the last full stop in a name, or -1.
pub open spec fn last_dot(name: Seq<u8>) -> int
    decreases name.len(),
{
    if name.len() == 0 {
        -1
    } else if name.last() == 0x2e {
        name.len() - 1
    } else {
        last_dot(name.drop_last())
    }
}

/// What stands behind the last full stop of a name, unless that is its first character.
pub open spec fn name_extension(name: Seq<u8>) -> Option<Seq<u8>> {
    if last_dot(name) > 0 {
        Some(name.skip(last_dot(name) + 1))
    } else {
        None
    }
}

/// A name without its extension and the full stop ahead of it.
pub open spec fn name_stem(name: Seq<u8>) -> Seq<u8> {
    if last_dot(name) > 0 {
        name.take(last_dot(name))
    } else {
        name
    }
}

/// The text that bytes are in UTF-8, if they are one.
pub open spec fn utf8_text(bytes: Option<Seq<u8>>) -> Option<Seq<char>> {
    match bytes {
        Some(b) => if valid_utf8(b) {
            Some(decode_utf8(b))
        } else {
            None
        },
        None => None,
    }
}

/// The extension of a path.
pub uninterp spec fn extension_of(p: &Path) -> Option<Seq<char>>;

/// The file name of a path, where what is not Unicode is replaced.
pub uninterp spec fn file_name_of(p: &Path) -> Option<Seq<char>>;

/// A path as text, where what is not Unicode is replaced.
pub uninterp spec fn path_text(p: &Path) -> Seq<char>;

/// `Path::extension`, as `OsStr::to_str` reads it: that of the last component, where it is a
/// name; nothing where it has none, or one that is not Unicode. What counts as a name otherwise
/// differs from system to system.
#[verifier::external_body]
pub(crate) fn extension(p: &Path) -> (r: Option<String>)
    ensures
        opt_text(r) == extension_of(p),
        path_parts(p).len() == 0 ==> r is None,
        ends_in_a_name(path_parts(p)) ==> opt_text(r) == utf8_text(
            name_extension(path_parts(p).last()),
        ),
{
    p.extension().and_then(|s| s.to_str()).map(|s| s.to_string())
}

/// `Path::file_name`, as `OsStr::to_string_lossy` shows it: the last component, where it is a
/// name. What counts as a name otherwise, and what is put for what is not Unicode, is not said.
#[verifier::external_body]
pub(crate) fn file_name(p: &Path) -> (r: Option<String>)
    ensures
        opt_text(r) == file_name_of(p),
        path_parts(p).len() == 0 ==> r is None,
        ends_in_a_name(path_parts(p)) ==> r is Some,
        ends_in_a_name(path_parts(p)) && valid_utf8(path_parts(p).last()) ==> r.unwrap()@
            == decode_utf8(path_parts(p).last()),
{
    p.file_name().map(|s| s.to_string_lossy().into_owned())
}

/// `Path::to_string_lossy`: the result depends on the path alone.
#[verifier::external_body]
pub(crate) fn to_text(p: &Path) -> (r: String)
    ensures
        r@ == path_text(p),
{
    p.to_string_lossy().into_owned()
}

/// Whether a path of this text is not taken on any system for one that begins with the name of
/// a server or of a device, and does not become such a path when a name is added: it does not
/// begin with two separators, and is no separator that could be followed by another one.
pub open spec fn opens_plainly(text: Seq<char>) -> bool {
    ||| text.len() == 0
    ||| !separates(text[0])
    ||| text == seq!['/']
    ||| text.len() > 1 && !separates(text[1])
}

/// Whether a path does not begin with two separators, as `opens_plainly` says it of its text.
pub open spec fn is_ordinary(p: &Path) -> bool {
    opens_plainly(path_text(p))
}

/// Whether a name begins with two full stops.
pub open spec fn begins_with_two_dots(name: Seq<u8>) -> bool {
    name.len() > 1 && name[0] == 0x2e && name[1] == 0x2e
}

/// A path with another extension.
pub uninterp spec fn extended_path(p: &Path, extension: Seq<char>) -> PathBuf;

/// `Path::with_extension`, which does not take an extension that separates components: the
/// result depends on the path and the extension alone. Where the last component is a name, its
/// extension is replaced, or added where it has none. Of a name that begins with two full stops
/// nothing more is said, as without its extension it may name the parent directory.
#[verifier::external_body]
pub(crate) fn with_extension(p: &Path, extension: &str) -> (r: PathBuf)
    requires
        in_one_part(extension@),
    ensures
        r == extended_path(p, extension@),
        ends_in_a_name(path_parts(p)) && !begins_with_two_dots(path_parts(p).last())
            && extension@.len() > 0 ==> buf_parts(r) == path_parts(p).drop_last().push(
            name_stem(path_parts(p).last()).push(0x2e) + encode_utf8(extension@),
        ),
{
    p.with_extension(extension)
}

proof fn lemma_partial_separates_nothing()
    ensures
        in_one_part("partial"@),
        "partial"@.len() > 0,
{
    reveal_strlit("partial");
    let p = "partial"@;
    assert(p.len() == 7);
    assert(forall|i: int| 0 <= i < 7 ==> !separates(#[trigger] p[i]));
}

/// The name of a file while it is incomplete.
pub open spec fn partial_name(name: Seq<u8>) -> Seq<u8> {
    name_stem(name).push(0x2e) + encode_utf8("partial"@)
}

/// Where a file is put while it is incomplete: beside its place, with another extension.
pub fn partial_path(p: &Path) -> (r: PathBuf)
    ensures
        r == extended_path(p, "partial"@),
        ends_in_a_name(path_parts(p)) && !begins_with_two_dots(path_parts(p).last())
            ==> buf_parts(r) == path_parts(p).drop_last().push(
            partial_name(path_parts(p).last()),
        ),
{
    proof {
        lemma_partial_separates_nothing();
    }
    with_extension(p, "partial")
}

/// What a name makes of a path that it is joined to.
pub uninterp spec fn joined_path(base: &Path, name: Seq<char>) -> PathBuf;

/// `Path::join`: the result depends on the path and the name alone. A plain name becomes the last
/// component where the path does not begin with two separators, and then the result does not
/// either. What the components are otherwise is not said, as it differs from system to system.
#[verifier::external_body]
pub(crate) fn join(base: &Path, name: &str) -> (r: PathBuf)
    ensures
        r == joined_path(base, name@),
        is_plain_name(name@) && is_ordinary(base) ==> buf_parts(r) == path_parts(base).push(
            encode_utf8(name@),
        ),
        is_plain_name(name@) && is_ordinary(base) ==> is_ordinary(as_path_of(&r)),
{
    base.join(name)
}

/// A path that owns its text, as a path.
pub uninterp spec fn as_path_of(p: &PathBuf) -> &Path;

/// The path that a name makes of another, as a path.
pub open spec fn within(base: &Path, name: Seq<char>) -> &Path {
    as_path_of(&joined_path(base, name))
}

/// `PathBuf::as_path`: the same path, with the same components.
#[verifier::external_body]
pub(crate) fn as_path(p: &PathBuf) -> (r: &Path)
    ensures
        r == as_path_of(p),
        path_parts(r) == buf_parts(*p),
{
    p.as_path()
}

/// `Path::starts_with`: whether the components of the one path begin with those of the other.
/// Only whole components count.
#[verifier::external_body]
pub(crate) fn starts_with(p: &Path, base: &Path) -> (r: bool)
    ensures
        r == path_parts(base).is_prefix_of(path_parts(p)),
{
    p.starts_with(base)
}

/// Whether a path comes before another in the order that the standard library gives them.
pub uninterp spec fn path_before(a: PathBuf, b: PathBuf) -> bool;

/// Whether no path of `s` comes before one that stands ahead of it.
pub open spec fn in_path_order(s: Seq<PathBuf>) -> bool {
    forall|i: int, j: int|
        #![trigger s[i], s[j]]
        0 <= i < j < s.len() ==> !path_before(s[j], s[i])
}

/// The paths of `s` of which neither comes before `p` nor `p` before them.
pub open spec fn level_with(s: Seq<PathBuf>, p: PathBuf) -> Seq<PathBuf> {
    s.filter(|q: PathBuf| !path_before(p, q) && !path_before(q, p))
}

/// `slice::sort` on paths: puts them in ascending order, and keeps paths in the order in which
/// they stand of which neither comes before the other. What the order of two paths is, is not
/// said.
#[verifier::external_body]
pub(crate) fn sort_paths(v: &mut Vec<PathBuf>)
    ensures
        final(v)@.to_multiset() == old(v)@.to_multiset(),
        forall|i: int, j: int|
            #![trigger final(v)@[i], final(v)@[j]]
            0 <= i < j < final(v)@.len() ==> !path_before(final(v)@[j], final(v)@[i]),
        forall|p: PathBuf| #[trigger] level_with(final(v)@, p) == level_with(old(v)@, p),
{
    v.sort()
}

/// A number in decimal is part of one component.
pub proof fn lemma_decimal_separates_nothing(n: int)
    ensures
        in_one_part(signed_decimal(n)),
    decreases
            if n < 0 {
                -n + 1
            } else {
                n
            },
{
    if n < 0 {
        lemma_decimal_separates_nothing(-n);
        let d = decimal((-n) as nat);
        let s = signed_decimal(n);
        assert forall|i: int| 0 <= i < s.len() implies !separates(#[trigger] s[i]) by {
            if i > 0 {
                assert(s[i] == d[i - 1]);
            }
        }
    } else if n >= 10 {
        lemma_decimal_separates_nothing(n / 10);
    }
}

/// An ASCII character is its byte, and no other character has that byte.
proof fn lemma_encoded_character(c: char, a: char)
    requires
        a as u32 <= 0x7f,
    ensures
        encode_scalar(a as u32) == seq![a as u8],
        c != a ==> forall|i: int|
            0 <= i < encode_scalar(c as u32).len() ==> #[trigger] encode_scalar(c as u32)[i]
                != a as u8,
        encode_scalar(c as u32).len() > 0,
{
    char_is_scalar(c);
    let v = c as u32;
    let w = a as u32;
    assert((w & 0x7f) as u8 == w as u8) by (bit_vector)
        requires
            w <= 0x7f,
    ;
    assert(encode_scalar(w) =~= seq![w as u8]);
    if v <= 0x7f {
        assert((v & 0x7f) as u8 == v as u8) by (bit_vector)
            requires
                v <= 0x7f,
        ;
        assert(encode_scalar(v) =~= seq![v as u8]);
    } else {
        assert(0xC0 | ((v >> 6) & 0x1F) as u8 >= 0x80u8) by (bit_vector);
        assert(0xE0 | ((v >> 12) & 0x0F) as u8 >= 0x80u8) by (bit_vector);
        assert(0xF0 | ((v >> 18) & 0x7) as u8 >= 0x80u8) by (bit_vector);
        assert(0x80 | (v & 0x3F) as u8 >= 0x80u8) by (bit_vector);
        assert(0x80 | ((v >> 6) & 0x3F) as u8 >= 0x80u8) by (bit_vector);
        assert(0x80 | ((v >> 12) & 0x3F) as u8 >= 0x80u8) by (bit_vector);
    }
}

/// A text without an ASCII character has no byte that is that character.
proof fn lemma_encoding_lacks(s: Seq<char>, a: char)
    requires
        a as u32 <= 0x7f,
        !s.contains(a),
    ensures
        forall|i: int| 0 <= i < encode_utf8(s).len() ==> #[trigger] encode_utf8(s)[i] != a as u8,
        s.len() > 0 ==> encode_utf8(s).len() > 0,
    decreases s.len(),
{
    if s.len() > 0 {
        let rest = s.drop_first();
        assert(!rest.contains(a)) by {
            if rest.contains(a) {
                let k = choose|k: int| 0 <= k < rest.len() && rest[k] == a;
                assert(s[k + 1] == a);
            }
        }
        lemma_encoding_lacks(rest, a);
        assert(s.contains(s[0]));
        lemma_encoded_character(s[0], a);
        let first = encode_scalar(s[0] as u32);
        assert forall|i: int| 0 <= i < encode_utf8(s).len() implies #[trigger] encode_utf8(s)[i]
            != a as u8 by {
            if i < first.len() {
                assert(encode_utf8(s)[i] == first[i]);
            } else {
                assert(encode_utf8(s)[i] == encode_utf8(rest)[i - first.len()]);
            }
        }
    }
}

/// A plain name is the name of a file or directory also as bytes, and begins with a full stop
/// only if it does so as text.
pub proof fn lemma_plain_name_as_bytes(s: Seq<char>)
    requires
        is_plain_name(s),
    ensures
        is_file_name(encode_utf8(s)),
        s[0] != '.' ==> encode_utf8(s)[0] != 0x2e,
{
    lemma_encoded_character(s[0], '.');
    assert(encode_utf8(s)[0] == encode_scalar(s[0] as u32)[0]);
    assert(!s.contains('/') && !s.contains('\\')) by {
        assert forall|c: char| #[trigger] s.contains(c) implies !separates(c) by {
            let k = choose|k: int| 0 <= k < s.len() && s[k] == c;
            assert(!separates(s[k]));
        }
    }
    lemma_encoding_lacks(s, '/');
    lemma_encoding_lacks(s, '\\');
    let bytes = encode_utf8(s);
    let first = encode_scalar(s[0] as u32);
    lemma_encoded_character(s[0], ':');
    if bytes.len() > 1 {
        if first.len() > 1 {
            assert(bytes[1] == first[1]);
        } else {
            let second = encode_scalar(s[1] as u32);
            lemma_encoded_character(s[1], ':');
            assert(bytes[1] == encode_utf8(s.drop_first())[0]);
            assert(s.drop_first()[0] == s[1]);
            assert(encode_utf8(s.drop_first())[0] == second[0]);
        }
    }
    lemma_encoded_character('.', '.');
    reveal_with_fuel(encode_utf8, 3);
    let one = seq!['.'];
    let two = seq!['.', '.'];
    assert(two.drop_first() =~= one);
    assert(one.drop_first() =~= Seq::<char>::empty());
    assert(encode_utf8(one) =~= seq![0x2eu8]);
    assert(encode_utf8(two) =~= seq![0x2eu8, 0x2eu8]);
    encode_utf8_decode_utf8(s);
    encode_utf8_decode_utf8(one);
    encode_utf8_decode_utf8(two);
}

proof fn lemma_last_dot(stem: Seq<u8>, extension: Seq<u8>)
    requires
        forall|i: int| 0 <= i < extension.len() ==> #[trigger] extension[i] != 0x2e,
    ensures
        last_dot(stem.push(0x2e) + extension) == stem.len(),
    decreases extension.len(),
{
    let name = stem.push(0x2e) + extension;
    if extension.len() == 0 {
        assert(name =~= stem.push(0x2e));
    } else {
        assert(name.last() == extension[extension.len() - 1]);
        assert(name.drop_last() =~= stem.push(0x2e) + extension.drop_last());
        lemma_last_dot(stem, extension.drop_last());
    }
}

/// An incomplete file is never at the place of the complete one, unless that has the extension
/// of incomplete files itself.
pub proof fn law_incomplete_files_are_elsewhere(name: Seq<u8>)
    requires
        name.len() > 0,
        name_extension(name) != Some(encode_utf8("partial"@)),
    ensures
        partial_name(name) != name,
{
    reveal_strlit("partial");
    let p = "partial"@;
    assert(p.len() == 7);
    assert(!p.contains('.'));
    lemma_encoding_lacks(p, '.');
    let stem = name_stem(name);
    lemma_last_dot(stem, encode_utf8(p));
    lemma_last_dot_in_range(name);
    if partial_name(name) == name {
        assert(stem.len() > 0);
        assert(name.skip(stem.len() as int + 1) =~= encode_utf8(p));
    }
}

proof fn lemma_last_dot_in_range(name: Seq<u8>)
    ensures
        -1 <= last_dot(name) < name.len(),
    decreases name.len(),
{
    if name.len() > 0 && name.last() != 0x2e {
        lemma_last_dot_in_range(name.drop_last());
    }
}

/// The last full stop of a name has none behind it.
pub proof fn law_nothing_follows_the_last_full_stop(name: Seq<u8>)
    ensures
        -1 <= last_dot(name) < name.len(),
        last_dot(name) >= 0 ==> name[last_dot(name)] == 0x2e,
        forall|i: int| last_dot(name) < i < name.len() ==> #[trigger] name[i] != 0x2e,
    decreases name.len(),
{
    if name.len() > 0 && name.last() != 0x2e {
        let front = name.drop_last();
        law_nothing_follows_the_last_full_stop(front);
        assert forall|i: int| last_dot(name) < i < name.len() implies #[trigger] name[i] != 0x2e by {
            if i < front.len() {
                assert(front[i] == name[i]);
            }
        }
    }
}

/// The stem of a name and its extension, with a full stop between, are the name; a name without an
/// extension is its stem.
pub proof fn law_a_name_is_its_stem_and_extension(name: Seq<u8>)
    ensures
        match name_extension(name) {
            Some(e) => name == name_stem(name).push(0x2e) + e && name_stem(name).len() > 0
                && forall|i: int| 0 <= i < e.len() ==> #[trigger] e[i] != 0x2e,
            None => name_stem(name) == name && forall|i: int|
                0 < i < name.len() ==> #[trigger] name[i] != 0x2e,
        },
{
    law_nothing_follows_the_last_full_stop(name);
    if let Some(e) = name_extension(name) {
        assert(name =~= name_stem(name).push(0x2e) + e);
        assert forall|i: int| 0 <= i < e.len() implies #[trigger] e[i] != 0x2e by {
            assert(name[last_dot(name) + 1 + i] == e[i]);
        }
    }
}

/// An incomplete file is named after the complete one: its stem is the same, and its extension
/// tells that it is incomplete.
pub proof fn law_an_incomplete_file_keeps_its_stem(name: Seq<u8>)
    ensures
        partial_name(name) == name_stem(name).push(0x2e) + encode_utf8("partial"@),
        name_stem(name).is_prefix_of(partial_name(name)),
        name_stem(name).is_prefix_of(name),
{
    law_nothing_follows_the_last_full_stop(name);
    assert(name_stem(name) =~= partial_name(name).take(name_stem(name).len() as int));
    assert(name_stem(name) =~= name.take(name_stem(name).len() as int));
}

} // verus!
