//! Text: the character-level operations that the rest of the crate is built on.
//!
//! A string is reasoned about as the sequence of its characters.

use vstd::prelude::*;
use vstd::string::*;

verus! {

/// `String::push` appends one character at the end of the string.
pub assume_specification[ String::push ](s: &mut String, c: char)
    ensures
        final(s)@ == old(s)@.push(c),
;

/// What `str::to_lowercase` makes of a text.
///
/// Unicode lower-casing maps some characters to several, and one of them by its context, so
/// the mapping itself is not spelled out.
pub uninterp spec fn lowercase(s: Seq<char>) -> Seq<char>;

/// Whether all characters of `s` are ASCII.
pub open spec fn is_ascii_text(s: Seq<char>) -> bool {
    forall|i: int| 0 <= i < s.len() ==> (#[trigger] s[i]) as int <= 127
}

/// `s` with the ASCII capitals folded to small letters.
pub open spec fn ascii_lowercase(s: Seq<char>) -> Seq<char> {
    Seq::new(s.len(), |i: int| ascii_folded(s[i]))
}

/// `str::to_lowercase`: the result depends on the text alone, and of an ASCII text only the
/// capitals are changed.
#[verifier::external_body]
pub(crate) fn to_lowercase(s: &str) -> (r: String)
    ensures
        r@ == lowercase(s@),
        is_ascii_text(s@) ==> r@ == ascii_lowercase(s@),
{
    s.to_lowercase()
}

/// Texts in small letters.
pub open spec fn lowercase_texts(v: Seq<Seq<char>>) -> Seq<Seq<char>> {
    Seq::new(v.len(), |i: int| lowercase(v[i]))
}

/// The texts of a sequence of strings.
pub open spec fn texts(v: Seq<String>) -> Seq<Seq<char>> {
    Seq::new(v.len(), |i: int| v[i]@)
}

/// The text of an optional string.
pub open spec fn opt_text(o: Option<String>) -> Option<Seq<char>> {
    match o {
        Some(s) => Some(s@),
        None => None,
    }
}

/// The characters of `s`, in order.
pub fn chars_of(s: &str) -> (r: Vec<char>)
    ensures
        r@ == s@,
{
    let mut r: Vec<char> = Vec::new();
    for c in it: s.chars()
        invariant
            it.seq() == s@,
            r@ == s@.take(it.index() as int),
    {
        r.push(c);
    }
    r
}

/// The string made of the characters of `v` from `from` up to `to`.
pub fn string_of(v: &Vec<char>, from: usize, to: usize) -> (r: String)
    requires
        from <= to <= v@.len(),
    ensures
        r@ == v@.subrange(from as int, to as int),
{
    let mut r = String::new();
    let mut i: usize = from;
    while i < to
        invariant
            from <= i <= to <= v@.len(),
            r@ == v@.subrange(from as int, i as int),
        decreases to - i,
    {
        r.push(v[i]);
        i = i + 1;
    }
    r
}

/// Whether two strings hold the same text.
pub fn same(a: &str, b: &str) -> (r: bool)
    ensures
        r == (a@ == b@),
{
    a.to_owned() == b.to_owned()
}

/// The concatenation of two texts.
pub fn concat2(a: &str, b: &str) -> (r: String)
    ensures
        r@ == a@ + b@,
{
    let mut r = a.to_owned();
    r.append(b);
    r
}

/// The concatenation of three texts.
pub fn concat3(a: &str, b: &str, c: &str) -> (r: String)
    ensures
        r@ == a@ + b@ + c@,
{
    let mut r = concat2(a, b);
    r.append(c);
    r
}

/// The code point of `c`.
pub fn code_point(c: char) -> (n: u32)
    ensures
        n as int == c as int,
{
    c as u32
}

/// The Unicode property `White_Space`.
pub open spec fn is_white(c: char) -> bool {
    let n = c as int;
    ||| 0x9 <= n <= 0xd
    ||| n == 0x20
    ||| n == 0x85
    ||| n == 0xa0
    ||| n == 0x1680
    ||| 0x2000 <= n <= 0x200a
    ||| n == 0x2028
    ||| n == 0x2029
    ||| n == 0x202f
    ||| n == 0x205f
    ||| n == 0x3000
}

/// Whether `c` is white space.
pub fn is_whitespace(c: char) -> (r: bool)
    ensures
        r == is_white(c),
{
    let n: u32 = code_point(c);
    (0x9 <= n && n <= 0xd) || n == 0x20 || n == 0x85 || n == 0xa0 || n == 0x1680 || (0x2000 <= n
        && n <= 0x200a) || n == 0x2028 || n == 0x2029 || n == 0x202f || n == 0x205f || n == 0x3000
}

/// `s` without the white space at its two ends.
pub open spec fn trimmed(s: Seq<char>) -> Seq<char>
    decreases s.len(),
{
    if s.len() == 0 {
        s
    } else if is_white(s.first()) {
        trimmed(s.drop_first())
    } else if is_white(s.last()) {
        trimmed(s.drop_last())
    } else {
        s
    }
}

/// The text without the white space at its two ends.
pub fn trim(s: &str) -> (r: String)
    ensures
        r@ == trimmed(s@),
{
    let v = chars_of(s);
    let mut lo: usize = 0;
    let mut hi: usize = v.len();
    assert(v@.subrange(0, v@.len() as int) =~= s@);
    while lo < hi && is_whitespace(v[lo])
        invariant
            lo <= hi == v@.len(),
            trimmed(v@.subrange(lo as int, hi as int)) == trimmed(s@),
        decreases hi - lo,
    {
        assert(v@.subrange(lo as int, hi as int).drop_first() =~= v@.subrange(lo + 1, hi as int));
        lo = lo + 1;
    }
    while lo < hi && is_whitespace(v[hi - 1])
        invariant
            lo <= hi <= v@.len(),
            lo < hi ==> !is_white(v@[lo as int]),
            trimmed(v@.subrange(lo as int, hi as int)) == trimmed(s@),
        decreases hi - lo,
    {
        assert(v@.subrange(lo as int, hi as int).drop_last() =~= v@.subrange(lo as int, hi - 1));
        hi = hi - 1;
    }
    string_of(&v, lo, hi)
}

/// The pieces of `s` between the occurrences of `sep`.
pub open spec fn split(s: Seq<char>, sep: char) -> Seq<Seq<char>>
    decreases s.len(),
{
    if s.len() == 0 {
        seq![s]
    } else {
        let before = split(s.drop_last(), sep);
        if s.last() == sep {
            before.push(Seq::<char>::empty())
        } else {
            before.drop_last().push(before.last().push(s.last()))
        }
    }
}

/// The pieces of the text between the occurrences of `sep`.
pub fn split_on(s: &str, sep: char) -> (r: Vec<String>)
    ensures
        texts(r@) == split(s@, sep),
        r@.len() > 0,
{
    let v = chars_of(s);
    let mut r: Vec<String> = Vec::new();
    let mut cur = String::new();
    let mut i: usize = 0;
    assert(v@.take(0) =~= Seq::<char>::empty());
    assert(texts(r@).push(cur@) =~= seq![Seq::<char>::empty()]);
    while i < v.len()
        invariant
            i <= v@.len(),
            texts(r@).push(cur@) == split(v@.take(i as int), sep),
        decreases v@.len() - i,
    {
        let ghost before = texts(r@).push(cur@);
        assert(v@.take(i + 1).drop_last() =~= v@.take(i as int));
        assert(before.last() == cur@ && before.drop_last() =~= texts(r@));
        if v[i] == sep {
            r.push(cur);
            cur = String::new();
            assert(texts(r@) =~= before);
        } else {
            cur.push(v[i]);
        }
        i = i + 1;
    }
    assert(v@.take(v@.len() as int) =~= s@);
    let ghost done = texts(r@).push(cur@);
    r.push(cur);
    assert(texts(r@) =~= done);
    r
}

/// Whether `part` occurs in `s`.
pub open spec fn has_part(s: Seq<char>, part: Seq<char>) -> bool {
    exists|i: int|
        0 <= i <= s.len() - part.len() && #[trigger] s.subrange(i, i + part.len()) == part
}

/// Whether `part` occurs in `s` at the position `at`.
fn occurs_at(s: &Vec<char>, part: &Vec<char>, at: usize) -> (r: bool)
    requires
        at + part@.len() <= s@.len(),
    ensures
        r == (s@.subrange(at as int, at + part@.len()) == part@),
{
    let n: usize = s.len();
    let mut j: usize = 0;
    while j < part.len()
        invariant
            j <= part@.len(),
            at + part@.len() <= s@.len() == n,
            forall|k: int| 0 <= k < j ==> s@[at + k] == part@[k],
        decreases part@.len() - j,
    {
        if s[at + j] != part[j] {
            assert(s@.subrange(at as int, at + part@.len())[j as int] != part@[j as int]);
            return false;
        }
        j = j + 1;
    }
    assert(s@.subrange(at as int, at + part@.len()) =~= part@);
    true
}

/// Whether `part` occurs in the text.
pub fn contains(s: &str, part: &str) -> (r: bool)
    ensures
        r == has_part(s@, part@),
{
    let v = chars_of(s);
    let p = chars_of(part);
    if p.len() > v.len() {
        return false;
    }
    let last: usize = v.len() - p.len();
    let mut i: usize = 0;
    while i <= last
        invariant
            v@ == s@,
            p@ == part@,
            last + p@.len() == v@.len(),
            i <= last + 1,
            forall|k: int| 0 <= k < i ==> #[trigger] v@.subrange(k, k + p@.len()) != p@,
        decreases last + 1 - i,
    {
        if occurs_at(&v, &p, i) {
            return true;
        }
        if i == last {
            return false;
        }
        i = i + 1;
    }
    false
}

/// Whether the text begins with `prefix`.
pub fn starts_with(s: &str, prefix: &str) -> (r: bool)
    ensures
        r == prefix@.is_prefix_of(s@),
{
    let v = chars_of(s);
    let p = chars_of(prefix);
    if p.len() > v.len() {
        return false;
    }
    let r = occurs_at(&v, &p, 0);
    assert(s@.subrange(0, prefix@.len() as int) =~= s@.take(prefix@.len() as int));
    r
}

/// The text without `suffix` at its end, if it ends with it.
pub fn strip_suffix(s: &str, suffix: &str) -> (r: Option<String>)
    ensures
        r is Some == suffix@.is_suffix_of(s@),
        r matches Some(t) ==> t@ == s@.take(s@.len() - suffix@.len()),
{
    let v = chars_of(s);
    let p = chars_of(suffix);
    if p.len() > v.len() {
        return None;
    }
    let at: usize = v.len() - p.len();
    if occurs_at(&v, &p, at) {
        Some(string_of(&v, 0, at))
    } else {
        None
    }
}

/// The texts of `parts` with `sep` between each two.
pub open spec fn joined(parts: Seq<Seq<char>>, sep: Seq<char>) -> Seq<char>
    decreases parts.len(),
{
    if parts.len() == 0 {
        Seq::<char>::empty()
    } else if parts.len() == 1 {
        parts[0]
    } else {
        joined(parts.drop_last(), sep) + sep + parts.last()
    }
}

/// The strings of `parts` with `sep` between each two.
pub fn join(parts: &Vec<String>, sep: &str) -> (r: String)
    ensures
        r@ == joined(texts(parts@), sep@),
{
    let mut r = String::new();
    let mut i: usize = 0;
    while i < parts.len()
        invariant
            i <= parts@.len(),
            r@ == joined(texts(parts@).take(i as int), sep@),
        decreases parts@.len() - i,
    {
        assert(texts(parts@).take(i + 1).drop_last() =~= texts(parts@).take(i as int));
        if i > 0 {
            r.append(sep);
        }
        r.append(parts[i].as_str());
        assert(r@ =~= joined(texts(parts@).take(i + 1), sep@));
        i = i + 1;
    }
    assert(texts(parts@).take(parts@.len() as int) =~= texts(parts@));
    r
}

/// A character with the ASCII capitals folded to small letters.
pub open spec fn ascii_folded(c: char) -> char {
    if 65 <= c as int <= 90 {
        (c as int + 32) as char
    } else {
        c
    }
}

/// Whether two texts differ at most in the case of ASCII letters.
pub open spec fn same_ignoring_ascii_case(a: Seq<char>, b: Seq<char>) -> bool {
    a.len() == b.len() && forall|i: int|
        0 <= i < a.len() ==> ascii_folded(#[trigger] a[i]) == ascii_folded(b[i])
}

fn fold_ascii(c: char) -> (r: char)
    ensures
        r == ascii_folded(c),
{
    let n: u32 = code_point(c);
    if 65 <= n && n <= 90 {
        (n as u8 + 32) as char
    } else {
        c
    }
}

/// Whether two texts differ at most in the case of ASCII letters.
pub fn eq_ignore_ascii_case(a: &str, b: &str) -> (r: bool)
    ensures
        r == same_ignoring_ascii_case(a@, b@),
{
    let x = chars_of(a);
    let y = chars_of(b);
    if x.len() != y.len() {
        return false;
    }
    let mut i: usize = 0;
    while i < x.len()
        invariant
            x@ == a@,
            y@ == b@,
            x@.len() == y@.len(),
            i <= x@.len(),
            forall|k: int| 0 <= k < i ==> ascii_folded(#[trigger] a@[k]) == ascii_folded(b@[k]),
        decreases x@.len() - i,
    {
        if fold_ascii(x[i]) != fold_ascii(y[i]) {
            assert(ascii_folded(a@[i as int]) != ascii_folded(b@[i as int]));
            return false;
        }
        i = i + 1;
    }
    true
}

/// White space is what parts words and lines: blanks, tabs and line breaks are, and no ASCII
/// character that is seen is.
pub proof fn law_white_space_is_not_seen(c: char)
    ensures
        c == ' ' || c == '\t' || c == '\n' || c == '\r' ==> is_white(c),
        33 <= c as int <= 126 ==> !is_white(c),
        c as int <= 127 && is_white(c) ==> c == ' ' || 9 <= c as int <= 13,
        c as int > 127 && is_white(c) ==> c as int == 0x85 || c as int == 0xa0 || 0x1680 <= c as int
            <= 0x3000,
{
}

/// What is trimmed away is white space at the ends, and all of it: what stays is one run of the
/// text, there is nothing but white space around it, and it neither begins nor ends with any.
pub proof fn law_trimming_takes_white_space_from_the_ends(s: Seq<char>) -> (r: (int, int))
    ensures
        0 <= r.0 <= r.1 <= s.len(),
        trimmed(s) == s.subrange(r.0, r.1),
        forall|i: int| 0 <= i < r.0 ==> is_white(#[trigger] s[i]),
        forall|i: int| r.1 <= i < s.len() ==> is_white(#[trigger] s[i]),
        r.0 < r.1 ==> !is_white(s[r.0]) && !is_white(s[r.1 - 1]),
        trimmed(s).len() == 0 <==> forall|i: int| 0 <= i < s.len() ==> is_white(#[trigger] s[i]),
    decreases s.len(),
{
    if s.len() == 0 {
        assert(trimmed(s) =~= s.subrange(0, 0));
        (0, 0)
    } else if is_white(s.first()) {
        let t = s.drop_first();
        let (a, b) = law_trimming_takes_white_space_from_the_ends(t);
        assert(t.subrange(a, b) =~= s.subrange(a + 1, b + 1));
        assert forall|i: int| 0 <= i < a + 1 implies is_white(#[trigger] s[i]) by {
            if i > 0 {
                assert(t[i - 1] == s[i]);
            }
        }
        assert forall|i: int| b + 1 <= i < s.len() implies is_white(#[trigger] s[i]) by {
            assert(t[i - 1] == s[i]);
        }
        if a < b {
            assert(s[a + 1] == t[a]);
        }
        (a + 1, b + 1)
    } else if is_white(s.last()) {
        let t = s.drop_last();
        let (a, b) = law_trimming_takes_white_space_from_the_ends(t);
        assert(t.subrange(a, b) =~= s.subrange(a, b));
        assert forall|i: int| 0 <= i < a implies is_white(#[trigger] s[i]) by {
            assert(t[i] == s[i]);
        }
        assert forall|i: int| b <= i < s.len() implies is_white(#[trigger] s[i]) by {
            if i < t.len() {
                assert(t[i] == s[i]);
            }
        }
        assert(t[0] == s[0]);
        (a, b)
    } else {
        assert(s.subrange(0, s.len() as int) =~= s);
        (0, s.len() as int)
    }
}

/// What is between separators holds none, and with the separators put back it is the text again:
/// nothing is lost by splitting.
pub proof fn law_splitting_loses_nothing(s: Seq<char>, sep: char)
    ensures
        split(s, sep).len() > 0,
        joined(split(s, sep), seq![sep]) == s,
        forall|i: int, k: int|
            0 <= i < split(s, sep).len() && 0 <= k < split(s, sep)[i].len()
                ==> #[trigger] split(s, sep)[i][k] != sep,
    decreases s.len(),
{
    if s.len() > 0 {
        let front = s.drop_last();
        law_splitting_loses_nothing(front, sep);
        let before = split(front, sep);
        let all = split(s, sep);
        assert(s =~= front.push(s.last()));
        if s.last() == sep {
            assert(all.drop_last() =~= before);
            assert(joined(all, seq![sep]) =~= s);
        } else {
            assert(all.drop_last() =~= before.drop_last());
            assert(joined(all, seq![sep]) =~= joined(before, seq![sep]).push(s.last()));
        }
        assert forall|i: int, k: int|
            0 <= i < all.len() && 0 <= k < all[i].len() implies #[trigger] all[i][k] != sep by {
            if s.last() == sep {
                if i < before.len() {
                    assert(all[i][k] == before[i][k]);
                }
            } else if i < before.len() - 1 {
                assert(all[i][k] == before[i][k]);
            } else if k < before.last().len() {
                assert(all[i][k] == before[i][k]);
            }
        }
    } else {
        assert(split(s, sep) =~= seq![s]);
    }
}

/// Where a part of a joined text begins: behind the parts ahead of it and their separators.
pub open spec fn part_offset(parts: Seq<Seq<char>>, sep: Seq<char>, i: int) -> int
    decreases i,
{
    if i <= 0 {
        0
    } else {
        part_offset(parts, sep, i - 1) + parts[i - 1].len() + sep.len()
    }
}

/// In a joined text every part stands whole and in its place, with a separator behind each but
/// the last.
pub proof fn law_joining_keeps_every_part(parts: Seq<Seq<char>>, sep: Seq<char>, i: int)
    requires
        0 <= i < parts.len(),
    ensures
        ({
            let all = joined(parts, sep);
            let at = part_offset(parts, sep, i);
            &&& 0 <= at <= at + parts[i].len() <= all.len()
            &&& all.subrange(at, at + parts[i].len()) == parts[i]
            &&& i < parts.len() - 1 ==> at + parts[i].len() + sep.len() <= all.len()
                && all.subrange(at + parts[i].len(), at + parts[i].len() + sep.len()) == sep
            &&& i == parts.len() - 1 ==> at + parts[i].len() == all.len()
        }),
    decreases parts.len(),
{
    let all = joined(parts, sep);
    let at = part_offset(parts, sep, i);
    if parts.len() == 1 {
        assert(all.subrange(0, parts[0].len() as int) =~= parts[0]);
    } else {
        let front = parts.drop_last();
        let before = joined(front, sep);
        lemma_part_offset(parts, front, sep, i);
        if i < front.len() {
            law_joining_keeps_every_part(front, sep, i);
            assert(all.subrange(at, at + parts[i].len()) =~= before.subrange(
                at,
                at + parts[i].len(),
            ));
            let end = at + parts[i].len();
            if i < front.len() - 1 {
                assert(all.subrange(end, end + sep.len()) =~= before.subrange(
                    end,
                    end + sep.len(),
                ));
            } else {
                assert(all.subrange(end, end + sep.len()) =~= sep);
            }
        } else {
            law_joining_keeps_every_part(front, sep, front.len() - 1);
            lemma_part_offset(parts, front, sep, i - 1);
            assert(all.subrange(at, at + parts[i].len()) =~= parts[i]);
        }
    }
}

proof fn lemma_part_offset(a: Seq<Seq<char>>, b: Seq<Seq<char>>, sep: Seq<char>, i: int)
    requires
        0 <= i <= b.len() <= a.len(),
        b == a.take(b.len() as int),
    ensures
        part_offset(a, sep, i) == part_offset(b, sep, i),
        part_offset(a, sep, i) >= 0,
    decreases i,
{
    if i > 0 {
        lemma_part_offset(a, b, sep, i - 1);
    }
}

/// Small and capital letters of ASCII are told apart by nothing but their case: a letter is the
/// same as itself and as its counterpart, and every other character as itself alone.
pub proof fn law_only_the_case_is_ignored(a: char, b: char)
    ensures
        same_ignoring_ascii_case(seq![a], seq![b]) <==> a == b || ('A' <= a <= 'Z' && b as int
            == a as int + 32) || ('A' <= b <= 'Z' && a as int == b as int + 32),
{
    let x = seq![a];
    let y = seq![b];
    assert(x[0] == a && y[0] == b);
    if same_ignoring_ascii_case(x, y) {
        assert(ascii_folded(x[0]) == ascii_folded(y[0]));
    }
}

/// A text is cut at the first separator: what is ahead of it is the first piece, and the others
/// are those of what follows. A text without a separator is one piece.
pub proof fn law_a_text_is_cut_at_each_separator(a: Seq<char>, b: Seq<char>, sep: char)
    requires
        !a.contains(sep),
    ensures
        split(a, sep) == seq![a],
        split(a.push(sep) + b, sep) == seq![a] + split(b, sep),
    decreases a.len() + b.len(),
{
    if a.len() > 0 {
        let f = a.drop_last();
        assert(!f.contains(sep)) by {
            if f.contains(sep) {
                let k = choose|k: int| 0 <= k < f.len() && f[k] == sep;
                assert(a[k] == sep);
            }
        }
        law_a_text_is_cut_at_each_separator(f, Seq::<char>::empty(), sep);
        assert(a[a.len() - 1] != sep);
        assert(f.push(a.last()) =~= a);
        assert(split(a, sep) =~= seq![a]);
    } else {
        assert(split(a, sep) =~= seq![a]);
    }
    let s = a.push(sep) + b;
    if b.len() == 0 {
        assert(s.drop_last() =~= a);
        assert(split(s, sep) =~= seq![a].push(Seq::<char>::empty()));
        assert(b =~= Seq::<char>::empty());
        assert(split(b, sep) =~= seq![Seq::<char>::empty()]);
        assert(split(s, sep) =~= seq![a] + split(b, sep));
    } else {
        let g = b.drop_last();
        law_a_text_is_cut_at_each_separator(a, g, sep);
        law_splitting_loses_nothing(g, sep);
        assert(s.drop_last() =~= a.push(sep) + g);
        assert(s.last() == b.last());
        assert(split(s, sep) =~= seq![a] + split(b, sep));
    }
}

/// A part may stand anywhere in a text, and where one is in it the text is what is ahead of it,
/// the part, and what follows.
pub proof fn law_a_part_may_stand_anywhere(a: Seq<char>, part: Seq<char>, b: Seq<char>, s: Seq<char>)
    ensures
        has_part(a + part + b, part),
        has_part(s, part) ==> exists|x: Seq<char>, y: Seq<char>| #[trigger] (x + part + y) == s,
{
    let t = a + part + b;
    let from = a.len() as int;
    assert(t.subrange(from, from + part.len()) =~= part);
    if has_part(s, part) {
        let i = choose|i: int|
            0 <= i <= s.len() - part.len() && #[trigger] s.subrange(i, i + part.len()) == part;
        let x = s.take(i);
        let y = s.skip(i + part.len());
        assert forall|k: int| 0 <= k < s.len() implies #[trigger] (x + part + y)[k] == s[k] by {
            if i <= k < i + part.len() {
                assert(s.subrange(i, i + part.len())[k - i] == s[k]);
            }
        }
        assert(x + part + y =~= s);
    }
}

/// Exactly these 25 characters are white space.
pub proof fn law_these_characters_are_white_space(c: char)
    ensures
        is_white(c) <==> seq![
            0x9int,
            0xaint,
            0xbint,
            0xcint,
            0xdint,
            0x20int,
            0x85int,
            0xa0int,
            0x1680int,
            0x2000int,
            0x2001int,
            0x2002int,
            0x2003int,
            0x2004int,
            0x2005int,
            0x2006int,
            0x2007int,
            0x2008int,
            0x2009int,
            0x200aint,
            0x2028int,
            0x2029int,
            0x202fint,
            0x205fint,
            0x3000int,
        ].contains(c as int),
{
    let w = seq![
        0x9int,
        0xaint,
        0xbint,
        0xcint,
        0xdint,
        0x20int,
        0x85int,
        0xa0int,
        0x1680int,
        0x2000int,
        0x2001int,
        0x2002int,
        0x2003int,
        0x2004int,
        0x2005int,
        0x2006int,
        0x2007int,
        0x2008int,
        0x2009int,
        0x200aint,
        0x2028int,
        0x2029int,
        0x202fint,
        0x205fint,
        0x3000int,
    ];
    let n = c as int;
    if is_white(c) {
        let i = if n <= 0xd {
            n - 0x9
        } else if n == 0x20 {
            5
        } else if n == 0x85 {
            6
        } else if n == 0xa0 {
            7
        } else if n == 0x1680 {
            8
        } else if n <= 0x200a {
            9 + n - 0x2000
        } else if n <= 0x2029 {
            20 + n - 0x2028
        } else if n == 0x202f {
            22
        } else if n == 0x205f {
            23
        } else {
            24
        };
        assert(w[i] == n);
    }
}

} // verus!
