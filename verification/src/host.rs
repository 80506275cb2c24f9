//! What the host system and the `uuid` crate answer.
//!
//! The answers here depend on the platform the library was built for, on
//! the file system, or on chance, so none of them is given a name: each
//! contract says only what holds of every answer, and the verified code
//! that uses an answer is proved for every value of it.
use vstd::prelude::*;
use crate::text::{has_char, occurs_in};

verus! {

/// The index of the last `c` in `s`, or -1 when it has none.
pub open spec fn last_index_of(s: Seq<char>, c: char) -> int
    decreases s.len(),
{
    if s.len() == 0 {
        -1
    } else if s.last() == c {
        s.len() - 1
    } else {
        last_index_of(s.drop_last(), c)
    }
}

/// A bare file name: not empty, and without `/`, `\` or `:`, so that every
/// platform reads it as one path component with no prefix.
pub open spec fn is_plain_name(p: Seq<char>) -> bool {
    &&& p.len() > 0
    &&& !has_char(p, '/')
    &&& !has_char(p, '\\')
    &&& !has_char(p, ':')
}

/// A character that a component cannot hold on some platform: the
/// separators `/` and `\`, and the `:` of a Windows drive prefix.
pub open spec fn breaks_name(c: char) -> bool {
    c == '/' || c == '\\' || c == ':'
}

/// A path separator on some platform.
pub open spec fn is_separator_char(c: char) -> bool {
    c == '/' || c == '\\'
}

/// The text begins with two separators, as a Windows UNC, device or
/// verbatim prefix does.
pub open spec fn begins_with_two_separators(p: Seq<char>) -> bool {
    p.len() >= 2 && is_separator_char(p[0]) && is_separator_char(p[1])
}

/// The part of a text after its last `/` (all of it when it has none).
pub open spec fn after_last_slash(p: Seq<char>) -> Seq<char> {
    p.subrange(last_index_of(p, '/') + 1, p.len() as int)
}

/// The file name of a text, when every platform reads the same one: the
/// text holds no `\`, does not begin with `//`, and what follows its last
/// `/` is a bare file name other than `.` and `..`. A bare file name is
/// its own file name.
pub open spec fn agreed_file_name(p: Seq<char>) -> Option<Seq<char>> {
    let n = after_last_slash(p);
    if !has_char(p, '\\') && !begins_with_two_separators(p) && is_plain_name(n) && n != seq!['.']
        && n != seq!['.', '.'] {
        Some(n)
    } else {
        None
    }
}

/// The extension of a file name other than `.` and `..`: what follows its
/// last `.`, when something precedes that `.`.
pub open spec fn name_file_extension(n: Seq<char>) -> Option<Seq<char>> {
    let k = last_index_of(n, '.');
    if k > 0 {
        Some(n.subrange(k + 1, n.len() as int))
    } else {
        None
    }
}

/// The stem of a file name other than `.` and `..`: what precedes its last
/// `.`, or the whole name when nothing does.
pub open spec fn name_file_stem(n: Seq<char>) -> Seq<char> {
    let k = last_index_of(n, '.');
    if k > 0 {
        n.subrange(0, k)
    } else {
        n
    }
}

/// The text ends in an extension that every platform reads: its last `.`
/// has a character before it and characters after it, none of which
/// separates components or ends a drive prefix, and it does not begin
/// with two separators.
pub open spec fn ends_in_extension(p: Seq<char>) -> bool {
    let k = last_index_of(p, '.');
    &&& 0 < k < p.len() - 1
    &&& !breaks_name(p[k - 1])
    &&& forall|j: int| k < j < p.len() ==> !breaks_name(#[trigger] p[j])
    &&& !begins_with_two_separators(p)
}

/// The part of a text after its last `.`.
pub open spec fn name_suffix(p: Seq<char>) -> Seq<char> {
    p.subrange(last_index_of(p, '.') + 1, p.len() as int)
}

/// The extension of a text, when every platform gives the same one.
pub open spec fn known_extension(p: Seq<char>) -> Option<Option<Seq<char>>> {
    match agreed_file_name(p) {
        Some(n) => Some(name_file_extension(n)),
        None => if ends_in_extension(p) {
            Some(Some(name_suffix(p)))
        } else {
            None
        },
    }
}

/// The file stem of a text, when every platform gives the same one.
pub open spec fn known_stem(p: Seq<char>) -> Option<Option<Seq<char>>> {
    match agreed_file_name(p) {
        Some(n) => Some(Some(name_file_stem(n))),
        None => None,
    }
}

/// Whether a path-like text has the extension `e`, as far as
/// `std::path::Path::extension` documents it: an extension is the part of
/// the file name after its final `.`, so it holds no `.`, it stands in the
/// text right after a `.`, and a text without any `.` has none. Where every
/// platform reads the same file name, or the same final `.`, the answer is
/// `known_extension`.
pub open spec fn extension_outcome(p: Seq<char>, e: Option<Seq<char>>) -> bool {
    &&& (e matches Some(x) ==> !has_char(x, '.') && occurs_in(seq!['.'] + x, p))
    &&& (!has_char(p, '.') ==> e is None)
    &&& (known_extension(p) matches Some(x) ==> e == x)
}

/// Index `j` of `p` can begin a path component on some platform: it is the
/// start of the text, or it follows a separator or the `:` of a drive
/// prefix.
pub open spec fn component_start(p: Seq<char>, j: int) -> bool {
    j == 0 || (0 < j <= p.len() && breaks_name(p[j - 1]))
}

/// Whether a path-like text has the file stem `s`, as far as
/// `std::path::Path::file_stem` documents it: the stem is a part of the
/// final component of the path, so it stands in the text. Where every
/// platform reads the same file name, the answer is `known_stem`. Where
/// the text ends in an extension that every platform reads, the stem is
/// the final component up to its last `.`: a part of the text that begins
/// where a component can begin and ends right before that `.`.
pub open spec fn stem_outcome(p: Seq<char>, s: Option<Seq<char>>) -> bool {
    &&& (s matches Some(x) ==> occurs_in(x, p))
    &&& (known_stem(p) matches Some(x) ==> s == x)
    &&& (ends_in_extension(p) ==> (s matches Some(x) && exists|j: int|
        #[trigger] component_start(p, j) && 0 <= j < last_index_of(p, '.') && x == p.subrange(
            j,
            last_index_of(p, '.'),
        )))
}

/// One answer that `extension_outcome` allows.
pub open spec fn some_extension(p: Seq<char>) -> Option<Seq<char>> {
    match known_extension(p) {
        Some(x) => x,
        None => None,
    }
}

/// One answer that `stem_outcome` allows.
pub open spec fn some_stem(p: Seq<char>) -> Option<Seq<char>> {
    match known_stem(p) {
        Some(x) => x,
        None => if ends_in_extension(p) {
            Some(p.subrange(last_index_of(p, '/') + 1, last_index_of(p, '.')))
        } else {
            None
        },
    }
}

/// Where the last `c` stands, and that none follows it.
pub proof fn lemma_last_index_of(s: Seq<char>, c: char)
    ensures
        -1 <= last_index_of(s, c) < s.len(),
        last_index_of(s, c) >= 0 ==> s[last_index_of(s, c)] == c,
        forall|j: int| last_index_of(s, c) < j < s.len() ==> s[j] != c,
    decreases s.len(),
{
    if s.len() > 0 && s.last() != c {
        lemma_last_index_of(s.drop_last(), c);
        assert forall|j: int| last_index_of(s, c) < j < s.len() implies s[j] != c by {
            if j < s.len() - 1 {
                assert(s[j] == s.drop_last()[j]);
            }
        }
    }
}

/// `some_extension` is an answer that `extension_outcome` allows.
pub proof fn lemma_some_extension(p: Seq<char>)
    ensures
        extension_outcome(p, some_extension(p)),
{
    lemma_last_index_of(p, '.');
    lemma_last_index_of(p, '/');
    match agreed_file_name(p) {
        Some(n) => {
            let i = last_index_of(p, '/') + 1;
            lemma_last_index_of(n, '.');
            let k = last_index_of(n, '.');
            if k > 0 {
                let x = n.subrange(k + 1, n.len() as int);
                assert(!has_char(x, '.')) by {
                    if has_char(x, '.') {
                        let j = choose|j: int| 0 <= j < x.len() && x[j] == '.';
                        assert(n[k + 1 + j] == '.');
                    }
                }
                assert(p.subrange(i + k, i + k + (seq!['.'] + x).len()) == seq!['.'] + x);
                assert(has_char(p, '.')) by {
                    assert(p[i + k] == n[k]);
                }
            }
        },
        None => {
            if ends_in_extension(p) {
                let k = last_index_of(p, '.');
                let x = name_suffix(p);
                assert(!has_char(x, '.')) by {
                    if has_char(x, '.') {
                        let j = choose|j: int| 0 <= j < x.len() && x[j] == '.';
                        assert(p[k + 1 + j] == '.');
                    }
                }
                assert(p.subrange(k, k + (seq!['.'] + x).len()) == seq!['.'] + x);
                assert(has_char(p, '.')) by {
                    assert(p[k] == '.');
                }
            }
        },
    }
}

/// The last `c` of `s` is the one at `m` when none follows it.
pub proof fn lemma_last_index_at(s: Seq<char>, c: char, m: int)
    requires
        0 <= m < s.len(),
        s[m] == c,
        forall|j: int| m < j < s.len() ==> s[j] != c,
    ensures
        last_index_of(s, c) == m,
    decreases s.len(),
{
    if s.last() != c {
        assert forall|j: int| m < j < s.drop_last().len() implies s.drop_last()[j] != c by {
            assert(s.drop_last()[j] == s[j]);
        }
        lemma_last_index_at(s.drop_last(), c, m);
    }
}

/// `some_stem` is an answer that `stem_outcome` allows.
pub proof fn lemma_some_stem(p: Seq<char>)
    ensures
        stem_outcome(p, some_stem(p)),
{
    lemma_last_index_of(p, '/');
    lemma_last_index_of(p, '.');
    let i = last_index_of(p, '/') + 1;
    let k = last_index_of(p, '.');
    if ends_in_extension(p) {
        assert(i < k) by {
            if i >= k {
                let ls = i - 1;
                assert(p[ls] == '/');
                if ls > k {
                    assert(!breaks_name(p[ls]));
                }
            }
        }
        assert(component_start(p, i)) by {
            if i > 0 {
                assert(p[i - 1] == '/');
            }
        }
    }
    match agreed_file_name(p) {
        Some(n) => {
            lemma_last_index_of(n, '.');
            let x = name_file_stem(n);
            assert(p.subrange(i, i + x.len()) == x);
            if ends_in_extension(p) {
                assert forall|j: int| k - i < j < n.len() implies n[j] != '.' by {
                    assert(n[j] == p[i + j]);
                }
                lemma_last_index_at(n, '.', k - i);
                assert(x == p.subrange(i, k));
            }
        },
        None => {
            if ends_in_extension(p) {
                let x = p.subrange(i, k);
                assert(p.subrange(i, i + x.len()) == x);
            }
        },
    }
}

/// The view of an optional owned string.
pub open spec fn opt_view(o: Option<String>) -> Option<Seq<char>> {
    match o {
        Some(s) => Some(s@),
        None => None,
    }
}

/// `std::path::Path::extension` of `p`, as text.
///
/// Claimed: the answer meets `extension_outcome`. Left unsaid, where
/// `known_extension` gives none (a trailing separator, a leading pair of
/// separators, a separator or `:` next to the last `.`): the answer, since
/// which characters separate path components and which texts are prefixes
/// differs between Windows and other platforms.
#[verifier::external_body]
pub(crate) fn path_extension(p: &str) -> (r: Option<String>)
    ensures
        extension_outcome(p@, opt_view(r)),
{
    std::path::Path::new(p).extension().and_then(|e| e.to_str()).map(|e| e.to_string())
}

/// `std::path::Path::file_stem` of `p`, as text.
///
/// Claimed: the answer meets `stem_outcome`. Left unsaid, where
/// `known_stem` gives none (a text with a `\`, a leading `//`, a trailing
/// separator): where the stem begins, since where the final path component
/// begins differs between platforms (`\` and a drive prefix end a
/// component on Windows alone); where such a text ends in an extension,
/// the stem still ends right before its last `.`.
#[verifier::external_body]
pub(crate) fn path_file_stem(p: &str) -> (r: Option<String>)
    ensures
        stem_outcome(p@, opt_view(r)),
{
    std::path::Path::new(p).file_stem().and_then(|s| s.to_str()).map(|s| s.to_string())
}

/// `std::path::Path::is_dir` of `p`: whether the file system holds a
/// directory there. Nothing is claimed of the answer, which depends on the
/// disk.
#[verifier::external_body]
pub(crate) fn path_is_dir(p: &str) -> bool {
    std::path::Path::new(p).is_dir()
}

/// `std::path::is_separator('\\')`: whether the platform separates path
/// components with a backslash, which is so on Windows alone. Nothing is
/// claimed of the answer, which depends on the platform.
#[verifier::external_body]
pub(crate) fn backslash_separates() -> bool {
    std::path::is_separator('\\')
}

/// A lower-case hexadecimal digit.
pub open spec fn is_lower_hex_digit(c: char) -> bool {
    ('0' <= c <= '9') || ('a' <= c <= 'f')
}

/// The hyphenated form of a random (version 4, RFC 4122 variant) UUID:
/// 36 characters, `-` at indices 8, 13, 18 and 23, lower-case hexadecimal
/// digits elsewhere, the version digit `4` at index 14 and a variant digit
/// `8`, `9`, `a` or `b` at index 19.
pub open spec fn is_hyphenated_id(s: Seq<char>) -> bool {
    &&& s.len() == 36
    &&& s[14] == '4'
    &&& (s[19] == '8' || s[19] == '9' || s[19] == 'a' || s[19] == 'b')
    &&& forall|i: int|
        0 <= i < 36 ==> if i == 8 || i == 13 || i == 18 || i == 23 {
            #[trigger] s[i] == '-'
        } else {
            is_lower_hex_digit(s[i])
        }
}

/// `uuid::Uuid::new_v4`, written out by its `Display` impl: a fresh random
/// identifier. Claimed: the text is in the hyphenated lower-case form,
/// which `Display` (through `LowerHex` of the hyphenated form) writes, with
/// the version and variant digits that `new_v4` sets by its masks. Left
/// unsaid: its other digits, which are drawn at random.
#[verifier::external_body]
pub(crate) fn new_item_id() -> (r: String)
    ensures
        is_hyphenated_id(r@),
{
    uuid::Uuid::new_v4().to_string()
}

} // verus!
