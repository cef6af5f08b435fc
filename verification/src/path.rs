//! File paths as byte strings: how they are ordered, and what their
//! extension is.
//!
//! A path is text; what is examined here is its UTF-8 encoding. Both `/` and
//! `\` end a directory component. A path is expected to end with the name of
//! the file, without a trailing separator.

use vstd::prelude::*;
use vstd::utf8::encode_utf8;

verus! {

/// The byte `.`.
pub const DOT: u8 = 0x2e;

/// The byte `/`.
pub const SLASH: u8 = 0x2f;

/// The byte `\`.
pub const BACKSLASH: u8 = 0x5c;

/// The byte ends a directory component.
pub open spec fn is_separator(b: u8) -> bool {
    b == SLASH || b == BACKSLASH
}

/// Lexicographic order by byte value: `a` is a prefix of `b`, or `a` has the
/// smaller byte where the two first differ.
pub open spec fn lex_le(a: Seq<u8>, b: Seq<u8>) -> bool
    decreases a.len(),
{
    if a.len() == 0 {
        true
    } else if b.len() == 0 {
        false
    } else if a[0] == b[0] {
        lex_le(a.drop_first(), b.drop_first())
    } else {
        a[0] < b[0]
    }
}

/// Every byte string is at or below itself.
pub proof fn lemma_lex_le_reflexive(a: Seq<u8>)
    ensures
        lex_le(a, a),
    decreases a.len(),
{
    if a.len() > 0 {
        lemma_lex_le_reflexive(a.drop_first());
    }
}

/// Of two byte strings, one is at or below the other.
pub proof fn lemma_lex_le_total(a: Seq<u8>, b: Seq<u8>)
    ensures
        lex_le(a, b) || lex_le(b, a),
    decreases a.len(),
{
    if a.len() > 0 && b.len() > 0 && a[0] == b[0] {
        lemma_lex_le_total(a.drop_first(), b.drop_first());
    }
}

/// The order is transitive.
pub proof fn lemma_lex_le_transitive(a: Seq<u8>, b: Seq<u8>, c: Seq<u8>)
    requires
        lex_le(a, b),
        lex_le(b, c),
    ensures
        lex_le(a, c),
    decreases a.len(),
{
    if a.len() > 0 && a[0] == b[0] && b[0] == c[0] {
        lemma_lex_le_transitive(a.drop_first(), b.drop_first(), c.drop_first());
    }
}

/// Two byte strings that are each at or below the other are the same.
pub proof fn lemma_lex_le_antisymmetric(a: Seq<u8>, b: Seq<u8>)
    requires
        lex_le(a, b),
        lex_le(b, a),
    ensures
        a == b,
    decreases a.len(),
{
    if a.len() > 0 {
        lemma_lex_le_antisymmetric(a.drop_first(), b.drop_first());
        assert(a =~= seq![a[0]] + a.drop_first());
        assert(b =~= seq![b[0]] + b.drop_first());
    } else {
        assert(a =~= b);
    }
}

/// Where the file name starts: just behind the last separator, or at the
/// front where there is no separator.
pub open spec fn name_start(path: Seq<u8>) -> int
    decreases path.len(),
{
    if path.len() == 0 {
        0
    } else if is_separator(path.last()) {
        path.len() as int
    } else {
        name_start(path.drop_last())
    }
}

/// The name of the file: what follows the last separator.
pub open spec fn file_name(path: Seq<u8>) -> Seq<u8> {
    path.skip(name_start(path))
}

/// The index of the last dot in `name`, or -1 where it has none.
pub open spec fn last_dot(name: Seq<u8>) -> int
    decreases name.len(),
{
    if name.len() == 0 {
        -1
    } else if name.last() == DOT {
        name.len() - 1
    } else {
        last_dot(name.drop_last())
    }
}

/// The extension of a path: what follows the last dot of the file name.
/// There is none where the name has no dot, where its only dot comes first,
/// and where the name is `..`.
pub open spec fn extension(path: Seq<u8>) -> Option<Seq<u8>> {
    let name = file_name(path);
    let dot = last_dot(name);
    if dot <= 0 || name == seq![DOT, DOT] {
        None
    } else {
        Some(name.skip(dot + 1))
    }
}

/// The path's extension is one of `extensions`, byte for byte.
pub open spec fn has_extension_in(path: Seq<char>, extensions: Seq<Seq<char>>) -> bool {
    exists|i: int|
        0 <= i < extensions.len() && extension(encode_utf8(path)) == Some(
            encode_utf8(#[trigger] extensions[i]),
        )
}

/// `start` is where the file name starts if it sits behind a separator, or at
/// the front, and no separator follows.
pub proof fn lemma_name_start_is(path: Seq<u8>, start: int)
    requires
        0 <= start <= path.len(),
        start == 0 || is_separator(path[start - 1]),
        forall|i: int| start <= i < path.len() ==> !is_separator(#[trigger] path[i]),
    ensures
        name_start(path) == start,
    decreases path.len(),
{
    if path.len() > 0 && !is_separator(path.last()) {
        lemma_name_start_is(path.drop_last(), start);
    }
}

/// The file name starts behind a separator or at the front, and holds no
/// separator.
pub proof fn lemma_name_start(path: Seq<u8>)
    ensures
        0 <= name_start(path) <= path.len(),
        name_start(path) == 0 || is_separator(path[name_start(path) - 1]),
        forall|i: int| name_start(path) <= i < path.len() ==> !is_separator(#[trigger] path[i]),
    decreases path.len(),
{
    if path.len() > 0 && !is_separator(path.last()) {
        let front = path.drop_last();
        lemma_name_start(front);
        assert forall|i: int| name_start(path) <= i < path.len() implies !is_separator(
            #[trigger] path[i],
        ) by {
            if i < front.len() {
                assert(front[i] == path[i]);
            }
        }
    }
}

/// `dot` is the last dot of `name` if a dot stands there and none follows;
/// -1 stands for a name without dots.
pub proof fn lemma_last_dot_is(name: Seq<u8>, dot: int)
    requires
        -1 <= dot < name.len(),
        dot >= 0 ==> name[dot] == DOT,
        forall|i: int| dot < i < name.len() ==> #[trigger] name[i] != DOT,
    ensures
        last_dot(name) == dot,
    decreases name.len(),
{
    if name.len() > 0 && name.last() != DOT {
        lemma_last_dot_is(name.drop_last(), dot);
    }
}

fn is_separator_byte(b: u8) -> (r: bool)
    ensures
        r == is_separator(b),
{
    b == SLASH || b == BACKSLASH
}

/// Tells whether `a` is at or below `b` in the byte order of their
/// encodings.
pub fn path_le(a: &str, b: &str) -> (r: bool)
    ensures
        r == lex_le(encode_utf8(a@), encode_utf8(b@)),
{
    let x = a.as_bytes();
    let y = b.as_bytes();
    let mut i: usize = 0;
    assert(x@.skip(0) =~= x@ && y@.skip(0) =~= y@);
    while i < x.len() && i < y.len()
        invariant
            i <= x@.len(),
            i <= y@.len(),
            x@ == encode_utf8(a@),
            y@ == encode_utf8(b@),
            lex_le(x@, y@) == lex_le(x@.skip(i as int), y@.skip(i as int)),
        decreases x@.len() - i,
    {
        if x[i] != y[i] {
            assert(x@.skip(i as int)[0] == x@[i as int]);
            assert(y@.skip(i as int)[0] == y@[i as int]);
            return x[i] < y[i];
        }
        assert(x@.skip(i as int).drop_first() =~= x@.skip(i as int + 1));
        assert(y@.skip(i as int).drop_first() =~= y@.skip(i as int + 1));
        i = i + 1;
    }
    i == x.len()
}

/// Tells whether the extension of `path` is `wanted`, byte for byte.
pub fn has_extension(path: &str, wanted: &str) -> (r: bool)
    ensures
        r == (extension(encode_utf8(path@)) == Some(encode_utf8(wanted@))),
{
    let p = path.as_bytes();
    let w = wanted.as_bytes();
    let n = p.len();
    // Walk back from the end to the last dot or separator.
    let mut i: usize = n;
    while i > 0 && p[i - 1] != DOT && !is_separator_byte(p[i - 1])
        invariant
            i <= n,
            n == p@.len(),
            forall|k: int| i <= k < n ==> p@[k] != DOT && !is_separator(#[trigger] p@[k]),
        decreases i,
    {
        i = i - 1;
    }
    proof {
        lemma_name_start(p@);
    }
    let ghost start = name_start(p@);
    let ghost name = file_name(p@);
    // No dot in the name.
    if i == 0 || p[i - 1] != DOT {
        proof {
            lemma_name_start_is(p@, i as int);
            lemma_last_dot_is(name, -1);
        }
        return false;
    }
    let dot: usize = i - 1;
    // The only dot of the name comes first.
    if dot == 0 || is_separator_byte(p[dot - 1]) {
        proof {
            lemma_name_start_is(p@, dot as int);
            lemma_last_dot_is(name, 0);
        }
        return false;
    }
    proof {
        assert(start < dot) by {
            if start > dot {
                assert(is_separator(p@[start - 1]));
            }
        }
        lemma_last_dot_is(name, dot - start);
    }
    // The name is `..`.
    if dot == n - 1 && p[dot - 1] == DOT && (dot == 1 || is_separator_byte(p[dot - 2])) {
        proof {
            lemma_name_start_is(p@, dot - 1);
            assert(name =~= seq![DOT, DOT]);
        }
        return false;
    }
    proof {
        if name == seq![DOT, DOT] {
            assert(name.len() == 2);
            assert(name[0] == DOT && name[1] == DOT);
            assert(p@[start] == name[0]);
            assert(start == dot - 1);
        }
        assert(name.skip(dot - start + 1) =~= p@.skip(dot + 1));
    }
    // The extension starts behind the dot: compare it with what is wanted.
    let from: usize = dot + 1;
    assert(extension(p@) == Some(p@.skip(from as int)));
    if n - from != w.len() {
        return false;
    }
    let mut k: usize = 0;
    while k < w.len()
        invariant
            k <= w@.len(),
            from + w@.len() == n,
            n == p@.len(),
            p@ == encode_utf8(path@),
            w@ == encode_utf8(wanted@),
            extension(p@) == Some(p@.skip(from as int)),
            forall|j: int| 0 <= j < k ==> p@[from + j] == w@[j],
        decreases w@.len() - k,
    {
        if p[from + k] != w[k] {
            assert(p@.skip(from as int)[k as int] != w@[k as int]);
            return false;
        }
        k = k + 1;
    }
    assert(p@.skip(from as int) =~= w@);
    true
}

/// Tells whether the extension of `path` is one of `extensions`.
pub fn has_extension_of(path: &str, extensions: &Vec<String>) -> (r: bool)
    ensures
        r == has_extension_in(path@, extensions.deep_view()),
{
    let mut i: usize = 0;
    while i < extensions.len()
        invariant
            i <= extensions@.len(),
            forall|j: int|
                0 <= j < i ==> extension(encode_utf8(path@)) != Some(
                    encode_utf8(#[trigger] extensions.deep_view()[j]),
                ),
        decreases extensions@.len() - i,
    {
        assert(extensions.deep_view()[i as int] == extensions@[i as int]@);
        if has_extension(path, extensions[i].as_str()) {
            return true;
        }
        i = i + 1;
    }
    assert(extensions.deep_view().len() == extensions@.len());
    false
}

} // verus!
