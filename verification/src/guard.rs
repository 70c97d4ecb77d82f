use crate::segments::{fields, is_separator, lemma_fields_extend, separates, Separators};
use vstd::prelude::*;

verus! {

/// The byte `/`, which separates the components of a path.
pub const SLASH: u8 = 0x2f;

/// The byte `\`, which separates the components of a Windows path.
pub const BACKSLASH: u8 = 0x5c;

/// The byte `.`.
pub const DOT: u8 = 0x2e;

/// The byte `:`, which ends a drive letter.
pub const COLON: u8 = 0x3a;

/// The byte `?`, which marks a verbatim Windows path (`\\?\`).
pub const QUESTION: u8 = 0x3f;

/// The path syntax of the platform that the paths belong to.
#[derive(PartialEq, Eq, Structural, Clone, Copy, Debug)]
pub enum PathStyle {
    /// `/` separates components; there are no prefixes.
    Unix,
    /// `/` and `\` separate components (only `\` in a verbatim path), and a
    /// path may open with a drive, UNC, device or verbatim prefix.
    Windows,
}

/// The end of the component that starts at `i`: the next separator, or the end
/// of `s`.
pub open spec fn component_end(s: Seq<u8>, i: int, seps: Separators) -> int
    decreases s.len() - i,
{
    if i >= s.len() {
        s.len() as int
    } else if is_separator(seps, s[i]) {
        i
    } else {
        component_end(s, i + 1, seps)
    }
}

proof fn lemma_component_end_bounds(s: Seq<u8>, i: int, seps: Separators)
    requires
        0 <= i <= s.len(),
    ensures
        i <= component_end(s, i, seps) <= s.len(),
    decreases s.len() - i,
{
    if i < s.len() && !is_separator(seps, s[i]) {
        lemma_component_end_bounds(s, i + 1, seps);
    }
}

/// An ASCII letter, as a drive letter is.
pub open spec fn is_drive_letter(b: u8) -> bool {
    (0x41 <= b <= 0x5a) || (0x61 <= b <= 0x7a)
}

/// The end of a two-part prefix (server and share) whose server starts at
/// `start`: past the share when there is one, else past the server.
pub open spec fn two_part_end(s: Seq<u8>, start: int, seps: Separators) -> int {
    let server_end = component_end(s, start, seps);
    if server_end < s.len() && component_end(s, server_end + 1, seps) > server_end + 1 {
        component_end(s, server_end + 1, seps)
    } else {
        server_end
    }
}

/// The length of the prefix that opens a Windows path, and the separators of
/// the rest: `\\?\UNC\server\share`, `\\?\C:`, `\\?\name` (verbatim: only
/// `\` separates what follows), `\\.\device`, `\\server\share` (both server
/// and share non-empty), `C:`, or no prefix.
pub open spec fn windows_prefix(s: Seq<u8>) -> (int, Separators) {
    let any = Separators::Either(SLASH, BACKSLASH);
    if s.len() >= 2 && is_separator(any, s[0]) && is_separator(any, s[1]) {
        if s.len() >= 4 && s[0] == BACKSLASH && s[1] == BACKSLASH && s[2] == QUESTION && s[3]
            == BACKSLASH {
            if s.len() >= 8 && s[4] == 0x55 && s[5] == 0x4e && s[6] == 0x43 && is_separator(any, s[7]) {
                (two_part_end(s, 8, Separators::Only(BACKSLASH)), Separators::Only(BACKSLASH))
            } else if s.len() >= 6 && is_drive_letter(s[4]) && s[5] == COLON && (s.len() == 6
                || s[6] == BACKSLASH) {
                (6, Separators::Only(BACKSLASH))
            } else {
                (component_end(s, 4, Separators::Only(BACKSLASH)), Separators::Only(BACKSLASH))
            }
        } else if s.len() >= 4 && s[2] == DOT && is_separator(any, s[3]) {
            (component_end(s, 4, any), any)
        } else {
            let server_end = component_end(s, 2, any);
            if server_end > 2 && server_end < s.len() && component_end(s, server_end + 1, any) > server_end + 1 {
                (component_end(s, server_end + 1, any), any)
            } else {
                (0, any)
            }
        }
    } else if s.len() >= 2 && is_drive_letter(s[0]) && s[1] == COLON {
        (2, any)
    } else {
        (0, any)
    }
}

/// Where the components of `path` start, and what separates them.
pub open spec fn layout(style: PathStyle, path: Seq<u8>) -> (int, Separators) {
    match style {
        PathStyle::Unix => (0, Separators::Only(SLASH)),
        PathStyle::Windows => windows_prefix(path),
    }
}

/// The components of a path: the pieces between the separators of what follows
/// its prefix. The prefix itself names no entry.
pub open spec fn components(style: PathStyle, path: Seq<u8>) -> Seq<Seq<u8>> {
    fields(path.skip(layout(style, path).0), layout(style, path).1)
}

/// A `..` component, which names the parent directory.
pub open spec fn is_parent(seg: Seq<u8>) -> bool {
    seg == seq![DOT, DOT]
}

/// A component that names an entry: neither empty, nor `.`, nor `..`.
pub open spec fn is_normal(seg: Seq<u8>) -> bool {
    &&& seg.len() > 0
    &&& seg != seq![DOT]
    &&& !is_parent(seg)
}

/// Components that must never be deleted: one climbs to a parent directory,
/// or none names an entry.
pub open spec fn refused(segs: Seq<Seq<u8>>) -> bool {
    ||| exists|i: int| 0 <= i < segs.len() && is_parent(#[trigger] segs[i])
    ||| !exists|i: int| 0 <= i < segs.len() && is_normal(#[trigger] segs[i])
}

/// A path that must never be deleted: it climbs to a parent directory
/// somewhere, or it names no entry at all (`/`, `.`, the empty path, `/./`,
/// and on Windows a bare drive or share such as `C:\` or `\\server\share`).
pub open spec fn forbidden(style: PathStyle, path: Seq<u8>) -> bool {
    refused(components(style, path))
}

enum Component {
    Skipped,
    Parent,
    Normal,
}

/// Classifies the component `path[start..end]`.
fn classify(path: &[u8], start: usize, end: usize) -> (c: Component)
    requires
        start <= end <= path@.len(),
    ensures
        c is Parent <==> is_parent(path@.subrange(start as int, end as int)),
        c is Normal <==> is_normal(path@.subrange(start as int, end as int)),
{
    let ghost seg = path@.subrange(start as int, end as int);
    let len: usize = end - start;
    if len == 2 && path[start] == DOT && path[start + 1] == DOT {
        assert(seg =~= seq![DOT, DOT]);
        Component::Parent
    } else if len == 1 && path[start] == DOT {
        assert(seg =~= seq![DOT]);
        Component::Skipped
    } else if len == 0 {
        Component::Skipped
    } else {
        assert(seg.len() == 2 ==> seg[0] == path@[start as int] && seg[1] == path@[start + 1]);
        assert(seg.len() == 1 ==> seg[0] == path@[start as int]);
        Component::Normal
    }
}

/// Whether the components of `body`, split on `seps`, are refused.
fn refuses_components(body: &[u8], seps: Separators) -> (r: bool)
    ensures
        r == refused(fields(body@, seps)),
{
    let ghost s = body@;
    let mut start: usize = 0;
    let mut i: usize = 0;
    let mut has_normal: bool = false;
    assert(s.take(0) =~= Seq::<u8>::empty());
    while i < body.len()
        invariant
            start <= i <= body@.len(),
            s == body@,
            fields(s.take(i as int), seps).len() >= 1,
            fields(s.take(i as int), seps).last() == s.subrange(start as int, i as int),
            forall|k: int|
                0 <= k < fields(s.take(i as int), seps).len() - 1 ==> !is_parent(
                    #[trigger] fields(s.take(i as int), seps)[k],
                ),
            has_normal == exists|k: int|
                0 <= k < fields(s.take(i as int), seps).len() - 1 && is_normal(
                    #[trigger] fields(s.take(i as int), seps)[k],
                ),
        decreases body@.len() - i,
    {
        proof {
            lemma_fields_extend(s, seps, i as int);
        }
        let ghost before = fields(s.take(i as int), seps);
        let ghost after = fields(s.take(i + 1), seps);
        if separates(seps, body[i]) {
            match classify(body, start, i) {
                Component::Parent => {
                    assert(is_parent(after[before.len() - 1]));
                    proof {
                        lemma_prefix_parent(s, seps, i as int + 1, before.len() - 1);
                    }
                    return true;
                },
                Component::Normal => {
                    has_normal = true;
                },
                Component::Skipped => {},
            }
            assert forall|k: int| 0 <= k < after.len() - 1 implies !is_parent(#[trigger] after[k]) by {
                assert(after[k] == if k < before.len() - 1 { before[k] } else { before.last() });
            }
            assert(has_normal == exists|k: int| 0 <= k < after.len() - 1 && is_normal(#[trigger] after[k])) by {
                if has_normal {
                    if !(exists|k: int| 0 <= k < before.len() - 1 && is_normal(#[trigger] before[k])) {
                        assert(is_normal(after[before.len() - 1]));
                    } else {
                        let k = choose|k: int| 0 <= k < before.len() - 1 && is_normal(#[trigger] before[k]);
                        assert(is_normal(after[k]));
                    }
                } else {
                    assert forall|k: int| 0 <= k < after.len() - 1 implies !is_normal(#[trigger] after[k]) by {
                        assert(after[k] == if k < before.len() - 1 { before[k] } else { before.last() });
                    }
                }
            }
            start = i + 1;
            assert(s.subrange(start as int, i + 1) =~= Seq::<u8>::empty());
        } else {
            assert(s.subrange(start as int, i + 1) =~= s.subrange(start as int, i as int).push(s[i as int]));
            assert forall|k: int| 0 <= k < after.len() - 1 implies after[k] == before[k] by {}
        }
        i = i + 1;
    }
    assert(s.take(s.len() as int) =~= s);
    let ghost segs = fields(s, seps);
    assert(fields(s.take(i as int), seps) == segs);
    assert(segs.last() == s.subrange(start as int, body.len() as int));
    match classify(body, start, body.len()) {
        Component::Parent => {
            assert(is_parent(segs[segs.len() - 1]));
            true
        },
        Component::Normal => {
            assert(is_normal(segs[segs.len() - 1]));
            assert(!exists|k: int| 0 <= k < segs.len() && is_parent(#[trigger] segs[k]));
            false
        },
        Component::Skipped => {
            assert(!exists|k: int| 0 <= k < segs.len() && is_parent(#[trigger] segs[k]));
            assert(has_normal == exists|k: int| 0 <= k < segs.len() && is_normal(#[trigger] segs[k]));
            !has_normal
        },
    }
}

fn component_end_at(path: &[u8], start: usize, seps: Separators) -> (e: usize)
    requires
        start <= path@.len(),
    ensures
        e == component_end(path@, start as int, seps),
        start <= e <= path@.len(),
{
    let mut i: usize = start;
    proof {
        lemma_component_end_bounds(path@, start as int, seps);
    }
    while i < path.len() && !separates(seps, path[i])
        invariant
            start <= i <= path@.len(),
            component_end(path@, i as int, seps) == component_end(path@, start as int, seps),
        decreases path@.len() - i,
    {
        i = i + 1;
    }
    i
}

fn two_part_end_at(path: &[u8], start: usize, seps: Separators) -> (e: usize)
    requires
        start <= path@.len(),
    ensures
        e == two_part_end(path@, start as int, seps),
        e <= path@.len(),
{
    let server_end = component_end_at(path, start, seps);
    if server_end < path.len() {
        let share_end = component_end_at(path, server_end + 1, seps);
        if share_end > server_end + 1 {
            return share_end;
        }
    }
    server_end
}

fn drive_letter(b: u8) -> (r: bool)
    ensures
        r == is_drive_letter(b),
{
    (0x41 <= b && b <= 0x5a) || (0x61 <= b && b <= 0x7a)
}

/// The prefix of a Windows path: its length and the separators of the rest.
fn windows_prefix_of(path: &[u8]) -> (r: (usize, Separators))
    ensures
        r.0 == windows_prefix(path@).0,
        r.1 == windows_prefix(path@).1,
        r.0 <= path@.len(),
{
    let n: usize = path.len();
    let any = Separators::Either(SLASH, BACKSLASH);
    if n >= 2 && separates(any, path[0]) && separates(any, path[1]) {
        if n >= 4 && path[0] == BACKSLASH && path[1] == BACKSLASH && path[2] == QUESTION && path[3]
            == BACKSLASH {
            if n >= 8 && path[4] == 0x55 && path[5] == 0x4e && path[6] == 0x43 && separates(any, path[7]) {
                (two_part_end_at(path, 8, Separators::Only(BACKSLASH)), Separators::Only(BACKSLASH))
            } else if n >= 6 && drive_letter(path[4]) && path[5] == COLON && (n == 6 || path[6]
                == BACKSLASH) {
                (6, Separators::Only(BACKSLASH))
            } else {
                (component_end_at(path, 4, Separators::Only(BACKSLASH)), Separators::Only(BACKSLASH))
            }
        } else if n >= 4 && path[2] == DOT && separates(any, path[3]) {
            (component_end_at(path, 4, any), any)
        } else {
            let server_end = component_end_at(path, 2, any);
            if server_end > 2 && server_end < n {
                let share_end = component_end_at(path, server_end + 1, any);
                if share_end > server_end + 1 {
                    return (share_end, any);
                }
            }
            (0, any)
        }
    } else if n >= 2 && drive_letter(path[0]) && path[1] == COLON {
        (2, any)
    } else {
        (0, any)
    }
}

/// Whether `path`, written in the syntax of `style`, is refused for deletion:
/// it holds a `..` component, or no component after its prefix names an
/// entry, as `/`, `.`, `/./`, `C:\` and `\\server\share` do not.
pub fn is_forbidden(path: &[u8], style: PathStyle) -> (r: bool)
    ensures
        r == forbidden(style, path@),
{
    let (start, seps) = match style {
        PathStyle::Unix => (0, Separators::Only(SLASH)),
        PathStyle::Windows => windows_prefix_of(path),
    };
    let body = &path[start..path.len()];
    assert(body@ =~= path@.skip(start as int));
    refuses_components(body, seps)
}

/// Any path with a `..` component is refused, wherever the component stands.
pub proof fn lemma_parent_component_forbidden(style: PathStyle, path: Seq<u8>, i: int)
    requires
        0 <= i < components(style, path).len(),
        is_parent(components(style, path)[i]),
    ensures
        forbidden(style, path),
{
}

/// A `..` found among the closed components of a prefix stays a component of
/// the whole.
proof fn lemma_prefix_parent(s: Seq<u8>, seps: Separators, n: int, k: int)
    requires
        0 <= n <= s.len(),
        0 <= k < fields(s.take(n), seps).len() - 1,
        is_parent(fields(s.take(n), seps)[k]),
    ensures
        exists|j: int|
            0 <= j < fields(s, seps).len() && is_parent(
                #[trigger] fields(s, seps)[j],
            ),
    decreases s.len() - n,
{
    if n == s.len() {
        assert(s.take(n) =~= s);
        assert(is_parent(fields(s, seps)[k]));
    } else {
        lemma_fields_extend(s, seps, n);
        let before = fields(s.take(n), seps);
        let after = fields(s.take(n + 1), seps);
        assert(after[k] == before[k]);
        lemma_prefix_parent(s, seps, n + 1, k);
    }
}


/// A Windows path that opens with neither a separator nor a drive letter and
/// a colon has no prefix: it is refused exactly when one of its pieces between
/// `/` and `\` is `..`, or none names an entry.
pub proof fn lemma_windows_relative(s: Seq<u8>)
    requires
        s.len() > 0 ==> s[0] != 0x2f && s[0] != 0x5c,
        s.len() >= 2 ==> !((0x41 <= s[0] <= 0x5a || 0x61 <= s[0] <= 0x7a) && s[1] == 0x3a),
    ensures
        forbidden(PathStyle::Windows, s) == refused(fields(s, Separators::Either(0x2f, 0x5c))),
{
    assert(s.skip(0) =~= s);
}

/// A drive prefix is the letter and the colon and nothing more: what follows
/// is read as components, whether or not it opens with a separator.
pub proof fn lemma_windows_drive(d: u8, rest: Seq<u8>)
    requires
        0x41 <= d <= 0x5a || 0x61 <= d <= 0x7a,
    ensures
        forbidden(PathStyle::Windows, seq![d, 0x3au8] + rest) == refused(
            fields(rest, Separators::Either(0x2f, 0x5c)),
        ),
{
    let s = seq![d, 0x3au8] + rest;
    assert(s[0] == d && s[1] == COLON);
    assert(s.skip(2) =~= rest);
}

proof fn lemma_fields_without_backslash(s: Seq<u8>)
    requires
        !s.contains(BACKSLASH),
    ensures
        fields(s, Separators::Either(SLASH, BACKSLASH)) == fields(s, Separators::Only(SLASH)),
    decreases s.len(),
{
    if s.len() > 0 {
        assert(!s.drop_last().contains(BACKSLASH)) by {
            if s.drop_last().contains(BACKSLASH) {
                let k = choose|k: int| 0 <= k < s.drop_last().len() && s.drop_last()[k] == BACKSLASH;
                assert(s[k] == BACKSLASH);
            }
        }
        assert(s.last() != BACKSLASH) by {
            assert(s[s.len() - 1] == s.last());
        }
        lemma_fields_without_backslash(s.drop_last());
    }
}

/// A relative path written with `/` alone, and not opening with a drive, is
/// refused on Windows exactly when it is refused on Unix.
pub proof fn lemma_windows_agrees_with_unix(s: Seq<u8>)
    requires
        !s.contains(0x5cu8),
        s.len() > 0 ==> s[0] != 0x2f,
        s.len() >= 2 ==> !((0x41 <= s[0] <= 0x5a || 0x61 <= s[0] <= 0x7a) && s[1] == 0x3a),
    ensures
        forbidden(PathStyle::Windows, s) == forbidden(PathStyle::Unix, s),
{
    lemma_windows_relative(s);
    lemma_fields_without_backslash(s);
    if s.len() > 0 {
        assert(s[0] != BACKSLASH) by {
            if s[0] == BACKSLASH {
                assert(s.contains(BACKSLASH));
            }
        }
    }
    assert(s.skip(0) =~= s);
}

/// A path is refused when one of its components is `..`, and allowed when
/// none is and one of them names an entry.
pub proof fn lemma_refusal_rule(style: PathStyle, s: Seq<u8>)
    ensures
        (exists|i: int|
            0 <= i < components(style, s).len() && #[trigger] components(style, s)[i] == seq![0x2eu8, 0x2e]) ==> forbidden(style, s),
        (forall|i: int|
            0 <= i < components(style, s).len() ==> #[trigger] components(style, s)[i] != seq![0x2eu8, 0x2e]) && (exists|i: int|
            0 <= i < components(style, s).len() && (#[trigger] components(style, s)[i]).len() > 0
                && components(style, s)[i] != seq![0x2eu8]) ==> !forbidden(style, s),
{
    let segs = components(style, s);
    if exists|i: int| 0 <= i < segs.len() && #[trigger] segs[i] == seq![DOT, DOT] {
        let i = choose|i: int| 0 <= i < segs.len() && #[trigger] segs[i] == seq![DOT, DOT];
        assert(is_parent(segs[i]));
    }
    if (forall|i: int| 0 <= i < segs.len() ==> #[trigger] segs[i] != seq![DOT, DOT]) && (exists|
        i: int,
    | 0 <= i < segs.len() && (#[trigger] segs[i]).len() > 0 && segs[i] != seq![DOT]) {
        let i = choose|i: int| 0 <= i < segs.len() && (#[trigger] segs[i]).len() > 0 && segs[i] != seq![DOT];
        assert(is_normal(segs[i]));
        assert forall|k: int| 0 <= k < segs.len() implies !is_parent(#[trigger] segs[k]) by {
            assert(segs[k] != seq![DOT, DOT]);
        }
    }
}

} // verus!
