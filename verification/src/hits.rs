use crate::segments::{
    fields, lemma_fields_extend, lemma_fields_exclude_sep, lemma_fields_len, Separators,
};
use vstd::prelude::*;

verus! {

/// The escape byte that opens a terminal control sequence.
pub const ESC: u8 = 0x1b;

/// The byte `[`, which follows the escape byte in a control sequence.
pub const LBRACKET: u8 = 0x5b;

/// The byte NUL; when a list holds one, the list is NUL-separated.
pub const NUL: u8 = 0x00;

/// The byte `\n`.
pub const NEWLINE: u8 = 0x0a;

/// The byte `\r`.
pub const CR: u8 = 0x0d;

/// A byte that ends a control sequence: `@` through `~`.
pub open spec fn is_final_byte(b: u8) -> bool {
    0x40 <= b <= 0x7e
}

/// Whether a control sequence (escape, then `[`) opens at `i`.
pub open spec fn opens_sequence(s: Seq<u8>, i: int) -> bool {
    0 <= i && i + 1 < s.len() && s[i] == ESC && s[i + 1] == LBRACKET
}

/// The index just past the control sequence whose body starts at `j`: past its
/// first final byte, or the end of the input when no final byte follows.
pub open spec fn sequence_end(s: Seq<u8>, j: int) -> int
    decreases s.len() - j,
{
    if j >= s.len() {
        s.len() as int
    } else if is_final_byte(s[j]) {
        j + 1
    } else {
        sequence_end(s, j + 1)
    }
}

/// A control sequence whose body starts inside the input ends after it starts
/// and no later than the end of the input.
pub proof fn lemma_sequence_end_bounds(s: Seq<u8>, j: int)
    requires
        0 <= j <= s.len(),
    ensures
        j <= sequence_end(s, j) <= s.len(),
        j < s.len() ==> j < sequence_end(s, j),
    decreases s.len() - j,
{
    if j < s.len() && !is_final_byte(s[j]) {
        lemma_sequence_end_bounds(s, j + 1);
    }
}

/// `s[i..]` with every control sequence (escape, `[`, parameters, final byte)
/// taken out; a sequence cut off by the end of the input is taken out too.
pub open spec fn strip_from(s: Seq<u8>, i: int) -> Seq<u8>
    decreases s.len() - i,
{
    if i < 0 || i >= s.len() {
        Seq::<u8>::empty()
    } else if opens_sequence(s, i) {
        proof {
            lemma_sequence_end_bounds(s, i + 2);
        }
        strip_from(s, sequence_end(s, i + 2))
    } else {
        seq![s[i]] + strip_from(s, i + 1)
    }
}

/// `s` with its terminal colour and style codes taken out.
pub open spec fn stripped(s: Seq<u8>) -> Seq<u8> {
    strip_from(s, 0)
}

/// Removes terminal control sequences (`ESC [ ... final`) from `bytes`, keeping
/// every other byte in order.
pub fn strip_ansi(bytes: &[u8]) -> (out: Vec<u8>)
    ensures
        out@ == stripped(bytes@),
{
    let ghost s = bytes@;
    let mut out: Vec<u8> = Vec::new();
    let mut i: usize = 0;
    while i < bytes.len()
        invariant
            s == bytes@,
            i <= bytes@.len(),
            out@ + strip_from(s, i as int) == stripped(s),
        decreases bytes@.len() - i,
    {
        if bytes[i] == ESC && i + 1 < bytes.len() && bytes[i + 1] == LBRACKET {
            let ghost at = i as int;
            i = i + 2;
            while i < bytes.len() && !(bytes[i] >= 0x40 && bytes[i] <= 0x7e)
                invariant
                    s == bytes@,
                    at + 2 <= i <= bytes@.len(),
                    sequence_end(s, i as int) == sequence_end(s, at + 2),
                decreases bytes@.len() - i,
            {
                i = i + 1;
            }
            if i < bytes.len() {
                i = i + 1;
            }
            assert(strip_from(s, at) == strip_from(s, i as int));
        } else {
            let ghost before = out@;
            assert(strip_from(s, i as int) == seq![s[i as int]] + strip_from(s, i + 1));
            out.push(bytes[i]);
            assert(before + strip_from(s, i as int) =~= out@ + strip_from(s, i + 1));
            i = i + 1;
        }
    }
    assert(out@ + strip_from(s, i as int) =~= out@);
    out
}

/// `line` without one trailing carriage return, if it ends with one.
pub open spec fn trim_cr(line: Seq<u8>) -> Seq<u8> {
    if line.len() > 0 && line.last() == CR {
        line.drop_last()
    } else {
        line
    }
}

/// Drops one trailing `\r`, so that lists written with CRLF line ends read the
/// same as lists written with LF.
pub fn trim_path_bytes(raw: &[u8]) -> (line: &[u8])
    ensures
        line@ == trim_cr(raw@),
{
    let n: usize = raw.len();
    if n > 0 && raw[n - 1] == CR {
        let line = &raw[0..n - 1];
        assert(line@ =~= raw@.drop_last());
        line
    } else {
        raw
    }
}

/// The separator of a cleaned list: NUL where the list holds one, else newline.
pub open spec fn separator(cleaned: Seq<u8>) -> u8 {
    if cleaned.contains(NUL) {
        NUL
    } else {
        NEWLINE
    }
}

/// The paths that a list of hits names: the list is cleaned of terminal codes,
/// split on its separator, each piece loses one trailing `\r`, and empty pieces
/// are dropped.
pub open spec fn hit_paths(bytes: Seq<u8>) -> Seq<Seq<u8>> {
    let cleaned = stripped(bytes);
    fields(cleaned, Separators::Only(separator(cleaned))).map_values(|p: Seq<u8>| trim_cr(p)).filter(
        |p: Seq<u8>| p.len() > 0,
    )
}

fn contains_byte(bytes: &[u8], b: u8) -> (r: bool)
    ensures
        r == bytes@.contains(b),
{
    let mut i: usize = 0;
    while i < bytes.len()
        invariant
            i <= bytes@.len(),
            forall|k: int| 0 <= k < i ==> bytes@[k] != b,
        decreases bytes@.len() - i,
    {
        if bytes[i] == b {
            return true;
        }
        i = i + 1;
    }
    false
}

proof fn lemma_keep_step(done: Seq<Seq<u8>>, piece: Seq<u8>)
    ensures
        done.push(piece).map_values(|p: Seq<u8>| trim_cr(p)).filter(|p: Seq<u8>| p.len() > 0)
            == if trim_cr(piece).len() > 0 {
            done.map_values(|p: Seq<u8>| trim_cr(p)).filter(|p: Seq<u8>| p.len() > 0).push(
                trim_cr(piece),
            )
        } else {
            done.map_values(|p: Seq<u8>| trim_cr(p)).filter(|p: Seq<u8>| p.len() > 0)
        },
{
    let mapped = done.push(piece).map_values(|p: Seq<u8>| trim_cr(p));
    assert(mapped.drop_last() =~= done.map_values(|p: Seq<u8>| trim_cr(p)));
    assert(mapped.last() == trim_cr(piece));
    reveal_with_fuel(Seq::filter, 1);
}

/// Reads a list of hits: one path per line, or per NUL where the list holds a
/// NUL; terminal colour codes, a trailing `\r` and empty lines are dropped.
/// Each path comes back as its bytes.
pub fn parse_paths(bytes: &[u8]) -> (paths: Vec<Vec<u8>>)
    ensures
        paths.deep_view() == hit_paths(bytes@),
{
    let cleaned = strip_ansi(bytes);
    let ghost c = cleaned@;
    let sep: u8 = if contains_byte(cleaned.as_slice(), NUL) {
        NUL
    } else {
        NEWLINE
    };
    assert(sep == separator(c));
    let mut paths: Vec<Vec<u8>> = Vec::new();
    let mut start: usize = 0;
    let mut i: usize = 0;
    assert(c.take(0) =~= Seq::<u8>::empty());
    assert(fields(c.take(0), Separators::Only(sep)).drop_last() =~= Seq::<Seq<u8>>::empty());
    assert(paths.deep_view() =~= Seq::<Seq<u8>>::empty().map_values(|p: Seq<u8>| trim_cr(p)).filter(
        |p: Seq<u8>| p.len() > 0,
    )) by {
        reveal_with_fuel(Seq::filter, 1);
    }
    while i < cleaned.len()
        invariant
            c == cleaned@,
            start <= i <= c.len(),
            fields(c.take(i as int), Separators::Only(sep)).len() >= 1,
            fields(c.take(i as int), Separators::Only(sep)).last() == c.subrange(start as int, i as int),
            paths.deep_view() == fields(c.take(i as int), Separators::Only(sep)).drop_last().map_values(
                |p: Seq<u8>| trim_cr(p),
            ).filter(|p: Seq<u8>| p.len() > 0),
        decreases c.len() - i,
    {
        proof {
            lemma_fields_extend(c, Separators::Only(sep), i as int);
        }
        let ghost before = fields(c.take(i as int), Separators::Only(sep));
        let ghost after = fields(c.take(i + 1), Separators::Only(sep));
        if cleaned[i] == sep {
            let line = trim_path_bytes(&cleaned.as_slice()[start..i]);
            proof {
                lemma_keep_step(before.drop_last(), before.last());
                assert(before.drop_last().push(before.last()) =~= before);
                assert(after.drop_last() =~= before);
            }
            if line.len() > 0 {
                let ghost old_paths = paths.deep_view();
                let owned = vstd::slice::slice_to_vec(line);
                assert(owned.deep_view() =~= line@);
                paths.push(owned);
                assert(paths.deep_view() =~= old_paths.push(line@));
            }
            start = i + 1;
            assert(c.subrange(start as int, i + 1) =~= Seq::<u8>::empty());
        } else {
            assert(c.subrange(start as int, i + 1) =~= c.subrange(start as int, i as int).push(
                c[i as int],
            ));
            assert(after.drop_last() =~= before.drop_last());
        }
        i = i + 1;
    }
    assert(c.take(c.len() as int) =~= c);
    let ghost all = fields(c, Separators::Only(sep));
    let line = trim_path_bytes(&cleaned.as_slice()[start..cleaned.len()]);
    proof {
        lemma_keep_step(all.drop_last(), all.last());
        assert(all.drop_last().push(all.last()) =~= all);
    }
    if line.len() > 0 {
        let ghost old_paths = paths.deep_view();
        let owned = vstd::slice::slice_to_vec(line);
        assert(owned.deep_view() =~= line@);
        paths.push(owned);
        assert(paths.deep_view() =~= old_paths.push(line@));
    }
    paths
}

/// Every path read from a list is non-empty.
pub proof fn lemma_paths_nonempty(bytes: Seq<u8>)
    ensures
        forall|i: int| 0 <= i < hit_paths(bytes).len() ==> #[trigger] hit_paths(bytes)[i].len() > 0,
{
    let cleaned = stripped(bytes);
    let mapped = fields(cleaned, Separators::Only(separator(cleaned))).map_values(|p: Seq<u8>| trim_cr(p));
    let keep = |p: Seq<u8>| p.len() > 0;
    assert forall|i: int| 0 <= i < hit_paths(bytes).len() implies #[trigger] hit_paths(bytes)[i].len() > 0 by {
        mapped.lemma_filter_pred(keep, i);
    }
}

/// No path read from a list holds the byte that separates the list.
pub proof fn lemma_paths_exclude_separator(bytes: Seq<u8>)
    ensures
        forall|i: int|
            0 <= i < hit_paths(bytes).len() ==> !(#[trigger] hit_paths(bytes)[i]).contains(
                separator(stripped(bytes)),
            ),
{
    let cleaned = stripped(bytes);
    let sep = separator(cleaned);
    let pieces = fields(cleaned, Separators::Only(sep));
    let mapped = pieces.map_values(|p: Seq<u8>| trim_cr(p));
    let keep = |p: Seq<u8>| p.len() > 0;
    lemma_fields_exclude_sep(cleaned, Separators::Only(sep));
    assert forall|i: int| 0 <= i < hit_paths(bytes).len() implies !(#[trigger] hit_paths(
        bytes,
    )[i]).contains(sep) by {
        let path = hit_paths(bytes)[i];
        assert(mapped.filter(keep).contains(path));
        mapped.lemma_filter_contains_rev(keep, path);
        let k = choose|k: int| 0 <= k < mapped.len() && mapped[k] == path;
        let piece = pieces[k];
        assert(path == trim_cr(piece));
        if path.contains(sep) {
            let j = choose|j: int| 0 <= j < path.len() && path[j] == sep;
            assert(piece[j] == sep);
        }
    }
}

/// A list without escape bytes is not changed by stripping terminal codes.
pub proof fn lemma_plain_text_kept(s: Seq<u8>)
    requires
        !s.contains(ESC),
    ensures
        stripped(s) == s,
{
    lemma_strip_plain_from(s, 0);
    assert(s.skip(0) =~= s);
}

proof fn lemma_strip_plain_from(s: Seq<u8>, i: int)
    requires
        !s.contains(ESC),
        0 <= i <= s.len(),
    ensures
        strip_from(s, i) == s.skip(i),
    decreases s.len() - i,
{
    if i < s.len() {
        assert(s[i] != ESC);
        lemma_strip_plain_from(s, i + 1);
        assert(s.skip(i) =~= seq![s[i]] + s.skip(i + 1));
    } else {
        assert(s.skip(i) =~= Seq::<u8>::empty());
    }
}

/// The text of a list of paths written one after another, each followed by
/// `sep`.
pub open spec fn listing(paths: Seq<Seq<u8>>, sep: u8) -> Seq<u8>
    decreases paths.len(),
{
    if paths.len() == 0 {
        Seq::<u8>::empty()
    } else {
        listing(paths.drop_last(), sep) + paths.last() + seq![sep]
    }
}

/// A path that a list can carry with separator `sep` and be read back
/// unchanged: it is not empty, holds no escape byte, no NUL and no `sep`, and
/// does not end with `\r`.
pub open spec fn listable(path: Seq<u8>, sep: u8) -> bool {
    &&& path.len() > 0
    &&& !path.contains(ESC)
    &&& !path.contains(NUL)
    &&& !path.contains(sep)
    &&& path.last() != CR
}

proof fn lemma_fields_append_plain(s: Seq<u8>, p: Seq<u8>, sep: u8)
    requires
        !p.contains(sep),
    ensures
        fields(s, Separators::Only(sep)).len() >= 1,
        fields(s + p, Separators::Only(sep)) == fields(s, Separators::Only(sep)).update(
            fields(s, Separators::Only(sep)).len() - 1,
            fields(s, Separators::Only(sep)).last() + p,
        ),
    decreases p.len(),
{
    lemma_fields_len(s, Separators::Only(sep));
    let f = fields(s, Separators::Only(sep));
    if p.len() == 0 {
        assert(s + p =~= s);
        assert(f.update(f.len() - 1, f.last() + p) =~= f);
    } else {
        let pd = p.drop_last();
        assert(!pd.contains(sep)) by {
            if pd.contains(sep) {
                let k = choose|k: int| 0 <= k < pd.len() && pd[k] == sep;
                assert(p[k] == sep);
            }
        }
        lemma_fields_append_plain(s, pd, sep);
        assert((s + p).drop_last() =~= s + pd);
        assert((s + p).last() == p.last());
        assert(p.last() != sep) by {
            assert(p[p.len() - 1] == p.last());
        }
        let g = fields(s + pd, Separators::Only(sep));
        assert(g.len() == f.len());
        assert(g.last() == f.last() + pd);
        assert((f.last() + pd).push(p.last()) =~= f.last() + p);
        assert(g.update(g.len() - 1, g.last().push(p.last())) =~= f.update(
            f.len() - 1,
            f.last() + p,
        ));
    }
}

proof fn lemma_listing_fields(paths: Seq<Seq<u8>>, sep: u8)
    requires
        forall|i: int| 0 <= i < paths.len() ==> !(#[trigger] paths[i]).contains(sep),
    ensures
        fields(listing(paths, sep), Separators::Only(sep)) == paths.push(Seq::<u8>::empty()),
    decreases paths.len(),
{
    if paths.len() == 0 {
        assert(fields(Seq::<u8>::empty(), Separators::Only(sep)) =~= seq![Seq::<u8>::empty()]);
        assert(paths.push(Seq::<u8>::empty()) =~= seq![Seq::<u8>::empty()]);
    } else {
        let dl = paths.drop_last();
        assert forall|i: int| 0 <= i < dl.len() implies !(#[trigger] dl[i]).contains(sep) by {
            assert(dl[i] == paths[i]);
        }
        lemma_listing_fields(dl, sep);
        let body = listing(dl, sep) + paths.last();
        assert(!paths.last().contains(sep)) by {
            assert(paths[paths.len() - 1] == paths.last());
        }
        lemma_fields_append_plain(listing(dl, sep), paths.last(), sep);
        let whole = listing(paths, sep);
        assert(whole =~= body.push(sep));
        assert(whole.drop_last() =~= body);
        assert(fields(body, Separators::Only(sep)) =~= dl.push(paths.last())) by {
            assert(Seq::<u8>::empty() + paths.last() =~= paths.last());
        }
        assert(dl.push(paths.last()) =~= paths);
    }
}

proof fn lemma_all_kept(paths: Seq<Seq<u8>>)
    requires
        forall|i: int| 0 <= i < paths.len() ==> (#[trigger] paths[i]).len() > 0,
    ensures
        paths.filter(|p: Seq<u8>| p.len() > 0) == paths,
    decreases paths.len(),
{
    reveal_with_fuel(Seq::filter, 1);
    if paths.len() > 0 {
        let dl = paths.drop_last();
        assert forall|i: int| 0 <= i < dl.len() implies (#[trigger] dl[i]).len() > 0 by {
            assert(dl[i] == paths[i]);
        }
        lemma_all_kept(dl);
        assert(paths[paths.len() - 1] == paths.last());
        assert(dl.push(paths.last()) =~= paths);
    }
}

/// Writing paths one per line (or one per NUL) and reading the list back gives
/// the same paths, in the same order, for every path that such a list can
/// carry.
pub proof fn lemma_listing_read_back(paths: Seq<Seq<u8>>, sep: u8)
    requires
        sep == NEWLINE || sep == NUL,
        forall|i: int| 0 <= i < paths.len() ==> listable(#[trigger] paths[i], sep),
    ensures
        hit_paths(listing(paths, sep)) == paths,
{
    let text = listing(paths, sep);
    lemma_listing_bytes(paths, sep);
    lemma_plain_text_kept(text);
    if paths.len() == 0 {
        let f = fields(text, Separators::Only(separator(text)));
        assert(text =~= Seq::<u8>::empty());
        assert(f =~= seq![Seq::<u8>::empty()]);
        let mapped = f.map_values(|p: Seq<u8>| trim_cr(p));
        assert(mapped =~= seq![Seq::<u8>::empty()]);
        reveal_with_fuel(Seq::filter, 2);
        assert(mapped.drop_last() =~= Seq::<Seq<u8>>::empty());
        assert(hit_paths(text) =~= paths);
    } else {
        assert(separator(text) == sep) by {
            if sep == NUL {
                assert(text[text.len() - 1] == NUL);
            }
        }
        assert forall|i: int| 0 <= i < paths.len() implies !(#[trigger] paths[i]).contains(sep) by {
            assert(listable(paths[i], sep));
        }
        lemma_listing_fields(paths, sep);
        let f = paths.push(Seq::<u8>::empty());
        let mapped = f.map_values(|p: Seq<u8>| trim_cr(p));
        assert forall|i: int| 0 <= i < paths.len() implies trim_cr(#[trigger] paths[i]) == paths[i] by {
            assert(listable(paths[i], sep));
        }
        assert(mapped =~= f);
        reveal_with_fuel(Seq::filter, 1);
        assert(f.drop_last() =~= paths);
        assert forall|i: int| 0 <= i < paths.len() implies (#[trigger] paths[i]).len() > 0 by {
            assert(listable(paths[i], sep));
        }
        lemma_all_kept(paths);
    }
}

/// The bytes of a listing: the bytes of its paths and its separators, so no
/// escape byte, and a NUL only where the separator is NUL.
proof fn lemma_listing_bytes(paths: Seq<Seq<u8>>, sep: u8)
    requires
        sep == NEWLINE || sep == NUL,
        forall|i: int| 0 <= i < paths.len() ==> listable(#[trigger] paths[i], sep),
    ensures
        !listing(paths, sep).contains(ESC),
        sep == NEWLINE ==> !listing(paths, sep).contains(NUL),
        listing(paths, sep).len() == 0 <==> paths.len() == 0,
        paths.len() > 0 ==> listing(paths, sep).last() == sep,
    decreases paths.len(),
{
    if paths.len() > 0 {
        let dl = paths.drop_last();
        assert forall|i: int| 0 <= i < dl.len() implies listable(#[trigger] dl[i], sep) by {
            assert(dl[i] == paths[i]);
        }
        lemma_listing_bytes(dl, sep);
        let last = paths.last();
        assert(listable(paths[paths.len() - 1], sep));
        let text = listing(paths, sep);
        let head = listing(dl, sep);
        assert(text =~= head + last + seq![sep]);
        assert forall|b: u8| (b == ESC || (sep == NEWLINE && b == NUL)) implies !text.contains(b) by {
            if text.contains(b) {
                let k = choose|k: int| 0 <= k < text.len() && text[k] == b;
                if k < head.len() {
                    assert(head[k] == b);
                } else if k < head.len() + last.len() {
                    assert(last[k - head.len()] == b);
                }
            }
        }
    }
}


proof fn lemma_sequence_end_shift(pre: Seq<u8>, t: Seq<u8>, j: int)
    requires
        0 <= j <= t.len(),
    ensures
        sequence_end(pre + t, pre.len() + j) == pre.len() + sequence_end(t, j),
    decreases t.len() - j,
{
    let s = pre + t;
    if j < t.len() {
        assert(s[pre.len() + j] == t[j]);
        if !is_final_byte(t[j]) {
            lemma_sequence_end_shift(pre, t, j + 1);
        }
    }
}

proof fn lemma_strip_shift(pre: Seq<u8>, t: Seq<u8>, i: int)
    requires
        0 <= i <= t.len(),
    ensures
        strip_from(pre + t, pre.len() + i) == strip_from(t, i),
    decreases t.len() - i,
{
    let s = pre + t;
    let k = pre.len() + i;
    if i < t.len() {
        assert(s[k] == t[i]);
        if i + 1 < t.len() {
            assert(s[k + 1] == t[i + 1]);
        }
        assert(opens_sequence(s, k) == opens_sequence(t, i));
        if opens_sequence(t, i) {
            lemma_sequence_end_bounds(t, i + 2);
            lemma_sequence_end_shift(pre, t, i + 2);
            lemma_strip_shift(pre, t, sequence_end(t, i + 2));
        } else {
            lemma_strip_shift(pre, t, i + 1);
        }
    }
}

proof fn lemma_sequence_end_at(s: Seq<u8>, j: int, m: int)
    requires
        0 <= j <= m < s.len(),
        is_final_byte(s[m]),
        forall|k: int| j <= k < m ==> !is_final_byte(#[trigger] s[k]),
    ensures
        sequence_end(s, j) == m + 1,
    decreases m - j,
{
    if j < m {
        lemma_sequence_end_at(s, j + 1, m);
    }
}

/// A control sequence runs from `ESC [` through its first final byte, with
/// any number of parameter bytes before it, and everything after it is read
/// as if the sequence were not there.
pub proof fn lemma_sequence_removed(params: Seq<u8>, f: u8, t: Seq<u8>)
    requires
        0x40 <= f <= 0x7e,
        forall|k: int| 0 <= k < params.len() ==> !(0x40 <= #[trigger] params[k] <= 0x7e),
    ensures
        stripped(seq![0x1bu8, 0x5bu8] + params + seq![f] + t) == stripped(t),
{
    let head = seq![0x1bu8, 0x5bu8] + params + seq![f];
    let s = head + t;
    let m: int = params.len() as int + 2;
    assert(s[0] == ESC && s[1] == LBRACKET);
    assert(s[m] == f);
    assert forall|k: int| 2 <= k < m implies !is_final_byte(#[trigger] s[k]) by {
        assert(s[k] == params[k - 2]);
    }
    lemma_sequence_end_at(s, 2, m);
    assert(head.len() == m + 1);
    lemma_strip_shift(head, t, 0);
}

/// The shortest sequence, `ESC [` and a final byte (as the reset `ESC [ m`),
/// is removed and nothing after it.
pub proof fn lemma_bare_sequence_removed(f: u8, t: Seq<u8>)
    requires
        0x40 <= f <= 0x7e,
    ensures
        stripped(seq![0x1bu8, 0x5bu8, f] + t) == stripped(t),
        hit_paths(seq![0x1bu8, 0x5bu8, f] + t) == hit_paths(t),
{
    lemma_sequence_removed(Seq::<u8>::empty(), f, t);
    assert(seq![0x1bu8, 0x5bu8] + Seq::<u8>::empty() + seq![f] =~= seq![0x1bu8, 0x5bu8, f]);
}

/// A byte that does not open a control sequence is kept, and the rest is
/// read on its own: any byte other than the escape byte, and an escape byte
/// that `[` does not follow.
pub proof fn lemma_byte_kept(b: u8, t: Seq<u8>)
    requires
        b != 0x1b || t.len() == 0 || t[0] != 0x5b,
    ensures
        stripped(seq![b] + t) == seq![b] + stripped(t),
{
    let s = seq![b] + t;
    assert(s[0] == b);
    if t.len() > 0 {
        assert(s[1] == t[0]);
    }
    assert(!opens_sequence(s, 0));
    lemma_strip_shift(seq![b], t, 0);
}

/// Exactly one carriage return is dropped at the end of a line: a line that
/// ends with `\r\n` reads as the line without that `\r`, even when what is
/// left ends with another `\r`.
pub proof fn lemma_one_cr_dropped(p: Seq<u8>)
    requires
        p.len() > 0,
        !p.contains(0x1bu8),
        !p.contains(0x00u8),
        !p.contains(0x0au8),
    ensures
        hit_paths(p + seq![0x0du8, 0x0au8]) == seq![p],
{
    let line = p.push(CR);
    let text = p + seq![CR, NEWLINE];
    assert(text =~= line.push(NEWLINE));
    assert(!text.contains(ESC) && !text.contains(NUL)) by {
        if text.contains(ESC) || text.contains(NUL) {
            let k = choose|k: int| 0 <= k < text.len() && (text[k] == ESC || text[k] == NUL);
            if k < p.len() {
                assert(p[k] == text[k]);
            }
        }
    }
    lemma_plain_text_kept(text);
    assert(separator(text) == NEWLINE);
    let seps = Separators::Only(NEWLINE);
    assert(!line.contains(NEWLINE)) by {
        if line.contains(NEWLINE) {
            let k = choose|k: int| 0 <= k < line.len() && line[k] == NEWLINE;
            if k < p.len() {
                assert(p[k] == line[k]);
            }
        }
    }
    lemma_fields_append_plain(Seq::<u8>::empty(), line, NEWLINE);
    assert(Seq::<u8>::empty() + line =~= line);
    assert(fields(Seq::<u8>::empty(), seps) =~= seq![Seq::<u8>::empty()]);
    assert(fields(line, seps) =~= seq![line]);
    assert(text.drop_last() =~= line);
    let f = fields(text, seps);
    assert(f =~= seq![line, Seq::<u8>::empty()]);
    let mapped = f.map_values(|q: Seq<u8>| trim_cr(q));
    assert(line.drop_last() =~= p);
    assert(mapped =~= seq![p, Seq::<u8>::empty()]);
    reveal_with_fuel(Seq::filter, 3);
    assert(mapped.drop_last() =~= seq![p]);
    assert(seq![p].drop_last() =~= Seq::<Seq<u8>>::empty());
    assert(hit_paths(text) =~= seq![p]);
}

} // verus!
