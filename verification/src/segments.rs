use vstd::prelude::*;

verus! {

/// Which bytes separate the pieces of a byte string.
#[derive(PartialEq, Eq, Structural, Clone, Copy, Debug)]
pub enum Separators {
    /// Only this byte.
    Only(u8),
    /// Either of these two bytes.
    Either(u8, u8),
}

pub open spec fn is_separator(seps: Separators, b: u8) -> bool {
    match seps {
        Separators::Only(x) => b == x,
        Separators::Either(x, y) => b == x || b == y,
    }
}

/// Whether `b` is one of `seps`.
pub fn separates(seps: Separators, b: u8) -> (r: bool)
    ensures
        r == is_separator(seps, b),
{
    match seps {
        Separators::Only(x) => b == x,
        Separators::Either(x, y) => b == x || b == y,
    }
}

/// The pieces of `s` between its separators, in order and with empty pieces
/// kept, as splitting a byte slice on them yields them: `n` separators give
/// `n + 1` pieces.
pub open spec fn fields(s: Seq<u8>, seps: Separators) -> Seq<Seq<u8>>
    decreases s.len(),
{
    if s.len() == 0 {
        seq![Seq::<u8>::empty()]
    } else {
        let before = fields(s.drop_last(), seps);
        if is_separator(seps, s.last()) {
            before.push(Seq::<u8>::empty())
        } else {
            before.update(before.len() - 1, before.last().push(s.last()))
        }
    }
}

/// Splitting always gives at least one piece.
pub proof fn lemma_fields_len(s: Seq<u8>, seps: Separators)
    ensures
        fields(s, seps).len() >= 1,
    decreases s.len(),
{
    if s.len() > 0 {
        lemma_fields_len(s.drop_last(), seps);
    }
}

/// How the pieces of a prefix grow by one byte: a separator closes the last
/// piece and opens an empty one; any other byte extends the last piece.
pub proof fn lemma_fields_extend(s: Seq<u8>, seps: Separators, i: int)
    requires
        0 <= i < s.len(),
    ensures
        fields(s.take(i), seps).len() >= 1,
        is_separator(seps, s[i]) ==> fields(s.take(i + 1), seps) == fields(s.take(i), seps).push(
            Seq::<u8>::empty(),
        ),
        !is_separator(seps, s[i]) ==> fields(s.take(i + 1), seps) == fields(s.take(i), seps).update(
            fields(s.take(i), seps).len() - 1,
            fields(s.take(i), seps).last().push(s[i]),
        ),
{
    lemma_fields_len(s.take(i), seps);
    assert(s.take(i + 1).drop_last() =~= s.take(i));
    assert(s.take(i + 1).last() == s[i]);
}

/// No piece holds a separator.
pub proof fn lemma_fields_exclude_sep(s: Seq<u8>, seps: Separators)
    ensures
        forall|k: int, j: int|
            0 <= k < fields(s, seps).len() && 0 <= j < fields(s, seps)[k].len() ==> !is_separator(
                seps,
                fields(s, seps)[k][j],
            ),
    decreases s.len(),
{
    if s.len() > 0 {
        lemma_fields_exclude_sep(s.drop_last(), seps);
        lemma_fields_len(s.drop_last(), seps);
        let before = fields(s.drop_last(), seps);
        if !is_separator(seps, s.last()) {
            let last = before.last().push(s.last());
            assert forall|j: int| 0 <= j < last.len() implies !is_separator(seps, last[j]) by {
                if j < last.len() - 1 {
                    assert(last[j] == before[before.len() - 1][j]);
                }
            }
        }
    }
}

} // verus!
