use vstd::prelude::*;

verus! {

/// Character code of the key character for the sibling rank `r`:
/// ranks 1 to 26 give `a` to `z`, 27 to 36 give `0` to `9`,
/// 37 to 60 give `A` to `X`, and any other rank a blank.
pub open spec fn rank_code(r: int) -> int {
    if 1 <= r <= 26 {
        r + 96
    } else if 27 <= r <= 36 {
        r + 21
    } else if 37 <= r <= 60 {
        r + 28
    } else {
        32
    }
}

pub open spec fn rank_char(r: int) -> char {
    rank_code(r) as char
}

/// The key spelled by a rank path: one character for each level below the
/// root, the one of level `l` taken from `ranks[l + 1]`.
pub open spec fn key_of(ranks: Seq<usize>, depth: int) -> Seq<char> {
    Seq::new(depth as nat, |l: int| rank_char(ranks[l + 1] as int))
}

pub open spec fn is_lowercase(c: char) -> bool {
    'a' <= c <= 'z'
}

/// Lexicographic order of character sequences, by character code.
pub open spec fn lex_less(a: Seq<char>, b: Seq<char>) -> bool {
    (exists|i: int|
        0 <= i < a.len() && i < b.len() && a.subrange(0, i) == b.subrange(0, i) && (a[i] as int)
            < (b[i] as int)) || (a.len() < b.len() && a == b.subrange(0, a.len() as int))
}

/// Maps a sibling rank to the character that stands for it in a key.
pub fn index_to_char(i: usize) -> (c: char)
    ensures
        c == rank_char(i as int),
{
    if 1 <= i && i <= 26 {
        (96 + i as u8) as char
    } else if 27 <= i && i <= 36 {
        (21 + i as u8) as char
    } else if 37 <= i && i <= 60 {
        (28 + i as u8) as char
    } else {
        ' '
    }
}

/// Keys spelled by rank paths whose ranks all lie in 1..=26 are made of
/// `depth` lowercase letters; and of two rank paths that differ only in their
/// last rank, the one with the smaller last rank spells the smaller key.
pub proof fn lemma_key_order(a: Seq<usize>, b: Seq<usize>, depth: int)
    requires
        1 <= depth,
        a.len() == depth + 1,
        b.len() == depth + 1,
        forall|l: int| 1 <= l <= depth ==> 1 <= #[trigger] a[l] <= 26,
        forall|l: int| 1 <= l <= depth ==> 1 <= #[trigger] b[l] <= 26,
        forall|l: int| 1 <= l < depth ==> a[l] == b[l],
    ensures
        key_of(a, depth).len() == depth,
        forall|l: int| 0 <= l < depth ==> is_lowercase(#[trigger] key_of(a, depth)[l]),
        a[depth] < b[depth] ==> lex_less(key_of(a, depth), key_of(b, depth)),
        a[depth] == b[depth] ==> key_of(a, depth) == key_of(b, depth),
{
    let ka = key_of(a, depth);
    let kb = key_of(b, depth);
    let last = depth - 1;
    assert(ka.subrange(0, last) =~= kb.subrange(0, last));
    if a[depth] < b[depth] {
        assert((ka[last] as int) < (kb[last] as int));
    }
    if a[depth] == b[depth] {
        assert(ka =~= kb);
    }
}

} // verus!
