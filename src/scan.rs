//! Byte classes of the wire grammar, and scanning for the end of a run of
//! bytes.

use vstd::prelude::*;

verus! {

/// The space byte, the only separator between atoms.
pub const SPACE: u8 = 0x20;
/// Carriage return, the first byte of a line terminator.
pub const CR: u8 = 0x0d;
/// Line feed, the second byte of a line terminator.
pub const LF: u8 = 0x0a;
/// The NUL byte, which may never appear inside an atom.
pub const NUL: u8 = 0x00;
/// Marks a trailing parameter, or the source, at the start of an atom.
pub const COLON: u8 = 0x3a;
/// Starts a tag block.
pub const AT: u8 = 0x40;
/// Separates tags in a tag block.
pub const SEMICOLON: u8 = 0x3b;
/// Separates a tag's key from its value.
pub const EQUALS: u8 = 0x3d;
/// Starts an escape sequence in a tag value.
pub const BACKSLASH: u8 = 0x5c;

/// Whether `b` ends a middle parameter (or a source, or a tag block):
/// space, CR, LF or NUL.
pub open spec fn ends_middle(b: u8) -> bool {
    b == SPACE || b == CR || b == LF || b == NUL
}

/// Whether `b` ends a trailing parameter: CR, LF or NUL.
pub open spec fn ends_trailing(b: u8) -> bool {
    b == CR || b == LF || b == NUL
}

/// Whether `b` is an ASCII letter or digit.
pub open spec fn is_alnum(b: u8) -> bool {
    (0x30 <= b <= 0x39) || (0x41 <= b <= 0x5a) || (0x61 <= b <= 0x7a)
}

/// The bytes at which a run ends.
pub enum Stop {
    /// Every byte but a space.
    NonSpace,
    /// The bytes that end a middle parameter.
    MiddleEnd,
    /// The bytes that end a trailing parameter.
    TrailingEnd,
    /// Every byte but an ASCII letter or digit.
    NonAlnum,
    /// One given byte.
    Byte(u8),
    /// Either of two given bytes.
    Either(u8, u8),
}

/// Whether the run described by `k` ends at byte `b`.
pub open spec fn stops(k: Stop, b: u8) -> bool {
    match k {
        Stop::NonSpace => b != SPACE,
        Stop::MiddleEnd => ends_middle(b),
        Stop::TrailingEnd => ends_trailing(b),
        Stop::NonAlnum => !is_alnum(b),
        Stop::Byte(x) => b == x,
        Stop::Either(x, y) => b == x || b == y,
    }
}

/// The length of the longest prefix of `s` in which no byte stops `k`.
pub open spec fn run_len(s: Seq<u8>, k: Stop) -> nat
    decreases s.len(),
{
    if s.len() == 0 {
        0
    } else if stops(k, s[0]) {
        0
    } else {
        1 + run_len(s.drop_first(), k)
    }
}

/// The bytes of `s` from index `i` on.
pub open spec fn rest(s: Seq<u8>, i: int) -> Seq<u8> {
    s.subrange(i, s.len() as int)
}

/// A run ends within `s`, and at a byte that stops it unless at the end.
pub proof fn lemma_run_len(s: Seq<u8>, k: Stop)
    ensures
        run_len(s, k) <= s.len(),
        forall|i: int| 0 <= i < run_len(s, k) ==> !stops(k, #[trigger] s[i]),
        run_len(s, k) < s.len() ==> stops(k, s[run_len(s, k) as int]),
    decreases s.len(),
{
    if s.len() > 0 && !stops(k, s[0]) {
        lemma_run_len(s.drop_first(), k);
        assert forall|i: int| 0 <= i < run_len(s, k) implies !stops(k, #[trigger] s[i]) by {
            if i > 0 {
                assert(s[i] == s.drop_first()[i - 1]);
            }
        }
    }
}

/// The run over `x + y`, where no byte of `x` stops it, goes on into `y`.
pub proof fn lemma_run_len_append(x: Seq<u8>, y: Seq<u8>, k: Stop)
    requires
        forall|i: int| 0 <= i < x.len() ==> !stops(k, #[trigger] x[i]),
    ensures
        run_len(x + y, k) == x.len() + run_len(y, k),
    decreases x.len(),
{
    if x.len() > 0 {
        assert((x + y).drop_first() =~= x.drop_first() + y);
        assert(!stops(k, x[0]));
        lemma_run_len_append(x.drop_first(), y, k);
    } else {
        assert(x + y =~= y);
    }
}

/// Whether the run described by `k` ends at byte `b`.
pub(crate) fn stops_at(k: &Stop, b: u8) -> (r: bool)
    ensures
        r == stops(*k, b),
{
    match k {
        Stop::NonSpace => b != SPACE,
        Stop::MiddleEnd => b == SPACE || b == CR || b == LF || b == NUL,
        Stop::TrailingEnd => b == CR || b == LF || b == NUL,
        Stop::NonAlnum => !((0x30 <= b && b <= 0x39) || (0x41 <= b && b <= 0x5a) || (0x61 <= b
            && b <= 0x7a)),
        Stop::Byte(x) => b == *x,
        Stop::Either(x, y) => b == *x || b == *y,
    }
}

/// The index at which the run described by `k` that starts at `start` ends.
pub(crate) fn run_end(s: &[u8], start: usize, k: &Stop) -> (end: usize)
    requires
        start <= s@.len(),
    ensures
        end == start + run_len(rest(s@, start as int), *k),
        end <= s@.len(),
{
    let mut end = start;
    while end < s.len() && !stops_at(k, s[end])
        invariant
            start <= end <= s@.len(),
            run_len(rest(s@, start as int), *k) == (end - start) + run_len(rest(s@, end as int), *k),
        decreases s@.len() - end,
    {
        assert(rest(s@, end as int).drop_first() =~= rest(s@, end + 1));
        end = end + 1;
    }
    proof {
        lemma_run_len(rest(s@, start as int), *k);
    }
    end
}

} // verus!

verus! {

/// Whether `a` and `b` hold the same bytes.
pub(crate) fn bytes_eq(a: &[u8], b: &[u8]) -> (r: bool)
    ensures
        r == (a@ == b@),
{
    if a.len() != b.len() {
        return false;
    }
    let mut i: usize = 0;
    while i < a.len()
        invariant
            i <= a@.len(),
            a@.len() == b@.len(),
            forall|j: int| 0 <= j < i ==> a@[j] == b@[j],
        decreases a@.len() - i,
    {
        if a[i] != b[i] {
            return false;
        }
        i = i + 1;
    }
    assert(a@ =~= b@);
    true
}

} // verus!

verus! {

/// Whether no byte of `x` stops the run described by `k`.
pub open spec fn free_of(x: Seq<u8>, k: Stop) -> bool {
    forall|i: int| 0 <= i < x.len() ==> !stops(k, #[trigger] x[i])
}

/// A run over bytes that none stops takes them all.
pub proof fn lemma_run_len_free(x: Seq<u8>, k: Stop)
    requires
        free_of(x, k),
    ensures
        run_len(x, k) == x.len(),
{
    lemma_run_len(x, k);
}

/// A run over `x + y`, where no byte of `x` stops it and the first of `y`
/// does, takes `x` exactly.
pub proof fn lemma_run_len_until(x: Seq<u8>, y: Seq<u8>, k: Stop)
    requires
        free_of(x, k),
        y.len() > 0,
        stops(k, y[0]),
    ensures
        run_len(x + y, k) == x.len(),
{
    lemma_run_len_append(x, y, k);
}

/// The bytes of a run are free of what ends it.
pub proof fn lemma_run_prefix_free(s: Seq<u8>, k: Stop)
    ensures
        free_of(s.subrange(0, run_len(s, k) as int), k),
{
    lemma_run_len(s, k);
    assert forall|i: int| 0 <= i < run_len(s, k) implies !stops(
        k,
        #[trigger] s.subrange(0, run_len(s, k) as int)[i],
    ) by {
        assert(s.subrange(0, run_len(s, k) as int)[i] == s[i]);
    }
}

/// A part of bytes free of a class is free of it too.
pub proof fn lemma_free_sub(x: Seq<u8>, a: int, b: int, k: Stop)
    requires
        free_of(x, k),
        0 <= a <= b <= x.len(),
    ensures
        free_of(x.subrange(a, b), k),
{
    assert forall|i: int| 0 <= i < b - a implies !stops(k, #[trigger] x.subrange(a, b)[i]) by {
        assert(x.subrange(a, b)[i] == x[a + i]);
    }
}

/// Two byte strings together are free of a class when each is.
pub proof fn lemma_free_concat(x: Seq<u8>, y: Seq<u8>, k: Stop)
    ensures
        free_of(x + y, k) == (free_of(x, k) && free_of(y, k)),
{
    if free_of(x, k) && free_of(y, k) {
        assert forall|i: int| 0 <= i < (x + y).len() implies !stops(k, #[trigger] (x + y)[i]) by {
            if i >= x.len() {
                assert((x + y)[i] == y[i - x.len()]);
            }
        }
    }
    if free_of(x + y, k) {
        assert forall|i: int| 0 <= i < x.len() implies !stops(k, #[trigger] x[i]) by {
            assert((x + y)[i] == x[i]);
        }
        assert forall|i: int| 0 <= i < y.len() implies !stops(k, #[trigger] y[i]) by {
            assert((x + y)[x.len() + i] == y[i]);
        }
    }
}

} // verus!
