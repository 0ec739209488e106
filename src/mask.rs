//! Hostmask matching: glob patterns over `nick!user@host` identities, with
//! `*` and `?` as the only wildcards.

use vstd::prelude::*;

verus! {

/// Matches any run of bytes, the empty one included.
pub const STAR: u8 = 0x2a;
/// Matches exactly one byte.
pub const QUESTION: u8 = 0x3f;

/// Whether the pattern `p` from index `i` on matches the candidate `c` from
/// index `j` on: `*` matches zero or more bytes, `?` exactly one, and every
/// other byte itself (brackets included), with case.
pub open spec fn glob_at(p: Seq<u8>, c: Seq<u8>, i: int, j: int) -> bool
    decreases p.len() - i, c.len() - j,
{
    if i < 0 || j < 0 || i >= p.len() {
        i >= 0 && j >= c.len()
    } else if p[i] == STAR {
        glob_at(p, c, i + 1, j) || (j < c.len() && glob_at(p, c, i, j + 1))
    } else {
        j < c.len() && (p[i] == QUESTION || p[i] == c[j]) && glob_at(p, c, i + 1, j + 1)
    }
}

/// Whether mask `p` matches candidate `c` as a whole.
pub open spec fn glob_matches(p: Seq<u8>, c: Seq<u8>) -> bool {
    glob_at(p, c, 0, 0)
}

/// Whether the `n` pattern bytes from `i` are no `*`, and match the
/// candidate bytes from `j` one for one.
pub open spec fn segment_matches(p: Seq<u8>, c: Seq<u8>, i: int, j: int, n: int) -> bool {
    forall|a: int|
        i <= a < i + n ==> #[trigger] p[a] != STAR && (p[a] == QUESTION || p[a] == c[a - i + j])
}

/// Whether the `n` pattern bytes from `i` are no `*`.
pub open spec fn star_free(p: Seq<u8>, i: int, n: int) -> bool {
    forall|a: int| i <= a < i + n ==> #[trigger] p[a] != STAR
}

/// A `*` matches from `m` where the rest of the pattern matches from some
/// later index.
proof fn lemma_star(p: Seq<u8>, c: Seq<u8>, s: int, m: int)
    requires
        0 <= s < p.len(),
        0 <= m <= c.len(),
        p[s] == STAR,
    ensures
        glob_at(p, c, s, m) <==> exists|j: int| m <= j <= c.len() && #[trigger] glob_at(p, c, s + 1, j),
    decreases c.len() - m,
{
    if m < c.len() {
        lemma_star(p, c, s, m + 1);
        if exists|j: int| m <= j <= c.len() && #[trigger] glob_at(p, c, s + 1, j) {
            let j = choose|j: int| m <= j <= c.len() && #[trigger] glob_at(p, c, s + 1, j);
            if j > m {
                assert(glob_at(p, c, s, m + 1));
            }
        }
        if glob_at(p, c, s, m) {
            if glob_at(p, c, s + 1, m) {
                assert(m <= m <= c.len() && glob_at(p, c, s + 1, m));
            } else {
                assert(glob_at(p, c, s, m + 1));
                let j = choose|j: int| m + 1 <= j <= c.len() && #[trigger] glob_at(p, c, s + 1, j);
                assert(m <= j <= c.len() && glob_at(p, c, s + 1, j));
            }
        }
    } else {
        if exists|j: int| m <= j <= c.len() && #[trigger] glob_at(p, c, s + 1, j) {
            let j = choose|j: int| m <= j <= c.len() && #[trigger] glob_at(p, c, s + 1, j);
            assert(j == m);
        }
        if glob_at(p, c, s, m) {
            assert(m <= m <= c.len() && glob_at(p, c, s + 1, m));
        }
    }
}

/// Pattern bytes without `*` each take exactly one candidate byte.
proof fn lemma_segment(p: Seq<u8>, c: Seq<u8>, i: int, j: int, n: int)
    requires
        0 <= i,
        0 <= j <= c.len(),
        0 <= n,
        i + n <= p.len(),
        star_free(p, i, n),
    ensures
        glob_at(p, c, i, j) == (j + n <= c.len() && segment_matches(p, c, i, j, n) && glob_at(
            p,
            c,
            i + n,
            j + n,
        )),
    decreases n,
{
    if n > 0 {
        assert(p[i] != STAR);
        if j < c.len() {
            lemma_segment(p, c, i + 1, j + 1, n - 1);
        }
    }
}

/// Whether mask `mask` matches candidate `candidate`: `*` matches any run of
/// bytes, `?` any one byte, and every other byte only itself; brackets are
/// not character classes, and case counts.
///
/// Matches from left to right and, on a mismatch, retries from the most
/// recent `*` with the candidate advanced by one byte.
pub fn mask_matches(mask: &[u8], candidate: &[u8]) -> (r: bool)
    ensures
        r == glob_matches(mask@, candidate@),
{
    let ghost p = mask@;
    let ghost c = candidate@;
    let mut pi: usize = 0;
    let mut ci: usize = 0;
    let mut has_star = false;
    let mut star: usize = 0;
    let mut mark: usize = 0;
    while ci < candidate.len()
        invariant
            p == mask@,
            c == candidate@,
            pi <= p.len(),
            mark <= ci <= c.len(),
            !has_star ==> glob_matches(p, c) == glob_at(p, c, pi as int, ci as int),
            has_star ==> {
                &&& star < pi
                &&& p[star as int] == STAR
                &&& ci - mark == pi - star - 1
                &&& segment_matches(p, c, star + 1, mark as int, pi - star - 1)
                &&& glob_matches(p, c) == glob_at(p, c, star as int, mark as int)
            },
        decreases c.len() - mark, c.len() - ci, p.len() - pi,
    {
        if pi < mask.len() && mask[pi] == STAR {
            proof {
                if has_star {
                    let n = pi - star - 1;
                    lemma_star(p, c, star as int, mark as int);
                    lemma_star(p, c, pi as int, ci as int);
                    if glob_at(p, c, star as int, mark as int) {
                        let j = choose|j: int|
                            mark <= j <= c.len() && #[trigger] glob_at(p, c, star + 1, j);
                        lemma_segment(p, c, star + 1, j, n);
                        lemma_star(p, c, pi as int, j + n);
                        let j2 = choose|j2: int|
                            j + n <= j2 <= c.len() && #[trigger] glob_at(p, c, pi + 1, j2);
                        assert(glob_at(p, c, pi + 1, j2));
                    }
                    if glob_at(p, c, pi as int, ci as int) {
                        lemma_segment(p, c, star + 1, mark as int, n);
                        assert(glob_at(p, c, star + 1, mark as int));
                    }
                }
            }
            has_star = true;
            star = pi;
            mark = ci;
            pi = pi + 1;
            assert(segment_matches(p, c, star + 1, mark as int, 0));
        } else if pi < mask.len() && (mask[pi] == QUESTION || mask[pi] == candidate[ci]) {
            proof {
                if has_star {
                    let n = pi - star - 1;
                    assert(segment_matches(p, c, star + 1, mark as int, n + 1));
                }
            }
            pi = pi + 1;
            ci = ci + 1;
        } else if has_star {
            proof {
                let n = pi - star - 1;
                lemma_segment(p, c, star + 1, mark as int, n);
                assert(!glob_at(p, c, pi as int, ci as int));
                assert(!glob_at(p, c, star + 1, mark as int));
            }
            pi = star + 1;
            mark = mark + 1;
            ci = mark;
            assert(segment_matches(p, c, star + 1, mark as int, 0));
        } else {
            return false;
        }
    }
    proof {
        if has_star {
            let n = pi - star - 1;
            lemma_star(p, c, star as int, mark as int);
            if glob_at(p, c, star as int, mark as int) {
                let j = choose|j: int| mark <= j <= c.len() && #[trigger] glob_at(p, c, star + 1, j);
                lemma_segment(p, c, star + 1, j, n);
                assert(j == mark);
            }
            if glob_at(p, c, pi as int, ci as int) {
                lemma_segment(p, c, star + 1, mark as int, n);
                assert(glob_at(p, c, star + 1, mark as int));
            }
        }
    }
    assert(glob_matches(p, c) == glob_at(p, c, pi as int, c.len() as int));
    while pi < mask.len() && mask[pi] == STAR
        invariant
            p == mask@,
            c == candidate@,
            pi <= p.len(),
            glob_matches(p, c) == glob_at(p, c, pi as int, c.len() as int),
        decreases p.len() - pi,
    {
        pi = pi + 1;
    }
    pi == mask.len()
}

} // verus!
