//! The message splitter: one CRLF-terminated line of bytes into its atoms
//! (tags, source, verb and parameters).

use vstd::prelude::*;
use vstd::slice::slice_subrange;
use vstd::slice::slice_to_vec;

use crate::incoming::ParseError;
use crate::scan::{
    free_of, lemma_run_len, lemma_run_len_append, lemma_run_len_free, lemma_run_len_until, rest,
    run_end, run_len, stops, Stop, AT, COLON, CR, LF, SPACE,
};
use crate::tags::{parse_tag_block, parse_tags, tags_view, Tag};

verus! {

/// The atoms of a message, as values.
pub struct AtomsView {
    /// Tag keys and values, unescaped, in order of first appearance.
    pub tags: Seq<(Seq<u8>, Seq<u8>)>,
    /// The source, without its leading colon.
    pub source: Option<Seq<u8>>,
    /// The verb, as written.
    pub verb: Seq<u8>,
    /// The parameters, without the colon of a trailing parameter.
    pub params: Seq<Seq<u8>>,
}

/// The atoms of a message. An empty tag list stands for a message without
/// a tag block.
#[derive(Clone, Debug, PartialEq, Eq)]
pub struct Atoms {
    pub tags: Vec<Tag>,
    pub source: Option<Vec<u8>>,
    pub verb: Vec<u8>,
    pub params: Vec<Vec<u8>>,
}

/// The values of a list of byte strings.
pub open spec fn bytes_list_view(v: Seq<Vec<u8>>) -> Seq<Seq<u8>> {
    v.map_values(|x: Vec<u8>| x@)
}

/// The value of an optional byte string.
pub open spec fn opt_view(o: Option<Vec<u8>>) -> Option<Seq<u8>> {
    match o {
        Some(x) => Some(x@),
        None => None,
    }
}

impl View for Atoms {
    type V = AtomsView;

    open spec fn view(&self) -> AtomsView {
        AtomsView {
            tags: tags_view(self.tags@),
            source: opt_view(self.source),
            verb: self.verb@,
            params: bytes_list_view(self.params@),
        }
    }
}

/// The line terminator at the start of `s`: its length, or why it is missing.
pub open spec fn line_end(s: Seq<u8>) -> Result<int, ParseError> {
    if s.len() == 0 {
        Err(ParseError::End)
    } else if s[0] != CR {
        Err(ParseError::Malformed)
    } else if s.len() == 1 {
        Err(ParseError::End)
    } else if s[1] != LF {
        Err(ParseError::Malformed)
    } else {
        Ok(2)
    }
}

/// One last parameter `p`, after `off` bytes, followed by the line end `r`.
pub open spec fn last_param(p: Seq<u8>, off: int, r: Result<int, ParseError>) -> Result<
    (Seq<Seq<u8>>, int),
    ParseError,
> {
    match r {
        Ok(k) => Ok((seq![p], off + k)),
        Err(e) => Err(e),
    }
}

/// Parameters `ps`, taking `off` bytes, before the result `r` of what follows.
pub open spec fn before(ps: Seq<Seq<u8>>, off: int, r: Result<(Seq<Seq<u8>>, int), ParseError>) -> Result<
    (Seq<Seq<u8>>, int),
    ParseError,
> {
    match r {
        Ok((x, k)) => Ok((ps + x, off + k)),
        Err(e) => Err(e),
    }
}

/// The parameters at the start of `s`, where a parameter must begin, up to
/// and including the line end, and the number of bytes they take.
///
/// A parameter that starts with `:` is trailing: it runs to CR, LF or NUL,
/// and is the last. Any other runs to a space, CR, LF or NUL (empty when
/// one of these comes first); the spaces after it are skipped, and the line
/// ends at a CR or another parameter follows.
pub open spec fn split_params(s: Seq<u8>) -> Result<(Seq<Seq<u8>>, int), ParseError>
    decreases s.len(),
{
    if s.len() == 0 {
        Err(ParseError::End)
    } else if s[0] == COLON {
        let t = run_len(rest(s, 1), Stop::TrailingEnd) as int;
        last_param(s.subrange(1, t + 1), t + 1, line_end(rest(s, t + 1)))
    } else {
        let m = run_len(s, Stop::MiddleEnd) as int;
        if m >= s.len() {
            Err(ParseError::End)
        } else if s[m] != SPACE {
            last_param(s.subrange(0, m), m, line_end(rest(s, m)))
        } else {
            let q = m + 1 + run_len(rest(s, m + 1), Stop::NonSpace) as int;
            if q >= s.len() {
                Err(ParseError::End)
            } else if s[q] == CR {
                last_param(s.subrange(0, m), q, line_end(rest(s, q)))
            } else {
                before(seq![s.subrange(0, m)], q, split_params(rest(s, q)))
            }
        }
    }
}

/// What follows the verb at the start of `s`: the line end, with no
/// parameters, directly or after spaces; or spaces and then parameters.
pub open spec fn split_after_verb(s: Seq<u8>) -> Result<(Seq<Seq<u8>>, int), ParseError> {
    if s.len() == 0 {
        Err(ParseError::End)
    } else if s[0] == SPACE {
        let q = 1 + run_len(rest(s, 1), Stop::NonSpace) as int;
        if q < s.len() && s[q] == CR {
            match line_end(rest(s, q)) {
                Ok(k) => Ok((seq![], q + k)),
                Err(e) => Err(e),
            }
        } else {
            before(seq![], q, split_params(rest(s, q)))
        }
    } else if s[0] == CR {
        match line_end(s) {
            Ok(k) => Ok((seq![], k)),
            Err(e) => Err(e),
        }
    } else {
        Err(ParseError::Malformed)
    }
}

/// The verb at the start of `s`: a non-empty run of ASCII letters and digits.
pub open spec fn split_verb(s: Seq<u8>) -> Result<(Seq<u8>, int), ParseError> {
    let v = run_len(s, Stop::NonAlnum) as int;
    if v >= s.len() {
        Err(ParseError::End)
    } else if v == 0 {
        Err(ParseError::Malformed)
    } else {
        Ok((s.subrange(0, v), v))
    }
}

/// The source at the start of `s`, if `s` starts with `:`: the bytes up to
/// the next space, which must come before CR, LF or NUL; then the spaces.
pub open spec fn split_source(s: Seq<u8>) -> Result<(Option<Seq<u8>>, int), ParseError> {
    if s.len() == 0 {
        Err(ParseError::End)
    } else if s[0] != COLON {
        Ok((None, 0))
    } else {
        let b = run_len(rest(s, 1), Stop::MiddleEnd) as int;
        if 1 + b >= s.len() {
            Err(ParseError::End)
        } else if s[1 + b] != SPACE {
            Err(ParseError::Malformed)
        } else {
            Ok((Some(s.subrange(1, 1 + b)), 2 + b + run_len(rest(s, 2 + b), Stop::NonSpace) as int))
        }
    }
}

/// The tag block at the start of `s`, if `s` starts with `@`: the bytes up to
/// the next space, which must come before CR, LF or NUL, and that one space.
pub open spec fn split_tags(s: Seq<u8>) -> Result<(Seq<(Seq<u8>, Seq<u8>)>, int), ParseError> {
    if s.len() == 0 {
        Err(ParseError::End)
    } else if s[0] != AT {
        Ok((seq![], 0))
    } else {
        let b = run_len(rest(s, 1), Stop::MiddleEnd) as int;
        if 1 + b >= s.len() {
            Err(ParseError::End)
        } else if s[1 + b] != SPACE {
            Err(ParseError::Malformed)
        } else {
            Ok((parse_tags(s.subrange(1, 1 + b)), 2 + b))
        }
    }
}

/// The atoms of the line at the start of `s`, and the number of bytes it
/// takes, CRLF included; or `End` where `s` ends before the line does, and
/// `Malformed` where the line breaks the grammar.
pub open spec fn split_line(s: Seq<u8>) -> Result<(AtomsView, int), ParseError> {
    match split_tags(s) {
        Err(e) => Err(e),
        Ok((tags, a)) => match split_source(rest(s, a)) {
            Err(e) => Err(e),
            Ok((source, b)) => match split_verb(rest(s, a + b)) {
                Err(e) => Err(e),
                Ok((verb, c)) => match split_after_verb(rest(s, a + b + c)) {
                    Err(e) => Err(e),
                    Ok((params, d)) => Ok(
                        (AtomsView { tags, source, verb, params }, a + b + c + d),
                    ),
                },
            },
        },
    }
}

/// Dropping `i` bytes and then `j` more drops `i + j`.
pub proof fn lemma_rest_rest(s: Seq<u8>, i: int, j: int)
    requires
        0 <= i,
        0 <= j,
        i + j <= s.len(),
    ensures
        rest(rest(s, i), j) == rest(s, i + j),
        forall|a: int, b: int|
            0 <= a <= b <= s.len() - i ==> #[trigger] rest(s, i).subrange(a, b) == s.subrange(
                i + a,
                i + b,
            ),
{
    assert(rest(rest(s, i), j) =~= rest(s, i + j));
    assert forall|a: int, b: int| 0 <= a <= b <= s.len() - i implies #[trigger] rest(
        s,
        i,
    ).subrange(a, b) == s.subrange(i + a, i + b) by {
        assert(rest(s, i).subrange(a, b) =~= s.subrange(i + a, i + b));
    }
}

/// The bytes of `s` from `a` to `b`, copied.
pub(crate) fn copy_range(s: &[u8], a: usize, b: usize) -> (r: Vec<u8>)
    requires
        a <= b <= s@.len(),
    ensures
        r@ == s@.subrange(a as int, b as int),
{
    slice_to_vec(slice_subrange(s, a, b))
}

/// The line terminator at index `p` of `s`: the index after it.
fn split_line_end(s: &[u8], p: usize) -> (r: Result<usize, ParseError>)
    requires
        p <= s@.len(),
    ensures
        match line_end(rest(s@, p as int)) {
            Ok(k) => r is Ok && r->Ok_0 == p + k,
            Err(e) => r is Err && r->Err_0 == e,
        },
{
    if p == s.len() {
        Err(ParseError::End)
    } else if s[p] != CR {
        Err(ParseError::Malformed)
    } else if p + 1 == s.len() {
        Err(ParseError::End)
    } else if s[p + 1] != LF {
        Err(ParseError::Malformed)
    } else {
        Ok(p + 2)
    }
}

} // verus!

verus! {

/// Parameters before parameters: the lists and the lengths add up.
proof fn lemma_before_before(
    a: Seq<Seq<u8>>,
    o1: int,
    b: Seq<Seq<u8>>,
    o2: int,
    r: Result<(Seq<Seq<u8>>, int), ParseError>,
)
    ensures
        before(a, o1, before(b, o2, r)) == before(a + b, o1 + o2, r),
{
    match r {
        Ok((x, k)) => {
            assert(a + (b + x) =~= (a + b) + x);
        },
        Err(e) => {},
    }
}

/// No parameters before `r`, taking no bytes, leave it as it is.
proof fn lemma_before_nothing(r: Result<(Seq<Seq<u8>>, int), ParseError>)
    ensures
        before(seq![], 0, r) == r,
{
    match r {
        Ok((x, k)) => {
            assert(Seq::<Seq<u8>>::empty() + x =~= x);
        },
        Err(e) => {},
    }
}

/// The parameters from index `p` of `s` to the line end, and the index
/// after the line end.
fn split_params_at(s: &[u8], p: usize) -> (r: Result<(Vec<Vec<u8>>, usize), ParseError>)
    requires
        p <= s@.len(),
    ensures
        r is Ok ==> r->Ok_0.1 <= s@.len(),
        match split_params(rest(s@, p as int)) {
            Ok((ps, k)) => r is Ok && bytes_list_view(r->Ok_0.0@) == ps && r->Ok_0.1 == p + k,
            Err(e) => r is Err && r->Err_0 == e,
        },
{
    let mut ps: Vec<Vec<u8>> = Vec::new();
    let mut q = p;
    proof {
        lemma_before_nothing(split_params(rest(s@, p as int)));
        assert(bytes_list_view(ps@) =~= Seq::<Seq<u8>>::empty());
    }
    loop
        invariant
            p <= q <= s@.len(),
            split_params(rest(s@, p as int)) == before(
                bytes_list_view(ps@),
                q - p,
                split_params(rest(s@, q as int)),
            ),
        decreases s@.len() - q,
    {
        let ghost rs = rest(s@, q as int);
        let ghost whole = split_params(rest(s@, p as int));
        if q == s.len() {
            return Err(ParseError::End);
        }
        if s[q] == COLON {
            proof {
                lemma_rest_rest(s@, q as int, 1);
            }
            let t = run_end(s, q + 1, &Stop::TrailingEnd);
            proof {
                lemma_rest_rest(s@, q as int, t - q);
                lemma_rest_rest(s@, q as int, 0);
                assert(rs.subrange(1, t - q) == s@.subrange(q + 1, t as int));
            }
            let param = copy_range(s, q + 1, t);
            match split_line_end(s, t) {
                Ok(n) => {
                    let ghost before_push = ps@;
                    ps.push(param);
                    assert(bytes_list_view(ps@) =~= bytes_list_view(before_push) + seq![param@]);
                    return Ok((ps, n));
                },
                Err(e) => {
                    return Err(e);
                },
            }
        }
        let m = run_end(s, q, &Stop::MiddleEnd);
        proof {
            lemma_rest_rest(s@, q as int, m - q);
        }
        if m == s.len() {
            return Err(ParseError::End);
        }
        assert(rs.subrange(0, m - q) == s@.subrange(q as int, m as int));
        let param = copy_range(s, q, m);
        if s[m] != SPACE {
            match split_line_end(s, m) {
                Ok(n) => {
                    let ghost before_push = ps@;
                    ps.push(param);
                    assert(bytes_list_view(ps@) =~= bytes_list_view(before_push) + seq![param@]);
                    return Ok((ps, n));
                },
                Err(e) => {
                    return Err(e);
                },
            }
        }
        proof {
            lemma_rest_rest(s@, q as int, m - q + 1);
        }
        let q2 = run_end(s, m + 1, &Stop::NonSpace);
        proof {
            lemma_rest_rest(s@, q as int, q2 - q);
        }
        if q2 == s.len() {
            return Err(ParseError::End);
        }
        let ghost before_push = ps@;
        ps.push(param);
        assert(bytes_list_view(ps@) =~= bytes_list_view(before_push) + seq![param@]);
        if s[q2] == CR {
            match split_line_end(s, q2) {
                Ok(n) => {
                    return Ok((ps, n));
                },
                Err(e) => {
                    return Err(e);
                },
            }
        }
        proof {
            lemma_before_before(
                bytes_list_view(before_push),
                q - p,
                seq![param@],
                q2 - q,
                split_params(rest(s@, q2 as int)),
            );
        }
        q = q2;
    }
}

} // verus!

verus! {

/// What follows the verb that ends at index `p` of `s`.
fn split_after_verb_at(s: &[u8], p: usize) -> (r: Result<(Vec<Vec<u8>>, usize), ParseError>)
    requires
        p <= s@.len(),
    ensures
        r is Ok ==> r->Ok_0.1 <= s@.len(),
        match split_after_verb(rest(s@, p as int)) {
            Ok((ps, k)) => r is Ok && bytes_list_view(r->Ok_0.0@) == ps && r->Ok_0.1 == p + k,
            Err(e) => r is Err && r->Err_0 == e,
        },
{
    if p == s.len() {
        return Err(ParseError::End);
    }
    if s[p] == SPACE {
        proof {
            lemma_rest_rest(s@, p as int, 1);
        }
        let q = run_end(s, p + 1, &Stop::NonSpace);
        proof {
            lemma_rest_rest(s@, p as int, q - p);
            lemma_before_nothing(split_params(rest(s@, q as int)));
        }
        if q < s.len() && s[q] == CR {
            match split_line_end(s, q) {
                Ok(n) => {
                    let ps: Vec<Vec<u8>> = Vec::new();
                    assert(bytes_list_view(ps@) =~= Seq::<Seq<u8>>::empty());
                    Ok((ps, n))
                },
                Err(e) => Err(e),
            }
        } else {
            split_params_at(s, q)
        }
    } else if s[p] == CR {
        match split_line_end(s, p) {
            Ok(n) => {
                let ps: Vec<Vec<u8>> = Vec::new();
                assert(bytes_list_view(ps@) =~= Seq::<Seq<u8>>::empty());
                Ok((ps, n))
            },
            Err(e) => Err(e),
        }
    } else {
        Err(ParseError::Malformed)
    }
}

/// The verb at index `p` of `s`, and the index after it.
fn split_verb_at(s: &[u8], p: usize) -> (r: Result<(Vec<u8>, usize), ParseError>)
    requires
        p <= s@.len(),
    ensures
        r is Ok ==> r->Ok_0.1 <= s@.len(),
        match split_verb(rest(s@, p as int)) {
            Ok((v, k)) => r is Ok && r->Ok_0.0@ == v && r->Ok_0.1 == p + k,
            Err(e) => r is Err && r->Err_0 == e,
        },
{
    let v = run_end(s, p, &Stop::NonAlnum);
    proof {
        lemma_rest_rest(s@, p as int, v - p);
    }
    if v == s.len() {
        Err(ParseError::End)
    } else if v == p {
        Err(ParseError::Malformed)
    } else {
        assert(rest(s@, p as int).subrange(0, v - p) == s@.subrange(p as int, v as int));
        Ok((copy_range(s, p, v), v))
    }
}

/// The source at index `p` of `s`, if any, and the index after it and the
/// spaces that follow it.
fn split_source_at(s: &[u8], p: usize) -> (r: Result<(Option<Vec<u8>>, usize), ParseError>)
    requires
        p <= s@.len(),
    ensures
        r is Ok ==> r->Ok_0.1 <= s@.len(),
        match split_source(rest(s@, p as int)) {
            Ok((o, k)) => r is Ok && opt_view(r->Ok_0.0) == o && r->Ok_0.1 == p + k,
            Err(e) => r is Err && r->Err_0 == e,
        },
{
    if p == s.len() {
        return Err(ParseError::End);
    }
    if s[p] != COLON {
        return Ok((None, p));
    }
    proof {
        lemma_rest_rest(s@, p as int, 1);
    }
    let b = run_end(s, p + 1, &Stop::MiddleEnd);
    proof {
        lemma_rest_rest(s@, p as int, b - p);
    }
    if b == s.len() {
        return Err(ParseError::End);
    }
    if s[b] != SPACE {
        return Err(ParseError::Malformed);
    }
    proof {
        lemma_rest_rest(s@, p as int, b + 1 - p);
    }
    assert(rest(s@, p as int).subrange(1, b - p) == s@.subrange(p + 1, b as int));
    let src = copy_range(s, p + 1, b);
    let q = run_end(s, b + 1, &Stop::NonSpace);
    Ok((Some(src), q))
}

/// The tag block at the start of `s`, if any, and the index after it.
fn split_tags_at(s: &[u8]) -> (r: Result<(Vec<Tag>, usize), ParseError>)
    ensures
        r is Ok ==> r->Ok_0.1 <= s@.len(),
        match split_tags(s@) {
            Ok((t, k)) => r is Ok && tags_view(r->Ok_0.0@) == t && r->Ok_0.1 == k,
            Err(e) => r is Err && r->Err_0 == e,
        },
{
    if s.len() == 0 {
        return Err(ParseError::End);
    }
    if s[0] != AT {
        let t: Vec<Tag> = Vec::new();
        assert(tags_view(t@) =~= Seq::<(Seq<u8>, Seq<u8>)>::empty());
        return Ok((t, 0));
    }
    let b = run_end(s, 1, &Stop::MiddleEnd);
    if b == s.len() {
        return Err(ParseError::End);
    }
    if s[b] != SPACE {
        return Err(ParseError::Malformed);
    }
    let t = parse_tag_block(slice_subrange(s, 1, b));
    Ok((t, b + 1))
}

impl Atoms {
    /// Splits the line at the start of `s` into its atoms; returns them with
    /// the number of bytes the line takes, its CRLF included.
    ///
    /// The line is: an optional tag block (`@` to a single space); an
    /// optional source (`:` to a space, then spaces); a verb of ASCII letters
    /// and digits; and parameters, each after one or more spaces, the last of
    /// them trailing where it starts with `:`; then CR LF, which may follow
    /// spaces but for a trailing parameter. Fails with `End`
    /// where `s` ends before the line does, and with `Malformed` where the
    /// line breaks this grammar (an empty verb, CR without LF, ...).
    pub fn split(s: &[u8]) -> (r: Result<(Atoms, usize), ParseError>)
        ensures
            match split_line(s@) {
                Ok((a, n)) => r is Ok && r->Ok_0.0@ == a && r->Ok_0.1 == n,
                Err(e) => r is Err && r->Err_0 == e,
            },
    {
        let (tags, a) = match split_tags_at(s) {
            Ok(x) => x,
            Err(e) => {
                return Err(e);
            },
        };
        let (source, b) = match split_source_at(s, a) {
            Ok(x) => x,
            Err(e) => {
                return Err(e);
            },
        };
        proof {
            lemma_rest_rest(s@, a as int, b - a);
        }
        let (verb, c) = match split_verb_at(s, b) {
            Ok(x) => x,
            Err(e) => {
                return Err(e);
            },
        };
        proof {
            lemma_rest_rest(s@, b as int, c - b);
        }
        let (params, d) = match split_after_verb_at(s, c) {
            Ok(x) => x,
            Err(e) => {
                return Err(e);
            },
        };
        Ok((Atoms { tags, source, verb, params }, d))
    }
}

} // verus!

verus! {

/// `n` space bytes.
pub open spec fn spaces(n: nat) -> Seq<u8> {
    Seq::new(n, |i: int| SPACE)
}

/// Input that ends inside the verb (bytes that are all ASCII letters and
/// digits, none at all included) gives `End`, never `Malformed`: the line is
/// not over yet.
pub proof fn lemma_end_inside_verb(s: Seq<u8>)
    requires
        free_of(s, Stop::NonAlnum),
    ensures
        split_line(s) == Err::<(AtomsView, int), ParseError>(ParseError::End),
{
    if s.len() > 0 {
        assert(!stops(Stop::NonAlnum, s[0]));
        assert(rest(s, 0) =~= s);
        lemma_run_len_free(s, Stop::NonAlnum);
    }
}

/// A line that starts with a verb and then a space splits as the verb and
/// what follows it.
proof fn lemma_starts_with_verb(v: Seq<u8>, w: Seq<u8>)
    requires
        v.len() > 0,
        free_of(v, Stop::NonAlnum),
        w.len() > 0,
        w[0] == SPACE,
    ensures
        split_line(v + w) == match split_after_verb(w) {
            Ok((ps, d)) => Ok::<(AtomsView, int), ParseError>(
                (AtomsView { tags: seq![], source: None, verb: v, params: ps }, v.len() + d),
            ),
            Err(e) => Err(e),
        },
{
    let x = v + w;
    assert(x[0] == v[0]);
    assert(!stops(Stop::NonAlnum, v[0]));
    assert(rest(x, 0) =~= x);
    lemma_run_len_until(v, w, Stop::NonAlnum);
    assert(x.subrange(0, v.len() as int) =~= v);
    assert(rest(x, v.len() as int) =~= w);
}

/// Spaces before the parameters: one or more, the parameters are the same.
proof fn lemma_spaces_before_params(n: nat, r: Seq<u8>)
    requires
        n >= 1,
    ensures
        match (split_after_verb(spaces(n) + r), split_after_verb(seq![SPACE] + r)) {
            (Ok((a, k)), Ok((b, j))) => a == b && k == j + n - 1,
            (Err(e), Err(f)) => e == f,
            _ => false,
        },
{
    let wx = spaces(n) + r;
    let wy = seq![SPACE] + r;
    let tail = spaces((n - 1) as nat);
    assert(wx[0] == SPACE);
    assert(rest(wx, 1) =~= tail + r);
    assert(rest(wy, 1) =~= r);
    assert forall|i: int| 0 <= i < tail.len() implies !stops(Stop::NonSpace, #[trigger] tail[i]) by {}
    lemma_run_len_append(tail, r, Stop::NonSpace);
    let q = run_len(r, Stop::NonSpace) as int;
    lemma_run_len(r, Stop::NonSpace);
    assert(rest(wx, 1 + (n - 1) + q) =~= rest(r, q));
    assert(rest(wy, 1 + q) =~= rest(r, q));
    assert(wx.len() == n + r.len() && wy.len() == 1 + r.len());
    if q < r.len() {
        assert(wx[n + q] == r[q]);
        assert(wy[1 + q] == r[q]);
    }
}

/// After the verb, a run of spaces separates as one space does: the atoms
/// of `v + spaces(n) + r` are those of `v + " " + r`, and the line is `n - 1`
/// bytes longer; where one fails, the other fails the same way.
pub proof fn lemma_spaces_after_verb(v: Seq<u8>, n: nat, r: Seq<u8>)
    requires
        v.len() > 0,
        free_of(v, Stop::NonAlnum),
        n >= 1,
    ensures
        match (split_line(v + spaces(n) + r), split_line(v + seq![SPACE] + r)) {
            (Ok((a, k)), Ok((b, j))) => a == b && k == j + n - 1,
            (Err(e), Err(f)) => e == f,
            _ => false,
        },
{
    let wx = spaces(n) + r;
    let wy = seq![SPACE] + r;
    assert(v + spaces(n) + r =~= v + wx);
    assert(v + seq![SPACE] + r =~= v + wy);
    lemma_starts_with_verb(v, wx);
    lemma_starts_with_verb(v, wy);
    lemma_spaces_before_params(n, r);
}

} // verus!
