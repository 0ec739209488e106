//! The message joiner: atoms into a wire line, the inverse of the splitter.

use vstd::prelude::*;
use vstd::slice::slice_to_vec;

use crate::scan::{bytes_eq, AT, COLON, CR, EQUALS, LF, SEMICOLON, SPACE};
use crate::split::{bytes_list_view, opt_view, split_line, Atoms, AtomsView};
use crate::tags::{escape, escape_value, tags_view, Tag};

verus! {

/// The wire form of one tag: `key`, or `key=value` with the value escaped.
pub open spec fn render_tag(t: (Seq<u8>, Seq<u8>)) -> Seq<u8> {
    if t.1.len() == 0 {
        t.0
    } else {
        t.0 + seq![EQUALS] + escape(t.1)
    }
}

/// The tags of `t` from index `i` on, each followed by `;` but the last.
pub open spec fn tag_text(t: Seq<(Seq<u8>, Seq<u8>)>, i: int) -> Seq<u8>
    decreases t.len() - i,
{
    if i < 0 || i >= t.len() {
        seq![]
    } else if i + 1 == t.len() {
        render_tag(t[i])
    } else {
        render_tag(t[i]) + seq![SEMICOLON] + tag_text(t, i + 1)
    }
}

/// The tag block of a line with tags `t`: none where `t` is empty.
pub open spec fn tag_part(t: Seq<(Seq<u8>, Seq<u8>)>) -> Seq<u8> {
    if t.len() == 0 {
        seq![]
    } else {
        seq![AT] + tag_text(t, 0) + seq![SPACE]
    }
}

/// The source part of a line: `:source ` where there is one.
pub open spec fn source_part(s: Option<Seq<u8>>) -> Seq<u8> {
    match s {
        Some(x) => seq![COLON] + x + seq![SPACE],
        None => seq![],
    }
}

/// Whether the last parameter `p` must be written as a trailing one: it is
/// empty, holds a space or starts with `:`.
pub open spec fn needs_colon(p: Seq<u8>) -> bool {
    p.len() == 0 || p.contains(SPACE) || p[0] == COLON
}

/// The wire form of parameter `p`; `last` tells whether it is the last one.
pub open spec fn render_param(p: Seq<u8>, last: bool) -> Seq<u8> {
    if last && needs_colon(p) {
        seq![COLON] + p
    } else {
        p
    }
}

/// The parameters of `ps` from index `i` on, each after one space.
pub open spec fn params_text(ps: Seq<Seq<u8>>, i: int) -> Seq<u8>
    decreases ps.len() - i,
{
    if i < 0 || i >= ps.len() {
        seq![]
    } else {
        seq![SPACE] + render_param(ps[i], i + 1 == ps.len()) + params_text(ps, i + 1)
    }
}

/// The wire line of atoms `a`, without its CRLF: the tag block, the source,
/// the verb, and each parameter after a space, the last one with a leading
/// `:` exactly where it needs one.
pub open spec fn join_line(a: AtomsView) -> Seq<u8> {
    tag_part(a.tags) + source_part(a.source) + a.verb + params_text(a.params, 0)
}

/// Appends the bytes of `x` to `out`.
fn push_bytes(out: &mut Vec<u8>, x: &[u8])
    ensures
        final(out)@ == old(out)@ + x@,
{
    let mut y = slice_to_vec(x);
    out.append(&mut y);
}

/// Appends the tags of `t` from index 0, separated by `;`, to `out`.
fn push_tags(out: &mut Vec<u8>, t: &Vec<Tag>)
    ensures
        final(out)@ == old(out)@ + tag_text(tags_view(t@), 0),
{
    let ghost tv = tags_view(t@);
    let ghost start = out@;
    let mut i: usize = 0;
    assert(start =~= start + Seq::<u8>::empty());
    while i < t.len()
        invariant
            i <= t@.len(),
            tv == tags_view(t@),
            tv.len() == t@.len(),
            start + tag_text(tv, 0) == out@ + tag_text(tv, i as int),
        decreases t@.len() - i,
    {
        let ghost before = out@;
        assert(tv[i as int] == t@[i as int]@);
        push_bytes(out, t[i].key.as_slice());
        if t[i].value.len() > 0 {
            out.push(EQUALS);
            let v = escape_value(t[i].value.as_slice());
            push_bytes(out, v.as_slice());
        }
        assert(out@ == before + render_tag(tv[i as int]));
        if i + 1 < t.len() {
            out.push(SEMICOLON);
            assert(out@ == before + render_tag(tv[i as int]) + seq![SEMICOLON]);
        }
        i = i + 1;
    }
    assert(out@ + Seq::<u8>::empty() =~= out@);
}

/// Whether byte string `p` holds a space.
fn has_space(p: &[u8]) -> (r: bool)
    ensures
        r == p@.contains(SPACE),
{
    let mut i: usize = 0;
    while i < p.len()
        invariant
            i <= p@.len(),
            forall|j: int| 0 <= j < i ==> p@[j] != SPACE,
        decreases p@.len() - i,
    {
        if p[i] == SPACE {
            assert(p@[i as int] == SPACE);
            return true;
        }
        i = i + 1;
    }
    false
}

/// Appends the parameters of `ps`, each after a space, to `out`.
fn push_params(out: &mut Vec<u8>, ps: &Vec<Vec<u8>>)
    ensures
        final(out)@ == old(out)@ + params_text(bytes_list_view(ps@), 0),
{
    let ghost pv = bytes_list_view(ps@);
    let ghost start = out@;
    let mut i: usize = 0;
    assert(start =~= start + Seq::<u8>::empty());
    while i < ps.len()
        invariant
            i <= ps@.len(),
            pv == bytes_list_view(ps@),
            pv.len() == ps@.len(),
            start + params_text(pv, 0) == out@ + params_text(pv, i as int),
        decreases ps@.len() - i,
    {
        let ghost before = out@;
        let p = ps[i].as_slice();
        assert(pv[i as int] == p@);
        out.push(SPACE);
        if i + 1 == ps.len() && (p.len() == 0 || has_space(p) || p[0] == COLON) {
            out.push(COLON);
        }
        push_bytes(out, p);
        assert(out@ == before + seq![SPACE] + render_param(pv[i as int], i + 1 == pv.len()));
        i = i + 1;
    }
    assert(out@ + Seq::<u8>::empty() =~= out@);
}

impl Atoms {
    /// The wire line of these atoms, without the CRLF that the caller
    /// appends: `@tags ` where there are tags, `:source ` where there is a
    /// source, the verb, then each parameter after a space; the last one is
    /// written with a leading `:` exactly where it is empty, holds a space or
    /// starts with `:`.
    pub fn join(&self) -> (r: Vec<u8>)
        ensures
            r@ == join_line(self@),
    {
        let mut out: Vec<u8> = Vec::new();
        if self.tags.len() > 0 {
            out.push(AT);
            push_tags(&mut out, &self.tags);
            out.push(SPACE);
        }
        assert(out@ =~= tag_part(self@.tags));
        match &self.source {
            Some(x) => {
                out.push(COLON);
                push_bytes(&mut out, x.as_slice());
                out.push(SPACE);
            },
            None => {},
        }
        assert(out@ =~= tag_part(self@.tags) + source_part(self@.source));
        push_bytes(&mut out, self.verb.as_slice());
        push_params(&mut out, &self.params);
        assert(out@ =~= join_line(self@));
        out
    }
}

} // verus!

verus! {

/// Whether tag lists `x` and `y` hold the same tags, in any order. (For
/// lists with unique keys, as the splitter makes, this is equality of the
/// mappings.)
pub open spec fn same_tags(x: Seq<(Seq<u8>, Seq<u8>)>, y: Seq<(Seq<u8>, Seq<u8>)>) -> bool {
    x.len() == y.len() && forall|i: int| 0 <= i < x.len() ==> y.contains(#[trigger] x[i])
}

/// Whether atoms `a` and `b` make the same message: the same tags in any
/// order, and the same source, verb and parameters.
pub open spec fn same_atoms(a: AtomsView, b: AtomsView) -> bool {
    same_tags(a.tags, b.tags) && a.source == b.source && a.verb == b.verb && a.params == b.params
}

/// The atoms of `x` as one whole line, once CRLF is appended to it.
pub open spec fn line_atoms(x: Seq<u8>) -> Option<AtomsView> {
    match split_line(x + seq![CR, LF]) {
        Ok((a, n)) => if n == x.len() + 2 {
            Some(a)
        } else {
            None
        },
        Err(_) => None,
    }
}

/// Whether lines `x` and `y` (each without its CRLF) are both one whole
/// valid line, and make the same message.
pub open spec fn lines_agree(x: Seq<u8>, y: Seq<u8>) -> bool {
    match (line_atoms(x), line_atoms(y)) {
        (Some(a), Some(b)) => same_atoms(a, b),
        _ => false,
    }
}

/// The atoms of `x` as one whole line, once CRLF is appended to it.
fn atoms_of_line(x: &[u8]) -> (r: Option<Atoms>)
    ensures
        match line_atoms(x@) {
            Some(a) => r is Some && r->0@ == a,
            None => r is None,
        },
{
    let mut v = slice_to_vec(x);
    v.push(CR);
    v.push(LF);
    assert(v@ =~= x@ + seq![CR, LF]);
    match Atoms::split(v.as_slice()) {
        Ok((a, n)) => if n == x.len() + 2 {
            Some(a)
        } else {
            None
        },
        Err(_) => None,
    }
}

/// Whether optional byte strings `x` and `y` are equal.
fn opt_bytes_eq(x: &Option<Vec<u8>>, y: &Option<Vec<u8>>) -> (r: bool)
    ensures
        r == (opt_view(*x) == opt_view(*y)),
{
    match (x, y) {
        (Some(a), Some(b)) => bytes_eq(a.as_slice(), b.as_slice()),
        (None, None) => true,
        _ => false,
    }
}

/// Whether lists of byte strings `x` and `y` are equal.
fn bytes_lists_eq(x: &Vec<Vec<u8>>, y: &Vec<Vec<u8>>) -> (r: bool)
    ensures
        r == (bytes_list_view(x@) == bytes_list_view(y@)),
{
    let ghost xv = bytes_list_view(x@);
    let ghost yv = bytes_list_view(y@);
    if x.len() != y.len() {
        assert(xv.len() != yv.len());
        return false;
    }
    let mut i: usize = 0;
    while i < x.len()
        invariant
            i <= x@.len(),
            x@.len() == y@.len(),
            xv == bytes_list_view(x@),
            yv == bytes_list_view(y@),
            forall|j: int| 0 <= j < i ==> #[trigger] xv[j] == yv[j],
        decreases x@.len() - i,
    {
        if !bytes_eq(x[i].as_slice(), y[i].as_slice()) {
            assert(xv[i as int] != yv[i as int]);
            return false;
        }
        i = i + 1;
    }
    assert(xv =~= yv);
    true
}

/// Whether tag lists `x` and `y` hold the same tags, in any order.
fn tags_agree(x: &Vec<Tag>, y: &Vec<Tag>) -> (r: bool)
    ensures
        r == same_tags(tags_view(x@), tags_view(y@)),
{
    let ghost xv = tags_view(x@);
    let ghost yv = tags_view(y@);
    if x.len() != y.len() {
        return false;
    }
    let mut i: usize = 0;
    while i < x.len()
        invariant
            i <= x@.len(),
            x@.len() == y@.len(),
            xv == tags_view(x@),
            yv == tags_view(y@),
            forall|k: int| 0 <= k < i ==> yv.contains(#[trigger] xv[k]),
        decreases x@.len() - i,
    {
        let mut j: usize = 0;
        let mut found = false;
        while j < y.len() && !found
            invariant
                i < x@.len(),
                j <= y@.len(),
                x@.len() == y@.len(),
                xv == tags_view(x@),
                yv == tags_view(y@),
                found ==> yv.contains(xv[i as int]),
                !found ==> forall|k: int| 0 <= k < j ==> #[trigger] yv[k] != xv[i as int],
            decreases (y@.len() - j) + if found {
                0int
            } else {
                1int
            },
        {
            if bytes_eq(x[i].key.as_slice(), y[j].key.as_slice()) && bytes_eq(
                x[i].value.as_slice(),
                y[j].value.as_slice(),
            ) {
                assert(yv[j as int] == xv[i as int]);
                found = true;
            } else {
                j = j + 1;
            }
        }
        if !found {
            assert(!yv.contains(xv[i as int]));
            return false;
        }
        i = i + 1;
    }
    true
}

/// Whether lines `x` and `y`, each without its CRLF, are both one whole
/// valid line and make the same message: the same tags in any order, and
/// the same source, verb and parameters.
pub fn same_message(x: &[u8], y: &[u8]) -> (r: bool)
    ensures
        r == lines_agree(x@, y@),
{
    let a = match atoms_of_line(x) {
        Some(a) => a,
        None => {
            return false;
        },
    };
    let b = match atoms_of_line(y) {
        Some(b) => b,
        None => {
            return false;
        },
    };
    tags_agree(&a.tags, &b.tags) && opt_bytes_eq(&a.source, &b.source) && bytes_eq(
        a.verb.as_slice(),
        b.verb.as_slice(),
    ) && bytes_lists_eq(&a.params, &b.params)
}

} // verus!
