//! The agreement of the splitter and the joiner: what the joiner writes for
//! atoms that the splitter made splits back into the same atoms.

use vstd::prelude::*;

use crate::incoming::ParseError;
use crate::join::{
    join_line, needs_colon, params_text, render_param, render_tag, source_part, tag_part, tag_text,
};
use crate::scan::{
    free_of, is_alnum, lemma_free_concat, lemma_free_sub, lemma_run_len, lemma_run_len_free,
    lemma_run_len_until, lemma_run_prefix_free, rest, run_len, stops, Stop, AT, BACKSLASH, COLON,
    CR, EQUALS, LF, NUL, SEMICOLON, SPACE,
};
use crate::split::{
    before, split_after_verb, split_line, split_params, split_source, split_tags, split_verb,
    AtomsView,
};
use crate::tags::{
    add_entry, escape, escape_byte, key_pos, lemma_key_pos, lemma_unescape_escape, tags_from,
    unescape, unescape_byte, upsert,
};

verus! {

/// Whether `k` can be a tag key as the splitter makes one: not empty, and
/// free of space, CR, LF, NUL, `;` and `=`.
pub open spec fn key_ok(k: Seq<u8>) -> bool {
    &&& k.len() > 0
    &&& free_of(k, Stop::MiddleEnd)
    &&& free_of(k, Stop::Byte(SEMICOLON))
    &&& free_of(k, Stop::Byte(EQUALS))
}

/// Whether tag list `t` is as the splitter makes one: good keys, each once,
/// and values free of NUL.
pub open spec fn tags_ok(t: Seq<(Seq<u8>, Seq<u8>)>) -> bool {
    &&& forall|i: int| 0 <= i < t.len() ==> key_ok(#[trigger] t[i].0)
    &&& forall|i: int| 0 <= i < t.len() ==> free_of(#[trigger] t[i].1, Stop::Byte(NUL))
    &&& forall|i: int, j: int| 0 <= i < j < t.len() ==> #[trigger] t[i].0 != #[trigger] t[j].0
}

/// Whether `p` can stand as a parameter before the last: not empty, free of
/// space, CR, LF and NUL, and not starting with `:`.
pub open spec fn middle_ok(p: Seq<u8>) -> bool {
    p.len() > 0 && free_of(p, Stop::MiddleEnd) && p[0] != COLON
}

/// Whether parameter list `ps` is as the splitter makes one.
pub open spec fn params_ok(ps: Seq<Seq<u8>>) -> bool {
    &&& forall|i: int| 0 <= i < ps.len() ==> free_of(#[trigger] ps[i], Stop::TrailingEnd)
    &&& forall|i: int| 0 <= i < ps.len() - 1 ==> middle_ok(#[trigger] ps[i])
}

/// Whether atoms `a` are as the splitter makes them.
pub open spec fn atoms_ok(a: AtomsView) -> bool {
    &&& tags_ok(a.tags)
    &&& (a.source is Some ==> free_of(a.source->0, Stop::MiddleEnd))
    &&& a.verb.len() > 0
    &&& free_of(a.verb, Stop::NonAlnum)
    &&& params_ok(a.params)
}

/// Unescaping never makes a NUL out of bytes without one.
proof fn lemma_unescape_no_nul(w: Seq<u8>)
    requires
        free_of(w, Stop::Byte(NUL)),
    ensures
        free_of(unescape(w), Stop::Byte(NUL)),
    decreases w.len(),
{
    if w.len() > 0 {
        if w[0] == BACKSLASH {
            if w.len() > 1 {
                lemma_free_sub(w, 2, w.len() as int, Stop::Byte(NUL));
                lemma_unescape_no_nul(rest(w, 2));
                assert(w[1] != NUL);
                lemma_free_concat(seq![unescape_byte(w[1])], unescape(rest(w, 2)), Stop::Byte(NUL));
            }
        } else {
            lemma_free_sub(w, 1, w.len() as int, Stop::Byte(NUL));
            lemma_unescape_no_nul(rest(w, 1));
            lemma_free_concat(seq![w[0]], unescape(rest(w, 1)), Stop::Byte(NUL));
        }
    }
}

/// Setting a good key keeps a tag list as the splitter makes one.
proof fn lemma_upsert_ok(m: Seq<(Seq<u8>, Seq<u8>)>, k: Seq<u8>, v: Seq<u8>)
    requires
        tags_ok(m),
        key_ok(k),
        free_of(v, Stop::Byte(NUL)),
    ensures
        tags_ok(upsert(m, k, v)),
{
    lemma_key_pos(m, k);
    let r = upsert(m, k, v);
    if key_pos(m, k) < m.len() {
        assert forall|i: int, j: int| 0 <= i < j < r.len() implies #[trigger] r[i].0
            != #[trigger] r[j].0 by {
            assert(r[i].0 == m[i].0 && r[j].0 == m[j].0);
        }
    } else {
        assert forall|i: int, j: int| 0 <= i < j < r.len() implies #[trigger] r[i].0
            != #[trigger] r[j].0 by {
            if j == m.len() {
                assert(r[i] == m[i]);
            } else {
                assert(r[i] == m[i] && r[j] == m[j]);
            }
        }
    }
}

/// The tags of a block free of space, CR, LF and NUL are as the splitter
/// makes them.
proof fn lemma_tags_from_ok(b: Seq<u8>, m: Seq<(Seq<u8>, Seq<u8>)>)
    requires
        tags_ok(m),
        free_of(b, Stop::MiddleEnd),
    ensures
        tags_ok(tags_from(b, m)),
    decreases b.len(),
{
    let e = run_len(b, Stop::Byte(SEMICOLON)) as int;
    lemma_run_len(b, Stop::Byte(SEMICOLON));
    let entry = b.subrange(0, e);
    lemma_free_sub(b, 0, e, Stop::MiddleEnd);
    lemma_run_prefix_free(b, Stop::Byte(SEMICOLON));
    let k = run_len(entry, Stop::Byte(EQUALS)) as int;
    lemma_run_len(entry, Stop::Byte(EQUALS));
    if k > 0 {
        let key = entry.subrange(0, k);
        lemma_run_prefix_free(entry, Stop::Byte(EQUALS));
        lemma_free_sub(entry, 0, k, Stop::MiddleEnd);
        lemma_free_sub(entry, 0, k, Stop::Byte(SEMICOLON));
        if k < entry.len() {
            lemma_free_sub(entry, k + 1, entry.len() as int, Stop::MiddleEnd);
            let w = rest(entry, k + 1);
            assert forall|i: int| 0 <= i < w.len() implies !stops(Stop::Byte(NUL), #[trigger] w[i]) by {
                assert(!stops(Stop::MiddleEnd, w[i]));
            }
            lemma_unescape_no_nul(w);
            lemma_upsert_ok(m, key, unescape(w));
        } else {
            lemma_upsert_ok(m, key, seq![]);
        }
    }
    let m2 = add_entry(m, entry);
    if e < b.len() {
        lemma_free_sub(b, e + 1, b.len() as int, Stop::MiddleEnd);
        lemma_tags_from_ok(rest(b, e + 1), m2);
    }
}

} // verus!

verus! {

/// The parameters that the splitter takes from a parameter position are as
/// it makes them, and there is at least one.
proof fn lemma_split_params_ok(s: Seq<u8>)
    requires
        split_params(s) is Ok,
        s.len() > 0 ==> s[0] != SPACE,
    ensures
        params_ok(split_params(s)->Ok_0.0),
        split_params(s)->Ok_0.0.len() >= 1,
    decreases s.len(),
{
    let ps = split_params(s)->Ok_0.0;
    if s[0] == COLON {
        let t = run_len(rest(s, 1), Stop::TrailingEnd) as int;
        lemma_run_len(rest(s, 1), Stop::TrailingEnd);
        lemma_run_prefix_free(rest(s, 1), Stop::TrailingEnd);
        assert(rest(s, 1).subrange(0, t) =~= s.subrange(1, t + 1));
        assert(ps =~= seq![s.subrange(1, t + 1)]);
    } else {
        let m = run_len(s, Stop::MiddleEnd) as int;
        lemma_run_len(s, Stop::MiddleEnd);
        lemma_run_prefix_free(s, Stop::MiddleEnd);
        let p = s.subrange(0, m);
        assert forall|i: int| 0 <= i < p.len() implies !stops(Stop::TrailingEnd, #[trigger] p[i]) by {
            assert(!stops(Stop::MiddleEnd, p[i]));
        }
        if s[m] == SPACE {
            let q = m + 1 + run_len(rest(s, m + 1), Stop::NonSpace) as int;
            lemma_run_len(rest(s, m + 1), Stop::NonSpace);
            if q < s.len() && s[q] != CR {
                assert(rest(s, m + 1)[q - m - 1] == s[q]);
                lemma_split_params_ok(rest(s, q));
                let ps2 = split_params(rest(s, q))->Ok_0.0;
                assert(ps == seq![p] + ps2);
                assert(m > 0);
                assert(middle_ok(p));
                assert forall|i: int| 0 <= i < ps.len() implies free_of(
                    #[trigger] ps[i],
                    Stop::TrailingEnd,
                ) by {
                    if i > 0 {
                        assert(ps[i] == ps2[i - 1]);
                    }
                }
                assert forall|i: int| 0 <= i < ps.len() - 1 implies middle_ok(#[trigger] ps[i]) by {
                    if i > 0 {
                        assert(ps[i] == ps2[i - 1]);
                    }
                }
            } else {
                assert(ps =~= seq![p]);
            }
        } else {
            assert(ps =~= seq![p]);
        }
    }
}

/// The atoms that the splitter makes are as `atoms_ok` describes.
pub proof fn lemma_split_line_ok(s: Seq<u8>)
    requires
        split_line(s) is Ok,
    ensures
        atoms_ok(split_line(s)->Ok_0.0),
{
    let a = split_line(s)->Ok_0.0;
    let (tags, ta) = split_tags(s)->Ok_0;
    if s[0] == AT {
        let b = run_len(rest(s, 1), Stop::MiddleEnd) as int;
        lemma_run_len(rest(s, 1), Stop::MiddleEnd);
        lemma_run_prefix_free(rest(s, 1), Stop::MiddleEnd);
        assert(rest(s, 1).subrange(0, b) =~= s.subrange(1, 1 + b));
        lemma_tags_from_ok(s.subrange(1, 1 + b), seq![]);
    }
    let s1 = rest(s, ta);
    let (source, sb) = split_source(s1)->Ok_0;
    if s1[0] == COLON {
        let b = run_len(rest(s1, 1), Stop::MiddleEnd) as int;
        lemma_run_len(rest(s1, 1), Stop::MiddleEnd);
        lemma_run_prefix_free(rest(s1, 1), Stop::MiddleEnd);
        assert(rest(s1, 1).subrange(0, b) =~= s1.subrange(1, 1 + b));
        lemma_run_len(rest(s1, 2 + b), Stop::NonSpace);
    }
    let s2 = rest(s, ta + sb);
    let (verb, vc) = split_verb(s2)->Ok_0;
    lemma_run_len(s2, Stop::NonAlnum);
    lemma_run_prefix_free(s2, Stop::NonAlnum);
    let s3 = rest(s, ta + sb + vc);
    if s3[0] == SPACE {
        let q = 1 + run_len(rest(s3, 1), Stop::NonSpace) as int;
        lemma_run_len(rest(s3, 1), Stop::NonSpace);
        if q < s3.len() {
            assert(rest(s3, 1)[q - 1] == s3[q]);
        }
        if q < s3.len() && s3[q] == CR {
            assert(a.params =~= Seq::<Seq<u8>>::empty());
        } else {
            lemma_split_params_ok(rest(s3, q));
            assert(a.params =~= split_params(rest(s3, q))->Ok_0.0);
        }
    } else {
        assert(a.params =~= Seq::<Seq<u8>>::empty());
    }
}

} // verus!

verus! {

/// Escaping a value without NUL leaves no space, CR, LF, NUL or `;`.
proof fn lemma_escape_free(v: Seq<u8>)
    requires
        free_of(v, Stop::Byte(NUL)),
    ensures
        free_of(escape(v), Stop::MiddleEnd),
        free_of(escape(v), Stop::Byte(SEMICOLON)),
    decreases v.len(),
{
    if v.len() > 0 {
        lemma_free_sub(v, 1, v.len() as int, Stop::Byte(NUL));
        lemma_escape_free(rest(v, 1));
        let e = escape_byte(v[0]);
        assert(v[0] != NUL);
        assert(free_of(e, Stop::MiddleEnd));
        assert(free_of(e, Stop::Byte(SEMICOLON)));
        lemma_free_concat(e, escape(rest(v, 1)), Stop::MiddleEnd);
        lemma_free_concat(e, escape(rest(v, 1)), Stop::Byte(SEMICOLON));
    }
}

/// One rendered tag: what it is free of, and the entry it parses as.
proof fn lemma_render_tag(m: Seq<(Seq<u8>, Seq<u8>)>, k: Seq<u8>, v: Seq<u8>)
    requires
        key_ok(k),
        free_of(v, Stop::Byte(NUL)),
    ensures
        free_of(render_tag((k, v)), Stop::MiddleEnd),
        free_of(render_tag((k, v)), Stop::Byte(SEMICOLON)),
        add_entry(m, render_tag((k, v))) == upsert(m, k, v),
{
    let r = render_tag((k, v));
    if v.len() == 0 {
        lemma_run_len_free(k, Stop::Byte(EQUALS));
        assert(r.subrange(0, k.len() as int) =~= k);
        assert(v =~= Seq::<u8>::empty());
    } else {
        lemma_escape_free(v);
        let tail = seq![EQUALS] + escape(v);
        assert(r =~= k + tail);
        lemma_run_len_until(k, tail, Stop::Byte(EQUALS));
        assert(r.subrange(0, k.len() as int) =~= k);
        assert(rest(r, k.len() as int + 1) =~= escape(v));
        lemma_unescape_escape(v);
        lemma_free_concat(seq![EQUALS], escape(v), Stop::MiddleEnd);
        lemma_free_concat(seq![EQUALS], escape(v), Stop::Byte(SEMICOLON));
        lemma_free_concat(k, tail, Stop::MiddleEnd);
        lemma_free_concat(k, tail, Stop::Byte(SEMICOLON));
    }
}

/// The tag text of a tag list as the splitter makes it, from index `i`,
/// parses into the whole list after the tags before `i`.
proof fn lemma_tag_text(t: Seq<(Seq<u8>, Seq<u8>)>, i: int)
    requires
        tags_ok(t),
        0 <= i < t.len(),
    ensures
        free_of(tag_text(t, i), Stop::MiddleEnd),
        tags_from(tag_text(t, i), t.subrange(0, i)) == t,
    decreases t.len() - i,
{
    let (k, v) = t[i];
    assert(key_ok(t[i].0));
    assert(free_of(t[i].1, Stop::Byte(NUL)));
    let m = t.subrange(0, i);
    lemma_render_tag(m, k, v);
    let r = render_tag((k, v));
    lemma_key_pos(m, k);
    if key_pos(m, k) < m.len() {
        assert(m[key_pos(m, k) as int] == t[key_pos(m, k) as int]);
    }
    assert(upsert(m, k, v) =~= t.subrange(0, i + 1));
    let text = tag_text(t, i);
    if i + 1 == t.len() {
        lemma_run_len_free(r, Stop::Byte(SEMICOLON));
        assert(r.subrange(0, r.len() as int) =~= r);
        assert(t.subrange(0, i + 1) =~= t);
    } else {
        lemma_tag_text(t, i + 1);
        let tail = seq![SEMICOLON] + tag_text(t, i + 1);
        assert(text =~= r + tail);
        lemma_run_len_until(r, tail, Stop::Byte(SEMICOLON));
        assert(text.subrange(0, r.len() as int) =~= r);
        assert(rest(text, r.len() as int + 1) =~= tag_text(t, i + 1));
        lemma_free_concat(seq![SEMICOLON], tag_text(t, i + 1), Stop::MiddleEnd);
        lemma_free_concat(r, tail, Stop::MiddleEnd);
    }
}

} // verus!

verus! {

/// The first byte of a rendered parameter is neither a space nor CR.
proof fn lemma_render_param_first(ps: Seq<Seq<u8>>, i: int)
    requires
        params_ok(ps),
        0 <= i < ps.len(),
    ensures
        render_param(ps[i], i + 1 == ps.len()).len() > 0,
        render_param(ps[i], i + 1 == ps.len())[0] != SPACE,
        render_param(ps[i], i + 1 == ps.len())[0] != CR,
{
    let p = ps[i];
    assert(free_of(ps[i], Stop::TrailingEnd));
    if i + 1 < ps.len() {
        assert(middle_ok(ps[i]));
    } else if !needs_colon(p) {
        assert(!stops(Stop::TrailingEnd, p[0]));
        if p[0] == SPACE {
            assert(p.contains(SPACE));
        }
    }
}

/// The parameters of a list as the splitter makes it, rendered from index
/// `i` (without the space before the first), split back into the list from
/// `i` on.
proof fn lemma_params_text(ps: Seq<Seq<u8>>, i: int)
    requires
        params_ok(ps),
        0 <= i < ps.len(),
    ensures
        split_params(rest(params_text(ps, i), 1) + seq![CR, LF]) == Ok::<
            (Seq<Seq<u8>>, int),
            ParseError,
        >((ps.subrange(i, ps.len() as int), params_text(ps, i).len() - 1 + 2)),
    decreases ps.len() - i,
{
    let p = ps[i];
    let last = i + 1 == ps.len();
    let r = render_param(p, last);
    let x = rest(params_text(ps, i), 1);
    assert(x =~= r + params_text(ps, i + 1));
    let crlf = seq![CR, LF];
    let input = x + crlf;
    assert(free_of(ps[i], Stop::TrailingEnd));
    if last {
        assert(params_text(ps, i + 1) =~= Seq::<u8>::empty());
        assert(ps.subrange(i, ps.len() as int) =~= seq![p]);
        if needs_colon(p) {
            assert(input =~= seq![COLON] + (p + crlf));
            assert(rest(input, 1) =~= p + crlf);
            lemma_run_len_until(p, crlf, Stop::TrailingEnd);
            assert(input.subrange(1, p.len() as int + 1) =~= p);
            assert(rest(input, p.len() as int + 1) =~= crlf);
        } else {
            assert(input =~= p + crlf);
            assert forall|j: int| 0 <= j < p.len() implies !stops(Stop::MiddleEnd, #[trigger] p[j]) by {
                assert(!stops(Stop::TrailingEnd, p[j]));
                if p[j] == SPACE {
                    assert(p.contains(SPACE));
                }
            }
            lemma_run_len_until(p, crlf, Stop::MiddleEnd);
            assert(input.subrange(0, p.len() as int) =~= p);
            assert(rest(input, p.len() as int) =~= crlf);
        }
    } else {
        assert(middle_ok(ps[i]));
        lemma_params_text(ps, i + 1);
        lemma_render_param_first(ps, i + 1);
        let x2 = rest(params_text(ps, i + 1), 1);
        assert(params_text(ps, i + 1) =~= seq![SPACE] + x2);
        let after = seq![SPACE] + (x2 + crlf);
        assert(input =~= p + after);
        lemma_run_len_until(p, after, Stop::MiddleEnd);
        let m = p.len() as int;
        assert(input.subrange(0, m) =~= p);
        assert(rest(input, m + 1) =~= x2 + crlf);
        assert((x2 + crlf)[0] == x2[0]);
        assert(run_len(x2 + crlf, Stop::NonSpace) == 0);
        assert(rest(input, m + 1) == rest(input, m + 1 + 0));
        assert(ps.subrange(i, ps.len() as int) =~= seq![p] + ps.subrange(i + 1, ps.len() as int));
    }
}

/// What follows the verb in a joined line splits back into the parameters.
proof fn lemma_after_verb(ps: Seq<Seq<u8>>)
    requires
        params_ok(ps),
    ensures
        split_after_verb(params_text(ps, 0) + seq![CR, LF]) == Ok::<
            (Seq<Seq<u8>>, int),
            ParseError,
        >((ps, params_text(ps, 0).len() as int + 2)),
{
    let crlf = seq![CR, LF];
    let input = params_text(ps, 0) + crlf;
    if ps.len() == 0 {
        assert(input =~= crlf);
        assert(ps =~= Seq::<Seq<u8>>::empty());
    } else {
        lemma_params_text(ps, 0);
        lemma_render_param_first(ps, 0);
        let x = rest(params_text(ps, 0), 1);
        assert(params_text(ps, 0) =~= seq![SPACE] + x);
        assert(rest(input, 1) =~= x + crlf);
        assert((x + crlf)[0] == x[0]);
        assert(run_len(x + crlf, Stop::NonSpace) == 0);
        assert(Seq::<Seq<u8>>::empty() + ps.subrange(0, ps.len() as int) =~= ps);
    }
}

} // verus!

verus! {

/// The tag block of a joined line splits back into the tags.
proof fn lemma_tags_part(t: Seq<(Seq<u8>, Seq<u8>)>, w: Seq<u8>)
    requires
        tags_ok(t),
        w.len() > 0,
        w[0] != AT,
    ensures
        split_tags(tag_part(t) + w) == Ok::<(Seq<(Seq<u8>, Seq<u8>)>, int), ParseError>(
            (t, tag_part(t).len() as int),
        ),
{
    let line = tag_part(t) + w;
    if t.len() == 0 {
        assert(line =~= w);
        assert(t =~= Seq::<(Seq<u8>, Seq<u8>)>::empty());
    } else {
        lemma_tag_text(t, 0);
        let tt = tag_text(t, 0);
        let after = seq![SPACE] + w;
        assert(rest(line, 1) =~= tt + after);
        lemma_run_len_until(tt, after, Stop::MiddleEnd);
        assert(line.subrange(1, 1 + tt.len() as int) =~= tt);
        assert(t.subrange(0, 0) =~= Seq::<(Seq<u8>, Seq<u8>)>::empty());
        assert(t.subrange(0, t.len() as int) =~= t);
    }
}

/// The source part of a joined line splits back into the source.
proof fn lemma_source_part(o: Option<Seq<u8>>, w: Seq<u8>)
    requires
        o is Some ==> free_of(o->0, Stop::MiddleEnd),
        w.len() > 0,
        is_alnum(w[0]),
    ensures
        split_source(source_part(o) + w) == Ok::<(Option<Seq<u8>>, int), ParseError>(
            (o, source_part(o).len() as int),
        ),
{
    let line = source_part(o) + w;
    match o {
        Some(x) => {
            let after = seq![SPACE] + w;
            assert(rest(line, 1) =~= x + after);
            lemma_run_len_until(x, after, Stop::MiddleEnd);
            assert(line.subrange(1, 1 + x.len() as int) =~= x);
            assert(rest(line, 2 + x.len() as int) =~= w);
            assert(run_len(w, Stop::NonSpace) == 0);
        },
        None => {
            assert(line =~= w);
        },
    }
}

/// The verb of a joined line splits back into the verb.
proof fn lemma_verb_part(v: Seq<u8>, w: Seq<u8>)
    requires
        v.len() > 0,
        free_of(v, Stop::NonAlnum),
        w.len() > 0,
        stops(Stop::NonAlnum, w[0]),
    ensures
        split_verb(v + w) == Ok::<(Seq<u8>, int), ParseError>((v, v.len() as int)),
{
    lemma_run_len_until(v, w, Stop::NonAlnum);
    assert((v + w).subrange(0, v.len() as int) =~= v);
}

/// Atoms as the splitter makes them, joined and followed by CRLF, split
/// back into themselves.
#[verifier::rlimit(50)]
proof fn lemma_join_splits_back(a: AtomsView)
    requires
        atoms_ok(a),
    ensures
        split_line(join_line(a) + seq![CR, LF]) == Ok::<(AtomsView, int), ParseError>(
            (a, join_line(a).len() as int + 2),
        ),
{
    let crlf = seq![CR, LF];
    let t = tag_part(a.tags);
    let src = source_part(a.source);
    let v = a.verb;
    let p = params_text(a.params, 0);
    let line = join_line(a) + crlf;
    let w3 = p + crlf;
    let w2 = v + w3;
    let w1 = src + w2;
    assert(line =~= t + w1);
    assert(w2[0] == v[0]);
    assert(is_alnum(v[0]));
    assert(w3[0] == SPACE || w3[0] == CR) by {
        if a.params.len() > 0 {
            assert(p[0] == SPACE);
        }
    }
    lemma_tags_part(a.tags, w1);
    assert(w1[0] == COLON || w1[0] == v[0]);
    lemma_source_part(a.source, w2);
    lemma_verb_part(v, w3);
    lemma_after_verb(a.params);
    assert(rest(line, t.len() as int) =~= w1);
    assert(rest(line, t.len() as int + src.len()) =~= w2);
    assert(rest(line, t.len() as int + src.len() + v.len()) =~= w3);
}

/// Splitting what the joiner writes gives the atoms back: for every line
/// `s` that splits into atoms `a`, the joined line of `a` with CRLF appended
/// splits into exactly `a` again (tags in the same order, the same source,
/// verb and parameters), and takes all of its bytes.
pub proof fn lemma_split_join(s: Seq<u8>)
    requires
        split_line(s) is Ok,
    ensures
        split_line(join_line(split_line(s)->Ok_0.0) + seq![CR, LF]) == Ok::<
            (AtomsView, int),
            ParseError,
        >((split_line(s)->Ok_0.0, join_line(split_line(s)->Ok_0.0).len() as int + 2)),
{
    lemma_split_line_ok(s);
    lemma_join_splits_back(split_line(s)->Ok_0.0);
}

} // verus!
