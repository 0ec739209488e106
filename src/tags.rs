//! The IRCv3 tag codec: the escaping of tag values, and the parsing and
//! rendering of a tag block (`key=value;key2=value2`).

use vstd::prelude::*;
use vstd::slice::slice_subrange;
use vstd::slice::slice_to_vec;

use crate::scan::{
    bytes_eq, lemma_run_len, lemma_run_len_append, rest, run_end, run_len, stops, Stop, BACKSLASH,
    COLON, CR, EQUALS, LF, SEMICOLON, SPACE,
};

verus! {

/// The byte that an escape sequence `\c` stands for in a tag value.
pub open spec fn unescape_byte(c: u8) -> u8 {
    if c == COLON {
        SEMICOLON
    } else if c == 0x73 {
        SPACE
    } else if c == 0x72 {
        CR
    } else if c == 0x6e {
        LF
    } else {
        c
    }
}

/// Whether byte `b` is written as an escape sequence in a tag value.
pub open spec fn needs_escape(b: u8) -> bool {
    b == BACKSLASH || b == SEMICOLON || b == SPACE || b == CR || b == LF
}

/// The escape sequence of byte `b` in a tag value, or `b` itself.
pub open spec fn escape_byte(b: u8) -> Seq<u8> {
    if b == BACKSLASH {
        seq![BACKSLASH, BACKSLASH]
    } else if b == SEMICOLON {
        seq![BACKSLASH, COLON]
    } else if b == SPACE {
        seq![BACKSLASH, 0x73u8]
    } else if b == CR {
        seq![BACKSLASH, 0x72u8]
    } else if b == LF {
        seq![BACKSLASH, 0x6eu8]
    } else {
        seq![b]
    }
}

/// The wire form of a tag value: each byte escaped in turn.
pub open spec fn escape(v: Seq<u8>) -> Seq<u8>
    decreases v.len(),
{
    if v.len() == 0 {
        seq![]
    } else {
        escape_byte(v[0]) + escape(rest(v, 1))
    }
}

/// The value that a tag's wire form stands for: `\\`, `\:`, `\s`, `\r` and
/// `\n` give a backslash, `;`, space, CR and LF; any other `\c` gives `c`; a
/// lone backslash at the end is dropped.
pub open spec fn unescape(v: Seq<u8>) -> Seq<u8>
    decreases v.len(),
{
    if v.len() == 0 {
        seq![]
    } else if v[0] == BACKSLASH {
        if v.len() == 1 {
            seq![]
        } else {
            seq![unescape_byte(v[1])] + unescape(rest(v, 2))
        }
    } else {
        seq![v[0]] + unescape(rest(v, 1))
    }
}

/// Unescaping undoes escaping, for every value.
pub proof fn lemma_unescape_escape(v: Seq<u8>)
    ensures
        unescape(escape(v)) == v,
    decreases v.len(),
{
    if v.len() > 0 {
        let w = escape(rest(v, 1));
        let e = escape_byte(v[0]);
        lemma_unescape_escape(rest(v, 1));
        if needs_escape(v[0]) {
            assert(rest(e + w, 2) =~= w);
        } else {
            assert(rest(e + w, 1) =~= w);
        }
        assert(v =~= seq![v[0]] + rest(v, 1));
    }
}

/// The escaped form of `v`, for a tag block.
pub fn escape_value(v: &[u8]) -> (r: Vec<u8>)
    ensures
        r@ == escape(v@),
{
    let mut out: Vec<u8> = Vec::new();
    let mut i: usize = 0;
    assert(rest(v@, 0) =~= v@);
    assert(out@ + escape(v@) =~= escape(v@));
    while i < v.len()
        invariant
            i <= v@.len(),
            escape(v@) == out@ + escape(rest(v@, i as int)),
        decreases v@.len() - i,
    {
        let b = v[i];
        assert(rest(rest(v@, i as int), 1) =~= rest(v@, i + 1));
        if b == BACKSLASH || b == SEMICOLON || b == SPACE || b == CR || b == LF {
            out.push(BACKSLASH);
            if b == BACKSLASH {
                out.push(BACKSLASH);
            } else if b == SEMICOLON {
                out.push(COLON);
            } else if b == SPACE {
                out.push(0x73);
            } else if b == CR {
                out.push(0x72);
            } else {
                out.push(0x6e);
            }
        } else {
            out.push(b);
        }
        assert(escape(v@) == out@ + escape(rest(v@, i + 1)));
        i = i + 1;
    }
    assert(rest(v@, i as int) =~= Seq::<u8>::empty());
    assert(out@ + Seq::<u8>::empty() =~= out@);
    out
}

/// The value that the wire form `v` stands for.
pub fn unescape_value(v: &[u8]) -> (r: Vec<u8>)
    ensures
        r@ == unescape(v@),
{
    let mut out: Vec<u8> = Vec::new();
    let mut i: usize = 0;
    assert(rest(v@, 0) =~= v@);
    assert(out@ + unescape(v@) =~= unescape(v@));
    while i < v.len()
        invariant
            i <= v@.len(),
            unescape(v@) == out@ + unescape(rest(v@, i as int)),
        decreases v@.len() - i,
    {
        let b = v[i];
        if b == BACKSLASH {
            if i + 1 == v.len() {
                i = i + 1;
            } else {
                let c = v[i + 1];
                assert(rest(rest(v@, i as int), 2) =~= rest(v@, i + 2));
                let u = if c == COLON {
                    SEMICOLON
                } else if c == 0x73 {
                    SPACE
                } else if c == 0x72 {
                    CR
                } else if c == 0x6e {
                    LF
                } else {
                    c
                };
                out.push(u);
                i = i + 2;
            }
        } else {
            assert(rest(rest(v@, i as int), 1) =~= rest(v@, i + 1));
            out.push(b);
            i = i + 1;
        }
    }
    assert(rest(v@, i as int) =~= Seq::<u8>::empty());
    assert(out@ + Seq::<u8>::empty() =~= out@);
    out
}

} // verus!

verus! {

/// One tag of a message: a key and its value, unescaped.
#[derive(Clone, Debug, PartialEq, Eq)]
pub struct Tag {
    pub key: Vec<u8>,
    pub value: Vec<u8>,
}

impl View for Tag {
    type V = (Seq<u8>, Seq<u8>);

    open spec fn view(&self) -> (Seq<u8>, Seq<u8>) {
        (self.key@, self.value@)
    }
}

/// A tag mapping as a sequence of key and value pairs, in order.
pub open spec fn tags_view(t: Seq<Tag>) -> Seq<(Seq<u8>, Seq<u8>)> {
    t.map_values(|x: Tag| x@)
}

/// The index of the first tag with key `k` in `m`, or the length of `m`.
pub open spec fn key_pos(m: Seq<(Seq<u8>, Seq<u8>)>, k: Seq<u8>) -> nat
    decreases m.len(),
{
    if m.len() == 0 {
        0
    } else if m[0].0 == k {
        0
    } else {
        1 + key_pos(m.drop_first(), k)
    }
}

/// `m` with key `k` set to `v`: in place where `k` is present, else at the end.
pub open spec fn upsert(m: Seq<(Seq<u8>, Seq<u8>)>, k: Seq<u8>, v: Seq<u8>) -> Seq<(Seq<u8>, Seq<u8>)> {
    if key_pos(m, k) < m.len() {
        m.update(key_pos(m, k) as int, (k, v))
    } else {
        m.push((k, v))
    }
}

/// `m` after one entry `key[=value]` of a tag block. An entry without a key
/// is ignored; one without `=` has the empty value.
pub open spec fn add_entry(m: Seq<(Seq<u8>, Seq<u8>)>, entry: Seq<u8>) -> Seq<(Seq<u8>, Seq<u8>)> {
    let k = run_len(entry, Stop::Byte(EQUALS));
    if k == 0 {
        m
    } else {
        upsert(
            m,
            entry.subrange(0, k as int),
            if k < entry.len() {
                unescape(rest(entry, (k + 1) as int))
            } else {
                seq![]
            },
        )
    }
}

/// `m` after the entries of tag block `b`, taken from left to right: a key
/// keeps its first place and takes its last value.
pub open spec fn tags_from(b: Seq<u8>, m: Seq<(Seq<u8>, Seq<u8>)>) -> Seq<(Seq<u8>, Seq<u8>)>
    decreases b.len(),
{
    let e = run_len(b, Stop::Byte(SEMICOLON));
    let m2 = add_entry(m, b.subrange(0, e as int));
    if e >= b.len() {
        m2
    } else {
        tags_from(rest(b, (e + 1) as int), m2)
    }
}

/// The tag mapping of tag block `b` (the text between `@` and the space).
pub open spec fn parse_tags(b: Seq<u8>) -> Seq<(Seq<u8>, Seq<u8>)> {
    tags_from(b, seq![])
}

/// `key_pos` is the first index that holds key `k`.
pub proof fn lemma_key_pos(m: Seq<(Seq<u8>, Seq<u8>)>, k: Seq<u8>)
    ensures
        key_pos(m, k) <= m.len(),
        forall|i: int| 0 <= i < key_pos(m, k) ==> (#[trigger] m[i]).0 != k,
        key_pos(m, k) < m.len() ==> m[key_pos(m, k) as int].0 == k,
    decreases m.len(),
{
    if m.len() > 0 && m[0].0 != k {
        lemma_key_pos(m.drop_first(), k);
        assert forall|i: int| 0 <= i < key_pos(m, k) implies (#[trigger] m[i]).0 != k by {
            if i > 0 {
                assert(m[i] == m.drop_first()[i - 1]);
            }
        }
    }
}

/// Whether `x` holds key `k`.
fn has_key(t: &Tag, k: &[u8]) -> (r: bool)
    ensures
        r == (t@.0 == k@),
{
    bytes_eq(t.key.as_slice(), k)
}

/// Sets key `k` to `v` in `m`, in place where `k` is present, else at the end.
pub(crate) fn upsert_tag(m: &mut Vec<Tag>, k: Vec<u8>, v: Vec<u8>)
    ensures
        tags_view(final(m)@) == upsert(tags_view(old(m)@), k@, v@),
{
    let ghost mv = tags_view(m@);
    proof {
        lemma_key_pos(mv, k@);
    }
    let mut i: usize = 0;
    while i < m.len()
        invariant
            i <= m@.len(),
            mv == tags_view(m@),
            mv == tags_view(old(m)@),
            mv.len() == m@.len(),
            forall|j: int| 0 <= j < i ==> (#[trigger] mv[j]).0 != k@,
            key_pos(mv, k@) <= mv.len(),
            forall|j: int| 0 <= j < key_pos(mv, k@) ==> (#[trigger] mv[j]).0 != k@,
            key_pos(mv, k@) < mv.len() ==> mv[key_pos(mv, k@) as int].0 == k@,
        decreases m@.len() - i,
    {
        if has_key(&m[i], k.as_slice()) {
            assert(mv[i as int] == m@[i as int]@);
            assert(key_pos(mv, k@) == i) by {
                if key_pos(mv, k@) < i {
                    assert(mv[key_pos(mv, k@) as int].0 == k@);
                } else if key_pos(mv, k@) > i {
                    assert(mv[i as int].0 == k@);
                }
            }
            m.set(i, Tag { key: k, value: v });
            assert(tags_view(m@) =~= upsert(mv, k@, v@));
            return;
        }
        i = i + 1;
    }
    assert(key_pos(mv, k@) == mv.len());
    m.push(Tag { key: k, value: v });
    assert(tags_view(m@) =~= upsert(mv, k@, v@));
}

/// Adds the entry `key[=value]` of a tag block to `m`.
fn add_tag_entry(m: &mut Vec<Tag>, entry: &[u8])
    ensures
        tags_view(final(m)@) == add_entry(tags_view(old(m)@), entry@),
{
    let k = run_end(entry, 0, &Stop::Byte(EQUALS));
    assert(rest(entry@, 0) =~= entry@);
    if k == 0 {
        return;
    }
    let key = slice_to_vec(slice_subrange(entry, 0, k));
    let value = if k < entry.len() {
        unescape_value(slice_subrange(entry, k + 1, entry.len()))
    } else {
        Vec::new()
    };
    upsert_tag(m, key, value);
}

/// The tag mapping of tag block `b`: the entries between `;`, from left to
/// right, each unescaped; a duplicate key keeps its first place and takes its
/// last value.
pub fn parse_tag_block(b: &[u8]) -> (r: Vec<Tag>)
    ensures
        tags_view(r@) == parse_tags(b@),
{
    let mut m: Vec<Tag> = Vec::new();
    let mut i: usize = 0;
    assert(rest(b@, 0) =~= b@);
    assert(tags_view(m@) =~= Seq::<(Seq<u8>, Seq<u8>)>::empty());
    loop
        invariant
            i <= b@.len(),
            parse_tags(b@) == tags_from(rest(b@, i as int), tags_view(m@)),
        decreases b@.len() - i,
    {
        let e = run_end(b, i, &Stop::Byte(SEMICOLON));
        let ghost r = rest(b@, i as int);
        let entry = slice_subrange(b, i, e);
        assert(entry@ =~= r.subrange(0, e - i));
        add_tag_entry(&mut m, entry);
        if e == b.len() {
            return m;
        }
        assert(rest(r, e - i + 1) =~= rest(b@, e + 1));
        i = e + 1;
    }
}

} // verus!

verus! {

/// A run that ends inside `x` ends at the same place in `x + w`.
proof fn lemma_run_len_prefix(x: Seq<u8>, w: Seq<u8>, k: Stop)
    requires
        run_len(x, k) < x.len(),
    ensures
        run_len(x + w, k) == run_len(x, k),
    decreases x.len(),
{
    assert((x + w)[0] == x[0]);
    if !stops(k, x[0]) {
        assert((x + w).drop_first() =~= x.drop_first() + w);
        lemma_run_len_prefix(x.drop_first(), w, k);
    }
}

/// The entries of `x;z` are those of `x`, then those of `z`.
proof fn lemma_tags_from_concat(x: Seq<u8>, z: Seq<u8>, m: Seq<(Seq<u8>, Seq<u8>)>)
    ensures
        tags_from(x + seq![SEMICOLON] + z, m) == tags_from(z, tags_from(x, m)),
    decreases x.len(),
{
    let b = x + seq![SEMICOLON] + z;
    let k = Stop::Byte(SEMICOLON);
    let ex = run_len(x, k) as int;
    lemma_run_len(x, k);
    if ex < x.len() {
        lemma_run_len_prefix(x, seq![SEMICOLON] + z, k);
        assert(b =~= x + (seq![SEMICOLON] + z));
        assert(b.subrange(0, ex) =~= x.subrange(0, ex));
        let x2 = rest(x, ex + 1);
        assert(rest(b, ex + 1) =~= x2 + seq![SEMICOLON] + z);
        lemma_tags_from_concat(x2, z, add_entry(m, x.subrange(0, ex)));
    } else {
        assert forall|i: int| 0 <= i < x.len() implies !stops(k, #[trigger] x[i]) by {}
        lemma_run_len_append(x, seq![SEMICOLON] + z, k);
        assert(b =~= x + (seq![SEMICOLON] + z));
        assert(b.subrange(0, ex) =~= x);
        assert(x.subrange(0, ex) =~= x);
        assert(rest(b, ex + 1) =~= z);
    }
}

/// The entries of a tag block apply from left to right, so the last entry
/// with a key wins: the tags of `x;y`, where `y` is one entry, are the tags
/// of `x` with entry `y` added (a key already there keeps its place and
/// takes the value of `y`; see `upsert`).
pub proof fn lemma_later_entry_wins(x: Seq<u8>, y: Seq<u8>)
    requires
        forall|i: int| 0 <= i < y.len() ==> #[trigger] y[i] != SEMICOLON,
    ensures
        parse_tags(x + seq![SEMICOLON] + y) == add_entry(parse_tags(x), y),
{
    lemma_tags_from_concat(x, y, seq![]);
    let k = Stop::Byte(SEMICOLON);
    assert forall|i: int| 0 <= i < y.len() implies !stops(k, #[trigger] y[i]) by {}
    lemma_run_len_append(y, seq![], k);
    assert(y + Seq::<u8>::empty() =~= y);
    assert(y.subrange(0, y.len() as int) =~= y);
}

} // verus!
