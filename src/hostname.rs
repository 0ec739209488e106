//! Validation of the hostnames of servers and clients, by IRC's rules,
//! which are stricter than those of DNS.

use vstd::prelude::*;

use crate::scan::{is_alnum, rest, run_end, run_len, Stop};

verus! {

/// Separates the labels of a hostname.
pub const DOT: u8 = 0x2e;
/// The one byte besides letters and digits allowed in a label.
pub const HYPHEN: u8 = 0x2d;

/// The labels of `h`: its bytes split at each `.`.
pub open spec fn labels(h: Seq<u8>) -> Seq<Seq<u8>>
    decreases h.len(),
{
    let e = run_len(h, Stop::Byte(DOT)) as int;
    if e >= h.len() {
        seq![h]
    } else {
        seq![h.subrange(0, e)] + labels(rest(h, e + 1))
    }
}

/// Whether `l` is a valid label: one or more ASCII letters, digits and
/// hyphens, neither starting nor ending with a hyphen.
pub open spec fn label_ok(l: Seq<u8>) -> bool {
    &&& l.len() > 0
    &&& forall|i: int| 0 <= i < l.len() ==> is_alnum(#[trigger] l[i]) || l[i] == HYPHEN
    &&& l[0] != HYPHEN
    &&& l[l.len() - 1] != HYPHEN
}

/// Whether `h` is a valid IRC hostname: at least two labels, each valid.
/// Any byte outside ASCII makes it invalid.
pub open spec fn valid_hostname(h: Seq<u8>) -> bool {
    &&& labels(h).len() >= 2
    &&& forall|i: int| 0 <= i < labels(h).len() ==> label_ok(#[trigger] labels(h)[i])
}

/// Whether the bytes of `h` from `a` to `b` form a valid label.
fn check_label(h: &[u8], a: usize, b: usize) -> (r: bool)
    requires
        a <= b <= h@.len(),
    ensures
        r == label_ok(h@.subrange(a as int, b as int)),
{
    let ghost l = h@.subrange(a as int, b as int);
    if a == b || h[a] == HYPHEN || h[b - 1] == HYPHEN {
        return false;
    }
    let mut i = a;
    while i < b
        invariant
            a <= i <= b,
            b <= h@.len(),
            l == h@.subrange(a as int, b as int),
            forall|k: int| 0 <= k < i - a ==> is_alnum(#[trigger] l[k]) || l[k] == HYPHEN,
        decreases b - i,
    {
        let x = h[i];
        if !((0x30 <= x && x <= 0x39) || (0x41 <= x && x <= 0x5a) || (0x61 <= x && x <= 0x7a) || x
            == HYPHEN) {
            assert(l[i - a] == x);
            return false;
        }
        i = i + 1;
    }
    true
}

/// Whether `host` is a valid IRC hostname: split at each `.` into labels,
/// there are at least two, and each is one or more ASCII letters, digits and
/// hyphens that neither starts nor ends with a hyphen. The empty string, and
/// any name that holds a byte outside ASCII, are invalid: an
/// internationalised name must be converted to punycode first.
pub fn is_valid_hostname(host: &[u8]) -> (r: bool)
    ensures
        r == valid_hostname(host@),
{
    let ghost h = host@;
    let ghost mut seen: Seq<Seq<u8>> = seq![];
    let mut count: usize = 0;
    let mut i: usize = 0;
    assert(rest(h, 0) =~= h);
    loop
        invariant
            h == host@,
            i <= h.len(),
            count == seen.len(),
            count <= i,
            labels(h) == seen + labels(rest(h, i as int)),
            forall|k: int| 0 <= k < seen.len() ==> label_ok(#[trigger] seen[k]),
        decreases h.len() - i,
    {
        let e = run_end(host, i, &Stop::Byte(DOT));
        let ghost r = rest(h, i as int);
        assert(r.subrange(0, e - i) =~= h.subrange(i as int, e as int));
        let ok = check_label(host, i, e);
        if !ok {
            assert(labels(h)[count as int] == h.subrange(i as int, e as int));
            return false;
        }
        if e == host.len() {
            proof {
                let all = seen.push(h.subrange(i as int, e as int));
                assert(labels(h) =~= all);
                assert forall|k: int| 0 <= k < all.len() implies label_ok(#[trigger] all[k]) by {
                    if k < seen.len() {
                        assert(all[k] == seen[k]);
                    }
                }
            }
            return count + 1 >= 2;
        }
        proof {
            assert(rest(r, e - i + 1) =~= rest(h, e + 1));
            let l = h.subrange(i as int, e as int);
            assert(seen + labels(r) =~= seen.push(l) + labels(rest(h, e + 1)));
            seen = seen.push(l);
            assert forall|k: int| 0 <= k < seen.len() implies label_ok(#[trigger] seen[k]) by {}
        }
        count = count + 1;
        i = e + 1;
    }
}

} // verus!
