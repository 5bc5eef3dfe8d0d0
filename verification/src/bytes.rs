//! Byte-sequence utilities shared by the object and index codecs: the raw
//! byte-wise ordering on paths, big-endian 32-bit fields, ascii decimal
//! numbers, and lowercase hex.

use vstd::prelude::*;

verus! {

// ---------------------------------------------------------------------------
// Byte-wise lexicographic order
// ---------------------------------------------------------------------------

/// `a` is byte-wise less-or-equal to `b`; a proper prefix sorts first and the
/// directory separator `/` is compared as ordinary data.
pub open spec fn lex_le(a: Seq<u8>, b: Seq<u8>) -> bool
    decreases a.len(),
{
    if a.len() == 0 {
        true
    } else if b.len() == 0 {
        false
    } else if a[0] < b[0] {
        true
    } else if a[0] > b[0] {
        false
    } else {
        lex_le(a.skip(1), b.skip(1))
    }
}

/// Strict byte-wise order.
pub open spec fn lex_lt(a: Seq<u8>, b: Seq<u8>) -> bool {
    lex_le(a, b) && a != b
}

pub proof fn lemma_lex_le_total(a: Seq<u8>, b: Seq<u8>)
    ensures
        lex_le(a, b) || lex_le(b, a),
    decreases a.len(),
{
    if a.len() != 0 && b.len() != 0 && a[0] == b[0] {
        lemma_lex_le_total(a.skip(1), b.skip(1));
    }
}

pub proof fn lemma_lex_le_antisymmetric(a: Seq<u8>, b: Seq<u8>)
    requires
        lex_le(a, b),
        lex_le(b, a),
    ensures
        a == b,
    decreases a.len(),
{
    if a.len() != 0 && b.len() != 0 && a[0] == b[0] {
        lemma_lex_le_antisymmetric(a.skip(1), b.skip(1));
        assert(a =~= seq![a[0]] + a.skip(1));
        assert(b =~= seq![b[0]] + b.skip(1));
    } else {
        assert(a.len() == 0 && b.len() == 0);
        assert(a =~= b);
    }
}

pub proof fn lemma_lex_le_transitive(a: Seq<u8>, b: Seq<u8>, c: Seq<u8>)
    requires
        lex_le(a, b),
        lex_le(b, c),
    ensures
        lex_le(a, c),
    decreases a.len(),
{
    if a.len() != 0 && b.len() != 0 && c.len() != 0 && a[0] == b[0] && b[0] == c[0] {
        lemma_lex_le_transitive(a.skip(1), b.skip(1), c.skip(1));
    }
}

pub proof fn lemma_lex_lt_transitive(a: Seq<u8>, b: Seq<u8>, c: Seq<u8>)
    requires
        lex_lt(a, b),
        lex_lt(b, c),
    ensures
        lex_lt(a, c),
{
    lemma_lex_le_transitive(a, b, c);
    if a == c {
        lemma_lex_le_antisymmetric(a, b);
    }
}

/// A prefix sorts no later than what it begins.
pub proof fn lemma_is_prefix_le(a: Seq<u8>, b: Seq<u8>)
    requires
        is_prefix(a, b),
    ensures
        lex_le(a, b),
    decreases a.len(),
{
    if a.len() != 0 {
        assert(a[0] == b.take(a.len() as int)[0]);
        assert(b.skip(1).take(a.len() - 1) =~= a.skip(1)) by {
            assert forall|t: int| 0 <= t < a.len() - 1 implies b.skip(1).take(a.len() - 1)[t]
                == a.skip(1)[t] by {
                assert(b.take(a.len() as int)[t + 1] == a[t + 1]);
            }
        }
        lemma_is_prefix_le(a.skip(1), b.skip(1));
    }
}

/// Strict order survives dropping a shared front.
pub proof fn lemma_lex_lt_skip_common(a: Seq<u8>, b: Seq<u8>, n: int)
    requires
        lex_lt(a, b),
        0 <= n <= a.len(),
        n <= b.len(),
        a.take(n) == b.take(n),
    ensures
        lex_lt(a.skip(n), b.skip(n)),
    decreases n,
{
    if n == 0 {
        assert(a.skip(0) =~= a);
        assert(b.skip(0) =~= b);
    } else {
        assert(a[0] == b[0]) by {
            assert(a.take(n)[0] == a[0] && b.take(n)[0] == b[0]);
        }
        assert(lex_lt(a.skip(1), b.skip(1))) by {
            if a.skip(1) == b.skip(1) {
                assert(a.skip(1).len() == b.skip(1).len());
                assert forall|t: int| 0 <= t < a.len() implies a[t] == b[t] by {
                    if t >= 1 {
                        assert(a.skip(1)[t - 1] == b.skip(1)[t - 1]);
                    }
                }
                assert(a =~= b);
            }
        }
        assert(a.skip(1).take(n - 1) =~= b.skip(1).take(n - 1)) by {
            assert forall|t: int| 0 <= t < n - 1 implies #[trigger] a.skip(1).take(n - 1)[t]
                == b.skip(1).take(n - 1)[t] by {
                assert(a.skip(1).take(n - 1)[t] == a.skip(1)[t]);
                assert(b.skip(1).take(n - 1)[t] == b.skip(1)[t]);
                assert(a.skip(1)[t] == a[t + 1]);
                assert(b.skip(1)[t] == b[t + 1]);
                assert(a.take(n)[t + 1] == a[t + 1]);
                assert(b.take(n)[t + 1] == b[t + 1]);
                assert(a.take(n)[t + 1] == b.take(n)[t + 1]);
            }
        }
        lemma_lex_lt_skip_common(a.skip(1), b.skip(1), n - 1);
        assert(a.skip(1).skip(n - 1) =~= a.skip(n));
        assert(b.skip(1).skip(n - 1) =~= b.skip(n));
    }
}

/// Anything below `y` is below each front of `y`, unless that front
/// begins it.
pub proof fn lemma_lex_lt_front(x: Seq<u8>, y: Seq<u8>, ky: Seq<u8>)
    requires
        lex_lt(x, y),
        is_prefix(ky, y),
    ensures
        lex_lt(x, ky) || is_prefix(ky, x),
    decreases x.len() + y.len(),
{
    if ky.len() == 0 {
        assert(x.take(0) =~= ky);
        assert(is_prefix(ky, x));
    } else if x.len() == 0 {
        assert(lex_lt(x, ky));
    } else {
        assert(y.len() != 0);
        assert(ky[0] == y[0]) by {
            assert(y.take(ky.len() as int)[0] == ky[0]);
        }
        if x[0] < y[0] {
            assert(lex_lt(x, ky)) by {
                assert(x != ky) by {
                    assert(x[0] != ky[0]);
                }
            }
        } else {
            assert(x[0] == y[0]);
            assert(lex_lt(x.skip(1), y.skip(1))) by {
                if x.skip(1) == y.skip(1) {
                    assert(x.skip(1).len() == y.skip(1).len());
                    assert(x.len() == y.len());
                    assert forall|t: int| 0 <= t < x.len() implies x[t] == y[t] by {
                        if t >= 1 {
                            assert(x.skip(1)[t - 1] == y.skip(1)[t - 1]);
                        }
                    }
                    assert(x =~= y);
                }
            }
            assert(y.skip(1).take(ky.len() - 1) =~= ky.skip(1)) by {
                assert forall|t: int| 0 <= t < ky.len() - 1 implies y.skip(1).take(
                    ky.len() - 1,
                )[t] == ky.skip(1)[t] by {
                    assert(y.take(ky.len() as int)[t + 1] == ky[t + 1]);
                }
            }
            lemma_lex_lt_front(x.skip(1), y.skip(1), ky.skip(1));
            if lex_lt(x.skip(1), ky.skip(1)) {
                assert(lex_lt(x, ky)) by {
                    if x == ky {
                        assert(x.skip(1) =~= ky.skip(1));
                    }
                }
            } else {
                assert(is_prefix(ky, x)) by {
                    assert(x.take(ky.len() as int) =~= ky) by {
                        assert forall|t: int| 0 <= t < ky.len() implies x.take(
                            ky.len() as int,
                        )[t] == ky[t] by {
                            if t >= 1 {
                                assert(x.skip(1).take(ky.len() - 1)[t - 1] == ky.skip(1)[t
                                    - 1]);
                            }
                        }
                    }
                }
            }
        }
    }
}

/// Everything ordered between two sequences sharing a front shares it too.
pub proof fn lemma_prefix_interval(p: Seq<u8>, a: Seq<u8>, b: Seq<u8>, c: Seq<u8>)
    requires
        lex_le(a, b),
        lex_le(b, c),
        is_prefix(p, a),
        is_prefix(p, c),
    ensures
        is_prefix(p, b),
    decreases p.len(),
{
    if p.len() != 0 {
        assert(a.len() != 0 && c.len() != 0);
        assert(a[0] == p[0]) by {
            assert(a.take(p.len() as int)[0] == p[0]);
        }
        assert(c[0] == p[0]) by {
            assert(c.take(p.len() as int)[0] == p[0]);
        }
        assert(b.len() != 0);
        assert(b[0] == p[0]);
        assert(lex_le(a.skip(1), b.skip(1)) && lex_le(b.skip(1), c.skip(1)));
        assert(a.skip(1).take(p.len() - 1) =~= p.skip(1)) by {
            assert forall|t: int| 0 <= t < p.len() - 1 implies a.skip(1).take(p.len() - 1)[t]
                == p.skip(1)[t] by {
                assert(a.take(p.len() as int)[t + 1] == p[t + 1]);
            }
        }
        assert(c.skip(1).take(p.len() - 1) =~= p.skip(1)) by {
            assert forall|t: int| 0 <= t < p.len() - 1 implies c.skip(1).take(p.len() - 1)[t]
                == p.skip(1)[t] by {
                assert(c.take(p.len() as int)[t + 1] == p[t + 1]);
            }
        }
        lemma_prefix_interval(p.skip(1), a.skip(1), b.skip(1), c.skip(1));
        assert(p.skip(1).len() <= b.skip(1).len());
        assert(p.len() <= b.len());
        assert(b.take(p.len() as int) =~= p) by {
            assert forall|t: int| 0 <= t < p.len() implies b.take(p.len() as int)[t]
                == p[t] by {
                assert(b.take(p.len() as int)[t] == b[t]);
                if t >= 1 {
                    assert(b.skip(1).take(p.skip(1).len() as int)[t - 1] == p.skip(1)[t - 1]);
                    assert(b.skip(1).take(p.skip(1).len() as int)[t - 1] == b.skip(1)[t - 1]);
                    assert(b.skip(1)[t - 1] == b[t]);
                    assert(p.skip(1)[t - 1] == p[t]);
                }
            }
        }
        assert(is_prefix(p, b));
    } else {
        assert(b.take(0) =~= p);
    }
}

/// Byte-wise strict comparison of two slices.
pub fn bytes_lt(a: &[u8], b: &[u8]) -> (r: bool)
    ensures
        r == lex_lt(a@, b@),
{
    let r = bytes_lt_from(a, b, 0);
    proof {
        assert(a@.skip(0) =~= a@);
        assert(b@.skip(0) =~= b@);
    }
    r
}

fn bytes_lt_from(a: &[u8], b: &[u8], i: usize) -> (r: bool)
    requires
        i <= a@.len(),
        i <= b@.len(),
    ensures
        r == lex_lt(a@.skip(i as int), b@.skip(i as int)),
    decreases a@.len() - i,
{
    if i == a.len() {
        proof {
            assert(a@.skip(i as int).len() == 0);
            if i < b@.len() {
                assert(a@.skip(i as int) != b@.skip(i as int));
            } else {
                assert(a@.skip(i as int) =~= b@.skip(i as int));
            }
        }
        i < b.len()
    } else if i == b.len() {
        false
    } else {
        let x = a[i];
        let y = b[i];
        proof {
            assert(a@.skip(i as int)[0] == a@[i as int]);
            assert(b@.skip(i as int)[0] == b@[i as int]);
        }
        if x < y {
            proof {
                assert(a@.skip(i as int) != b@.skip(i as int)) by {
                    assert(a@.skip(i as int)[0] != b@.skip(i as int)[0]);
                }
            }
            true
        } else if x > y {
            false
        } else {
            let r = bytes_lt_from(a, b, i + 1);
            proof {
                assert(a@.skip(i as int).skip(1) =~= a@.skip(i + 1));
                assert(b@.skip(i as int).skip(1) =~= b@.skip(i + 1));
                if a@.skip(i + 1) == b@.skip(i + 1) {
                    assert forall|k: int| 0 <= k < a@.skip(i as int).len() implies a@.skip(
                        i as int,
                    )[k] == b@.skip(i as int)[k] by {
                        if k >= 1 {
                            assert(a@.skip(i + 1)[k - 1] == b@.skip(i + 1)[k - 1]);
                        }
                    }
                    assert(a@.skip(i as int) =~= b@.skip(i as int));
                } else {
                    assert(a@.skip(i as int) != b@.skip(i as int)) by {
                        assert(a@.skip(i as int).skip(1) != b@.skip(i as int).skip(1));
                    }
                }
            }
            r
        }
    }
}

/// Byte-for-byte equality of two slices.
pub fn bytes_eq(a: &[u8], b: &[u8]) -> (r: bool)
    ensures
        r == (a@ == b@),
{
    if a.len() != b.len() {
        return false;
    }
    let mut i: usize = 0;
    while i < a.len()
        invariant
            a@.len() == b@.len(),
            i <= a@.len(),
            forall|j: int| 0 <= j < i ==> a@[j] == b@[j],
        decreases a@.len() - i,
    {
        if a[i] != b[i] {
            return false;
        }
        i += 1;
    }
    proof {
        assert(a@ =~= b@);
    }
    true
}

/// `p` is a proper prefix of `q` as a `/`-delimited path: `q` starts with
/// `p` followed by a separator.
pub open spec fn path_ancestor(p: Seq<u8>, q: Seq<u8>) -> bool {
    p.len() < q.len() && q.take(p.len() as int) == p && q[p.len() as int] == 47u8
}

/// Decides `path_ancestor(p@, q@)`.
pub fn is_path_ancestor(p: &[u8], q: &[u8]) -> (r: bool)
    ensures
        r == path_ancestor(p@, q@),
{
    if p.len() >= q.len() {
        return false;
    }
    if q[p.len()] != 47u8 {
        return false;
    }
    let mut i: usize = 0;
    while i < p.len()
        invariant
            p@.len() < q@.len(),
            i <= p@.len(),
            q@[p@.len() as int] == 47u8,
            forall|j: int| 0 <= j < i ==> q@[j] == p@[j],
        decreases p@.len() - i,
    {
        if q[i] != p[i] {
            proof {
                assert(q@.take(p@.len() as int)[i as int] != p@[i as int]);
            }
            return false;
        }
        i += 1;
    }
    proof {
        assert(q@.take(p@.len() as int) =~= p@);
    }
    true
}

/// `pref` stands at the front of `p`.
pub open spec fn is_prefix(pref: Seq<u8>, p: Seq<u8>) -> bool {
    pref.len() <= p.len() && p.take(pref.len() as int) == pref
}

/// Whether `bytes` holds exactly `lit` starting at `at`.
pub fn match_at(bytes: &[u8], at: usize, lit: &[u8]) -> (r: bool)
    requires
        at <= bytes@.len(),
    ensures
        r == (at + lit@.len() <= bytes@.len() && bytes@.subrange(at as int, at + lit@.len())
            == lit@),
{
    let total = bytes.len();
    if total - at < lit.len() {
        return false;
    }
    let mut i: usize = 0;
    while i < lit.len()
        invariant
            at + lit@.len() <= bytes@.len(),
            bytes@.len() <= usize::MAX,
            i <= lit@.len(),
            forall|j: int| 0 <= j < i ==> bytes@[at + j] == lit@[j],
        decreases lit@.len() - i,
    {
        if bytes[at + i] != lit[i] {
            proof {
                assert(bytes@.subrange(at as int, at + lit@.len())[i as int] != lit@[i as int]);
            }
            return false;
        }
        i += 1;
    }
    proof {
        assert(bytes@.subrange(at as int, at + lit@.len()) =~= lit@);
    }
    true
}

// ---------------------------------------------------------------------------
// Big-endian 32-bit fields
// ---------------------------------------------------------------------------

/// The four big-endian bytes of `x`.
pub open spec fn be32(x: u32) -> Seq<u8> {
    seq![
        (x / 0x1000000) as u8,
        ((x / 0x10000) % 0x100) as u8,
        ((x / 0x100) % 0x100) as u8,
        (x % 0x100) as u8,
    ]
}

/// The value of four big-endian bytes.
pub open spec fn be32_val(s: Seq<u8>) -> u32
    recommends
        s.len() == 4,
{
    (s[0] * 0x1000000 + s[1] * 0x10000 + s[2] * 0x100 + s[3]) as u32
}

pub proof fn lemma_be32_round_trip(x: u32)
    ensures
        be32_val(be32(x)) == x,
{
    assert(x / 0x1000000 < 0x100) by (nonlinear_arith);
    assert((x / 0x1000000) * 0x1000000 + ((x / 0x10000) % 0x100) * 0x10000 + ((x / 0x100)
        % 0x100) * 0x100 + (x % 0x100) == x) by (nonlinear_arith);
}

/// Appends the big-endian encoding of `x` to `out`.
pub fn push_be32(out: &mut Vec<u8>, x: u32)
    ensures
        final(out)@ == old(out)@ + be32(x),
{
    out.push((x / 0x1000000) as u8);
    out.push(((x / 0x10000) % 0x100) as u8);
    out.push(((x / 0x100) % 0x100) as u8);
    out.push((x % 0x100) as u8);
    proof {
        assert(final(out)@ =~= old(out)@ + be32(x));
    }
}

/// Reads the big-endian field at `at`.
pub fn read_be32(bytes: &[u8], at: usize) -> (r: u32)
    requires
        at + 4 <= bytes@.len(),
    ensures
        r == be32_val(bytes@.subrange(at as int, at + 4)),
{
    let b0 = bytes[at];
    let b1 = bytes[at + 1];
    let b2 = bytes[at + 2];
    let b3 = bytes[at + 3];
    proof {
        assert(b0 < 0x100 && b1 < 0x100 && b2 < 0x100 && b3 < 0x100);
        assert(b0 * 0x1000000 + b1 * 0x10000 + b2 * 0x100 + b3 < 0x100000000) by (nonlinear_arith)
            requires
                b0 < 0x100 && b1 < 0x100 && b2 < 0x100 && b3 < 0x100,
        ;
    }
    (b0 as u32) * 0x1000000 + (b1 as u32) * 0x10000 + (b2 as u32) * 0x100 + (b3 as u32)
}

/// The two big-endian bytes of `x`.
pub open spec fn be16(x: u16) -> Seq<u8> {
    seq![(x / 0x100) as u8, (x % 0x100) as u8]
}

/// The value of two big-endian bytes.
pub open spec fn be16_val(s: Seq<u8>) -> u16
    recommends
        s.len() == 2,
{
    (s[0] * 0x100 + s[1]) as u16
}

pub proof fn lemma_be16_round_trip(x: u16)
    ensures
        be16_val(be16(x)) == x,
{
    assert((x / 0x100) * 0x100 + x % 0x100 == x);
}

/// Appends the big-endian encoding of `x` to `out`.
pub fn push_be16(out: &mut Vec<u8>, x: u16)
    ensures
        final(out)@ == old(out)@ + be16(x),
{
    out.push((x / 0x100) as u8);
    out.push((x % 0x100) as u8);
    proof {
        assert(final(out)@ =~= old(out)@ + be16(x));
    }
}

/// Reads the two-byte big-endian field at `at`.
pub fn read_be16(bytes: &[u8], at: usize) -> (r: u16)
    requires
        at + 2 <= bytes@.len(),
    ensures
        r == be16_val(bytes@.subrange(at as int, at + 2)),
{
    let total = bytes.len();
    let b0 = bytes[at];
    let b1 = bytes[at + 1];
    (b0 as u16) * 0x100 + (b1 as u16)
}

// ---------------------------------------------------------------------------
// Ascii decimal
// ---------------------------------------------------------------------------

/// The ascii decimal digits of `n`, most significant first, no leading zeros.
pub open spec fn dec_digits(n: nat) -> Seq<u8>
    decreases n,
{
    if n < 10 {
        seq![(48 + n) as u8]
    } else {
        dec_digits(n / 10) + seq![(48 + n % 10) as u8]
    }
}

/// The ascii decimal form of a possibly negative number.
pub open spec fn dec_int(v: int) -> Seq<u8> {
    if v < 0 {
        seq![45u8] + dec_digits((-v) as nat)
    } else {
        dec_digits(v as nat)
    }
}

pub proof fn lemma_dec_digits_are_digits(n: nat)
    ensures
        dec_digits(n).len() >= 1,
        forall|i: int|
            0 <= i < dec_digits(n).len() ==> 48 <= #[trigger] dec_digits(n)[i] <= 57,
    decreases n,
{
    if n >= 10 {
        lemma_dec_digits_are_digits(n / 10);
    }
}

/// Appends the decimal digits of `n` to `out`.
pub fn push_dec_u64(out: &mut Vec<u8>, n: u64)
    ensures
        final(out)@ == old(out)@ + dec_digits(n as nat),
    decreases n,
{
    if n < 10 {
        out.push(48 + n as u8);
        proof {
            assert(final(out)@ =~= old(out)@ + dec_digits(n as nat));
        }
    } else {
        push_dec_u64(out, n / 10);
        out.push(48 + (n % 10) as u8);
        proof {
            assert(final(out)@ =~= old(out)@ + dec_digits(n as nat));
        }
    }
}

/// Appends a copy of `s` to `out`.
pub fn push_all(out: &mut Vec<u8>, s: &[u8])
    ensures
        final(out)@ == old(out)@ + s@,
{
    let mut i: usize = 0;
    proof {
        assert(old(out)@ + s@.take(0) =~= old(out)@);
    }
    while i < s.len()
        invariant
            i <= s@.len(),
            out@ == old(out)@ + s@.take(i as int),
        decreases s@.len() - i,
    {
        out.push(s[i]);
        proof {
            assert(old(out)@ + s@.take(i as int) + seq![s@[i as int]] =~= old(out)@ + s@.take(
                i + 1,
            ));
        }
        i += 1;
    }
    proof {
        assert(s@.take(s@.len() as int) =~= s@);
    }
}

/// Copies the range `[lo, hi)` out of `bytes`.
pub fn subvec(bytes: &[u8], lo: usize, hi: usize) -> (r: Vec<u8>)
    requires
        lo <= hi <= bytes@.len(),
    ensures
        r@ == bytes@.subrange(lo as int, hi as int),
{
    let mut r: Vec<u8> = Vec::new();
    let mut i: usize = lo;
    while i < hi
        invariant
            lo <= i <= hi <= bytes@.len(),
            r@ == bytes@.subrange(lo as int, i as int),
        decreases hi - i,
    {
        r.push(bytes[i]);
        proof {
            assert(bytes@.subrange(lo as int, i as int) + seq![bytes@[i as int]] =~= bytes@
                .subrange(lo as int, i + 1));
        }
        i += 1;
    }
    r
}

/// The numeric value of a digit string, most significant first.
pub open spec fn dec_val(s: Seq<u8>) -> nat
    decreases s.len(),
{
    if s.len() == 0 {
        0
    } else {
        dec_val(s.take(s.len() - 1)) * 10 + (if 48 <= s.last() <= 57 {
            (s.last() - 48) as nat
        } else {
            0
        })
    }
}

/// Every byte of `s` is an ascii digit.
pub open spec fn all_digits(s: Seq<u8>) -> bool {
    forall|i: int| 0 <= i < s.len() ==> 48 <= #[trigger] s[i] <= 57
}

pub proof fn lemma_dec_round_trip(n: nat)
    ensures
        dec_val(dec_digits(n)) == n,
    decreases n,
{
    lemma_dec_digits_are_digits(n);
    let s = dec_digits(n);
    if n < 10 {
        assert(s.len() == 1 && s.last() == 48 + n);
        assert(s.take(s.len() - 1) =~= Seq::<u8>::empty());
        assert(dec_val(s) == dec_val(Seq::<u8>::empty()) * 10 + (s.last() - 48));
    } else {
        lemma_dec_round_trip(n / 10);
        assert(s.last() == 48 + n % 10);
        assert(s.take(s.len() - 1) =~= dec_digits(n / 10));
        assert(dec_val(s) == dec_val(dec_digits(n / 10)) * 10 + (s.last() - 48));
    }
}

/// A digit string's value only grows as digits are appended.
pub proof fn lemma_dec_val_take_le(s: Seq<u8>, i: int)
    requires
        0 <= i <= s.len(),
    ensures
        dec_val(s.take(i)) <= dec_val(s),
    decreases s.len(),
{
    if i < s.len() {
        lemma_dec_val_take_le(s.take(s.len() - 1), i);
        assert(s.take(s.len() - 1).take(i) =~= s.take(i));
        assert(dec_val(s) >= dec_val(s.take(s.len() - 1)));
    } else {
        assert(s.take(i) =~= s);
    }
}

/// Parses the digit string in `[lo, hi)` when its value is at most `bound`.
pub fn parse_dec(bytes: &[u8], lo: usize, hi: usize, bound: u64) -> (r: Option<u64>)
    requires
        lo <= hi <= bytes@.len(),
    ensures
        ({
            let d = bytes@.subrange(lo as int, hi as int);
            if d.len() >= 1 && all_digits(d) && dec_val(d) <= bound {
                r == Some(dec_val(d) as u64)
            } else {
                r is None
            }
        }),
{
    let ghost d = bytes@.subrange(lo as int, hi as int);
    if lo == hi {
        return None;
    }
    let mut acc: u64 = 0;
    let mut i: usize = lo;
    proof {
        assert(d.take(0) =~= Seq::<u8>::empty());
    }
    while i < hi
        invariant
            lo <= i <= hi <= bytes@.len(),
            d == bytes@.subrange(lo as int, hi as int),
            acc == dec_val(d.take(i - lo)),
            acc <= bound,
            all_digits(d.take(i - lo)),
        decreases hi - i,
    {
        let c = bytes[i];
        proof {
            assert(d[i - lo] == bytes@[i as int]);
            assert(d.take(i + 1 - lo).take(i - lo) =~= d.take(i - lo));
            assert(d.take(i + 1 - lo).last() == d[i - lo]);
        }
        if c < 48 || c > 57 {
            proof {
                assert(!all_digits(d)) by {
                    assert(d[i - lo] == c);
                }
            }
            return None;
        }
        let wide: u128 = (acc as u128) * 10 + ((c - 48) as u128);
        if wide > bound as u128 {
            proof {
                assert(dec_val(d.take(i + 1 - lo)) == wide);
                lemma_dec_val_take_le(d, i + 1 - lo);
                assert(dec_val(d) > bound);
            }
            return None;
        }
        acc = (wide) as u64;
        proof {
            assert(acc == dec_val(d.take(i + 1 - lo)));
        }
        i += 1;
    }
    proof {
        assert(d.take(hi - lo) =~= d);
    }
    Some(acc)
}

// ---------------------------------------------------------------------------
// Lowercase hex
// ---------------------------------------------------------------------------

/// The ascii lowercase hex digit for a value below 16.
pub open spec fn hex_digit(n: u8) -> u8
    recommends
        n < 16,
{
    if n < 10 {
        (48 + n) as u8
    } else {
        (87 + n) as u8
    }
}

/// The two lowercase hex digits of one byte.
pub open spec fn hex_pair(b: u8) -> Seq<u8> {
    seq![hex_digit(b / 16), hex_digit((b % 16) as u8)]
}

/// The lowercase hex rendering of a byte sequence.
pub open spec fn hex_seq(s: Seq<u8>) -> Seq<u8>
    decreases s.len(),
{
    if s.len() == 0 {
        Seq::empty()
    } else {
        hex_pair(s[0]) + hex_seq(s.skip(1))
    }
}

pub proof fn lemma_hex_seq_len(s: Seq<u8>)
    ensures
        hex_seq(s).len() == 2 * s.len(),
    decreases s.len(),
{
    if s.len() != 0 {
        lemma_hex_seq_len(s.skip(1));
    }
}

pub proof fn lemma_hex_seq_push(s: Seq<u8>, b: u8)
    ensures
        hex_seq(s.push(b)) == hex_seq(s) + hex_pair(b),
    decreases s.len(),
{
    assert(s.push(b)[0] == if s.len() == 0 {
        b
    } else {
        s[0]
    });
    if s.len() == 0 {
        let t = s.push(b);
        assert(t.len() == 1 && t[0] == b);
        assert(t.skip(1) =~= Seq::<u8>::empty());
        assert(hex_seq(t) == hex_pair(b) + hex_seq(Seq::<u8>::empty()));
        assert(hex_seq(s) == Seq::<u8>::empty());
        assert(hex_pair(b) + Seq::<u8>::empty() =~= Seq::<u8>::empty() + hex_pair(b));
    } else {
        let t = s.push(b);
        assert(t.skip(1) =~= s.skip(1).push(b));
        lemma_hex_seq_push(s.skip(1), b);
        assert(hex_seq(t) == hex_pair(s[0]) + hex_seq(s.skip(1).push(b)));
        assert(hex_seq(t) == hex_pair(s[0]) + (hex_seq(s.skip(1)) + hex_pair(b)));
        assert(hex_pair(s[0]) + (hex_seq(s.skip(1)) + hex_pair(b)) =~= (hex_pair(s[0]) + hex_seq(
            s.skip(1),
        )) + hex_pair(b));
    }
}

/// The value of one ascii hex digit, if it is one.
pub open spec fn hex_val(c: u8) -> Option<u8> {
    if 48 <= c <= 57 {
        Some((c - 48) as u8)
    } else if 97 <= c <= 102 {
        Some((c - 87) as u8)
    } else {
        None
    }
}

pub proof fn lemma_hex_digit_round_trip(n: u8)
    requires
        n < 16,
    ensures
        hex_val(hex_digit(n)) == Some(n),
{
}

/// Appends the two lowercase hex digits of `b` to `out`.
pub fn push_hex_pair(out: &mut Vec<u8>, b: u8)
    ensures
        final(out)@ == old(out)@ + hex_pair(b),
{
    let hi = b / 16;
    let lo = b % 16;
    out.push(if hi < 10 { 48 + hi } else { 87 + hi });
    out.push(if lo < 10 { 48 + lo } else { 87 + lo });
    proof {
        assert(final(out)@ =~= old(out)@ + hex_pair(b));
    }
}

/// Decodes one ascii hex digit.
pub fn hex_digit_val(c: u8) -> (r: Option<u8>)
    ensures
        r == hex_val(c),
{
    if 48 <= c && c <= 57 {
        Some(c - 48)
    } else if 97 <= c && c <= 102 {
        Some(c - 87)
    } else {
        None
    }
}

// ---------------------------------------------------------------------------
// Searching
// ---------------------------------------------------------------------------

/// The least index at or after `from` holding byte `b`, if any.
pub open spec fn find_byte(s: Seq<u8>, b: u8, from: int) -> Option<int>
    decreases s.len() - from,
{
    if from < 0 || from >= s.len() {
        None
    } else if s[from] == b {
        Some(from)
    } else {
        find_byte(s, b, from + 1)
    }
}

pub proof fn lemma_find_byte_found(s: Seq<u8>, b: u8, from: int)
    requires
        0 <= from <= s.len(),
    ensures
        match find_byte(s, b, from) {
            Some(i) => from <= i < s.len() && s[i] == b && forall|j: int|
                from <= j < i ==> s[j] != b,
            None => forall|j: int| from <= j < s.len() ==> s[j] != b,
        },
    decreases s.len() - from,
{
    if from < s.len() && s[from] != b {
        lemma_find_byte_found(s, b, from + 1);
    }
}

/// A byte known at `i`, with none earlier, is where the search lands.
pub proof fn lemma_find_byte_at(s: Seq<u8>, b: u8, from: int, i: int)
    requires
        0 <= from <= i < s.len(),
        s[i] == b,
        forall|j: int| from <= j < i ==> s[j] != b,
    ensures
        find_byte(s, b, from) == Some(i),
{
    lemma_find_byte_found(s, b, from);
    match find_byte(s, b, from) {
        Some(i2) => {
            if i2 < i {
                assert(s[i2] != b);
            }
            if i2 > i {
                assert(s[i] != b);
            }
        },
        None => {
            assert(s[i] != b);
        },
    }
}

/// Finds the least index at or after `from` holding `b`.
pub fn scan_byte(bytes: &[u8], b: u8, from: usize) -> (r: Option<usize>)
    requires
        from <= bytes@.len(),
    ensures
        match r {
            Some(i) => from <= i < bytes@.len() && find_byte(bytes@, b, from as int) == Some(
                i as int,
            ),
            None => find_byte(bytes@, b, from as int) is None,
        },
    decreases bytes@.len() - from,
{
    if from == bytes.len() {
        None
    } else if bytes[from] == b {
        Some(from)
    } else {
        scan_byte(bytes, b, from + 1)
    }
}

} // verus!
