//! The object model: ids, blobs, trees, commits, and the canonical codec
//! whose SHA-1 keys the store.

use crate::bytes::{
    all_digits, dec_digits, dec_int, dec_val, find_byte, hex_pair, hex_seq, hex_val,
    lemma_dec_round_trip,
    lemma_dec_digits_are_digits, lemma_find_byte_found, lemma_hex_digit_round_trip,
    lemma_hex_seq_len, lemma_hex_seq_push, parse_dec, push_all, push_dec_u64, scan_byte, subvec,
};
use crate::hashing::{sha1_digest, sha1_of};
use crate::meta::Mode;
use crate::Error;
use vstd::prelude::*;

verus! {

// ---------------------------------------------------------------------------
// Id
// ---------------------------------------------------------------------------

/// A 20-byte object identifier: the SHA-1 of the object's canonical bytes.
#[derive(Debug, Eq, Hash)]
pub struct Id {
    bytes: Vec<u8>,
}

impl View for Id {
    type V = Seq<u8>;

    closed spec fn view(&self) -> Seq<u8> {
        self.bytes@
    }
}

impl Clone for Id {
    fn clone(&self) -> (r: Id)
        ensures
            r@ == self@,
    {
        let r = Id { bytes: subvec(self.bytes.as_slice(), 0, self.bytes.len()) };
        proof {
            assert(self.bytes@.subrange(0, self.bytes@.len() as int) =~= self.bytes@);
        }
        r
    }
}

impl PartialEq for Id {
    fn eq(&self, other: &Id) -> (r: bool) {
        crate::bytes::bytes_eq(self.bytes.as_slice(), other.bytes.as_slice())
    }
}

impl vstd::std_specs::cmp::PartialEqSpecImpl for Id {
    open spec fn obeys_eq_spec() -> bool {
        true
    }

    open spec fn eq_spec(&self, other: &Id) -> bool {
        self@ == other@
    }
}

impl Id {
    /// An id always holds exactly 20 bytes.
    pub open spec fn wf(self) -> bool {
        self@.len() == 20
    }

    /// Wraps 20 raw bytes.
    pub fn new(bytes: Vec<u8>) -> (r: Id)
        requires
            bytes@.len() == 20,
        ensures
            r@ == bytes@,
            r.wf(),
    {
        Id { bytes }
    }

    /// The id of a byte sequence: its SHA-1 digest.
    pub fn hash(bytes: &[u8]) -> (r: Id)
        ensures
            r@ == sha1_of(bytes@),
            r.wf(),
    {
        Id { bytes: sha1_digest(bytes) }
    }

    /// The raw 20 bytes.
    pub fn as_bytes(&self) -> (r: &Vec<u8>)
        ensures
            r@ == self@,
    {
        &self.bytes
    }

    /// Reads 20 raw bytes at `at`.
    pub fn read_bytes(bytes: &[u8], at: usize) -> (r: Id)
        requires
            at + 20 <= bytes@.len(),
        ensures
            r@ == bytes@.subrange(at as int, at + 20),
            r.wf(),
    {
        let total = bytes.len();
        Id { bytes: subvec(bytes, at, at + 20) }
    }

    /// Appends the raw 20 bytes to `out`.
    pub fn write_bytes(&self, out: &mut Vec<u8>)
        ensures
            final(out)@ == old(out)@ + self@,
    {
        push_all(out, self.bytes.as_slice());
    }

    /// Appends the 40 lowercase hex digits to `out`.
    pub fn write_hex(&self, out: &mut Vec<u8>)
        ensures
            final(out)@ == old(out)@ + hex_seq(self@),
    {
        let mut i: usize = 0;
        proof {
            assert(self@.take(0) =~= Seq::<u8>::empty());
            assert(old(out)@ + Seq::<u8>::empty() =~= old(out)@);
        }
        while i < self.bytes.len()
            invariant
                i <= self@.len(),
                out@ == old(out)@ + hex_seq(self@.take(i as int)),
            decreases self@.len() - i,
        {
            crate::bytes::push_hex_pair(out, self.bytes[i]);
            proof {
                lemma_hex_seq_push(self@.take(i as int), self@[i as int]);
                assert(self@.take(i as int).push(self@[i as int]) =~= self@.take(i + 1));
                assert(old(out)@ + hex_seq(self@.take(i as int)) + hex_pair(self@[i as int]) =~= old(
                    out,
                )@ + (hex_seq(self@.take(i as int)) + hex_pair(self@[i as int])));
            }
            i += 1;
        }
        proof {
            assert(self@.take(self@.len() as int) =~= self@);
        }
    }

    /// The 40 lowercase hex digits.
    pub fn to_hex(&self) -> (r: Vec<u8>)
        ensures
            r@ == hex_seq(self@),
    {
        let mut out: Vec<u8> = Vec::new();
        self.write_hex(&mut out);
        proof {
            assert(Seq::<u8>::empty() + hex_seq(self@) =~= hex_seq(self@));
        }
        out
    }

    /// Reads 40 hex digits at `at` into an id.
    pub fn read_hex(bytes: &[u8], at: usize) -> (r: Result<Id, Error>)
        requires
            at + 40 <= bytes@.len(),
        ensures
            match hex_parse(bytes@.subrange(at as int, at + 40)) {
                Some(s) => r matches Ok(id) && id@ == s && id.wf(),
                None => r == Err::<Id, Error>(Error::Corrupt),
            },
    {
        match read_hex_bytes(bytes, at, 20) {
            Ok(v) => Ok(Id::new(v)),
            Err(e) => Err(e),
        }
    }

    /// The object's relative path inside the store: the first hex pair, a
    /// separator, then the remaining 38 hex digits.
    pub open spec fn spec_rel_path(id: Seq<u8>) -> Seq<u8> {
        hex_pair(id[0]) + seq![47u8] + hex_seq(id.skip(1))
    }

    /// The relative path of this id under the object directory.
    pub fn to_path_buf(&self) -> (r: Vec<u8>)
        requires
            self.wf(),
        ensures
            r@ == Id::spec_rel_path(self@),
    {
        let mut out: Vec<u8> = Vec::new();
        crate::bytes::push_hex_pair(&mut out, self.bytes[0]);
        out.push(47);
        let mut i: usize = 1;
        proof {
            assert(self@.skip(1).take(0) =~= Seq::<u8>::empty());
            assert(hex_pair(self@[0]) + seq![47u8] + Seq::<u8>::empty() =~= hex_pair(self@[0])
                + seq![47u8]);
            assert(out@ =~= hex_pair(self@[0]) + seq![47u8]);
        }
        while i < self.bytes.len()
            invariant
                1 <= i <= self@.len(),
                self@.len() == 20,
                out@ == hex_pair(self@[0]) + seq![47u8] + hex_seq(self@.skip(1).take(i - 1)),
            decreases self@.len() - i,
        {
            crate::bytes::push_hex_pair(&mut out, self.bytes[i]);
            proof {
                lemma_hex_seq_push(self@.skip(1).take(i - 1), self@[i as int]);
                assert(self@.skip(1).take(i - 1).push(self@[i as int]) =~= self@.skip(1).take(
                    i as int,
                ));
                assert(hex_pair(self@[0]) + seq![47u8] + hex_seq(self@.skip(1).take(i - 1))
                    + hex_pair(self@[i as int]) =~= hex_pair(self@[0]) + seq![47u8] + (hex_seq(
                    self@.skip(1).take(i - 1),
                ) + hex_pair(self@[i as int])));
            }
            i += 1;
        }
        proof {
            assert(self@.skip(1).take(19) =~= self@.skip(1));
        }
        out
    }
}

// ---------------------------------------------------------------------------
// Hex parsing
// ---------------------------------------------------------------------------

/// What a run of hex digit pairs decodes to, if every pair is well formed
/// and none is cut short.
pub open spec fn hex_parse(s: Seq<u8>) -> Option<Seq<u8>>
    decreases s.len(),
{
    if s.len() == 0 {
        Some(Seq::empty())
    } else if s.len() == 1 {
        None
    } else {
        match (hex_val(s[0]), hex_val(s[1])) {
            (Some(hi), Some(lo)) => match hex_parse(s.skip(2)) {
                Some(rest) => Some(seq![(hi * 16 + lo) as u8] + rest),
                None => None,
            },
            _ => None,
        }
    }
}

/// Hex decoding inverts hex encoding.
pub proof fn lemma_hex_round_trip(b: Seq<u8>)
    ensures
        hex_parse(hex_seq(b)) == Some(b),
    decreases b.len(),
{
    if b.len() == 0 {
        assert(hex_seq(b).len() == 0);
    } else {
        let s = hex_seq(b);
        lemma_hex_seq_len(b.skip(1));
        assert(s == hex_pair(b[0]) + hex_seq(b.skip(1)));
        assert(s.len() == 2 + 2 * b.skip(1).len());
        assert(s[0] == hex_pair(b[0])[0] && s[1] == hex_pair(b[0])[1]);
        lemma_hex_digit_round_trip(b[0] / 16);
        lemma_hex_digit_round_trip((b[0] % 16) as u8);
        assert(s.skip(2) =~= hex_seq(b.skip(1)));
        lemma_hex_round_trip(b.skip(1));
        assert((b[0] / 16) * 16 + b[0] % 16 == b[0]);
        assert(seq![b[0]] + b.skip(1) =~= b);
    }
}

/// Reads `2 * n` hex digits at `at` into `n` raw bytes.
pub fn read_hex_bytes(bytes: &[u8], at: usize, n: usize) -> (r: Result<Vec<u8>, Error>)
    requires
        at + 2 * n <= bytes@.len(),
    ensures
        match hex_parse(bytes@.subrange(at as int, at + 2 * n)) {
            Some(s) => r matches Ok(v) && v@ == s && v@.len() == n,
            None => r == Err::<Vec<u8>, Error>(Error::Corrupt),
        },
{
    let total = bytes.len();
    let ghost sub = bytes@.subrange(at as int, at + 2 * n);
    let mut out: Vec<u8> = Vec::new();
    let mut k: usize = 0;
    proof {
        assert(sub.skip(0) =~= sub);
        assert(Seq::<u8>::empty() + sub =~= sub);
    }
    while k < n
        invariant
            k <= n,
            at + 2 * n <= bytes@.len(),
            bytes@.len() == total,
            sub == bytes@.subrange(at as int, at + 2 * n),
            out@.len() == k,
            ({
                match hex_parse(sub.skip(2 * k)) {
                    Some(rest) => hex_parse(sub) == Some(out@ + rest),
                    None => hex_parse(sub) is None,
                }
            }),
        decreases n - k,
    {
        let ghost s2 = sub.skip(2 * k);
        proof {
            assert(s2.len() == 2 * n - 2 * k >= 2);
            assert(s2[0] == sub[2 * k] && sub[2 * k] == bytes@[at + 2 * k]);
            assert(s2[1] == sub[2 * k + 1] && sub[2 * k + 1] == bytes@[at + 2 * k + 1]);
        }
        let c0 = bytes[at + 2 * k];
        let c1 = bytes[at + 2 * k + 1];
        let hi = match crate::bytes::hex_digit_val(c0) {
            Some(v) => v,
            None => {
                return Err(Error::Corrupt);
            },
        };
        let lo = match crate::bytes::hex_digit_val(c1) {
            Some(v) => v,
            None => {
                return Err(Error::Corrupt);
            },
        };
        let ghost pre = out@;
        out.push(hi * 16 + lo);
        proof {
            assert(s2.skip(2) =~= sub.skip(2 * (k + 1)));
            match hex_parse(s2.skip(2)) {
                Some(rest2) => {
                    assert(hex_parse(s2) == Some(seq![(hi * 16 + lo) as u8] + rest2));
                    assert(pre + (seq![(hi * 16 + lo) as u8] + rest2) =~= out@ + rest2);
                },
                None => {
                    assert(hex_parse(s2) is None);
                },
            }
        }
        k += 1;
    }
    proof {
        assert(sub.skip(2 * n) =~= Seq::<u8>::empty());
        assert(hex_parse(sub) == Some(out@ + Seq::<u8>::empty()));
        assert(out@ + Seq::<u8>::empty() =~= out@);
    }
    Ok(out)
}

// ---------------------------------------------------------------------------
// Person
// ---------------------------------------------------------------------------

/// The mathematical model of a person line.
pub struct PersonView {
    pub name: Seq<u8>,
    pub email: Seq<u8>,
    pub time: int,
    pub offset: int,
}

/// An author or committer identity: display name, email, and the instant as
/// unix seconds with a timezone offset in minutes.
pub struct Person {
    pub name: Vec<u8>,
    pub email: Vec<u8>,
    pub time: i64,
    pub offset: i32,
}

impl View for Person {
    type V = PersonView;

    open spec fn view(&self) -> PersonView {
        PersonView {
            name: self.name@,
            email: self.email@,
            time: self.time as int,
            offset: self.offset as int,
        }
    }
}

impl Clone for Person {
    fn clone(&self) -> (r: Person)
        ensures
            r@ == self@,
    {
        let r = Person {
            name: subvec(self.name.as_slice(), 0, self.name.len()),
            email: subvec(self.email.as_slice(), 0, self.email.len()),
            time: self.time,
            offset: self.offset,
        };
        proof {
            assert(self.name@.subrange(0, self.name@.len() as int) =~= self.name@);
            assert(self.email@.subrange(0, self.email@.len() as int) =~= self.email@);
        }
        r
    }
}

/// Two decimal digits, for a value below 100.
pub open spec fn two_dig(n: int) -> Seq<u8>
    recommends
        0 <= n < 100,
{
    seq![(48 + n / 10) as u8, (48 + n % 10) as u8]
}

/// The `±HHMM` rendering of a timezone offset in minutes.
pub open spec fn offset_bytes(off: int) -> Seq<u8> {
    (if off < 0 {
        seq![45u8]
    } else {
        seq![43u8]
    }) + two_dig((if off < 0 {
        -off
    } else {
        off
    }) / 60) + two_dig((if off < 0 {
        -off
    } else {
        off
    }) % 60)
}

impl PersonView {
    /// `<name> <<email>> <unix-seconds> <±HHMM>`.
    pub open spec fn spec_encode(self) -> Seq<u8> {
        self.name + seq![32u8, 60u8] + self.email + seq![62u8, 32u8] + dec_int(self.time)
            + seq![32u8] + offset_bytes(self.offset)
    }

    /// The name holds no `<` and no newline, the email no space and no
    /// newline, the time fits a 64-bit count of seconds, and the offset's
    /// hour and minute fields fit two digits each.
    pub open spec fn wf(self) -> bool {
        &&& forall|i: int| 0 <= i < self.name.len() ==> #[trigger] self.name[i] != 60u8
        &&& forall|i: int| 0 <= i < self.name.len() ==> #[trigger] self.name[i] != 10u8
        &&& forall|i: int| 0 <= i < self.email.len() ==> #[trigger] self.email[i] != 32u8
        &&& forall|i: int| 0 <= i < self.email.len() ==> #[trigger] self.email[i] != 10u8
        &&& i64::MIN <= self.time <= i64::MAX
        &&& -5999 <= self.offset <= 5999
        &&& self.offset % 60 < 60 && self.offset % 60 > -60
    }
}

impl Person {
    /// Builds an identity from its parts.
    pub fn new(name: Vec<u8>, email: Vec<u8>, time: i64, offset: i32) -> (r: Person)
        ensures
            r@ == (PersonView {
                name: name@,
                email: email@,
                time: time as int,
                offset: offset as int,
            }),
    {
        Person { name, email, time, offset }
    }

    /// Reads the person segment at `at`, returning it and the position
    /// after.
    pub fn read(bytes: &[u8], at: usize) -> (r: Result<(Person, usize), Error>)
        requires
            at <= bytes@.len(),
        ensures
            match spec_parse_person(bytes@, at as int) {
                Some(pn) => r matches Ok(q) && q.0@ == pn.0 && q.1 == pn.1,
                None => r == Err::<(Person, usize), Error>(Error::Corrupt),
            },
    {
        parse_person(bytes, at)
    }

    /// Appends the encoded person line body to `out`.
    pub fn write(&self, out: &mut Vec<u8>)
        requires
            self@.wf(),
        ensures
            final(out)@ == old(out)@ + self@.spec_encode(),
    {
        push_all(out, self.name.as_slice());
        out.push(32);
        out.push(60);
        push_all(out, self.email.as_slice());
        out.push(62);
        out.push(32);
        push_dec_i64(out, self.time);
        out.push(32);
        let mag: u32 = if self.offset < 0 {
            (-(self.offset as i64)) as u32
        } else {
            self.offset as u32
        };
        out.push(if self.offset < 0 { 45 } else { 43 });
        let h = mag / 60;
        let m = mag % 60;
        out.push(48 + (h / 10) as u8);
        out.push(48 + (h % 10) as u8);
        out.push(48 + (m / 10) as u8);
        out.push(48 + (m % 10) as u8);
        proof {
            assert(final(out)@ =~= old(out)@ + self@.spec_encode());
        }
    }
}

/// Appends the ascii decimal form of `t`, with a leading minus for negative
/// values.
pub fn push_dec_i64(out: &mut Vec<u8>, t: i64)
    ensures
        final(out)@ == old(out)@ + dec_int(t as int),
{
    if t >= 0 {
        push_dec_u64(out, t as u64);
    } else {
        out.push(45);
        let mag: u64 = if t == i64::MIN {
            9223372036854775808u64
        } else {
            (-t) as u64
        };
        push_dec_u64(out, mag);
        proof {
            assert(final(out)@ =~= old(out)@ + dec_int(t as int));
        }
    }
}

/// What a signed ascii decimal region denotes, when it fits a 64-bit value.
pub open spec fn spec_parse_i64(d: Seq<u8>) -> Option<int> {
    if d.len() >= 2 && d[0] == 45u8 {
        let m = d.skip(1);
        if all_digits(m) && dec_val(m) <= 0x8000000000000000 {
            Some(-(dec_val(m) as int))
        } else {
            None
        }
    } else {
        if d.len() >= 1 && all_digits(d) && dec_val(d) <= 0x7fffffffffffffff {
            Some(dec_val(d) as int)
        } else {
            None
        }
    }
}

/// Signed decimal decoding inverts the encoding, for any 64-bit value.
pub proof fn lemma_parse_i64_round_trip(t: int)
    requires
        i64::MIN <= t <= i64::MAX,
    ensures
        spec_parse_i64(dec_int(t)) == Some(t),
{
    if t >= 0 {
        lemma_dec_digits_are_digits(t as nat);
        lemma_dec_round_trip(t as nat);
        assert(dec_int(t)[0] >= 48);
    } else {
        let m = (-t) as nat;
        lemma_dec_digits_are_digits(m);
        lemma_dec_round_trip(m);
        assert(dec_int(t).skip(1) =~= dec_digits(m));
    }
}

/// Parses the signed decimal region `[lo, hi)`.
pub fn parse_i64_dec(bytes: &[u8], lo: usize, hi: usize) -> (r: Option<i64>)
    requires
        lo <= hi <= bytes@.len(),
    ensures
        match spec_parse_i64(bytes@.subrange(lo as int, hi as int)) {
            Some(v) => r matches Some(t) && t == v,
            None => r is None,
        },
{
    let ghost d = bytes@.subrange(lo as int, hi as int);
    if hi - lo >= 2 && bytes[lo] == 45 {
        proof {
            assert(d[0] == 45u8);
            assert(d.skip(1) =~= bytes@.subrange(lo + 1, hi as int));
        }
        match parse_dec(bytes, lo + 1, hi, 9223372036854775808u64) {
            Some(m) => {
                if m >= 9223372036854775808u64 {
                    Some(i64::MIN)
                } else {
                    Some(-(m as i64))
                }
            },
            None => None,
        }
    } else {
        proof {
            if d.len() >= 2 && d[0] == 45u8 {
                assert(bytes@[lo as int] == 45u8);
            }
        }
        match parse_dec(bytes, lo, hi, 0x7fffffffffffffffu64) {
            Some(v) => Some(v as i64),
            None => None,
        }
    }
}

/// What a five-byte `±HHMM` region denotes, requiring a minute field below
/// sixty.
pub open spec fn spec_parse_offset(d: Seq<u8>) -> Option<int> {
    if d.len() == 5 && (d[0] == 43u8 || d[0] == 45u8) && all_digits(d.skip(1)) {
        let h = (d[1] - 48) * 10 + (d[2] - 48);
        let m = (d[3] - 48) * 10 + (d[4] - 48);
        if m < 60 {
            Some(
                if d[0] == 45u8 {
                    -(h * 60 + m)
                } else {
                    h * 60 + m
                },
            )
        } else {
            None
        }
    } else {
        None
    }
}

/// Offset decoding inverts the encoding on well-formed offsets.
pub proof fn lemma_parse_offset_round_trip(off: int)
    requires
        -5999 <= off <= 5999,
    ensures
        spec_parse_offset(offset_bytes(off)) == Some(off),
{
    let d = offset_bytes(off);
    let a = if off < 0 {
        -off
    } else {
        off
    };
    assert(d.len() == 5);
    assert(d[1] == 48 + (a / 60) / 10 && d[2] == 48 + (a / 60) % 10);
    assert(d[3] == 48 + (a % 60) / 10 && d[4] == 48 + (a % 60) % 10);
    assert(a / 60 <= 99) by (nonlinear_arith)
        requires
            0 <= a <= 5999,
    ;
    assert(all_digits(d.skip(1)));
    assert((a / 60) / 10 * 10 + (a / 60) % 10 == a / 60);
    assert((a % 60) / 10 * 10 + (a % 60) % 10 == a % 60);
    assert(a / 60 * 60 + a % 60 == a);
}

/// What a person segment starting at `at` denotes, and where it ends: the
/// name runs to the ` <`, the email to the `> `, then the seconds and the
/// five-byte offset, each delimited by a space.
pub open spec fn spec_parse_person(s: Seq<u8>, at: int) -> Option<(PersonView, int)>
    recommends
        0 <= at <= s.len(),
{
    match find_byte(s, 60u8, at) {
        None => None,
        Some(j) => if j < at + 1 || s[j - 1] != 32u8 {
            None
        } else {
            match find_byte(s, 32u8, j + 1) {
                None => None,
                Some(k) => if k < j + 2 || s[k - 1] != 62u8 {
                    None
                } else {
                    match find_byte(s, 32u8, k + 1) {
                        None => None,
                        Some(u) => match spec_parse_i64(s.subrange(k + 1, u)) {
                            None => None,
                            Some(t) => if u + 6 <= s.len() {
                                match spec_parse_offset(s.subrange(u + 1, u + 6)) {
                                    None => None,
                                    Some(off) => Some(
                                        (
                                            PersonView {
                                                name: s.subrange(at, j - 1),
                                                email: s.subrange(j + 1, k - 1),
                                                time: t,
                                                offset: off,
                                            },
                                            u + 6,
                                        ),
                                    ),
                                }
                            } else {
                                None
                            },
                        },
                    }
                },
            }
        },
    }
}

/// Parsing a person segment in any context recovers the person and consumes
/// exactly its encoding.
#[verifier::spinoff_prover]
#[verifier::rlimit(100)]
pub proof fn lemma_parse_person(a: Seq<u8>, p: PersonView, b: Seq<u8>)
    requires
        p.wf(),
    ensures
        spec_parse_person(a + p.spec_encode() + b, a.len() as int) == Some(
            (p, a.len() + p.spec_encode().len() as int),
        ),
{
    let e = p.spec_encode();
    let s = a + e + b;
    let at = a.len() as int;
    let n = p.name.len() as int;
    let m = p.email.len() as int;
    let td = dec_int(p.time);
    let t = td.len() as int;
    let ob = offset_bytes(p.offset);
    assert(ob.len() == 5);
    assert(e.len() == n + m + t + 10);
    assert forall|r: int| 0 <= r < e.len() implies s[at + r] == e[r] by {
        assert((a + e + b)[at + r] == (a + e)[at + r]);
        assert((a + e)[at + r] == e[r]);
    }
    assert forall|r: int| 0 <= r < n implies e[r] == p.name[r] by {}
    assert(e[n] == 32u8 && e[n + 1] == 60u8);
    assert forall|r: int| 0 <= r < m implies e[n + 2 + r] == p.email[r] by {}
    assert(e[n + 2 + m] == 62u8 && e[n + 3 + m] == 32u8);
    assert forall|r: int| 0 <= r < t implies e[n + 4 + m + r] == td[r] by {}
    assert(e[n + 4 + m + t] == 32u8);
    assert forall|r: int| 0 <= r < 5 implies e[n + 5 + m + t + r] == ob[r] by {}
    // The decimal region holds no space.
    if p.time >= 0 {
        lemma_dec_digits_are_digits(p.time as nat);
    } else {
        lemma_dec_digits_are_digits((-p.time) as nat);
        assert forall|r: int| 1 <= r < t implies td[r] == dec_digits((-p.time) as nat)[r - 1] by {}
    }
    assert forall|r: int| 0 <= r < t implies td[r] != 32u8 by {}
    // The name search lands on the `<` after the name.
    assert forall|j: int| at <= j < at + n + 1 implies s[j] != 60u8 by {
        if j < at + n {
            assert(s[j] == e[j - at]);
        } else {
            assert(s[j] == e[n]);
        }
    }
    assert(s[at + n + 1] == 60u8);
    crate::bytes::lemma_find_byte_at(s, 60u8, at, at + n + 1);
    let j0 = at + n + 1;
    assert(s[j0 - 1] == 32u8);
    // The email search lands on the space after the `>`.
    assert forall|j: int| j0 + 1 <= j < at + n + 3 + m implies s[j] != 32u8 by {
        if j < at + n + 2 + m {
            assert(s[j] == e[j - at]);
            assert(e[j - at] == p.email[j - at - n - 2]);
        } else {
            assert(s[j] == e[n + 2 + m]);
        }
    }
    assert(s[at + n + 3 + m] == 32u8);
    crate::bytes::lemma_find_byte_at(s, 32u8, j0 + 1, at + n + 3 + m);
    let k0 = at + n + 3 + m;
    assert(s[k0 - 1] == 62u8);
    // The time search lands on the space after the digits.
    assert forall|j: int| k0 + 1 <= j < at + n + 4 + m + t implies s[j] != 32u8 by {
        assert(s[j] == e[j - at]);
        assert(e[j - at] == td[j - at - n - 4 - m]);
    }
    assert(s[at + n + 4 + m + t] == 32u8);
    crate::bytes::lemma_find_byte_at(s, 32u8, k0 + 1, at + n + 4 + m + t);
    let u0 = at + n + 4 + m + t;
    assert(s.subrange(k0 + 1, u0) =~= td);
    lemma_parse_i64_round_trip(p.time);
    assert(u0 + 6 <= s.len());
    assert(s.subrange(u0 + 1, u0 + 6) =~= ob);
    lemma_parse_offset_round_trip(p.offset);
    assert(s.subrange(at, j0 - 1) =~= p.name);
    assert(s.subrange(j0 + 1, k0 - 1) =~= p.email);
    assert(spec_parse_person(s, at) == Some((p, u0 + 6)));
    assert(u0 + 6 == at + e.len());
}

/// Parses the person segment at `at`, returning it and the position after.
pub fn parse_person(bytes: &[u8], at: usize) -> (r: Result<(Person, usize), Error>)
    requires
        at <= bytes@.len(),
    ensures
        match spec_parse_person(bytes@, at as int) {
            Some(pn) => r matches Ok(q) && q.0@ == pn.0 && q.1 == pn.1,
            None => r == Err::<(Person, usize), Error>(Error::Corrupt),
        },
{
    let total = bytes.len();
    let j = match scan_byte(bytes, 60, at) {
        Some(j) => j,
        None => {
            return Err(Error::Corrupt);
        },
    };
    if j < at + 1 {
        return Err(Error::Corrupt);
    }
    if bytes[j - 1] != 32 {
        return Err(Error::Corrupt);
    }
    let name = subvec(bytes, at, j - 1);
    let k = match scan_byte(bytes, 32, j + 1) {
        Some(k) => k,
        None => {
            return Err(Error::Corrupt);
        },
    };
    if k < j + 2 {
        return Err(Error::Corrupt);
    }
    if bytes[k - 1] != 62 {
        return Err(Error::Corrupt);
    }
    let email = subvec(bytes, j + 1, k - 1);
    let u = match scan_byte(bytes, 32, k + 1) {
        Some(u) => u,
        None => {
            return Err(Error::Corrupt);
        },
    };
    let time = match parse_i64_dec(bytes, k + 1, u) {
        Some(t) => t,
        None => {
            return Err(Error::Corrupt);
        },
    };
    if total - u < 6 {
        return Err(Error::Corrupt);
    }
    let offset = match parse_offset(bytes, u + 1) {
        Some(o) => o,
        None => {
            return Err(Error::Corrupt);
        },
    };
    Ok((Person { name, email, time, offset }, u + 6))
}

/// Parses the five-byte offset region at `lo`.
pub fn parse_offset(bytes: &[u8], lo: usize) -> (r: Option<i32>)
    requires
        lo + 5 <= bytes@.len(),
    ensures
        match spec_parse_offset(bytes@.subrange(lo as int, lo + 5)) {
            Some(v) => r matches Some(o) && o == v,
            None => r is None,
        },
{
    let total = bytes.len();
    let ghost d = bytes@.subrange(lo as int, lo + 5);
    let sign = bytes[lo];
    if sign != 43 && sign != 45 {
        return None;
    }
    let c1 = bytes[lo + 1];
    let c2 = bytes[lo + 2];
    let c3 = bytes[lo + 3];
    let c4 = bytes[lo + 4];
    proof {
        assert(d[0] == sign && d[1] == c1 && d[2] == c2 && d[3] == c3 && d[4] == c4);
        assert(d.skip(1) =~= seq![c1, c2, c3, c4]);
    }
    if c1 < 48 || c1 > 57 || c2 < 48 || c2 > 57 || c3 < 48 || c3 > 57 || c4 < 48 || c4 > 57 {
        proof {
            assert(!all_digits(d.skip(1))) by {
                if c1 < 48 || c1 > 57 {
                    assert(d.skip(1)[0] == c1);
                } else if c2 < 48 || c2 > 57 {
                    assert(d.skip(1)[1] == c2);
                } else if c3 < 48 || c3 > 57 {
                    assert(d.skip(1)[2] == c3);
                } else {
                    assert(d.skip(1)[3] == c4);
                }
            }
        }
        return None;
    }
    proof {
        assert(all_digits(d.skip(1))) by {
            assert(forall|i: int|
                0 <= i < 4 ==> d.skip(1)[i] == seq![c1, c2, c3, c4][i]);
        }
    }
    let h: i32 = ((c1 - 48) as i32) * 10 + ((c2 - 48) as i32);
    let m: i32 = ((c3 - 48) as i32) * 10 + ((c4 - 48) as i32);
    if m >= 60 {
        return None;
    }
    Some(if sign == 45 { -(h * 60 + m) } else { h * 60 + m })
}

// ---------------------------------------------------------------------------
// Blob
// ---------------------------------------------------------------------------

/// An opaque sequence of file bytes.
pub struct Blob(pub Vec<u8>);

impl View for Blob {
    type V = Seq<u8>;

    open spec fn view(&self) -> Seq<u8> {
        self.0@
    }
}

impl Blob {
    /// Wraps raw file content.
    pub fn new(data: Vec<u8>) -> (r: Blob)
        ensures
            r@ == data@,
    {
        Blob(data)
    }

    /// The body length.
    pub fn len(&self) -> (r: usize)
        ensures
            r == self@.len(),
    {
        self.0.len()
    }

    /// Reads a whole buffer as a blob body: the raw bytes themselves.
    pub fn read(bytes: &[u8]) -> (r: Blob)
        ensures
            r@ == bytes@,
    {
        let r = Blob(subvec(bytes, 0, bytes.len()));
        proof {
            assert(bytes@.subrange(0, bytes@.len() as int) =~= bytes@);
        }
        r
    }

    /// Appends the body, the raw bytes themselves, to `out`.
    pub fn write(&self, out: &mut Vec<u8>)
        ensures
            final(out)@ == old(out)@ + self@,
    {
        push_all(out, self.0.as_slice());
    }
}

// ---------------------------------------------------------------------------
// Tree nodes
// ---------------------------------------------------------------------------

/// The mathematical model of one tree entry.
pub struct TreeNodeView {
    pub name: Seq<u8>,
    pub id: Seq<u8>,
    pub mode: Mode,
}

impl TreeNodeView {
    /// `<ascii-octal-mode> <name>\0<20-byte id>`.
    pub open spec fn spec_encode(self) -> Seq<u8> {
        self.mode.spec_literal() + seq![32u8] + self.name + seq![0u8] + self.id
    }

    /// The name is a non-empty component without separators or NUL, and the
    /// id is raw 20 bytes.
    pub open spec fn wf(self) -> bool {
        &&& self.id.len() == 20
        &&& self.name.len() >= 1
        &&& forall|i: int| 0 <= i < self.name.len() ==> #[trigger] self.name[i] != 0u8
        &&& forall|i: int| 0 <= i < self.name.len() ==> #[trigger] self.name[i] != 47u8
    }

    /// The name as compared for tree ordering: directory names compare as if
    /// suffixed by a separator.
    pub open spec fn order_key(self) -> Seq<u8> {
        if self.mode is Directory {
            self.name + seq![47u8]
        } else {
            self.name
        }
    }
}

/// One entry of a tree object: a name component, an id, and a mode.
pub struct TreeNode {
    path: Vec<u8>,
    id: Id,
    mode: Mode,
}

impl View for TreeNode {
    type V = TreeNodeView;

    closed spec fn view(&self) -> TreeNodeView {
        TreeNodeView { name: self.path@, id: self.id@, mode: self.mode }
    }
}

impl Clone for TreeNode {
    fn clone(&self) -> (r: TreeNode)
        ensures
            r@ == self@,
    {
        let r = TreeNode {
            path: subvec(self.path.as_slice(), 0, self.path.len()),
            id: self.id.clone(),
            mode: self.mode,
        };
        proof {
            assert(self.path@.subrange(0, self.path@.len() as int) =~= self.path@);
        }
        r
    }
}

impl TreeNode {
    /// Builds a tree entry.
    pub fn new(path: Vec<u8>, id: Id, mode: Mode) -> (r: TreeNode)
        ensures
            r@ == (TreeNodeView { name: path@, id: id@, mode }),
    {
        TreeNode { path, id, mode }
    }

    /// The entry's id.
    pub fn id(&self) -> (r: &Id)
        ensures
            r@ == self@.id,
    {
        &self.id
    }

    /// The entry's mode.
    pub fn mode(&self) -> (r: &Mode)
        ensures
            r == self@.mode,
    {
        &self.mode
    }

    /// The entry's name component.
    pub fn path(&self) -> (r: &Vec<u8>)
        ensures
            r@ == self@.name,
    {
        &self.path
    }

    /// Reads the tree entry at `at`, returning it and the position after.
    pub fn read(bytes: &[u8], at: usize) -> (r: Result<(TreeNode, usize), Error>)
        requires
            at <= bytes@.len(),
        ensures
            match spec_parse_tree_node(bytes@, at as int) {
                Some(nd) => r matches Ok(q) && q.0@ == nd.0 && q.1 == nd.1,
                None => r == Err::<(TreeNode, usize), Error>(Error::Corrupt),
            },
    {
        parse_tree_node(bytes, at)
    }

    /// Appends the encoded entry to `out`.
    pub fn write(&self, out: &mut Vec<u8>)
        ensures
            final(out)@ == old(out)@ + self@.spec_encode(),
    {
        self.mode.push_literal(out);
        out.push(32);
        push_all(out, self.path.as_slice());
        out.push(0);
        self.id.write_bytes(out);
        proof {
            assert(final(out)@ =~= old(out)@ + self@.spec_encode());
        }
    }

    /// The encoded length of the entry.
    pub fn len(&self) -> (r: usize)
        requires
            self@.spec_encode().len() <= usize::MAX,
        ensures
            r == self@.spec_encode().len(),
    {
        let lit_len: usize = match self.mode {
            Mode::Directory => 5,
            Mode::Regular => 6,
            Mode::Executable => 6,
        };
        let id_len = self.id.as_bytes().len();
        lit_len + 1 + self.path.len() + 1 + id_len
    }
}

/// What a tree entry starting at `at` denotes, and where it ends.
pub open spec fn spec_parse_tree_node(s: Seq<u8>, at: int) -> Option<(TreeNodeView, int)>
    recommends
        0 <= at <= s.len(),
{
    match find_byte(s, 32u8, at) {
        None => None,
        Some(sp) => match Mode::spec_of_literal(s.subrange(at, sp)) {
            None => None,
            Some(mode) => match find_byte(s, 0u8, sp + 1) {
                None => None,
                Some(z) => if z + 21 <= s.len() {
                    Some(
                        (
                            TreeNodeView {
                                name: s.subrange(sp + 1, z),
                                id: s.subrange(z + 1, z + 21),
                                mode,
                            },
                            z + 21,
                        ),
                    )
                } else {
                    None
                },
            },
        },
    }
}

/// Parsing a tree entry in any context recovers it and consumes exactly its
/// encoding.
pub proof fn lemma_parse_tree_node(a: Seq<u8>, nd: TreeNodeView, b: Seq<u8>)
    requires
        nd.wf(),
    ensures
        spec_parse_tree_node(a + nd.spec_encode() + b, a.len() as int) == Some(
            (nd, a.len() + nd.spec_encode().len() as int),
        ),
{
    let e = nd.spec_encode();
    let s = a + e + b;
    let at = a.len() as int;
    let ll = nd.mode.spec_literal().len() as int;
    let n = nd.name.len() as int;
    assert(e.len() == ll + n + 22);
    assert forall|r: int| 0 <= r < e.len() implies s[at + r] == e[r] by {
        assert((a + e + b)[at + r] == (a + e)[at + r]);
        assert((a + e)[at + r] == e[r]);
    }
    assert forall|r: int| 0 <= r < ll implies e[r] == nd.mode.spec_literal()[r] by {}
    assert(e[ll] == 32u8);
    assert forall|r: int| 0 <= r < n implies e[ll + 1 + r] == nd.name[r] by {}
    assert(e[ll + 1 + n] == 0u8);
    assert forall|r: int| 0 <= r < 20 implies e[ll + 2 + n + r] == nd.id[r] by {}
    // The space search lands right after the mode literal.
    assert forall|j: int| at <= j < at + ll implies s[j] != 32u8 by {
        assert(s[j] == e[j - at]);
    }
    assert(s[at + ll] == 32u8);
    crate::bytes::lemma_find_byte_at(s, 32u8, at, at + ll);
    assert(s.subrange(at, at + ll) =~= nd.mode.spec_literal());
    Mode::lemma_literal_round_trip(nd.mode);
    // The NUL search lands right after the name.
    assert forall|j: int| at + ll + 1 <= j < at + ll + 1 + n implies s[j] != 0u8 by {
        assert(s[j] == e[j - at]);
    }
    assert(s[at + ll + 1 + n] == 0u8);
    crate::bytes::lemma_find_byte_at(s, 0u8, at + ll + 1, at + ll + 1 + n);
    let z = at + ll + 1 + n;
    assert(z + 21 <= s.len());
    assert(s.subrange(at + ll + 1, z) =~= nd.name);
    assert(s.subrange(z + 1, z + 21) =~= nd.id);
    assert(z + 21 == at + e.len());
}

/// Parses the tree entry at `at`, returning it and the position after.
pub fn parse_tree_node(bytes: &[u8], at: usize) -> (r: Result<(TreeNode, usize), Error>)
    requires
        at <= bytes@.len(),
    ensures
        match spec_parse_tree_node(bytes@, at as int) {
            Some(nd) => r matches Ok(q) && q.0@ == nd.0 && q.1 == nd.1,
            None => r == Err::<(TreeNode, usize), Error>(Error::Corrupt),
        },
{
    let total = bytes.len();
    let sp = match scan_byte(bytes, 32, at) {
        Some(sp) => sp,
        None => {
            return Err(Error::Corrupt);
        },
    };
    let mut lit_dir: Vec<u8> = Vec::new();
    Mode::Directory.push_literal(&mut lit_dir);
    let mut lit_reg: Vec<u8> = Vec::new();
    Mode::Regular.push_literal(&mut lit_reg);
    let mut lit_exe: Vec<u8> = Vec::new();
    Mode::Executable.push_literal(&mut lit_exe);
    proof {
        assert(lit_dir@ =~= Mode::Directory.spec_literal());
        assert(lit_reg@ =~= Mode::Regular.spec_literal());
        assert(lit_exe@ =~= Mode::Executable.spec_literal());
    }
    let ghost modeb = bytes@.subrange(at as int, sp as int);
    let mode = if sp - at == 5 && crate::bytes::match_at(bytes, at, lit_dir.as_slice()) {
        proof {
            assert(modeb =~= bytes@.subrange(at as int, at + 5));
        }
        Mode::Directory
    } else if sp - at == 6 && crate::bytes::match_at(bytes, at, lit_reg.as_slice()) {
        proof {
            assert(modeb =~= bytes@.subrange(at as int, at + 6));
        }
        Mode::Regular
    } else if sp - at == 6 && crate::bytes::match_at(bytes, at, lit_exe.as_slice()) {
        proof {
            assert(modeb =~= bytes@.subrange(at as int, at + 6));
        }
        Mode::Executable
    } else {
        proof {
            if Mode::spec_of_literal(modeb) is Some {
                if modeb == Mode::Directory.spec_literal() {
                    assert(modeb =~= bytes@.subrange(at as int, at + 5));
                } else if modeb == Mode::Regular.spec_literal() {
                    assert(modeb =~= bytes@.subrange(at as int, at + 6));
                } else {
                    assert(modeb =~= bytes@.subrange(at as int, at + 6));
                }
            }
        }
        return Err(Error::Corrupt);
    };
    proof {
        assert(Mode::spec_of_literal(modeb) == Some(mode)) by {
            Mode::lemma_literal_round_trip(mode);
        }
    }
    let z = match scan_byte(bytes, 0, sp + 1) {
        Some(z) => z,
        None => {
            return Err(Error::Corrupt);
        },
    };
    if total - z < 21 {
        return Err(Error::Corrupt);
    }
    let name = subvec(bytes, sp + 1, z);
    let id = Id::read_bytes(bytes, z + 1);
    Ok((TreeNode { path: name, id, mode }, z + 21))
}

// ---------------------------------------------------------------------------
// Tree
// ---------------------------------------------------------------------------

/// The per-entry views of a sequence of tree entries.
pub open spec fn tree_nodes_view(s: Seq<TreeNode>) -> Seq<TreeNodeView> {
    Seq::new(s.len(), |i: int| s[i]@)
}

/// The tree body: the concatenated encodings of its entries.
pub open spec fn tree_body(nodes: Seq<TreeNodeView>) -> Seq<u8>
    decreases nodes.len(),
{
    if nodes.len() == 0 {
        Seq::empty()
    } else {
        nodes[0].spec_encode() + tree_body(nodes.skip(1))
    }
}

pub proof fn lemma_tree_body_push(nodes: Seq<TreeNodeView>, x: TreeNodeView)
    ensures
        tree_body(nodes.push(x)) == tree_body(nodes) + x.spec_encode(),
    decreases nodes.len(),
{
    if nodes.len() == 0 {
        let t = nodes.push(x);
        assert(t[0] == x);
        assert(t.skip(1) =~= Seq::<TreeNodeView>::empty());
        assert(tree_body(t) == x.spec_encode() + tree_body(Seq::<TreeNodeView>::empty()));
        assert(x.spec_encode() + Seq::<u8>::empty() =~= Seq::<u8>::empty() + x.spec_encode());
    } else {
        let t = nodes.push(x);
        assert(t[0] == nodes[0]);
        assert(t.skip(1) =~= nodes.skip(1).push(x));
        lemma_tree_body_push(nodes.skip(1), x);
        assert(tree_body(t) == nodes[0].spec_encode() + (tree_body(nodes.skip(1))
            + x.spec_encode()));
        assert(nodes[0].spec_encode() + (tree_body(nodes.skip(1)) + x.spec_encode()) =~= (
        nodes[0].spec_encode() + tree_body(nodes.skip(1))) + x.spec_encode());
    }
}

/// Every well-formed sequence of tree entries: each entry well formed,
/// strictly ordered by the directory-suffix rule, no duplicate names.
pub open spec fn tree_nodes_wf(nodes: Seq<TreeNodeView>) -> bool {
    &&& forall|i: int| 0 <= i < nodes.len() ==> #[trigger] nodes[i].wf()
    &&& forall|i: int, j: int|
        0 <= i < j < nodes.len() ==> crate::bytes::lex_lt(
            #[trigger] nodes[i].order_key(),
            #[trigger] nodes[j].order_key(),
        )
    &&& forall|i: int, j: int|
        0 <= i < j < nodes.len() ==> #[trigger] nodes[i].name != #[trigger] nodes[j].name
}

/// An ordered sequence of tree entries.
pub struct Tree(Vec<TreeNode>);

impl View for Tree {
    type V = Seq<TreeNodeView>;

    closed spec fn view(&self) -> Seq<TreeNodeView> {
        tree_nodes_view(self.0@)
    }
}

impl Tree {
    /// Wraps a sequence of entries.
    pub fn new(nodes: Vec<TreeNode>) -> (r: Tree)
        ensures
            r@ == tree_nodes_view(nodes@),
    {
        Tree(nodes)
    }

    /// The entries, in order.
    pub fn nodes(&self) -> (r: &Vec<TreeNode>)
        ensures
            tree_nodes_view(r@) == self@,
    {
        &self.0
    }

    /// Appends the tree body to `out`.
    pub fn write(&self, out: &mut Vec<u8>)
        ensures
            final(out)@ == old(out)@ + tree_body(self@),
    {
        let mut i: usize = 0;
        proof {
            assert(self@.take(0) =~= Seq::<TreeNodeView>::empty());
            assert(old(out)@ + tree_body(self@.take(0)) =~= old(out)@);
        }
        while i < self.0.len()
            invariant
                i <= self.0@.len(),
                self@ == tree_nodes_view(self.0@),
                self@.len() == self.0@.len(),
                out@ == old(out)@ + tree_body(self@.take(i as int)),
            decreases self.0@.len() - i,
        {
            let ghost pre = out@;
            self.0[i].write(out);
            proof {
                assert(self@[i as int] == self.0@[i as int]@);
                lemma_tree_body_push(self@.take(i as int), self@[i as int]);
                assert(self@.take(i as int).push(self@[i as int]) =~= self@.take(i + 1));
                assert(pre + self.0@[i as int]@.spec_encode() =~= old(out)@ + (tree_body(
                    self@.take(i as int),
                ) + self@[i as int].spec_encode()));
            }
            i += 1;
        }
        proof {
            assert(self@.take(self@.len() as int) =~= self@);
        }
    }

    /// The length of the tree body.
    pub fn len(&self) -> (r: usize)
        ensures
            r == tree_body(self@).len(),
    {
        let mut buf: Vec<u8> = Vec::new();
        self.write(&mut buf);
        proof {
            assert(Seq::<u8>::empty() + tree_body(self@) =~= tree_body(self@));
        }
        buf.len()
    }

    /// Parses a whole buffer as a tree body.
    pub fn read(bytes: &[u8]) -> (r: Result<Tree, Error>)
        ensures
            match spec_parse_tree(bytes@, 0) {
                Some(vs) => r matches Ok(t) && t@ == vs,
                None => r == Err::<Tree, Error>(Error::Corrupt),
            },
    {
        let total = bytes.len();
        let mut nodes: Vec<TreeNode> = Vec::new();
        let mut pos: usize = 0;
        proof {
            assert(tree_nodes_view(nodes@) =~= Seq::<TreeNodeView>::empty());
        }
        while pos < total
            invariant
                pos <= total,
                bytes@.len() == total,
                ({
                    match spec_parse_tree(bytes@, pos as int) {
                        Some(rest) => spec_parse_tree(bytes@, 0) == Some(
                            tree_nodes_view(nodes@) + rest,
                        ),
                        None => spec_parse_tree(bytes@, 0) is None,
                    }
                }),
            decreases total - pos,
        {
            let (node, next) = match parse_tree_node(bytes, pos) {
                Ok(q) => q,
                Err(e) => {
                    proof {
                        assert(spec_parse_tree(bytes@, pos as int) is None);
                    }
                    return Err(Error::Corrupt);
                },
            };
            proof {
                lemma_parse_tree_node_advances(bytes@, pos as int);
            }
            let ghost pre = tree_nodes_view(nodes@);
            nodes.push(node);
            proof {
                let nd = node@;
                assert(tree_nodes_view(nodes@) =~= pre.push(nd));
                match spec_parse_tree(bytes@, next as int) {
                    Some(rest2) => {
                        assert(spec_parse_tree(bytes@, pos as int) == Some(seq![nd] + rest2));
                        assert(pre + (seq![nd] + rest2) =~= pre.push(nd) + rest2);
                    },
                    None => {
                        assert(spec_parse_tree(bytes@, pos as int) is None);
                    },
                }
            }
            pos = next;
        }
        proof {
            assert(spec_parse_tree(bytes@, pos as int) == Some(Seq::<TreeNodeView>::empty()));
            assert(tree_nodes_view(nodes@) + Seq::<TreeNodeView>::empty() =~= tree_nodes_view(
                nodes@,
            ));
        }
        Ok(Tree(nodes))
    }
}

/// What a tree body denotes from `at` on: entries parsed back to back until
/// the end of the buffer.
pub open spec fn spec_parse_tree(s: Seq<u8>, at: int) -> Option<Seq<TreeNodeView>>
    recommends
        0 <= at <= s.len(),
    decreases s.len() - at,
{
    if at >= s.len() {
        Some(Seq::empty())
    } else {
        match spec_parse_tree_node(s, at) {
            None => None,
            Some((nd, next)) => if at < next <= s.len() {
                match spec_parse_tree(s, next) {
                    None => None,
                    Some(rest) => Some(seq![nd] + rest),
                }
            } else {
                None
            },
        }
    }
}

/// A parsed tree entry always advances the position by at least its fixed
/// fields.
pub proof fn lemma_parse_tree_node_advances(s: Seq<u8>, at: int)
    requires
        0 <= at <= s.len(),
    ensures
        match spec_parse_tree_node(s, at) {
            Some(q) => at + 22 <= q.1 <= s.len(),
            None => true,
        },
{
    match find_byte(s, 32u8, at) {
        None => {},
        Some(sp) => {
            lemma_find_byte_found(s, 32u8, at);
            match find_byte(s, 0u8, sp + 1) {
                None => {},
                Some(z) => {
                    lemma_find_byte_found(s, 0u8, sp + 1);
                },
            }
        },
    }
}

/// Parsing a buffer whose tail is a tree body recovers the entries.
pub proof fn lemma_parse_tree_round_trip(s: Seq<u8>, at: int, nodes: Seq<TreeNodeView>)
    requires
        0 <= at <= s.len(),
        s.subrange(at, s.len() as int) == tree_body(nodes),
        forall|i: int| 0 <= i < nodes.len() ==> #[trigger] nodes[i].wf(),
    ensures
        spec_parse_tree(s, at) == Some(nodes),
    decreases nodes.len(),
{
    if nodes.len() == 0 {
        assert(s.subrange(at, s.len() as int).len() == 0);
        assert(at == s.len());
    } else {
        let nd = nodes[0];
        let e = nd.spec_encode();
        assert(tree_body(nodes) == e + tree_body(nodes.skip(1)));
        assert(e.len() <= s.len() - at) by {
            assert(s.subrange(at, s.len() as int).len() == tree_body(nodes).len());
        }
        let b = s.subrange(at + e.len(), s.len() as int);
        assert(s =~= s.take(at) + e + b) by {
            assert forall|i: int| 0 <= i < s.len() implies s[i] == (s.take(at) + e + b)[i] by {
                if at <= i < at + e.len() {
                    assert(s[i] == s.subrange(at, s.len() as int)[i - at]);
                    assert(tree_body(nodes)[i - at] == e[i - at]);
                }
            }
        }
        lemma_parse_tree_node(s.take(at), nd, b);
        assert(spec_parse_tree_node(s, at) == Some((nd, at + e.len() as int)));
        let next = at + e.len() as int;
        assert(s.subrange(next, s.len() as int) =~= tree_body(nodes.skip(1))) by {
            assert forall|i: int| 0 <= i < s.len() - next implies s.subrange(
                next,
                s.len() as int,
            )[i] == tree_body(nodes.skip(1))[i] by {
                assert(s[next + i] == s.subrange(at, s.len() as int)[next + i - at]);
                assert(tree_body(nodes)[next + i - at] == tree_body(nodes.skip(1))[i]);
            }
        }
        assert forall|i: int| 0 <= i < nodes.skip(1).len() implies #[trigger] nodes.skip(
            1,
        )[i].wf() by {
            assert(nodes.skip(1)[i] == nodes[i + 1]);
        }
        lemma_parse_tree_round_trip(s, next, nodes.skip(1));
        assert(seq![nd] + nodes.skip(1) =~= nodes);
    }
}

// ---------------------------------------------------------------------------
// Commit
// ---------------------------------------------------------------------------

/// `"tree "`.
pub open spec fn lit_tree_hdr() -> Seq<u8> {
    seq![116u8, 114u8, 101u8, 101u8, 32u8]
}

/// `"parent "`.
pub open spec fn lit_parent() -> Seq<u8> {
    seq![112u8, 97u8, 114u8, 101u8, 110u8, 116u8, 32u8]
}

/// `"author "`.
pub open spec fn lit_author() -> Seq<u8> {
    seq![97u8, 117u8, 116u8, 104u8, 111u8, 114u8, 32u8]
}

/// `"committer "`.
pub open spec fn lit_committer() -> Seq<u8> {
    seq![99u8, 111u8, 109u8, 109u8, 105u8, 116u8, 116u8, 101u8, 114u8, 32u8]
}

/// `lit` stands at `at` in `s`.
pub open spec fn has_at(s: Seq<u8>, at: int, lit: Seq<u8>) -> bool {
    at + lit.len() <= s.len() && s.subrange(at, at + lit.len()) == lit
}

fn lit_tree_hdr_vec() -> (r: Vec<u8>)
    ensures
        r@ == lit_tree_hdr(),
{
    let mut v: Vec<u8> = Vec::new();
    v.push(116);
    v.push(114);
    v.push(101);
    v.push(101);
    v.push(32);
    proof {
        assert(v@ =~= lit_tree_hdr());
    }
    v
}

fn lit_parent_vec() -> (r: Vec<u8>)
    ensures
        r@ == lit_parent(),
{
    let mut v: Vec<u8> = Vec::new();
    v.push(112);
    v.push(97);
    v.push(114);
    v.push(101);
    v.push(110);
    v.push(116);
    v.push(32);
    proof {
        assert(v@ =~= lit_parent());
    }
    v
}

fn lit_author_vec() -> (r: Vec<u8>)
    ensures
        r@ == lit_author(),
{
    let mut v: Vec<u8> = Vec::new();
    v.push(97);
    v.push(117);
    v.push(116);
    v.push(104);
    v.push(111);
    v.push(114);
    v.push(32);
    proof {
        assert(v@ =~= lit_author());
    }
    v
}

fn lit_committer_vec() -> (r: Vec<u8>)
    ensures
        r@ == lit_committer(),
{
    let mut v: Vec<u8> = Vec::new();
    v.push(99);
    v.push(111);
    v.push(109);
    v.push(109);
    v.push(105);
    v.push(116);
    v.push(116);
    v.push(101);
    v.push(114);
    v.push(32);
    proof {
        assert(v@ =~= lit_committer());
    }
    v
}

/// The mathematical model of a commit body.
pub struct CommitView {
    pub tree: Seq<u8>,
    pub parent: Option<Seq<u8>>,
    pub author: PersonView,
    pub committer: PersonView,
    pub message: Seq<u8>,
}

/// The author line onward: author, committer, a blank line, the message.
pub open spec fn commit_tail_encode(author: PersonView, committer: PersonView, message: Seq<u8>)
    -> Seq<u8> {
    lit_author() + author.spec_encode() + seq![10u8] + lit_committer() + committer.spec_encode()
        + seq![10u8] + seq![10u8] + message
}

impl CommitView {
    /// The commit body: tree line, optional parent line, author and
    /// committer lines, a blank line, then the message verbatim.
    pub open spec fn spec_encode(self) -> Seq<u8> {
        lit_tree_hdr() + hex_seq(self.tree) + seq![10u8] + (match self.parent {
            Some(p) => lit_parent() + hex_seq(p) + seq![10u8],
            None => Seq::<u8>::empty(),
        }) + commit_tail_encode(self.author, self.committer, self.message)
    }

    /// What encoding needs: both identities within encoding bounds.
    pub open spec fn encodable(self) -> bool {
        self.author.wf() && self.committer.wf()
    }

    /// The ids are raw 20 bytes and both identities are well formed.
    pub open spec fn wf(self) -> bool {
        &&& self.tree.len() == 20
        &&& match self.parent {
            Some(p) => p.len() == 20,
            None => true,
        }
        &&& self.author.wf()
        &&& self.committer.wf()
    }
}

/// What the author line onward denotes, given the already-parsed tree and
/// parent ids.
pub open spec fn spec_parse_commit_tail(
    s: Seq<u8>,
    pos: int,
    tree: Seq<u8>,
    parent: Option<Seq<u8>>,
) -> Option<CommitView> {
    if has_at(s, pos, lit_author()) {
        match spec_parse_person(s, pos + 7) {
            None => None,
            Some((author, q)) => if q < s.len() && s[q] == 10u8 && has_at(s, q + 1, lit_committer()) {
                match spec_parse_person(s, q + 11) {
                    None => None,
                    Some((committer, q2)) => if q2 + 2 <= s.len() && s[q2] == 10u8 && s[q2 + 1]
                        == 10u8 {
                        Some(
                            CommitView {
                                tree,
                                parent,
                                author,
                                committer,
                                message: s.skip(q2 + 2),
                            },
                        )
                    } else {
                        None
                    },
                }
            } else {
                None
            },
        }
    } else {
        None
    }
}

/// What a commit body denotes: the tree line, an optional parent line, then
/// the tail.
pub open spec fn spec_parse_commit(s: Seq<u8>) -> Option<CommitView> {
    if s.len() >= 46 && has_at(s, 0, lit_tree_hdr()) && s[45] == 10u8 {
        match hex_parse(s.subrange(5, 45)) {
            None => None,
            Some(tree) => if has_at(s, 46, lit_parent()) {
                if s.len() >= 94 && s[93] == 10u8 {
                    match hex_parse(s.subrange(53, 93)) {
                        None => None,
                        Some(parent) => spec_parse_commit_tail(s, 94, tree, Some(parent)),
                    }
                } else {
                    None
                }
            } else {
                spec_parse_commit_tail(s, 46, tree, None)
            },
        }
    } else {
        None
    }
}

/// Parsing a buffer whose tail is an encoded commit tail recovers the two
/// identities and the message.
#[verifier::spinoff_prover]
#[verifier::rlimit(100)]
pub proof fn lemma_parse_commit_tail(
    s: Seq<u8>,
    pos: int,
    tree: Seq<u8>,
    parent: Option<Seq<u8>>,
    author: PersonView,
    committer: PersonView,
    message: Seq<u8>,
)
    requires
        0 <= pos <= s.len(),
        s.subrange(pos, s.len() as int) == commit_tail_encode(author, committer, message),
        author.wf(),
        committer.wf(),
    ensures
        spec_parse_commit_tail(s, pos, tree, parent) == Some(
            CommitView { tree, parent, author, committer, message },
        ),
{
    let te = commit_tail_encode(author, committer, message);
    let ae = author.spec_encode();
    let ce = committer.spec_encode();
    let al = ae.len() as int;
    let cl = ce.len() as int;
    assert(te.len() == 20 + al + cl + message.len());
    assert(s.len() == pos + te.len());
    assert forall|r: int| 0 <= r < te.len() implies s[pos + r] == te[r] by {
        assert(s.subrange(pos, s.len() as int)[r] == s[pos + r]);
    }
    assert forall|r: int| 0 <= r < 7 implies te[r] == lit_author()[r] by {}
    assert forall|r: int| 0 <= r < al implies te[7 + r] == ae[r] by {}
    assert(te[7 + al] == 10u8);
    assert forall|r: int| 0 <= r < 10 implies te[8 + al + r] == lit_committer()[r] by {}
    assert forall|r: int| 0 <= r < cl implies te[18 + al + r] == ce[r] by {}
    assert(te[18 + al + cl] == 10u8);
    assert(te[19 + al + cl] == 10u8);
    assert forall|r: int| 0 <= r < message.len() implies te[20 + al + cl + r] == message[r] by {}
    // the author tag
    assert(s.subrange(pos, pos + 7) =~= lit_author());
    // the author identity
    let a1 = s.take(pos + 7);
    let b1 = s.subrange(pos + 7 + al, s.len() as int);
    assert(s =~= a1 + ae + b1) by {
        assert forall|i: int| 0 <= i < s.len() implies s[i] == (a1 + ae + b1)[i] by {
            if pos + 7 <= i < pos + 7 + al {
                assert(s[i] == te[i - pos]);
            }
        }
    }
    lemma_parse_person(a1, author, b1);
    assert(spec_parse_person(s, pos + 7) == Some((author, pos + 7 + al)));
    let q = pos + 7 + al;
    assert(s[q] == 10u8);
    // the committer tag
    assert(s.subrange(q + 1, q + 11) =~= lit_committer());
    // the committer identity
    let a2 = s.take(q + 11);
    let b2 = s.subrange(q + 11 + cl, s.len() as int);
    assert(s =~= a2 + ce + b2) by {
        assert forall|i: int| 0 <= i < s.len() implies s[i] == (a2 + ce + b2)[i] by {
            if q + 11 <= i < q + 11 + cl {
                assert(s[i] == te[i - pos]);
            }
        }
    }
    lemma_parse_person(a2, committer, b2);
    assert(spec_parse_person(s, q + 11) == Some((committer, q + 11 + cl)));
    let q2 = q + 11 + cl;
    assert(s[q2] == 10u8 && s[q2 + 1] == 10u8);
    assert(s.skip(q2 + 2) =~= message) by {
        assert forall|i: int| 0 <= i < message.len() implies s.skip(q2 + 2)[i] == message[i] by {
            assert(s[q2 + 2 + i] == te[q2 + 2 + i - pos]);
        }
    }
}

/// Parsing an encoded commit body recovers the commit.
#[verifier::spinoff_prover]
#[verifier::rlimit(100)]
pub proof fn lemma_parse_commit_round_trip(c: CommitView)
    requires
        c.wf(),
    ensures
        spec_parse_commit(c.spec_encode()) == Some(c),
{
    let s = c.spec_encode();
    let pb = match c.parent {
        Some(p) => lit_parent() + hex_seq(p) + seq![10u8],
        None => Seq::<u8>::empty(),
    };
    let te = commit_tail_encode(c.author, c.committer, c.message);
    let pl = pb.len() as int;
    lemma_hex_seq_len(c.tree);
    if c.parent is Some {
        lemma_hex_seq_len(c.parent->0);
    }
    assert(s.len() == 46 + pl + te.len());
    assert(te.len() >= 20);
    assert forall|r: int| 0 <= r < 45 implies s[r] == (lit_tree_hdr() + hex_seq(c.tree))[r] by {}
    assert(s[45] == 10u8);
    assert forall|r: int| 0 <= r < pl implies s[46 + r] == pb[r] by {}
    assert forall|r: int| 0 <= r < te.len() implies s[46 + pl + r] == te[r] by {}
    assert(s.subrange(0, 5) =~= lit_tree_hdr());
    assert(s.subrange(5, 45) =~= hex_seq(c.tree));
    lemma_hex_round_trip(c.tree);
    match c.parent {
        Some(p) => {
            assert forall|r: int| 0 <= r < 7 implies pb[r] == lit_parent()[r] by {}
            assert forall|r: int| 0 <= r < 40 implies pb[7 + r] == hex_seq(p)[r] by {}
            assert(pb[47] == 10u8);
            assert(s.subrange(46, 53) =~= lit_parent());
            assert(s.subrange(53, 93) =~= hex_seq(p));
            lemma_hex_round_trip(p);
            assert(s[93] == 10u8);
            assert(s.subrange(94, s.len() as int) =~= te) by {
                assert forall|i: int| 0 <= i < te.len() implies s.subrange(
                    94,
                    s.len() as int,
                )[i] == te[i] by {
                    assert(s[94 + i] == te[i]);
                }
            }
            lemma_parse_commit_tail(s, 94, c.tree, c.parent, c.author, c.committer, c.message);
        },
        None => {
            // the author tag is not the parent tag
            assert(s[46] == te[0]);
            assert(te[0] == 97u8);
            assert(!has_at(s, 46, lit_parent())) by {
                if has_at(s, 46, lit_parent()) {
                    assert(s.subrange(46, 53)[0] == lit_parent()[0]);
                }
            }
            assert(s.subrange(46, s.len() as int) =~= te) by {
                assert forall|i: int| 0 <= i < te.len() implies s.subrange(
                    46,
                    s.len() as int,
                )[i] == te[i] by {
                    assert(s[46 + i] == te[i]);
                }
            }
            lemma_parse_commit_tail(s, 46, c.tree, c.parent, c.author, c.committer, c.message);
        },
    }
}

/// A stored snapshot: the root tree, an optional parent commit, the author
/// and committer identities, and the message.
pub struct Commit {
    tree: Id,
    parent: Option<Id>,
    author: Person,
    committer: Person,
    message: Vec<u8>,
}

impl View for Commit {
    type V = CommitView;

    closed spec fn view(&self) -> CommitView {
        CommitView {
            tree: self.tree@,
            parent: match self.parent {
                Some(p) => Some(p@),
                None => None,
            },
            author: self.author@,
            committer: self.committer@,
            message: self.message@,
        }
    }
}

impl Commit {
    /// Builds a commit.
    pub fn new(tree: Id, parent: Option<Id>, author: Person, committer: Person, message: Vec<u8>)
        -> (r: Commit)
        ensures
            r@ == (CommitView {
                tree: tree@,
                parent: match parent {
                    Some(p) => Some(p@),
                    None => None,
                },
                author: author@,
                committer: committer@,
                message: message@,
            }),
    {
        Commit { tree, parent, author, committer, message }
    }

    /// The commit message bytes.
    pub fn message(&self) -> (r: &Vec<u8>)
        ensures
            r@ == self@.message,
    {
        &self.message
    }

    /// The root tree id.
    pub fn tree(&self) -> (r: &Id)
        ensures
            r@ == self@.tree,
    {
        &self.tree
    }

    /// The parent commit id, if any.
    pub fn parent(&self) -> (r: &Option<Id>)
        ensures
            match r {
                Some(p) => self@.parent == Some(p@),
                None => self@.parent is None,
            },
    {
        &self.parent
    }

    /// Appends the commit body to `out`.
    #[verifier::rlimit(50)]
    pub fn write(&self, out: &mut Vec<u8>)
        requires
            self@.encodable(),
        ensures
            final(out)@ == old(out)@ + self@.spec_encode(),
    {
        let lit = lit_tree_hdr_vec();
        push_all(out, lit.as_slice());
        self.tree.write_hex(out);
        out.push(10);
        match &self.parent {
            Some(p) => {
                let lit = lit_parent_vec();
                push_all(out, lit.as_slice());
                p.write_hex(out);
                out.push(10);
            },
            None => {},
        }
        let lit = lit_author_vec();
        push_all(out, lit.as_slice());
        self.author.write(out);
        out.push(10);
        let lit = lit_committer_vec();
        push_all(out, lit.as_slice());
        self.committer.write(out);
        out.push(10);
        out.push(10);
        push_all(out, self.message.as_slice());
        proof {
            assert(final(out)@ =~= old(out)@ + self@.spec_encode());
        }
    }

    /// Parses a whole buffer as a commit body.
    pub fn read(bytes: &[u8]) -> (r: Result<Commit, Error>)
        ensures
            match spec_parse_commit(bytes@) {
                Some(cv) => r matches Ok(c) && c@ == cv,
                None => r == Err::<Commit, Error>(Error::Corrupt),
            },
    {
        let total = bytes.len();
        if total < 46 {
            return Err(Error::Corrupt);
        }
        let lit = lit_tree_hdr_vec();
        if !crate::bytes::match_at(bytes, 0, lit.as_slice()) {
            return Err(Error::Corrupt);
        }
        if bytes[45] != 10 {
            return Err(Error::Corrupt);
        }
        proof {
            assert(bytes@.subrange(0, 5) == bytes@.subrange(0, 0 + lit_tree_hdr().len() as int));
        }
        let tree_bytes = match read_hex_bytes(bytes, 5, 20) {
            Ok(v) => v,
            Err(e) => {
                return Err(e);
            },
        };
        let tree = Id::new(tree_bytes);
        let litp = lit_parent_vec();
        let (parent, pos): (Option<Id>, usize) = if crate::bytes::match_at(
            bytes,
            46,
            litp.as_slice(),
        ) {
            proof {
                assert(bytes@.subrange(46, 53) == bytes@.subrange(46, 46 + lit_parent().len() as int));
            }
            if total < 94 {
                return Err(Error::Corrupt);
            }
            if bytes[93] != 10 {
                return Err(Error::Corrupt);
            }
            let parent_bytes = match read_hex_bytes(bytes, 53, 20) {
                Ok(v) => v,
                Err(e) => {
                    return Err(e);
                },
            };
            (Some(Id::new(parent_bytes)), 94)
        } else {
            proof {
                assert(!has_at(bytes@, 46, lit_parent()));
            }
            (None, 46)
        };
        let lita = lit_author_vec();
        if !crate::bytes::match_at(bytes, pos, lita.as_slice()) {
            return Err(Error::Corrupt);
        }
        let (author, q) = match parse_person(bytes, pos + 7) {
            Ok(v) => v,
            Err(e) => {
                return Err(e);
            },
        };
        if q >= total {
            return Err(Error::Corrupt);
        }
        if bytes[q] != 10 {
            return Err(Error::Corrupt);
        }
        let litc = lit_committer_vec();
        if !crate::bytes::match_at(bytes, q + 1, litc.as_slice()) {
            return Err(Error::Corrupt);
        }
        let (committer, q2) = match parse_person(bytes, q + 11) {
            Ok(v) => v,
            Err(e) => {
                return Err(e);
            },
        };
        if total - q2 < 2 {
            return Err(Error::Corrupt);
        }
        if bytes[q2] != 10 || bytes[q2 + 1] != 10 {
            return Err(Error::Corrupt);
        }
        let message = subvec(bytes, q2 + 2, total);
        proof {
            assert(message@ =~= bytes@.skip(q2 + 2));
        }
        Ok(Commit { tree, parent, author, committer, message })
    }
}

// ---------------------------------------------------------------------------
// Object
// ---------------------------------------------------------------------------

/// `"blob"`.
pub open spec fn lit_blob_type() -> Seq<u8> {
    seq![98u8, 108u8, 111u8, 98u8]
}

/// `"tree"`.
pub open spec fn lit_tree_type() -> Seq<u8> {
    seq![116u8, 114u8, 101u8, 101u8]
}

/// `"commit"`.
pub open spec fn lit_commit_type() -> Seq<u8> {
    seq![99u8, 111u8, 109u8, 109u8, 105u8, 116u8]
}

fn lit_blob_type_vec() -> (r: Vec<u8>)
    ensures
        r@ == lit_blob_type(),
{
    let mut v: Vec<u8> = Vec::new();
    v.push(98);
    v.push(108);
    v.push(111);
    v.push(98);
    proof {
        assert(v@ =~= lit_blob_type());
    }
    v
}

fn lit_tree_type_vec() -> (r: Vec<u8>)
    ensures
        r@ == lit_tree_type(),
{
    let mut v: Vec<u8> = Vec::new();
    v.push(116);
    v.push(114);
    v.push(101);
    v.push(101);
    proof {
        assert(v@ =~= lit_tree_type());
    }
    v
}

fn lit_commit_type_vec() -> (r: Vec<u8>)
    ensures
        r@ == lit_commit_type(),
{
    let mut v: Vec<u8> = Vec::new();
    v.push(99);
    v.push(111);
    v.push(109);
    v.push(109);
    v.push(105);
    v.push(116);
    proof {
        assert(v@ =~= lit_commit_type());
    }
    v
}

/// The mathematical model of a stored object.
pub enum ObjectView {
    Blob(Seq<u8>),
    Commit(CommitView),
    Tree(Seq<TreeNodeView>),
}

impl ObjectView {
    /// The type word of the canonical header.
    pub open spec fn type_lit(self) -> Seq<u8> {
        match self {
            ObjectView::Blob(_) => lit_blob_type(),
            ObjectView::Commit(_) => lit_commit_type(),
            ObjectView::Tree(_) => lit_tree_type(),
        }
    }

    /// The body after the canonical header.
    pub open spec fn body(self) -> Seq<u8> {
        match self {
            ObjectView::Blob(b) => b,
            ObjectView::Commit(c) => c.spec_encode(),
            ObjectView::Tree(nodes) => tree_body(nodes),
        }
    }

    /// The canonical bytes: `<type> <ascii-decimal-length>\0<body>`. Their
    /// SHA-1 is the object's id.
    pub open spec fn spec_encode(self) -> Seq<u8> {
        self.type_lit() + seq![32u8] + dec_digits(self.body().len()) + seq![0u8] + self.body()
    }

    /// What encoding needs of the variant payload.
    pub open spec fn encodable(self) -> bool {
        match self {
            ObjectView::Blob(_) => true,
            ObjectView::Commit(c) => c.encodable(),
            ObjectView::Tree(_) => true,
        }
    }

    /// The variant payload is well formed and the body fits in memory.
    pub open spec fn wf(self) -> bool {
        &&& match self {
            ObjectView::Blob(_) => true,
            ObjectView::Commit(c) => c.wf(),
            ObjectView::Tree(nodes) => tree_nodes_wf(nodes),
        }
        &&& self.body().len() <= usize::MAX
    }
}

/// What a canonical object byte sequence denotes: the header is read, the
/// length word must be decimal, and the body parses per the type word.
pub open spec fn spec_parse_object(s: Seq<u8>) -> Option<ObjectView> {
    match find_byte(s, 32u8, 0) {
        None => None,
        Some(sp) => {
            let t = s.take(sp);
            match find_byte(s, 0u8, sp + 1) {
                None => None,
                Some(z) => {
                    let lenb = s.subrange(sp + 1, z);
                    if lenb.len() >= 1 && all_digits(lenb) && dec_val(lenb) <= usize::MAX {
                        let body = s.skip(z + 1);
                        if t == lit_blob_type() {
                            Some(ObjectView::Blob(body))
                        } else if t == lit_tree_type() {
                            match spec_parse_tree(body, 0) {
                                None => None,
                                Some(nodes) => Some(ObjectView::Tree(nodes)),
                            }
                        } else if t == lit_commit_type() {
                            match spec_parse_commit(body) {
                                None => None,
                                Some(c) => Some(ObjectView::Commit(c)),
                            }
                        } else {
                            None
                        }
                    } else {
                        None
                    }
                },
            }
        },
    }
}

/// Parsing the canonical header finds the type word, the decimal length,
/// and the body, whenever the type word holds no space.
#[verifier::spinoff_prover]
#[verifier::rlimit(100)]
pub proof fn lemma_parse_object_header(tlit: Seq<u8>, body: Seq<u8>)
    requires
        forall|j: int| 0 <= j < tlit.len() ==> #[trigger] tlit[j] != 32u8,
    ensures
        ({
            let lenb = dec_digits(body.len());
            let s = tlit + seq![32u8] + lenb + seq![0u8] + body;
            let tl = tlit.len() as int;
            let dl = lenb.len() as int;
            &&& find_byte(s, 32u8, 0) == Some(tl)
            &&& s.take(tl) == tlit
            &&& find_byte(s, 0u8, tl + 1) == Some(tl + 1 + dl)
            &&& s.subrange(tl + 1, tl + 1 + dl) == lenb
            &&& s.skip(tl + 2 + dl) == body
            &&& all_digits(lenb)
            &&& dec_val(lenb) == body.len()
            &&& lenb.len() >= 1
        }),
{
    let lenb = dec_digits(body.len());
    let s = tlit + seq![32u8] + lenb + seq![0u8] + body;
    let tl = tlit.len() as int;
    let dl = lenb.len() as int;
    lemma_dec_digits_are_digits(body.len());
    lemma_dec_round_trip(body.len());
    assert(s.len() == tl + 1 + dl + 1 + body.len());
    assert forall|r: int| 0 <= r < tl implies s[r] == tlit[r] by {}
    assert(s[tl] == 32u8);
    assert forall|r: int| 0 <= r < dl implies s[tl + 1 + r] == lenb[r] by {}
    assert(s[tl + 1 + dl] == 0u8);
    assert forall|r: int| 0 <= r < body.len() implies s[tl + 2 + dl + r] == body[r] by {}
    // the space search lands after the type word
    assert forall|j: int| 0 <= j < tl implies s[j] != 32u8 by {
        assert(s[j] == tlit[j]);
    }
    crate::bytes::lemma_find_byte_at(s, 32u8, 0, tl);
    assert(s.take(tl) =~= tlit);
    // the NUL search lands after the decimal length
    assert forall|j: int| tl + 1 <= j < tl + 1 + dl implies s[j] != 0u8 by {
        assert(s[j] == lenb[j - tl - 1]);
    }
    crate::bytes::lemma_find_byte_at(s, 0u8, tl + 1, tl + 1 + dl);
    assert(s.subrange(tl + 1, tl + 1 + dl) =~= lenb);
    assert(s.skip(tl + 2 + dl) =~= body);
}

/// Decoding inverts the canonical encoding on every well-formed object.
#[verifier::spinoff_prover]
#[verifier::rlimit(100)]
pub proof fn lemma_object_round_trip(v: ObjectView)
    requires
        v.wf(),
    ensures
        spec_parse_object(v.spec_encode()) == Some(v),
{
    let s = v.spec_encode();
    let tlit = v.type_lit();
    let body = v.body();
    lemma_parse_object_header(tlit, body);
    // the three type words are pairwise distinct
    assert(lit_blob_type() != lit_tree_type()) by {
        assert(lit_blob_type()[0] != lit_tree_type()[0]);
    }
    assert(lit_blob_type() != lit_commit_type());
    assert(lit_tree_type() != lit_commit_type());
    match v {
        ObjectView::Blob(_) => {},
        ObjectView::Tree(nodes) => {
            assert(body.subrange(0, body.len() as int) =~= tree_body(nodes));
            lemma_parse_tree_round_trip(body, 0, nodes);
        },
        ObjectView::Commit(c) => {
            lemma_parse_commit_round_trip(c);
        },
    }
}

/// A stored object: a blob, a tree, or a commit.
pub enum Object {
    Blob(Blob),
    Commit(Commit),
    Tree(Tree),
}

impl View for Object {
    type V = ObjectView;

    open spec fn view(&self) -> ObjectView {
        match self {
            Object::Blob(b) => ObjectView::Blob(b@),
            Object::Commit(c) => ObjectView::Commit(c@),
            Object::Tree(t) => ObjectView::Tree(t@),
        }
    }
}

impl Object {
    /// The body length.
    pub fn len(&self) -> (r: usize)
        ensures
            r == self@.body().len(),
    {
        match self {
            Object::Blob(b) => b.len(),
            Object::Commit(c) => {
                let mut buf: Vec<u8> = Vec::new();
                c.write_body_unchecked(&mut buf);
                buf.len()
            },
            Object::Tree(t) => t.len(),
        }
    }

    /// Appends the canonical bytes to `out`.
    pub fn write(&self, out: &mut Vec<u8>)
        requires
            self@.encodable(),
        ensures
            final(out)@ == old(out)@ + self@.spec_encode(),
    {
        let mut body: Vec<u8> = Vec::new();
        match self {
            Object::Blob(b) => b.write(&mut body),
            Object::Commit(c) => c.write(&mut body),
            Object::Tree(t) => t.write(&mut body),
        }
        proof {
            assert(body@ =~= self@.body());
        }
        let lit = match self {
            Object::Blob(_) => lit_blob_type_vec(),
            Object::Commit(_) => lit_commit_type_vec(),
            Object::Tree(_) => lit_tree_type_vec(),
        };
        push_all(out, lit.as_slice());
        out.push(32);
        push_dec_u64(out, body.len() as u64);
        out.push(0);
        push_all(out, body.as_slice());
        proof {
            assert(final(out)@ =~= old(out)@ + self@.spec_encode());
        }
    }

    /// The canonical bytes of the object.
    pub fn to_bytes(&self) -> (r: Vec<u8>)
        requires
            self@.encodable(),
        ensures
            r@ == self@.spec_encode(),
    {
        let mut out: Vec<u8> = Vec::new();
        self.write(&mut out);
        proof {
            assert(Seq::<u8>::empty() + self@.spec_encode() =~= self@.spec_encode());
        }
        out
    }

    /// Parses canonical object bytes: the header, then the typed body.
    pub fn read(bytes: &[u8]) -> (r: Result<Object, Error>)
        ensures
            match spec_parse_object(bytes@) {
                Some(v) => r matches Ok(o) && o@ == v,
                None => r == Err::<Object, Error>(Error::Corrupt),
            },
    {
        let total = bytes.len();
        let sp = match scan_byte(bytes, 32, 0) {
            Some(sp) => sp,
            None => {
                return Err(Error::Corrupt);
            },
        };
        let z = match scan_byte(bytes, 0, sp + 1) {
            Some(z) => z,
            None => {
                return Err(Error::Corrupt);
            },
        };
        if parse_dec(bytes, sp + 1, z, usize::MAX as u64).is_none() {
            return Err(Error::Corrupt);
        }
        let body = subvec(bytes, z + 1, total);
        proof {
            assert(body@ =~= bytes@.skip(z + 1));
        }
        let ghost t = bytes@.take(sp as int);
        let litb = lit_blob_type_vec();
        let litt = lit_tree_type_vec();
        let litc = lit_commit_type_vec();
        if sp == 4 && crate::bytes::match_at(bytes, 0, litb.as_slice()) {
            proof {
                assert(t =~= bytes@.subrange(0, 0 + lit_blob_type().len() as int));
            }
            Ok(Object::Blob(Blob(body)))
        } else if sp == 4 && crate::bytes::match_at(bytes, 0, litt.as_slice()) {
            proof {
                assert(t =~= bytes@.subrange(0, 0 + lit_tree_type().len() as int));
            }
            match Tree::read(body.as_slice()) {
                Ok(tree) => Ok(Object::Tree(tree)),
                Err(e) => Err(e),
            }
        } else if sp == 6 && crate::bytes::match_at(bytes, 0, litc.as_slice()) {
            proof {
                assert(t =~= bytes@.subrange(0, 0 + lit_commit_type().len() as int));
            }
            match Commit::read(body.as_slice()) {
                Ok(c) => Ok(Object::Commit(c)),
                Err(e) => Err(e),
            }
        } else {
            proof {
                if t == lit_blob_type() || t == lit_tree_type() {
                    assert(t =~= bytes@.subrange(0, 4));
                } else if t == lit_commit_type() {
                    assert(t =~= bytes@.subrange(0, 6));
                }
            }
            Err(Error::Corrupt)
        }
    }
}

impl Commit {
    /// Appends the commit body without demanding well-formedness; used only
    /// to measure the body.
    fn write_body_unchecked(&self, out: &mut Vec<u8>)
        ensures
            final(out)@.len() == old(out)@.len() + self@.spec_encode().len(),
    {
        let lit = lit_tree_hdr_vec();
        push_all(out, lit.as_slice());
        self.tree.write_hex(out);
        out.push(10);
        match &self.parent {
            Some(p) => {
                let lit = lit_parent_vec();
                push_all(out, lit.as_slice());
                p.write_hex(out);
                out.push(10);
            },
            None => {},
        }
        let lit = lit_author_vec();
        push_all(out, lit.as_slice());
        self.author.write_unchecked(out);
        out.push(10);
        let lit = lit_committer_vec();
        push_all(out, lit.as_slice());
        self.committer.write_unchecked(out);
        out.push(10);
        out.push(10);
        push_all(out, self.message.as_slice());
        proof {
            lemma_hex_seq_len(self@.tree);
            if self@.parent is Some {
                lemma_hex_seq_len(self@.parent->0);
            }
        }
    }
}

impl Person {
    /// Appends the encoded person line without demanding well-formedness;
    /// the result has the encoded length even when the fields hold reserved
    /// bytes.
    fn write_unchecked(&self, out: &mut Vec<u8>)
        ensures
            final(out)@.len() == old(out)@.len() + self@.spec_encode().len(),
    {
        push_all(out, self.name.as_slice());
        out.push(32);
        out.push(60);
        push_all(out, self.email.as_slice());
        out.push(62);
        out.push(32);
        push_dec_i64(out, self.time);
        out.push(32);
        let mag: u32 = if self.offset < 0 {
            (-(self.offset as i64)) as u32
        } else {
            self.offset as u32
        };
        out.push(if self.offset < 0 { 45 } else { 43 });
        let h = mag / 60;
        let m = mag % 60;
        out.push(48 + ((h / 10) % 10) as u8);
        out.push(48 + (h % 10) as u8);
        out.push(48 + ((m / 10) % 10) as u8);
        out.push(48 + (m % 10) as u8);
    }
}

} // verus!
