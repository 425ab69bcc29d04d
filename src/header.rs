use vstd::prelude::*;
use core::cmp::Ordering;
use crate::error::ErrorKind;
use crate::set_of::{der_cmp, lex_lt};

verus! {

/// Largest value length this codec represents (256 MiB - 1).
pub const MAX_LENGTH: u32 = 0x0FFF_FFFF;

/// The class of a tag.
#[derive(Clone, Copy, Debug, PartialEq, Eq, Structural)]
pub enum Class {
    Universal,
    Application,
    ContextSpecific,
    Private,
}

/// Largest tag number this codec represents: two octets after the identifier
/// octet.
pub const MAX_TAG_NUMBER: u16 = 0x3FFF;

/// A tag: class, constructed flag and tag number.
#[derive(Clone, Copy, Debug, PartialEq, Eq, Structural)]
pub struct Tag {
    pub class: Class,
    pub constructed: bool,
    pub number: u16,
}

pub open spec fn class_index(c: Class) -> nat {
    match c {
        Class::Universal => 0,
        Class::Application => 1,
        Class::ContextSpecific => 2,
        Class::Private => 3,
    }
}

impl Tag {
    /// A tag number this codec represents.
    pub open spec fn wf(self) -> bool {
        self.number <= MAX_TAG_NUMBER
    }

    /// The first identifier octet: class, constructed flag, and the number
    /// itself up to 30, or 31 to announce that the number follows.
    pub open spec fn octet(self) -> u8 {
        (class_index(self.class) * 64 + (if self.constructed { 32nat } else { 0nat }) + (if self.number
            <= 30 {
            self.number as nat
        } else {
            31nat
        })) as u8
    }

    /// The identifier octets: the first octet, then for a number above 30 the
    /// number in base 128, most significant group first, with the high bit set
    /// on every octet but the last.
    pub open spec fn octets(self) -> Seq<u8> {
        if self.number <= 30 {
            seq![self.octet()]
        } else if self.number < 128 {
            seq![self.octet(), self.number as u8]
        } else {
            seq![self.octet(), (0x80 + self.number / 128) as u8, (self.number % 128) as u8]
        }
    }

    /// The tag whose first identifier octet is `b`, reading its low five bits as
    /// the number.
    pub open spec fn of_octet(b: u8) -> Tag {
        Tag {
            class: if b / 64 == 0 {
                Class::Universal
            } else if b / 64 == 1 {
                Class::Application
            } else if b / 64 == 2 {
                Class::ContextSpecific
            } else {
                Class::Private
            },
            constructed: (b % 64) / 32 == 1,
            number: (b % 32) as u16,
        }
    }

    /// The first identifier octet.
    pub fn to_octet(&self) -> (r: u8)
        ensures
            r == self.octet(),
            self.number <= 30 ==> Tag::of_octet(r) == *self,
    {
        let c: u8 = match self.class {
            Class::Universal => 0,
            Class::Application => 1,
            Class::ContextSpecific => 2,
            Class::Private => 3,
        };
        let k: u8 = if self.constructed { 32 } else { 0 };
        let n: u8 = if self.number <= 30 { self.number as u8 } else { 31 };
        c * 64 + k + n
    }

    /// Number of identifier octets.
    pub fn encoded_len(&self) -> (r: usize)
        requires
            self.wf(),
        ensures
            r == self.octets().len(),
            1 <= r <= 3,
    {
        if self.number <= 30 {
            1
        } else if self.number < 128 {
            2
        } else {
            3
        }
    }

    /// Appends the identifier octets.
    pub fn encode(&self, out: &mut Vec<u8>)
        requires
            self.wf(),
        ensures
            final(out)@ == old(out)@ + self.octets(),
    {
        let first = self.to_octet();
        out.push(first);
        if self.number <= 30 {
            assert(old(out)@.push(first) =~= old(out)@ + self.octets());
        } else if self.number < 128 {
            out.push(self.number as u8);
            assert(old(out)@.push(first).push(self.number as u8) =~= old(out)@ + self.octets());
        } else {
            let hi = (0x80 + self.number / 128) as u8;
            let lo = (self.number % 128) as u8;
            out.push(hi);
            out.push(lo);
            assert(old(out)@.push(first).push(hi).push(lo) =~= old(out)@ + self.octets());
        }
    }

    pub open spec fn sequence() -> Tag {
        Tag { class: Class::Universal, constructed: true, number: 16 }
    }

    pub open spec fn set() -> Tag {
        Tag { class: Class::Universal, constructed: true, number: 17 }
    }

    pub open spec fn context(n: u16, constructed: bool) -> Tag {
        Tag { class: Class::ContextSpecific, constructed, number: n }
    }
}

/// The tag at `pos` of `s` and where its identifier octets end. A number
/// that fits the first octet must be written there, and a longer one without
/// a leading zero group; more than two octets after the first are refused.
pub open spec fn tag_at(s: Seq<u8>, pos: int) -> Result<(Tag, int), ErrorKind> {
    if pos < 0 || pos >= s.len() {
        Err(ErrorKind::Incomplete)
    } else if s[pos] % 32 != 31 {
        Ok((Tag::of_octet(s[pos]), pos + 1))
    } else if pos + 1 >= s.len() {
        Err(ErrorKind::Incomplete)
    } else if s[pos + 1] < 0x80 {
        if s[pos + 1] <= 30 {
            Err(ErrorKind::Value { tag: Tag::of_octet(s[pos]) })
        } else {
            Ok((Tag { number: s[pos + 1] as u16, ..Tag::of_octet(s[pos]) }, pos + 2))
        }
    } else if s[pos + 1] == 0x80 {
        Err(ErrorKind::Value { tag: Tag::of_octet(s[pos]) })
    } else if pos + 2 >= s.len() {
        Err(ErrorKind::Incomplete)
    } else if s[pos + 2] >= 0x80 {
        Err(ErrorKind::Value { tag: Tag::of_octet(s[pos]) })
    } else {
        Ok(
            (
                Tag {
                    number: ((s[pos + 1] - 0x80) * 128 + s[pos + 2]) as u16,
                    ..Tag::of_octet(s[pos])
                },
                pos + 3,
            ),
        )
    }
}

/// Decodes the identifier octets at `pos`.
pub fn decode_tag(s: &[u8], pos: usize) -> (r: Result<(Tag, usize), ErrorKind>)
    ensures
        match tag_at(s@, pos as int) {
            Ok((t, e)) => r == Ok::<(Tag, usize), ErrorKind>((t, e as usize)),
            Err(k) => r == Err::<(Tag, usize), ErrorKind>(k),
        },
        r is Ok ==> pos < r->Ok_0.1 <= s@.len() && r->Ok_0.0.wf(),
        match tag_at(s@, pos as int) {
            Ok((t, e)) => pos < e <= s@.len() && r is Ok && r->Ok_0.1 == e,
            Err(_) => true,
        },
{
    if pos >= s.len() {
        return Err(ErrorKind::Incomplete);
    }
    let b = s[pos];
    let class = if b / 64 == 0 {
        Class::Universal
    } else if b / 64 == 1 {
        Class::Application
    } else if b / 64 == 2 {
        Class::ContextSpecific
    } else {
        Class::Private
    };
    let first = Tag { class, constructed: (b % 64) / 32 == 1, number: (b % 32) as u16 };
    if b % 32 != 31 {
        return Ok((first, pos + 1));
    }
    if pos + 1 >= s.len() {
        return Err(ErrorKind::Incomplete);
    }
    let c1 = s[pos + 1];
    if c1 < 0x80 {
        if c1 <= 30 {
            return Err(ErrorKind::Value { tag: first });
        }
        return Ok((Tag { number: c1 as u16, ..first }, pos + 2));
    }
    if c1 == 0x80 {
        return Err(ErrorKind::Value { tag: first });
    }
    if pos + 2 >= s.len() {
        return Err(ErrorKind::Incomplete);
    }
    let c2 = s[pos + 2];
    if c2 >= 0x80 {
        return Err(ErrorKind::Value { tag: first });
    }
    Ok((Tag { number: (c1 as u16 - 0x80) * 128 + c2 as u16, ..first }, pos + 3))
}

/// The identifier octets of a tag read back as that tag, wherever they stand.
pub proof fn lemma_tag_round_trip(p: Seq<u8>, t: Tag, rest: Seq<u8>)
    requires
        t.wf(),
    ensures
        tag_at(p + t.octets() + rest, p.len() as int) == Ok::<(Tag, int), ErrorKind>(
            (t, (p.len() + t.octets().len()) as int),
        ),
{
    let s = p + t.octets() + rest;
    let a = p.len() as int;
    lemma_tag_octet(t);
    assert(s[a] == t.octet());
    if t.number > 30 {
        assert(s[a + 1] == t.octets()[1]);
        if t.number >= 128 {
            assert(s[a + 2] == t.octets()[2]);
            let n = t.number as int;
            assert(((0x80 + n / 128) - 0x80) * 128 + n % 128 == n) by (nonlinear_arith);
            assert(n / 128 >= 1 && n / 128 <= 127) by (nonlinear_arith)
                requires
                    128 <= n <= 0x3FFF,
            ;
        }
    }
}

/// The identifier octets that decode to a tag are that tag's octets.
pub proof fn lemma_tag_at_octets(s: Seq<u8>, pos: int)
    requires
        tag_at(s, pos) is Ok,
    ensures
        ({
            let (t, e) = tag_at(s, pos)->Ok_0;
            t.wf() && s.subrange(pos, e) == t.octets()
        }),
{
    let (t, e) = tag_at(s, pos)->Ok_0;
    let b = s[pos];
    lemma_octet_tag(b);
    if b % 32 == 31 {
        let c1 = s[pos + 1];
        if c1 < 0x80 {
            assert(s.subrange(pos, e) =~= seq![s[pos], c1]);
        } else {
            let c2 = s[pos + 2];
            let n = (c1 - 0x80) * 128 + c2;
            assert(n / 128 == c1 - 0x80 && n % 128 == c2 && 128 <= n <= 0x3FFF) by (nonlinear_arith)
                requires
                    0x81 <= c1 <= 0xFF,
                    c2 < 0x80,
                    n == (c1 - 0x80) * 128 + c2,
            ;
            assert(s.subrange(pos, e) =~= seq![s[pos], c1, c2]);
        }
    } else {
        assert(s.subrange(pos, e) =~= seq![s[pos]]);
    }
}

/// `SEQUENCE` (0x30).
pub fn tag_sequence() -> (t: Tag)
    ensures
        t == Tag::sequence(),
{
    Tag { class: Class::Universal, constructed: true, number: 16 }
}

/// `SET` and `SET OF` (0x31).
pub fn tag_set() -> (t: Tag)
    ensures
        t == Tag::set(),
{
    Tag { class: Class::Universal, constructed: true, number: 17 }
}

/// A context-specific tag `[n]`.
pub fn tag_context(n: u16, constructed: bool) -> (t: Tag)
    ensures
        t == Tag::context(n, constructed),
{
    Tag { class: Class::ContextSpecific, constructed, number: n }
}

/// A length that is either definite or the BER indefinite sentinel.
#[derive(Clone, Copy, Debug, PartialEq, Eq, Structural)]
pub enum IndefiniteLength {
    Definite(u32),
    Indefinite,
}

impl IndefiniteLength {
    /// Where a length stands in the order: the indefinite sentinel below every
    /// definite length, definite lengths by their value.
    pub open spec fn rank(self) -> int {
        match self {
            IndefiniteLength::Definite(n) => n as int,
            IndefiniteLength::Indefinite => -1,
        }
    }

    /// Compares two lengths: two indefinite ones are equal, definite ones go by
    /// value, and the indefinite sentinel comes first.
    pub fn compare(&self, other: &IndefiniteLength) -> (r: Ordering)
        ensures
            (r == Ordering::Less) == (self.rank() < other.rank()),
            (r == Ordering::Equal) == (self.rank() == other.rank()),
            (r == Ordering::Greater) == (self.rank() > other.rank()),
    {
        match (self, other) {
            (IndefiniteLength::Indefinite, IndefiniteLength::Indefinite) => Ordering::Equal,
            (IndefiniteLength::Indefinite, IndefiniteLength::Definite(_)) => Ordering::Less,
            (IndefiniteLength::Definite(_), IndefiniteLength::Indefinite) => Ordering::Greater,
            (IndefiniteLength::Definite(a), IndefiniteLength::Definite(b)) => {
                if a < b {
                    Ordering::Less
                } else if a == b {
                    Ordering::Equal
                } else {
                    Ordering::Greater
                }
            },
        }
    }

    pub fn is_definite(&self) -> (r: bool)
        ensures
            r == (*self is Definite),
    {
        match self {
            IndefiniteLength::Definite(_) => true,
            IndefiniteLength::Indefinite => false,
        }
    }
}

/// The value of big-endian octets.
pub open spec fn be_value(s: Seq<u8>) -> nat
    decreases s.len(),
{
    if s.len() == 0 {
        0
    } else {
        (be_value(s.drop_last()) * 256 + s.last()) as nat
    }
}

/// The `k` low-order octets of `n`, most significant first.
pub open spec fn be_octets(n: nat, k: nat) -> Seq<u8>
    decreases k,
{
    if k == 0 {
        Seq::empty()
    } else {
        be_octets(n / 256, (k - 1) as nat).push((n % 256) as u8)
    }
}

/// Number of octets the long form needs for `n`.
pub open spec fn long_width(n: nat) -> nat {
    if n < 0x100 {
        1
    } else if n < 0x1_0000 {
        2
    } else if n < 0x100_0000 {
        3
    } else {
        4
    }
}

/// The shortest length octets for `n`: short form below 128, else the long
/// form without leading zero octets.
pub open spec fn length_octets(n: nat) -> Seq<u8> {
    if n < 128 {
        seq![n as u8]
    } else {
        seq![(0x80 + long_width(n)) as u8] + be_octets(n, long_width(n))
    }
}

/// What the length octets at `pos` of `s` decode to, and where they end.
pub open spec fn length_at(s: Seq<u8>, pos: int) -> Result<(IndefiniteLength, int), ErrorKind> {
    if pos < 0 || pos >= s.len() {
        Err(ErrorKind::Incomplete)
    } else if s[pos] < 0x80 {
        Ok((IndefiniteLength::Definite(s[pos] as u32), pos + 1))
    } else if s[pos] == 0x80 {
        Ok((IndefiniteLength::Indefinite, pos + 1))
    } else if s[pos] > 0x84 {
        Err(ErrorKind::Overlength)
    } else {
        let k = s[pos] - 0x80;
        if pos + 1 + k > s.len() {
            Err(ErrorKind::Incomplete)
        } else if be_value(s.subrange(pos + 1, pos + 1 + k)) > MAX_LENGTH {
            Err(ErrorKind::Overflow)
        } else {
            Ok(
                (
                    IndefiniteLength::Definite(be_value(s.subrange(pos + 1, pos + 1 + k)) as u32),
                    pos + 1 + k,
                ),
            )
        }
    }
}

/// Powers of 256.
pub open spec fn p256(k: nat) -> nat
    decreases k,
{
    if k == 0 {
        1
    } else {
        256 * p256((k - 1) as nat)
    }
}

proof fn lemma_p256_values()
    ensures
        p256(0) == 1,
        p256(1) == 0x100,
        p256(2) == 0x1_0000,
        p256(3) == 0x100_0000,
        p256(4) == 0x1_0000_0000,
{
    assert(p256(0) == 1);
    assert(p256(1) == 0x100);
    assert(p256(2) == 0x1_0000);
    assert(p256(3) == 0x100_0000);
    assert(p256(4) == 0x1_0000_0000);
}

proof fn lemma_be_value_push(s: Seq<u8>, b: u8)
    ensures
        be_value(s.push(b)) == be_value(s) * 256 + b,
{
    assert(s.push(b).drop_last() =~= s);
}

proof fn lemma_be_octets(n: nat, k: nat)
    requires
        n < p256(k),
    ensures
        be_octets(n, k).len() == k,
        be_value(be_octets(n, k)) == n,
    decreases k,
{
    if k > 0 {
        assert(n / 256 < p256((k - 1) as nat)) by (nonlinear_arith)
            requires
                n < 256 * p256((k - 1) as nat),
        ;
        lemma_be_octets(n / 256, (k - 1) as nat);
        lemma_be_value_push(be_octets(n / 256, (k - 1) as nat), (n % 256) as u8);
    }
}

/// Decoding the shortest length octets of `n`, wherever they stand and
/// whatever follows them, gives `n` back and stops right after them.
pub proof fn lemma_length_round_trip(p: Seq<u8>, n: nat, rest: Seq<u8>)
    requires
        n <= MAX_LENGTH,
    ensures
        length_at(p + length_octets(n) + rest, p.len() as int) == Ok::<(IndefiniteLength, int), ErrorKind>(
            (IndefiniteLength::Definite(n as u32), (p.len() + length_octets(n).len()) as int),
        ),
{
    let s = p + length_octets(n) + rest;
    let a = p.len() as int;
    assert(s[a] == length_octets(n)[0]);
    if n >= 128 {
        let k = long_width(n);
        lemma_p256_values();
        lemma_be_octets(n, k);
        assert(s.subrange(a + 1, a + 1 + k as int) =~= be_octets(n, k));
    }
}

/// The first identifier octet of a tag reads back as its class and
/// constructed flag, and as its number when that fits.
pub proof fn lemma_tag_octet(t: Tag)
    requires
        t.wf(),
    ensures
        t.number <= 30 ==> Tag::of_octet(t.octet()) == t && t.octet() % 32 == t.number,
        t.number > 30 ==> Tag::of_octet(t.octet()) == (Tag { number: 31, ..t }) && t.octet() % 32
            == 31,
{
    let c = class_index(t.class);
    let k: nat = if t.constructed { 32 } else { 0 };
    let n: nat = if t.number <= 30 { t.number as nat } else { 31 };
    assert((c * 64 + k + n) / 64 == c && ((c * 64 + k + n) % 64) / 32 == k / 32 && (c * 64 + k
        + n) % 32 == n) by (nonlinear_arith)
        requires
            c < 4,
            k == 0 || k == 32,
            n <= 31,
    ;
}

/// An identifier octet is the first octet of the tag it reads as.
pub proof fn lemma_octet_tag(b: u8)
    ensures
        Tag::of_octet(b).octet() == b,
        Tag::of_octet(b).wf(),
{
}

/// Decodes the length octets at `pos`.
pub fn decode_length(s: &[u8], pos: usize) -> (r: Result<(IndefiniteLength, usize), ErrorKind>)
    ensures
        match length_at(s@, pos as int) {
            Ok((l, e)) => r == Ok::<(IndefiniteLength, usize), ErrorKind>((l, e as usize)),
            Err(k) => r == Err::<(IndefiniteLength, usize), ErrorKind>(k),
        },
        r is Ok ==> pos < r->Ok_0.1 <= s@.len(),
{
    if pos >= s.len() {
        return Err(ErrorKind::Incomplete);
    }
    let b = s[pos];
    if b < 0x80 {
        return Ok((IndefiniteLength::Definite(b as u32), pos + 1));
    }
    if b == 0x80 {
        return Ok((IndefiniteLength::Indefinite, pos + 1));
    }
    if b > 0x84 {
        return Err(ErrorKind::Overlength);
    }
    let k: usize = (b - 0x80) as usize;
    if k > s.len() - pos - 1 {
        return Err(ErrorKind::Incomplete);
    }
    let mut acc: u64 = 0;
    let mut i: usize = pos + 1;
    let stop: usize = pos + 1 + k;
    proof {
        assert(s@.subrange(pos + 1, pos + 1) =~= Seq::<u8>::empty());
        assert(p256(0) == 1);
    }
    while i < stop
        invariant
            pos + 1 <= i <= pos + 1 + k <= s@.len(),
            stop == pos + 1 + k,
            k <= 4,
            acc == be_value(s@.subrange(pos + 1, i as int)),
            acc < p256((i - pos - 1) as nat),
        decreases pos + 1 + k - i,
    {
        proof {
            assert(s@.subrange(pos + 1, i + 1) =~= s@.subrange(pos + 1, i as int).push(s@[i as int]));
            lemma_be_value_push(s@.subrange(pos + 1, i as int), s@[i as int]);
            lemma_p256_values();
            assert(p256((i + 1 - pos - 1) as nat) == 256 * p256((i - pos - 1) as nat));
            let p = p256((i - pos - 1) as nat);
            let b2 = s@[i as int];
            assert(acc * 256 + b2 < 256 * p) by (nonlinear_arith)
                requires
                    acc < p,
                    b2 < 256,
            ;
        }
        acc = acc * 256 + s[i] as u64;
        i = i + 1;
    }
    if acc > MAX_LENGTH as u64 {
        return Err(ErrorKind::Overflow);
    }
    Ok((IndefiniteLength::Definite(acc as u32), pos + 1 + k))
}

fn push_be(out: &mut Vec<u8>, n: u32, k: usize)
    requires
        k <= 4,
    ensures
        final(out)@ == old(out)@ + be_octets(n as nat, k as nat),
    decreases k,
{
    if k > 0 {
        push_be(out, n / 256, k - 1);
        out.push((n % 256) as u8);
        proof {
            let a = old(out)@;
            let b = be_octets((n / 256) as nat, (k - 1) as nat);
            assert(a + b.push((n % 256) as u8) =~= (a + b).push((n % 256) as u8));
        }
    }
}

/// Appends the shortest length octets of `n`.
pub fn encode_length(out: &mut Vec<u8>, n: u32)
    ensures
        final(out)@ == old(out)@ + length_octets(n as nat),
{
    if n < 128 {
        out.push(n as u8);
        proof {
            assert(old(out)@.push(n as u8) =~= old(out)@ + seq![n as u8]);
        }
    } else {
        let k: u8 = if n < 0x100 {
            1
        } else if n < 0x1_0000 {
            2
        } else if n < 0x100_0000 {
            3
        } else {
            4
        };
        out.push(0x80 + k);
        push_be(out, n, k as usize);
        proof {
            let a = old(out)@;
            let w = seq![(0x80 + long_width(n as nat)) as u8];
            assert(a.push((0x80 + k) as u8) =~= a + w);
            assert(a + w + be_octets(n as nat, k as nat) =~= a + (w + be_octets(n as nat, k as nat)));
        }
    }
}

/// Number of length octets the shortest form of `n` takes.
pub fn length_octets_len(n: u32) -> (r: usize)
    ensures
        r == length_octets(n as nat).len(),
        1 <= r <= 5,
{
    proof {
        lemma_p256_values();
        if n >= 128 {
            lemma_be_octets(n as nat, long_width(n as nat));
        }
    }
    if n < 128 {
        1
    } else if n < 0x100 {
        2
    } else if n < 0x1_0000 {
        3
    } else if n < 0x100_0000 {
        4
    } else {
        5
    }
}

/// Tag and length of an encoded value.
#[derive(Clone, Copy, Debug, PartialEq, Eq, Structural)]
pub struct Header {
    pub tag: Tag,
    pub length: IndefiniteLength,
}

/// The header at `pos` of `s`, and where it ends. An `Overlength` length is
/// reported as a `Length` error naming the tag.
pub open spec fn header_at(s: Seq<u8>, pos: int) -> Result<(Header, int), ErrorKind> {
    match tag_at(s, pos) {
        Err(k) => Err(k),
        Ok((t, te)) => match length_at(s, te) {
            Ok((l, e)) => Ok((Header { tag: t, length: l }, e)),
            Err(ErrorKind::Overlength) => Err(ErrorKind::Length { tag: t }),
            Err(k) => Err(k),
        },
    }
}

/// The DER encoding of a header with a definite length.
pub open spec fn header_octets(tag: Tag, len: nat) -> Seq<u8> {
    tag.octets() + length_octets(len)
}

impl Header {
    /// A header this codec can write and read back: a representable tag, and a
    /// definite length no longer than [`MAX_LENGTH`].
    pub open spec fn wf(&self) -> bool {
        &&& self.tag.wf()
        &&& self.length is Definite ==> self.length->Definite_0 <= MAX_LENGTH
    }

    /// A header with a definite length; `Overflow` when the length exceeds
    /// [`MAX_LENGTH`].
    pub fn new(tag: Tag, length: u64) -> (r: Result<Header, ErrorKind>)
        ensures
            r is Ok && tag.wf() ==> r->Ok_0.wf(),
            length > MAX_LENGTH ==> r == Err::<Header, ErrorKind>(ErrorKind::Overflow),
            length <= MAX_LENGTH ==> r == Ok::<Header, ErrorKind>(
                Header { tag, length: IndefiniteLength::Definite(length as u32) },
            ),
    {
        if length > MAX_LENGTH as u64 {
            Err(ErrorKind::Overflow)
        } else {
            Ok(Header { tag, length: IndefiniteLength::Definite(length as u32) })
        }
    }

    /// Decodes the header at `pos`, returning it and the position after it.
    pub fn decode(s: &[u8], pos: usize) -> (r: Result<(Header, usize), ErrorKind>)
        ensures
            match header_at(s@, pos as int) {
                Ok((h, e)) => r == Ok::<(Header, usize), ErrorKind>((h, e as usize)),
                Err(k) => r == Err::<(Header, usize), ErrorKind>(k),
            },
            r is Ok ==> pos + 2 <= r->Ok_0.1 <= s@.len() && r->Ok_0.0.wf(),
    {
        let (tag, te) = match decode_tag(s, pos) {
            Ok(found) => found,
            Err(k) => return Err(k),
        };
        match decode_length(s, te) {
            Ok((l, e)) => Ok((Header { tag, length: l }, e)),
            Err(ErrorKind::Overlength) => Err(ErrorKind::Length { tag }),
            Err(k) => Err(k),
        }
    }

    /// Number of octets of the header's encoding (0x80 for an indefinite length).
    pub fn encoded_len(&self) -> (r: usize)
        requires
            self.tag.wf(),
        ensures
            self.length is Definite ==> r == header_octets(
                self.tag,
                self.length->Definite_0 as nat,
            ).len(),
            self.length is Indefinite ==> r == self.tag.octets().len() + 1,
            2 <= r <= 8,
    {
        let t = self.tag.encoded_len();
        match self.length {
            IndefiniteLength::Definite(n) => t + length_octets_len(n),
            IndefiniteLength::Indefinite => t + 1,
        }
    }

    /// Appends the header's encoding: the identifier octets, then the shortest
    /// length octets, or 0x80 for an indefinite length.
    pub fn encode(&self, out: &mut Vec<u8>)
        requires
            self.tag.wf(),
        ensures
            self.length is Definite ==> final(out)@ == old(out)@ + header_octets(
                self.tag,
                self.length->Definite_0 as nat,
            ),
            self.length is Indefinite ==> final(out)@ == old(out)@ + self.tag.octets() + seq![
                0x80u8,
            ],
    {
        self.tag.encode(out);
        let ghost mid = out@;
        match self.length {
            IndefiniteLength::Definite(n) => {
                encode_length(out, n);
                proof {
                    assert(old(out)@ + self.tag.octets() + length_octets(n as nat) =~= old(out)@
                        + header_octets(self.tag, n as nat));
                }
            },
            IndefiniteLength::Indefinite => {
                out.push(0x80);
                proof {
                    assert(mid.push(0x80u8) =~= old(out)@ + self.tag.octets() + seq![0x80u8]);
                }
            },
        }
    }
}

impl Header {
    /// Orders headers by their DER encodings: the tag octet first, then the
    /// length octets. An indefinite length has no DER encoding and is refused
    /// as a `Length` error naming the tag.
    pub fn der_cmp(&self, other: &Header) -> (r: Result<Ordering, ErrorKind>)
        requires
            self.tag.wf(),
            other.tag.wf(),
        ensures
            (self.length is Definite && other.length is Definite) <==> r is Ok,
            self.length is Indefinite ==> r == Err::<Ordering, ErrorKind>(
                ErrorKind::Length { tag: self.tag },
            ),
            self.length is Definite && other.length is Indefinite ==> r == Err::<
                Ordering,
                ErrorKind,
            >(ErrorKind::Length { tag: other.tag }),
            r is Ok ==> {
                let a = header_octets(self.tag, self.length->Definite_0 as nat);
                let b = header_octets(other.tag, other.length->Definite_0 as nat);
                &&& (r->Ok_0 == Ordering::Less) == lex_lt(a, b)
                &&& (r->Ok_0 == Ordering::Equal) == (a == b)
                &&& (r->Ok_0 == Ordering::Greater) == lex_lt(b, a)
            },
    {
        if !self.length.is_definite() {
            return Err(ErrorKind::Length { tag: self.tag });
        }
        if !other.length.is_definite() {
            return Err(ErrorKind::Length { tag: other.tag });
        }
        let mut a: Vec<u8> = Vec::new();
        let mut b: Vec<u8> = Vec::new();
        self.encode(&mut a);
        other.encode(&mut b);
        proof {
            assert(a@ =~= header_octets(self.tag, self.length->Definite_0 as nat));
            assert(b@ =~= header_octets(other.tag, other.length->Definite_0 as nat));
        }
        Ok(der_cmp(a.as_slice(), b.as_slice()))
    }
}

} // verus!
