use vstd::prelude::*;
use crate::error::{Error, ErrorKind};
use crate::header::{
    header_at, header_octets, lemma_length_round_trip, tag_at, lemma_tag_at_octets, lemma_tag_round_trip,
    length_octets, Class, Header, IndefiniteLength, Tag, MAX_LENGTH,
};
use crate::reader::{canon, drained, eoc_at, eoc_failure, lemma_canon_bounds, tagged_at, Reader};

verus! {

/// An untyped value: its tag and its value octets (without the header).
#[derive(Clone, Debug, PartialEq, Eq)]
pub struct Any {
    pub tag: Tag,
    pub value: Vec<u8>,
}

/// The DER encoding of a value with this tag and these value octets.
pub open spec fn tlv_octets(tag: Tag, value: Seq<u8>) -> Seq<u8> {
    header_octets(tag, value.len()) + value
}

/// The value at `pos` of the window `s` and where it ends. A definite value
/// keeps its octets. Under BER an indefinite value, which must be constructed,
/// holds the DER re-encoding of its elements and ends after its closing marker.
pub open spec fn any_at(s: Seq<u8>, pos: int, ber: bool) -> Result<(Tag, Seq<u8>, int), ErrorKind> {
    match header_at(s, pos) {
        Err(k) => Err(k),
        Ok((h, e)) => match h.length {
            IndefiniteLength::Definite(n) => {
                if e + n > s.len() {
                    Err(ErrorKind::Incomplete)
                } else {
                    Ok((h.tag, s.subrange(e, e + n), e + n))
                }
            },
            IndefiniteLength::Indefinite => {
                if !ber {
                    Err(ErrorKind::Length { tag: h.tag })
                } else if !h.tag.constructed {
                    Err(
                        ErrorKind::UnexpectedTag {
                            expected: Tag { constructed: true, ..h.tag },
                            actual: h.tag,
                        },
                    )
                } else {
                    match canon(s, e, 0) {
                        Err(k) => Err(k),
                        Ok((c, q)) => {
                            if !eoc_at(s, q) {
                                Err(eoc_failure(s, q))
                            } else if c.len() > MAX_LENGTH {
                                Err(ErrorKind::Overflow)
                            } else {
                                Ok((h.tag, c, q + 2))
                            }
                        },
                    }
                }
            },
        },
    }
}

/// The value that the whole of `s` encodes under DER, if it encodes exactly one.
pub open spec fn parse_any(s: Seq<u8>) -> Option<(Tag, Seq<u8>)> {
    match any_at(s, 0, false) {
        Ok((t, v, q)) => if q == s.len() {
            Some((t, v))
        } else {
            None
        },
        Err(_) => None,
    }
}

/// Whether the header at the start of `s` has a definite length and is
/// written as DER writes it: its length in the shortest form.
pub open spec fn shortest_header(s: Seq<u8>) -> bool {
    match header_at(s, 0) {
        Ok((h, e)) => match h.length {
            IndefiniteLength::Definite(n) => s.subrange(0, e) == header_octets(h.tag, n as nat),
            IndefiniteLength::Indefinite => false,
        },
        Err(_) => false,
    }
}

impl Any {
    /// A value with this tag and these octets; `Overflow` when they are too long.
    pub fn new(tag: Tag, value: Vec<u8>) -> (r: Result<Any, Error>)
        ensures
            value@.len() > MAX_LENGTH ==> r is Err && r->Err_0.kind == ErrorKind::Overflow,
            value@.len() <= MAX_LENGTH ==> r is Ok && r->Ok_0.tag == tag && r->Ok_0.value@
                == value@,
    {
        if value.len() > MAX_LENGTH as usize {
            return Err(ErrorKind::Overflow.at(0));
        }
        Ok(Any { tag, value })
    }

    pub fn tag(&self) -> (t: Tag)
        ensures
            t == self.tag,
    {
        self.tag
    }

    pub fn value(&self) -> (v: &Vec<u8>)
        ensures
            v@ == self.value@,
    {
        &self.value
    }

    /// Number of octets of the DER encoding.
    pub fn encoded_len(&self) -> (r: Result<u32, Error>)
        requires
            self.tag.wf(),
        ensures
            self.value@.len() <= MAX_LENGTH - 8 ==> r == Ok::<u32, Error>(
                tlv_octets(self.tag, self.value@).len() as u32,
            ),
            r is Ok ==> r->Ok_0 == tlv_octets(self.tag, self.value@).len(),
            self.value@.len() > MAX_LENGTH ==> r is Err,
    {
        if self.value.len() > MAX_LENGTH as usize {
            return Err(ErrorKind::Overflow.at(0));
        }
        let h = Header { tag: self.tag, length: IndefiniteLength::Definite(self.value.len() as u32) };
        let hl = h.encoded_len();
        if self.value.len() > (MAX_LENGTH as usize) - hl {
            return Err(ErrorKind::Overflow.at(0));
        }
        Ok((hl + self.value.len()) as u32)
    }

    /// Appends the DER encoding; `Overflow` when the value is too long.
    pub fn encode(&self, out: &mut Vec<u8>) -> (r: Result<(), Error>)
        requires
            self.tag.wf(),
        ensures
            self.value@.len() <= MAX_LENGTH <==> r is Ok,
            r is Ok ==> final(out)@ == old(out)@ + tlv_octets(self.tag, self.value@),
            r is Err ==> r->Err_0.kind == ErrorKind::Overflow && final(out)@ == old(out)@,
    {
        encode_tlv(self.tag, self.value.as_slice(), out)
    }

    /// The DER encoding; `Overflow` when it is longer than [`MAX_LENGTH`].
    pub fn to_der(&self) -> (r: Result<Vec<u8>, Error>)
        requires
            self.tag.wf(),
        ensures
            tlv_octets(self.tag, self.value@).len() <= MAX_LENGTH <==> r is Ok,
            r is Ok ==> r->Ok_0@ == tlv_octets(self.tag, self.value@),
            r is Err ==> r->Err_0.kind == ErrorKind::Overflow,
    {
        let mut out: Vec<u8> = Vec::new();
        self.encode(&mut out)?;
        proof {
            assert(Seq::<u8>::empty() + tlv_octets(self.tag, self.value@) =~= tlv_octets(
                self.tag,
                self.value@,
            ));
        }
        if out.len() > MAX_LENGTH as usize {
            return Err(ErrorKind::Overflow.at(0));
        }
        Ok(out)
    }

    /// Decodes the value at the cursor, as [`any_at`] describes.
    pub fn decode(r: &mut Reader) -> (res: Result<Any, Error>)
        requires
            old(r).wf(),
        ensures
            final(r).wf(),
            final(r).same_input(old(r)),
            match any_at(old(r).window(), old(r).pos(), old(r).ber()) {
                Ok((t, v, q)) => res is Ok && res->Ok_0.tag == t && res->Ok_0.value@ == v
                    && final(r).pos() == q,
                Err(k) => res is Err && res->Err_0.kind == k,
            },
            res is Ok ==> res->Ok_0.tag.wf(),
            res is Err ==> res->Err_0.position == final(r).pos(),
    {
        let ghost s = r.window();
        let header = r.read_header()?;
        match header.length {
            IndefiniteLength::Definite(n) => {
                let value = r.read_vec(n)?;
                Ok(Any { tag: header.tag, value })
            },
            IndefiniteLength::Indefinite => {
                if !r.is_parsing_ber() {
                    return Err(r.error(ErrorKind::Length { tag: header.tag }));
                }
                if !header.tag.constructed {
                    let expected = Tag { constructed: true, ..header.tag };
                    return Err(r.error(ErrorKind::UnexpectedTag { expected, actual: header.tag }));
                }
                let ghost e = r.pos();
                let mut value: Vec<u8> = Vec::new();
                r.der_elements(0, &mut value)?;
                proof {
                    lemma_canon_bounds(s, e, 0);
                    assert(value@ =~= Seq::<u8>::empty() + value@);
                }
                if !r.read_eoc()? {
                    return Err(r.error(ErrorKind::EndOfContent));
                }
                if value.len() > MAX_LENGTH as usize {
                    return Err(r.error(ErrorKind::Overflow));
                }
                Ok(Any { tag: header.tag, value })
            },
        }
    }

    /// Decodes `bytes` under DER: one value and nothing after it.
    pub fn from_der(bytes: Vec<u8>) -> (r: Result<Any, Error>)
        ensures
            bytes@.len() <= MAX_LENGTH ==> (r is Ok <==> parse_any(bytes@) is Some),
            r is Ok ==> parse_any(bytes@) == Some((r->Ok_0.tag, r->Ok_0.value@)),
            r is Ok ==> bytes@.len() <= MAX_LENGTH && r->Ok_0.tag.wf(),
    {
        let mut rd = Reader::new(bytes, false)?;
        proof {
            assert(rd.window() =~= bytes@);
        }
        let any = Any::decode(&mut rd)?;
        rd.finish(any)
    }

    /// Decodes `bytes` under BER: one value, optionally followed by a single
    /// end-of-content marker, and nothing more.
    pub fn from_ber(bytes: Vec<u8>) -> (r: Result<Any, Error>)
        ensures
            bytes@.len() <= MAX_LENGTH ==> (r is Ok <==> match any_at(bytes@, 0, true) {
                Ok((t, v, q)) => q == bytes@.len() || (eoc_at(bytes@, q) && q + 2 == bytes@.len()),
                Err(_) => false,
            }),
            r is Ok ==> match any_at(bytes@, 0, true) {
                Ok((t, v, q)) => r->Ok_0.tag == t && r->Ok_0.value@ == v,
                Err(_) => false,
            },
    {
        let mut rd = Reader::new(bytes, true)?;
        proof {
            assert(rd.window() =~= bytes@);
        }
        let any = Any::decode(&mut rd)?;
        rd.finish(any)
    }
}

impl Reader {
    /// Decodes the value at the cursor as [`Any::decode`] does; under BER an
    /// end-of-content marker right after it is consumed too.
    pub fn decode(&mut self) -> (res: Result<Any, Error>)
        requires
            old(self).wf(),
        ensures
            final(self).wf(),
            final(self).same_input(old(self)),
            match any_at(old(self).window(), old(self).pos(), old(self).ber()) {
                Ok((t, v, q)) => {
                    let s = old(self).window();
                    &&& (!old(self).ber() || q == s.len() || s[q] != 0) ==> res is Ok
                        && final(self).pos() == q
                    &&& (old(self).ber() && eoc_at(s, q)) ==> res is Ok && final(self).pos() == q
                        + 2
                    &&& (old(self).ber() && q < s.len() && s[q] == 0 && !eoc_at(s, q)) ==> res is Err
                        && res->Err_0.kind == eoc_failure(s, q) && res->Err_0.position == q
                    &&& res is Ok ==> res->Ok_0.tag == t && res->Ok_0.value@ == v
                },
                Err(k) => res is Err && res->Err_0.kind == k,
            },
            res is Err ==> res->Err_0.position == final(self).pos(),
    {
        let decoded = Any::decode(self)?;
        if self.is_parsing_ber() {
            self.read_eoc()?;
        }
        Ok(decoded)
    }

    /// Decodes an optional context-specific field `[n]`. Explicit: the next
    /// element must have the constructed tag `[n]` and hold exactly one value,
    /// which is returned. Implicit: the next element, with tag `[n]` in either
    /// form, is returned as it stands. Another tag (or none) gives `None`.
    pub fn context_specific(&mut self, n: u16, explicit: bool) -> (res: Result<Option<Any>, Error>)
        requires
            old(self).wf(),
        ensures
            final(self).wf(),
            final(self).data() == old(self).data(),
            res is Ok ==> final(self).same_input(old(self)),
            ({
                let s = old(self).window();
                let p = old(self).pos();
                let present = match tag_at(s, p) {
                    Ok((t, _)) => if explicit {
                        t == Tag::context(n, true)
                    } else {
                        t == Tag::context(n, true) || t == Tag::context(n, false)
                    },
                    Err(_) => false,
                };
                &&& !present ==> res == Ok::<Option<Any>, Error>(None) && final(self).pos() == p
                &&& (present && !explicit) ==> match any_at(s, p, old(self).ber()) {
                    Ok((t, v, q)) => res is Ok && res->Ok_0 is Some && res->Ok_0->Some_0.tag == t
                        && res->Ok_0->Some_0.value@ == v && final(self).pos() == q,
                    Err(k) => res is Err && res->Err_0.kind == k,
                }
                &&& (present && explicit) ==> match tagged_at(
                    s,
                    p,
                    Tag::context(n, true),
                    old(self).ber(),
                ) {
                    Ok((e, w)) => match any_at(s.subrange(0, w), e, old(self).ber()) {
                        Ok((t, v, q)) => if drained(s.subrange(0, w), q, old(self).ber()) {
                            res is Ok && res->Ok_0 is Some && res->Ok_0->Some_0.tag == t
                                && res->Ok_0->Some_0.value@ == v && final(self).pos() == w
                        } else {
                            res is Err
                        },
                        Err(k) => res is Err && res->Err_0.kind == k,
                    },
                    Err(k) => res is Err && res->Err_0.kind == k,
                }
            }),
    {
        let ghost s = old(self).window();
        let constructed = crate::header::tag_context(n, true);
        let primitive = crate::header::tag_context(n, false);
        let next = match self.peek_tag() {
            Ok(t) => t,
            Err(_) => {
                return Ok(None);
            },
        };
        if explicit {
            if next != constructed {
                return Ok(None);
            }
            let outer = self.enter_tagged(constructed)?;
            let ghost w = self.end();
            proof {
                assert(self.window() =~= s.subrange(0, w));
            }
            let value = Any::decode(self)?;
            self.leave_nested(outer)?;
            Ok(Some(value))
        } else {
            if next != constructed && next != primitive {
                return Ok(None);
            }
            let value = Any::decode(self)?;
            Ok(Some(value))
        }
    }
}

/// Appends the DER encoding of a value with this tag and these value octets;
/// `Overflow` when they are too long.
pub fn encode_tlv(tag: Tag, value: &[u8], out: &mut Vec<u8>) -> (r: Result<(), Error>)
    requires
        tag.wf(),
    ensures
        value@.len() <= MAX_LENGTH <==> r is Ok,
        r is Ok ==> final(out)@ == old(out)@ + tlv_octets(tag, value@),
        r is Err ==> r->Err_0.kind == ErrorKind::Overflow && final(out)@ == old(out)@,
{
    if value.len() > MAX_LENGTH as usize {
        return Err(ErrorKind::Overflow.at(0));
    }
    let h = Header { tag, length: IndefiniteLength::Definite(value.len() as u32) };
    h.encode(out);
    let ghost mid = out@;
    append(out, value);
    proof {
        assert(out@ =~= old(out)@ + tlv_octets(tag, value@));
    }
    Ok(())
}

/// Appends `src` to `out`.
pub fn append(out: &mut Vec<u8>, src: &[u8])
    ensures
        final(out)@ == old(out)@ + src@,
{
    let mut i: usize = 0;
    while i < src.len()
        invariant
            0 <= i <= src@.len(),
            out@ == old(out)@ + src@.subrange(0, i as int),
        decreases src@.len() - i,
    {
        out.push(src[i]);
        proof {
            assert(old(out)@ + src@.subrange(0, i + 1) =~= (old(out)@ + src@.subrange(0, i as int)).push(
                src@[i as int],
            ));
        }
        i = i + 1;
    }
    proof {
        assert(src@.subrange(0, src@.len() as int) =~= src@);
    }
}

/// The value octets of the primitive element with tag `tag` at `pos` of the
/// window `s`, and where it ends. An indefinite length, which only a
/// constructed encoding may have, is refused as an unexpected tag.
pub open spec fn prim_at(s: Seq<u8>, pos: int, tag: Tag) -> Result<(Seq<u8>, int), ErrorKind> {
    match header_at(s, pos) {
        Err(k) => Err(k),
        Ok((h, e)) => {
            if h.tag != tag {
                Err(ErrorKind::UnexpectedTag { expected: tag, actual: h.tag })
            } else {
                match h.length {
                    IndefiniteLength::Definite(n) => {
                        if e + n > s.len() {
                            Err(ErrorKind::Incomplete)
                        } else {
                            Ok((s.subrange(e, e + n), e + n))
                        }
                    },
                    IndefiniteLength::Indefinite => Err(
                        ErrorKind::UnexpectedTag {
                            expected: Tag { constructed: true, ..h.tag },
                            actual: h.tag,
                        },
                    ),
                }
            }
        },
    }
}

/// Reads the element with tag `tag` at the cursor and returns its value octets,
/// as [`prim_at`] gives them.
pub fn decode_primitive(r: &mut Reader, tag: Tag) -> (res: Result<Vec<u8>, Error>)
    requires
        old(r).wf(),
    ensures
        final(r).wf(),
        final(r).same_input(old(r)),
        match prim_at(old(r).window(), old(r).pos(), tag) {
            Ok((v, q)) => res is Ok && res->Ok_0@ == v && final(r).pos() == q,
            Err(k) => res is Err && res->Err_0.kind == k,
        },
{
    let (h, e) = r.peek_header()?;
    if h.tag != tag {
        return Err(r.error(ErrorKind::UnexpectedTag { expected: tag, actual: h.tag }));
    }
    match h.length {
        IndefiniteLength::Definite(n) => {
            let _ = r.read_header()?;
            r.read_vec(n)
        },
        IndefiniteLength::Indefinite => {
            let expected = Tag { constructed: true, ..h.tag };
            Err(r.error(ErrorKind::UnexpectedTag { expected, actual: h.tag }))
        },
    }
}

/// `INTEGER` (0x02).
pub open spec fn tag_integer_spec() -> Tag {
    Tag { class: Class::Universal, constructed: false, number: 2 }
}

pub fn tag_integer() -> (t: Tag)
    ensures
        t == tag_integer_spec(),
{
    Tag { class: Class::Universal, constructed: false, number: 2 }
}

/// Decodes an `INTEGER` that fits an `i8`: exactly one value octet, read as
/// two's complement. A longer or empty value is a `Value` error.
pub fn decode_i8(r: &mut Reader) -> (res: Result<i8, Error>)
    requires
        old(r).wf(),
    ensures
        final(r).wf(),
        final(r).same_input(old(r)),
        match prim_at(old(r).window(), old(r).pos(), tag_integer_spec()) {
            Ok((v, q)) => if v.len() == 1 {
                res == Ok::<i8, Error>(v[0] as i8) && final(r).pos() == q
            } else {
                res is Err && res->Err_0.kind == (ErrorKind::Value { tag: tag_integer_spec() })
            },
            Err(k) => res is Err && res->Err_0.kind == k,
        },
{
    let tag = tag_integer();
    let v = decode_primitive(r, tag)?;
    if v.len() != 1 {
        return Err(r.error(ErrorKind::Value { tag }));
    }
    Ok(v[0] as i8)
}

/// A well-formed header with a definite length, written in DER, reads back as
/// itself wherever it stands.
pub proof fn lemma_header_round_trip(p: Seq<u8>, h: Header, rest: Seq<u8>)
    requires
        h.wf(),
        h.length is Definite,
    ensures
        header_at(p + header_octets(h.tag, h.length->Definite_0 as nat) + rest, p.len() as int)
            == Ok::<(Header, int), ErrorKind>(
            (h, (p.len() + header_octets(h.tag, h.length->Definite_0 as nat).len()) as int),
        ),
{
    lemma_header_at_octets(p, h.tag, h.length->Definite_0 as nat, rest);
}

/// A header written in DER reads back as itself wherever it stands.
pub proof fn lemma_header_at_octets(p: Seq<u8>, tag: Tag, n: nat, rest: Seq<u8>)
    requires
        tag.wf(),
        n <= MAX_LENGTH,
    ensures
        header_at(p + header_octets(tag, n) + rest, p.len() as int) == Ok::<(Header, int), ErrorKind>(
            (
                Header { tag, length: IndefiniteLength::Definite(n as u32) },
                (p.len() + header_octets(tag, n).len()) as int,
            ),
        ),
{
    let s = p + header_octets(tag, n) + rest;
    assert(s =~= p + tag.octets() + (length_octets(n) + rest));
    lemma_tag_round_trip(p, tag, length_octets(n) + rest);
    assert(s =~= (p + tag.octets()) + length_octets(n) + rest);
    lemma_length_round_trip(p + tag.octets(), n, rest);
}

/// A value written in DER reads back as itself wherever it stands, under DER
/// and under BER.
pub proof fn lemma_any_at_octets(p: Seq<u8>, tag: Tag, value: Seq<u8>, rest: Seq<u8>, ber: bool)
    requires
        tag.wf(),
        value.len() <= MAX_LENGTH,
    ensures
        any_at(p + tlv_octets(tag, value) + rest, p.len() as int, ber) == Ok::<
            (Tag, Seq<u8>, int),
            ErrorKind,
        >((tag, value, (p.len() + tlv_octets(tag, value).len()) as int)),
{
    let h = header_octets(tag, value.len());
    let s = p + tlv_octets(tag, value) + rest;
    assert(s =~= p + h + (value + rest));
    lemma_header_at_octets(p, tag, value.len(), value + rest);
    let e = p.len() + h.len();
    assert(s.subrange(e as int, (e + value.len()) as int) =~= value);
}

/// The same for [`prim_at`], when the tag is the one asked for.
pub proof fn lemma_prim_at_octets(p: Seq<u8>, tag: Tag, value: Seq<u8>, rest: Seq<u8>)
    requires
        tag.wf(),
        value.len() <= MAX_LENGTH,
    ensures
        prim_at(p + tlv_octets(tag, value) + rest, p.len() as int, tag) == Ok::<
            (Seq<u8>, int),
            ErrorKind,
        >((value, (p.len() + tlv_octets(tag, value).len()) as int)),
{
    let h = header_octets(tag, value.len());
    let s = p + tlv_octets(tag, value) + rest;
    assert(s =~= p + h + (value + rest));
    lemma_header_at_octets(p, tag, value.len(), value + rest);
    let e = p.len() + h.len();
    assert(s.subrange(e as int, (e + value.len()) as int) =~= value);
}

/// A constructed value written in DER opens the window of its value octets.
pub proof fn lemma_tagged_at_octets(p: Seq<u8>, tag: Tag, value: Seq<u8>, rest: Seq<u8>, ber: bool)
    requires
        tag.wf(),
        value.len() <= MAX_LENGTH,
    ensures
        tagged_at(p + tlv_octets(tag, value) + rest, p.len() as int, tag, ber) == Ok::<
            (int, int),
            ErrorKind,
        >(
            (
                (p.len() + header_octets(tag, value.len()).len()) as int,
                (p.len() + tlv_octets(tag, value).len()) as int,
            ),
        ),
{
    let h = header_octets(tag, value.len());
    let s = p + tlv_octets(tag, value) + rest;
    assert(s =~= p + h + (value + rest));
    lemma_header_at_octets(p, tag, value.len(), value + rest);
}

/// Decoding the DER encoding of a value gives that value back.
pub proof fn lemma_any_round_trip(tag: Tag, value: Seq<u8>)
    requires
        tag.wf(),
        value.len() <= MAX_LENGTH,
    ensures
        parse_any(tlv_octets(tag, value)) == Some((tag, value)),
        shortest_header(tlv_octets(tag, value)),
{
    let e: Seq<u8> = Seq::empty();
    let s = tlv_octets(tag, value);
    assert(s =~= e + s + e);
    lemma_any_at_octets(e, tag, value, e, false);
    lemma_header_at_octets(e, tag, value.len(), value);
    assert(s =~= e + header_octets(tag, value.len()) + value);
    assert(s.subrange(0, header_octets(tag, value.len()).len() as int) =~= header_octets(
        tag,
        value.len(),
    ));
}

/// Encoding what DER input decodes to gives that input back, when its header
/// is written as DER writes it.
pub proof fn lemma_any_reencode(s: Seq<u8>)
    requires
        parse_any(s) is Some,
        shortest_header(s),
    ensures
        ({
            let (t, v) = parse_any(s)->Some_0;
            tlv_octets(t, v) == s
        }),
{
    let (h, e) = header_at(s, 0)->Ok_0;
    let (t, v) = parse_any(s)->Some_0;
    assert(s =~= s.subrange(0, e) + s.subrange(e, s.len() as int));
    assert(tlv_octets(t, v) =~= s);
}

/// A BER value that decodes to a tag and octets has a DER form, and that DER
/// form decodes to the same tag and octets.
pub proof fn lemma_ber_agrees_with_der(s: Seq<u8>)
    requires
        any_at(s, 0, true) is Ok,
    ensures
        ({
            let (t, v, q) = any_at(s, 0, true)->Ok_0;
            parse_any(tlv_octets(t, v)) == Some((t, v))
        }),
{
    let (t, v, q) = any_at(s, 0, true)->Ok_0;
    lemma_tag_at_octets(s, 0);
    let (h, e) = header_at(s, 0)->Ok_0;
    if h.length is Definite {
        assert(v.len() == h.length->Definite_0);
    }
    lemma_any_round_trip(t, v);
}

} // verus!
