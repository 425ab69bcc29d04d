use vstd::prelude::*;
use core::cmp::Ordering;
use crate::any::{
    any_at, decode_primitive, encode_tlv, lemma_any_at_octets, lemma_prim_at_octets,
    lemma_tagged_at_octets, prim_at, tlv_octets, Any,
};
use crate::error::{Error, ErrorKind};
use crate::header::{header_at, header_octets, tag_at, tag_context, tag_sequence, tag_set, Class, Tag, MAX_LENGTH};
use crate::reader::{drained, tagged_at, Reader};
use crate::set_of::{der_cmp, der_value, distinct, lex_lt, set_of_at, set_octets, sorted, SetOfVec};

verus! {

/// `OBJECT IDENTIFIER` (0x06).
pub open spec fn tag_oid_spec() -> Tag {
    Tag { class: Class::Universal, constructed: false, number: 6 }
}

pub fn tag_oid() -> (t: Tag)
    ensures
        t == tag_oid_spec(),
{
    Tag { class: Class::Universal, constructed: false, number: 6 }
}

/// Value octets of id-data, 1.2.840.113549.1.7.1.
pub open spec fn id_data_octets() -> Seq<u8> {
    seq![0x2au8, 0x86, 0x48, 0x86, 0xf7, 0x0d, 0x01, 0x07, 0x01]
}

/// Value octets of id-signedData, 1.2.840.113549.1.7.2.
pub open spec fn id_signed_data_octets() -> Seq<u8> {
    seq![0x2au8, 0x86, 0x48, 0x86, 0xf7, 0x0d, 0x01, 0x07, 0x02]
}

/// Relies on const_oid's `db::rfc5911::ID_DATA` (1.2.840.113549.1.7.1), built
/// from a valid dotted string, and `ObjectIdentifier::as_bytes`, which gives
/// its BER/DER value octets; `from_bytes` accepts them back.
#[verifier::external_body]
fn id_data_from_registry() -> (r: Vec<u8>)
    ensures
        r@ == id_data_octets(),
        oid_accepts(r@),
{
    const_oid::db::rfc5911::ID_DATA.as_bytes().to_vec()
}

/// Relies on const_oid's `db::rfc5911::ID_SIGNED_DATA` (1.2.840.113549.1.7.2),
/// built from a valid dotted string, and `ObjectIdentifier::as_bytes`, which
/// gives its BER/DER value octets; `from_bytes` accepts them back.
#[verifier::external_body]
fn id_signed_data_from_registry() -> (r: Vec<u8>)
    ensures
        r@ == id_signed_data_octets(),
        oid_accepts(r@),
{
    const_oid::db::rfc5911::ID_SIGNED_DATA.as_bytes().to_vec()
}

/// Whether const-oid accepts `v` as the value octets of an object identifier.
pub uninterp spec fn oid_accepts(v: Seq<u8>) -> bool;

/// Relies on const_oid's `ObjectIdentifier::from_bytes`, which parses the
/// value octets of an identifier and refuses fewer than three or more than 39
/// of them.
#[verifier::external_body]
fn oid_check(v: &[u8]) -> (r: bool)
    ensures
        r == oid_accepts(v@),
        r ==> 3 <= v@.len() <= 39,
{
    const_oid::ObjectIdentifier::from_bytes(v).is_ok()
}

/// An object identifier, held as its value octets.
#[derive(Clone, Debug, PartialEq, Eq)]
pub struct ObjectIdentifier {
    bytes: Vec<u8>,
}

/// The identifier at `pos` of the window `s`, and where it ends.
pub open spec fn oid_at(s: Seq<u8>, pos: int) -> Result<(Seq<u8>, int), ErrorKind> {
    match prim_at(s, pos, tag_oid_spec()) {
        Err(k) => Err(k),
        Ok((v, q)) => if oid_accepts(v) {
            Ok((v, q))
        } else {
            Err(ErrorKind::Value { tag: tag_oid_spec() })
        },
    }
}

impl ObjectIdentifier {
    /// The value octets.
    pub closed spec fn octets(&self) -> Seq<u8> {
        self.bytes@
    }

    /// Value octets that const-oid accepts.
    pub open spec fn wf(&self) -> bool {
        self.octets().len() <= 39 && oid_accepts(self.octets())
    }

    /// An identifier from its value octets; a `Value` error unless const-oid
    /// accepts them.
    pub fn from_octets(bytes: Vec<u8>) -> (r: Result<ObjectIdentifier, Error>)
        ensures
            oid_accepts(bytes@) <==> r is Ok,
            r is Ok ==> r->Ok_0.octets() == bytes@ && r->Ok_0.wf(),
            r is Err ==> r->Err_0.kind == (ErrorKind::Value { tag: tag_oid_spec() }),
    {
        if !oid_check(bytes.as_slice()) {
            return Err(ErrorKind::Value { tag: tag_oid() }.at(0));
        }
        Ok(ObjectIdentifier { bytes })
    }

    /// id-data.
    pub fn id_data() -> (r: ObjectIdentifier)
        ensures
            r.octets() == id_data_octets(),
            r.wf(),
    {
        ObjectIdentifier { bytes: id_data_from_registry() }
    }

    /// id-signedData.
    pub fn id_signed_data() -> (r: ObjectIdentifier)
        ensures
            r.octets() == id_signed_data_octets(),
            r.wf(),
    {
        ObjectIdentifier { bytes: id_signed_data_from_registry() }
    }

    pub fn as_bytes(&self) -> (r: &Vec<u8>)
        ensures
            r@ == self.octets(),
    {
        &self.bytes
    }

    /// Appends the DER encoding.
    pub fn encode(&self, out: &mut Vec<u8>)
        requires
            self.wf(),
        ensures
            final(out)@ == old(out)@ + tlv_octets(tag_oid_spec(), self.octets()),
    {
        let _ = encode_tlv(tag_oid(), self.bytes.as_slice(), out);
    }

    /// Decodes the identifier at the cursor, as [`oid_at`] gives it.
    pub fn decode(r: &mut Reader) -> (res: Result<ObjectIdentifier, Error>)
        requires
            old(r).wf(),
        ensures
            final(r).wf(),
            final(r).same_input(old(r)),
            match oid_at(old(r).window(), old(r).pos()) {
                Ok((v, q)) => res is Ok && res->Ok_0.octets() == v && final(r).pos() == q,
                Err(k) => res is Err && res->Err_0.kind == k,
            },
            res is Ok ==> res->Ok_0.wf(),
    {
        let v = decode_primitive(r, tag_oid())?;
        match ObjectIdentifier::from_octets(v) {
            Ok(o) => Ok(o),
            Err(_) => Err(r.error(ErrorKind::Value { tag: tag_oid() })),
        }
    }
}

/// The CMS version number.
#[derive(Clone, Copy, Debug, PartialEq, Eq, Structural)]
pub enum CmsVersion {
    V0,
    V1,
    V2,
    V3,
    V4,
    V5,
}

impl CmsVersion {
    pub open spec fn value(self) -> u8 {
        match self {
            CmsVersion::V0 => 0,
            CmsVersion::V1 => 1,
            CmsVersion::V2 => 2,
            CmsVersion::V3 => 3,
            CmsVersion::V4 => 4,
            CmsVersion::V5 => 5,
        }
    }

    pub fn to_u8(&self) -> (r: u8)
        ensures
            r == self.value(),
    {
        match self {
            CmsVersion::V0 => 0,
            CmsVersion::V1 => 1,
            CmsVersion::V2 => 2,
            CmsVersion::V3 => 3,
            CmsVersion::V4 => 4,
            CmsVersion::V5 => 5,
        }
    }

    /// The version numbered `n`, for `n` up to 5.
    pub fn from_u8(n: u8) -> (r: Option<CmsVersion>)
        ensures
            n <= 5 <==> r is Some,
            r is Some ==> r->Some_0.value() == n,
    {
        match n {
            0 => Some(CmsVersion::V0),
            1 => Some(CmsVersion::V1),
            2 => Some(CmsVersion::V2),
            3 => Some(CmsVersion::V3),
            4 => Some(CmsVersion::V4),
            5 => Some(CmsVersion::V5),
            _ => None,
        }
    }

    /// Orders versions by number.
    pub fn value_cmp(&self, other: &CmsVersion) -> (r: Ordering)
        ensures
            (r == Ordering::Less) == (self.value() < other.value()),
            (r == Ordering::Equal) == (self.value() == other.value()),
            (r == Ordering::Greater) == (self.value() > other.value()),
    {
        let a = self.to_u8();
        let b = other.to_u8();
        if a < b {
            Ordering::Less
        } else if a == b {
            Ordering::Equal
        } else {
            Ordering::Greater
        }
    }

    /// The DER encoding: `INTEGER` with one octet.
    pub open spec fn octets(self) -> Seq<u8> {
        seq![0x02u8, 0x01, self.value()]
    }

    pub fn encode(&self, out: &mut Vec<u8>)
        ensures
            final(out)@ == old(out)@ + self.octets(),
    {
        out.push(0x02);
        out.push(0x01);
        out.push(self.to_u8());
        proof {
            assert(old(out)@.push(0x02).push(0x01).push(self.value()) =~= old(out)@ + self.octets());
        }
    }

    /// Decodes the version at the cursor: an `INTEGER` of one octet up to 5,
    /// else a `Value` error.
    pub fn decode(r: &mut Reader) -> (res: Result<CmsVersion, Error>)
        requires
            old(r).wf(),
        ensures
            final(r).wf(),
            final(r).same_input(old(r)),
            match prim_at(old(r).window(), old(r).pos(), crate::any::tag_integer_spec()) {
                Ok((v, q)) => if v.len() == 1 && v[0] <= 5 {
                    res is Ok && res->Ok_0.value() == v[0] && final(r).pos() == q
                } else {
                    res is Err
                },
                Err(k) => res is Err && res->Err_0.kind == k,
            },
    {
        let tag = crate::any::tag_integer();
        let v = decode_primitive(r, tag)?;
        if v.len() != 1 {
            return Err(r.error(ErrorKind::Value { tag }));
        }
        match CmsVersion::from_u8(v[0]) {
            Some(ver) => Ok(ver),
            None => Err(r.error(ErrorKind::Value { tag })),
        }
    }
}

/// The encapsulated content: its type, and optionally the content itself
/// under an explicit `[0]`.
#[derive(Clone, Debug, PartialEq, Eq)]
pub struct EncapsulatedContentInfo {
    pub econtent_type: ObjectIdentifier,
    pub econtent: Option<Any>,
}

/// The octets of an optional explicitly tagged `[0]` value.
pub open spec fn explicit0_octets(a: Option<Any>) -> Seq<u8> {
    match a {
        Some(v) => tlv_octets(Tag::context(0, true), tlv_octets(v.tag, v.value@)),
        None => Seq::empty(),
    }
}

/// Whether an optional value fits under an explicit tag.
pub open spec fn explicit0_fits(a: Option<Any>) -> bool {
    match a {
        Some(v) => v.tag.wf() && tlv_octets(v.tag, v.value@).len() <= MAX_LENGTH,
        None => true,
    }
}

/// Appends an optional value under an explicit `[0]`.
fn encode_explicit0(a: &Option<Any>, out: &mut Vec<u8>) -> (r: Result<(), Error>)
    requires
        a is Some ==> a->Some_0.tag.wf(),
    ensures
        explicit0_fits(*a) <==> r is Ok,
        r is Ok ==> final(out)@ == old(out)@ + explicit0_octets(*a),
        r is Err ==> r->Err_0.kind == ErrorKind::Overflow,
{
    match a {
        Some(v) => {
            let inner = v.to_der()?;
            encode_tlv(tag_context(0, true), inner.as_slice(), out)
        },
        None => {
            assert(old(out)@ + Seq::<u8>::empty() =~= old(out)@);
            Ok(())
        },
    }
}

impl EncapsulatedContentInfo {
    pub open spec fn wf(&self) -> bool {
        self.econtent_type.wf() && (self.econtent is Some ==> self.econtent->Some_0.tag.wf())
    }

    /// The value octets of the `SEQUENCE`.
    pub open spec fn value_octets(&self) -> Seq<u8> {
        tlv_octets(tag_oid_spec(), self.econtent_type.octets()) + explicit0_octets(self.econtent)
    }

    pub open spec fn fits(&self) -> bool {
        explicit0_fits(self.econtent) && self.value_octets().len() <= MAX_LENGTH
    }

    /// Appends the DER encoding; `Overflow` when a part is too long.
    pub fn encode(&self, out: &mut Vec<u8>) -> (r: Result<(), Error>)
        requires
            self.wf(),
        ensures
            self.fits() <==> r is Ok,
            r is Ok ==> final(out)@ == old(out)@ + tlv_octets(Tag::sequence(), self.value_octets()),
            r is Err ==> r->Err_0.kind == ErrorKind::Overflow,
    {
        let mut v: Vec<u8> = Vec::new();
        self.econtent_type.encode(&mut v);
        encode_explicit0(&self.econtent, &mut v)?;
        proof {
            assert(v@ =~= self.value_octets());
        }
        encode_tlv(tag_sequence(), v.as_slice(), out)
    }
}

/// The certificates of a signed-data message, as a `SET OF` their encodings.
#[derive(Clone, Debug, PartialEq, Eq)]
pub struct CertificateSet(pub SetOfVec);

impl CertificateSet {
    /// A set of the given certificate encodings, each exactly one DER value;
    /// `DuplicateElement` when two are equal.
    pub fn try_from(v: Vec<Vec<u8>>) -> (r: Result<CertificateSet, Error>)
        ensures
            r is Ok ==> r->Ok_0.0.wf() && r->Ok_0.0.elems().to_set() == v@.map_values(
                |x: Vec<u8>| x@,
            ).to_set() && r->Ok_0.0.elems().len() == v@.len(),
            r is Err <==> (exists|i: int, j: int|
                0 <= i < j < v@.len() && (#[trigger] v@[i])@ == (#[trigger] v@[j])@) || (exists|
                i: int,
            |
                0 <= i < v@.len() && !der_value((#[trigger] v@[i])@)),
            (forall|i: int| 0 <= i < v@.len() ==> der_value((#[trigger] v@[i])@)) && r is Err
                ==> r->Err_0.kind == ErrorKind::DuplicateElement,
    {
        let s = SetOfVec::try_from_vec(v)?;
        Ok(CertificateSet(s))
    }
}

/// The signer infos of a signed-data message, as a `SET OF` their encodings.
#[derive(Clone, Debug, PartialEq, Eq)]
pub struct SignerInfos(pub SetOfVec);

impl SignerInfos {
    /// A set of the given signer-info encodings, each exactly one DER value;
    /// `DuplicateElement` when two are equal.
    pub fn try_from(v: Vec<Vec<u8>>) -> (r: Result<SignerInfos, Error>)
        ensures
            r is Ok ==> r->Ok_0.0.wf() && r->Ok_0.0.elems().to_set() == v@.map_values(
                |x: Vec<u8>| x@,
            ).to_set() && r->Ok_0.0.elems().len() == v@.len(),
            r is Err <==> (exists|i: int, j: int|
                0 <= i < j < v@.len() && (#[trigger] v@[i])@ == (#[trigger] v@[j])@) || (exists|
                i: int,
            |
                0 <= i < v@.len() && !der_value((#[trigger] v@[i])@)),
            (forall|i: int| 0 <= i < v@.len() ==> der_value((#[trigger] v@[i])@)) && r is Err
                ==> r->Err_0.kind == ErrorKind::DuplicateElement,
    {
        let s = SetOfVec::try_from_vec(v)?;
        Ok(SignerInfos(s))
    }
}

/// `OCTET STRING` (0x04).
pub open spec fn tag_octet_string_spec() -> Tag {
    Tag { class: Class::Universal, constructed: false, number: 4 }
}

pub fn tag_octet_string() -> (t: Tag)
    ensures
        t == tag_octet_string_spec(),
{
    Tag { class: Class::Universal, constructed: false, number: 4 }
}

/// How a signer is identified: by issuer and serial number (a `SEQUENCE`), or
/// by subject key identifier under an implicit `[0]`.
#[derive(Clone, Debug, PartialEq, Eq)]
pub enum SignerIdentifier {
    IssuerAndSerialNumber(Any),
    SubjectKeyIdentifier(Vec<u8>),
}

impl SignerIdentifier {
    pub open spec fn wf(&self) -> bool {
        match self {
            SignerIdentifier::IssuerAndSerialNumber(a) => a.tag == Tag::sequence(),
            SignerIdentifier::SubjectKeyIdentifier(_) => true,
        }
    }

    /// The DER encoding.
    pub open spec fn octets(&self) -> Seq<u8> {
        match self {
            SignerIdentifier::IssuerAndSerialNumber(a) => tlv_octets(a.tag, a.value@),
            SignerIdentifier::SubjectKeyIdentifier(k) => tlv_octets(Tag::context(0, false), k@),
        }
    }

    pub open spec fn fits(&self) -> bool {
        match self {
            SignerIdentifier::IssuerAndSerialNumber(a) => a.value@.len() <= MAX_LENGTH,
            SignerIdentifier::SubjectKeyIdentifier(k) => k@.len() <= MAX_LENGTH,
        }
    }

    /// Appends the DER encoding; `Overflow` when it is too long.
    pub fn encode(&self, out: &mut Vec<u8>) -> (r: Result<(), Error>)
        requires
            self.wf(),
        ensures
            self.fits() <==> r is Ok,
            r is Ok ==> final(out)@ == old(out)@ + self.octets(),
            r is Err ==> r->Err_0.kind == ErrorKind::Overflow,
    {
        match self {
            SignerIdentifier::IssuerAndSerialNumber(a) => a.encode(out),
            SignerIdentifier::SubjectKeyIdentifier(k) => encode_tlv(
                tag_context(0, false),
                k.as_slice(),
                out,
            ),
        }
    }

    /// The DER encoding.
    pub fn to_der(&self) -> (r: Result<Vec<u8>, Error>)
        requires
            self.wf(),
        ensures
            self.fits() <==> r is Ok,
            r is Ok ==> r->Ok_0@ == self.octets(),
    {
        let mut out: Vec<u8> = Vec::new();
        self.encode(&mut out)?;
        assert(out@ =~= self.octets());
        Ok(out)
    }

    /// Decodes the choice at the cursor by its tag: a `SEQUENCE` is an issuer
    /// and serial number, a primitive `[0]` a subject key identifier; any other
    /// tag is an `UnexpectedTag` error naming `SEQUENCE`.
    pub fn decode(r: &mut Reader) -> (res: Result<SignerIdentifier, Error>)
        requires
            old(r).wf(),
        ensures
            final(r).wf(),
            final(r).same_input(old(r)),
            ({
                let s = old(r).window();
                let p = old(r).pos();
                &&& next_is(s, p, Tag::sequence()) ==> match any_at(s, p, old(r).ber()) {
                    Ok((t, v, q)) => res is Ok && res->Ok_0 is IssuerAndSerialNumber
                        && res->Ok_0->IssuerAndSerialNumber_0.tag == t
                        && res->Ok_0->IssuerAndSerialNumber_0.value@ == v && final(r).pos() == q,
                    Err(k) => res is Err && res->Err_0.kind == k,
                }
                &&& next_is(s, p, Tag::context(0, false)) ==> match prim_at(
                    s,
                    p,
                    Tag::context(0, false),
                ) {
                    Ok((v, q)) => res is Ok && res->Ok_0 is SubjectKeyIdentifier
                        && res->Ok_0->SubjectKeyIdentifier_0@ == v && final(r).pos() == q,
                    Err(k) => res is Err && res->Err_0.kind == k,
                }
                &&& (!next_is(s, p, Tag::sequence()) && !next_is(s, p, Tag::context(0, false)))
                    ==> res is Err
                &&& (!next_is(s, p, Tag::sequence()) && !next_is(s, p, Tag::context(0, false))
                    && tag_at(s, p) is Ok) ==> res->Err_0.kind == (ErrorKind::UnexpectedTag {
                    expected: Tag::sequence(),
                    actual: tag_at(s, p)->Ok_0.0,
                })
                &&& res is Ok ==> res->Ok_0.wf()
            }),
    {
        let seq = tag_sequence();
        let key = tag_context(0, false);
        let next = r.peek_byte();
        if next == Some(seq.to_octet()) {
            proof {
                crate::header::lemma_tag_octet(Tag::sequence());
            }
            let a = Any::decode(r)?;
            Ok(SignerIdentifier::IssuerAndSerialNumber(a))
        } else if next == Some(key.to_octet()) {
            let v = decode_primitive(r, key)?;
            Ok(SignerIdentifier::SubjectKeyIdentifier(v))
        } else {
            let actual = r.peek_tag()?;
            Err(r.error(ErrorKind::UnexpectedTag { expected: seq, actual }))
        }
    }

    /// Orders identifiers by their DER encodings, the one order that holds
    /// across the alternatives of a choice.
    pub fn value_cmp(&self, other: &SignerIdentifier) -> (r: Result<Ordering, Error>)
        requires
            self.wf(),
            other.wf(),
        ensures
            (self.fits() && other.fits()) <==> r is Ok,
            r is Ok ==> (r->Ok_0 == Ordering::Less) == lex_lt(self.octets(), other.octets()) && (
            r->Ok_0 == Ordering::Equal) == (self.octets() == other.octets()) && (r->Ok_0
                == Ordering::Greater) == lex_lt(other.octets(), self.octets()),
    {
        let a = self.to_der()?;
        let b = other.to_der()?;
        Ok(der_cmp(a.as_slice(), b.as_slice()))
    }
}

/// The per-signer information of a signed-data message.
#[derive(Clone, Debug, PartialEq, Eq)]
pub struct SignerInfo {
    pub version: CmsVersion,
    pub sid: SignerIdentifier,
    pub digest_alg: Any,
    pub signed_attrs: Option<SetOfVec>,
    pub signature_algorithm: Any,
    pub signature: Vec<u8>,
    pub unsigned_attrs: Option<SetOfVec>,
}

impl SignerInfo {
    pub open spec fn wf(&self) -> bool {
        self.sid.wf() && self.digest_alg.tag.wf() && self.signature_algorithm.tag.wf()
    }

    /// The value octets of the `SEQUENCE`: version, signer identifier, digest
    /// algorithm, optional implicit `[0]` signed attributes, signature
    /// algorithm, signature, optional implicit `[1]` unsigned attributes.
    pub open spec fn value_octets(&self) -> Seq<u8> {
        self.version.octets() + self.sid.octets() + tlv_octets(
            self.digest_alg.tag,
            self.digest_alg.value@,
        ) + opt_set_octets(Tag::context(0, true), opt_elems(self.signed_attrs)) + tlv_octets(
            self.signature_algorithm.tag,
            self.signature_algorithm.value@,
        ) + tlv_octets(tag_octet_string_spec(), self.signature@) + opt_set_octets(
            Tag::context(1, true),
            opt_elems(self.unsigned_attrs),
        )
    }

    pub open spec fn fits(&self) -> bool {
        &&& self.sid.fits()
        &&& self.digest_alg.value@.len() <= MAX_LENGTH
        &&& opt_set_fits(opt_elems(self.signed_attrs))
        &&& self.signature_algorithm.value@.len() <= MAX_LENGTH
        &&& self.signature@.len() <= MAX_LENGTH
        &&& opt_set_fits(opt_elems(self.unsigned_attrs))
        &&& self.value_octets().len() <= MAX_LENGTH
    }

    /// The DER encoding: a `SEQUENCE` around [`SignerInfo::value_octets`].
    pub fn to_der(&self) -> (r: Result<Vec<u8>, Error>)
        requires
            self.wf(),
        ensures
            (self.fits() && tlv_octets(Tag::sequence(), self.value_octets()).len() <= MAX_LENGTH)
                <==> r is Ok,
            r is Ok ==> r->Ok_0@ == tlv_octets(Tag::sequence(), self.value_octets()),
    {
        let mut v: Vec<u8> = Vec::new();
        self.version.encode(&mut v);
        self.sid.encode(&mut v)?;
        self.digest_alg.encode(&mut v)?;
        let ghost o1 = v@;
        match &self.signed_attrs {
            Some(a) => a.encode_with_tag(tag_context(0, true), &mut v)?,
            None => {},
        }
        assert(v@ =~= o1 + opt_set_octets(Tag::context(0, true), opt_elems(self.signed_attrs)));
        self.signature_algorithm.encode(&mut v)?;
        encode_tlv(tag_octet_string(), self.signature.as_slice(), &mut v)?;
        let ghost o2 = v@;
        match &self.unsigned_attrs {
            Some(a) => a.encode_with_tag(tag_context(1, true), &mut v)?,
            None => {},
        }
        assert(v@ =~= o2 + opt_set_octets(Tag::context(1, true), opt_elems(self.unsigned_attrs)));
        assert(v@ =~= self.value_octets());
        let mut out: Vec<u8> = Vec::new();
        encode_tlv(tag_sequence(), v.as_slice(), &mut out)?;
        assert(out@ =~= tlv_octets(Tag::sequence(), self.value_octets()));
        if out.len() > MAX_LENGTH as usize {
            return Err(ErrorKind::Overflow.at(0));
        }
        Ok(out)
    }
}

/// A signed-data message.
#[derive(Clone, Debug, PartialEq, Eq)]
pub struct SignedData {
    pub version: CmsVersion,
    pub digest_algorithms: SetOfVec,
    pub encap_content_info: EncapsulatedContentInfo,
    pub certificates: Option<CertificateSet>,
    pub crls: Option<SetOfVec>,
    pub signer_infos: SignerInfos,
}

/// The octets of an optional implicitly tagged `SET OF`.
pub open spec fn opt_set_octets(tag: Tag, s: Option<Seq<Seq<u8>>>) -> Seq<u8> {
    match s {
        Some(e) => set_octets(tag, e),
        None => Seq::empty(),
    }
}

pub open spec fn opt_set_fits(s: Option<Seq<Seq<u8>>>) -> bool {
    match s {
        Some(e) => crate::set_of::concat(e).len() <= MAX_LENGTH,
        None => true,
    }
}

pub open spec fn opt_elems(s: Option<SetOfVec>) -> Option<Seq<Seq<u8>>> {
    match s {
        Some(v) => Some(v.elems()),
        None => None,
    }
}

pub open spec fn cert_elems(s: Option<CertificateSet>) -> Option<Seq<Seq<u8>>> {
    match s {
        Some(v) => Some(v.0.elems()),
        None => None,
    }
}

impl SignedData {
    pub open spec fn wf(&self) -> bool {
        &&& self.encap_content_info.wf()
        &&& self.digest_algorithms.wf()
        &&& self.certificates is Some ==> self.certificates->Some_0.0.wf()
        &&& self.crls is Some ==> self.crls->Some_0.wf()
        &&& self.signer_infos.0.wf()
    }

    /// The value octets of the `SEQUENCE`: version, digest algorithms,
    /// encapsulated content, optional `[0]` certificates, optional `[1]`
    /// revocation information, signer infos.
    pub open spec fn value_octets(&self) -> Seq<u8> {
        self.version.octets() + set_octets(Tag::set(), self.digest_algorithms.elems())
            + tlv_octets(Tag::sequence(), self.encap_content_info.value_octets())
            + opt_set_octets(Tag::context(0, true), cert_elems(self.certificates))
            + opt_set_octets(Tag::context(1, true), opt_elems(self.crls))
            + set_octets(Tag::set(), self.signer_infos.0.elems())
    }

    pub open spec fn fits(&self) -> bool {
        &&& crate::set_of::concat(self.digest_algorithms.elems()).len() <= MAX_LENGTH
        &&& self.encap_content_info.fits()
        &&& opt_set_fits(cert_elems(self.certificates))
        &&& opt_set_fits(opt_elems(self.crls))
        &&& crate::set_of::concat(self.signer_infos.0.elems()).len() <= MAX_LENGTH
    }

    /// Appends the value octets; `Overflow` when a part is too long.
    pub fn encode_value(&self, out: &mut Vec<u8>) -> (r: Result<(), Error>)
        requires
            self.wf(),
        ensures
            self.fits() <==> r is Ok,
            r is Ok ==> final(out)@ == old(out)@ + self.value_octets(),
            r is Err ==> r->Err_0.kind == ErrorKind::Overflow,
    {
        let ghost o = out@;
        self.version.encode(out);
        self.digest_algorithms.encode_with_tag(tag_set(), out)?;
        self.encap_content_info.encode(out)?;
        let ghost o1 = out@;
        match &self.certificates {
            Some(c) => c.0.encode_with_tag(tag_context(0, true), out)?,
            None => {},
        }
        proof {
            assert(out@ =~= o1 + opt_set_octets(Tag::context(0, true), cert_elems(self.certificates)));
        }
        let ghost o2 = out@;
        match &self.crls {
            Some(c) => c.encode_with_tag(tag_context(1, true), out)?,
            None => {},
        }
        proof {
            assert(out@ =~= o2 + opt_set_octets(Tag::context(1, true), opt_elems(self.crls)));
        }
        self.signer_infos.0.encode_with_tag(tag_set(), out)?;
        proof {
            assert(out@ =~= o + self.value_octets());
        }
        Ok(())
    }
}

impl SignedData {
    /// The DER encoding: a `SEQUENCE` around [`SignedData::value_octets`].
    pub fn to_der(&self) -> (r: Result<Vec<u8>, Error>)
        requires
            self.wf(),
        ensures
            (self.fits() && tlv_octets(Tag::sequence(), self.value_octets()).len() <= MAX_LENGTH)
                <==> r is Ok,
            r is Ok ==> r->Ok_0@ == tlv_octets(Tag::sequence(), self.value_octets()),
    {
        let mut v: Vec<u8> = Vec::new();
        self.encode_value(&mut v)?;
        assert(v@ =~= self.value_octets());
        let mut out: Vec<u8> = Vec::new();
        encode_tlv(tag_sequence(), v.as_slice(), &mut out)?;
        assert(out@ =~= tlv_octets(Tag::sequence(), self.value_octets()));
        if out.len() > MAX_LENGTH as usize {
            return Err(ErrorKind::Overflow.at(0));
        }
        Ok(out)
    }

    /// Number of value octets.
    pub fn value_len(&self) -> (r: Result<u32, Error>)
        requires
            self.wf(),
        ensures
            (self.fits() && self.value_octets().len() <= MAX_LENGTH) <==> r is Ok,
            r is Ok ==> r->Ok_0 == self.value_octets().len(),
    {
        let mut v: Vec<u8> = Vec::new();
        self.encode_value(&mut v)?;
        assert(v@ =~= self.value_octets());
        if v.len() > MAX_LENGTH as usize {
            return Err(ErrorKind::Overflow.at(0));
        }
        Ok(v.len() as u32)
    }
}

/// A content-info message: a content type and the content under an explicit
/// `[0]`.
#[derive(Clone, Debug, PartialEq, Eq)]
pub struct ContentInfo {
    pub content_type: ObjectIdentifier,
    pub content: Any,
}

/// The content type, the content's tag and octets, and where the window of the
/// content-info `SEQUENCE` at `pos` of the window `s` ends.
pub open spec fn content_info_at(s: Seq<u8>, pos: int, ber: bool) -> Option<(Seq<u8>, Tag, Seq<u8>, int)> {
    match tagged_at(s, pos, Tag::sequence(), ber) {
        Err(_) => None,
        Ok((e, w)) => {
            let sw = s.subrange(0, w);
            match oid_at(sw, e) {
                Err(_) => None,
                Ok((oid, p1)) => match tagged_at(sw, p1, Tag::context(0, true), ber) {
                    Err(_) => None,
                    Ok((e2, w2)) => {
                        let sw2 = s.subrange(0, w2);
                        match any_at(sw2, e2, ber) {
                            Err(_) => None,
                            Ok((t, v, p2)) => if drained(sw2, p2, ber) && drained(sw, w2, ber) {
                                Some((oid, t, v, w))
                            } else {
                                None
                            },
                        }
                    },
                },
            }
        },
    }
}

/// The value octets of the certs-only signed-data message whose certificate
/// set has the element encodings `certs`: version 1, no digest algorithms,
/// id-data without content, the certificates, an empty revocation set, and no
/// signer infos.
pub open spec fn certs_only_value(certs: Seq<Seq<u8>>) -> Seq<u8> {
    seq![0x02u8, 0x01, 0x01] + set_octets(Tag::set(), Seq::empty()) + tlv_octets(
        Tag::sequence(),
        tlv_octets(tag_oid_spec(), id_data_octets()),
    ) + set_octets(Tag::context(0, true), certs) + set_octets(Tag::context(1, true), Seq::empty())
        + set_octets(Tag::set(), Seq::empty())
}

/// Whether every encoding is exactly one DER value.
pub open spec fn all_der_values(v: Seq<Vec<u8>>) -> bool {
    forall|i: int| 0 <= i < v.len() ==> der_value((#[trigger] v[i])@)
}

/// Whether the certs-only content for the certificate set `e` decodes under
/// DER to the whole of itself, as version 1, no digest algorithms, id-data
/// without content, exactly the certificates of `e`, an empty revocation set,
/// and no signer infos.
pub open spec fn certs_only_decodes(e: Seq<Seq<u8>>) -> bool {
    let s = tlv_octets(Tag::sequence(), certs_only_value(e));
    match signed_data_at(s, 0, false) {
        Some((m, w)) => {
            let (ver, d, ct, ec, c, cr, si) = m;
            &&& w == s.len()
            &&& ver == 1
            &&& d.to_set() == Set::<Seq<u8>>::empty()
            &&& ct == id_data_octets()
            &&& ec is None
            &&& c is Some && c->Some_0.to_set() == e.to_set()
            &&& cr is Some && cr->Some_0.to_set() == Set::<Seq<u8>>::empty()
            &&& si.to_set() == Set::<Seq<u8>>::empty()
        },
        None => false,
    }
}

impl ContentInfo {
    pub open spec fn wf(&self) -> bool {
        self.content_type.wf() && self.content.tag.wf()
    }

    /// The value octets of the `SEQUENCE`.
    pub open spec fn value_octets(&self) -> Seq<u8> {
        tlv_octets(tag_oid_spec(), self.content_type.octets()) + explicit0_octets(
            Some(self.content),
        )
    }

    pub open spec fn fits(&self) -> bool {
        explicit0_fits(Some(self.content)) && self.value_octets().len() <= MAX_LENGTH
    }

    /// Appends the value octets; `Overflow` when the content is too long.
    pub fn encode_value(&self, out: &mut Vec<u8>) -> (r: Result<(), Error>)
        requires
            self.wf(),
        ensures
            explicit0_fits(Some(self.content)) <==> r is Ok,
            r is Ok ==> final(out)@ == old(out)@ + self.value_octets(),
    {
        let ghost o = out@;
        self.content_type.encode(out);
        let inner = self.content.to_der()?;
        encode_tlv(tag_context(0, true), inner.as_slice(), out)?;
        assert(out@ =~= o + self.value_octets());
        Ok(())
    }

    /// Number of value octets.
    pub fn value_len(&self) -> (r: Result<u32, Error>)
        requires
            self.wf(),
        ensures
            self.fits() <==> r is Ok,
            r is Ok ==> r->Ok_0 == self.value_octets().len(),
    {
        let mut v: Vec<u8> = Vec::new();
        self.encode_value(&mut v)?;
        assert(v@ =~= self.value_octets());
        if v.len() > MAX_LENGTH as usize {
            return Err(ErrorKind::Overflow.at(0));
        }
        Ok(v.len() as u32)
    }

    /// The DER encoding.
    pub fn to_der(&self) -> (r: Result<Vec<u8>, Error>)
        requires
            self.wf(),
        ensures
            (self.fits() && tlv_octets(Tag::sequence(), self.value_octets()).len() <= MAX_LENGTH)
                <==> r is Ok,
            r is Ok ==> r->Ok_0@ == tlv_octets(Tag::sequence(), self.value_octets()),
    {
        let mut v: Vec<u8> = Vec::new();
        self.encode_value(&mut v)?;
        assert(v@ =~= self.value_octets());
        let mut out: Vec<u8> = Vec::new();
        encode_tlv(tag_sequence(), v.as_slice(), &mut out)?;
        assert(out@ =~= tlv_octets(Tag::sequence(), self.value_octets()));
        if out.len() > MAX_LENGTH as usize {
            return Err(ErrorKind::Overflow.at(0));
        }
        Ok(out)
    }

    /// Decodes the content-info message at the cursor, as [`content_info_at`]
    /// describes; its window must be drained.
    #[verifier::spinoff_prover]
    #[verifier::rlimit(100)]
    pub fn decode(r: &mut Reader) -> (res: Result<ContentInfo, Error>)
        requires
            old(r).wf(),
        ensures
            final(r).wf(),
            final(r).data() == old(r).data(),
            res is Ok ==> final(r).same_input(old(r)),
            match content_info_at(old(r).window(), old(r).pos(), old(r).ber()) {
                Some((oid, t, v, w)) => res is Ok && res->Ok_0.content_type.octets() == oid
                    && res->Ok_0.content.tag == t && res->Ok_0.content.value@ == v
                    && final(r).pos() == w && res->Ok_0.wf(),
                None => res is Err,
            },
            ({
                let s = old(r).window();
                match tagged_at(s, old(r).pos(), Tag::sequence(), old(r).ber()) {
                    Ok((e, w)) => match oid_at(s.subrange(0, w), e) {
                        Ok((oid, p1)) => match header_at(s.subrange(0, w), p1) {
                            Ok((h, _)) => h.tag != Tag::context(0, true) ==> res is Err
                                && res->Err_0.kind == (ErrorKind::UnexpectedTag {
                                expected: Tag::context(0, true),
                                actual: h.tag,
                            }),
                            Err(_) => true,
                        },
                        Err(_) => true,
                    },
                    Err(_) => true,
                }
            }),
    {
        let ghost s = old(r).window();
        let ghost ber = old(r).ber();
        let outer = r.sequence()?;
        let ghost w = r.end();
        proof {
            assert(r.window() =~= s.subrange(0, w));
        }
        let content_type = ObjectIdentifier::decode(r)?;
        let inner = r.enter_tagged(tag_context(0, true))?;
        let ghost w2 = r.end();
        proof {
            assert(r.window() =~= s.subrange(0, w2));
        }
        let content = Any::decode(r)?;
        r.leave_nested(inner)?;
        proof {
            assert(r.window() =~= s.subrange(0, w));
        }
        r.leave_nested(outer)?;
        Ok(ContentInfo { content_type, content })
    }

    /// Decodes `bytes` under DER.
    pub fn from_der(bytes: Vec<u8>) -> (r: Result<ContentInfo, Error>)
        ensures
            bytes@.len() <= MAX_LENGTH ==> (r is Ok <==> match content_info_at(bytes@, 0, false) {
                Some((oid, t, v, w)) => w == bytes@.len(),
                None => false,
            }),
            r is Ok ==> match content_info_at(bytes@, 0, false) {
                Some((oid, t, v, w)) => r->Ok_0.content_type.octets() == oid && r->Ok_0.content.tag
                    == t && r->Ok_0.content.value@ == v,
                None => false,
            },
            r is Ok ==> r->Ok_0.wf(),
    {
        let mut rd = Reader::new(bytes, false)?;
        assert(rd.window() =~= bytes@);
        let ci = ContentInfo::decode(&mut rd)?;
        rd.finish(ci)
    }

    /// Decodes `bytes` under BER: indefinite lengths are accepted, and one
    /// trailing end-of-content marker is consumed.
    pub fn from_ber(bytes: Vec<u8>) -> (r: Result<ContentInfo, Error>)
        ensures
            bytes@.len() <= MAX_LENGTH ==> (r is Ok <==> match content_info_at(bytes@, 0, true) {
                Some((oid, t, v, w)) => drained(bytes@, w, true),
                None => false,
            }),
            r is Ok ==> match content_info_at(bytes@, 0, true) {
                Some((oid, t, v, w)) => r->Ok_0.content_type.octets() == oid && r->Ok_0.content.tag
                    == t && r->Ok_0.content.value@ == v,
                None => false,
            },
            r is Ok ==> r->Ok_0.wf(),
    {
        let mut rd = Reader::new(bytes, true)?;
        assert(rd.window() =~= bytes@);
        let ci = ContentInfo::decode(&mut rd)?;
        rd.finish(ci)
    }

    /// The certs-only message carrying the given certificate set: content type
    /// id-signedData, content the `SEQUENCE` of [`certs_only_value`].
    pub fn certs_only(certs: CertificateSet) -> (r: Result<ContentInfo, Error>)
        requires
            certs.0.wf(),
        ensures
            crate::set_of::concat(certs.0.elems()).len() <= MAX_LENGTH && certs_only_value(
                certs.0.elems(),
            ).len() <= MAX_LENGTH <==> r is Ok,
            r is Err ==> r->Err_0.kind == ErrorKind::Overflow,
            r is Ok ==> r->Ok_0.wf() && r->Ok_0.content_type.octets() == id_signed_data_octets()
                && r->Ok_0.content.tag == Tag::sequence() && r->Ok_0.content.value@
                == certs_only_value(certs.0.elems()),
            r is Ok ==> certs_only_decodes(certs.0.elems()),
    {
        let ghost e = certs.0.elems();
        let empty = SetOfVec::new();
        proof {
            assert(crate::set_of::concat(Seq::<Seq<u8>>::empty()) =~= Seq::<u8>::empty());
        }
        let sd = SignedData {
            version: CmsVersion::V1,
            digest_algorithms: SetOfVec::new(),
            encap_content_info: EncapsulatedContentInfo {
                econtent_type: ObjectIdentifier::id_data(),
                econtent: None,
            },
            certificates: Some(certs),
            crls: Some(empty),
            signer_infos: SignerInfos(SetOfVec::new()),
        };
        proof {
            assert(sd.value_octets() =~= certs_only_value(e));
        }
        let mut v: Vec<u8> = Vec::new();
        sd.encode_value(&mut v)?;
        if v.len() > MAX_LENGTH as usize {
            return Err(ErrorKind::Overflow.at(0));
        }
        assert(v@ =~= certs_only_value(e));
        proof {
            crate::round_trip::lemma_signed_data_round_trip(sd);
            assert(Set::<Seq<u8>>::empty() =~= Seq::<Seq<u8>>::empty().to_set());
        }
        Ok(ContentInfo {
            content_type: ObjectIdentifier::id_signed_data(),
            content: Any { tag: tag_sequence(), value: v },
        })
    }

    /// The certs-only message for the given certificate encodings, in whatever
    /// order they come. Each must be exactly one DER value; `DuplicateElement`
    /// when two are equal, `Overflow` when the message is too long.
    pub fn from_certificate_ders(certs: Vec<Vec<u8>>) -> (r: Result<ContentInfo, Error>)
        ensures
            !all_der_values(certs@) ==> r is Err,
            all_der_values(certs@) && (exists|i: int, j: int|
                0 <= i < j < certs@.len() && (#[trigger] certs@[i])@ == (#[trigger] certs@[j])@)
                ==> r is Err && r->Err_0.kind == ErrorKind::DuplicateElement,
            all_der_values(certs@) && r is Err ==> r->Err_0.kind == ErrorKind::DuplicateElement
                || r->Err_0.kind == ErrorKind::Overflow,
            r is Ok ==> r->Ok_0.wf() && r->Ok_0.content_type.octets() == id_signed_data_octets()
                && r->Ok_0.content.tag == Tag::sequence() && exists|e: Seq<Seq<u8>>|
                sorted(e) && e.to_set() == certs@.map_values(|x: Vec<u8>| x@).to_set() && e.len()
                == certs@.len() && r->Ok_0.content.value@ == certs_only_value(e)
                && certs_only_decodes(e),
            all_der_values(certs@) && !(exists|i: int, j: int|
                0 <= i < j < certs@.len() && (#[trigger] certs@[i])@ == (#[trigger] certs@[j])@)
                ==> (r is Ok || r->Err_0.kind == ErrorKind::Overflow),
            all_der_values(certs@) && r is Err && r->Err_0.kind == ErrorKind::Overflow ==> exists|
                e: Seq<Seq<u8>>,
            |
                sorted(e) && e.to_set() == certs@.map_values(|x: Vec<u8>| x@).to_set() && e.len()
                    == certs@.len() && !(crate::set_of::concat(e).len() <= MAX_LENGTH
                    && certs_only_value(e).len() <= MAX_LENGTH),
    {
        let set = CertificateSet::try_from(certs)?;
        ContentInfo::certs_only(set)
    }
}

/// The DER encoding of a content-info message with this content type and this
/// content.
pub open spec fn content_info_octets(oid: Seq<u8>, t: Tag, v: Seq<u8>) -> Seq<u8> {
    tlv_octets(
        Tag::sequence(),
        tlv_octets(tag_oid_spec(), oid) + tlv_octets(Tag::context(0, true), tlv_octets(t, v)),
    )
}

/// Whether each part of that encoding fits [`MAX_LENGTH`].
pub open spec fn content_info_fits(oid: Seq<u8>, t: Tag, v: Seq<u8>) -> bool {
    &&& tlv_octets(t, v).len() <= MAX_LENGTH
    &&& (tlv_octets(tag_oid_spec(), oid) + tlv_octets(Tag::context(0, true), tlv_octets(t, v))).len()
        <= MAX_LENGTH
}

/// The DER encoding of a content type const-oid accepts and a content reads
/// back, under DER or BER, as that content type and content.
#[verifier::spinoff_prover]
#[verifier::rlimit(100)]
pub proof fn lemma_content_info_octets(oid: Seq<u8>, t: Tag, v: Seq<u8>, ber: bool)
    requires
        oid_accepts(oid),
        t.wf(),
        content_info_fits(oid, t, v),
    ensures
        ({
            let s = content_info_octets(oid, t, v);
            content_info_at(s, 0, ber) == Some((oid, t, v, s.len() as int))
        }),
{
    let e: Seq<u8> = Seq::empty();
    let c0 = Tag::context(0, true);
    let tt = tlv_octets(t, v);
    let o = tlv_octets(tag_oid_spec(), oid);
    let val = o + tlv_octets(c0, tt);
    let s = tlv_octets(Tag::sequence(), val);
    let hdr = header_octets(Tag::sequence(), val.len());
    let hc = header_octets(c0, tt.len());
    assert(s =~= e + s + e);
    lemma_tagged_at_octets(e, Tag::sequence(), val, e, ber);
    assert(s.subrange(0, s.len() as int) =~= s);
    assert(s =~= hdr + o + tlv_octets(c0, tt));
    lemma_prim_at_octets(hdr, tag_oid_spec(), oid, tlv_octets(c0, tt));
    assert(s =~= (hdr + o) + tlv_octets(c0, tt) + e);
    lemma_tagged_at_octets(hdr + o, c0, tt, e, ber);
    assert(s =~= (hdr + o + hc) + tt + e);
    lemma_any_at_octets(hdr + o + hc, t, v, e, ber);
    let p1 = hdr.len() + o.len();
    let e2 = p1 + hc.len();
    assert(tagged_at(s, 0, Tag::sequence(), ber) == Ok::<(int, int), ErrorKind>(
        (hdr.len() as int, s.len() as int),
    ));
    assert(oid_at(s, hdr.len() as int) == Ok::<(Seq<u8>, int), ErrorKind>((oid, p1 as int)));
    assert(tagged_at(s, p1 as int, c0, ber) == Ok::<(int, int), ErrorKind>(
        (e2 as int, s.len() as int),
    ));
    assert(any_at(s, e2 as int, ber) == Ok::<(Tag, Seq<u8>, int), ErrorKind>(
        (t, v, s.len() as int),
    ));
}

/// Decoding the DER encoding of a well-formed content-info message, under DER
/// or BER, gives the message back.
pub proof fn lemma_content_info_round_trip(ci: ContentInfo, ber: bool)
    requires
        ci.wf(),
        ci.fits(),
    ensures
        ({
            let s = tlv_octets(Tag::sequence(), ci.value_octets());
            content_info_at(s, 0, ber) == Some(
                (ci.content_type.octets(), ci.content.tag, ci.content.value@, s.len() as int),
            )
        }),
{
    lemma_content_info_octets(ci.content_type.octets(), ci.content.tag, ci.content.value@, ber);
    assert(tlv_octets(Tag::sequence(), ci.value_octets()) == content_info_octets(
        ci.content_type.octets(),
        ci.content.tag,
        ci.content.value@,
    ));
}

/// A content-info message read under BER has a DER form, and that DER form
/// reads back under DER as the same content type and content.
pub proof fn lemma_content_info_ber_agrees(s: Seq<u8>)
    requires
        content_info_at(s, 0, true) is Some,
        ({
            let (oid, t, v, w) = content_info_at(s, 0, true)->Some_0;
            t.wf() && content_info_fits(oid, t, v)
        }),
    ensures
        ({
            let (oid, t, v, w) = content_info_at(s, 0, true)->Some_0;
            let d = content_info_octets(oid, t, v);
            content_info_at(d, 0, false) == Some((oid, t, v, d.len() as int))
        }),
{
    let (oid, t, v, w) = content_info_at(s, 0, true)->Some_0;
    lemma_content_info_octets(oid, t, v, false);
}

/// Whether the header at `pos` of `s` is written as DER writes it: a definite
/// length in its shortest form.
pub open spec fn der_header_at(s: Seq<u8>, pos: int) -> bool {
    match header_at(s, pos) {
        Ok((h, e)) => match h.length {
            crate::header::IndefiniteLength::Definite(n) => s.subrange(pos, e) == header_octets(
                h.tag,
                n as nat,
            ),
            crate::header::IndefiniteLength::Indefinite => false,
        },
        Err(_) => false,
    }
}

/// Whether `s` is exactly one content-info message written as DER writes it:
/// it reads under DER to its end, and each of its four headers is in DER form.
pub open spec fn content_info_wire_der(s: Seq<u8>) -> bool {
    match content_info_at(s, 0, false) {
        Some((oid, t, v, w)) => {
            let e1 = tagged_at(s, 0, Tag::sequence(), false)->Ok_0.0;
            let p1 = oid_at(s, e1)->Ok_0.1;
            let e2 = tagged_at(s, p1, Tag::context(0, true), false)->Ok_0.0;
            &&& w == s.len()
            &&& der_header_at(s, 0)
            &&& der_header_at(s, e1)
            &&& der_header_at(s, p1)
            &&& der_header_at(s, e2)
        },
        None => false,
    }
}

/// Encoding what a content-info message written as DER decodes to gives the
/// same octets back.
#[verifier::spinoff_prover]
#[verifier::rlimit(100)]
pub proof fn lemma_content_info_reencode(s: Seq<u8>)
    requires
        content_info_wire_der(s),
    ensures
        ({
            let (oid, t, v, w) = content_info_at(s, 0, false)->Some_0;
            content_info_octets(oid, t, v) == s
        }),
{
    let (oid, t, v, w) = content_info_at(s, 0, false)->Some_0;
    let (h0, e1) = header_at(s, 0)->Ok_0;
    assert(s.subrange(0, w) =~= s);
    let (ho, x1) = header_at(s, e1)->Ok_0;
    let p1 = oid_at(s, e1)->Ok_0.1;
    let (hc, e2) = header_at(s, p1)->Ok_0;
    let w2 = tagged_at(s, p1, Tag::context(0, true), false)->Ok_0.1;
    assert(w2 == s.len());
    assert(s.subrange(0, w2) =~= s);
    let (ht, x3) = header_at(s, e2)->Ok_0;
    let tt = tlv_octets(t, v);
    assert(s.subrange(e2, s.len() as int) =~= s.subrange(e2, x3) + s.subrange(x3, s.len() as int));
    assert(s.subrange(e2, s.len() as int) == tt);
    assert(s.subrange(p1, s.len() as int) =~= s.subrange(p1, e2) + s.subrange(e2, s.len() as int));
    assert(s.subrange(p1, s.len() as int) == tlv_octets(Tag::context(0, true), tt));
    assert(s.subrange(e1, p1) =~= s.subrange(e1, x1) + s.subrange(x1, p1));
    assert(s.subrange(e1, p1) == tlv_octets(tag_oid_spec(), oid));
    assert(s.subrange(e1, s.len() as int) =~= s.subrange(e1, p1) + s.subrange(p1, s.len() as int));
    assert(s =~= s.subrange(0, e1) + s.subrange(e1, s.len() as int));
}

/// Two strictly ascending certificate sets with the same certificates give
/// the same certs-only message, whatever order the certificates came in.
pub proof fn lemma_certs_only_canonical(e1: Seq<Seq<u8>>, e2: Seq<Seq<u8>>)
    requires
        sorted(e1),
        sorted(e2),
        e1.to_set() == e2.to_set(),
    ensures
        certs_only_value(e1) == certs_only_value(e2),
{
    crate::set_of::lemma_sorted_unique(e1, e2);
}

/// Whether the element at `pos` of the window `s` starts with the identifier
/// octet of `tag`.
pub open spec fn next_is(s: Seq<u8>, pos: int, tag: Tag) -> bool {
    0 <= pos < s.len() && s[pos] == tag.octet()
}

/// The tag and octets of an optional value.
pub open spec fn any_opt_view(a: Option<Any>) -> Option<(Tag, Seq<u8>)> {
    match a {
        Some(v) => Some((v.tag, v.value@)),
        None => None,
    }
}

/// The encapsulated-content `SEQUENCE` at `pos` of the window `s`: content
/// type, optional explicit `[0]` content, and where its window ends.
#[verifier::opaque]
pub open spec fn eci_at(s: Seq<u8>, pos: int, ber: bool) -> Option<(Seq<u8>, Option<(Tag, Seq<u8>)>, int)> {
    match tagged_at(s, pos, Tag::sequence(), ber) {
        Err(_) => None,
        Ok((e, w)) => {
            let sw = s.subrange(0, w);
            match oid_at(sw, e) {
                Err(_) => None,
                Ok((oid, p1)) => {
                    if next_is(sw, p1, Tag::context(0, true)) {
                        match tagged_at(sw, p1, Tag::context(0, true), ber) {
                            Err(_) => None,
                            Ok((e2, w2)) => {
                                let sw2 = s.subrange(0, w2);
                                match any_at(sw2, e2, ber) {
                                    Err(_) => None,
                                    Ok((t, v, p2)) => if drained(sw2, p2, ber) && drained(
                                        sw,
                                        w2,
                                        ber,
                                    ) {
                                        Some((oid, Some((t, v)), w))
                                    } else {
                                        None
                                    },
                                }
                            },
                        }
                    } else if drained(sw, p1, ber) {
                        Some((oid, None, w))
                    } else {
                        None
                    }
                },
            }
        },
    }
}

/// An optional `SET OF` with tag `tag` at `pos` of the window `s`: absent when
/// the next element has another tag.
#[verifier::opaque]
pub open spec fn opt_set_at(s: Seq<u8>, pos: int, tag: Tag, ber: bool) -> Option<(Option<Seq<Seq<u8>>>, int)> {
    if next_is(s, pos, tag) {
        match set_of_at(s, pos, tag, ber) {
            None => None,
            Some((l, q)) => Some((Some(l), q)),
        }
    } else {
        Some((None, pos))
    }
}

pub open spec fn opt_distinct(l: Option<Seq<Seq<u8>>>) -> bool {
    match l {
        Some(v) => distinct(v),
        None => true,
    }
}

/// Whether a decoded optional set holds what the model lists.
pub open spec fn opt_same_set(model: Option<Seq<Seq<u8>>>, actual: Option<Seq<Seq<u8>>>) -> bool {
    match (model, actual) {
        (Some(m), Some(a)) => m.to_set() == a.to_set(),
        (None, None) => true,
        _ => false,
    }
}

/// Version, digest algorithms, content type, content, certificates,
/// revocation information and signer infos of a signed-data message, each set
/// as the element encodings in the order written.
pub type SignedDataModel = (
    u8,
    Seq<Seq<u8>>,
    Seq<u8>,
    Option<(Tag, Seq<u8>)>,
    Option<Seq<Seq<u8>>>,
    Option<Seq<Seq<u8>>>,
    Seq<Seq<u8>>,
);

/// The signed-data `SEQUENCE` at `pos` of the window `s`, and where its window
/// ends.
pub open spec fn signed_data_at(s: Seq<u8>, pos: int, ber: bool) -> Option<(SignedDataModel, int)> {
    match tagged_at(s, pos, Tag::sequence(), ber) {
        Err(_) => None,
        Ok((e, w)) => {
            let sw = s.subrange(0, w);
            match prim_at(sw, e, crate::any::tag_integer_spec()) {
                Err(_) => None,
                Ok((ver, p1)) => if !(ver.len() == 1 && ver[0] <= 5) {
                    None
                } else {
                    match set_of_at(sw, p1, Tag::set(), ber) {
                        None => None,
                        Some((d, p2)) => match eci_at(sw, p2, ber) {
                            None => None,
                            Some((ct, ec, p3)) => match opt_set_at(sw, p3, Tag::context(0, true), ber) {
                                None => None,
                                Some((c, p4)) => match opt_set_at(sw, p4, Tag::context(1, true), ber) {
                                    None => None,
                                    Some((cr, p5)) => match set_of_at(sw, p5, Tag::set(), ber) {
                                        None => None,
                                        Some((si, p6)) => if drained(sw, p6, ber) {
                                            Some(((ver[0], d, ct, ec, c, cr, si), w))
                                        } else {
                                            None
                                        },
                                    },
                                },
                            },
                        },
                    }
                },
            }
        },
    }
}

/// The DER octets of the signer identifier at `pos` of the window `s`, and
/// where it ends.
pub open spec fn sid_at(s: Seq<u8>, pos: int, ber: bool) -> Option<(Seq<u8>, int)> {
    if next_is(s, pos, Tag::sequence()) {
        match any_at(s, pos, ber) {
            Ok((t, v, q)) => if t == Tag::sequence() {
                Some((tlv_octets(t, v), q))
            } else {
                None
            },
            Err(_) => None,
        }
    } else if next_is(s, pos, Tag::context(0, false)) {
        match prim_at(s, pos, Tag::context(0, false)) {
            Ok((v, q)) => Some((tlv_octets(Tag::context(0, false), v), q)),
            Err(_) => None,
        }
    } else {
        None
    }
}

/// Version, signer identifier octets, digest algorithm, signed attributes,
/// signature algorithm, signature and unsigned attributes of a signer info.
pub type SignerInfoModel = (
    u8,
    Seq<u8>,
    (Tag, Seq<u8>),
    Option<Seq<Seq<u8>>>,
    (Tag, Seq<u8>),
    Seq<u8>,
    Option<Seq<Seq<u8>>>,
);

/// The signer-info `SEQUENCE` at `pos` of the window `s`, and where its window
/// ends.
pub open spec fn signer_info_at(s: Seq<u8>, pos: int, ber: bool) -> Option<(SignerInfoModel, int)> {
    match tagged_at(s, pos, Tag::sequence(), ber) {
        Err(_) => None,
        Ok((e, w)) => {
            let sw = s.subrange(0, w);
            match prim_at(sw, e, crate::any::tag_integer_spec()) {
                Err(_) => None,
                Ok((ver, p1)) => if !(ver.len() == 1 && ver[0] <= 5) {
                    None
                } else {
                    match sid_at(sw, p1, ber) {
                        None => None,
                        Some((sid, p2)) => match any_at(sw, p2, ber) {
                            Err(_) => None,
                            Ok((dt, dv, p3)) => match opt_set_at(sw, p3, Tag::context(0, true), ber) {
                                None => None,
                                Some((sa, p4)) => match any_at(sw, p4, ber) {
                                    Err(_) => None,
                                    Ok((st, sv, p5)) => match prim_at(sw, p5, tag_octet_string_spec()) {
                                        Err(_) => None,
                                        Ok((sig, p6)) => match opt_set_at(
                                            sw,
                                            p6,
                                            Tag::context(1, true),
                                            ber,
                                        ) {
                                            None => None,
                                            Some((ua, p7)) => if drained(sw, p7, ber) {
                                                Some(
                                                    (
                                                        (ver[0], sid, (dt, dv), sa, (st, sv), sig, ua),
                                                        w,
                                                    ),
                                                )
                                            } else {
                                                None
                                            },
                                        },
                                    },
                                },
                            },
                        },
                    }
                },
            }
        },
    }
}

/// Whether a signer info holds what the model lists.
pub open spec fn matches_signer_model(si: SignerInfo, m: SignerInfoModel) -> bool {
    let (ver, sid, (dt, dv), sa, (st, sv), sig, ua) = m;
    &&& si.version.value() == ver
    &&& si.sid.octets() == sid
    &&& si.digest_alg.tag == dt && si.digest_alg.value@ == dv
    &&& opt_same_set(sa, opt_elems(si.signed_attrs))
    &&& si.signature_algorithm.tag == st && si.signature_algorithm.value@ == sv
    &&& si.signature@ == sig
    &&& opt_same_set(ua, opt_elems(si.unsigned_attrs))
}

impl SignerInfo {
    /// Decodes the signer info at the cursor, as [`signer_info_at`] describes;
    /// an attribute set with two equal elements is refused.
    #[verifier::spinoff_prover]
    #[verifier::rlimit(100)]
    pub fn decode(r: &mut Reader) -> (res: Result<SignerInfo, Error>)
        requires
            old(r).wf(),
        ensures
            final(r).wf(),
            final(r).data() == old(r).data(),
            res is Ok ==> final(r).same_input(old(r)),
            match signer_info_at(old(r).window(), old(r).pos(), old(r).ber()) {
                Some((m, w)) => {
                    let (ver, sid, d, sa, sg, sig, ua) = m;
                    &&& res is Ok <==> (opt_distinct(sa) && opt_distinct(ua))
                    &&& res is Ok ==> matches_signer_model(res->Ok_0, m) && final(r).pos() == w
                        && res->Ok_0.wf()
                },
                None => res is Err,
            },
    {
        let ghost s = old(r).window();
        let outer = r.sequence()?;
        let ghost w = r.end();
        proof {
            assert(r.window() =~= s.subrange(0, w));
        }
        let version = CmsVersion::decode(r)?;
        let sid = SignerIdentifier::decode(r)?;
        let seq = tag_sequence();
        if let SignerIdentifier::IssuerAndSerialNumber(a) = &sid {
            if a.tag != seq {
                return Err(r.error(ErrorKind::UnexpectedTag { expected: seq, actual: a.tag }));
            }
        }
        let digest_alg = Any::decode(r)?;
        let signed_attrs = decode_opt_set(r, tag_context(0, true))?;
        let signature_algorithm = Any::decode(r)?;
        let signature = decode_primitive(r, tag_octet_string())?;
        let unsigned_attrs = decode_opt_set(r, tag_context(1, true))?;
        r.leave_nested(outer)?;
        Ok(SignerInfo {
            version,
            sid,
            digest_alg,
            signed_attrs,
            signature_algorithm,
            signature,
            unsigned_attrs,
        })
    }
}

/// Whether no set of the model lists an element twice.
pub open spec fn model_distinct(m: SignedDataModel) -> bool {
    let (ver, d, ct, ec, c, cr, si) = m;
    distinct(d) && opt_distinct(c) && opt_distinct(cr) && distinct(si)
}

/// Whether a signed-data message holds what the model lists, each set with the
/// same elements.
pub open spec fn matches_model(sd: SignedData, m: SignedDataModel) -> bool {
    let (ver, d, ct, ec, c, cr, si) = m;
    &&& sd.version.value() == ver
    &&& sd.digest_algorithms.elems().to_set() == d.to_set()
    &&& sd.encap_content_info.econtent_type.octets() == ct
    &&& any_opt_view(sd.encap_content_info.econtent) == ec
    &&& opt_same_set(c, cert_elems(sd.certificates))
    &&& opt_same_set(cr, opt_elems(sd.crls))
    &&& sd.signer_infos.0.elems().to_set() == si.to_set()
}

impl EncapsulatedContentInfo {
    /// Decodes the encapsulated content at the cursor, as [`eci_at`] describes.
    #[verifier::spinoff_prover]
    #[verifier::rlimit(100)]
    pub fn decode(r: &mut Reader) -> (res: Result<EncapsulatedContentInfo, Error>)
        requires
            old(r).wf(),
        ensures
            final(r).wf(),
            final(r).data() == old(r).data(),
            res is Ok ==> final(r).same_input(old(r)),
            match eci_at(old(r).window(), old(r).pos(), old(r).ber()) {
                Some((ct, ec, w)) => res is Ok && res->Ok_0.econtent_type.octets() == ct
                    && any_opt_view(res->Ok_0.econtent) == ec && final(r).pos() == w
                    && res->Ok_0.wf(),
                None => res is Err,
            },
    {
        reveal(eci_at);
        let ghost s = old(r).window();
        let outer = r.sequence()?;
        let ghost w = r.end();
        proof {
            assert(r.window() =~= s.subrange(0, w));
        }
        let econtent_type = ObjectIdentifier::decode(r)?;
        let ctx0 = tag_context(0, true);
        let econtent = if r.peek_byte() == Some(ctx0.to_octet()) {
            let inner = r.enter_tagged(ctx0)?;
            let ghost w2 = r.end();
            proof {
                assert(r.window() =~= s.subrange(0, w2));
            }
            let content = Any::decode(r)?;
            r.leave_nested(inner)?;
            proof {
                assert(r.window() =~= s.subrange(0, w));
            }
            Some(content)
        } else {
            None
        };
        r.leave_nested(outer)?;
        Ok(EncapsulatedContentInfo { econtent_type, econtent })
    }
}

/// Reads an optional `SET OF` with tag `tag`, as [`opt_set_at`] describes.
fn decode_opt_set(r: &mut Reader, tag: Tag) -> (res: Result<Option<SetOfVec>, Error>)
    requires
        old(r).wf(),
        tag.wf(),
    ensures
        final(r).wf(),
        final(r).data() == old(r).data(),
        res is Ok ==> final(r).same_input(old(r)),
        match opt_set_at(old(r).window(), old(r).pos(), tag, old(r).ber()) {
            Some((l, q)) => (res is Ok <==> opt_distinct(l)) && (res is Ok ==> opt_same_set(
                l,
                opt_elems(res->Ok_0),
            ) && final(r).pos() == q && (res->Ok_0 is Some ==> res->Ok_0->Some_0.wf())),
            None => res is Err,
        },
{
    reveal(opt_set_at);
    if r.peek_byte() == Some(tag.to_octet()) {
        let set = SetOfVec::decode_tagged(r, tag)?;
        Ok(Some(set))
    } else {
        Ok(None)
    }
}

impl SignedData {
    /// Decodes the signed-data message at the cursor, as [`signed_data_at`]
    /// describes; each set is refused with `DuplicateElement` when two of its
    /// elements are equal.
    #[verifier::spinoff_prover]
    #[verifier::rlimit(100)]
    pub fn decode(r: &mut Reader) -> (res: Result<SignedData, Error>)
        requires
            old(r).wf(),
        ensures
            final(r).wf(),
            final(r).data() == old(r).data(),
            res is Ok ==> final(r).same_input(old(r)),
            match signed_data_at(old(r).window(), old(r).pos(), old(r).ber()) {
                Some((m, w)) => {
                    &&& res is Ok <==> model_distinct(m)
                    &&& res is Ok ==> matches_model(res->Ok_0, m) && final(r).pos() == w
                        && res->Ok_0.wf()
                },
                None => res is Err,
            },
    {
        let ghost s = old(r).window();
        let outer = r.sequence()?;
        let ghost w = r.end();
        proof {
            assert(r.window() =~= s.subrange(0, w));
        }
        let version = CmsVersion::decode(r)?;
        let digest_algorithms = SetOfVec::decode_tagged(r, tag_set())?;
        let encap_content_info = EncapsulatedContentInfo::decode(r)?;
        let certs = decode_opt_set(r, tag_context(0, true))?;
        let certificates = match certs {
            Some(set) => Some(CertificateSet(set)),
            None => None,
        };
        let crls = decode_opt_set(r, tag_context(1, true))?;
        let signer_infos = SignerInfos(SetOfVec::decode_tagged(r, tag_set())?);
        r.leave_nested(outer)?;
        Ok(SignedData {
            version,
            digest_algorithms,
            encap_content_info,
            certificates,
            crls,
            signer_infos,
        })
    }

    /// Decodes `bytes` under BER (indefinite lengths accepted) when `ber`, else
    /// under DER; the message must take all of `bytes`, save one trailing
    /// end-of-content marker under BER.
    pub fn from_bytes(bytes: Vec<u8>, ber: bool) -> (r: Result<SignedData, Error>)
        ensures
            bytes@.len() <= MAX_LENGTH ==> match signed_data_at(bytes@, 0, ber) {
                Some((m, w)) => (r is Ok <==> (model_distinct(m) && drained(bytes@, w, ber))),
                None => r is Err,
            },
            r is Ok ==> match signed_data_at(bytes@, 0, ber) {
                Some((m, w)) => matches_model(r->Ok_0, m),
                None => false,
            },
            r is Ok ==> r->Ok_0.wf(),
    {
        let mut rd = Reader::new(bytes, ber)?;
        assert(rd.window() =~= bytes@);
        let sd = SignedData::decode(&mut rd)?;
        rd.finish(sd)
    }
}

} // verus!
