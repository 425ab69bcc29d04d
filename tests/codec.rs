use asn1_ber::any::Any;
use asn1_ber::cms::{
    CertificateSet, CmsVersion, ContentInfo, ObjectIdentifier, SignedData, SignerIdentifier, SignerInfo,
};
use asn1_ber::error::ErrorKind;
use asn1_ber::header::{decode_length, encode_length, Class, Header, IndefiniteLength, Tag, MAX_LENGTH};
use asn1_ber::reader::Reader;
use asn1_ber::set_of::{der_cmp, SetOfVec};
use core::cmp::Ordering;

fn sequence_tag() -> Tag {
    Tag { class: Class::Universal, constructed: true, number: 16 }
}

fn integer_tag() -> Tag {
    Tag { class: Class::Universal, constructed: false, number: 2 }
}

#[test]
fn sequence_of_two_integers_round_trips() {
    let der = vec![0x30, 0x06, 0x02, 0x01, 0x42, 0x02, 0x01, 0x43];
    let any = Any::from_der(der.clone()).unwrap();
    assert_eq!(any.tag(), sequence_tag());
    assert_eq!(any.value(), &vec![0x02, 0x01, 0x42, 0x02, 0x01, 0x43]);
    assert_eq!(any.to_der().unwrap(), der);
}

#[test]
fn indefinite_sequence_reemits_as_der() {
    let ber = vec![0x30, 0x80, 0x02, 0x01, 0x42, 0x02, 0x01, 0x43, 0x00, 0x00];
    let any = Any::from_ber(ber).unwrap();
    assert_eq!(any.to_der().unwrap(), vec![0x30, 0x06, 0x02, 0x01, 0x42, 0x02, 0x01, 0x43]);
}

#[test]
fn der_refuses_indefinite_length() {
    let ber = vec![0x30, 0x80, 0x02, 0x01, 0x42, 0x00, 0x00];
    let err = Any::from_der(ber).unwrap_err();
    assert_eq!(err.kind, ErrorKind::Length { tag: sequence_tag() });
}

#[test]
fn any_round_trip_long_form() {
    let value = vec![7u8; 300];
    let any = Any::new(Tag { class: Class::Universal, constructed: false, number: 4 }, value.clone()).unwrap();
    let der = any.to_der().unwrap();
    assert_eq!(&der[..4], &[0x04, 0x82, 0x01, 0x2c]);
    let back = Any::from_der(der).unwrap();
    assert_eq!(back, any);
}

#[test]
fn zero_in_long_form_reemits_short() {
    let bytes = [0x84, 0x00, 0x00, 0x00, 0x00];
    let (len, end) = decode_length(&bytes, 0).unwrap();
    assert_eq!(len, IndefiniteLength::Definite(0));
    assert_eq!(end, 5);
    let mut out = Vec::new();
    encode_length(&mut out, 0);
    assert_eq!(out, vec![0x00]);
}

#[test]
fn length_encodings() {
    let mut out = Vec::new();
    encode_length(&mut out, 127);
    encode_length(&mut out, 128);
    encode_length(&mut out, 0x1234);
    assert_eq!(out, vec![0x7f, 0x81, 0x80, 0x82, 0x12, 0x34]);
}

#[test]
fn length_two_to_the_32_overflows() {
    let err = Header::new(integer_tag(), 1u64 << 32).unwrap_err();
    assert_eq!(err, ErrorKind::Overflow);
    let err = Header::new(integer_tag(), MAX_LENGTH as u64 + 1).unwrap_err();
    assert_eq!(err, ErrorKind::Overflow);
    let h = Header::new(integer_tag(), 5).unwrap();
    assert_eq!(h.length, IndefiniteLength::Definite(5));
}

#[test]
fn long_form_above_limit_overflows() {
    let bytes = [0x84, 0xff, 0xff, 0xff, 0xff];
    assert_eq!(decode_length(&bytes, 0).unwrap_err(), ErrorKind::Overflow);
}

#[test]
fn forbidden_length_octet_is_a_length_error() {
    let bytes = vec![0x02, 0x85, 0x00];
    let err = Any::from_der(bytes).unwrap_err();
    assert_eq!(err.kind, ErrorKind::Length { tag: integer_tag() });
}

#[test]
fn truncated_input_is_incomplete() {
    let err = Any::from_der(vec![0x02, 0x03, 0x01]).unwrap_err();
    assert_eq!(err.kind, ErrorKind::Incomplete);
}

#[test]
fn trailing_data_is_reported() {
    let err = Any::from_der(vec![0x02, 0x01, 0x01, 0x05]).unwrap_err();
    assert_eq!(err.kind, ErrorKind::TrailingData { decoded: 3, remaining: 1 });
}

#[test]
fn indefinite_under_primitive_tag_is_unexpected() {
    let err = Any::from_ber(vec![0x02, 0x80, 0x02, 0x01, 0x01, 0x00, 0x00]).unwrap_err();
    assert_eq!(
        err.kind,
        ErrorKind::UnexpectedTag {
            expected: Tag { class: Class::Universal, constructed: true, number: 2 },
            actual: integer_tag(),
        }
    );
}

#[test]
fn missing_end_of_content_is_reported() {
    // the nested indefinite value is never closed
    let mut r = Reader::new(vec![0x30, 0x80, 0x02, 0x01, 0x01], true).unwrap();
    let err = r.indefinite_value_length_parse_to_end(0).unwrap_err();
    assert_eq!(err.kind, ErrorKind::EndOfContent);
}

fn nested_indefinite(levels: usize) -> Vec<u8> {
    let mut v = Vec::new();
    for _ in 0..levels {
        v.push(0x30);
        v.push(0x80);
    }
    for _ in 0..levels {
        v.push(0x00);
        v.push(0x00);
    }
    v
}

#[test]
fn nesting_beyond_the_limit_fails() {
    // the outermost header is read first; 1025 levels lie below it
    let mut r = Reader::new(nested_indefinite(1026), true).unwrap();
    r.read_header().unwrap();
    let err = r.indefinite_value_length().unwrap_err();
    assert_eq!(err.kind, ErrorKind::RecursionLimitExceeded);

    let mut r = Reader::new(nested_indefinite(1025), true).unwrap();
    r.read_header().unwrap();
    let len = r.indefinite_value_length().unwrap();
    assert_eq!(len as usize, 1025 * 4 - 4 + 2);
}

#[test]
fn scanner_length_and_rewind() {
    let bytes = vec![0x30, 0x80, 0x02, 0x01, 0x42, 0x30, 0x80, 0x05, 0x00, 0x00, 0x00, 0x00, 0x00];
    let mut r = Reader::new(bytes, true).unwrap();
    let h = r.read_header().unwrap();
    assert_eq!(h.length, IndefiniteLength::Indefinite);
    assert_eq!(r.position(), 2);
    let len = r.indefinite_value_length().unwrap();
    // value runs from offset 2 to the closing marker at 11, plus the marker
    assert_eq!(len, 11);
    assert_eq!(r.position(), 2);
}

#[test]
fn tlv_bytes_of_indefinite_value() {
    let bytes = vec![0x30, 0x80, 0x02, 0x01, 0x42, 0x00, 0x00, 0x05, 0x00];
    let mut r = Reader::new(bytes, true).unwrap();
    let tlv = r.tlv_bytes().unwrap();
    assert_eq!(tlv, vec![0x30, 0x80, 0x02, 0x01, 0x42]);
    assert_eq!(r.read_eoc().unwrap(), true);
    assert_eq!(r.tlv_bytes().unwrap(), vec![0x05, 0x00]);
    assert!(r.is_finished());
}

#[test]
fn set_of_order_does_not_depend_on_insertion() {
    let a = vec![0x02, 0x01, 0x05];
    let b = vec![0x02, 0x02, 0x01, 0x00];
    let c = vec![0x04, 0x00];
    let mut s1 = SetOfVec::new();
    s1.insert(c.clone()).unwrap();
    s1.insert(a.clone()).unwrap();
    s1.insert(b.clone()).unwrap();
    let s2 = SetOfVec::try_from_vec(vec![b.clone(), c.clone(), a.clone()]).unwrap();
    let set = Tag { class: Class::Universal, constructed: true, number: 17 };
    let mut o1 = Vec::new();
    let mut o2 = Vec::new();
    s1.encode_with_tag(set, &mut o1).unwrap();
    s2.encode_with_tag(set, &mut o2).unwrap();
    assert_eq!(o1, o2);
    assert_eq!(o1, vec![0x31, 0x09, 0x02, 0x01, 0x05, 0x02, 0x02, 0x01, 0x00, 0x04, 0x00]);
}

#[test]
fn set_of_rejects_duplicates() {
    let mut s = SetOfVec::new();
    s.insert(vec![0x05, 0x00]).unwrap();
    let err = s.insert(vec![0x05, 0x00]).unwrap_err();
    assert_eq!(err.kind, ErrorKind::DuplicateElement);
    assert_eq!(s.len(), 1);
    let err = SetOfVec::try_from_vec(vec![vec![0x05, 0x00], vec![0x01, 0x01, 0xff], vec![0x05, 0x00]])
        .unwrap_err();
    assert_eq!(err.kind, ErrorKind::DuplicateElement);
}

#[test]
fn der_cmp_orders_prefix_first() {
    assert_eq!(der_cmp(&[1, 2], &[1, 2, 0]), Ordering::Less);
    assert_eq!(der_cmp(&[2], &[1, 9]), Ordering::Greater);
    assert_eq!(der_cmp(&[3, 3], &[3, 3]), Ordering::Equal);
}

#[test]
fn cms_version_order_and_encoding() {
    assert_eq!(CmsVersion::V1.value_cmp(&CmsVersion::V3), Ordering::Less);
    let mut out = Vec::new();
    CmsVersion::V3.encode(&mut out);
    assert_eq!(out, vec![0x02, 0x01, 0x03]);
}

#[test]
fn certs_only_content_info_from_one_certificate() {
    let cert = vec![0x30, 0x03, 0x02, 0x01, 0x05];
    let ci = ContentInfo::from_certificate_ders(vec![cert]).unwrap();
    let der = ci.to_der().unwrap();
    let expected = vec![
        0x30, 0x2c, // ContentInfo
        0x06, 0x09, 0x2a, 0x86, 0x48, 0x86, 0xf7, 0x0d, 0x01, 0x07, 0x02, // id-signedData
        0xa0, 0x1f, // [0] EXPLICIT
        0x30, 0x1d, // SignedData
        0x02, 0x01, 0x01, // version v1
        0x31, 0x00, // digestAlgorithms
        0x30, 0x0b, 0x06, 0x09, 0x2a, 0x86, 0x48, 0x86, 0xf7, 0x0d, 0x01, 0x07, 0x01, // id-data
        0xa0, 0x05, 0x30, 0x03, 0x02, 0x01, 0x05, // certificates
        0xa1, 0x00, // crls
        0x31, 0x00, // signerInfos
    ];
    assert_eq!(der, expected);
    let back = ContentInfo::from_der(der).unwrap();
    assert_eq!(back, ci);
}

#[test]
fn certs_only_rejects_duplicate_certificates() {
    let cert = vec![0x30, 0x00];
    let err = ContentInfo::from_certificate_ders(vec![cert.clone(), cert]).unwrap_err();
    assert_eq!(err.kind, ErrorKind::DuplicateElement);
    assert!(CertificateSet::try_from(vec![vec![0x30, 0x00], vec![0x31, 0x00]]).is_ok());
}

#[test]
fn content_info_requires_explicit_context_zero() {
    let bytes = vec![
        0x30, 0x0f, 0x06, 0x09, 0x2a, 0x86, 0x48, 0x86, 0xf7, 0x0d, 0x01, 0x07, 0x01, 0xa1, 0x02,
        0x05, 0x00,
    ];
    let err = ContentInfo::from_der(bytes).unwrap_err();
    assert_eq!(
        err.kind,
        ErrorKind::UnexpectedTag {
            expected: Tag { class: Class::ContextSpecific, constructed: true, number: 0 },
            actual: Tag { class: Class::ContextSpecific, constructed: true, number: 1 },
        }
    );
}

#[test]
fn object_identifier_validation() {
    assert!(ObjectIdentifier::from_octets(vec![]).is_err());
    assert!(ObjectIdentifier::from_octets(vec![0x2a, 0x86]).is_err());
    let oid = ObjectIdentifier::id_data();
    assert_eq!(oid.as_bytes(), &vec![0x2a, 0x86, 0x48, 0x86, 0xf7, 0x0d, 0x01, 0x07, 0x01]);
}

#[test]
fn invalid_integer_value_is_a_value_error() {
    let mut r = Reader::new(vec![0x02, 0x02, 0x00, 0x01], false).unwrap();
    let err = asn1_ber::any::decode_i8(&mut r).unwrap_err();
    assert_eq!(err.kind, ErrorKind::Value { tag: integer_tag() });
}

#[test]
fn signed_data_decodes_from_certs_only_content() {
    let cert_a = vec![0x30, 0x03, 0x02, 0x01, 0x07];
    let cert_b = vec![0x30, 0x03, 0x02, 0x01, 0x05];
    let ci = ContentInfo::from_certificate_ders(vec![cert_a.clone(), cert_b.clone()]).unwrap();
    let sd_der = ci.content.to_der().unwrap();
    let sd = SignedData::from_bytes(sd_der.clone(), false).unwrap();
    assert_eq!(sd.version, CmsVersion::V1);
    assert_eq!(sd.digest_algorithms.len(), 0);
    assert_eq!(
        sd.encap_content_info.econtent_type.as_bytes(),
        &vec![0x2a, 0x86, 0x48, 0x86, 0xf7, 0x0d, 0x01, 0x07, 0x01]
    );
    assert!(sd.encap_content_info.econtent.is_none());
    let certs = sd.certificates.as_ref().unwrap();
    assert_eq!(certs.0.len(), 2);
    assert_eq!(certs.0.get(0), &cert_b);
    assert_eq!(certs.0.get(1), &cert_a);
    assert_eq!(sd.crls.as_ref().unwrap().len(), 0);
    assert_eq!(sd.signer_infos.0.len(), 0);
    assert_eq!(sd.to_der().unwrap(), sd_der);
}

#[test]
fn signed_data_with_repeated_certificates_is_refused() {
    let bytes = vec![
        0x30, 0x80, 0x02, 0x01, 0x01, 0x31, 0x00, 0x30, 0x0b, 0x06, 0x09, 0x2a, 0x86, 0x48, 0x86,
        0xf7, 0x0d, 0x01, 0x07, 0x01, 0xa0, 0x80, 0x30, 0x06, 0x30, 0x00, 0x30, 0x00, 0x30, 0x00,
        0x30, 0x06, 0x30, 0x00, 0x30, 0x00, 0x30, 0x00, 0x00, 0x00, 0x31, 0x00, 0x00, 0x00,
    ];
    let err = SignedData::from_bytes(bytes, true).unwrap_err();
    assert_eq!(err.kind, ErrorKind::DuplicateElement);
}

#[test]
fn signer_identifier_orders_by_encoding() {
    let by_issuer = SignerIdentifier::IssuerAndSerialNumber(
        Any::new(sequence_tag(), vec![0x02, 0x01, 0x01]).unwrap(),
    );
    let by_key = SignerIdentifier::SubjectKeyIdentifier(vec![0xaa, 0xbb]);
    assert_eq!(by_key.to_der().unwrap(), vec![0x80, 0x02, 0xaa, 0xbb]);
    assert_eq!(by_issuer.value_cmp(&by_key).unwrap(), Ordering::Less);
    assert_eq!(by_key.value_cmp(&by_issuer).unwrap(), Ordering::Greater);
    assert_eq!(by_key.value_cmp(&by_key).unwrap(), Ordering::Equal);
}

#[test]
fn signer_info_encoding() {
    let alg = Any::new(sequence_tag(), vec![0x06, 0x01, 0x2a]).unwrap();
    let si = SignerInfo {
        version: CmsVersion::V3,
        sid: SignerIdentifier::SubjectKeyIdentifier(vec![0x01]),
        digest_alg: alg.clone(),
        signed_attrs: None,
        signature_algorithm: alg,
        signature: vec![0x55],
        unsigned_attrs: Some(SetOfVec::new()),
    };
    assert_eq!(
        si.to_der().unwrap(),
        vec![
            0x30, 0x15, 0x02, 0x01, 0x03, 0x80, 0x01, 0x01, 0x30, 0x03, 0x06, 0x01, 0x2a, 0x30,
            0x03, 0x06, 0x01, 0x2a, 0x04, 0x01, 0x55, 0xa1, 0x00,
        ]
    );
}

#[test]
fn header_der_cmp() {
    let short = Header::new(integer_tag(), 5).unwrap();
    let long = Header::new(integer_tag(), 200).unwrap();
    let seq = Header::new(sequence_tag(), 0).unwrap();
    assert_eq!(short.der_cmp(&long).unwrap(), Ordering::Less);
    assert_eq!(seq.der_cmp(&short).unwrap(), Ordering::Greater);
    assert_eq!(short.der_cmp(&short).unwrap(), Ordering::Equal);
    let indefinite = Header { tag: sequence_tag(), length: IndefiniteLength::Indefinite };
    assert_eq!(indefinite.der_cmp(&short).unwrap_err(), ErrorKind::Length { tag: sequence_tag() });
}

#[test]
fn context_specific_fields() {
    let bytes = vec![0xa0, 0x03, 0x02, 0x01, 0x09, 0x81, 0x01, 0xff];
    let mut r = Reader::new(bytes, false).unwrap();
    assert!(r.context_specific(1, true).unwrap().is_none());
    let explicit = r.context_specific(0, true).unwrap().unwrap();
    assert_eq!(explicit.tag(), integer_tag());
    assert_eq!(explicit.value(), &vec![0x09]);
    let implicit = r.context_specific(1, false).unwrap().unwrap();
    assert_eq!(implicit.tag(), Tag { class: Class::ContextSpecific, constructed: false, number: 1 });
    assert_eq!(implicit.value(), &vec![0xff]);
    assert!(r.is_finished());
}

#[test]
fn reader_decode_consumes_end_of_content_under_ber() {
    let mut r = Reader::new(vec![0x02, 0x01, 0x07, 0x00, 0x00, 0x05, 0x00], true).unwrap();
    let a = r.decode().unwrap();
    assert_eq!(a.value(), &vec![0x07]);
    assert_eq!(r.position(), 5);
    let b = r.decode().unwrap();
    assert_eq!(b.tag(), Tag { class: Class::Universal, constructed: false, number: 5 });
    assert!(r.is_finished());
}

#[test]
fn indefinite_lengths_compare() {
    let ind = IndefiniteLength::Indefinite;
    let five = IndefiniteLength::Definite(5);
    let six = IndefiniteLength::Definite(6);
    assert_eq!(ind.compare(&IndefiniteLength::Indefinite), Ordering::Equal);
    assert_eq!(five.compare(&six), Ordering::Less);
    assert_eq!(ind.compare(&five), Ordering::Less);
    assert_eq!(six.compare(&five), Ordering::Greater);
}

#[test]
fn signer_info_decodes_its_encoding() {
    let der = vec![
        0x30, 0x15, 0x02, 0x01, 0x03, 0x80, 0x01, 0x01, 0x30, 0x03, 0x06, 0x01, 0x2a, 0x30, 0x03,
        0x06, 0x01, 0x2a, 0x04, 0x01, 0x55, 0xa1, 0x00,
    ];
    let mut r = Reader::new(der.clone(), false).unwrap();
    let si = SignerInfo::decode(&mut r).unwrap();
    assert!(r.is_finished());
    assert_eq!(si.version, CmsVersion::V3);
    assert_eq!(si.sid, SignerIdentifier::SubjectKeyIdentifier(vec![0x01]));
    assert!(si.signed_attrs.is_none());
    assert_eq!(si.signature, vec![0x55]);
    assert_eq!(si.unsigned_attrs.as_ref().unwrap().len(), 0);
    assert_eq!(si.to_der().unwrap(), der);
}

#[test]
fn signer_identifier_rejects_other_tags() {
    let mut r = Reader::new(vec![0x04, 0x01, 0x00], false).unwrap();
    let err = SignerIdentifier::decode(&mut r).unwrap_err();
    assert_eq!(
        err.kind,
        ErrorKind::UnexpectedTag {
            expected: sequence_tag(),
            actual: Tag { class: Class::Universal, constructed: false, number: 4 },
        }
    );
}

#[test]
fn multi_octet_tag_numbers_round_trip() {
    let t31 = Tag { class: Class::ContextSpecific, constructed: false, number: 31 };
    let any = Any::new(t31, vec![0x01]).unwrap();
    let der = any.to_der().unwrap();
    assert_eq!(der, vec![0x9f, 0x1f, 0x01, 0x01]);
    assert_eq!(Any::from_der(der).unwrap(), any);

    let t200 = Tag { class: Class::Application, constructed: true, number: 200 };
    let any = Any::new(t200, vec![]).unwrap();
    let der = any.to_der().unwrap();
    assert_eq!(der, vec![0x7f, 0x81, 0x48, 0x00]);
    assert_eq!(Any::from_der(der).unwrap(), any);
}

#[test]
fn non_minimal_tag_numbers_are_refused() {
    // number 5 written in the long form
    let err = Any::from_der(vec![0x1f, 0x05, 0x00]).unwrap_err();
    assert_eq!(
        err.kind,
        ErrorKind::Value { tag: Tag { class: Class::Universal, constructed: false, number: 31 } }
    );
    // a leading zero group
    let err = Any::from_der(vec![0x1f, 0x80, 0x41, 0x00]).unwrap_err();
    assert!(matches!(err.kind, ErrorKind::Value { .. }));
}

#[test]
fn set_of_refuses_elements_that_are_not_one_der_value() {
    let mut s = SetOfVec::new();
    // two values
    assert!(s.insert(vec![0x05, 0x00, 0x05, 0x00]).is_err());
    // a length not in its shortest form
    assert!(s.insert(vec![0x04, 0x81, 0x01, 0xaa]).is_err());
    // truncated
    assert!(s.insert(vec![0x04, 0x02, 0xaa]).is_err());
    assert_eq!(s.len(), 0);
    assert!(ContentInfo::from_certificate_ders(vec![vec![0x30]]).is_err());
}

#[test]
fn indefinite_length_under_primitive_integer_is_unexpected() {
    let mut r = Reader::new(vec![0x02, 0x80, 0x01, 0x00, 0x00], true).unwrap();
    let err = asn1_ber::any::decode_i8(&mut r).unwrap_err();
    assert_eq!(
        err.kind,
        ErrorKind::UnexpectedTag {
            expected: Tag { class: Class::Universal, constructed: true, number: 2 },
            actual: integer_tag(),
        }
    );
}

#[test]
fn finish_reports_trailing_data_after_end_of_content() {
    let mut r = Reader::new(vec![0x00, 0x00, 0x05, 0x00], true).unwrap();
    let err = r.finish(()).unwrap_err();
    assert_eq!(err.kind, ErrorKind::TrailingData { decoded: 2, remaining: 2 });
    assert_eq!(err.position, 2);
    let mut r = Reader::new(vec![0x00, 0x01], true).unwrap();
    assert_eq!(r.finish(()).unwrap_err().kind, ErrorKind::EndOfContent);
    assert_eq!(r.position(), 0);
}

#[test]
fn reader_decode_refuses_a_lone_zero_after_the_value_under_ber() {
    let mut r = Reader::new(vec![0x05, 0x00, 0x00, 0x01], true).unwrap();
    let err = r.decode().unwrap_err();
    assert_eq!(err.kind, ErrorKind::EndOfContent);
    assert_eq!(err.position, 2);
}

#[test]
fn context_specific_with_a_long_tag_number() {
    let t = Tag { class: Class::ContextSpecific, constructed: false, number: 40 };
    let der = Any::new(t, vec![0x07]).unwrap().to_der().unwrap();
    let mut r = Reader::new(der, false).unwrap();
    assert!(r.context_specific(41, false).unwrap().is_none());
    let a = r.context_specific(40, false).unwrap().unwrap();
    assert_eq!(a.value(), &vec![0x07]);
}

#[test]
fn lone_trailing_zero_is_incomplete() {
    let mut r = Reader::new(vec![0x00], true).unwrap();
    assert_eq!(r.read_eoc().unwrap_err().kind, ErrorKind::Incomplete);
    assert_eq!(r.position(), 0);
    assert_eq!(r.finish(()).unwrap_err().kind, ErrorKind::Incomplete);
    let mut r = Reader::new(vec![0x00, 0x00], true).unwrap();
    assert_eq!(r.read_eoc().unwrap(), true);
}

#[test]
fn utf8_strings_must_be_well_formed() {
    let mut r = Reader::new(vec![0x0c, 0x02, 0xc3, 0xa9], false).unwrap();
    assert_eq!(asn1_ber::strings::decode_utf8(&mut r).unwrap(), vec![0xc3, 0xa9]);
    let mut r = Reader::new(vec![0x0c, 0x02, 0xc3, 0x28], false).unwrap();
    let err = asn1_ber::strings::decode_utf8(&mut r).unwrap_err();
    assert_eq!(
        err.kind,
        ErrorKind::Value { tag: Tag { class: Class::Universal, constructed: false, number: 12 } }
    );
    // a surrogate written in UTF-8 form is not well formed
    let mut r = Reader::new(vec![0x0c, 0x03, 0xed, 0xa0, 0x80], false).unwrap();
    assert!(asn1_ber::strings::decode_utf8(&mut r).is_err());
}

#[test]
fn content_info_from_ber_reencodes_as_der() {
    let ber = vec![
        0x30, 0x80, 0x06, 0x09, 0x2a, 0x86, 0x48, 0x86, 0xf7, 0x0d, 0x01, 0x07, 0x01, 0xa0, 0x80,
        0x04, 0x02, 0xaa, 0xbb, 0x00, 0x00, 0x00, 0x00,
    ];
    let ci = ContentInfo::from_ber(ber).unwrap();
    let der = ci.to_der().unwrap();
    assert_eq!(
        der,
        vec![
            0x30, 0x11, 0x06, 0x09, 0x2a, 0x86, 0x48, 0x86, 0xf7, 0x0d, 0x01, 0x07, 0x01, 0xa0,
            0x04, 0x04, 0x02, 0xaa, 0xbb,
        ]
    );
    assert_eq!(ContentInfo::from_der(der.clone()).unwrap(), ci);
    assert_eq!(ContentInfo::from_der(der.clone()).unwrap().to_der().unwrap(), der);
}
