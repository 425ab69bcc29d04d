use asn1_ber::any::{decode_i8, Any};
use asn1_ber::cms::ContentInfo;
use asn1_ber::error::Error;
use asn1_ber::header::{Class, Tag};
use asn1_ber::reader::Reader;
use asn1_ber::strings::decode_utf8;

#[derive(Clone, Debug, Eq, PartialEq)]
struct Point {
    pub x: i8,
    pub y: i8,
    name: String,
}

fn decode_point(bytes: &[u8], ber: bool) -> Result<Point, Error> {
    let mut reader = Reader::new(bytes.to_vec(), ber)?;
    let outer = reader.sequence()?;
    let x = decode_i8(&mut reader)?;
    let y = decode_i8(&mut reader)?;
    let name = decode_utf8(&mut reader)?;
    reader.leave_nested(outer)?;
    reader.finish(())?;
    Ok(Point { x, y, name: String::from_utf8(name).unwrap() })
}

#[test]
fn test_parse_der() {
    let bytes_der = &[
        0x30, 0x0a, 0x02, 0x01, 0x42, 0x02, 0x01, 0x43, 0x0c, 0x02, 0x48, 0x69,
    ];
    let point = decode_point(bytes_der.as_slice(), false).unwrap();
    println!("x: {}, y: {}, name: {:?}", point.x, point.y, point.name);
    assert_eq!(point, Point { x: 0x42, y: 0x43, name: "Hi".to_string() });
}

#[test]
fn test_parse_ber() {
    let bytes_ber = &[
        0x30, 0x80, 0x02, 0x01, 0x42, 0x02, 0x01, 0x43, 0x0c, 0x02, 0x48, 0x69, 0x00, 0x00,
    ];
    let point = decode_point(bytes_ber.as_slice(), true).unwrap();
    println!("x: {}, y: {}, name: {:?}", point.x, point.y, point.name);
    assert_eq!(point, Point { x: 0x42, y: 0x43, name: "Hi".to_string() });
}

#[test]
fn test_parse_ber_string_indefinite() {
    let bytes_ber = &[
        0x30, 0x80, 0x02, 0x01, 0x42, 0x02, 0x01, 0x43, 0x0c, 0x80, 0x0c, 0x02, 0x48, 0x69, 0x00,
        0x00, 0x00, 0x00,
    ];
    let point = decode_point(bytes_ber.as_slice(), true).unwrap();
    println!("x: {}, y: {}, name: {:?}", point.x, point.y, point.name);
    assert_eq!(point, Point { x: 66, y: 67, name: "Hi".to_string() });
}

#[test]
fn test_parse_ber_string_indefinite_and_constructed() {
    let bytes_ber = &[
        0x30, 0x80, 0x02, 0x01, 0x2a, 0x02, 0x01, 0x32, 0x0c, 0x80, 0x0c, 0x07, 0x54, 0x69, 0x74,
        0x61, 0x6e, 0x69, 0x63, 0x0c, 0x01, 0x20, 0x0c, 0x06, 0x73, 0x6c, 0x65, 0x65, 0x70, 0x73,
        0x0c, 0x01, 0x20, 0x0c, 0x05, 0x68, 0x65, 0x72, 0x65, 0x21, 0x00, 0x00, 0x00, 0x00,
    ];
    let point = decode_point(bytes_ber.as_slice(), true).unwrap();
    println!("x: {}, y: {}, name: {:?}", point.x, point.y, point.name);
    assert_eq!(point, Point { x: 42, y: 50, name: "Titanic sleeps here!".to_string() });
}

#[test]
fn test_parse_ber_any_indefinite() {
    let context0 = Tag { class: Class::ContextSpecific, constructed: true, number: 0 };

    // Contained value has definite length
    let bytes_ber = &[
        //ANY       SEQUENCE    INTEGER           SET         EOC
        0xa0, 0x80, 0x30, 0x05, 0x02, 0x01, 0x01, 0x31, 0x00, 0x00, 0x00,
    ];
    let any = Any::from_ber(bytes_ber.to_vec()).unwrap();
    println!("ANY: Tag: {:?}, Value: {:02x?}", any.tag(), any.value());
    assert_eq!(any.tag(), context0);
    assert_eq!(any.value(), &vec![0x30, 0x05, 0x02, 0x01, 0x01, 0x31, 0x00]);

    // Contained value has indefinite length
    // This is a real world example from EJBCA
    let bytes_ber = &[
        //ANY       SEQUENCE    INTEGER           SET         EOC         EOC
        0xa0, 0x80, 0x30, 0x80, 0x02, 0x01, 0x01, 0x31, 0x00, 0x00, 0x00, 0x00, 0x00,
    ];
    let any = Any::from_ber(bytes_ber.to_vec()).unwrap();
    println!("ANY: Tag: {:?}, Value: {:02x?}", any.tag(), any.value());
    assert_eq!(any.tag(), context0);
    assert_eq!(any.value(), &vec![0x30, 0x05, 0x02, 0x01, 0x01, 0x31, 0x00]);

    let bytes_ber = &[
        0xa0, 0x80, // ANY (indefinite length)
        0x30, 0x80, // SEQUENCE (indefinite length)
        0x02, 0x01, 0x01, // INTEGER
        0x31, 0x00, // SET
        0xa0, 0x80, // ANY  (indefinite length)
        0x30, 0x0b, // SET (definite length)
        0x06, 0x09, 0x2a, 0x86, 0x48, 0x86, 0xf7, 0x0d, 0x01, 0x07, 0x01, // OBJECT IDENTIFIER
        0x00, 0x00, // EOC
        0x00, 0x00, // EOC
        0x00, 0x00, // EOC
    ];
    let any = Any::from_ber(bytes_ber.to_vec()).unwrap();
    println!("ANY: Tag: {:?}, Value: {:02x?}", any.tag(), any.value());
    assert_eq!(any.tag(), context0);
    assert_eq!(
        any.value(),
        &vec![
            0x30, 0x14, 0x02, 0x01, 0x01, 0x31, 0x00, 0xa0, 0x0d, 0x30, 0x0b, 0x06, 0x09, 0x2a,
            0x86, 0x48, 0x86, 0xf7, 0x0d, 0x01, 0x07, 0x01,
        ]
    );
}

#[test]
fn parsing_indefinite_ber_ejbca_cms() {
    // This represents the cms structure sent by EJBCA for SCEP requests.
    let bytes_ber = &[
        0x30, 0x80, // ContentInfo SEQUENCE (2 elem) (indefinite length)
        0x06, 0x09, 0x2a, 0x86, 0x48, 0x86, 0xf7, 0x0d, 0x01, 0x07, 0x02, // contentType
        0xa0, 0x80, // content [0] ANY (1 elem) (indefinite length)
        0x30, 0x80, // SignedData SEQUENCE (5 elem) (indefinite length)
        0x02, 0x01, 0x01, // version CMSVersion INTEGER 1
        0x31, 0x00, // digestAlgorithms SET (0 elem)
        0x30, 0x0b, // encapContentInfo SEQUENCE (1 elem)
        0x06, 0x09, 0x2a, 0x86, 0x48, 0x86, 0xf7, 0x0d, 0x01, 0x07, 0x01, // eContentType
        0xa0, 0x80, // CertificateSet ANY (2 elem) (indefinite length)
        0x30, 0x06, // CertificateChoices SEQUENCE (3 elem)
        0x30, 0x00, 0x30, 0x00, 0x30, 0x00,
        0x30, 0x06, // CertificateChoices SEQUENCE (3 elem)
        0x30, 0x00, 0x30, 0x00, 0x30, 0x00,
        0x00, 0x00,
        0x31, 0x00, // signerInfos SET (0 elem)
        0x00, 0x00,
        0x00, 0x00,
        0x00, 0x00,
    ];
    println!("bytes_ber.len(): {}", bytes_ber.len());
    let ci = ContentInfo::from_ber(bytes_ber.to_vec()).unwrap();
    println!("{:?}", ci.content_type);
    println!("{:02x?}", ci.content.value());
    assert_eq!(
        ci.content_type.as_bytes(),
        &vec![0x2a, 0x86, 0x48, 0x86, 0xf7, 0x0d, 0x01, 0x07, 0x02]
    );
    assert_eq!(ci.content.tag(), Tag { class: Class::Universal, constructed: true, number: 16 });
    assert_eq!(
        ci.content.value(),
        &vec![
            0x02, 0x01, 0x01, 0x31, 0x00, 0x30, 0x0b, 0x06, 0x09, 0x2a, 0x86, 0x48, 0x86, 0xf7,
            0x0d, 0x01, 0x07, 0x01, 0xa0, 0x10, 0x30, 0x06, 0x30, 0x00, 0x30, 0x00, 0x30, 0x00,
            0x30, 0x06, 0x30, 0x00, 0x30, 0x00, 0x30, 0x00, 0x31, 0x00,
        ]
    );
}
