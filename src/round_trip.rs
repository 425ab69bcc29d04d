use vstd::prelude::*;
use crate::any::{
    any_at, lemma_any_at_octets, lemma_prim_at_octets, lemma_tagged_at_octets, prim_at, tlv_octets,
};
use crate::cms::{
    any_opt_view, cert_elems, eci_at, explicit0_octets, matches_model, model_distinct, next_is,
    oid_at, opt_elems, opt_set_at, opt_set_octets, signed_data_at, tag_oid_spec,
    EncapsulatedContentInfo, SignedData,
};
use crate::error::ErrorKind;
use crate::header::{header_octets, Tag, MAX_LENGTH};
use crate::reader::tagged_at;
use crate::set_of::{
    concat, der_elements, distinct, lemma_lex_irreflexive, lemma_set_of_at_octets, set_of_at,
    set_octets, sorted,
};

verus! {

/// A strictly ascending sequence lists no element twice.
proof fn lemma_sorted_distinct(e: Seq<Seq<u8>>)
    requires
        sorted(e),
    ensures
        distinct(e),
{
    assert forall|i: int, j: int| 0 <= i < j < e.len() implies e[i] != e[j] by {
        lemma_lex_irreflexive(e[i]);
    }
}

/// An encapsulated content written as DER writes it reads back as itself.
#[verifier::spinoff_prover]
#[verifier::rlimit(100)]
proof fn lemma_eci_at_octets(p: Seq<u8>, eci: EncapsulatedContentInfo, rest: Seq<u8>)
    requires
        eci.wf(),
        eci.fits(),
    ensures
        eci_at(p + tlv_octets(Tag::sequence(), eci.value_octets()) + rest, p.len() as int, false)
            == Some(
            (
                eci.econtent_type.octets(),
                any_opt_view(eci.econtent),
                (p.len() + tlv_octets(Tag::sequence(), eci.value_octets()).len()) as int,
            ),
        ),
{
    reveal(eci_at);
    let v = eci.value_octets();
    let s = p + tlv_octets(Tag::sequence(), v) + rest;
    let hdr = header_octets(Tag::sequence(), v.len());
    let o = tlv_octets(tag_oid_spec(), eci.econtent_type.octets());
    let w = (p.len() + hdr.len() + v.len()) as int;
    let e1 = (p.len() + hdr.len()) as int;
    lemma_tagged_at_octets(p, Tag::sequence(), v, rest, false);
    assert(tagged_at(s, p.len() as int, Tag::sequence(), false) == Ok::<(int, int), ErrorKind>((e1, w)));
    let sw = s.subrange(0, w);
    assert(sw =~= (p + hdr) + o + explicit0_octets(eci.econtent));
    lemma_prim_at_octets(p + hdr, tag_oid_spec(), eci.econtent_type.octets(), explicit0_octets(eci.econtent));
    let p1 = (p.len() + hdr.len() + o.len()) as int;
    assert(oid_at(sw, e1) == Ok::<(Seq<u8>, int), ErrorKind>((eci.econtent_type.octets(), p1)));
    match eci.econtent {
        Some(a) => {
            let c0 = Tag::context(0, true);
            let t = tlv_octets(a.tag, a.value@);
            let hc = header_octets(c0, t.len());
            assert(sw =~= (p + hdr + o) + tlv_octets(c0, t) + Seq::<u8>::empty());
            lemma_tagged_at_octets(p + hdr + o, c0, t, Seq::<u8>::empty(), false);
            assert(tagged_at(sw, p1, c0, false) == Ok::<(int, int), ErrorKind>((p1 + hc.len(), w)));
            assert(sw[p1] == c0.octet());
            assert(next_is(sw, p1, c0));
            assert(s.subrange(0, w) == sw);
            assert(sw =~= (p + hdr + o + hc) + t + Seq::<u8>::empty());
            lemma_any_at_octets(p + hdr + o + hc, a.tag, a.value@, Seq::<u8>::empty(), false);
            assert(any_at(sw, p1 + hc.len(), false) == Ok::<(Tag, Seq<u8>, int), ErrorKind>(
                (a.tag, a.value@, w),
            ));
        },
        None => {
            assert(p1 == w);
            assert(!next_is(sw, p1, Tag::context(0, true)));
        },
    }
}

/// An optional `SET OF` written as DER writes it reads back as itself, when
/// what follows an absent one does not start with its tag.
proof fn lemma_opt_set_at_octets(p: Seq<u8>, tag: Tag, o: Option<Seq<Seq<u8>>>, rest: Seq<u8>)
    requires
        tag.wf(),
        o is Some ==> der_elements(o->Some_0) && concat(o->Some_0).len() <= MAX_LENGTH,
        o is None ==> rest.len() == 0 || rest[0] != tag.octet(),
    ensures
        opt_set_at(p + opt_set_octets(tag, o) + rest, p.len() as int, tag, false) == Some(
            (o, (p.len() + opt_set_octets(tag, o).len()) as int),
        ),
{
    reveal(opt_set_at);
    let s = p + opt_set_octets(tag, o) + rest;
    match o {
        Some(e) => {
            lemma_set_of_at_octets(p, tag, e, rest);
            assert(s[p.len() as int] == tag.octet());
        },
        None => {
            assert(s =~= p + rest);
        },
    }
}

/// The ways of splitting seven octet strings written one after the other.
proof fn lemma_regroup(
    a: Seq<u8>,
    b: Seq<u8>,
    c: Seq<u8>,
    d: Seq<u8>,
    e: Seq<u8>,
    f: Seq<u8>,
    g: Seq<u8>,
)
    ensures
        ({
            let s = a + (b + c + d + e + f + g);
            &&& s == Seq::<u8>::empty() + s + Seq::<u8>::empty()
            &&& s == a + b + (c + d + e + f + g)
            &&& s == (a + b) + c + (d + e + f + g)
            &&& s == (a + b + c) + d + (e + f + g)
            &&& s == (a + b + c + d) + e + (f + g)
            &&& s == (a + b + c + d + e) + f + g
            &&& s == (a + b + c + d + e + f) + g + Seq::<u8>::empty()
        }),
{
    let s = a + (b + c + d + e + f + g);
    assert(s =~= Seq::<u8>::empty() + s + Seq::<u8>::empty());
    assert(s =~= a + b + (c + d + e + f + g));
    assert(s =~= (a + b) + c + (d + e + f + g));
    assert(s =~= (a + b + c) + d + (e + f + g));
    assert(s =~= (a + b + c + d) + e + (f + g));
    assert(s =~= (a + b + c + d + e) + f + g);
    assert(s =~= (a + b + c + d + e + f) + g + Seq::<u8>::empty());
}

/// The parts of the DER encoding of a signed-data message, in order.
pub open spec fn signed_data_parts(sd: SignedData) -> Seq<Seq<u8>> {
    seq![
        header_octets(Tag::sequence(), sd.value_octets().len()),
        sd.version.octets(),
        set_octets(Tag::set(), sd.digest_algorithms.elems()),
        tlv_octets(Tag::sequence(), sd.encap_content_info.value_octets()),
        opt_set_octets(Tag::context(0, true), cert_elems(sd.certificates)),
        opt_set_octets(Tag::context(1, true), opt_elems(sd.crls)),
        set_octets(Tag::set(), sd.signer_infos.0.elems()),
    ]
}

/// Where the `i`-th part ends.
pub open spec fn part_end(sd: SignedData, i: int) -> int {
    let p = signed_data_parts(sd);
    if i <= 0 {
        p[0].len() as int
    } else if i == 1 {
        (p[0].len() + p[1].len()) as int
    } else if i == 2 {
        (p[0].len() + p[1].len() + p[2].len()) as int
    } else if i == 3 {
        (p[0].len() + p[1].len() + p[2].len() + p[3].len()) as int
    } else if i == 4 {
        (p[0].len() + p[1].len() + p[2].len() + p[3].len() + p[4].len()) as int
    } else {
        (p[0].len() + p[1].len() + p[2].len() + p[3].len() + p[4].len() + p[5].len()) as int
    }
}

/// A version is written as an `INTEGER` of one octet.
proof fn lemma_version_octets(v: crate::cms::CmsVersion)
    ensures
        v.octets() == tlv_octets(crate::any::tag_integer_spec(), seq![v.value()]),
{
    let t = crate::any::tag_integer_spec();
    assert(t.octet() == 2);
    assert(t.octets() =~= seq![2u8]);
    assert(crate::header::length_octets(1) =~= seq![1u8]);
    assert(v.octets() =~= tlv_octets(t, seq![v.value()]));
}

/// The signed-data `SEQUENCE` opens the window of the whole value.
#[verifier::spinoff_prover]
#[verifier::rlimit(100)]
proof fn lemma_signed_data_open(sd: SignedData)
    requires
        sd.wf(),
        sd.fits(),
        sd.value_octets().len() <= MAX_LENGTH,
        der_elements(sd.digest_algorithms.elems()),
        sd.certificates is Some ==> der_elements(sd.certificates->Some_0.0.elems()),
        sd.crls is Some ==> der_elements(sd.crls->Some_0.elems()),
        der_elements(sd.signer_infos.0.elems()),
    ensures
        ({
            let s = tlv_octets(Tag::sequence(), sd.value_octets());
            &&& tagged_at(s, 0, Tag::sequence(), false) == Ok::<(int, int), ErrorKind>(
                (part_end(sd, 0), s.len() as int),
            )
            &&& s.subrange(0, s.len() as int) == s
        }),
{
    let e: Seq<u8> = Seq::empty();
    let v = sd.value_octets();
    let s = tlv_octets(Tag::sequence(), v);
    let parts = signed_data_parts(sd);
    let hdr = parts[0];
    let ver = parts[1];
    let d = parts[2];
    let ec = parts[3];
    let c = parts[4];
    let cr = parts[5];
    let si = parts[6];
    assert(v == ver + d + ec + c + cr + si);
    assert(s == hdr + v);
    lemma_regroup(hdr, ver, d, ec, c, cr, si);
    lemma_tagged_at_octets(e, Tag::sequence(), v, e, false);
    assert(s.subrange(0, s.len() as int) =~= s);
}

/// The version and digest algorithms read back.
#[verifier::spinoff_prover]
#[verifier::rlimit(100)]
proof fn lemma_signed_data_head(sd: SignedData)
    requires
        sd.wf(),
        sd.fits(),
        sd.value_octets().len() <= MAX_LENGTH,
        der_elements(sd.digest_algorithms.elems()),
        sd.certificates is Some ==> der_elements(sd.certificates->Some_0.0.elems()),
        sd.crls is Some ==> der_elements(sd.crls->Some_0.elems()),
        der_elements(sd.signer_infos.0.elems()),
    ensures
        ({
            let s = tlv_octets(Tag::sequence(), sd.value_octets());
            &&& prim_at(s, part_end(sd, 0), crate::any::tag_integer_spec()) == Ok::<
                (Seq<u8>, int),
                ErrorKind,
            >((seq![sd.version.value()], part_end(sd, 1)))
            &&& set_of_at(s, part_end(sd, 1), Tag::set(), false) == Some(
                (sd.digest_algorithms.elems(), part_end(sd, 2)),
            )
        }),
{
    let e: Seq<u8> = Seq::empty();
    let v = sd.value_octets();
    let s = tlv_octets(Tag::sequence(), v);
    let parts = signed_data_parts(sd);
    let hdr = parts[0];
    let ver = parts[1];
    let d = parts[2];
    let ec = parts[3];
    let c = parts[4];
    let cr = parts[5];
    let si = parts[6];
    assert(v == ver + d + ec + c + cr + si);
    assert(s == hdr + v);
    lemma_regroup(hdr, ver, d, ec, c, cr, si);
    let int_tag = crate::any::tag_integer_spec();
    let vv = seq![sd.version.value()];
    lemma_version_octets(sd.version);
    lemma_prim_at_octets(hdr, int_tag, vv, d + ec + c + cr + si);
    lemma_set_of_at_octets(hdr + ver, Tag::set(), sd.digest_algorithms.elems(), ec + c + cr + si);
}

/// The encapsulated content, the optional sets and the signer infos read back.
#[verifier::spinoff_prover]
#[verifier::rlimit(100)]
proof fn lemma_signed_data_tail(sd: SignedData)
    requires
        sd.wf(),
        sd.fits(),
        sd.value_octets().len() <= MAX_LENGTH,
        der_elements(sd.digest_algorithms.elems()),
        sd.certificates is Some ==> der_elements(sd.certificates->Some_0.0.elems()),
        sd.crls is Some ==> der_elements(sd.crls->Some_0.elems()),
        der_elements(sd.signer_infos.0.elems()),
    ensures
        ({
            let s = tlv_octets(Tag::sequence(), sd.value_octets());
            &&& eci_at(s, part_end(sd, 2), false) == Some(
                (
                    sd.encap_content_info.econtent_type.octets(),
                    any_opt_view(sd.encap_content_info.econtent),
                    part_end(sd, 3),
                ),
            )
            &&& opt_set_at(s, part_end(sd, 3), Tag::context(0, true), false) == Some(
                (cert_elems(sd.certificates), part_end(sd, 4)),
            )
            &&& opt_set_at(s, part_end(sd, 4), Tag::context(1, true), false) == Some(
                (opt_elems(sd.crls), part_end(sd, 5)),
            )
            &&& set_of_at(s, part_end(sd, 5), Tag::set(), false) == Some(
                (sd.signer_infos.0.elems(), s.len() as int),
            )
        }),
{
    let e: Seq<u8> = Seq::empty();
    let v = sd.value_octets();
    let s = tlv_octets(Tag::sequence(), v);
    let parts = signed_data_parts(sd);
    let hdr = parts[0];
    let ver = parts[1];
    let d = parts[2];
    let ec = parts[3];
    let c = parts[4];
    let cr = parts[5];
    let si = parts[6];
    assert(v == ver + d + ec + c + cr + si);
    assert(s == hdr + v);
    lemma_regroup(hdr, ver, d, ec, c, cr, si);
    lemma_eci_at_octets(hdr + ver + d, sd.encap_content_info, c + cr + si);
    assert(si[0] == Tag::set().octet());
    assert((cr + si)[0] != Tag::context(0, true).octet());
    lemma_opt_set_at_octets(hdr + ver + d + ec, Tag::context(0, true), cert_elems(sd.certificates), cr + si);
    lemma_opt_set_at_octets(hdr + ver + d + ec + c, Tag::context(1, true), opt_elems(sd.crls), si);
    lemma_set_of_at_octets(hdr + ver + d + ec + c + cr, Tag::set(), sd.signer_infos.0.elems(), e);
}

/// Decoding the DER encoding of a well-formed signed-data message gives back the same version, content and sets.
#[verifier::spinoff_prover]
#[verifier::rlimit(100)]
pub proof fn lemma_signed_data_round_trip(sd: SignedData)
    requires
        sd.wf(),
        sd.fits(),
        sd.value_octets().len() <= MAX_LENGTH,
    ensures
        ({
            let s = tlv_octets(Tag::sequence(), sd.value_octets());
            match signed_data_at(s, 0, false) {
                Some((m, w)) => w == s.len() && matches_model(sd, m) && model_distinct(m),
                None => false,
            }
        }),
{
    lemma_signed_data_open(sd);
    lemma_signed_data_head(sd);
    lemma_signed_data_tail(sd);
    lemma_sorted_distinct(sd.digest_algorithms.elems());
    lemma_sorted_distinct(sd.signer_infos.0.elems());
    if sd.certificates is Some {
        lemma_sorted_distinct(sd.certificates->Some_0.0.elems());
    }
    if sd.crls is Some {
        lemma_sorted_distinct(sd.crls->Some_0.elems());
    }
}

} // verus!
