use vstd::prelude::*;
use crate::error::{Error, ErrorKind};
use crate::header::{header_at, Class, Header, IndefiniteLength, Tag};
use crate::reader::{drained, eoc_at, tagged_at, Reader, RECURSION_LIMIT};

verus! {

/// `UTF8String` (0x0C).
pub open spec fn tag_utf8_spec() -> Tag {
    Tag { class: Class::Universal, constructed: false, number: 12 }
}

pub fn tag_utf8() -> (t: Tag)
    ensures
        t == tag_utf8_spec(),
{
    Tag { class: Class::Universal, constructed: false, number: 12 }
}

/// The octets of the `UTF8String` at `pos` of the window `s`, and where it
/// ends. A primitive definite string is its value octets. Under BER a
/// constructed or indefinite one is the concatenation of the strings it holds,
/// which must be `UTF8String`s too.
pub open spec fn str_elem(s: Seq<u8>, pos: int, ber: bool, depth: int) -> Option<(Seq<u8>, int)>
    decreases s.len() - pos, 1int,
{
    if depth > RECURSION_LIMIT {
        None
    } else {
        match header_at(s, pos) {
            Err(_) => None,
            Ok((h, e)) => {
                if h.tag.class != Class::Universal || h.tag.number != 12 || e <= pos {
                    None
                } else if !h.tag.constructed && h.length is Definite {
                    let n = h.length->Definite_0;
                    if e + n > s.len() {
                        None
                    } else {
                        Some((s.subrange(e, e + n), e + n))
                    }
                } else if !ber {
                    None
                } else {
                    match tagged_at(s, pos, h.tag, ber) {
                        Err(_) => None,
                        Ok((e2, w)) => {
                            if w > s.len() || e2 <= pos || w < e2 {
                                None
                            } else {
                                match str_list(s.subrange(0, w), e2, ber, depth + 1) {
                                    None => None,
                                    Some((v, q)) => if drained(s.subrange(0, w), q, ber) {
                                        Some((v, w))
                                    } else {
                                        None
                                    },
                                }
                            }
                        },
                    }
                }
            },
        }
    }
}

/// The concatenated octets of the strings from `pos` of the window `s` up to
/// its end (or, under BER, an end-of-content marker), and where they stop.
pub open spec fn str_list(s: Seq<u8>, pos: int, ber: bool, depth: int) -> Option<(Seq<u8>, int)>
    decreases s.len() - pos, 2int,
{
    if pos < 0 || pos >= s.len() || (ber && eoc_at(s, pos)) {
        Some((Seq::empty(), pos))
    } else {
        match str_elem(s, pos, ber, depth) {
            None => None,
            Some((v, q)) => {
                if q <= pos || q > s.len() {
                    None
                } else {
                    match str_list(s, q, ber, depth) {
                        None => None,
                        Some((rest, q2)) => Some((v + rest, q2)),
                    }
                }
            },
        }
    }
}

/// Appends the octets of the `UTF8String` at the cursor, as [`str_elem`]
/// gives them, and moves past it.
pub fn decode_utf8_into(r: &mut Reader, depth: u16, out: &mut Vec<u8>) -> (res: Result<(), Error>)
    requires
        old(r).wf(),
    ensures
        final(r).wf(),
        final(r).data() == old(r).data(),
        res is Ok ==> final(r).same_input(old(r)),
        match str_elem(old(r).window(), old(r).pos(), old(r).ber(), depth as int) {
            Some((v, q)) => res is Ok && final(out)@ == old(out)@ + v && final(r).pos() == q,
            None => res is Err,
        },
    decreases old(r).end() - old(r).pos(),
{
    if depth > RECURSION_LIMIT {
        return Err(r.error(ErrorKind::RecursionLimitExceeded));
    }
    let ghost s = old(r).window();
    let ghost ber = old(r).ber();
    let p0 = r.pos_usize();
    let (h, e) = r.peek_header()?;
    let expected = tag_utf8();
    if !matches!(h.tag.class, Class::Universal) || h.tag.number != 12 || e <= r.pos_usize() {
        return Err(r.error(ErrorKind::UnexpectedTag { expected, actual: h.tag }));
    }
    if !h.tag.constructed && h.length.is_definite() {
        let n = match h.length {
            IndefiniteLength::Definite(n) => n,
            IndefiniteLength::Indefinite => 0,
        };
        let _ = r.read_header()?;
        let v = r.read_vec(n)?;
        crate::any::append(out, v.as_slice());
        return Ok(());
    }
    if !r.is_parsing_ber() {
        return Err(r.error(ErrorKind::UnexpectedTag { expected, actual: h.tag }));
    }
    let outer = r.enter_tagged(h.tag)?;
    let ghost w = r.end();
    let ghost e2 = r.pos();
    if (outer as u64) < (r.end_usize() as u64) || r.pos_usize() <= p0 {
        return Err(r.error(ErrorKind::Incomplete));
    }
    let ghost sw = s.subrange(0, w);
    proof {
        assert(r.window() =~= sw);
    }
    let ghost start = r.pos();
    let ghost mut acc: Seq<u8> = Seq::empty();
    let ghost o = out@;
    loop
        invariant
            r.wf(),
            r.window() == sw,
            r.data() == old(r).data(),
            r.ber() == ber,
            r.end() == w,
            w <= outer <= r.data().len(),
            outer == old(r).end(),
            start <= r.pos(),
            p0 < start,
            p0 == old(r).pos(),
            s == old(r).window(),
            depth <= RECURSION_LIMIT,
            ber,
            w <= s.len(),
            sw == s.subrange(0, w),
            header_at(s, p0 as int) == Ok::<(Header, int), ErrorKind>((h, e as int)),
            h.tag.class == Class::Universal && h.tag.number == 12 && e > p0,
            !(!h.tag.constructed && h.length is Definite),
            tagged_at(s, p0 as int, h.tag, ber) == Ok::<(int, int), ErrorKind>((start, w)),
            out@ == o + acc,
            match str_list(sw, r.pos(), ber, depth + 1) {
                Some((v, q)) => str_list(sw, start, ber, depth + 1) == Some((acc + v, q)),
                None => str_list(sw, start, ber, depth + 1) is None,
            },
        ensures
            r.wf(),
            r.window() == sw,
            r.data() == old(r).data(),
            r.ber() == ber,
            r.end() == w,
            str_list(sw, start, ber, depth + 1) == Some((acc, r.pos())),
        decreases r.end() - r.pos(),
    {
        if r.is_finished() || (r.is_parsing_ber() && r.peek_eoc()) {
            assert(str_list(sw, r.pos(), ber, depth + 1) == Some((Seq::<u8>::empty(), r.pos())));
            assert(acc + Seq::<u8>::empty() =~= acc);
            break;
        }
        let p = r.pos_usize();
        let ghost before = out@;
        match decode_utf8_into(r, depth + 1, out) {
            Ok(()) => {},
            Err(err) => {
                proof {
                    assert(str_list(sw, p as int, ber, depth + 1) is None);
                    assert(str_list(sw, start, ber, depth + 1) is None);
                    assert(str_elem(s, p0 as int, ber, depth as int) is None);
                }
                return Err(err);
            },
        }
        if r.pos_usize() <= p {
            return Err(r.error(ErrorKind::Incomplete));
        }
        proof {
            let (v, q) = str_elem(sw, p as int, ber, depth + 1)->Some_0;
            assert(out@ == before + v);
            match str_list(sw, q, ber, depth + 1) {
                Some((rest, q2)) => {
                    assert(acc + (v + rest) =~= (acc + v) + rest);
                },
                None => {},
            }
            assert(out@ =~= o + (acc + v));
            acc = acc + v;
        }
    }
    proof {
        assert(old(r).window().subrange(0, w) == sw);
    }
    r.leave_nested(outer)?;
    Ok(())
}

/// Whether `b` is a continuation octet.
pub open spec fn cont(b: u8) -> bool {
    0x80 <= b <= 0xBF
}

/// Length of the well-formed UTF-8 sequence for one character starting at
/// `i` of `s` (Unicode, table of well-formed byte sequences), or 0 if none.
pub open spec fn utf8_char_len(s: Seq<u8>, i: int) -> int {
    let n = s.len();
    let b = s[i];
    if b <= 0x7F {
        1
    } else if 0xC2 <= b <= 0xDF {
        if i + 1 < n && cont(s[i + 1]) { 2 } else { 0 }
    } else if b == 0xE0 {
        if i + 2 < n && 0xA0 <= s[i + 1] <= 0xBF && cont(s[i + 2]) { 3 } else { 0 }
    } else if (0xE1 <= b <= 0xEC) || (0xEE <= b <= 0xEF) {
        if i + 2 < n && cont(s[i + 1]) && cont(s[i + 2]) { 3 } else { 0 }
    } else if b == 0xED {
        if i + 2 < n && 0x80 <= s[i + 1] <= 0x9F && cont(s[i + 2]) { 3 } else { 0 }
    } else if b == 0xF0 {
        if i + 3 < n && 0x90 <= s[i + 1] <= 0xBF && cont(s[i + 2]) && cont(s[i + 3]) { 4 } else { 0 }
    } else if 0xF1 <= b <= 0xF3 {
        if i + 3 < n && cont(s[i + 1]) && cont(s[i + 2]) && cont(s[i + 3]) { 4 } else { 0 }
    } else if b == 0xF4 {
        if i + 3 < n && 0x80 <= s[i + 1] <= 0x8F && cont(s[i + 2]) && cont(s[i + 3]) { 4 } else { 0 }
    } else {
        0
    }
}

/// Whether `s` from `i` on is a sequence of well-formed UTF-8 characters.
pub open spec fn utf8_from(s: Seq<u8>, i: int) -> bool
    decreases s.len() - i,
{
    if i < 0 || i >= s.len() {
        true
    } else if utf8_char_len(s, i) == 0 {
        false
    } else {
        utf8_from(s, i + utf8_char_len(s, i))
    }
}

/// Whether `s` is well-formed UTF-8.
pub open spec fn utf8_valid(s: Seq<u8>) -> bool {
    utf8_from(s, 0)
}

fn char_len(s: &[u8], i: usize) -> (r: usize)
    requires
        i < s@.len(),
    ensures
        r == utf8_char_len(s@, i as int),
{
    let n = s.len();
    let b = s[i];
    if b <= 0x7F {
        1
    } else if 0xC2 <= b && b <= 0xDF {
        if n - i > 1 && 0x80 <= s[i + 1] && s[i + 1] <= 0xBF { 2 } else { 0 }
    } else if b == 0xE0 {
        if n - i > 2 && 0xA0 <= s[i + 1] && s[i + 1] <= 0xBF && 0x80 <= s[i + 2] && s[i + 2] <= 0xBF {
            3
        } else {
            0
        }
    } else if (0xE1 <= b && b <= 0xEC) || (0xEE <= b && b <= 0xEF) {
        if n - i > 2 && 0x80 <= s[i + 1] && s[i + 1] <= 0xBF && 0x80 <= s[i + 2] && s[i + 2] <= 0xBF {
            3
        } else {
            0
        }
    } else if b == 0xED {
        if n - i > 2 && 0x80 <= s[i + 1] && s[i + 1] <= 0x9F && 0x80 <= s[i + 2] && s[i + 2] <= 0xBF {
            3
        } else {
            0
        }
    } else if b == 0xF0 || (0xF1 <= b && b <= 0xF3) || b == 0xF4 {
        if n - i <= 3 {
            return 0;
        }
        let c1 = s[i + 1];
        let lo: u8 = if b == 0xF0 { 0x90 } else { 0x80 };
        let hi: u8 = if b == 0xF4 { 0x8F } else { 0xBF };
        if lo <= c1 && c1 <= hi && 0x80 <= s[i + 2] && s[i + 2] <= 0xBF && 0x80 <= s[i + 3] && s[i
            + 3] <= 0xBF {
            4
        } else {
            0
        }
    } else {
        0
    }
}

/// Whether `s` is well-formed UTF-8.
pub fn is_utf8(s: &[u8]) -> (r: bool)
    ensures
        r == utf8_valid(s@),
{
    let mut i: usize = 0;
    while i < s.len()
        invariant
            0 <= i <= s@.len(),
            utf8_valid(s@) == utf8_from(s@, i as int),
        decreases s@.len() - i,
    {
        let n = char_len(s, i);
        if n == 0 {
            return false;
        }
        i = i + n;
    }
    true
}

/// Decodes the `UTF8String` at the cursor into its octets, which must be
/// well-formed UTF-8, else a `Value` error.
pub fn decode_utf8(r: &mut Reader) -> (res: Result<Vec<u8>, Error>)
    requires
        old(r).wf(),
    ensures
        final(r).wf(),
        res is Ok ==> final(r).same_input(old(r)),
        match str_elem(old(r).window(), old(r).pos(), old(r).ber(), 0) {
            Some((v, q)) => (res is Ok <==> utf8_valid(v)) && (res is Ok ==> res->Ok_0@ == v
                && final(r).pos() == q) && (!utf8_valid(v) ==> res->Err_0.kind == (
            ErrorKind::Value { tag: tag_utf8_spec() })),
            None => res is Err,
        },
{
    let mut out: Vec<u8> = Vec::new();
    decode_utf8_into(r, 0, &mut out)?;
    assert(out@ =~= Seq::<u8>::empty() + out@);
    if !is_utf8(out.as_slice()) {
        return Err(r.error(ErrorKind::Value { tag: tag_utf8() }));
    }
    Ok(out)
}

} // verus!
