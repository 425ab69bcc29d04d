use vstd::prelude::*;
use crate::error::{Error, ErrorKind};
use crate::header::{
    decode_tag, header_at, header_octets, tag_at, tag_sequence, Header, IndefiniteLength, Tag,
    MAX_LENGTH,
};

verus! {

/// Deepest nesting of indefinite-length values the scanner follows.
pub const RECURSION_LIMIT: u16 = 1024;

/// Whether `s` holds the end-of-content marker `00 00` at `pos`.
pub open spec fn eoc_at(s: Seq<u8>, pos: int) -> bool {
    0 <= pos && pos + 2 <= s.len() && s[pos] == 0 && s[pos + 1] == 0
}

/// The error for a missing end-of-content marker at `q` of the window `s`:
/// `Incomplete` when a zero is the window's last octet, so that the marker is
/// cut short, else `EndOfContent`.
pub open spec fn eoc_failure(s: Seq<u8>, q: int) -> ErrorKind {
    if 0 <= q && q + 1 == s.len() && s[q] == 0 {
        ErrorKind::Incomplete
    } else {
        ErrorKind::EndOfContent
    }
}

/// Where a walk over the elements of an indefinite-length value, starting at
/// `pos` of the window `s` and `depth` levels deep, stops: at an end-of-content
/// marker or at the end of the window. A nested indefinite element is walked
/// the same way one level deeper and must be closed by its own marker.
pub open spec fn scan(s: Seq<u8>, pos: int, depth: int) -> Result<int, ErrorKind>
    decreases s.len() - pos,
{
    if depth > RECURSION_LIMIT {
        Err(ErrorKind::RecursionLimitExceeded)
    } else if pos < 0 || pos >= s.len() || eoc_at(s, pos) {
        Ok(pos)
    } else {
        match header_at(s, pos) {
            Err(k) => Err(k),
            Ok((h, e)) => {
                if e <= pos {
                    Err(ErrorKind::Incomplete)
                } else {
                    match h.length {
                        IndefiniteLength::Definite(n) => {
                            if e + n > s.len() {
                                Err(ErrorKind::Incomplete)
                            } else {
                                scan(s, e + n, depth)
                            }
                        },
                        IndefiniteLength::Indefinite => {
                            match scan(s, e, depth + 1) {
                                Err(k) => Err(k),
                                Ok(q) => {
                                    if q >= pos && eoc_at(s, q) {
                                        scan(s, q + 2, depth)
                                    } else {
                                        Err(eoc_failure(s, q))
                                    }
                                },
                            }
                        },
                    }
                }
            },
        }
    }
}

/// A walk that succeeds stops inside the window, not before its start, and
/// either at the end of the window or at an end-of-content marker.
pub proof fn lemma_scan_bounds(s: Seq<u8>, pos: int, depth: int)
    requires
        0 <= pos <= s.len(),
    ensures
        scan(s, pos, depth) is Ok ==> pos <= scan(s, pos, depth)->Ok_0 <= s.len(),
        scan(s, pos, depth) is Ok ==> (scan(s, pos, depth)->Ok_0 == s.len() || eoc_at(
            s,
            scan(s, pos, depth)->Ok_0,
        )),
    decreases s.len() - pos,
{
    if depth <= RECURSION_LIMIT && pos < s.len() && !eoc_at(s, pos) {
        match header_at(s, pos) {
            Err(_) => {},
            Ok((h, e)) => {
                if e > pos && e <= s.len() {
                    match h.length {
                        IndefiniteLength::Definite(n) => {
                            if e + n <= s.len() {
                                lemma_scan_bounds(s, e + n, depth);
                            }
                        },
                        IndefiniteLength::Indefinite => {
                            lemma_scan_bounds(s, e, depth + 1);
                            match scan(s, e, depth + 1) {
                                Err(_) => {},
                                Ok(q) => {
                                    if q >= pos && eoc_at(s, q) {
                                        lemma_scan_bounds(s, q + 2, depth);
                                    }
                                },
                            }
                        },
                    }
                }
            },
        }
    }
}

/// The DER re-encoding of the elements from `pos` of the window `s` up to an
/// end-of-content marker or the end of the window, and where they stop. A
/// definite element keeps its value octets and gets the shortest length; an
/// indefinite one (which must be constructed) is rebuilt from its re-encoded
/// elements with a definite length.
pub open spec fn canon(s: Seq<u8>, pos: int, depth: int) -> Result<(Seq<u8>, int), ErrorKind>
    decreases s.len() - pos,
{
    if depth > RECURSION_LIMIT {
        Err(ErrorKind::RecursionLimitExceeded)
    } else if pos < 0 || pos >= s.len() || eoc_at(s, pos) {
        Ok((Seq::empty(), pos))
    } else {
        match header_at(s, pos) {
            Err(k) => Err(k),
            Ok((h, e)) => {
                if e <= pos {
                    Err(ErrorKind::Incomplete)
                } else {
                    match h.length {
                        IndefiniteLength::Definite(n) => {
                            if e + n > s.len() {
                                Err(ErrorKind::Incomplete)
                            } else {
                                match canon(s, e + n, depth) {
                                    Err(k) => Err(k),
                                    Ok((rest, q)) => Ok(
                                        (header_octets(h.tag, n as nat) + s.subrange(e, e + n)
                                            + rest, q),
                                    ),
                                }
                            }
                        },
                        IndefiniteLength::Indefinite => {
                            if !h.tag.constructed {
                                Err(
                                    ErrorKind::UnexpectedTag {
                                        expected: Tag { constructed: true, ..h.tag },
                                        actual: h.tag,
                                    },
                                )
                            } else {
                                match canon(s, e, depth + 1) {
                                    Err(k) => Err(k),
                                    Ok((inner, q)) => {
                                        if !(q >= pos && eoc_at(s, q)) {
                                            Err(eoc_failure(s, q))
                                        } else if inner.len() > MAX_LENGTH {
                                            Err(ErrorKind::Overflow)
                                        } else {
                                            match canon(s, q + 2, depth) {
                                                Err(k) => Err(k),
                                                Ok((rest, q2)) => Ok(
                                                    (header_octets(h.tag, inner.len()) + inner
                                                        + rest, q2),
                                                ),
                                            }
                                        }
                                    },
                                }
                            }
                        },
                    }
                }
            },
        }
    }
}

/// A re-encoding that succeeds stops inside the window, not before its start.
pub proof fn lemma_canon_bounds(s: Seq<u8>, pos: int, depth: int)
    requires
        0 <= pos <= s.len(),
    ensures
        canon(s, pos, depth) is Ok ==> pos <= canon(s, pos, depth)->Ok_0.1 <= s.len(),
    decreases s.len() - pos,
{
    if depth <= RECURSION_LIMIT && pos < s.len() && !eoc_at(s, pos) {
        match header_at(s, pos) {
            Err(_) => {},
            Ok((h, e)) => {
                if e > pos && e <= s.len() {
                    match h.length {
                        IndefiniteLength::Definite(n) => {
                            if e + n <= s.len() {
                                lemma_canon_bounds(s, e + n, depth);
                            }
                        },
                        IndefiniteLength::Indefinite => {
                            lemma_canon_bounds(s, e, depth + 1);
                            match canon(s, e, depth + 1) {
                                Err(_) => {},
                                Ok((_, q)) => {
                                    if q >= pos && eoc_at(s, q) {
                                        lemma_canon_bounds(s, q + 2, depth);
                                    }
                                },
                            }
                        },
                    }
                }
            },
        }
    }
}

/// A cursor over owned input, confined to a window that nested reads narrow.
pub struct Reader {
    bytes: Vec<u8>,
    position: usize,
    end: usize,
    ber: bool,
}

impl Reader {
    /// The whole input.
    pub closed spec fn data(&self) -> Seq<u8> {
        self.bytes@
    }

    /// The cursor.
    pub closed spec fn pos(&self) -> int {
        self.position as int
    }

    /// Where the current window ends.
    pub closed spec fn end(&self) -> int {
        self.end as int
    }

    /// Whether BER productions (indefinite lengths) are accepted.
    pub closed spec fn ber(&self) -> bool {
        self.ber
    }

    /// The input up to the end of the window.
    pub open spec fn window(&self) -> Seq<u8> {
        self.data().subrange(0, self.end())
    }

    pub open spec fn wf(&self) -> bool {
        0 <= self.pos() <= self.end() <= self.data().len() <= MAX_LENGTH
    }

    /// The same input, window and mode, with the cursor possibly moved.
    pub open spec fn same_input(&self, other: &Reader) -> bool {
        &&& self.data() == other.data()
        &&& self.end() == other.end()
        &&& self.ber() == other.ber()
    }

    /// A reader over `bytes`; `ber` admits indefinite lengths. Input longer than
    /// [`MAX_LENGTH`] is refused with `Overflow`.
    pub fn new(bytes: Vec<u8>, ber: bool) -> (r: Result<Reader, Error>)
        ensures
            bytes@.len() > MAX_LENGTH <==> r is Err,
            r is Err ==> r->Err_0.kind == ErrorKind::Overflow,
            r is Ok ==> {
                let rd = r->Ok_0;
                &&& rd.wf()
                &&& rd.data() == bytes@
                &&& rd.pos() == 0
                &&& rd.end() == bytes@.len()
                &&& rd.ber() == ber
            },
    {
        if bytes.len() > MAX_LENGTH as usize {
            return Err(ErrorKind::Overflow.at(0));
        }
        let end = bytes.len();
        Ok(Reader { bytes, position: 0, end, ber })
    }

    /// Length of the whole input.
    pub fn input_len(&self) -> (r: u32)
        requires
            self.wf(),
        ensures
            r == self.data().len(),
    {
        self.bytes.len() as u32
    }

    /// The cursor.
    pub fn position(&self) -> (r: u32)
        requires
            self.wf(),
        ensures
            r == self.pos(),
    {
        self.position as u32
    }

    /// The cursor, as an index.
    pub fn pos_usize(&self) -> (r: usize)
        ensures
            r == self.pos(),
    {
        self.position
    }

    /// The end of the window, as an index.
    pub fn end_usize(&self) -> (r: usize)
        ensures
            r == self.end(),
    {
        self.end
    }

    /// Offset within the input, for error reports.
    pub fn offset(&self) -> (r: u32)
        requires
            self.wf(),
        ensures
            r == self.pos(),
    {
        self.position()
    }

    /// Whether BER is being parsed.
    pub fn is_parsing_ber(&self) -> (r: bool)
        ensures
            r == self.ber(),
    {
        self.ber
    }

    /// An error of the given kind, at the cursor.
    pub fn error(&self, kind: ErrorKind) -> (e: Error)
        requires
            self.wf(),
        ensures
            e.kind == kind,
            e.position == self.pos(),
    {
        kind.at(self.position())
    }

    /// Octets left in the window.
    pub fn remaining_len(&self) -> (r: u32)
        requires
            self.wf(),
        ensures
            r == self.end() - self.pos(),
    {
        (self.end - self.position) as u32
    }

    /// Whether the window is drained.
    pub fn is_finished(&self) -> (r: bool)
        requires
            self.wf(),
        ensures
            r == (self.pos() == self.end()),
    {
        self.remaining_len() == 0
    }

    /// The next octet, if the window holds one.
    pub fn peek_byte(&self) -> (r: Option<u8>)
        requires
            self.wf(),
        ensures
            self.pos() < self.end() ==> r == Some(self.data()[self.pos()]),
            self.pos() == self.end() ==> r is None,
    {
        if self.position < self.end {
            Some(self.bytes[self.position])
        } else {
            None
        }
    }

    /// The tag of the next value, without moving the cursor.
    pub fn peek_tag(&self) -> (r: Result<Tag, Error>)
        requires
            self.wf(),
        ensures
            match tag_at(self.window(), self.pos()) {
                Ok((t, e)) => r == Ok::<Tag, Error>(t),
                Err(k) => r is Err && r->Err_0.kind == k,
            },
    {
        let w = vstd::slice::slice_subrange(self.bytes.as_slice(), 0, self.end);
        match decode_tag(w, self.position) {
            Ok((t, _)) => Ok(t),
            Err(k) => Err(self.error(k)),
        }
    }

    /// The header at the cursor, without moving it. The header must lie in the
    /// window.
    pub fn peek_header(&self) -> (r: Result<(Header, usize), Error>)
        requires
            self.wf(),
        ensures
            match header_at(self.window(), self.pos()) {
                Ok((h, e)) => r == Ok::<(Header, usize), Error>((h, e as usize)),
                Err(k) => r is Err && r->Err_0.kind == k,
            },
            r is Err ==> r->Err_0.position == self.pos(),
    {
        let w = vstd::slice::slice_subrange(self.bytes.as_slice(), 0, self.end);
        match Header::decode(w, self.position) {
            Ok((h, e)) => Ok((h, e)),
            Err(k) => Err(self.error(k)),
        }
    }

    /// Whether the next two octets of the window are the end-of-content marker.
    pub fn peek_eoc(&self) -> (r: bool)
        requires
            self.wf(),
        ensures
            r == eoc_at(self.window(), self.pos()),
    {
        self.end - self.position >= 2 && self.bytes[self.position] == 0 && self.bytes[self.position
            + 1] == 0
    }

    /// Moves the cursor back by `offset`.
    pub fn rewind(&mut self, offset: u32) -> (r: Result<(), Error>)
        requires
            old(self).wf(),
        ensures
            final(self).wf(),
            final(self).same_input(old(self)),
            offset <= old(self).pos() <==> r is Ok,
            r is Ok ==> final(self).pos() == old(self).pos() - offset,
            r is Err ==> final(self).pos() == old(self).pos() && r->Err_0.kind
                == ErrorKind::Incomplete,
    {
        if offset as usize > self.position {
            return Err(self.error(ErrorKind::Incomplete));
        }
        self.position = self.position - offset as usize;
        Ok(())
    }

    /// Takes the next `len` octets of the window.
    pub fn read_slice(&mut self, len: u32) -> (r: Result<Vec<u8>, Error>)
        requires
            old(self).wf(),
        ensures
            final(self).wf(),
            final(self).same_input(old(self)),
            len <= old(self).end() - old(self).pos() <==> r is Ok,
            r is Ok ==> r->Ok_0@ == old(self).data().subrange(
                old(self).pos(),
                old(self).pos() + len,
            ) && final(self).pos() == old(self).pos() + len,
            r is Err ==> r->Err_0.kind == ErrorKind::Incomplete && final(self).pos()
                == old(self).pos() && r->Err_0.position == old(self).pos(),
    {
        if len as usize > self.end - self.position {
            return Err(self.error(ErrorKind::Incomplete));
        }
        let start = self.position;
        let stop = start + len as usize;
        let mut out: Vec<u8> = Vec::new();
        let mut i: usize = start;
        while i < stop
            invariant
                start <= i <= stop <= self.bytes@.len(),
                out@ == self.bytes@.subrange(start as int, i as int),
            decreases stop - i,
        {
            out.push(self.bytes[i]);
            proof {
                assert(self.bytes@.subrange(start as int, i + 1) =~= self.bytes@.subrange(
                    start as int,
                    i as int,
                ).push(self.bytes@[i as int]));
            }
            i = i + 1;
        }
        self.position = stop;
        Ok(out)
    }

    /// Fills `buf` with the next `buf.len()` octets.
    pub fn read_into(&mut self, buf: &mut Vec<u8>) -> (r: Result<(), Error>)
        requires
            old(self).wf(),
        ensures
            final(self).wf(),
            final(self).same_input(old(self)),
            old(buf)@.len() <= old(self).end() - old(self).pos() <==> r is Ok,
            r is Ok ==> final(buf)@ == old(self).data().subrange(
                old(self).pos(),
                old(self).pos() + old(buf)@.len(),
            ) && final(self).pos() == old(self).pos() + old(buf)@.len(),
            r is Err ==> final(buf)@ == old(buf)@ && final(self).pos() == old(self).pos()
                && r->Err_0.kind == ErrorKind::Incomplete,
    {
        if buf.len() > self.end - self.position {
            return Err(self.error(ErrorKind::Incomplete));
        }
        let input = self.read_slice(buf.len() as u32)?;
        *buf = input;
        Ok(())
    }

    /// Reads one octet.
    pub fn read_byte(&mut self) -> (r: Result<u8, Error>)
        requires
            old(self).wf(),
        ensures
            final(self).wf(),
            final(self).same_input(old(self)),
            old(self).pos() < old(self).end() <==> r is Ok,
            r is Ok ==> r->Ok_0 == old(self).data()[old(self).pos()] && final(self).pos()
                == old(self).pos() + 1,
            r is Err ==> r->Err_0.kind == ErrorKind::Incomplete && final(self).pos()
                == old(self).pos(),
    {
        let mut buf: Vec<u8> = vec![0u8];
        self.read_into(&mut buf)?;
        Ok(buf[0])
    }

    /// Reads `len` octets into a new vector.
    pub fn read_vec(&mut self, len: u32) -> (r: Result<Vec<u8>, Error>)
        requires
            old(self).wf(),
        ensures
            final(self).wf(),
            final(self).same_input(old(self)),
            len <= old(self).end() - old(self).pos() <==> r is Ok,
            r is Ok ==> r->Ok_0@ == old(self).data().subrange(
                old(self).pos(),
                old(self).pos() + len,
            ) && final(self).pos() == old(self).pos() + len,
            r is Err ==> r->Err_0.kind == ErrorKind::Incomplete && final(self).pos() == old(
                self,
            ).pos() && r->Err_0.position == old(self).pos(),
    {
        self.read_slice(len)
    }

    /// Consumes an end-of-content marker if the next octet is zero: `Ok(true)`
    /// when `00 00` was read, `Ok(false)` when the next octet is not zero (or
    /// there is none); a zero not followed by another is `EndOfContent`, or
    /// `Incomplete` when it is the last octet of the window. Only a marker read
    /// moves the cursor.
    pub fn read_eoc(&mut self) -> (r: Result<bool, Error>)
        requires
            old(self).wf(),
        ensures
            final(self).wf(),
            final(self).same_input(old(self)),
            eoc_at(old(self).window(), old(self).pos()) ==> r == Ok::<bool, Error>(true)
                && final(self).pos() == old(self).pos() + 2,
            (old(self).pos() == old(self).end() || old(self).data()[old(self).pos()] != 0) ==> r
                == Ok::<bool, Error>(false) && final(self).pos() == old(self).pos(),
            old(self).pos() < old(self).end() && old(self).data()[old(self).pos()] == 0 && !eoc_at(
                old(self).window(),
                old(self).pos(),
            ) ==> r is Err && r->Err_0.kind == eoc_failure(old(self).window(), old(self).pos()),
            r is Err ==> final(self).pos() == old(self).pos() && r->Err_0.position == old(
                self,
            ).pos(),
    {
        let next = self.peek_byte();
        if next == Some(0u8) {
            if self.end - self.position < 2 {
                return Err(self.error(ErrorKind::Incomplete));
            }
            if self.bytes[self.position + 1] != 0 {
                return Err(self.error(ErrorKind::EndOfContent));
            }
            self.position = self.position + 2;
            Ok(true)
        } else {
            Ok(false)
        }
    }

    /// Ends a read: under BER a trailing end-of-content marker is consumed first;
    /// then the window must be drained, else `TrailingData` with the octets
    /// read so far and the octets left, at the cursor.
    pub fn finish<T>(&mut self, value: T) -> (r: Result<T, Error>)
        requires
            old(self).wf(),
        ensures
            final(self).wf(),
            final(self).same_input(old(self)),
            r is Ok ==> r->Ok_0 == value && final(self).pos() == old(self).end(),
            r is Err ==> r->Err_0.position == final(self).pos(),
            ({
                let p = old(self).pos();
                let end = old(self).end();
                let eoc = old(self).ber() && eoc_at(old(self).window(), p);
                let bad_eoc = old(self).ber() && p < end && old(self).data()[p] == 0 && !eoc_at(
                    old(self).window(),
                    p,
                );
                &&& (!eoc && !bad_eoc) ==> (p == end ==> r is Ok) && (p != end ==> r is Err
                    && r->Err_0.kind == (ErrorKind::TrailingData {
                    decoded: p as u32,
                    remaining: (end - p) as u32,
                }) && final(self).pos() == p)
                &&& eoc ==> (p + 2 == end ==> r is Ok) && (p + 2 != end ==> r is Err
                    && r->Err_0.kind == (ErrorKind::TrailingData {
                    decoded: (p + 2) as u32,
                    remaining: (end - p - 2) as u32,
                }) && final(self).pos() == p + 2)
                &&& bad_eoc ==> r is Err && r->Err_0.kind == eoc_failure(old(self).window(), p)
                    && final(self).pos() == p
            }),
    {
        if self.ber {
            self.read_eoc()?;
        }
        if !self.is_finished() {
            Err(
                ErrorKind::TrailingData {
                    decoded: self.position(),
                    remaining: self.remaining_len(),
                }.at(self.position()),
            )
        } else {
            Ok(value)
        }
    }

    /// Narrows the window to the next `len` octets, returning the end of the
    /// window it replaces; `Incomplete` when fewer remain.
    pub fn enter_nested(&mut self, len: u32) -> (r: Result<usize, Error>)
        requires
            old(self).wf(),
        ensures
            final(self).wf(),
            final(self).data() == old(self).data(),
            final(self).ber() == old(self).ber(),
            final(self).pos() == old(self).pos(),
            len <= old(self).end() - old(self).pos() <==> r is Ok,
            r is Ok ==> r->Ok_0 == old(self).end() && final(self).end() == old(self).pos() + len,
            r is Err ==> r->Err_0.kind == ErrorKind::Incomplete && final(self).end() == old(
                self,
            ).end(),
    {
        if len as usize > self.end - self.position {
            return Err(self.error(ErrorKind::Incomplete));
        }
        let saved = self.end;
        self.end = self.position + len as usize;
        Ok(saved)
    }

    /// Leaves a nested window: it must be drained (after an end-of-content
    /// marker under BER), as [`Reader::finish`] checks, then the window ending
    /// at `outer_end` is restored.
    pub fn leave_nested(&mut self, outer_end: usize) -> (r: Result<(), Error>)
        requires
            old(self).wf(),
            old(self).end() <= outer_end <= old(self).data().len(),
        ensures
            final(self).wf(),
            final(self).data() == old(self).data(),
            final(self).ber() == old(self).ber(),
            !old(self).ber() ==> (r is Ok <==> old(self).pos() == old(self).end()),
            old(self).ber() ==> (r is Ok <==> (old(self).pos() == old(self).end() || (eoc_at(
                old(self).window(),
                old(self).pos(),
            ) && old(self).pos() + 2 == old(self).end()))),
            r is Ok ==> final(self).pos() == old(self).end() && final(self).end() == outer_end,
            r is Err ==> r->Err_0.position == final(self).pos(),
            ({
                let p = old(self).pos();
                let end = old(self).end();
                let eoc = old(self).ber() && eoc_at(old(self).window(), p);
                let bad_eoc = old(self).ber() && p < end && old(self).data()[p] == 0 && !eoc_at(
                    old(self).window(),
                    p,
                );
                &&& (!eoc && !bad_eoc && p != end) ==> r is Err && r->Err_0.kind == (
                ErrorKind::TrailingData { decoded: p as u32, remaining: (end - p) as u32 })
                &&& (eoc && p + 2 != end) ==> r is Err && r->Err_0.kind == (
                ErrorKind::TrailingData { decoded: (p + 2) as u32, remaining: (end - p - 2) as u32 })
                &&& bad_eoc ==> r is Err && r->Err_0.kind == eoc_failure(old(self).window(), p)
            }),
    {
        self.finish(())?;
        self.end = outer_end;
        Ok(())
    }

    /// Walks the elements of an indefinite-length value from the cursor, `depth`
    /// levels deep, and leaves the cursor where [`scan`] stops.
    pub fn indefinite_value_length_parse_to_end(&mut self, depth: u16) -> (r: Result<(), Error>)
        requires
            old(self).wf(),
        ensures
            final(self).wf(),
            final(self).same_input(old(self)),
            depth > RECURSION_LIMIT ==> r is Err && r->Err_0.kind
                == ErrorKind::RecursionLimitExceeded && r->Err_0.position == old(self).pos()
                && final(self).pos() == old(self).pos(),
            r is Err ==> r->Err_0.position == final(self).pos(),
            match scan(old(self).window(), old(self).pos(), depth as int) {
                Ok(q) => r is Ok && final(self).pos() == q,
                Err(k) => r is Err && r->Err_0.kind == k,
            },
        decreases old(self).end() - old(self).pos(),
    {
        if depth > RECURSION_LIMIT {
            return Err(self.error(ErrorKind::RecursionLimitExceeded));
        }
        let ghost s = self.window();
        let ghost start = self.pos();
        loop
            invariant
                self.wf(),
                self.same_input(old(self)),
                s == self.window(),
                s == old(self).window(),
                start == old(self).pos(),
                depth <= RECURSION_LIMIT,
                start <= self.pos(),
                scan(s, start, depth as int) == scan(s, self.pos(), depth as int),
            decreases self.end() - self.pos(),
        {
            if self.is_finished() || self.peek_eoc() {
                assert(scan(s, self.pos(), depth as int) == Ok::<int, ErrorKind>(self.pos()));
                return Ok(());
            }
            let ghost hs = header_at(s, self.pos());
            let (header, e) = match self.peek_header() {
                Ok(he) => he,
                Err(err) => {
                    assert(hs is Err);
                    assert(scan(s, self.pos(), depth as int) == Err::<int, ErrorKind>(err.kind));
                    return Err(err);
                },
            };
            match header.length {
                IndefiniteLength::Indefinite => {
                    let ghost p = self.pos();
                    self.position = e;
                    self.indefinite_value_length_parse_to_end(depth + 1)?;
                    proof {
                        lemma_scan_bounds(s, e as int, depth + 1);
                    }
                    if !self.read_eoc()? {
                        return Err(self.error(ErrorKind::EndOfContent));
                    }
                    assert(self.pos() > p);
                },
                IndefiniteLength::Definite(n) => {
                    if n as usize > self.end - e {
                        return Err(self.error(ErrorKind::Incomplete));
                    }
                    self.position = e + n as usize;
                },
            }
        }
    }

    /// Length of the indefinite-length value whose first octet is at the cursor,
    /// counting its closing end-of-content marker. The cursor is back where it
    /// was when this returns `Ok`.
    pub fn indefinite_value_length(&mut self) -> (r: Result<u32, Error>)
        requires
            old(self).wf(),
        ensures
            final(self).wf(),
            final(self).same_input(old(self)),
            r is Ok ==> {
                let stop = old(self).pos() + r->Ok_0 - 2;
                stop == old(self).end() || eoc_at(old(self).window(), stop)
            },
            match scan(old(self).window(), old(self).pos(), 0) {
                Ok(q) => {
                    &&& q - old(self).pos() + 2 <= MAX_LENGTH ==> r == Ok::<u32, Error>(
                        (q - old(self).pos() + 2) as u32,
                    ) && final(self).pos() == old(self).pos()
                    &&& q - old(self).pos() + 2 > MAX_LENGTH ==> r is Err && r->Err_0.kind
                        == ErrorKind::Overflow
                },
                Err(k) => r is Err && r->Err_0.kind == k,
            },
    {
        let start = self.position;
        self.indefinite_value_length_parse_to_end(0)?;
        proof {
            lemma_scan_bounds(old(self).window(), start as int, 0);
        }
        let length = (self.position - start) as u32;
        let _ = self.rewind(length);
        if length > MAX_LENGTH - 2 {
            return Err(self.error(ErrorKind::Overflow));
        }
        Ok(length + 2)
    }

    /// Length of the value that `header`, read at the cursor's former place,
    /// introduces: its definite length, or under BER the scanned length of an
    /// indefinite value. DER refuses an indefinite length as a `Length` error.
    pub fn value_length(&mut self, header: Header) -> (r: Result<u32, Error>)
        requires
            old(self).wf(),
        ensures
            final(self).wf(),
            final(self).same_input(old(self)),
            header.length is Definite ==> r == Ok::<u32, Error>(header.length->Definite_0)
                && final(self).pos() == old(self).pos(),
            header.length is Indefinite && !old(self).ber() ==> r is Err && r->Err_0.kind == (
            ErrorKind::Length { tag: header.tag }),
            header.length is Indefinite && old(self).ber() ==> match scan(
                old(self).window(),
                old(self).pos(),
                0,
            ) {
                Ok(q) => {
                    &&& q - old(self).pos() + 2 <= MAX_LENGTH ==> r == Ok::<u32, Error>(
                        (q - old(self).pos() + 2) as u32,
                    ) && final(self).pos() == old(self).pos()
                    &&& q - old(self).pos() + 2 > MAX_LENGTH ==> r is Err
                },
                Err(k) => r is Err && r->Err_0.kind == k,
            },
    {
        match header.length {
            IndefiniteLength::Definite(n) => Ok(n),
            IndefiniteLength::Indefinite => {
                if !self.ber {
                    return Err(self.error(ErrorKind::Length { tag: header.tag }));
                }
                self.indefinite_value_length()
            },
        }
    }

    /// The complete encoding of the next value (header, value, and for an
    /// indefinite value everything up to but not including its closing marker),
    /// copied out of the input.
    pub fn tlv_bytes(&mut self) -> (r: Result<Vec<u8>, Error>)
        requires
            old(self).wf(),
        ensures
            final(self).wf(),
            final(self).same_input(old(self)),
            r is Ok ==> old(self).pos() <= final(self).pos() <= old(self).end() && r->Ok_0@
                == old(self).data().subrange(old(self).pos(), final(self).pos()),
            header_at(old(self).window(), old(self).pos()) is Err ==> r is Err,
            (match header_at(old(self).window(), old(self).pos()) {
                Ok((h, e)) => {
                    &&& h.length is Definite ==> (r is Ok <==> e + h.length->Definite_0
                        <= old(self).end()) && (r is Ok ==> final(self).pos() == e
                        + h.length->Definite_0)
                    &&& h.length is Indefinite ==> match scan(old(self).window(), e, 0) {
                        Ok(q) => (r is Ok <==> q - e + 2 <= MAX_LENGTH) && (r is Ok ==> final(self).pos()
                            == q && (q == old(self).end() || eoc_at(old(self).window(), q))),
                        Err(k) => r is Err && r->Err_0.kind == k,
                    }
                },
                Err(_) => true,
            }),
    {
        proof {
            match header_at(old(self).window(), old(self).pos()) {
                Ok((h, e)) => {
                    lemma_scan_bounds(old(self).window(), e, 0);
                },
                Err(_) => {},
            }
        }
        let (header, e) = self.peek_header()?;
        let start = self.position;
        let value_len = match header.length {
            IndefiniteLength::Definite(n) => n,
            IndefiniteLength::Indefinite => {
                self.position = e;
                let l = self.indefinite_value_length()?;
                self.position = start;
                if l < 2 {
                    return Err(self.error(ErrorKind::EndOfContent));
                }
                l - 2
            },
        };
        let header_len = (e - start) as u32;
        if value_len > MAX_LENGTH - header_len {
            return Err(self.error(ErrorKind::Overflow));
        }
        self.read_slice(header_len + value_len)
    }

    /// Reads the header at the cursor and moves past it.
    pub fn read_header(&mut self) -> (r: Result<Header, Error>)
        requires
            old(self).wf(),
        ensures
            final(self).wf(),
            final(self).same_input(old(self)),
            match header_at(old(self).window(), old(self).pos()) {
                Ok((h, e)) => r == Ok::<Header, Error>(h) && final(self).pos() == e,
                Err(k) => r is Err && r->Err_0.kind == k && final(self).pos() == old(self).pos(),
            },
            r is Err ==> r->Err_0.position == final(self).pos(),
    {
        let (h, e) = self.peek_header()?;
        self.position = e;
        Ok(h)
    }

    /// Appends to `out` the DER re-encoding of the elements from the cursor on,
    /// `depth` levels deep, as [`canon`] gives it, and leaves the cursor where
    /// it stops.
    #[verifier::spinoff_prover]
    #[verifier::rlimit(60)]
    pub fn der_elements(&mut self, depth: u16, out: &mut Vec<u8>) -> (r: Result<(), Error>)
        requires
            old(self).wf(),
        ensures
            final(self).wf(),
            final(self).same_input(old(self)),
            match canon(old(self).window(), old(self).pos(), depth as int) {
                Ok((c, q)) => r is Ok && final(self).pos() == q && final(out)@ == old(out)@ + c,
                Err(k) => r is Err && r->Err_0.kind == k,
            },
            r is Err ==> r->Err_0.position == final(self).pos(),
        decreases old(self).end() - old(self).pos(),
    {
        if depth > RECURSION_LIMIT {
            return Err(self.error(ErrorKind::RecursionLimitExceeded));
        }
        let ghost s = self.window();
        let ghost start = self.pos();
        let ghost mut acc: Seq<u8> = Seq::empty();
        proof {
            assert(old(out)@ + acc =~= old(out)@);
        }
        loop
            invariant
                self.wf(),
                self.same_input(old(self)),
                s == self.window(),
                s == old(self).window(),
                start == old(self).pos(),
                depth <= RECURSION_LIMIT,
                start <= self.pos(),
                out@ == old(out)@ + acc,
                match canon(s, self.pos(), depth as int) {
                    Ok((c, q)) => canon(s, start, depth as int) == Ok::<(Seq<u8>, int), ErrorKind>(
                        (acc + c, q),
                    ),
                    Err(k) => canon(s, start, depth as int) == Err::<(Seq<u8>, int), ErrorKind>(k),
                },
            decreases self.end() - self.pos(),
        {
            if self.is_finished() || self.peek_eoc() {
                assert(canon(s, self.pos(), depth as int) == Ok::<(Seq<u8>, int), ErrorKind>(
                    (Seq::empty(), self.pos()),
                ));
                assert(acc + Seq::<u8>::empty() =~= acc);
                return Ok(());
            }
            let ghost p = self.pos();
            let (header, e) = match self.peek_header() {
                Ok(he) => he,
                Err(err) => {
                    return Err(err);
                },
            };
            match header.length {
                IndefiniteLength::Indefinite => {
                    if !header.tag.constructed {
                        let expected = Tag { constructed: true, ..header.tag };
                        return Err(
                            self.error(ErrorKind::UnexpectedTag { expected, actual: header.tag }),
                        );
                    }
                    self.position = e;
                    let mut inner: Vec<u8> = Vec::new();
                    self.der_elements(depth + 1, &mut inner)?;
                    proof {
                        lemma_canon_bounds(s, e as int, depth + 1);
                        assert(inner@ =~= Seq::<u8>::empty() + inner@);
                    }
                    if !self.read_eoc()? {
                        return Err(self.error(ErrorKind::EndOfContent));
                    }
                    if inner.len() > MAX_LENGTH as usize {
                        return Err(self.error(ErrorKind::Overflow));
                    }
                    let h = Header { tag: header.tag, length: IndefiniteLength::Definite(inner.len() as u32) };
                    let ghost before = out@;
                    h.encode(out);
                    let ghost mid = out@;
                    let mut i: usize = 0;
                    while i < inner.len()
                        invariant
                            0 <= i <= inner@.len(),
                            out@ == mid + inner@.subrange(0, i as int),
                        decreases inner@.len() - i,
                    {
                        out.push(inner[i]);
                        proof {
                            assert(inner@.subrange(0, i + 1) =~= inner@.subrange(0, i as int).push(inner@[i as int]));
                            assert(mid + inner@.subrange(0, i + 1) =~= (mid + inner@.subrange(0, i as int)).push(inner@[i as int]));
                        }
                        i = i + 1;
                    }
                    proof {
                        assert(inner@.subrange(0, inner@.len() as int) =~= inner@);
                        let elem = header_octets(header.tag, inner@.len()) + inner@;
                        assert(out@ =~= old(out)@ + (acc + elem));
                        match canon(s, self.pos(), depth as int) {
                            Ok((c, q)) => {
                                assert(acc + (elem + c) =~= (acc + elem) + c);
                            },
                            Err(_) => {},
                        }
                        acc = acc + elem;
                    }
                },
                IndefiniteLength::Definite(n) => {
                    if n as usize > self.end - e {
                        return Err(self.error(ErrorKind::Incomplete));
                    }
                    header.encode(out);
                    let ghost mid = out@;
                    let mut i: usize = e;
                    let stop: usize = e + n as usize;
                    while i < stop
                        invariant
                            e <= i <= stop <= self.bytes@.len(),
                            out@ == mid + self.bytes@.subrange(e as int, i as int),
                        decreases stop - i,
                    {
                        out.push(self.bytes[i]);
                        proof {
                            assert(mid + self.bytes@.subrange(e as int, i + 1) =~= (mid + self.bytes@.subrange(e as int, i as int)).push(self.bytes@[i as int]));
                        }
                        i = i + 1;
                    }
                    self.position = stop;
                    proof {
                        let elem = header_octets(header.tag, n as nat) + s.subrange(e as int, e + n);
                        assert(s.subrange(e as int, e + n) =~= self.bytes@.subrange(e as int, e + n));
                        assert(out@ =~= old(out)@ + (acc + elem));
                        match canon(s, self.pos(), depth as int) {
                            Ok((c, q)) => {
                                assert(acc + (elem + c) =~= (acc + elem) + c);
                            },
                            Err(_) => {},
                        }
                        acc = acc + elem;
                    }
                },
            }
        }
    }

    /// Opens a constructed value with tag `expected`: reads its header, checks
    /// the tag, and narrows the window to its value (for an indefinite value, up
    /// to and including its closing marker), as [`tagged_at`] gives it. Returns
    /// the end of the window it replaces, which [`Reader::leave_nested`]
    /// restores.
    pub fn enter_tagged(&mut self, expected: Tag) -> (r: Result<usize, Error>)
        requires
            old(self).wf(),
        ensures
            final(self).wf(),
            final(self).data() == old(self).data(),
            final(self).ber() == old(self).ber(),
            match tagged_at(old(self).window(), old(self).pos(), expected, old(self).ber()) {
                Ok((e, w)) => r == Ok::<usize, Error>(old(self).end() as usize) && final(self).pos()
                    == e && final(self).end() == w,
                Err(k) => r is Err && r->Err_0.kind == k,
            },
    {
        proof {
            lemma_scan_bounds(old(self).window(), old(self).pos(), 0);
        }
        let (header, e) = self.peek_header()?;
        if header.tag != expected {
            return Err(self.error(ErrorKind::UnexpectedTag { expected, actual: header.tag }));
        }
        self.position = e;
        proof {
            lemma_scan_bounds(old(self).window(), e as int, 0);
        }
        let length = self.value_length(header)?;
        self.enter_nested(length)
    }

    /// Opens a `SEQUENCE`, as [`Reader::enter_tagged`] does.
    pub fn sequence(&mut self) -> (r: Result<usize, Error>)
        requires
            old(self).wf(),
        ensures
            final(self).wf(),
            final(self).data() == old(self).data(),
            final(self).ber() == old(self).ber(),
            match tagged_at(old(self).window(), old(self).pos(), Tag::sequence(), old(self).ber()) {
                Ok((e, w)) => r == Ok::<usize, Error>(old(self).end() as usize) && final(self).pos()
                    == e && final(self).end() == w,
                Err(k) => r is Err && r->Err_0.kind == k,
            },
    {
        self.enter_tagged(tag_sequence())
    }
}

/// Where the value of the constructed element with tag `tag` at `pos` of the
/// window `s` starts, and where the window for it ends: after its definite
/// length, or under BER after the closing marker that [`scan`] finds.
pub open spec fn tagged_at(s: Seq<u8>, pos: int, tag: Tag, ber: bool) -> Result<(int, int), ErrorKind> {
    match header_at(s, pos) {
        Err(k) => Err(k),
        Ok((h, e)) => {
            if h.tag != tag {
                Err(ErrorKind::UnexpectedTag { expected: tag, actual: h.tag })
            } else {
                match h.length {
                    IndefiniteLength::Definite(n) => {
                        if n > s.len() - e {
                            Err(ErrorKind::Incomplete)
                        } else {
                            Ok((e, e + n))
                        }
                    },
                    IndefiniteLength::Indefinite => {
                        if !ber {
                            Err(ErrorKind::Length { tag: h.tag })
                        } else {
                            match scan(s, e, 0) {
                                Err(k) => Err(k),
                                Ok(q) => {
                                    if q - e + 2 > MAX_LENGTH {
                                        Err(ErrorKind::Overflow)
                                    } else if q + 2 > s.len() {
                                        Err(ErrorKind::Incomplete)
                                    } else {
                                        Ok((e, q + 2))
                                    }
                                },
                            }
                        }
                    },
                }
            }
        },
    }
}

/// Whether a read that stopped at `pos` drains the window `s`: it stands at
/// the end, or under BER right before a final end-of-content marker.
pub open spec fn drained(s: Seq<u8>, pos: int, ber: bool) -> bool {
    pos == s.len() || (ber && eoc_at(s, pos) && pos + 2 == s.len())
}

} // verus!
