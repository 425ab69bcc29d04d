use vstd::prelude::*;
use core::cmp::Ordering;
use crate::error::{Error, ErrorKind};
use crate::any::{
    any_at, lemma_any_round_trip, lemma_any_at_octets, lemma_any_reencode, lemma_tagged_at_octets, parse_any, shortest_header,
    tlv_octets, Any,
};
use crate::header::{header_at, header_octets, lemma_tag_at_octets, Header, IndefiniteLength, Tag, MAX_LENGTH};
use crate::reader::{drained, eoc_at, tagged_at, Reader};

verus! {

/// Lexicographic order on octet strings; a proper prefix comes first.
pub open spec fn lex_lt(a: Seq<u8>, b: Seq<u8>) -> bool
    decreases a.len(),
{
    if a.len() == 0 {
        b.len() > 0
    } else if b.len() == 0 {
        false
    } else if a[0] != b[0] {
        a[0] < b[0]
    } else {
        lex_lt(a.drop_first(), b.drop_first())
    }
}

pub proof fn lemma_lex_irreflexive(a: Seq<u8>)
    ensures
        !lex_lt(a, a),
    decreases a.len(),
{
    if a.len() > 0 {
        lemma_lex_irreflexive(a.drop_first());
    }
}

pub proof fn lemma_lex_asymmetric(a: Seq<u8>, b: Seq<u8>)
    ensures
        !(lex_lt(a, b) && lex_lt(b, a)),
    decreases a.len(),
{
    if a.len() > 0 && b.len() > 0 && a[0] == b[0] {
        lemma_lex_asymmetric(a.drop_first(), b.drop_first());
    }
}

pub proof fn lemma_lex_total(a: Seq<u8>, b: Seq<u8>)
    ensures
        a != b ==> lex_lt(a, b) || lex_lt(b, a),
    decreases a.len(),
{
    if a.len() > 0 && b.len() > 0 && a[0] == b[0] {
        lemma_lex_total(a.drop_first(), b.drop_first());
        if a.drop_first() == b.drop_first() {
            assert(a =~= seq![a[0]] + a.drop_first());
            assert(b =~= seq![b[0]] + b.drop_first());
        }
    } else if a.len() == 0 && b.len() == 0 {
        assert(a =~= b);
    }
}

pub proof fn lemma_lex_transitive(a: Seq<u8>, b: Seq<u8>, c: Seq<u8>)
    requires
        lex_lt(a, b),
        lex_lt(b, c),
    ensures
        lex_lt(a, c),
    decreases a.len(),
{
    if a.len() > 0 && b.len() > 0 && c.len() > 0 && a[0] == b[0] && b[0] == c[0] {
        lemma_lex_transitive(a.drop_first(), b.drop_first(), c.drop_first());
    }
}

/// Compares two octet strings in the order of [`lex_lt`].
pub fn der_cmp(a: &[u8], b: &[u8]) -> (r: Ordering)
    ensures
        (r == Ordering::Less) == lex_lt(a@, b@),
        (r == Ordering::Equal) == (a@ == b@),
        (r == Ordering::Greater) == lex_lt(b@, a@),
{
    let mut i: usize = 0;
    proof {
        assert(a@.subrange(0, a@.len() as int) =~= a@);
        assert(b@.subrange(0, b@.len() as int) =~= b@);
    }
    while i < a.len() && i < b.len() && a[i] == b[i]
        invariant
            0 <= i <= a@.len(),
            i <= b@.len(),
            a@.subrange(0, i as int) == b@.subrange(0, i as int),
            lex_lt(a@, b@) == lex_lt(a@.subrange(i as int, a@.len() as int), b@.subrange(i as int, b@.len() as int)),
            lex_lt(b@, a@) == lex_lt(b@.subrange(i as int, b@.len() as int), a@.subrange(i as int, a@.len() as int)),
        decreases a@.len() - i,
    {
        proof {
            assert(a@.subrange(i as int, a@.len() as int).drop_first() =~= a@.subrange(i + 1, a@.len() as int));
            assert(b@.subrange(i as int, b@.len() as int).drop_first() =~= b@.subrange(i + 1, b@.len() as int));
            assert(a@.subrange(0, i + 1) =~= a@.subrange(0, i as int).push(a@[i as int]));
            assert(b@.subrange(0, i + 1) =~= b@.subrange(0, i as int).push(b@[i as int]));
        }
        i = i + 1;
    }
    proof {
        lemma_lex_irreflexive(a@);
        lemma_lex_asymmetric(a@, b@);
        lemma_lex_total(a@, b@);
        if i == a@.len() && i == b@.len() {
            assert(a@ =~= a@.subrange(0, i as int));
            assert(b@ =~= b@.subrange(0, i as int));
        }
    }
    if i < a.len() && i < b.len() {
        if a[i] < b[i] {
            Ordering::Less
        } else {
            Ordering::Greater
        }
    } else if i < b.len() {
        Ordering::Less
    } else if i < a.len() {
        Ordering::Greater
    } else {
        Ordering::Equal
    }
}

/// Strictly ascending in the order of [`lex_lt`].
pub open spec fn sorted(s: Seq<Seq<u8>>) -> bool {
    forall|i: int, j: int| 0 <= i < j < s.len() ==> lex_lt(#[trigger] s[i], #[trigger] s[j])
}

/// The octets of the elements, one after the other.
pub open spec fn concat(s: Seq<Seq<u8>>) -> Seq<u8>
    decreases s.len(),
{
    if s.len() == 0 {
        Seq::empty()
    } else {
        concat(s.drop_last()) + s.last()
    }
}

/// The DER encoding of a `SET OF` (or of an implicitly tagged one) whose
/// element encodings are `s`, in the order given.
pub open spec fn set_octets(tag: Tag, s: Seq<Seq<u8>>) -> Seq<u8> {
    header_octets(tag, concat(s).len()) + concat(s)
}

/// A `SET OF` held as the DER encodings of its elements, kept strictly
/// ascending so that the set is emitted in canonical order.
#[derive(Clone, Debug, PartialEq, Eq)]
pub struct SetOfVec {
    elements: Vec<Vec<u8>>,
}

/// Two strictly ascending sequences with the same elements are the same.
pub proof fn lemma_sorted_unique(a: Seq<Seq<u8>>, b: Seq<Seq<u8>>)
    requires
        sorted(a),
        sorted(b),
        a.to_set() == b.to_set(),
    ensures
        a == b,
    decreases a.len(),
{
    if a.len() == 0 {
        if b.len() > 0 {
            assert(b.to_set().contains(b[0]));
        }
        assert(a =~= b);
    } else {
        assert(a.to_set().contains(a[0]));
        assert(b.len() > 0);
        assert(b.to_set().contains(b[0]));
        let i = choose|i: int| 0 <= i < a.len() && a[i] == b[0];
        let j = choose|j: int| 0 <= j < b.len() && b[j] == a[0];
        if a[0] != b[0] {
            assert(i > 0 && j > 0);
            assert(lex_lt(a[0], a[i]));
            assert(lex_lt(b[0], b[j]));
            lemma_lex_asymmetric(a[0], b[0]);
        }
        let a1 = a.drop_first();
        let b1 = b.drop_first();
        assert forall|x: Seq<u8>| a1.to_set().contains(x) implies b1.to_set().contains(x) by {
            let k = choose|k: int| 0 <= k < a1.len() && a1[k] == x;
            assert(a.to_set().contains(x));
            assert(a[k + 1] == x);
            lemma_lex_irreflexive(x);
            let m = choose|m: int| 0 <= m < b.len() && b[m] == x;
            assert(m != 0);
            assert(b1[m - 1] == x);
        }
        assert forall|x: Seq<u8>| b1.to_set().contains(x) implies a1.to_set().contains(x) by {
            let k = choose|k: int| 0 <= k < b1.len() && b1[k] == x;
            assert(b.to_set().contains(x));
            assert(b[k + 1] == x);
            lemma_lex_irreflexive(x);
            let m = choose|m: int| 0 <= m < a.len() && a[m] == x;
            assert(m != 0);
            assert(a1[m - 1] == x);
        }
        assert(a1.to_set() =~= b1.to_set());
        lemma_sorted_unique(a1, b1);
        assert(a =~= seq![a[0]] + a1);
        assert(b =~= seq![b[0]] + b1);
    }
}

/// Whether `x` is exactly one value written as DER writes it, no longer than
/// [`MAX_LENGTH`].
pub open spec fn der_value(x: Seq<u8>) -> bool {
    x.len() <= MAX_LENGTH && parse_any(x) is Some && shortest_header(x)
}

/// Checks that `x` is exactly one DER value: it must decode under DER and
/// encode back to the same octets.
pub fn check_der_value(x: &Vec<u8>) -> (r: Result<(), Error>)
    ensures
        r is Ok <==> der_value(x@),
{
    let mut copy: Vec<u8> = Vec::new();
    crate::any::append(&mut copy, x.as_slice());
    assert(copy@ =~= x@);
    let a = match Any::from_der(copy) {
        Ok(a) => a,
        Err(e) => {
            return Err(e);
        },
    };
    let mut enc: Vec<u8> = Vec::new();
    a.encode(&mut enc)?;
    assert(enc@ =~= tlv_octets(a.tag, a.value@));
    proof {
        lemma_any_round_trip(a.tag, a.value@);
        if der_value(x@) {
            lemma_any_reencode(x@);
        }
    }
    if !matches!(der_cmp(enc.as_slice(), x.as_slice()), Ordering::Equal) {
        return Err(ErrorKind::Overlength.at(0));
    }
    Ok(())
}

impl SetOfVec {
    /// The element encodings, ascending.
    pub closed spec fn elems(&self) -> Seq<Seq<u8>> {
        self.elements@.map_values(|v: Vec<u8>| v@)
    }

    pub open spec fn wf(&self) -> bool {
        sorted(self.elems()) && der_elements(self.elems())
    }

    /// The empty set.
    pub fn new() -> (r: SetOfVec)
        ensures
            r.wf(),
            r.elems() == Seq::<Seq<u8>>::empty(),
    {
        let r = SetOfVec { elements: Vec::new() };
        assert(r.elems() =~= Seq::<Seq<u8>>::empty());
        r
    }

    /// Number of elements.
    pub fn len(&self) -> (r: usize)
        ensures
            r == self.elems().len(),
    {
        self.elements.len()
    }

    /// The encoding of the `i`-th element in ascending order.
    pub fn get(&self, i: usize) -> (r: &Vec<u8>)
        requires
            i < self.elems().len(),
        ensures
            r@ == self.elems()[i as int],
    {
        &self.elements[i]
    }

    /// Adds an element given by its DER encoding. It must be exactly one DER
    /// value; an element with the same encoding already present is refused with
    /// `DuplicateElement`. A refused element leaves the set as it was.
    #[verifier::spinoff_prover]
    #[verifier::rlimit(100)]
    pub fn insert(&mut self, elem: Vec<u8>) -> (r: Result<(), Error>)
        requires
            old(self).wf(),
        ensures
            final(self).wf(),
            (der_value(elem@) && !old(self).elems().contains(elem@)) <==> r is Ok,
            der_value(elem@) && old(self).elems().contains(elem@) ==> r->Err_0.kind
                == ErrorKind::DuplicateElement,
            r is Err ==> final(self).elems() == old(self).elems(),
            r is Ok ==> final(self).elems().to_set() == old(self).elems().to_set().insert(elem@)
                && final(self).elems().len() == old(self).elems().len() + 1,
    {
        check_der_value(&elem)?;
        let ghost old_e = self.elems();
        let mut i: usize = 0;
        while i < self.elements.len() && matches!(
            der_cmp(self.elements[i].as_slice(), elem.as_slice()),
            Ordering::Less
        )
            invariant
                0 <= i <= self.elements@.len(),
                self.elems() == old_e,
                sorted(old_e),
                forall|k: int| 0 <= k < i ==> lex_lt(#[trigger] old_e[k], elem@),
            decreases self.elements@.len() - i,
        {
            i = i + 1;
        }
        if i < self.elements.len() && matches!(
            der_cmp(self.elements[i].as_slice(), elem.as_slice()),
            Ordering::Equal
        ) {
            proof {
                assert(old_e[i as int] == elem@);
            }
            return Err(ErrorKind::DuplicateElement.at(0));
        }
        proof {
            if i < old_e.len() {
                lemma_lex_total(old_e[i as int], elem@);
                assert(lex_lt(elem@, old_e[i as int]));
                assert forall|k: int| i < k < old_e.len() implies lex_lt(elem@, #[trigger] old_e[k]) by {
                    lemma_lex_transitive(elem@, old_e[i as int], old_e[k]);
                }
            }
            assert forall|k: int| 0 <= k < old_e.len() implies old_e[k] != elem@ by {
                if k < i {
                    lemma_lex_irreflexive(elem@);
                } else {
                    lemma_lex_irreflexive(elem@);
                }
            }
        }
        self.elements.insert(i, elem);
        proof {
            let ne = self.elems();
            assert(ne =~= old_e.insert(i as int, elem@));
            assert forall|a: int, b: int| 0 <= a < b < ne.len() implies lex_lt(
                #[trigger] ne[a],
                #[trigger] ne[b],
            ) by {
                if a < i && b == i {
                } else if a < i && b > i {
                    assert(ne[b] == old_e[b - 1]);
                } else if a == i {
                    assert(ne[b] == old_e[b - 1]);
                } else if a > i {
                    assert(ne[a] == old_e[a - 1]);
                    assert(ne[b] == old_e[b - 1]);
                }
            }
            assert(!old_e.contains(elem@));
            assert forall|x: Seq<u8>| ne.to_set().contains(x) <==> old_e.to_set().insert(elem@).contains(x) by {
                if ne.to_set().contains(x) {
                    let k = choose|k: int| 0 <= k < ne.len() && ne[k] == x;
                    if k < i {
                        assert(old_e[k] == x);
                    } else if k > i {
                        assert(old_e[k - 1] == x);
                    }
                }
                if old_e.to_set().contains(x) {
                    let k = choose|k: int| 0 <= k < old_e.len() && old_e[k] == x;
                    if k < i {
                        assert(ne[k] == x);
                    } else {
                        assert(ne[k + 1] == x);
                    }
                }
                if x == elem@ {
                    assert(ne[i as int] == x);
                }
            }
            assert(ne.to_set() =~= old_e.to_set().insert(elem@));
        }
        Ok(())
    }

    /// A set made of the given element encodings, in whatever order they come;
    /// `DuplicateElement` when two of them are equal.
    pub fn try_from_vec(v: Vec<Vec<u8>>) -> (r: Result<SetOfVec, Error>)
        ensures
            r is Ok ==> r->Ok_0.wf() && r->Ok_0.elems().to_set() == v@.map_values(
                |x: Vec<u8>| x@,
            ).to_set() && r->Ok_0.elems().len() == v@.len(),
            r is Err <==> (exists|i: int, j: int|
                0 <= i < j < v@.len() && (#[trigger] v@[i])@ == (#[trigger] v@[j])@) || (exists|
                i: int,
            |
                0 <= i < v@.len() && !der_value((#[trigger] v@[i])@)),
            (forall|i: int| 0 <= i < v@.len() ==> der_value((#[trigger] v@[i])@)) && r is Err
                ==> r->Err_0.kind == ErrorKind::DuplicateElement,
    {
        let ghost vs = v@.map_values(|x: Vec<u8>| x@);
        let mut s = SetOfVec::new();
        let mut i: usize = 0;
        proof {
            assert(vs.subrange(0, 0).to_set() =~= Set::<Seq<u8>>::empty());
            assert(s.elems().to_set() =~= Set::<Seq<u8>>::empty());
        }
        while i < v.len()
            invariant
                0 <= i <= v@.len(),
                vs == v@.map_values(|x: Vec<u8>| x@),
                s.wf(),
                s.elems().to_set() == vs.subrange(0, i as int).to_set(),
                s.elems().len() == i,
                forall|a: int, b: int| 0 <= a < b < i ==> (#[trigger] v@[a])@ != (#[trigger] v@[b])@,
                forall|a: int| 0 <= a < i ==> der_value((#[trigger] v@[a])@),
            decreases v@.len() - i,
        {
            let e = v[i].clone();
            let ghost before = s.elems();
            match s.insert(e) {
                Ok(()) => {},
                Err(err) => {
                    proof {
                        if der_value(v@[i as int]@) {
                            assert(before.contains(v@[i as int]@));
                            assert(before.to_set().contains(v@[i as int]@));
                            let m = choose|m: int|
                                0 <= m < i && vs.subrange(0, i as int)[m] == v@[i as int]@;
                            assert(v@[m]@ == v@[i as int]@);
                        }
                    }
                    return Err(err);
                },
            }
            proof {
                assert(vs.subrange(0, i + 1) =~= vs.subrange(0, i as int).push(vs[i as int]));
                vs.subrange(0, i as int).lemma_push_to_set_commute(vs[i as int]);
                assert forall|a: int| 0 <= a < i implies (#[trigger] v@[a])@ != v@[i as int]@ by {
                    if v@[a]@ == v@[i as int]@ {
                        assert(vs.subrange(0, i as int)[a] == v@[a]@);
                        assert(vs.subrange(0, i as int).to_set().contains(v@[a]@));
                    }
                }
            }
            i = i + 1;
        }
        proof {
            assert(vs.subrange(0, i as int) =~= vs);
        }
        Ok(s)
    }

    /// Number of value octets: the element encodings together; `Overflow` past
    /// [`MAX_LENGTH`].
    pub fn value_len(&self) -> (r: Result<u32, Error>)
        ensures
            concat(self.elems()).len() <= MAX_LENGTH <==> r is Ok,
            r is Ok ==> r->Ok_0 == concat(self.elems()).len(),
            r is Err ==> r->Err_0.kind == ErrorKind::Overflow,
    {
        let mut total: u32 = 0;
        let mut i: usize = 0;
        proof {
            assert(self.elems().subrange(0, 0) =~= Seq::<Seq<u8>>::empty());
        }
        while i < self.elements.len()
            invariant
                0 <= i <= self.elems().len(),
                self.elems().len() == self.elements@.len(),
                total == concat(self.elems().subrange(0, i as int)).len(),
                total <= MAX_LENGTH,
            decreases self.elems().len() - i,
        {
            proof {
                let s = self.elems();
                assert(s.subrange(0, i + 1).drop_last() =~= s.subrange(0, i as int));
                lemma_concat_prefix(s, i as int);
            }
            let l = self.elements[i].len();
            if l > (MAX_LENGTH - total) as usize {
                proof {
                    lemma_concat_grows(self.elems(), i + 1);
                }
                return Err(ErrorKind::Overflow.at(0));
            }
            total = total + l as u32;
            i = i + 1;
        }
        proof {
            assert(self.elems().subrange(0, i as int) =~= self.elems());
        }
        Ok(total)
    }

    /// Appends the encoding under `tag`: the header, then the elements in
    /// ascending order.
    pub fn encode_with_tag(&self, tag: Tag, out: &mut Vec<u8>) -> (r: Result<(), Error>)
        requires
            tag.wf(),
        ensures
            concat(self.elems()).len() <= MAX_LENGTH <==> r is Ok,
            r is Ok ==> final(out)@ == old(out)@ + set_octets(tag, self.elems()),
            r is Err ==> r->Err_0.kind == ErrorKind::Overflow,
    {
        let n = self.value_len()?;
        let h = Header { tag, length: IndefiniteLength::Definite(n) };
        h.encode(out);
        let ghost mid = out@;
        let mut i: usize = 0;
        proof {
            assert(self.elems().subrange(0, 0) =~= Seq::<Seq<u8>>::empty());
            assert(mid + concat(Seq::<Seq<u8>>::empty()) =~= mid);
        }
        while i < self.elements.len()
            invariant
                0 <= i <= self.elems().len(),
                self.elems().len() == self.elements@.len(),
                out@ == mid + concat(self.elems().subrange(0, i as int)),
            decreases self.elems().len() - i,
        {
            let e = &self.elements[i];
            let ghost before = out@;
            let mut j: usize = 0;
            while j < e.len()
                invariant
                    0 <= j <= e@.len(),
                    out@ == before + e@.subrange(0, j as int),
                decreases e@.len() - j,
            {
                out.push(e[j]);
                proof {
                    assert(before + e@.subrange(0, j + 1) =~= (before + e@.subrange(0, j as int)).push(e@[j as int]));
                }
                j = j + 1;
            }
            proof {
                let s = self.elems();
                assert(e@.subrange(0, e@.len() as int) =~= e@);
                assert(s[i as int] == e@);
                assert(s.subrange(0, i + 1).drop_last() =~= s.subrange(0, i as int));
                assert(out@ =~= mid + concat(s.subrange(0, i + 1)));
            }
            i = i + 1;
        }
        proof {
            assert(self.elems().subrange(0, i as int) =~= self.elems());
            assert(out@ =~= old(out)@ + set_octets(tag, self.elems()));
        }
        Ok(())
    }
}

/// The DER encodings of the elements from `pos` of the window `s` up to its
/// end (or, under BER, an end-of-content marker), and where they stop.
pub open spec fn elements_at(s: Seq<u8>, pos: int, ber: bool) -> Option<(Seq<Seq<u8>>, int)>
    decreases s.len() - pos,
{
    if pos < 0 || pos >= s.len() || (ber && eoc_at(s, pos)) {
        Some((Seq::empty(), pos))
    } else {
        match any_at(s, pos, ber) {
            Err(_) => None,
            Ok((t, v, q)) => {
                if q <= pos || tlv_octets(t, v).len() > MAX_LENGTH {
                    None
                } else {
                    match elements_at(s, q, ber) {
                        None => None,
                        Some((rest, q2)) => Some((seq![tlv_octets(t, v)] + rest, q2)),
                    }
                }
            },
        }
    }
}

/// No element occurs twice.
pub open spec fn distinct(l: Seq<Seq<u8>>) -> bool {
    forall|i: int, j: int| 0 <= i < j < l.len() ==> l[i] != l[j]
}

/// The elements of the `SET OF` with tag `tag` at `pos` of the window `s`,
/// in the order they were written, and where its window ends.
#[verifier::opaque]
pub open spec fn set_of_at(s: Seq<u8>, pos: int, tag: Tag, ber: bool) -> Option<(Seq<Seq<u8>>, int)> {
    match tagged_at(s, pos, tag, ber) {
        Err(_) => None,
        Ok((e, w)) => match elements_at(s.subrange(0, w), e, ber) {
            None => None,
            Some((l, q)) => if drained(s.subrange(0, w), q, ber) {
                Some((l, w))
            } else {
                None
            },
        },
    }
}

impl SetOfVec {
    /// Reads the elements from the cursor to the end of the window (or, under
    /// BER, to an end-of-content marker) into a set; `DuplicateElement` when
    /// two encodings are equal.
    #[verifier::spinoff_prover]
    #[verifier::rlimit(100)]
    pub fn decode_elements(r: &mut Reader) -> (res: Result<SetOfVec, Error>)
        requires
            old(r).wf(),
        ensures
            final(r).wf(),
            final(r).same_input(old(r)),
            match elements_at(old(r).window(), old(r).pos(), old(r).ber()) {
                Some((l, q)) => (res is Ok <==> distinct(l)) && (res is Ok ==> res->Ok_0.wf()
                    && res->Ok_0.elems().to_set() == l.to_set() && final(r).pos() == q),
                None => res is Err,
            },
    {
        let ghost s = r.window();
        let ghost start = r.pos();
        let ghost ber = r.ber();
        let ghost mut acc: Seq<Seq<u8>> = Seq::empty();
        let mut set = SetOfVec::new();
        proof {
            assert(acc.to_set() =~= Set::<Seq<u8>>::empty());
            assert(set.elems().to_set() =~= Set::<Seq<u8>>::empty());
        }
        loop
            invariant
                r.wf(),
                r.same_input(old(r)),
                s == r.window(),
                s == old(r).window(),
                start == old(r).pos(),
                ber == r.ber(),
                ber == old(r).ber(),
                set.wf(),
                set.elems().to_set() == acc.to_set(),
                distinct(acc),
                match elements_at(s, r.pos(), ber) {
                    Some((l, q)) => elements_at(s, start, ber) == Some((acc + l, q)),
                    None => elements_at(s, start, ber) is None,
                },
            decreases r.end() - r.pos(),
        {
            if r.is_finished() || (r.is_parsing_ber() && r.peek_eoc()) {
                assert(acc + Seq::<Seq<u8>>::empty() =~= acc);
                return Ok(set);
            }
            let p = r.pos_usize();
            let a = Any::decode(r)?;
            let ghost q = r.pos();
            if r.pos_usize() <= p {
                return Err(r.error(ErrorKind::Incomplete));
            }
            let mut enc: Vec<u8> = Vec::new();
            a.encode(&mut enc)?;
            assert(enc@ =~= tlv_octets(a.tag, a.value@));
            if enc.len() > MAX_LENGTH as usize {
                return Err(ErrorKind::Overflow.at(0));
            }
            proof {
                lemma_any_round_trip(a.tag, a.value@);
            }
            let ghost e = enc@;
            let ghost before = set.elems();
            match set.insert(enc) {
                Ok(()) => {},
                Err(err) => {
                    proof {
                        match elements_at(s, q, ber) {
                            Some((rest, q2)) => {
                                let l = seq![e] + rest;
                                assert(before.to_set().contains(e));
                                assert(acc.to_set().contains(e));
                                assert(acc.contains(e));
                                assert((acc + l)[acc.len() as int] == e);
                                if distinct(acc + l) {
                                    assert forall|k: int| 0 <= k < acc.len() implies acc[k] != e by {
                                        assert((acc + l)[k] == acc[k]);
                                    }
                                }
                                assert(!distinct(acc + l));
                            },
                            None => {},
                        }
                    }
                    return Err(err);
                },
            }
            proof {
                if acc.contains(e) {
                    assert(acc.to_set().contains(e));
                    assert(before.to_set().contains(e));
                }
                assert(!acc.contains(e));
                match elements_at(s, q, ber) {
                    Some((rest, q2)) => {
                        assert(acc + (seq![e] + rest) =~= acc.push(e) + rest);
                    },
                    None => {},
                }
                acc.lemma_push_to_set_commute(e);
                assert forall|i: int, j: int| 0 <= i < j < acc.push(e).len() implies acc.push(e)[i]
                    != acc.push(e)[j] by {
                    if j == acc.len() {
                        assert(acc.contains(acc[i]));
                    }
                }
                acc = acc.push(e);
            }
        }
    }

    /// Reads a `SET OF` whose tag is `tag`, as [`set_of_at`] describes.
    pub fn decode_tagged(r: &mut Reader, tag: Tag) -> (res: Result<SetOfVec, Error>)
        requires
            old(r).wf(),
        ensures
            final(r).wf(),
            final(r).data() == old(r).data(),
            res is Ok ==> final(r).same_input(old(r)),
            match set_of_at(old(r).window(), old(r).pos(), tag, old(r).ber()) {
                Some((l, w)) => (res is Ok <==> distinct(l)) && (res is Ok ==> res->Ok_0.wf()
                    && res->Ok_0.elems().to_set() == l.to_set() && final(r).pos() == w),
                None => res is Err,
            },
    {
        reveal(set_of_at);
        let ghost s = old(r).window();
        let outer = r.enter_tagged(tag)?;
        proof {
            assert(r.window() =~= s.subrange(0, r.end()));
        }
        let set = SetOfVec::decode_elements(r)?;
        r.leave_nested(outer)?;
        Ok(set)
    }
}

proof fn lemma_concat_prefix(s: Seq<Seq<u8>>, i: int)
    requires
        0 <= i < s.len(),
    ensures
        concat(s.subrange(0, i + 1)) == concat(s.subrange(0, i)) + s[i],
{
    assert(s.subrange(0, i + 1).drop_last() =~= s.subrange(0, i));
}

proof fn lemma_concat_grows(s: Seq<Seq<u8>>, i: int)
    requires
        0 <= i <= s.len(),
    ensures
        concat(s.subrange(0, i)).len() <= concat(s).len(),
    decreases s.len() - i,
{
    if i < s.len() {
        lemma_concat_prefix(s, i);
        lemma_concat_grows(s, i + 1);
    } else {
        assert(s.subrange(0, i) =~= s);
    }
}

/// Two well-formed sets with the same elements have the same encoding, in
/// whatever order the elements were inserted.
pub proof fn lemma_set_of_canonical(a: SetOfVec, b: SetOfVec, tag: Tag)
    requires
        a.wf(),
        b.wf(),
        a.elems().to_set() == b.elems().to_set(),
    ensures
        a.elems() == b.elems(),
        set_octets(tag, a.elems()) == set_octets(tag, b.elems()),
{
    lemma_sorted_unique(a.elems(), b.elems());
}

/// Every element is one value written as DER writes it.
pub open spec fn der_elements(e: Seq<Seq<u8>>) -> bool {
    forall|i: int| 0 <= i < e.len() ==> der_value(#[trigger] e[i])
}

proof fn lemma_concat_first(e: Seq<Seq<u8>>)
    requires
        e.len() > 0,
    ensures
        concat(e) == e[0] + concat(e.drop_first()),
    decreases e.len(),
{
    if e.len() == 1 {
        assert(e.drop_first() =~= Seq::<Seq<u8>>::empty());
        assert(e.drop_last() =~= Seq::<Seq<u8>>::empty());
        assert(concat(Seq::<Seq<u8>>::empty()) == Seq::<u8>::empty());
        assert(concat(e.drop_last()) == Seq::<u8>::empty());
        assert(concat(e) =~= e[0]);
        assert(e[0] + concat(e.drop_first()) =~= e[0]);
    } else {
        lemma_concat_first(e.drop_last());
        assert(e.drop_last().drop_first() =~= e.drop_first().drop_last());
        assert(e.drop_first().last() == e.last());
        assert(concat(e) =~= e[0] + concat(e.drop_first()));
    }
}

/// A DER element, read back: its tag and value, and the element is their
/// encoding.
proof fn lemma_der_element(x: Seq<u8>)
    requires
        parse_any(x) is Some,
        shortest_header(x),
    ensures
        ({
            let (t, v) = parse_any(x)->Some_0;
            t.wf() && v.len() <= MAX_LENGTH && x == tlv_octets(t, v)
        }),
{
    lemma_any_reencode(x);
    lemma_tag_at_octets(x, 0);
    let (h, e) = header_at(x, 0)->Ok_0;
    let (t, v) = parse_any(x)->Some_0;
    assert(v.len() == h.length->Definite_0);
}

/// DER elements written one after the other, up to the end of the window,
/// read back as the same elements.
#[verifier::spinoff_prover]
#[verifier::rlimit(100)]
pub proof fn lemma_elements_at_octets(p: Seq<u8>, e: Seq<Seq<u8>>)
    requires
        der_elements(e),
    ensures
        elements_at(p + concat(e), p.len() as int, false) == Some((e, (p + concat(e)).len() as int)),
    decreases e.len(),
{
    let s = p + concat(e);
    if e.len() == 0 {
        assert(concat(e) =~= Seq::<u8>::empty());
        assert(e =~= Seq::<Seq<u8>>::empty());
    } else {
        lemma_concat_first(e);
        let x = e[0];
        lemma_der_element(x);
        let (t, v) = parse_any(x)->Some_0;
        let rest = e.drop_first();
        assert(s =~= p + x + concat(rest));
        lemma_any_at_octets(p, t, v, concat(rest), false);
        assert(der_elements(rest)) by {
            assert forall|i: int| 0 <= i < rest.len() implies parse_any(#[trigger] rest[i]) is Some
                && shortest_header(rest[i]) by {
                assert(rest[i] == e[i + 1]);
            }
        }
        lemma_elements_at_octets(p + x, rest);
        assert(s =~= (p + x) + concat(rest));
        let q = (p.len() + x.len()) as int;
        assert(s =~= p + tlv_octets(t, v) + concat(rest));
        assert(any_at(s, p.len() as int, false) == Ok::<(Tag, Seq<u8>, int), ErrorKind>((t, v, q)));
        assert(elements_at(s, q, false) == Some((rest, s.len() as int)));
        assert(x.len() > 0);
        assert(seq![tlv_octets(t, v)] + rest =~= e);
    }
}

/// A `SET OF` of DER elements, written as DER writes it, reads back as the
/// same elements.
pub proof fn lemma_set_of_at_octets(p: Seq<u8>, tag: Tag, e: Seq<Seq<u8>>, rest: Seq<u8>)
    requires
        tag.wf(),
        der_elements(e),
        concat(e).len() <= MAX_LENGTH,
    ensures
        set_of_at(p + set_octets(tag, e) + rest, p.len() as int, tag, false) == Some(
            (e, (p.len() + set_octets(tag, e).len()) as int),
        ),
{
    reveal(set_of_at);
    let s = p + set_octets(tag, e) + rest;
    let h = header_octets(tag, concat(e).len());
    lemma_tagged_at_octets(p, tag, concat(e), rest, false);
    let w = p.len() + set_octets(tag, e).len();
    assert(s.subrange(0, w as int) =~= (p + h) + concat(e));
    lemma_elements_at_octets(p + h, e);
}

} // verus!
