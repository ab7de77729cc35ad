//! Keys and tag terms as a query hands them in.
use vstd::prelude::*;
use vstd::string::*;

use crate::text::bytes_equal;

verus! {

/// A borrowed key handed in by the caller, as raw UTF-8 bytes; `None` stands
/// for a null pointer.
#[derive(Clone, Copy, Debug)]
pub struct OsmflatStrRef<'a> {
    pub bytes: Option<&'a [u8]>,
}

/// A borrowed tag term handed in by the caller: `key=value`, or `key=*` (any
/// value) when `val` is empty.
#[derive(Clone, Copy, Debug)]
pub struct OsmflatKvRef<'a> {
    pub key: OsmflatStrRef<'a>,
    pub val: OsmflatStrRef<'a>,
}

/// A tag term: a key, and the value it must have or `None` for any value.
pub type FilterTerm<'a> = (&'a [u8], Option<&'a [u8]>);

/// A tag term as byte sequences.
pub struct Term {
    pub key: Seq<u8>,
    pub value: Option<Seq<u8>>,
}

pub open spec fn term_view(t: FilterTerm) -> Term {
    Term {
        key: t.0@,
        value: match t.1 {
            Some(v) => Some(v@),
            None => None,
        },
    }
}

pub open spec fn terms_view(terms: Seq<FilterTerm>) -> Seq<Term> {
    Seq::new(terms.len(), |i: int| term_view(terms[i]))
}

/// The term that one reference stands for, if it has a key: an empty value, or
/// none, stands for any value.
pub open spec fn term_of_ref(r: OsmflatKvRef) -> Option<Term> {
    match r.key.bytes {
        Some(key) => Some(
            Term {
                key: key@,
                value: match r.val.bytes {
                    Some(v) if v@.len() > 0 => Some(v@),
                    _ => None,
                },
            },
        ),
        None => None,
    }
}

/// The terms of a list of references, in order, without those that have no key.
pub open spec fn terms_of_refs(refs: Seq<OsmflatKvRef>) -> Seq<Term>
    decreases refs.len(),
{
    if refs.len() == 0 {
        Seq::empty()
    } else {
        let rest = terms_of_refs(refs.drop_last());
        match term_of_ref(refs.last()) {
            Some(t) => rest.push(t),
            None => rest,
        }
    }
}

/// Parses tag terms: `(key, Some(value))` for `key=value`, `(key, None)` for
/// `key=*`. A reference without a key is left out.
pub fn kv_refs<'a>(refs: &[OsmflatKvRef<'a>]) -> (r: Vec<FilterTerm<'a>>)
    ensures
        terms_view(r@) == terms_of_refs(refs@),
{
    let mut r: Vec<FilterTerm<'a>> = Vec::new();
    let mut i: usize = 0;
    proof {
        assert(refs@.take(0) =~= Seq::empty());
        assert(terms_view(r@) =~= Seq::empty());
    }
    while i < refs.len()
        invariant
            i <= refs@.len(),
            terms_view(r@) == terms_of_refs(refs@.take(i as int)),
        decreases refs@.len() - i,
    {
        let ghost done = r@;
        let f: OsmflatKvRef<'a> = refs[i];
        proof {
            assert(refs@.take(i + 1).drop_last() =~= refs@.take(i as int));
            assert(refs@.take(i + 1).last() == f);
        }
        if let Some(key) = f.key.bytes {
            let val: Option<&'a [u8]> = match f.val.bytes {
                Some(v) => if v.len() > 0 {
                    Some(v)
                } else {
                    None
                },
                None => None,
            };
            r.push((key, val));
            proof {
                assert(terms_view(r@) =~= terms_view(done).push(term_view((key, val))));
            }
        }
        i = i + 1;
    }
    assert(refs@.take(i as int) =~= refs@);
    r
}

/// The bytes of a key; a null pointer stands for the empty key.
pub open spec fn key_of_ref(r: OsmflatStrRef) -> Seq<u8> {
    match r.bytes {
        Some(b) => b@,
        None => Seq::empty(),
    }
}

/// The requested keys, one for each reference.
pub fn key_refs<'a>(refs: &[OsmflatStrRef<'a>]) -> (r: Vec<&'a [u8]>)
    ensures
        r@.len() == refs@.len(),
        forall|i: int| 0 <= i < refs@.len() ==> (#[trigger] r@[i])@ == key_of_ref(refs@[i]),
{
    let mut r: Vec<&'a [u8]> = Vec::new();
    let mut i: usize = 0;
    while i < refs.len()
        invariant
            i <= refs@.len(),
            r@.len() == i,
            forall|k: int| 0 <= k < i ==> (#[trigger] r@[k])@ == key_of_ref(refs@[k]),
        decreases refs@.len() - i,
    {
        let key: &'a [u8] = match refs[i].bytes {
            Some(b) => b,
            None => {
                let none: &'a [u8] = "".as_bytes();
                proof {
                    reveal_strlit("");
                    assert("".spec_bytes() =~= Seq::empty());
                }
                none
            },
        };
        r.push(key);
        i = i + 1;
    }
    r
}

/// The term asks for land polygons.
pub open spec fn land_term(t: Term) -> bool {
    t.key == "_osmflat_land".spec_bytes()
}

/// One of the terms asks for land polygons.
pub open spec fn asks_for_land(terms: Seq<Term>) -> bool {
    exists|i: int| 0 <= i < terms.len() && land_term(#[trigger] terms[i])
}

/// Whether `_osmflat_land`, with any value or with `key=*`, is among the terms:
/// the signal that asks for synthetic land polygons. No OSM entity has a key
/// with a leading underscore, so the term can stand beside ordinary ones.
pub fn wants_land(filters: &[FilterTerm]) -> (r: bool)
    ensures
        r == asks_for_land(terms_view(filters@)),
{
    let mut i: usize = 0;
    while i < filters.len()
        invariant
            i <= filters@.len(),
            forall|k: int| 0 <= k < i ==> !land_term(#[trigger] terms_view(filters@)[k]),
        decreases filters@.len() - i,
    {
        let (key, _) = filters[i];
        if bytes_equal(key, "_osmflat_land".as_bytes()) {
            assert(land_term(terms_view(filters@)[i as int]));
            return true;
        }
        assert(!land_term(terms_view(filters@)[i as int]));
        i = i + 1;
    }
    false
}

/// A term keeps the bytes of its key and of its value.
pub proof fn terms_keep_their_bytes(terms: Seq<FilterTerm>, i: int)
    requires
        0 <= i < terms.len(),
    ensures
        terms_view(terms).len() == terms.len(),
        terms_view(terms)[i].key == terms[i].0@,
        match terms[i].1 {
            Some(v) => terms_view(terms)[i].value == Some(v@),
            None => terms_view(terms)[i].value is None,
        },
{
}

/// A reference with a key gives the term of its key; it asks for a value only if
/// it has one that is not empty. A reference without a key gives none.
pub proof fn one_reference_gives_one_term(r: OsmflatKvRef)
    ensures
        r.key.bytes is None ==> terms_of_refs(seq![r]).len() == 0,
        r.key.bytes matches Some(key) ==> {
            &&& terms_of_refs(seq![r]).len() == 1
            &&& terms_of_refs(seq![r])[0].key == key@
            &&& match r.val.bytes {
                Some(v) => terms_of_refs(seq![r])[0].value == if v@.len() == 0 {
                    None
                } else {
                    Some(v@)
                },
                None => terms_of_refs(seq![r])[0].value is None,
            }
        },
{
    let one = seq![r];
    assert(one.drop_last() =~= Seq::empty());
    assert(one.last() == r);
    reveal_with_fuel(terms_of_refs, 2);
}

/// References are parsed one after the other.
pub proof fn references_are_parsed_in_order(a: Seq<OsmflatKvRef>, b: Seq<OsmflatKvRef>)
    ensures
        terms_of_refs(a + b) == terms_of_refs(a) + terms_of_refs(b),
        terms_of_refs(Seq::<OsmflatKvRef>::empty()).len() == 0,
    decreases b.len(),
{
    if b.len() == 0 {
        assert(a + b =~= a);
        assert(terms_of_refs(a) + terms_of_refs(b) =~= terms_of_refs(a));
    } else {
        references_are_parsed_in_order(a, b.drop_last());
        assert((a + b).drop_last() =~= a + b.drop_last());
        assert(terms_of_refs(a + b) =~= terms_of_refs(a) + terms_of_refs(b));
    }
}

/// A key keeps its bytes, and a null pointer is the empty key.
pub proof fn keys_keep_their_bytes(r: OsmflatStrRef)
    ensures
        match r.bytes {
            Some(b) => key_of_ref(r) == b@,
            None => key_of_ref(r).len() == 0,
        },
{
}

/// Land is asked for exactly if the key `_osmflat_land` is among the terms, with
/// whatever value, wherever it stands.
pub proof fn land_is_asked_for_by_its_key(a: Seq<Term>, t: Term, b: Seq<Term>)
    ensures
        t.key == "_osmflat_land".spec_bytes() ==> asks_for_land(a + seq![t] + b),
        t.key != "_osmflat_land".spec_bytes() ==> (asks_for_land(a + seq![t] + b)
            <==> asks_for_land(a) || asks_for_land(b)),
        !asks_for_land(Seq::empty()),
{
    let all = a + seq![t] + b;
    let n = a.len() as int;
    assert(all[n] == t);
    assert(t.key == "_osmflat_land".spec_bytes() ==> land_term(all[n]));
    if asks_for_land(a) {
        let i = choose|i: int| 0 <= i < a.len() && land_term(#[trigger] a[i]);
        assert(all[i] == a[i]);
    }
    if asks_for_land(b) {
        let i = choose|i: int| 0 <= i < b.len() && land_term(#[trigger] b[i]);
        assert(all[n + 1 + i] == b[i]);
    }
    if asks_for_land(all) {
        let i = choose|i: int| 0 <= i < all.len() && land_term(#[trigger] all[i]);
        if i < n {
            assert(all[i] == a[i]);
        } else if i > n {
            assert(all[i] == b[i - n - 1]);
        }
    }
}

} // verus!
