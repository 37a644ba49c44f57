use crate::abstraction::{id_of, lemma_id_parts, street_of, valid_id, Abstraction, BLOCK};
use crate::cards::{child_of, is_children, lemma_children_listed, least, pair, lemma_least, lemma_represents_least, lemma_representatives_agree, Observation};
use crate::evaluation::{bucket_of, river_abstraction, tally};
use crate::street::Street;
use crate::histogram::{occurrences, Histogram, MAX_MASS};
use crate::table::Table;
use vstd::prelude::*;

verus! {

/// Big-endian bytes of a 64-bit integer.
pub open spec fn be64(v: u64) -> Seq<u8> {
    seq![
        (v >> 56u64) as u8,
        (v >> 48u64) as u8,
        (v >> 40u64) as u8,
        (v >> 32u64) as u8,
        (v >> 24u64) as u8,
        (v >> 16u64) as u8,
        (v >> 8u64) as u8,
        v as u8,
    ]
}

/// The 64-bit integer whose big-endian bytes start at `i` in `b`.
pub open spec fn read_be64(b: Seq<u8>, i: int) -> u64 {
    ((b[i] as u64) << 56u64) | ((b[i + 1] as u64) << 48u64) | ((b[i + 2] as u64) << 40u64) | ((b[i
        + 3] as u64) << 32u64) | ((b[i + 4] as u64) << 24u64) | ((b[i + 5] as u64) << 16u64) | ((b[i
        + 6] as u64) << 8u64) | (b[i + 7] as u64)
}

pub proof fn lemma_be64_round_trip(v: u64)
    ensures
        read_be64(be64(v), 0) == v,
{
    let b = be64(v);
    let (b0, b1, b2, b3, b4, b5, b6, b7) = (b[0], b[1], b[2], b[3], b[4], b[5], b[6], b[7]);
    assert(b0 == (v >> 56u64) as u8 && b1 == (v >> 48u64) as u8 && b2 == (v >> 40u64) as u8 && b3 == (v
        >> 32u64) as u8 && b4 == (v >> 24u64) as u8 && b5 == (v >> 16u64) as u8 && b6 == (v
        >> 8u64) as u8 && b7 == v as u8);
    assert(((b0 as u64) << 56u64) | ((b1 as u64) << 48u64) | ((b2 as u64) << 40u64) | ((b3 as u64)
        << 32u64) | ((b4 as u64) << 24u64) | ((b5 as u64) << 16u64) | ((b6 as u64) << 8u64) | (b7 as u64)
        == v) by (bit_vector)
        requires
            b0 == (v >> 56u64) as u8,
            b1 == (v >> 48u64) as u8,
            b2 == (v >> 40u64) as u8,
            b3 == (v >> 32u64) as u8,
            b4 == (v >> 24u64) as u8,
            b5 == (v >> 16u64) as u8,
            b6 == (v >> 8u64) as u8,
            b7 == v as u8,
    ;
}

/// The binary copy header: signature, flags, header extension length.
pub open spec fn header() -> Seq<u8> {
    seq![80u8, 71, 67, 79, 80, 89, 10, 255, 13, 10, 0, 0, 0, 0, 0, 0, 0, 0, 0]
}

/// The binary copy trailer.
pub open spec fn trailer() -> Seq<u8> {
    seq![255u8, 255]
}

/// One row: two fields, each an eight-byte big-endian integer.
pub open spec fn row(iso: u64, abs: u64) -> Seq<u8> {
    seq![0u8, 2, 0, 0, 0, 8] + be64(iso) + seq![0u8, 0, 0, 8] + be64(abs)
}

/// The rows of the given entries, in order.
pub open spec fn rows(isos: Seq<u64>, abss: Seq<u64>) -> Seq<u8>
    decreases isos.len(),
{
    if isos.len() == 0 || abss.len() == 0 {
        Seq::empty()
    } else {
        row(isos[0], abss[0]) + rows(isos.drop_first(), abss.drop_first())
    }
}

/// The binary copy of the given entries.
pub open spec fn encoded(isos: Seq<u64>, abss: Seq<u64>) -> Seq<u8> {
    header() + rows(isos, abss) + trailer()
}

/// Reads rows from the front of `b` into `acc` until something other than
/// a row's field count comes (the trailer) or fewer than two bytes are
/// left. A row cut short, or one whose abstraction is not valid, fails.
pub open spec fn parse(b: Seq<u8>, acc: Map<u64, u64>) -> Option<Map<u64, u64>>
    decreases b.len(),
{
    if b.len() < 2 {
        Some(acc)
    } else if b[0] == 0 && b[1] == 2 {
        if b.len() < 26 {
            None
        } else if !valid_id(read_be64(b, 18)) {
            None
        } else {
            parse(b.subrange(26, b.len() as int), acc.insert(read_be64(b, 6), read_be64(b, 18)))
        }
    } else {
        Some(acc)
    }
}

/// What the bytes of a file decode to: the rows that follow the header.
pub open spec fn decoded(b: Seq<u8>) -> Option<Map<u64, u64>> {
    if b.len() < 19 {
        Some(Map::empty())
    } else {
        parse(b.subrange(19, b.len() as int), Map::empty())
    }
}

/// Inserts the entries, first to last, into `acc`.
pub open spec fn inserted(acc: Map<u64, u64>, isos: Seq<u64>, abss: Seq<u64>) -> Map<u64, u64>
    decreases isos.len(),
{
    if isos.len() == 0 || abss.len() == 0 {
        acc
    } else {
        inserted(acc.insert(isos[0], abss[0]), isos.drop_first(), abss.drop_first())
    }
}

pub proof fn lemma_rows_push(isos: Seq<u64>, abss: Seq<u64>, iso: u64, abs: u64)
    requires
        isos.len() == abss.len(),
    ensures
        rows(isos.push(iso), abss.push(abs)) == rows(isos, abss) + row(iso, abs),
    decreases isos.len(),
{
    if isos.len() == 0 {
        assert(isos.push(iso).drop_first() =~= Seq::<u64>::empty());
        assert(abss.push(abs).drop_first() =~= Seq::<u64>::empty());
        assert(rows(Seq::<u64>::empty(), Seq::<u64>::empty()) == Seq::<u8>::empty());
        assert(rows(isos, abss) == Seq::<u8>::empty());
        assert(rows(isos.push(iso), abss.push(abs)) =~= row(iso, abs));
        assert(rows(isos, abss) + row(iso, abs) =~= row(iso, abs));
    } else {
        lemma_rows_push(isos.drop_first(), abss.drop_first(), iso, abs);
        assert(isos.push(iso).drop_first() =~= isos.drop_first().push(iso));
        assert(abss.push(abs).drop_first() =~= abss.drop_first().push(abs));
        assert(rows(isos.push(iso), abss.push(abs)) =~= rows(isos, abss) + row(iso, abs));
    }
}

proof fn lemma_parse_row(iso: u64, abs: u64, rest: Seq<u8>, acc: Map<u64, u64>)
    requires
        valid_id(abs),
    ensures
        parse(row(iso, abs) + rest, acc) == parse(rest, acc.insert(iso, abs)),
{
    let b = row(iso, abs) + rest;
    let e1 = be64(iso);
    let e2 = be64(abs);
    assert(b.len() >= 26);
    assert(b[0] == 0 && b[1] == 2);
    assert forall|t: int| 0 <= t < 8 implies b[6 + t] == e1[t] && b[18 + t] == e2[t] by {}
    assert(read_be64(b, 6) == read_be64(e1, 0));
    assert(read_be64(b, 18) == read_be64(e2, 0));
    lemma_be64_round_trip(iso);
    lemma_be64_round_trip(abs);
    assert(b.subrange(26, b.len() as int) =~= rest);
}

proof fn lemma_parse_rows(isos: Seq<u64>, abss: Seq<u64>, acc: Map<u64, u64>)
    requires
        isos.len() == abss.len(),
        forall|i: int| 0 <= i < abss.len() ==> valid_id(#[trigger] abss[i]),
    ensures
        parse(rows(isos, abss) + trailer(), acc) == Some(inserted(acc, isos, abss)),
    decreases isos.len(),
{
    if isos.len() == 0 {
        assert(rows(isos, abss) + trailer() =~= trailer());
    } else {
        let rest = rows(isos.drop_first(), abss.drop_first()) + trailer();
        assert(rows(isos, abss) + trailer() =~= row(isos[0], abss[0]) + rest);
        assert(valid_id(abss[0]));
        lemma_parse_row(isos[0], abss[0], rest, acc);
        assert forall|i: int| 0 <= i < abss.drop_first().len() implies valid_id(
            #[trigger] abss.drop_first()[i],
        ) by {
            assert(abss.drop_first()[i] == abss[i + 1]);
        }
        lemma_parse_rows(isos.drop_first(), abss.drop_first(), acc.insert(isos[0], abss[0]));
    }
}

proof fn lemma_inserted(acc: Map<u64, u64>, isos: Seq<u64>, abss: Seq<u64>)
    requires
        isos.len() == abss.len(),
        isos.no_duplicates(),
    ensures
        forall|k: u64| #[trigger]
            inserted(acc, isos, abss).contains_key(k) <==> acc.contains_key(k) || isos.contains(k),
        forall|i: int|
            0 <= i < isos.len() ==> inserted(acc, isos, abss)[#[trigger] isos[i]] == abss[i],
        forall|k: u64|
            !isos.contains(k) && acc.contains_key(k) ==> #[trigger] inserted(acc, isos, abss)[k]
                == acc[k],
    decreases isos.len(),
{
    if isos.len() > 0 {
        let tail = isos.drop_first();
        assert(tail.no_duplicates()) by {
            assert forall|i: int, j: int| 0 <= i < tail.len() && 0 <= j < tail.len() && i != j implies tail[i] != tail[j] by {
                assert(tail[i] == isos[i + 1] && tail[j] == isos[j + 1]);
            }
        }
        lemma_inserted(acc.insert(isos[0], abss[0]), tail, abss.drop_first());
        let m = inserted(acc, isos, abss);
        assert(m == inserted(acc.insert(isos[0], abss[0]), tail, abss.drop_first()));
        assert forall|k: u64| #[trigger] m.contains_key(k) <==> acc.contains_key(k) || isos.contains(k) by {
            if isos.contains(k) && k != isos[0] {
                let i = choose|i: int| 0 <= i < isos.len() && isos[i] == k;
                assert(tail[i - 1] == k);
            }
            if tail.contains(k) {
                let i = choose|i: int| 0 <= i < tail.len() && tail[i] == k;
                assert(isos[i + 1] == k);
            }
            if k == isos[0] {
                assert(isos[0] == k);
            }
        }
        assert forall|i: int| 0 <= i < isos.len() implies m[#[trigger] isos[i]] == abss[i] by {
            if i == 0 {
                assert(!tail.contains(isos[0])) by {
                    if tail.contains(isos[0]) {
                        let j = choose|j: int| 0 <= j < tail.len() && tail[j] == isos[0];
                        assert(isos[j + 1] == isos[0]);
                    }
                }
            } else {
                assert(tail[i - 1] == isos[i]);
            }
        }
        assert forall|k: u64| !isos.contains(k) && acc.contains_key(k) implies #[trigger] m[k] == acc[k] by {
            assert(k != isos[0]) by {
                if k == isos[0] {
                    assert(isos.contains(isos[0]));
                }
            }
            if tail.contains(k) {
                let i = choose|i: int| 0 <= i < tail.len() && tail[i] == k;
                assert(isos[i + 1] == k);
            }
        }
    }
}

fn push_be64(out: &mut Vec<u8>, v: u64)
    ensures
        final(out)@ == old(out)@ + be64(v),
{
    out.push((v >> 56u64) as u8);
    out.push((v >> 48u64) as u8);
    out.push((v >> 40u64) as u8);
    out.push((v >> 32u64) as u8);
    out.push((v >> 24u64) as u8);
    out.push((v >> 16u64) as u8);
    out.push((v >> 8u64) as u8);
    out.push(v as u8);
    assert(final(out)@ =~= old(out)@ + be64(v));
}

fn push_bytes(out: &mut Vec<u8>, bytes: &[u8])
    ensures
        final(out)@ == old(out)@ + bytes@,
{
    let mut i: usize = 0;
    while i < bytes.len()
        invariant
            i <= bytes@.len(),
            out@ == old(out)@ + bytes@.subrange(0, i as int),
        decreases bytes@.len() - i,
    {
        out.push(bytes[i]);
        i = i + 1;
        assert(out@ =~= old(out)@ + bytes@.subrange(0, i as int));
    }
    assert(bytes@.subrange(0, bytes@.len() as int) =~= bytes@);
}

fn read_be64_at(b: &Vec<u8>, i: usize) -> (r: u64)
    requires
        i + 8 <= b@.len(),
    ensures
        r == read_be64(b@, i as int),
{
    let n = b.len();
    assert(i + 8 <= n);
    ((b[i] as u64) << 56u64) | ((b[i + 1] as u64) << 48u64) | ((b[i + 2] as u64) << 40u64) | ((b[i
        + 3] as u64) << 32u64) | ((b[i + 4] as u64) << 24u64) | ((b[i + 5] as u64) << 16u64) | ((b[i
        + 6] as u64) << 8u64) | (b[i + 7] as u64)
}

/// Saving an encoder and loading the bytes back gives the same encoder.
pub proof fn lemma_round_trip(l: &Lookup)
    requires
        l.wf(),
    ensures
        decoded(encoded(l.isos(), l.abss())) == Some(l@),
{
    l.lemma_lookup();
    let b = encoded(l.isos(), l.abss());
    assert(b.subrange(19, b.len() as int) =~= rows(l.isos(), l.abss()) + trailer());
    assert forall|i: int| 0 <= i < l.abss().len() implies valid_id(#[trigger] l.abss()[i]) by {
        assert(l@.contains_key(l.isos()[i]));
    }
    lemma_parse_rows(l.isos(), l.abss(), Map::empty());
    assert(l.isos().no_duplicates()) by {
        assert forall|i: int, j: int| 0 <= i < l.isos().len() && 0 <= j < l.isos().len() && i != j implies l.isos()[i] != l.isos()[j] by {
            if i < j {
                assert(l.isos()[i] < l.isos()[j]);
            } else {
                assert(l.isos()[j] < l.isos()[i]);
            }
        }
    }
    lemma_inserted(Map::empty(), l.isos(), l.abss());
    let m = inserted(Map::empty(), l.isos(), l.abss());
    assert forall|k: u64| #[trigger] m.contains_key(k) implies m[k] == l@[k] by {
        let i = choose|i: int| 0 <= i < l.isos().len() && l.isos()[i] == k;
    }
    assert(m =~= l@);
}

/// How many of `children` the map sends to `k`.
pub open spec fn hits(m: Map<u64, u64>, children: Seq<u64>, k: u64) -> nat
    decreases children.len(),
{
    if children.len() == 0 {
        0
    } else {
        hits(m, children.drop_last(), k) + if m[children.last()] == k {
            1nat
        } else {
            0nat
        }
    }
}

proof fn lemma_hits(m: Map<u64, u64>, children: Seq<u64>, abs: Seq<Abstraction>, k: u64)
    requires
        children.len() == abs.len(),
        forall|i: int| 0 <= i < abs.len() ==> #[trigger] abs[i].spec_id() == m[children[i]],
    ensures
        occurrences(abs, k) == hits(m, children, k),
    decreases children.len(),
{
    if children.len() > 0 {
        lemma_hits(m, children.drop_last(), abs.drop_last(), k);
        assert(abs.last().spec_id() == m[children.last()]);
    }
}

fn self_missing(l: &Lookup, iso: u64) -> (r: bool)
    requires
        l.wf(),
    ensures
        r <==> !l@.contains_key(iso),
{
    l.get(iso).is_none()
}

/// `h` is the histogram of where the children of `obs` fall under the
/// encoder `m`: every child's isomorphism is encoded, and each abstraction
/// weighs as many children as it holds.
pub open spec fn projection(m: Map<u64, u64>, obs: &Observation, h: Histogram) -> bool {
    exists|kids: Seq<Observation>, ids: Seq<u64>|
        {
            &&& is_children(obs, kids)
            &&& ids.len() == kids.len()
            &&& forall|i: int|
                0 <= i < kids.len() ==> least(kids[i].pocket@, kids[i].public@, #[trigger] ids[i] as int)
            &&& forall|i: int| 0 <= i < ids.len() ==> m.contains_key(#[trigger] ids[i])
            &&& h.wf()
            &&& h.spec_mass() == ids.len()
            &&& forall|k: u64| #[trigger] h.count(k) == hits(m, ids, k)
        }
}

/// The observations are River observations.
pub open spec fn rivers(obs: Seq<Observation>) -> bool {
    forall|i: int| 0 <= i < obs.len() ==> #[trigger] obs[i].wf() && obs[i].public@.len() == 5
}

/// The `i`th River observation gives its isomorphism, of identity `v`, an
/// equity bucket.
pub open spec fn writes(obs: Seq<Observation>, i: int, v: u64) -> bool {
    tally(&obs[i], 2704).1 > 0 && least(obs[i].pocket@, obs[i].public@, v as int)
}

/// No observation after the `i`th and before the `n`th writes `v`.
pub open spec fn last_write(obs: Seq<Observation>, i: int, v: u64, n: int) -> bool {
    forall|j: int| i < j < n ==> !#[trigger] writes(obs, j, v)
}

/// `r` is the River encoder of the observations `obs`: each isomorphism
/// that some observation writes holds the equity bucket of the last one
/// to write it, and no other isomorphism is held.
pub open spec fn river_encoder(obs: Seq<Observation>, r: Lookup) -> bool {
    &&& r.wf()
    &&& forall|i: int, v: u64|
            0 <= i < obs.len() && tally(&obs[i], 2704).1 > 0 && #[trigger] least(
                obs[i].pocket@,
                obs[i].public@,
                v as int,
            ) ==> r@.contains_key(v)
    &&& forall|i: int, v: u64|
            0 <= i < obs.len() && #[trigger] writes(obs, i, v) && last_write(
                obs,
                i,
                v,
                obs.len() as int,
            ) ==> r@[v] == id_of(Street::Rive, bucket_of(&obs[i]))
    &&& forall|k: u64| #[trigger] r@.contains_key(k) ==> exists|i: int|
            0 <= i < obs.len() && #[trigger] writes(obs, i, k)
    &&& forall|k: u64| #[trigger] r@.contains_key(k) ==> street_of(r@[k]) == Street::Rive
}

/// Some observation that follows `obs` on the next street has an
/// isomorphism that `m` does not encode.
pub open spec fn unencoded(m: Map<u64, u64>, obs: &Observation) -> bool {
    exists|pb: Seq<u8>, v: int|
        #[trigger] child_of(obs, pb) && #[trigger] least(obs.pocket@, pb, v) && !m.contains_key(v as u64)
}

/// An encoder of one street: the abstraction of each isomorphism.
pub struct Lookup {
    map: Table,
}

impl View for Lookup {
    type V = Map<u64, u64>;

    closed spec fn view(&self) -> Map<u64, u64> {
        self.map@
    }
}

impl Lookup {
    pub closed spec fn wf(&self) -> bool {
        &&& self.map.wf()
        &&& forall|k: u64| #[trigger] self.map@.contains_key(k) ==> valid_id(self.map@[k])
    }

    /// Isomorphisms, in increasing order.
    pub closed spec fn isos(&self) -> Seq<u64> {
        self.map.keys()
    }

    /// Abstraction identities, in the order of `isos`.
    pub closed spec fn abss(&self) -> Seq<u64> {
        self.map.vals().map_values(|v: int| v as u64)
    }

    pub proof fn lemma_lookup(&self)
        requires
            self.wf(),
        ensures
            self.isos().len() == self.abss().len(),
            forall|i: int, j: int| 0 <= i < j < self.isos().len() ==> self.isos()[i] < self.isos()[j],
            forall|i: int|
                0 <= i < self.isos().len() ==> self@.contains_key(#[trigger] self.isos()[i])
                    && self@[self.isos()[i]] == self.abss()[i],
            forall|k: u64| self@.contains_key(k) <==> self.isos().contains(k),
            forall|k: u64| #[trigger] self@.contains_key(k) ==> valid_id(self@[k]),
    {
        self.map.lemma_table();
    }

    pub fn new() -> (r: Lookup)
        ensures
            r.wf(),
            r@ == Map::<u64, u64>::empty(),
    {
        Lookup { map: Table::new() }
    }

    /// Number of isomorphisms held.
    pub fn len(&self) -> (r: usize)
        requires
            self.wf(),
        ensures
            r == self@.dom().len(),
    {
        proof {
            self.map.lemma_table();
        }
        self.map.len()
    }

    /// Assigns abstraction `abs` to isomorphism `iso`.
    pub fn assign(&mut self, abs: &Abstraction, iso: u64)
        requires
            old(self).wf(),
            abs.wf(),
        ensures
            final(self).wf(),
            final(self)@ == old(self)@.insert(iso, abs.spec_id()),
    {
        self.map.insert(iso, abs.id());
    }

    /// The `i`th isomorphism, in increasing order.
    pub fn iso_at(&self, i: usize) -> (r: u64)
        requires
            self.wf(),
            i < self.isos().len(),
        ensures
            r == self.isos()[i as int],
    {
        proof {
            self.map.lemma_table();
        }
        self.map.key_at(i)
    }

    /// The abstraction identity of the `i`th isomorphism.
    pub fn abs_at(&self, i: usize) -> (r: u64)
        requires
            self.wf(),
            i < self.isos().len(),
        ensures
            r == self.abss()[i as int],
    {
        proof {
            self.map.lemma_table();
        }
        self.map.value_at(i)
    }

    /// The abstraction assigned to an isomorphism, if any.
    pub fn get(&self, iso: u64) -> (r: Option<Abstraction>)
        requires
            self.wf(),
        ensures
            r is Some <==> self@.contains_key(iso),
            r matches Some(a) ==> a.spec_id() == self@[iso] && a.wf(),
    {
        match self.map.get(iso) {
            Some(id) => Abstraction::from_id(id),
            None => None,
        }
    }

    /// The abstraction of an observation: that of its isomorphism, the
    /// identity of its representative under renaming of suits.
    pub fn lookup(&self, obs: &Observation) -> (r: Option<Abstraction>)
        requires
            self.wf(),
            obs.wf(),
        ensures
            forall|rep: Observation| #[trigger]
                rep.represents(obs) ==> (r is Some <==> self@.contains_key(rep.spec_id() as u64)) && (r matches Some(
                    a,
                ) ==> a.spec_id() == self@[rep.spec_id() as u64]),
    {
        let c = obs.canonical();
        let iso = c.id();
        proof {
            assert forall|rep: Observation| #[trigger] rep.represents(obs) implies rep.spec_id() == c.spec_id() by {
                lemma_representatives_agree(obs, &rep, &c);
            }
        }
        self.get(iso)
    }

    /// The Preflop encoder: every pair of hole cards, canonicalised, and
    /// each new isomorphism given the next Preflop index in the order the
    /// pairs are listed.
    pub fn make_preflop() -> (r: Lookup)
        ensures
            r.wf(),
            forall|x: u8, y: u8, v: int|
                x < 52 && y < 52 && x != y && #[trigger] least(pair(x, y), Seq::<u8>::empty(), v)
                    ==> r@.contains_key(v as u64),
            forall|k: u64| #[trigger] r@.contains_key(k) ==> street_of(r@[k]) == Street::Pref,
            forall|k: u64| #[trigger] r@.contains_key(k) ==> exists|x: u8, y: u8|
                x < 52 && y < 52 && x != y && #[trigger] least(pair(x, y), Seq::<u8>::empty(), k as int),
            forall|k1: u64, k2: u64|
                #[trigger] r@.contains_key(k1) && #[trigger] r@.contains_key(k2) && k1 != k2 ==> r@[k1] != r@[k2],
    {
        let mut r = Lookup::new();
        let mut count: u64 = 0;
        let mut x: u8 = 0;
        while x < 52
            invariant
                r.wf(),
                x <= 52,
                count <= 52 * x,
                forall|k: u64| #[trigger] r@.contains_key(k) ==> street_of(r@[k]) == Street::Pref,
                forall|k: u64| #[trigger] r@.contains_key(k) ==> r@[k] < count,
                forall|k: u64| #[trigger] r@.contains_key(k) ==> exists|x: u8, y: u8|
                    x < 52 && y < 52 && x != y && #[trigger] least(pair(x, y), Seq::<u8>::empty(), k as int),
                forall|k1: u64, k2: u64|
                    #[trigger] r@.contains_key(k1) && #[trigger] r@.contains_key(k2) && k1 != k2 ==> r@[k1] != r@[k2],
                forall|a: u8, b: u8, v: int|
                    b < a < x && #[trigger] least(pair(a, b), Seq::<u8>::empty(), v) ==> r@.contains_key(
                        v as u64,
                    ),
            decreases 52 - x,
        {
            let mut y: u8 = 0;
            while y < x
                invariant
                    r.wf(),
                    x < 52,
                    y <= x,
                    count <= 52 * x + y,
                    forall|k: u64| #[trigger] r@.contains_key(k) ==> street_of(r@[k]) == Street::Pref,
                forall|k: u64| #[trigger] r@.contains_key(k) ==> r@[k] < count,
                forall|k: u64| #[trigger] r@.contains_key(k) ==> exists|x: u8, y: u8|
                    x < 52 && y < 52 && x != y && #[trigger] least(pair(x, y), Seq::<u8>::empty(), k as int),
                forall|k1: u64, k2: u64|
                    #[trigger] r@.contains_key(k1) && #[trigger] r@.contains_key(k2) && k1 != k2 ==> r@[k1] != r@[k2],
                    forall|a: u8, b: u8, v: int|
                        b < a && (a < x || (a == x && b < y)) && #[trigger] least(
                            pair(a, b),
                            Seq::<u8>::empty(),
                            v,
                        ) ==> r@.contains_key(v as u64),
                decreases x - y,
            {
                let o = Observation { pocket: vec![x, y], public: Vec::new() };
                proof {
                    assert(o.pocket@ =~= seq![x, y]);
                    assert(o.public@ =~= Seq::<u8>::empty());
                    assert((o.pocket@ + o.public@) =~= seq![x, y]);
                    assert(o.wf());
                }
                let c = o.canonical();
                let iso = c.id();
                if self_missing(&r, iso) {
                    proof {
                        lemma_id_parts(Street::Pref, count);
                    }
                    let a = Abstraction::learned(Street::Pref, count);
                    let ghost before = r@;
                    r.assign(&a, iso);
                    proof {
                        lemma_represents_least(&o, &c);
                        assert(o.pocket@ =~= pair(x, y));
                        assert(a.spec_id() == count);
                        assert forall|k: u64| #[trigger] r@.contains_key(k) implies exists|x2: u8, y2: u8|
                            x2 < 52 && y2 < 52 && x2 != y2 && #[trigger] least(pair(x2, y2), Seq::<u8>::empty(), k as int) by {
                            if k == iso {
                                assert(least(pair(x, y), Seq::<u8>::empty(), k as int));
                            } else {
                                assert(before.contains_key(k));
                            }
                        }
                        assert forall|k1: u64, k2: u64|
                            #[trigger] r@.contains_key(k1) && #[trigger] r@.contains_key(k2) && k1 != k2 implies r@[k1] != r@[k2] by {
                            if k1 != iso && k2 != iso {
                                assert(before.contains_key(k1) && before.contains_key(k2));
                            } else if k1 == iso {
                                assert(before.contains_key(k2));
                            } else {
                                assert(before.contains_key(k1));
                            }
                        }
                    }
                    count = count + 1;
                }
                proof {
                    lemma_represents_least(&o, &c);
                    assert forall|a: u8, b: u8, v: int|
                        b < a && (a < x || (a == x && b < y + 1)) && #[trigger] least(
                            pair(a, b),
                            Seq::<u8>::empty(),
                            v,
                        ) implies r@.contains_key(v as u64) by {
                        if a == x && b == y {
                            assert(pair(x, y) =~= o.pocket@);
                            lemma_least(pair(x, y), Seq::<u8>::empty(), c.spec_id(), v);
                        }
                    }
                }
                y = y + 1;
            }
            x = x + 1;
        }
        proof {
            assert forall|x: u8, y: u8, v: int|
                x < 52 && y < 52 && x != y && #[trigger] least(pair(x, y), Seq::<u8>::empty(), v)
                    implies r@.contains_key(v as u64) by {
                if x < y {
                    lemma_least(pair(x, y), Seq::<u8>::empty(), v, v);
                    assert(pair(pair(x, y)[1], pair(x, y)[0]) =~= pair(y, x));
                }
            }
        }
        r
    }

    /// The River encoder of the given River observations: each one's
    /// isomorphism gets the bucket of its equity against every hand the
    /// opponent can hold.
    pub fn make_river(observations: &Vec<Observation>) -> (r: Lookup)
        requires
            rivers(observations@),
        ensures
            river_encoder(observations@, r),
    {
        let mut r = Lookup::new();
        let mut i: usize = 0;
        while i < observations.len()
            invariant
                r.wf(),
                i <= observations@.len(),
                rivers(observations@),
                forall|q: int, v: u64|
                    0 <= q < i && #[trigger] writes(observations@, q, v) ==> r@.contains_key(v),
                forall|q: int, v: u64|
                    0 <= q < i && #[trigger] writes(observations@, q, v) && last_write(observations@, q, v, i as int)
                        ==> r@[v] == id_of(Street::Rive, bucket_of(&observations@[q])),
                forall|k: u64| #[trigger] r@.contains_key(k) ==> exists|q: int|
                    0 <= q < i && #[trigger] writes(observations@, q, k),
                forall|k: u64| #[trigger] r@.contains_key(k) ==> street_of(r@[k]) == Street::Rive,
            decreases observations@.len() - i,
        {
            let o = &observations[i];
            proof {
                assert(observations@[i as int].wf() && observations@[i as int].public@.len() == 5);
            }
            let c = o.canonical();
            let iso = c.id();
            proof {
                lemma_represents_least(o, &c);
            }
            let ghost before = r@;
            match river_abstraction(o) {
                Some(a) => {
                    r.assign(&a, iso);
                    proof {
                        assert(writes(observations@, i as int, iso));
                        assert forall|q: int, v: u64|
                            0 <= q < i + 1 && #[trigger] writes(observations@, q, v) && last_write(
                                observations@,
                                q,
                                v,
                                i + 1,
                            ) implies r@[v] == id_of(Street::Rive, bucket_of(&observations@[q])) by {
                            if q == i {
                                lemma_least(o.pocket@, o.public@, c.spec_id(), v as int);
                            } else {
                                assert(!writes(observations@, i as int, v));
                                if v == iso {
                                    assert(writes(observations@, i as int, v));
                                }
                                assert(last_write(observations@, q, v, i as int));
                            }
                        }
                        assert forall|k: u64| #[trigger] r@.contains_key(k) implies exists|q: int|
                            0 <= q < i + 1 && #[trigger] writes(observations@, q, k) by {
                            if k != iso {
                                assert(before.contains_key(k));
                            }
                        }
                    }
                },
                None => {
                    proof {
                        assert forall|q: int, v: u64|
                            0 <= q < i && #[trigger] writes(observations@, q, v) && last_write(
                                observations@,
                                q,
                                v,
                                i + 1,
                            ) implies last_write(observations@, q, v, i as int) by {}
                        assert forall|v: u64| !writes(observations@, i as int, v) by {}
                    }
                },
            }
            i = i + 1;
        }
        proof {
            assert forall|q: int, v: u64|
                0 <= q < observations@.len() && tally(&observations@[q], 2704).1 > 0 && #[trigger] least(
                    observations@[q].pocket@,
                    observations@[q].public@,
                    v as int,
                ) implies r@.contains_key(v) by {
                assert(writes(observations@, q, v));
            }
        }
        r
    }

    /// The histogram of where an observation's children fall under this
    /// encoder, the encoder of the next street. Fails when a child's
    /// isomorphism has no abstraction, or there are too many children for
    /// one histogram.
    pub fn project(&self, obs: &Observation) -> (r: Option<Histogram>)
        requires
            self.wf(),
            obs.wf(),
            obs.public@.len() < 5,
        ensures
            r is None <==> unencoded(self@, obs),
            r matches Some(h) ==> projection(self@, obs, h),
    {
        let kids = obs.children();
        let mut ids: Vec<u64> = Vec::new();
        let mut i: usize = 0;
        while i < kids.len()
            invariant
                is_children(obs, kids@),
                obs.wf(),
                obs.public@.len() < 5,
                i <= kids@.len(),
                ids@.len() == i,
                forall|j: int|
                    0 <= j < i ==> least(kids@[j].pocket@, kids@[j].public@, #[trigger] ids@[j] as int),
            decreases kids@.len() - i,
        {
            proof {
                if obs.public@.len() == 0 {
                    assert(crate::cards::flop_kid(obs, kids@[i as int]));
                } else {
                    assert(crate::cards::next_kid(obs, kids@[i as int]));
                }
            }
            let c = kids[i].canonical();
            proof {
                lemma_represents_least(&kids@[i as int], &c);
            }
            ids.push(c.id());
            i = i + 1;
        }
        proof {
            lemma_children_listed(obs, kids@);
        }
        let r = self.future(&ids);
        proof {
            if r is None {
                let i = choose|i: int| 0 <= i < ids@.len() && !self@.contains_key(#[trigger] ids@[i]);
                assert(child_of(obs, kids@[i].public@));
                assert(least(obs.pocket@, kids@[i].public@, ids@[i] as int));
            } else {
                assert forall|pb: Seq<u8>, v: int|
                    #[trigger] child_of(obs, pb) && #[trigger] least(obs.pocket@, pb, v) implies self@.contains_key(
                    v as u64,
                ) by {
                    let j = choose|j: int| 0 <= j < kids@.len() && kids@[j].public@ == pb;
                    assert(least(obs.pocket@, pb, ids@[j] as int));
                    lemma_least(obs.pocket@, pb, ids@[j] as int, v);
                    assert(self@.contains_key(ids@[j]));
                }
                let h = r->Some_0;
                assert(projection(self@, obs, h)) by {
                    assert forall|q: int| 0 <= q < ids@.len() implies self@.contains_key(#[trigger] ids@[q]) by {
                        assert(child_of(obs, kids@[q].public@));
                        assert(least(obs.pocket@, kids@[q].public@, ids@[q] as int));
                    }
                }
            }
        }
        r
    }

    /// The histogram, over this street's abstractions, of the given
    /// children of one isomorphism of the street before: where the next
    /// street's hands fall. Fails when a child has no abstraction.
    pub fn future(&self, children: &Vec<u64>) -> (r: Option<Histogram>)
        requires
            self.wf(),
            children@.len() <= MAX_MASS,
        ensures
            r is Some <==> forall|i: int| 0 <= i < children@.len() ==> self@.contains_key(#[trigger] children@[i]),
            r matches Some(h) ==> h.wf() && h.spec_mass() == children@.len() && forall|k: u64| #[trigger]
                h.count(k) == hits(self@, children@, k),
    {
        let mut abs: Vec<Abstraction> = Vec::new();
        let mut i: usize = 0;
        while i < children.len()
            invariant
                self.wf(),
                i <= children@.len(),
                abs@.len() == i,
                forall|j: int| 0 <= j < i ==> self@.contains_key(#[trigger] children@[j]),
                forall|j: int|
                    0 <= j < i ==> #[trigger] abs@[j].spec_id() == self@[children@[j]] && abs@[j].wf(),
            decreases children@.len() - i,
        {
            match self.get(children[i]) {
                Some(a) => abs.push(a),
                None => {
                    return None;
                },
            }
            i = i + 1;
        }
        let h = Histogram::from_abstractions(&abs);
        proof {
            assert forall|k: u64| #[trigger] h.count(k) == hits(self@, children@, k) by {
                lemma_hits(self@, children@, abs@, k);
            }
        }
        Some(h)
    }

    /// The encoder as a binary copy stream: the header, one row of
    /// (isomorphism, abstraction) per entry in increasing isomorphism
    /// order, and the trailer.
    pub fn save(&self) -> (r: Vec<u8>)
        requires
            self.wf(),
        ensures
            r@ == encoded(self.isos(), self.abss()),
    {
        proof {
            self.lemma_lookup();
            self.map.lemma_table();
        }
        let mut out: Vec<u8> = Vec::new();
        push_bytes(&mut out, &[80u8, 71, 67, 79, 80, 89, 10, 255, 13, 10, 0, 0, 0, 0, 0, 0, 0, 0, 0]);
        proof {
            assert(out@ =~= header() + rows(
                self.isos().subrange(0, 0),
                self.abss().subrange(0, 0),
            ));
        }
        let n = self.map.len();
        let mut i: usize = 0;
        while i < n
            invariant
                self.wf(),
                n == self.isos().len(),
                n == self.abss().len(),
                n == self.map.size(),
                i <= n,
                out@ == header() + rows(
                    self.isos().subrange(0, i as int),
                    self.abss().subrange(0, i as int),
                ),
            decreases n - i,
        {
            proof {
                self.map.lemma_table();
            }
            let iso = self.map.key_at(i);
            let abs = self.map.value_at(i);
            push_bytes(&mut out, &[0u8, 2, 0, 0, 0, 8]);
            push_be64(&mut out, iso);
            push_bytes(&mut out, &[0u8, 0, 0, 8]);
            push_be64(&mut out, abs);
            proof {
                assert(self.isos().subrange(0, i as int + 1) =~= self.isos().subrange(0, i as int).push(iso));
                assert(self.abss().subrange(0, i as int + 1) =~= self.abss().subrange(0, i as int).push(abs));
                lemma_rows_push(
                    self.isos().subrange(0, i as int),
                    self.abss().subrange(0, i as int),
                    iso,
                    abs,
                );
                assert(out@ =~= header() + rows(
                    self.isos().subrange(0, i as int + 1),
                    self.abss().subrange(0, i as int + 1),
                ));
            }
            i = i + 1;
        }
        push_bytes(&mut out, &[255u8, 255]);
        proof {
            assert(self.isos().subrange(0, n as int) =~= self.isos());
            assert(self.abss().subrange(0, n as int) =~= self.abss());
            assert(out@ =~= encoded(self.isos(), self.abss()));
        }
        out
    }

    /// Reads an encoder back from a binary copy stream: the 19 header bytes
    /// are skipped, then rows are read until the trailer or the end. Fails
    /// on a row cut short or on an identity that names no abstraction.
    pub fn load(bytes: &Vec<u8>) -> (r: Option<Lookup>)
        ensures
            r is Some <==> decoded(bytes@) is Some,
            r matches Some(l) ==> l.wf() && l@ == decoded(bytes@)->Some_0,
    {
        let n = bytes.len();
        let mut l = Lookup::new();
        if n < 19 {
            return Some(l);
        }
        let mut pos: usize = 19;
        while pos < n
            invariant
                l.wf(),
                n == bytes@.len(),
                19 <= pos <= n,
                parse(bytes@.subrange(pos as int, n as int), l@) == decoded(bytes@),
            decreases n - pos,
        {
            let ghost rest = bytes@.subrange(pos as int, n as int);
            if n - pos < 2 {
                return Some(l);
            }
            if bytes[pos] != 0 || bytes[pos + 1] != 2 {
                return Some(l);
            }
            if n - pos < 26 {
                return None;
            }
            let iso = read_be64_at(bytes, pos + 6);
            let id = read_be64_at(bytes, pos + 18);
            proof {
                assert(read_be64(rest, 6) == iso);
                assert(read_be64(rest, 18) == id);
                assert(rest.subrange(26, rest.len() as int) =~= bytes@.subrange(
                    pos as int + 26,
                    n as int,
                ));
            }
            match Abstraction::from_id(id) {
                Some(abs) => {
                    l.assign(&abs, iso);
                },
                None => {
                    return None;
                },
            }
            pos = pos + 26;
        }
        proof {
            assert(bytes@.subrange(pos as int, n as int).len() == 0);
        }
        Some(l)
    }
}

} // verus!
