use crate::street::Street;
use vstd::prelude::*;

verus! {

/// Identities of one street occupy one block of this many integers: the
/// street sits in the high bits, the index within the street below them.
pub const BLOCK: u64 = 0x0100_0000_0000_0000;

/// Equity buckets run from 0 to this value inclusive.
pub const N_BUCKETS: u64 = 100;

/// Street of an abstraction identity.
pub open spec fn street_of(id: u64) -> Street {
    Street::at((id / BLOCK) as nat)
}

/// Index of an abstraction identity within its street.
pub open spec fn index_of(id: u64) -> u64 {
    (id % BLOCK) as u64
}

/// An identity names an abstraction: its street is one of the four, and on
/// the River its index is an equity bucket.
pub open spec fn valid_id(id: u64) -> bool {
    id / BLOCK < 4 && (street_of(id) == Street::Rive ==> index_of(id) <= N_BUCKETS)
}

/// Identity of the abstraction with the given street and index.
pub open spec fn id_of(street: Street, index: u64) -> u64 {
    (street.ord() * BLOCK + index) as u64
}

/// Key of the unordered pair of two identities.
pub open spec fn pair_key(a: u64, b: u64) -> u64 {
    a ^ b
}

pub proof fn lemma_id_parts(street: Street, index: u64)
    requires
        index < BLOCK,
    ensures
        street.ord() * BLOCK + index <= u64::MAX,
        street_of(id_of(street, index)) == street,
        index_of(id_of(street, index)) == index,
{
    let id = id_of(street, index);
    assert(street.ord() * BLOCK + index < 4 * BLOCK);
    assert(id / BLOCK == street.ord() && id % BLOCK == index) by (nonlinear_arith)
        requires
            id == street.ord() * BLOCK + index,
            index < BLOCK,
            BLOCK > 0,
    ;
}

/// Learned abstractions of one street number at most this many.
pub const MAX_CENTROIDS: u64 = 0x10_0000;

/// The field polynomial x^20 + x^3 + 1, for multiplication in GF(2^20).
pub const FIELD: u64 = 0x10_0009;

/// `n` more steps of shift-and-add multiplication in GF(2^20): `x` is the
/// multiplicand shifted so far, `y` what is left of the multiplier, `r`
/// the product so far.
pub open spec fn gf_mul(x: u64, y: u64, r: u64, n: nat) -> u64
    decreases n,
{
    if n == 0 {
        r
    } else {
        let r2 = if y & 1 == 1 {
            r ^ x
        } else {
            r
        };
        let s = x << 1u64;
        let x2 = if s & MAX_CENTROIDS != 0 {
            s ^ FIELD
        } else {
            s
        };
        gf_mul(x2, y >> 1u64, r2, (n - 1) as nat)
    }
}

/// The cube of `c` in GF(2^20).
pub open spec fn cube(c: u64) -> u64 {
    gf_mul(c, gf_mul(c, c, 0, 20), 0, 20)
}

/// Index of the `c`th learned abstraction of a street: `c` above bit 20,
/// its cube in GF(2^20) below. The exclusive or of two such indices tells
/// the pair apart from every other pair, so pair keys do not collide.
pub open spec fn label_of(c: u64) -> u64 {
    (c * MAX_CENTROIDS + cube(c)) as u64
}

proof fn lemma_gf_step(x: u64, r: u64)
    requires
        x < MAX_CENTROIDS,
        r < MAX_CENTROIDS,
    ensures
        r ^ x < MAX_CENTROIDS,
        (x << 1u64) & MAX_CENTROIDS != 0 ==> ((x << 1u64) ^ FIELD) < MAX_CENTROIDS,
        (x << 1u64) & MAX_CENTROIDS == 0 ==> (x << 1u64) < MAX_CENTROIDS,
{
    assert(r ^ x < 0x10_0000) by (bit_vector)
        requires
            x < 0x10_0000,
            r < 0x10_0000,
    ;
    assert((x << 1u64) & 0x10_0000 != 0 ==> ((x << 1u64) ^ 0x10_0009) < 0x10_0000) by (bit_vector)
        requires
            x < 0x10_0000,
    ;
    assert((x << 1u64) & 0x10_0000 == 0 ==> (x << 1u64) < 0x10_0000) by (bit_vector)
        requires
            x < 0x10_0000,
    ;
}

proof fn lemma_gf_bound(x: u64, y: u64, r: u64, n: nat)
    requires
        x < MAX_CENTROIDS,
        r < MAX_CENTROIDS,
    ensures
        gf_mul(x, y, r, n) < MAX_CENTROIDS,
    decreases n,
{
    if n > 0 {
        lemma_gf_step(x, r);
        let r2 = if y & 1 == 1 {
            r ^ x
        } else {
            r
        };
        let s = x << 1u64;
        let x2 = if s & MAX_CENTROIDS != 0 {
            s ^ FIELD
        } else {
            s
        };
        lemma_gf_bound(x2, y >> 1u64, r2, (n - 1) as nat);
    }
}

fn gf_multiply(a: u64, b: u64) -> (r: u64)
    requires
        a < MAX_CENTROIDS,
    ensures
        r == gf_mul(a, b, 0, 20),
        r < MAX_CENTROIDS,
{
    let mut x = a;
    let mut y = b;
    let mut r: u64 = 0;
    let mut i: u64 = 0;
    while i < 20
        invariant
            i <= 20,
            x < MAX_CENTROIDS,
            r < MAX_CENTROIDS,
            gf_mul(x, y, r, (20 - i) as nat) == gf_mul(a, b, 0, 20),
        decreases 20 - i,
    {
        proof {
            lemma_gf_step(x, r);
        }
        if y & 1 == 1 {
            r = r ^ x;
        }
        let s = x << 1u64;
        x = if s & MAX_CENTROIDS != 0 {
            s ^ FIELD
        } else {
            s
        };
        y = y >> 1u64;
        i = i + 1;
    }
    proof {
        lemma_gf_bound(a, b, 0, 20);
    }
    r
}

/// Index of the `c`th learned abstraction of a street.
pub fn label(c: u64) -> (r: u64)
    requires
        c < MAX_CENTROIDS,
    ensures
        r == label_of(c),
        r < BLOCK,
        r / MAX_CENTROIDS == c,
{
    let sq = gf_multiply(c, c);
    let cb = gf_multiply(c, sq);
    assert(c * MAX_CENTROIDS + cb < BLOCK && (c * MAX_CENTROIDS + cb) / (MAX_CENTROIDS as int) == c)
        by (nonlinear_arith)
        requires
            c < MAX_CENTROIDS,
            cb < MAX_CENTROIDS,
    ;
    c * MAX_CENTROIDS + cb
}

/// A cluster of observations on one street: an equity bucket on the River,
/// a learned cluster on the other streets. Its identity is one integer
/// whose high bits hold the street.
#[derive(PartialEq, Eq, Structural, Clone, Copy, Debug)]
pub struct Abstraction {
    id: u64,
}

impl Abstraction {
    pub closed spec fn spec_id(&self) -> u64 {
        self.id
    }

    pub open spec fn spec_street(&self) -> Street {
        street_of(self.spec_id())
    }

    pub open spec fn spec_index(&self) -> u64 {
        index_of(self.spec_id())
    }

    pub open spec fn wf(&self) -> bool {
        valid_id(self.spec_id())
    }

    /// The abstraction with this identity, if the identity names one.
    pub fn from_id(id: u64) -> (r: Option<Abstraction>)
        ensures
            r is Some <==> valid_id(id),
            r matches Some(a) ==> a.spec_id() == id,
    {
        let street = id / BLOCK;
        if street >= 4 {
            None
        } else if street == 3 && id % BLOCK > N_BUCKETS {
            None
        } else {
            Some(Abstraction { id })
        }
    }

    /// A learned cluster: the `index`th abstraction of a street before the River.
    pub fn learned(street: Street, index: u64) -> (r: Abstraction)
        requires
            street != Street::Rive,
            index < BLOCK,
        ensures
            r.wf(),
            r.spec_id() == id_of(street, index),
            r.spec_street() == street,
            r.spec_index() == index,
    {
        proof {
            lemma_id_parts(street, index);
        }
        Abstraction { id: street.index() * BLOCK + index }
    }

    /// The River abstraction of one equity bucket.
    pub fn equity(bucket: u64) -> (r: Abstraction)
        requires
            bucket <= N_BUCKETS,
        ensures
            r.wf(),
            r.spec_id() == id_of(Street::Rive, bucket),
            r.spec_street() == Street::Rive,
            r.spec_index() == bucket,
    {
        proof {
            lemma_id_parts(Street::Rive, bucket);
        }
        Abstraction { id: 3 * BLOCK + bucket }
    }

    /// The River abstraction of a hand that wins `wins` of `total` runouts:
    /// its equity rounded to the nearest hundredth.
    pub fn from_equity(wins: u64, total: u64) -> (r: Abstraction)
        requires
            0 < total < BLOCK,
            wins <= total,
        ensures
            r.wf(),
            r.spec_street() == Street::Rive,
            r.spec_index() == (200 * wins + total) / (2 * total),
            r.spec_id() == id_of(Street::Rive, r.spec_index()),
    {
        let num = 200 * wins + total;
        let den = 2 * total;
        let bucket = num / den;
        assert(bucket <= N_BUCKETS) by (nonlinear_arith)
            requires
                bucket == num / den,
                num == 200 * wins + total,
                den == 2 * total,
                wins <= total,
                total > 0,
        {
            assert(num <= 201 * total);
            assert(num < 101 * den);
        }
        Abstraction::equity(bucket)
    }

    pub fn id(&self) -> (r: u64)
        ensures
            r == self.spec_id(),
    {
        self.id
    }

    pub fn street(&self) -> (r: Street)
        requires
            self.wf(),
        ensures
            r == self.spec_street(),
    {
        Street::from_index(self.id / BLOCK)
    }

    pub fn index(&self) -> (r: u64)
        ensures
            r == self.spec_index(),
    {
        self.id % BLOCK
    }
}

/// The unordered pair of two abstractions, keyed by the exclusive or of
/// their identities, so that the order of the two does not matter.
#[derive(PartialEq, Eq, Structural, Clone, Copy, Debug)]
pub struct Pair {
    key: u64,
}

impl Pair {
    pub closed spec fn spec_key(&self) -> u64 {
        self.key
    }

    pub fn new(a: &Abstraction, b: &Abstraction) -> (r: Pair)
        ensures
            r.spec_key() == pair_key(a.spec_id(), b.spec_id()),
    {
        Pair { key: a.id ^ b.id }
    }

    pub fn from_key(key: u64) -> (r: Pair)
        ensures
            r.spec_key() == key,
    {
        Pair { key }
    }

    pub fn key(&self) -> (r: u64)
        ensures
            r == self.spec_key(),
    {
        self.key
    }
}

/// The pair of `a` and `b` is the pair of `b` and `a`.
pub proof fn lemma_pair_symmetric(a: u64, b: u64)
    ensures
        pair_key(a, b) == pair_key(b, a),
{
    assert(a ^ b == b ^ a) by (bit_vector);
}

} // verus!
