use crate::street::Street;
use vstd::arithmetic::power2::pow2;
use vstd::prelude::*;

verus! {

/// Number of cards in the deck; card `c` has rank `c / 4` and suit `c % 4`.
pub const N_CARDS: u8 = 52;

/// The card `c` with its suit renamed by `p`.
pub open spec fn relabel(p: Seq<u8>, c: u8) -> u8 {
    ((c / 4) * 4 + p[(c % 4) as int]) as u8
}

/// The cards with their suits renamed by `p`.
pub open spec fn moved(p: Seq<u8>, cards: Seq<u8>) -> Seq<u8> {
    cards.map_values(|c: u8| relabel(p, c))
}

/// `p` renames the four suits one to one.
pub open spec fn is_perm(p: Seq<u8>) -> bool {
    &&& p.len() == 4
    &&& forall|i: int| 0 <= i < 4 ==> #[trigger] p[i] < 4
    &&& forall|i: int, j: int| 0 <= i < j < 4 ==> p[i] != p[j]
}

/// Renaming by `p`, then by `q`.
pub open spec fn compose(q: Seq<u8>, p: Seq<u8>) -> Seq<u8> {
    seq![q[p[0] as int], q[p[1] as int], q[p[2] as int], q[p[3] as int]]
}

/// The renaming that changes nothing.
pub open spec fn identity() -> Seq<u8> {
    seq![0u8, 1, 2, 3]
}

/// Position of `p` when the renamings are listed as base-4 numbers.
pub open spec fn perm_code(p: Seq<u8>) -> int {
    p[0] * 64 + p[1] * 16 + p[2] * 4 + p[3]
}

/// Every card is in the deck.
pub open spec fn in_deck(cards: Seq<u8>) -> bool {
    forall|i: int| 0 <= i < cards.len() ==> #[trigger] cards[i] < N_CARDS
}

/// The bit set of the cards below `n`.
pub open spec fn mask(cards: Seq<u8>, n: nat) -> int
    decreases n,
{
    if n == 0 {
        0
    } else {
        mask(cards, (n - 1) as nat) + if cards.contains((n - 1) as u8) {
            pow2((n - 1) as nat) as int
        } else {
            0
        }
    }
}

/// Code of the two hole cards, the higher first.
pub open spec fn pocket_code(pocket: Seq<u8>) -> int {
    if pocket[0] >= pocket[1] {
        pocket[0] * 52 + pocket[1]
    } else {
        pocket[1] * 52 + pocket[0]
    }
}

/// The identity of hole cards and board: the hole cards above bit 52, the
/// board as a bit set below it.
#[verifier::opaque]
pub open spec fn identity_of(pocket: Seq<u8>, public: Seq<u8>) -> int {
    pocket_code(pocket) * pow2(52) + mask(public, 52)
}

proof fn lemma_relabel(q: Seq<u8>, p: Seq<u8>, c: u8)
    requires
        is_perm(q),
        is_perm(p),
    ensures
        relabel(q, relabel(p, c)) == relabel(compose(q, p), c),
        c < N_CARDS ==> relabel(p, c) < N_CARDS,
        relabel(identity(), c) == c,
{
    let s = c % 4;
    assert(0 <= s < 4);
    assert(p[s as int] < 4);
    let r = ((c / 4) * 4 + p[s as int]) as u8;
    assert((c / 4) * 4 + p[s as int] < 256) by (nonlinear_arith)
        requires
            p[s as int] < 4,
            c < 256,
    ;
    assert(r / 4 == c / 4 && r % 4 == p[s as int]) by (nonlinear_arith)
        requires
            r == (c / 4) * 4 + p[s as int],
            p[s as int] < 4,
    ;
    assert(compose(q, p)[s as int] == q[p[s as int] as int]);
    assert(c < N_CARDS ==> (c / 4) * 4 + p[s as int] < 52) by (nonlinear_arith)
        requires
            p[s as int] < 4,
    ;
    assert((c / 4) * 4 + c % 4 == c) by (nonlinear_arith);
}

proof fn lemma_relabel_injective(p: Seq<u8>, a: u8, b: u8)
    requires
        is_perm(p),
        a != b,
    ensures
        relabel(p, a) != relabel(p, b),
{
    let (sa, sb) = (a % 4, b % 4);
    assert(p[sa as int] < 4 && p[sb as int] < 4);
    assert((a / 4) * 4 + a % 4 == a) by (nonlinear_arith);
    assert((b / 4) * 4 + b % 4 == b) by (nonlinear_arith);
    let ra = (a / 4) * 4 + p[sa as int];
    let rb = (b / 4) * 4 + p[sb as int];
    assert(ra < 256 && rb < 256) by (nonlinear_arith)
        requires
            ra == (a / 4) * 4 + p[sa as int],
            rb == (b / 4) * 4 + p[sb as int],
            p[sa as int] < 4,
            p[sb as int] < 4,
            a < 256,
            b < 256,
    ;
    if ra == rb {
        assert(a / 4 == b / 4 && p[sa as int] == p[sb as int]) by (nonlinear_arith)
            requires
                ra == rb,
                ra == (a / 4) * 4 + p[sa as int],
                rb == (b / 4) * 4 + p[sb as int],
                p[sa as int] < 4,
                p[sb as int] < 4,
        ;
        assert(sa == sb);
    }
}

/// Swapping the two hole cards changes no identity.
pub proof fn lemma_pocket_swap(p: Seq<u8>, x: u8, y: u8, public: Seq<u8>)
    ensures
        identity_of(moved(p, seq![x, y]), public) == identity_of(moved(p, seq![y, x]), public),
{
    reveal(identity_of);
    let a = moved(p, seq![x, y]);
    let b = moved(p, seq![y, x]);
    assert(a[0] == b[1] && a[1] == b[0]);
}

proof fn lemma_compose(q: Seq<u8>, p: Seq<u8>)
    requires
        is_perm(q),
        is_perm(p),
    ensures
        is_perm(compose(q, p)),
{
    let r = compose(q, p);
    assert forall|i: int| 0 <= i < 4 implies #[trigger] r[i] < 4 by {
        assert(p[i] < 4);
    }
    assert forall|i: int, j: int| 0 <= i < j < 4 implies r[i] != r[j] by {
        assert(p[i] != p[j]);
        assert(p[i] < 4 && p[j] < 4);
    }
}

proof fn lemma_moved(q: Seq<u8>, p: Seq<u8>, cards: Seq<u8>)
    requires
        is_perm(q),
        is_perm(p),
    ensures
        moved(q, moved(p, cards)) == moved(compose(q, p), cards),
        moved(identity(), cards) == cards,
        in_deck(cards) ==> in_deck(moved(p, cards)),
{
    assert forall|i: int| 0 <= i < cards.len() implies relabel(q, relabel(p, cards[i])) == relabel(
        compose(q, p),
        cards[i],
    ) && relabel(identity(), cards[i]) == cards[i] && (cards[i] < N_CARDS ==> relabel(p, cards[i])
        < N_CARDS) by {
        lemma_relabel(q, p, cards[i]);
    }
    assert(moved(q, moved(p, cards)) =~= moved(compose(q, p), cards));
    assert(moved(identity(), cards) =~= cards);
}

/// Two hole cards, in the order given.
pub open spec fn pair(x: u8, y: u8) -> Seq<u8> {
    seq![x, y]
}

/// `v` is the least identity over all renamings of suits of the cards.
pub open spec fn least(pocket: Seq<u8>, public: Seq<u8>, v: int) -> bool {
    &&& exists|p: Seq<u8>| #[trigger] is_perm(p) && identity_of(moved(p, pocket), moved(p, public)) == v
    &&& forall|p: Seq<u8>| #[trigger] is_perm(p) ==> v <= identity_of(moved(p, pocket), moved(p, public))
}

/// The least identity is unique, and swapping the hole cards keeps it.
pub proof fn lemma_least(pocket: Seq<u8>, public: Seq<u8>, v: int, w: int)
    requires
        pocket.len() == 2,
        least(pocket, public, v),
    ensures
        least(pocket, public, w) ==> v == w,
        least(pair(pocket[1], pocket[0]), public, v),
{
    if least(pocket, public, w) {
        let p = choose|p: Seq<u8>| #[trigger] is_perm(p) && identity_of(moved(p, pocket), moved(p, public)) == v;
        let q = choose|q: Seq<u8>| #[trigger] is_perm(q) && identity_of(moved(q, pocket), moved(q, public)) == w;
    }
    let swapped = pair(pocket[1], pocket[0]);
    assert(pocket =~= seq![pocket[0], pocket[1]]);
    assert forall|p: Seq<u8>| #[trigger] is_perm(p) implies identity_of(moved(p, swapped), moved(p, public))
        == identity_of(moved(p, pocket), moved(p, public)) by {
        lemma_pocket_swap(p, pocket[0], pocket[1], moved(p, public));
    }
    let p = choose|p: Seq<u8>| #[trigger] is_perm(p) && identity_of(moved(p, pocket), moved(p, public)) == v;
    assert(is_perm(p));
}

/// A representative's identity is the least of its observation's.
pub proof fn lemma_represents_least(o: &Observation, r: &Observation)
    requires
        r.represents(o),
    ensures
        least(o.pocket@, o.public@, r.spec_id()),
{
    let p = choose|p: Seq<u8>| #[trigger]
        is_perm(p) && r.pocket@ == moved(p, o.pocket@) && r.public@ == moved(p, o.public@);
    assert(is_perm(p) && identity_of(moved(p, o.pocket@), moved(p, o.public@)) == r.spec_id());
}

/// `k` follows `o` after Preflop: same hole cards, three board cards in
/// increasing order.
pub open spec fn flop_kid(o: &Observation, k: Observation) -> bool {
    &&& k.wf()
    &&& k.pocket@ == o.pocket@
    &&& k.public@.len() == 3
    &&& k.public@[0] < k.public@[1] < k.public@[2]
}

/// `k` follows `o` after the Flop or the Turn: same hole cards, one more
/// board card.
pub open spec fn next_kid(o: &Observation, k: Observation) -> bool {
    &&& k.wf()
    &&& k.pocket@ == o.pocket@
    &&& k.public@.len() == o.public@.len() + 1
    &&& k.public@ == o.public@.push(k.public@.last())
}

/// `kids` are exactly the observations that follow `o` on the next street:
/// the same hole cards, the board extended by one unseen card (after the
/// Flop or the Turn) or by three unseen cards in increasing order (after
/// Preflop), each extension listed once.
pub open spec fn is_children(o: &Observation, kids: Seq<Observation>) -> bool {
    let seen = o.pocket@ + o.public@;
    &&& forall|i: int, j: int| 0 <= i < j < kids.len() ==> kids[i].public@ != kids[j].public@
    &&& o.public@.len() == 0 ==> {
        &&& forall|i: int| 0 <= i < kids.len() ==> #[trigger] flop_kid(o, kids[i])
        &&& forall|a: u8, b: u8, c: u8|
            a < b < c < N_CARDS && !seen.contains(a) && !seen.contains(b) && !seen.contains(c)
                ==> exists|i: int| 0 <= i < kids.len() && #[trigger] kids[i].public@ == triple(a, b, c)
    }
    &&& o.public@.len() > 0 ==> {
        &&& forall|i: int| 0 <= i < kids.len() ==> #[trigger] next_kid(o, kids[i])
        &&& forall|c: u8|
            c < N_CARDS && !seen.contains(c) ==> exists|i: int|
                0 <= i < kids.len() && #[trigger] kids[i].public@ == o.public@.push(c)
    }
}

/// Position of three board cards when listed in increasing order.
pub open spec fn rank3(b: Seq<u8>) -> int {
    b[0] * 2704 + b[1] * 52 + b[2]
}

/// Three board cards, in the order given.
pub open spec fn triple(a: u8, b: u8, c: u8) -> Seq<u8> {
    seq![a, b, c]
}

/// `pb` is the board of an observation that follows `o` on the next
/// street: three unseen cards in increasing order after Preflop, else the
/// board with one unseen card added.
pub open spec fn child_of(o: &Observation, pb: Seq<u8>) -> bool {
    let seen = o.pocket@ + o.public@;
    if o.public@.len() == 0 {
        pb.len() == 3 && pb[0] < pb[1] < pb[2] < N_CARDS && !seen.contains(pb[0]) && !seen.contains(
            pb[1],
        ) && !seen.contains(pb[2])
    } else {
        pb.len() == o.public@.len() + 1 && pb == o.public@.push(pb.last()) && pb.last() < N_CARDS
            && !seen.contains(pb.last())
    }
}

/// Every listed child is a child, and every child is listed.
pub proof fn lemma_children_listed(o: &Observation, kids: Seq<Observation>)
    requires
        o.wf(),
        o.public@.len() < 5,
        is_children(o, kids),
    ensures
        forall|i: int| 0 <= i < kids.len() ==> #[trigger] child_of(o, kids[i].public@) && kids[i].pocket@ == o.pocket@,
        forall|pb: Seq<u8>| #[trigger] child_of(o, pb) ==> exists|j: int| 0 <= j < kids.len() && kids[j].public@ == pb,
        kids.len() <= 140608,
{
    let seen = o.pocket@ + o.public@;
    assert forall|i: int| 0 <= i < kids.len() implies #[trigger] child_of(o, kids[i].public@) && kids[i].pocket@ == o.pocket@ by {
        let k = kids[i];
        let all = k.pocket@ + k.public@;
        if o.public@.len() == 0 {
            assert(flop_kid(o, k));
            assert(seen =~= o.pocket@);
            assert forall|t: int| 0 <= t < 3 implies !seen.contains(#[trigger] k.public@[t]) && k.public@[t] < N_CARDS by {
                assert(all[2 + t] == k.public@[t]);
                if seen.contains(k.public@[t]) {
                    let q = choose|q: int| 0 <= q < seen.len() && seen[q] == k.public@[t];
                    assert(all[q] == seen[q]);
                }
            }
        } else {
            assert(next_kid(o, k));
            assert(all =~= seen.push(k.public@.last()));
            let n = all.len() - 1;
            assert(all[n] == k.public@.last());
            assert(k.public@.last() == k.public@[k.public@.len() - 1]);
            if seen.contains(k.public@.last()) {
                let q = choose|q: int| 0 <= q < seen.len() && seen[q] == k.public@.last();
                assert(all[q] == seen[q]);
            }
        }
    }
    assert forall|pb: Seq<u8>| #[trigger] child_of(o, pb) implies exists|j: int| 0 <= j < kids.len() && kids[j].public@ == pb by {
        if o.public@.len() == 0 {
            assert(pb =~= triple(pb[0], pb[1], pb[2]));
        } else {
            let c = pb.last();
            assert(pb == o.public@.push(c));
        }
    }
    // distinct boards give distinct codes below 140608
    let codes = Seq::new(kids.len(), |i: int| if o.public@.len() == 0 { rank3(kids[i].public@) } else { kids[i].public@.last() as int });
    assert forall|i: int, j: int| 0 <= i < codes.len() && 0 <= j < codes.len() && i != j implies codes[i] != codes[j] by {
        let (p, q) = (kids[i].public@, kids[j].public@);
        assert(child_of(o, p) && child_of(o, q));
        if i < j {
            assert(p != q);
        } else {
            assert(kids[j].public@ != kids[i].public@);
        }
        if o.public@.len() == 0 {
            if rank3(p) == rank3(q) {
                assert(p[0] == q[0] && p[1] == q[1] && p[2] == q[2]) by (nonlinear_arith)
                    requires
                        p[0] * 2704 + p[1] * 52 + p[2] == q[0] * 2704 + q[1] * 52 + q[2],
                        p[0] < 52, p[1] < 52, p[2] < 52, q[0] < 52, q[1] < 52, q[2] < 52,
                ;
                assert(p =~= q);
            }
        } else {
            if p.last() == q.last() {
                assert(p =~= q);
            }
        }
    }
    assert(codes.no_duplicates());
    codes.unique_seq_to_set();
    assert forall|x: int| #[trigger] codes.to_set().contains(x) implies vstd::set_lib::set_int_range(0, 140608).contains(x) by {
        let i = choose|i: int| 0 <= i < codes.len() && codes[i] == x;
        let p = kids[i].public@;
        assert(child_of(o, p));
        if o.public@.len() == 0 {
            assert(rank3(p) < 140608) by (nonlinear_arith)
                requires p[0] < 52, p[1] < 52, p[2] < 52, rank3(p) == p[0] * 2704 + p[1] * 52 + p[2];
        }
    }
    vstd::set_lib::lemma_int_range(0, 140608);
    vstd::set_lib::lemma_len_subset(codes.to_set(), vstd::set_lib::set_int_range(0, 140608));
}

/// A hand as one player sees it: two hole cards and the board.
pub struct Observation {
    pub pocket: Vec<u8>,
    pub public: Vec<u8>,
}

impl Observation {
    pub open spec fn wf(&self) -> bool {
        &&& self.pocket@.len() == 2
        &&& (self.public@.len() == 0 || 3 <= self.public@.len() <= 5)
        &&& in_deck(self.pocket@)
        &&& in_deck(self.public@)
        &&& (self.pocket@ + self.public@).no_duplicates()
    }

    /// Identity of this observation as it stands.
    pub open spec fn spec_id(&self) -> int {
        identity_of(self.pocket@, self.public@)
    }

    /// Identity of the observation with suits renamed by `p`.
    pub open spec fn id_under(&self, p: Seq<u8>) -> int {
        identity_of(moved(p, self.pocket@), moved(p, self.public@))
    }

    /// `self` is the representative of `o`'s class: `o` with its suits
    /// renamed so that the identity is the least over all renamings.
    pub open spec fn represents(&self, o: &Observation) -> bool {
        &&& exists|p: Seq<u8>| #[trigger]
            is_perm(p) && self.pocket@ == moved(p, o.pocket@) && self.public@ == moved(p, o.public@)
        &&& forall|p: Seq<u8>| #[trigger] is_perm(p) ==> self.spec_id() <= o.id_under(p)
    }

    /// The observation of hole cards and board, when both are cards of the
    /// deck and the board has no cards, or three to five.
    pub fn new(pocket: Vec<u8>, public: Vec<u8>) -> (r: Option<Observation>)
        ensures
            r is Some <==> (Observation { pocket, public }).wf(),
            r matches Some(o) ==> o.pocket@ == pocket@ && o.public@ == public@,
    {
        if pocket.len() != 2 {
            return None;
        }
        if !(public.len() == 0 || (3 <= public.len() && public.len() <= 5)) {
            return None;
        }
        if !all_in_deck(&pocket) || !all_in_deck(&public) {
            return None;
        }
        let mut all = pocket.clone();
        let mut extra = public.clone();
        all.append(&mut extra);
        assert(all@ =~= pocket@ + public@);
        if !all_distinct(&all) {
            return None;
        }
        Some(Observation { pocket, public })
    }

    /// The street: how many board cards show.
    pub fn street(&self) -> (r: Street)
        requires
            self.wf(),
        ensures
            self.public@.len() == 0 ==> r == Street::Pref,
            self.public@.len() == 3 ==> r == Street::Flop,
            self.public@.len() == 4 ==> r == Street::Turn,
            self.public@.len() == 5 ==> r == Street::Rive,
    {
        let n = self.public.len();
        if n == 0 {
            Street::Pref
        } else if n == 3 {
            Street::Flop
        } else if n == 4 {
            Street::Turn
        } else {
            Street::Rive
        }
    }

    /// The observations of the next street that follow this one; see
    /// `is_children`.
    pub fn children(&self) -> (r: Vec<Observation>)
        requires
            self.wf(),
            self.public@.len() < 5,
        ensures
            is_children(self, r@),
    {
        let mut seen = self.pocket.clone();
        let mut rest = self.public.clone();
        seen.append(&mut rest);
        assert(seen@ =~= self.pocket@ + self.public@);
        proof {
            assert(self.pocket@[0] != self.pocket@[1]) by {
                assert((self.pocket@ + self.public@)[0] == self.pocket@[0]);
                assert((self.pocket@ + self.public@)[1] == self.pocket@[1]);
            }
            assert(seen@.contains(self.pocket@[0])) by {
                assert(seen@[0] == self.pocket@[0]);
            }
            assert(seen@.contains(self.pocket@[1])) by {
                assert(seen@[1] == self.pocket@[1]);
            }
        }
        if self.public.len() == 0 {
            self.flop_children(&seen)
        } else {
            self.next_children(&seen)
        }
    }

    fn flop_children(&self, seen: &Vec<u8>) -> (r: Vec<Observation>)
        requires
            self.wf(),
            self.public@.len() == 0,
            seen@ == self.pocket@ + self.public@,
            self.pocket@[0] != self.pocket@[1],
            seen@.contains(self.pocket@[0]),
            seen@.contains(self.pocket@[1]),
        ensures
            is_children(self, r@),
    {
        let mut out: Vec<Observation> = Vec::new();
        let mut n: u32 = 0;
        while n < 140608
            invariant
                self.wf(),
                self.public@.len() == 0,
                seen@ == self.pocket@ + self.public@,
                self.pocket@[0] != self.pocket@[1],
                seen@.contains(self.pocket@[0]),
                seen@.contains(self.pocket@[1]),
                n <= 140608,
                forall|i: int| 0 <= i < out@.len() ==> #[trigger] flop_kid(self, out@[i]),
                forall|i: int| 0 <= i < out@.len() ==> #[trigger] rank3(out@[i].public@) < n,
                forall|i: int, j: int|
                    0 <= i < j < out@.len() ==> rank3(out@[i].public@) < rank3(out@[j].public@),
                forall|x: u8, y: u8, z: u8|
                    x < y < z < N_CARDS && rank3(triple(x, y, z)) < n && !seen@.contains(x)
                        && !seen@.contains(y) && !seen@.contains(z) ==> exists|i: int|
                        0 <= i < out@.len() && #[trigger] out@[i].public@ == triple(x, y, z),
            decreases 140608 - n,
        {
            let a = (n / 2704) as u8;
            let b = ((n / 52) % 52) as u8;
            let c = (n % 52) as u8;
            proof {
                assert(rank3(triple(a, b, c)) == n) by (nonlinear_arith)
                    requires
                        a == n / 2704,
                        b == (n / 52) % 52,
                        c == n % 52,
                        n < 140608,
                ;
                assert forall|x: u8, y: u8, z: u8|
                    x < 52 && y < 52 && z < 52 && rank3(triple(x, y, z)) == n implies x == a && y == b
                    && z == c by {
                    assert(x == n / 2704 && y == (n / 52) % 52 && z == n % 52) by (nonlinear_arith)
                        requires
                            x < 52,
                            y < 52,
                            z < 52,
                            n == x * 2704 + y * 52 + z,
                    ;
                }
            }
            if a < b && b < c && !contains(seen, a) && !contains(seen, b) && !contains(seen, c) {
                let kid = Observation { pocket: self.pocket.clone(), public: vec![a, b, c] };
                proof {
                    assert(kid.public@ =~= triple(a, b, c));
                    let all = kid.pocket@ + kid.public@;
                    assert(all =~= seq![self.pocket@[0], self.pocket@[1], a, b, c]);
                    assert(in_deck(kid.public@));
                    assert(all.no_duplicates());
                    assert(kid.wf());
                    assert(flop_kid(self, kid));
                }
                let ghost before = out@;
                out.push(kid);
                proof {
                    assert(forall|i: int| 0 <= i < before.len() ==> out@[i] == before[i]);
                    assert(out@[before.len() as int] == kid);
                }
            }
            n = n + 1;
        }
        proof {
            assert forall|i: int, j: int| 0 <= i < j < out@.len() implies out@[i].public@ != out@[j].public@ by {
                assert(rank3(out@[i].public@) < rank3(out@[j].public@));
            }
            assert forall|x: u8, y: u8, z: u8|
                x < y < z < N_CARDS && !seen@.contains(x) && !seen@.contains(y) && !seen@.contains(z)
                    implies exists|i: int| 0 <= i < out@.len() && #[trigger] out@[i].public@ == triple(x, y, z) by {
                assert(rank3(triple(x, y, z)) < 140608);
            }
            assert forall|i: int| 0 <= i < out@.len() implies #[trigger] flop_kid(self, out@[i]) by {}
        }
        out
    }

    fn next_children(&self, seen: &Vec<u8>) -> (r: Vec<Observation>)
        requires
            self.wf(),
            0 < self.public@.len() < 5,
            seen@ == self.pocket@ + self.public@,
        ensures
            is_children(self, r@),
    {
        let mut out: Vec<Observation> = Vec::new();
        let mut c: u8 = 0;
        while c < 52
            invariant
                self.wf(),
                0 < self.public@.len() < 5,
                seen@ == self.pocket@ + self.public@,
                c <= 52,
                forall|i: int| 0 <= i < out@.len() ==> #[trigger] next_kid(self, out@[i]),
                forall|i: int| 0 <= i < out@.len() ==> #[trigger] out@[i].public@.last() < c,
                forall|i: int, j: int|
                    0 <= i < j < out@.len() ==> out@[i].public@.last() < out@[j].public@.last(),
                forall|x: u8|
                    x < c && !seen@.contains(x) ==> exists|i: int|
                        0 <= i < out@.len() && #[trigger] out@[i].public@ == self.public@.push(x),
            decreases 52 - c,
        {
            if !contains(seen, c) {
                let mut board = self.public.clone();
                board.push(c);
                let kid = Observation { pocket: self.pocket.clone(), public: board };
                proof {
                    assert(kid.public@ =~= self.public@.push(c));
                    assert(kid.pocket@ + kid.public@ =~= seen@.push(c));
                    assert(in_deck(kid.public@)) by {
                        assert forall|i: int| 0 <= i < kid.public@.len() implies #[trigger] kid.public@[i]
                            < N_CARDS by {
                            if i < self.public@.len() {
                                assert(kid.public@[i] == self.public@[i]);
                            }
                        }
                    }
                    let all = seen@.push(c);
                    assert forall|i: int, j: int|
                        0 <= i < all.len() && 0 <= j < all.len() && i != j implies all[i] != all[j] by {
                        if i == seen@.len() as int {
                            assert(all[j] == seen@[j]);
                            assert(seen@.contains(seen@[j]));
                        } else if j == seen@.len() as int {
                            assert(all[i] == seen@[i]);
                            assert(seen@.contains(seen@[i]));
                        } else {
                            assert(all[i] == seen@[i] && all[j] == seen@[j]);
                        }
                    }
                    assert(kid.wf());
                    assert(kid.public@.last() == c);
                    assert(next_kid(self, kid));
                }
                let ghost before = out@;
                out.push(kid);
                proof {
                    assert(forall|i: int| 0 <= i < before.len() ==> out@[i] == before[i]);
                    assert(out@[before.len() as int] == kid);
                }
            }
            c = c + 1;
        }
        proof {
            assert forall|i: int, j: int| 0 <= i < j < out@.len() implies out@[i].public@ != out@[j].public@ by {
                assert(out@[i].public@.last() < out@[j].public@.last());
            }
        }
        out
    }

    /// The 64-bit identity.
    pub fn id(&self) -> (r: u64)
        requires
            self.wf(),
        ensures
            r == self.spec_id(),
    {
        let a = self.pocket[0] as u64;
        let b = self.pocket[1] as u64;
        let code = if a >= b {
            a * 52 + b
        } else {
            b * 52 + a
        };
        let m = board_mask(&self.public);
        proof {
            reveal(identity_of);
            assert(self.pocket@[0] < 52 && self.pocket@[1] < 52);
            assert(code < 4096);
            assert(pow2(52) == 0x10_0000_0000_0000) by {
                vstd::arithmetic::power2::lemma2_to64_rest();
            }
            assert(code * 0x10_0000_0000_0000 + m < 0x1_0000_0000_0000_0000) by (nonlinear_arith)
                requires
                    code < 4096,
                    m < 0x10_0000_0000_0000,
            ;
        }
        code * 0x10_0000_0000_0000 + m
    }

    /// The observation with suits renamed by `p`.
    pub fn relabelled(&self, p: &[u8; 4]) -> (r: Observation)
        requires
            self.wf(),
            is_perm(p@),
        ensures
            r.wf(),
            r.pocket@ == moved(p@, self.pocket@),
            r.public@ == moved(p@, self.public@),
    {
        proof {
            lemma_moved(p@, p@, self.pocket@);
            lemma_moved(p@, p@, self.public@);
            let all = self.pocket@ + self.public@;
            assert(moved(p@, self.pocket@) + moved(p@, self.public@) =~= moved(p@, all));
            assert forall|i: int, j: int| 0 <= i < all.len() && 0 <= j < all.len() && i != j implies moved(
                p@,
                all,
            )[i] != moved(p@, all)[j] by {
                lemma_relabel_injective(p@, all[i], all[j]);
            }
        }
        Observation { pocket: relabel_all(p, &self.pocket), public: relabel_all(p, &self.public) }
    }

    /// The representative of this observation's class under renaming of
    /// suits: of the 24 renamings, the one whose identity is least.
    pub fn canonical(&self) -> (r: Observation)
        requires
            self.wf(),
        ensures
            r.wf(),
            r.represents(self),
    {
        let ident: [u8; 4] = [0, 1, 2, 3];
        proof {
            assert(ident@ =~= identity());
        }
        let mut best = self.relabelled(&ident);
        let mut best_id = best.id();
        let ghost mut best_p: Seq<u8> = identity();
        let mut n: u64 = 0;
        while n < 256
            invariant
                self.wf(),
                best.wf(),
                n <= 256,
                is_perm(best_p),
                best.pocket@ == moved(best_p, self.pocket@),
                best.public@ == moved(best_p, self.public@),
                best_id == best.spec_id(),
                forall|p: Seq<u8>| is_perm(p) && perm_code(p) < n ==> best_id <= #[trigger] self.id_under(p),
            decreases 256 - n,
        {
            let a = (n / 64) as u8;
            let b = ((n / 16) % 4) as u8;
            let c = ((n / 4) % 4) as u8;
            let d = (n % 4) as u8;
            let p: [u8; 4] = [a, b, c, d];
            proof {
                assert forall|q: Seq<u8>| is_perm(q) && perm_code(q) == n implies q =~= p@ by {
                    let (q0, q1, q2, q3) = (q[0], q[1], q[2], q[3]);
                    assert(q0 < 4 && q1 < 4 && q2 < 4 && q3 < 4);
                    assert(q0 == n / 64 && q1 == (n / 16) % 4 && q2 == (n / 4) % 4 && q3 == n % 4)
                        by (nonlinear_arith)
                        requires
                            q0 < 4,
                            q1 < 4,
                            q2 < 4,
                            q3 < 4,
                            n == q0 * 64 + q1 * 16 + q2 * 4 + q3,
                    ;
                }
            }
            if a != b && a != c && a != d && b != c && b != d && c != d {
                proof {
                    assert(is_perm(p@));
                }
                let cand = self.relabelled(&p);
                let cid = cand.id();
                if cid < best_id {
                    best = cand;
                    best_id = cid;
                    proof {
                        best_p = p@;
                    }
                }
            }
            n = n + 1;
        }
        proof {
            assert forall|p: Seq<u8>| #[trigger] is_perm(p) implies best.spec_id() <= self.id_under(p) by {
                assert(p[0] < 4 && p[1] < 4 && p[2] < 4 && p[3] < 4);
                assert(perm_code(p) < 256);
            }
        }
        best
    }
}

fn all_in_deck(cards: &Vec<u8>) -> (r: bool)
    ensures
        r == in_deck(cards@),
{
    let mut i: usize = 0;
    while i < cards.len()
        invariant
            i <= cards@.len(),
            forall|j: int| 0 <= j < i ==> #[trigger] cards@[j] < N_CARDS,
        decreases cards@.len() - i,
    {
        if cards[i] >= N_CARDS {
            return false;
        }
        i = i + 1;
    }
    true
}

fn all_distinct(cards: &Vec<u8>) -> (r: bool)
    ensures
        r == cards@.no_duplicates(),
{
    let n = cards.len();
    let mut i: usize = 0;
    while i < n
        invariant
            n == cards@.len(),
            i <= n,
            forall|a: int, b: int| 0 <= a < i && 0 <= b < n && a != b ==> cards@[a] != cards@[b],
        decreases n - i,
    {
        let mut j: usize = 0;
        while j < n
            invariant
                n == cards@.len(),
                i < n,
                j <= n,
                forall|a: int, b: int| 0 <= a < i && 0 <= b < n && a != b ==> cards@[a] != cards@[b],
                forall|b: int| 0 <= b < j && b != i ==> cards@[i as int] != cards@[b],
            decreases n - j,
        {
            if j != i && cards[i] == cards[j] {
                return false;
            }
            j = j + 1;
        }
        i = i + 1;
    }
    true
}

fn relabel_all(p: &[u8; 4], cards: &Vec<u8>) -> (r: Vec<u8>)
    requires
        is_perm(p@),
        in_deck(cards@),
    ensures
        r@ == moved(p@, cards@),
{
    let mut out: Vec<u8> = Vec::new();
    let mut i: usize = 0;
    while i < cards.len()
        invariant
            is_perm(p@),
            in_deck(cards@),
            i <= cards@.len(),
            out@ == moved(p@, cards@.subrange(0, i as int)),
        decreases cards@.len() - i,
    {
        let c = cards[i];
        proof {
            assert(c < N_CARDS);
            assert(p@[(c % 4) as int] < 4);
            assert((c / 4) * 4 + p@[(c % 4) as int] < 52) by (nonlinear_arith)
                requires
                    c < 52,
                    p@[(c % 4) as int] < 4,
            ;
        }
        out.push((c / 4) * 4 + p[(c % 4) as usize]);
        proof {
            assert(moved(p@, cards@.subrange(0, i as int + 1)) =~= moved(p@, cards@.subrange(0, i as int)).push(
                relabel(p@, c),
            ));
        }
        i = i + 1;
    }
    proof {
        assert(cards@.subrange(0, cards@.len() as int) =~= cards@);
    }
    out
}

pub(crate) fn contains(cards: &Vec<u8>, c: u8) -> (r: bool)
    ensures
        r == cards@.contains(c),
{
    let mut i: usize = 0;
    while i < cards.len()
        invariant
            i <= cards@.len(),
            forall|j: int| 0 <= j < i ==> cards@[j] != c,
        decreases cards@.len() - i,
    {
        if cards[i] == c {
            return true;
        }
        i = i + 1;
    }
    false
}

fn board_mask(cards: &Vec<u8>) -> (r: u64)
    ensures
        r == mask(cards@, 52),
        r < 0x10_0000_0000_0000,
{
    let mut acc: u64 = 0;
    let mut bit: u64 = 1;
    let mut c: u8 = 0;
    proof {
        vstd::arithmetic::power2::lemma2_to64();
    }
    while c < 52
        invariant
            c <= 52,
            bit == pow2(c as nat),
            acc == mask(cards@, c as nat),
            acc < bit,
        decreases 52 - c,
    {
        proof {
            vstd::arithmetic::power2::lemma_pow2_adds(c as nat, 1);
            vstd::arithmetic::power2::lemma2_to64();
            vstd::arithmetic::power2::lemma2_to64_rest();
            vstd::arithmetic::power2::lemma_pow2_strictly_increases(c as nat, 52);
        }
        if contains(cards, c) {
            acc = acc + bit;
        }
        bit = bit * 2;
        c = c + 1;
    }
    proof {
        vstd::arithmetic::power2::lemma2_to64_rest();
    }
    acc
}

/// The representative of a class stands for itself: canonicalising twice
/// gives the identity that canonicalising once gives.
/// Two representatives of one observation have one identity: the least
/// over the renamings of its suits.
pub proof fn lemma_representatives_agree(o: &Observation, a: &Observation, b: &Observation)
    requires
        a.represents(o),
        b.represents(o),
    ensures
        a.spec_id() == b.spec_id(),
{
    let p = choose|p: Seq<u8>| #[trigger]
        is_perm(p) && a.pocket@ == moved(p, o.pocket@) && a.public@ == moved(p, o.public@);
    let q = choose|q: Seq<u8>| #[trigger]
        is_perm(q) && b.pocket@ == moved(q, o.pocket@) && b.public@ == moved(q, o.public@);
    assert(a.spec_id() <= o.id_under(q));
    assert(b.spec_id() <= o.id_under(p));
}

/// An observation and its representative belong to one isomorphism, so
/// every encoder gives them one abstraction.
pub proof fn lemma_encode_canonical(o: &Observation, c: &Observation, r1: &Observation, r2: &Observation)
    requires
        o.wf(),
        c.represents(o),
        r1.represents(o),
        r2.represents(c),
    ensures
        r1.spec_id() == r2.spec_id(),
{
    lemma_canonical_idempotent(o, c, r2);
    lemma_representatives_agree(o, r1, c);
}

#[verifier::spinoff_prover]
pub proof fn lemma_canonical_idempotent(o: &Observation, c: &Observation, cc: &Observation)
    requires
        o.wf(),
        c.represents(o),
        cc.represents(c),
    ensures
        cc.spec_id() == c.spec_id(),
{
    let p = choose|p: Seq<u8>| #[trigger]
        is_perm(p) && c.pocket@ == moved(p, o.pocket@) && c.public@ == moved(p, o.public@);
    let q = choose|q: Seq<u8>| #[trigger]
        is_perm(q) && cc.pocket@ == moved(q, c.pocket@) && cc.public@ == moved(q, c.public@);
    let qp = compose(q, p);
    lemma_moved(q, p, o.pocket@);
    lemma_moved(q, p, o.public@);
    lemma_compose(q, p);
    assert(moved(qp, o.pocket@) == cc.pocket@);
    assert(moved(qp, o.public@) == cc.public@);
    assert(o.id_under(qp) == cc.spec_id());
    assert(c.spec_id() <= cc.spec_id()) by {
        assert(is_perm(qp));
        assert(c.spec_id() <= o.id_under(qp));
    }
    let ident = identity();
    assert(is_perm(ident)) by {
        assert(ident[0] == 0 && ident[1] == 1 && ident[2] == 2 && ident[3] == 3);
    }
    lemma_moved(ident, ident, c.pocket@);
    lemma_moved(ident, ident, c.public@);
    assert(c.id_under(ident) == c.spec_id());
    assert(cc.spec_id() <= c.spec_id()) by {
        assert(cc.spec_id() <= c.id_under(ident));
    }
}

} // verus!
