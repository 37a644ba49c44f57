use crate::abstraction::{id_of, Abstraction};
use crate::cards::{contains, Observation};
use crate::street::Street;
use vstd::arithmetic::power2::pow2;
use vstd::prelude::*;

verus! {

/// Rank of a card, from 0 (a two) to 12 (an ace).
pub open spec fn rank_of(c: u8) -> int {
    (c / 4) as int
}

/// Suit of a card, from 0 to 3.
pub open spec fn suit_of(c: u8) -> int {
    (c % 4) as int
}

/// How many of the cards have rank `r`.
pub open spec fn count_rank(h: Seq<u8>, r: int) -> nat
    decreases h.len(),
{
    if h.len() == 0 {
        0
    } else {
        count_rank(h.drop_last(), r) + if rank_of(h.last()) == r {
            1nat
        } else {
            0nat
        }
    }
}

/// Bit set of the ranks below `n` that occur exactly `c` times.
pub open spec fn group_mask(h: Seq<u8>, c: nat, n: nat) -> int
    decreases n,
{
    if n == 0 {
        0
    } else {
        group_mask(h, c, (n - 1) as nat) + if count_rank(h, n - 1) == c {
            pow2((n - 1) as nat) as int
        } else {
            0
        }
    }
}

/// All cards share one suit.
pub open spec fn same_suit(h: Seq<u8>) -> bool {
    forall|i: int| 0 <= i < h.len() ==> #[trigger] suit_of(h[i]) == suit_of(h[0])
}

/// The five ranks ending at `top` all occur.
pub open spec fn run_at(h: Seq<u8>, top: int) -> bool {
    forall|d: int| 0 <= d < 5 ==> count_rank(h, #[trigger] (top - d)) > 0
}

/// The five-high straight: ace, two, three, four, five.
pub open spec fn wheel(h: Seq<u8>) -> bool {
    count_rank(h, 12) > 0 && count_rank(h, 0) > 0 && count_rank(h, 1) > 0 && count_rank(h, 2) > 0
        && count_rank(h, 3) > 0
}

/// Rank of the top card of the highest straight whose top is at most `t`;
/// the wheel counts as five high; -1 when there is none.
pub open spec fn straight_below(h: Seq<u8>, t: int) -> int
    decreases t,
{
    if t < 4 {
        if wheel(h) {
            3
        } else {
            -1
        }
    } else if run_at(h, t) {
        t
    } else {
        straight_below(h, t - 1)
    }
}

/// Category of a five-card hand: 8 straight flush, 7 four of a kind, 6 full
/// house, 5 flush, 4 straight, 3 three of a kind, 2 two pair, 1 one pair,
/// 0 high card.
pub open spec fn category(h: Seq<u8>) -> int {
    let s = straight_below(h, 12);
    let pairs = group_mask(h, 2, 13);
    if same_suit(h) && s >= 0 {
        8
    } else if group_mask(h, 4, 13) > 0 {
        7
    } else if group_mask(h, 3, 13) > 0 && pairs > 0 {
        6
    } else if same_suit(h) {
        5
    } else if s >= 0 {
        4
    } else if group_mask(h, 3, 13) > 0 {
        3
    } else if group_size(h, 2, 13) >= 2 {
        2
    } else if pairs > 0 {
        1
    } else {
        0
    }
}

/// How many ranks below `n` occur exactly `c` times.
pub open spec fn group_size(h: Seq<u8>, c: nat, n: nat) -> nat
    decreases n,
{
    if n == 0 {
        0
    } else {
        group_size(h, c, (n - 1) as nat) + if count_rank(h, n - 1) == c {
            1nat
        } else {
            0nat
        }
    }
}

/// Order within a category: the straight's top card for straights, else the
/// rank sets of the quads, trips, pairs and single cards, in that order of
/// weight, each compared from its highest rank down.
pub open spec fn tiebreak(h: Seq<u8>) -> int {
    let c = category(h);
    if c == 8 || c == 4 {
        straight_below(h, 12)
    } else {
        group_mask(h, 4, 13) * pow2(39) + group_mask(h, 3, 13) * pow2(26) + group_mask(h, 2, 13) * pow2(
            13,
        ) + group_mask(h, 1, 13)
    }
}

/// Strength of a five-card hand: a greater number is a better hand.
pub open spec fn score5(h: Seq<u8>) -> int {
    category(h) * pow2(52) + tiebreak(h)
}

/// The five cards left when cards `i` and `j` (`i < j`) are set aside.
pub open spec fn without(c: Seq<u8>, i: int, j: int) -> Seq<u8> {
    Seq::new(
        (c.len() - 2) as nat,
        |k: int|
            if k < i {
                c[k]
            } else if k < j - 1 {
                c[k + 1]
            } else {
                c[k + 2]
            },
    )
}

/// Best five-card score among the ways of setting two of the seven cards
/// aside, over the first `n` pairs of positions `(n / 7, n % 7)`.
pub open spec fn best_upto(c: Seq<u8>, n: nat) -> int
    decreases n,
{
    if n == 0 {
        0
    } else {
        let m = (n - 1) as int;
        let i = m / 7;
        let j = m % 7;
        let prev = best_upto(c, (n - 1) as nat);
        if i < j && score5(without(c, i, j)) > prev {
            score5(without(c, i, j))
        } else {
            prev
        }
    }
}

/// Strength of a seven-card hand: the best of its five-card hands.
pub open spec fn strength_of(c: Seq<u8>) -> int {
    best_upto(c, 49)
}

/// Every card is in the deck.
pub open spec fn cards_ok(h: Seq<u8>) -> bool {
    forall|i: int| 0 <= i < h.len() ==> #[trigger] h[i] < 52
}

/// Counts the cards of each rank.
fn rank_counts(h: &Vec<u8>) -> (r: Vec<u8>)
    requires
        cards_ok(h@),
        h@.len() <= 7,
    ensures
        r@.len() == 13,
        forall|k: int| 0 <= k < 13 ==> #[trigger] r@[k] == count_rank(h@, k),
{
    let mut counts: Vec<u8> = vec![0u8; 13];
    let mut i: usize = 0;
    proof {
        assert forall|k: int| 0 <= k < 13 implies #[trigger] counts@[k] == count_rank(h@.subrange(0, 0), k) by {
            assert(h@.subrange(0, 0).len() == 0);
        }
    }
    while i < h.len()
        invariant
            cards_ok(h@),
            h@.len() <= 7,
            i <= h@.len(),
            counts@.len() == 13,
            forall|k: int| 0 <= k < 13 ==> #[trigger] counts@[k] == count_rank(h@.subrange(0, i as int), k),
            forall|k: int| 0 <= k < 13 ==> #[trigger] counts@[k] <= i,
        decreases h@.len() - i,
    {
        let c = h[i];
        proof {
            assert(h@[i as int] < 52);
        }
        let r = (c / 4) as usize;
        let ghost before = counts@;
        counts.set(r, counts[r] + 1);
        proof {
            let pre = h@.subrange(0, i as int);
            let post = h@.subrange(0, i as int + 1);
            assert(post.drop_last() =~= pre);
            assert(post.last() == c);
            assert forall|k: int| 0 <= k < 13 implies #[trigger] counts@[k] == count_rank(post, k) by {
                assert(count_rank(post, k) == count_rank(pre, k) + if rank_of(c) == k { 1nat } else { 0nat });
                if k != r as int {
                    assert(counts@[k] == before[k]);
                }
            }
        }
        i = i + 1;
    }
    proof {
        assert(h@.subrange(0, h@.len() as int) =~= h@);
    }
    counts
}

/// The set of ranks that occur exactly `c` times, and how many there are.
fn group(counts: &Vec<u8>, c: u8, Ghost(h): Ghost<Seq<u8>>) -> (r: (u64, u64))
    requires
        counts@.len() == 13,
        forall|k: int| 0 <= k < 13 ==> #[trigger] counts@[k] == count_rank(h, k),
    ensures
        r.0 == group_mask(h, c as nat, 13),
        r.0 < 0x2000,
        r.1 == group_size(h, c as nat, 13),
        r.1 <= 13,
{
    let mut mask: u64 = 0;
    let mut size: u64 = 0;
    let mut bit: u64 = 1;
    let mut k: usize = 0;
    proof {
        vstd::arithmetic::power2::lemma2_to64();
    }
    while k < 13
        invariant
            counts@.len() == 13,
            forall|q: int| 0 <= q < 13 ==> #[trigger] counts@[q] == count_rank(h, q),
            k <= 13,
            bit == pow2(k as nat),
            mask == group_mask(h, c as nat, k as nat),
            mask < bit,
            size == group_size(h, c as nat, k as nat),
            size <= k,
        decreases 13 - k,
    {
        proof {
            vstd::arithmetic::power2::lemma_pow2_adds(k as nat, 1);
            vstd::arithmetic::power2::lemma2_to64();
        }
        if counts[k] == c {
            mask = mask + bit;
            size = size + 1;
        }
        bit = bit * 2;
        k = k + 1;
    }
    proof {
        vstd::arithmetic::power2::lemma2_to64();
    }
    (mask, size)
}

/// Top rank of the highest straight, the wheel five high, or -1.
fn straight(counts: &Vec<u8>, Ghost(h): Ghost<Seq<u8>>) -> (r: i64)
    requires
        counts@.len() == 13,
        forall|k: int| 0 <= k < 13 ==> #[trigger] counts@[k] == count_rank(h, k),
    ensures
        r == straight_below(h, 12),
        -1 <= r <= 12,
{
    let mut t: usize = 12;
    while t >= 4
        invariant
            counts@.len() == 13,
            forall|k: int| 0 <= k < 13 ==> #[trigger] counts@[k] == count_rank(h, k),
            3 <= t <= 12,
            straight_below(h, 12) == straight_below(h, t as int),
        decreases t,
    {
        if counts[t] > 0 && counts[t - 1] > 0 && counts[t - 2] > 0 && counts[t - 3] > 0 && counts[t - 4] > 0 {
            proof {
                assert forall|d: int| 0 <= d < 5 implies count_rank(h, #[trigger] (t - d)) > 0 by {
                    assert(counts@[t - d] == count_rank(h, t - d));
                }
            }
            return t as i64;
        }
        proof {
            let d = if counts@[t as int] == 0 { 0int } else if counts@[t - 1] == 0 { 1int } else if counts@[t - 2] == 0 { 2int } else if counts@[t - 3] == 0 { 3int } else { 4int };
            assert(count_rank(h, t - d) == 0);
            assert(!run_at(h, t as int));
        }
        t = t - 1;
    }
    if counts[12] > 0 && counts[0] > 0 && counts[1] > 0 && counts[2] > 0 && counts[3] > 0 {
        3
    } else {
        -1
    }
}

fn same_suit_exec(h: &Vec<u8>) -> (r: bool)
    requires
        h@.len() > 0,
    ensures
        r == same_suit(h@),
{
    let s = h[0] % 4;
    let mut i: usize = 0;
    while i < h.len()
        invariant
            h@.len() > 0,
            s == suit_of(h@[0]),
            i <= h@.len(),
            forall|k: int| 0 <= k < i ==> #[trigger] suit_of(h@[k]) == suit_of(h@[0]),
        decreases h@.len() - i,
    {
        if h[i] % 4 != s {
            proof {
                assert(suit_of(h@[i as int]) != suit_of(h@[0]));
            }
            return false;
        }
        i = i + 1;
    }
    true
}

/// Strength of a five-card hand.
pub fn score_five(h: &Vec<u8>) -> (r: u64)
    requires
        h@.len() == 5,
        cards_ok(h@),
    ensures
        r == score5(h@),
{
    let counts = rank_counts(h);
    let (quads, _) = group(&counts, 4, Ghost(h@));
    let (trips, _) = group(&counts, 3, Ghost(h@));
    let (pairs, n_pairs) = group(&counts, 2, Ghost(h@));
    let (singles, _) = group(&counts, 1, Ghost(h@));
    let top = straight(&counts, Ghost(h@));
    let flush = same_suit_exec(h);
    let cat: u64 = if flush && top >= 0 {
        8
    } else if quads > 0 {
        7
    } else if trips > 0 && pairs > 0 {
        6
    } else if flush {
        5
    } else if top >= 0 {
        4
    } else if trips > 0 {
        3
    } else if n_pairs >= 2 {
        2
    } else if pairs > 0 {
        1
    } else {
        0
    };
    proof {
        vstd::arithmetic::power2::lemma2_to64();
        vstd::arithmetic::power2::lemma2_to64_rest();
        assert(pow2(13) == 0x2000);
        assert(pow2(26) == 0x400_0000);
        assert(pow2(39) == 0x80_0000_0000);
        assert(pow2(52) == 0x10_0000_0000_0000);
        assert(cat == category(h@));
    }
    let tb: u64 = if cat == 8 || cat == 4 {
        top as u64
    } else {
        quads * 0x80_0000_0000 + trips * 0x400_0000 + pairs * 0x2000 + singles
    };
    cat * 0x10_0000_0000_0000 + tb
}

/// Strength of a seven-card hand: the best of its five-card hands.
pub fn strength(c: &Vec<u8>) -> (r: u64)
    requires
        c@.len() == 7,
        cards_ok(c@),
    ensures
        r == strength_of(c@),
{
    let mut best: u64 = 0;
    let mut n: usize = 0;
    while n < 49
        invariant
            c@.len() == 7,
            cards_ok(c@),
            n <= 49,
            best == best_upto(c@, n as nat),
        decreases 49 - n,
    {
        let i = n / 7;
        let j = n % 7;
        if i < j {
            let mut hand: Vec<u8> = Vec::new();
            let mut k: usize = 0;
            while k < 7
                invariant
                    c@.len() == 7,
                    cards_ok(c@),
                    i < j < 7,
                    k <= 7,
                    hand@.len() == if k <= i { k as int } else if k <= j { k - 1 } else { k - 2 },
                    forall|q: int| 0 <= q < hand@.len() ==> #[trigger] hand@[q] == without(c@, i as int, j as int)[q],
                decreases 7 - k,
            {
                if k != i && k != j {
                    hand.push(c[k]);
                }
                k = k + 1;
            }
            proof {
                assert(hand@ =~= without(c@, i as int, j as int));
                assert(cards_ok(hand@)) by {
                    assert forall|q: int| 0 <= q < 5 implies #[trigger] hand@[q] < 52 by {
                        let w = without(c@, i as int, j as int);
                        assert(hand@[q] == w[q]);
                    }
                }
            }
            let s = score_five(&hand);
            if s > best {
                best = s;
            }
        }
        n = n + 1;
    }
    best
}

/// Gives the strength of a seven-card hand.
pub trait Evaluator {
    fn strength(cards: &Vec<u8>) -> (r: u64)
        requires
            cards@.len() == 7,
            cards_ok(cards@),
        ensures
            r == strength_of(cards@),
    ;
}

/// Evaluates a hand by scoring each of its five-card hands in turn.
pub struct LazyEvaluator;

impl Evaluator for LazyEvaluator {
    fn strength(cards: &Vec<u8>) -> (r: u64) {
        strength(cards)
    }
}

/// The card is in the deck and not among the observation's cards.
pub open spec fn unseen(o: &Observation, c: u8) -> bool {
    c < 52 && !(o.pocket@ + o.public@).contains(c)
}

/// Outcome for the observer against hole cards `a`, `b` on the same
/// board: two for a win, one for a tie, none for a loss.
pub open spec fn duel(o: &Observation, a: u8, b: u8) -> int {
    let mine = strength_of(o.pocket@ + o.public@);
    let theirs = strength_of(seq![a, b] + o.public@);
    if mine > theirs {
        2
    } else if mine == theirs {
        1
    } else {
        0
    }
}

/// Over the first `n` pairs `(n / 52, n % 52)` of unseen cards in
/// increasing order: the outcomes summed, and how many pairs there were.
pub open spec fn tally(o: &Observation, n: nat) -> (int, int)
    decreases n,
{
    if n == 0 {
        (0, 0)
    } else {
        let m = (n - 1) as int;
        let a = (m / 52) as u8;
        let b = (m % 52) as u8;
        let prev = tally(o, (n - 1) as nat);
        if a < b && unseen(o, a) && unseen(o, b) {
            (prev.0 + duel(o, a, b), prev.1 + 1)
        } else {
            prev
        }
    }
}

/// Equity bucket of a River observation: its share of the showdowns
/// against every opponent hand, ties counting half, rounded to a hundredth.
pub open spec fn bucket_of(o: &Observation) -> u64 {
    ((100 * tally(o, 2704).0 + tally(o, 2704).1) / (2 * tally(o, 2704).1)) as u64
}

/// The River observation's showdown against every hand the opponent can
/// hold: the outcomes summed (two a win, one a tie), and the number of
/// opponent hands.
pub fn river_equity(o: &Observation) -> (r: (u64, u64))
    requires
        o.wf(),
        o.public@.len() == 5,
    ensures
        r.0 == tally(o, 2704).0,
        r.1 == tally(o, 2704).1,
{
    let mut seen = o.pocket.clone();
    let mut board = o.public.clone();
    seen.append(&mut board);
    assert(seen@ =~= o.pocket@ + o.public@);
    proof {
        assert(cards_ok(seen@)) by {
            assert forall|i: int| 0 <= i < seen@.len() implies #[trigger] seen@[i] < 52 by {
                if i < 2 {
                    assert(seen@[i] == o.pocket@[i]);
                } else {
                    assert(seen@[i] == o.public@[i - 2]);
                }
            }
        }
    }
    let mine = strength(&seen);
    let mut wins: u64 = 0;
    let mut total: u64 = 0;
    let mut n: usize = 0;
    while n < 2704
        invariant
            o.wf(),
            o.public@.len() == 5,
            seen@ == o.pocket@ + o.public@,
            mine == strength_of(o.pocket@ + o.public@),
            n <= 2704,
            wins == tally(o, n as nat).0,
            total == tally(o, n as nat).1,
            wins <= 2 * n,
            total <= n,
        decreases 2704 - n,
    {
        let a = (n / 52) as u8;
        let b = (n % 52) as u8;
        if a < b && !contains(&seen, a) && !contains(&seen, b) {
            let mut theirs: Vec<u8> = vec![a, b];
            let mut rest = o.public.clone();
            theirs.append(&mut rest);
            proof {
                assert(theirs@ =~= seq![a, b] + o.public@);
                assert(cards_ok(theirs@)) by {
                    assert forall|i: int| 0 <= i < theirs@.len() implies #[trigger] theirs@[i] < 52 by {
                        if i >= 2 {
                            assert(theirs@[i] == o.public@[i - 2]);
                        }
                    }
                }
            }
            let other = strength(&theirs);
            if mine > other {
                wins = wins + 2;
            } else if mine == other {
                wins = wins + 1;
            }
            total = total + 1;
        }
        n = n + 1;
    }
    (wins, total)
}

/// The River abstraction of an observation: its equity bucket, when the
/// opponent has any hand to hold.
pub fn river_abstraction(o: &Observation) -> (r: Option<Abstraction>)
    requires
        o.wf(),
        o.public@.len() == 5,
    ensures
        r is Some <==> tally(o, 2704).1 > 0,
        r matches Some(a) ==> a.wf() && a.spec_street() == Street::Rive && a.spec_index() == (100
            * tally(o, 2704).0 + tally(o, 2704).1) / (2 * tally(o, 2704).1) && a.spec_id() == id_of(
            Street::Rive,
            bucket_of(o),
        ),
{
    let (wins, total) = river_equity(o);
    if total == 0 {
        return None;
    }
    proof {
        lemma_tally_bound(o, 2704);
        assert(wins <= 2 * total);
        assert(total <= 2704);
        assert((200 * wins + 2 * total) / (2 * (2 * total)) == (100 * wins + total) / (2 * total)) by (nonlinear_arith)
            requires total > 0;
    }
    Some(Abstraction::from_equity(wins, 2 * total))
}

proof fn lemma_tally_bound(o: &Observation, n: nat)
    ensures
        0 <= tally(o, n).0 <= 2 * tally(o, n).1,
        0 <= tally(o, n).1 <= n,
    decreases n,
{
    if n > 0 {
        lemma_tally_bound(o, (n - 1) as nat);
    }
}

} // verus!
