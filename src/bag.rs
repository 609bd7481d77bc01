//! The bag randomizer: a queue of upcoming pieces, stocked with one of each
//! canonical piece in random order whenever it runs empty.
use vstd::prelude::*;
use vstd::arithmetic::div_mod::lemma_small_mod;
use vstd::multiset::Multiset;
use vstd::seq_lib::{group_to_multiset_ensures, to_multiset_len};

use crate::piece::{canonical_pieces, i_view, j_view, l_view, o_view, piece_wf, s_view, t_view, z_view, Piece, PieceView};

verus! {

broadcast use group_to_multiset_ensures;

/// The models of a sequence of pieces.
pub open spec fn views(s: Seq<Piece>) -> Seq<PieceView> {
    s.map_values(|p: Piece| p@)
}

/// Whether `s` holds the seven canonical pieces, each once, in some order.
pub open spec fn is_fresh_bag(s: Seq<PieceView>) -> bool {
    s.to_multiset() == canonical_pieces().to_multiset()
}

/// The order in which pieces leave `pool` when each step takes the piece at
/// the next draw modulo the number of pieces left, until the pool or the
/// draws run out.
pub open spec fn drawn_order(pool: Seq<PieceView>, draws: Seq<usize>) -> Seq<PieceView>
    decreases pool.len(),
{
    if pool.len() == 0 || draws.len() == 0 {
        Seq::empty()
    } else {
        let i = (draws[0] as int) % (pool.len() as int);
        seq![pool[i]] + drawn_order(pool.remove(i), draws.drop_first())
    }
}

/// What taking the next piece does to a bag: the head leaves, and a bag left
/// empty is stocked again with a fresh set.
pub open spec fn popped(bag0: Seq<PieceView>, bag1: Seq<PieceView>) -> bool {
    if bag0.len() > 1 {
        bag1 == bag0.drop_first()
    } else {
        is_fresh_bag(bag1)
    }
}

/// Whether each draw of `d` is already reduced: the `k`-th is below the
/// number of pieces left at step `k` of drawing from `n` pieces.
pub open spec fn reduced_draws(d: Seq<usize>, n: int) -> bool {
    &&& d.len() == n
    &&& forall|k: int| 0 <= k < n ==> (#[trigger] d[k] as int) < n - k
}

/// Every order of the pool's pieces comes out of some reduced draws.
pub proof fn lemma_every_order_drawn(pool: Seq<PieceView>, s: Seq<PieceView>)
    requires
        s.to_multiset() == pool.to_multiset(),
        pool.len() <= usize::MAX,
    ensures
        exists|d: Seq<usize>| reduced_draws(d, pool.len() as int) && #[trigger] drawn_order(pool, d) == s,
    decreases pool.len(),
{
    if pool.len() == 0 {
        let d = Seq::<usize>::empty();
        assert(s.len() == 0);
        assert(s =~= Seq::<PieceView>::empty());
        assert(drawn_order(pool, d) == s);
    } else {
        to_multiset_len(s);
        to_multiset_len(pool);
        assert(s.len() == pool.len());
        assert(s.to_multiset().count(s[0]) > 0) by {
            assert(s.contains(s[0]));
        }
        assert(pool.contains(s[0]));
        let i = choose|i: int| 0 <= i < pool.len() && pool[i] == s[0];
        let rest_pool = pool.remove(i);
        let rest = s.drop_first();
        assert(s.remove(0) =~= rest);
        assert(rest.to_multiset() == rest_pool.to_multiset());
        lemma_every_order_drawn(rest_pool, rest);
        let d1 = choose|d: Seq<usize>| reduced_draws(d, rest_pool.len() as int) && #[trigger] drawn_order(rest_pool, d) == rest;
        let d = seq![i as usize] + d1;
        assert(d.drop_first() =~= d1);
        assert(d[0] == i as usize);
        lemma_small_mod(i as nat, pool.len() as nat);
        assert((d[0] as int) % (pool.len() as int) == i);
        assert(seq![s[0]] + rest =~= s);
        assert(drawn_order(pool, d) == s);
        assert forall|k: int| 0 <= k < pool.len() implies (#[trigger] d[k] as int) < pool.len() - k by {
            if k > 0 {
                assert(d[k] == d1[k - 1]);
            }
        }
    }
}

/// Reduced draws from a pool without repeated pieces give different orders
/// when they differ: with the previous lemma, drawing is a one-to-one map
/// from reduced draws onto the orders of the pool.
pub proof fn lemma_draws_determine_order(pool: Seq<PieceView>, d1: Seq<usize>, d2: Seq<usize>)
    requires
        pool.no_duplicates(),
        reduced_draws(d1, pool.len() as int),
        reduced_draws(d2, pool.len() as int),
        drawn_order(pool, d1) == drawn_order(pool, d2),
    ensures
        d1 == d2,
    decreases pool.len(),
{
    if pool.len() == 0 {
        assert(d1 =~= d2);
    } else {
        let n = pool.len() as int;
        assert((d1[0] as int) < n && (d2[0] as int) < n);
        lemma_small_mod(d1[0] as nat, n as nat);
        lemma_small_mod(d2[0] as nat, n as nat);
        let i1 = (d1[0] as int) % n;
        let i2 = (d2[0] as int) % n;
        assert(drawn_order(pool, d1)[0] == pool[i1]);
        assert(drawn_order(pool, d2)[0] == pool[i2]);
        assert(i1 == i2);
        let rest = pool.remove(i1);
        assert(rest.no_duplicates()) by {
            assert forall|a: int, b: int| 0 <= a < rest.len() && 0 <= b < rest.len() && a != b implies rest[a]
                != rest[b] by {
                let pa = if a < i1 { a } else { a + 1 };
                let pb = if b < i1 { b } else { b + 1 };
                assert(rest[a] == pool[pa]);
                assert(rest[b] == pool[pb]);
            }
        }
        assert(drawn_order(rest, d1.drop_first()) =~= drawn_order(pool, d1).drop_first());
        assert(drawn_order(rest, d2.drop_first()) =~= drawn_order(pool, d2).drop_first());
        assert forall|k: int| 0 <= k < n - 1 implies (#[trigger] d1.drop_first()[k] as int) < n - 1 - k by {
            assert(d1.drop_first()[k] == d1[k + 1]);
        }
        assert forall|k: int| 0 <= k < n - 1 implies (#[trigger] d2.drop_first()[k] as int) < n - 1 - k by {
            assert(d2.drop_first()[k] == d2[k + 1]);
        }
        lemma_draws_determine_order(rest, d1.drop_first(), d2.drop_first());
        assert(d1[0] == d2[0]);
        assert(d1 =~= d2) by {
            assert forall|k: int| 0 <= k < n implies d1[k] == d2[k] by {
                if k > 0 {
                    assert(d1[k] == d1.drop_first()[k - 1]);
                    assert(d2[k] == d2.drop_first()[k - 1]);
                }
            }
        }
    }
}

/// Relies on `rand::thread_rng` and `rand::Rng::gen`: a `usize` drawn from
/// the thread's generator. Nothing is promised of its value.
#[verifier::external_body]
fn random_usize() -> usize {
    rand::Rng::gen::<usize>(&mut rand::thread_rng())
}

/// A queue of upcoming pieces.
pub struct PieceBag {
    pieces: Vec<Piece>,
}

impl View for PieceBag {
    type V = Seq<PieceView>;

    closed spec fn view(&self) -> Seq<PieceView> {
        views(self.pieces@)
    }
}

impl PieceBag {
    /// A bag is never empty and holds only well-formed pieces.
    pub open spec fn wf(&self) -> bool {
        &&& self@.len() >= 1
        &&& forall|i: int| 0 <= i < self@.len() ==> piece_wf(#[trigger] self@[i])
    }

    /// A bag holding one freshly shuffled set of the seven pieces.
    pub fn new() -> (r: PieceBag)
        ensures
            r.wf(),
            is_fresh_bag(r@),
            exists|d: Seq<usize>| d.len() == 7 && r@ == #[trigger] drawn_order(canonical_pieces(), d),
    {
        let mut p = PieceBag { pieces: Vec::new() };
        p.fill_bag();
        assert(p@.subrange(0, 7) =~= p@);
        proof {
            let d = choose|d: Seq<usize>| d.len() == 7 && p@ =~= Seq::<PieceView>::empty() + #[trigger] drawn_order(
                canonical_pieces(),
                d,
            );
            assert(Seq::<PieceView>::empty() + drawn_order(canonical_pieces(), d) =~= drawn_order(
                canonical_pieces(),
                d,
            ));
        }
        p
    }

    /// Appends the seven canonical pieces in a random order: seven numbers are
    /// drawn and the pieces taken as `fill_bag_with` takes them.
    fn fill_bag(&mut self)
        requires
            forall|i: int| 0 <= i < old(self)@.len() ==> piece_wf(#[trigger] old(self)@[i]),
        ensures
            final(self)@.len() == old(self)@.len() + 7,
            final(self)@.subrange(0, old(self)@.len() as int) == old(self)@,
            is_fresh_bag(final(self)@.subrange(old(self)@.len() as int, final(self)@.len() as int)),
            forall|i: int| 0 <= i < final(self)@.len() ==> piece_wf(#[trigger] final(self)@[i]),
            exists|d: Seq<usize>|
                d.len() == 7 && final(self)@ =~= old(self)@ + #[trigger] drawn_order(canonical_pieces(), d),
    {
        let mut draws: Vec<usize> = Vec::with_capacity(7);
        let mut k: usize = 0;
        while k < 7
            invariant
                k <= 7,
                draws@.len() == k,
            decreases 7 - k,
        {
            draws.push(random_usize());
            k += 1;
        }
        self.fill_bag_with(&draws);
    }

    /// Appends the seven canonical pieces, taking them from a pool that starts
    /// as O, L, J, T, S, Z, I: at each step the piece at the next draw modulo
    /// the number left is removed from the pool and appended.
    pub fn fill_bag_with(&mut self, draws: &Vec<usize>)
        requires
            draws@.len() == 7,
            forall|i: int| 0 <= i < old(self)@.len() ==> piece_wf(#[trigger] old(self)@[i]),
        ensures
            final(self)@ == old(self)@ + drawn_order(canonical_pieces(), draws@),
            final(self)@.len() == old(self)@.len() + 7,
            final(self)@.subrange(0, old(self)@.len() as int) == old(self)@,
            is_fresh_bag(final(self)@.subrange(old(self)@.len() as int, final(self)@.len() as int)),
            forall|i: int| 0 <= i < final(self)@.len() ==> piece_wf(#[trigger] final(self)@[i]),
    {
        let mut pool: Vec<Piece> = vec![
            Piece::new_o(),
            Piece::new_l(),
            Piece::new_j(),
            Piece::new_t(),
            Piece::new_s(),
            Piece::new_z(),
            Piece::new_i(),
        ];
        assert(views(pool@) =~= canonical_pieces());
        let ghost base = self@;
        let ghost n = base.len();
        let ghost all = drawn_order(canonical_pieces(), draws@);
        assert(draws@.subrange(0, 7) =~= draws@);
        let mut k: usize = 0;
        while pool.len() > 0
            invariant
                draws@.len() == 7,
                k <= 7,
                self@.len() >= n,
                self@.subrange(0, n as int) == base,
                self@.len() + pool@.len() == n + 7,
                pool@.len() == 7 - k,
                self@.len() == n + k,
                base + all == self@ + drawn_order(views(pool@), draws@.subrange(k as int, 7)),
                self@.subrange(n as int, self@.len() as int).to_multiset().add(views(pool@).to_multiset())
                    == canonical_pieces().to_multiset(),
                forall|i: int| 0 <= i < self@.len() ==> piece_wf(#[trigger] self@[i]),
                forall|i: int| 0 <= i < pool@.len() ==> piece_wf(#[trigger] views(pool@)[i]),
            decreases pool@.len(),
        {
            let ghost before = self@;
            let ghost pool_before = views(pool@);
            let i = draws[k] % pool.len();
            let piece = pool.remove(i);
            self.pieces.push(piece);
            proof {
                assert(views(pool@) =~= pool_before.remove(i as int));
                assert(self@ =~= before.push(piece@));
                assert(self@.subrange(0, n as int) =~= before.subrange(0, n as int));
                assert(self@.subrange(n as int, self@.len() as int) =~= before.subrange(
                    n as int,
                    before.len() as int,
                ).push(piece@));
                assert(pool_before[i as int] == piece@);
                assert(forall|k: int| 0 <= k < views(pool@).len() ==> views(pool@)[k] == pool_before.remove(i as int)[k]);
                let rest = draws@.subrange(k as int, 7);
                assert(rest[0] == draws@[k as int]);
                assert(rest.drop_first() =~= draws@.subrange(k as int + 1, 7));
                assert(drawn_order(pool_before, rest) == seq![piece@] + drawn_order(
                    views(pool@),
                    draws@.subrange(k as int + 1, 7),
                ));
                assert(before + (seq![piece@] + drawn_order(views(pool@), draws@.subrange(k as int + 1, 7))) =~= self@
                    + drawn_order(views(pool@), draws@.subrange(k as int + 1, 7)));
            }
            k += 1;
        }
        assert(views(pool@).to_multiset() =~= Multiset::empty());
        let ghost fresh = self@.subrange(n as int, self@.len() as int);
        assert(fresh.to_multiset().add(Multiset::empty()) =~= fresh.to_multiset());
        assert(self@ + drawn_order(views(pool@), draws@.subrange(k as int, 7)) =~= self@);
    }

    /// Removes and returns the next piece; a bag left empty is stocked again
    /// at once.
    pub fn pop(&mut self) -> (r: Piece)
        requires
            old(self).wf(),
        ensures
            final(self).wf(),
            r@ == old(self)@[0],
            r.wf(),
            popped(old(self)@, final(self)@),
    {
        let ghost before = self@;
        let piece = self.pieces.remove(0);
        assert(piece_wf(before[0]));
        assert(self@ =~= before.drop_first());
        if self.pieces.is_empty() {
            self.fill_bag();
            assert(self@.subrange(0, 7) =~= self@);
        }
        piece
    }

    /// A copy of the next piece.
    pub fn peek(&self) -> (r: Piece)
        requires
            self.wf(),
        ensures
            r@ == self@[0],
            r.wf(),
    {
        assert(piece_wf(self@[0]));
        self.pieces[0].clone()
    }
}

/// A freshly stocked bag holds each of the seven canonical pieces exactly once,
/// so no piece repeats before every piece has come out.
pub proof fn lemma_fresh_bag_once_each(s: Seq<PieceView>)
    requires
        is_fresh_bag(s),
    ensures
        s.len() == 7,
        forall|k: int| 0 <= k < 7 ==> s.to_multiset().count(#[trigger] canonical_pieces()[k]) == 1,
        forall|v: PieceView| s.to_multiset().count(v) <= 1,
        forall|v: PieceView| #[trigger] s.contains(v) <==> canonical_pieces().contains(v),
        s.no_duplicates(),
        canonical_pieces().no_duplicates(),
{
    let c = canonical_pieces();
    assert(c.len() == 7);
    assert(o_view().shape.len() == 2);
    assert(i_view().shape.len() == 4);
    assert(l_view().shape[0][2] && !j_view().shape[0][2] && !t_view().shape[0][2] && !z_view().shape[0][2]);
    assert(l_view().shape[0][2] && s_view().shape[0][2]);
    assert(l_view().shape[0][1] != s_view().shape[0][1]);
    assert(j_view().shape[0][0] && z_view().shape[0][0] && !t_view().shape[0][0]);
    assert(j_view().shape[0][1] != z_view().shape[0][1]);
    assert(c =~= seq![o_view()].push(l_view()).push(j_view()).push(t_view()).push(s_view()).push(z_view()).push(i_view()));
    assert forall|v: PieceView| c.to_multiset().count(v) == if c.contains(v) { 1nat } else { 0nat } by {
        let s1 = seq![o_view()];
        let s2 = s1.push(l_view());
        let s3 = s2.push(j_view());
        let s4 = s3.push(t_view());
        let s5 = s4.push(s_view());
        let s6 = s5.push(z_view());
        assert(s1 =~= Seq::empty().push(o_view()));
        assert(Seq::<PieceView>::empty().to_multiset() =~= Multiset::empty());
        assert(c.contains(v) <==> (v == o_view() || v == l_view() || v == j_view() || v == t_view() || v == s_view() || v == z_view() || v == i_view())) by {
            if v == o_view() { assert(c[0] == v); }
            if v == l_view() { assert(c[1] == v); }
            if v == j_view() { assert(c[2] == v); }
            if v == t_view() { assert(c[3] == v); }
            if v == s_view() { assert(c[4] == v); }
            if v == z_view() { assert(c[5] == v); }
            if v == i_view() { assert(c[6] == v); }
        }
    }
    assert(s.to_multiset().len() == c.to_multiset().len());
    assert forall|k: int| 0 <= k < 7 implies s.to_multiset().count(#[trigger] c[k]) == 1 by {
        assert(c.contains(c[k]));
    }
    assert forall|v: PieceView| #[trigger] s.contains(v) <==> c.contains(v) by {
        assert(s.contains(v) <==> s.to_multiset().count(v) > 0);
        assert(c.contains(v) <==> c.to_multiset().count(v) > 0);
    }
    assert forall|v: PieceView| c.to_multiset().contains(v) implies c.to_multiset().count(v) == 1 by {
        assert(c.contains(v));
    }
    c.lemma_multiset_has_no_duplicates_conv();
    assert forall|v: PieceView| s.to_multiset().contains(v) implies s.to_multiset().count(v) == 1 by {
        assert(c.to_multiset().count(v) > 0);
        assert(c.contains(v));
    }
    s.lemma_multiset_has_no_duplicates_conv();
}


/// After `k` of seven pops from a fresh bag, what is left is the bag from
/// position `k` on.
proof fn lemma_pops_leave_suffix(bags: Seq<Seq<PieceView>>, k: int)
    requires
        bags.len() == 8,
        bags[0].len() == 7,
        forall|j: int| 0 <= j < 7 ==> popped(#[trigger] bags[j], bags[j + 1]),
        0 <= k <= 6,
    ensures
        bags[k] == bags[0].subrange(k, 7),
    decreases k,
{
    if k == 0 {
        assert(bags[0].subrange(0, 7) =~= bags[0]);
    } else {
        lemma_pops_leave_suffix(bags, k - 1);
        assert(popped(bags[k - 1], bags[k]));
        assert(bags[k - 1].drop_first() =~= bags[0].subrange(k, 7));
    }
}

/// Seven pops from a freshly stocked bag return the seven canonical pieces,
/// each once, in the bag's order, and leave a freshly stocked bag again; so
/// from a new bag, every run of seven pops that starts at a multiple of seven
/// yields each piece exactly once.
pub proof fn lemma_seven_pops(bags: Seq<Seq<PieceView>>, outs: Seq<PieceView>)
    requires
        bags.len() == 8,
        outs.len() == 7,
        is_fresh_bag(bags[0]),
        forall|k: int| 0 <= k < 7 ==> #[trigger] outs[k] == bags[k][0] && popped(bags[k], bags[k + 1]),
    ensures
        outs == bags[0],
        is_fresh_bag(outs),
        is_fresh_bag(bags[7]),
{
    lemma_fresh_bag_once_each(bags[0]);
    assert forall|j: int| 0 <= j < 7 implies popped(#[trigger] bags[j], bags[j + 1]) by {
        assert(outs[j] == bags[j][0]);
    }
    assert forall|k: int| 0 <= k < 7 implies #[trigger] outs[k] == bags[0][k] by {
        lemma_pops_leave_suffix(bags, k);
    }
    assert(outs =~= bags[0]);
    lemma_pops_leave_suffix(bags, 6);
    assert(popped(bags[6], bags[7]));
}

/// From a freshly stocked bag, `7 * m` pops in a row come out as `m` runs
/// of seven, each run holding the seven canonical pieces once; the bag is
/// freshly stocked again after each run.
pub proof fn lemma_pops_in_sevens(bags: Seq<Seq<PieceView>>, outs: Seq<PieceView>, m: nat)
    requires
        bags.len() == 7 * m + 1,
        outs.len() == 7 * m,
        is_fresh_bag(bags[0]),
        forall|k: int| 0 <= k < 7 * m ==> #[trigger] outs[k] == bags[k][0] && popped(bags[k], bags[k + 1]),
    ensures
        forall|j: int| 0 <= j <= m ==> is_fresh_bag(#[trigger] bags[7 * j]),
        forall|j: int| 0 <= j < m ==> is_fresh_bag(#[trigger] outs.subrange(7 * j, 7 * j + 7)),
    decreases m,
{
    if m > 0 {
        let m1 = (m - 1) as nat;
        let b1 = bags.subrange(0, 7 * m1 as int + 1);
        let o1 = outs.subrange(0, 7 * m1 as int);
        assert forall|k: int| 0 <= k < 7 * m1 implies #[trigger] o1[k] == b1[k][0] && popped(b1[k], b1[k + 1]) by {
            assert(outs[k] == bags[k][0] && popped(bags[k], bags[k + 1]));
        }
        lemma_pops_in_sevens(b1, o1, m1);
        let base: int = 7 * m1 as int;
        assert(is_fresh_bag(b1[base]));
        let bs = bags.subrange(base, base + 8);
        let os = outs.subrange(base, base + 7);
        assert forall|k: int| 0 <= k < 7 implies #[trigger] os[k] == bs[k][0] && popped(bs[k], bs[k + 1]) by {
            assert(outs[base + k] == bags[base + k][0] && popped(bags[base + k], bags[base + k + 1]));
        }
        lemma_seven_pops(bs, os);
        assert forall|j: int| 0 <= j <= m implies is_fresh_bag(#[trigger] bags[7 * j]) by {
            if j < m {
                assert(bags[7 * j] == b1[7 * j]);
            } else {
                assert(bags[7 * j] == bs[7]);
            }
        }
        assert forall|j: int| 0 <= j < m implies is_fresh_bag(#[trigger] outs.subrange(7 * j, 7 * j + 7)) by {
            if j < m1 {
                assert(outs.subrange(7 * j, 7 * j + 7) =~= o1.subrange(7 * j, 7 * j + 7));
            } else {
                assert(outs.subrange(7 * j, 7 * j + 7) =~= os);
            }
        }
    }
}

} // verus!
