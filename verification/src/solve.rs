//! The decomposition search.
//!
//! `solve` enumerates, by depth-first backtracking over the canonical kind
//! order, every way to assign all of a board's numbered tiles to valid melds.
//! A meld is a run (three or more consecutive ranks of one color) or a group
//! (three or four tiles of one rank in distinct colors); a joker may stand in
//! for a missing member, but every meld must keep at least two natural tiles.
//! Jokers themselves never have to be placed: a decomposition may leave some
//! over, and reports how many.

use vstd::prelude::*;

use crate::tiles::{
    Tile, Color, Tiles, kind_at, spec_kind_at, naturals, jokers, total, lemma_sum_prefix_update,
    lemma_sum_prefix_bounds, lemma_sum_prefix_zero, lemma_sum_prefix_ge_elem,
};

verus! {

/// One complete decomposition of a board: the melds, outermost first, and how
/// many jokers were left unplaced.
pub struct Solution {
    /// The melds, each a small multiset naming the kinds the meld covers
    /// (a kind a joker stands in for is named like a natural member).
    pub combos: Vec<Tiles>,
    /// How many jokers no meld consumed.
    pub leftover_jokers: u8,
}

/// Pointwise comparison of two count records: `a` holds no kind that `b`
/// does not also hold, copy for copy.
pub open spec fn pointwise_le(a: Seq<u8>, b: Seq<u8>) -> bool {
    a.len() == 53 && b.len() == 53 && forall|i: int| 0 <= i < 53 ==> a[i] <= b[i]
}

/// The count a run of length `l` starting at rank `r` in color `c` has at
/// canonical position `j`.
pub open spec fn run_count(c: int, r: int, l: int, j: int) -> u8 {
    if j != 52 && j % 4 == c && r - 1 <= j / 4 < r - 1 + l {
        1u8
    } else {
        0u8
    }
}

/// `s` is exactly the run of length `l` starting at rank `r` in color `c`.
pub open spec fn is_run_with(s: Seq<u8>, c: int, r: int, l: int) -> bool {
    &&& 0 <= c < 4
    &&& 1 <= r
    &&& 3 <= l
    &&& r + l - 1 <= 13
    &&& s.len() == 53
    &&& forall|j: int| 0 <= j < 53 ==> s[j] == run_count(c, r, l, j)
}

/// `s` is a run: at least three consecutive ranks, one copy each, in one color.
pub open spec fn is_run(s: Seq<u8>) -> bool {
    exists|c: int, r: int, l: int| is_run_with(s, c, r, l)
}

/// Every kind `s` holds, it holds once, and is a numbered kind of rank `r`.
pub open spec fn group_positions(s: Seq<u8>, r: int) -> bool {
    &&& 1 <= r <= 13
    &&& s.len() == 53
    &&& forall|j: int| 0 <= j < 53 ==> (s[j] == 0 || (s[j] == 1 && j != 52 && j / 4 == r - 1))
}

/// `s` is a group: three or four tiles of rank `r`, in pairwise distinct colors.
pub open spec fn is_group_with(s: Seq<u8>, r: int) -> bool {
    group_positions(s, r) && 3 <= total(s) <= 4
}

/// `s` is a group of some rank.
pub open spec fn is_group(s: Seq<u8>) -> bool {
    exists|r: int| is_group_with(s, r)
}

/// `s` is a valid meld: a run or a group.
pub open spec fn is_meld(s: Seq<u8>) -> bool {
    is_run(s) || is_group(s)
}

/// Every entry of a meld sequence is a well-formed board holding a valid meld.
pub open spec fn melds_wf(melds: Seq<Tiles>) -> bool {
    forall|i: int| 0 <= i < melds.len() ==> (#[trigger] melds[i]).wf() && is_meld(melds[i]@)
}

/// How many tiles a meld sequence consumes in all, jokers counted at the
/// kinds they stand in for.
pub open spec fn melds_total(melds: Seq<Tiles>) -> int
    decreases melds.len(),
{
    if melds.len() == 0 {
        0
    } else {
        melds_total(melds.drop_last()) + total(melds.last()@)
    }
}

/// How many melds of the sequence cover the kind at canonical position `j`.
pub open spec fn melds_at(melds: Seq<Tiles>, j: int) -> int
    decreases melds.len(),
{
    if melds.len() == 0 {
        0
    } else {
        melds_at(melds.drop_last(), j) + melds.last()@[j]
    }
}

/// What the search promises of each decomposition it emits while `chain` is
/// the committed meld prefix and `residual` the unexplained remainder: the
/// decomposition extends the committed prefix, consists only of valid melds,
/// leaves no more jokers over than the remainder still holds, its melds past
/// the prefix consume the remainder exactly, but for the leftover jokers, and
/// they cover every copy of every numbered kind the remainder holds.
pub open spec fn sol_ok(sol: Solution, chain: Seq<Tiles>, residual: Seq<u8>) -> bool {
    &&& sol.combos@.len() >= chain.len()
    &&& sol.combos@.subrange(0, chain.len() as int) == chain
    &&& melds_wf(sol.combos@)
    &&& sol.leftover_jokers <= jokers(residual)
    &&& melds_total(sol.combos@) == melds_total(chain) + total(residual) - sol.leftover_jokers
    &&& forall|j: int| 0 <= j < 52 ==> melds_at(sol.combos@, j) >= melds_at(chain, j) + residual[j]
}

/// What every decomposition of a board `m` satisfies: its melds are all valid,
/// it leaves no more jokers over than `m` holds, its melds consume exactly the
/// whole board but for the leftover jokers, and they cover every copy of every
/// numbered kind of `m`.
pub open spec fn solution_sound(sol: Solution, m: Seq<u8>) -> bool {
    &&& melds_wf(sol.combos@)
    &&& sol.leftover_jokers <= jokers(m)
    &&& melds_total(sol.combos@) == total(m) - sol.leftover_jokers
    &&& forall|j: int| 0 <= j < 52 ==> melds_at(sol.combos@, j) >= m[j]
}

/// `n` extends `o`: nothing already emitted is altered or dropped.
pub open spec fn out_extended(o: Seq<Solution>, n: Seq<Solution>) -> bool {
    n.len() >= o.len() && forall|i: int| 0 <= i < o.len() ==> n[i] == o[i]
}

/// A candidate meld: distinct, well-formed, numbered kinds.
pub open spec fn cand_wf(cand: Seq<Tile>) -> bool {
    &&& forall|i: int| 0 <= i < cand.len() ==> (#[trigger] cand[i]).wf() && !cand[i].is_joker()
    &&& forall|i: int, j: int| 0 <= i < j < cand.len() ==> cand[i].ord() != cand[j].ord()
}

/// The count record holding one copy of each kind a candidate names.
pub open spec fn combo_seq(cand: Seq<Tile>) -> Seq<u8> {
    Seq::new(
        53,
        |j: int|
            if exists|k: int| 0 <= k < cand.len() && (#[trigger] cand[k]).ord() == j {
                1u8
            } else {
                0u8
            },
    )
}

/// A count record holding nothing.
pub open spec fn zero53() -> Seq<u8> {
    Seq::new(53, |i: int| 0u8)
}

/// Satisfying a candidate, one member at a time: from member `i` on, the
/// reduced residual, the meld record gathered so far, and how many members
/// were natural; nothing if a member has neither a natural copy nor a joker.
pub open spec fn spec_test_step(
    cand: Seq<Tile>,
    i: int,
    resid: Seq<u8>,
    combo: Seq<u8>,
    nats: int,
) -> Option<(Seq<u8>, Seq<u8>, int)>
    decreases cand.len() - i,
{
    if i < 0 || i >= cand.len() {
        Some((resid, combo, nats))
    } else {
        let o = cand[i].ord();
        if 0 <= o < 53 && resid[o] > 0 {
            spec_test_step(
                cand,
                i + 1,
                resid.update(o, (resid[o] - 1) as u8),
                combo.update(o, (combo[o] + 1) as u8),
                nats + 1,
            )
        } else if resid[52] > 0 {
            spec_test_step(
                cand,
                i + 1,
                resid.update(52, (resid[52] - 1) as u8),
                combo.update(o, (combo[o] + 1) as u8),
                nats,
            )
        } else {
            None
        }
    }
}

/// What satisfying a whole candidate against a residual yields: the reduced
/// residual and the meld record, provided every member was covered and at
/// least two were natural.
pub open spec fn spec_test_combo(cand: Seq<Tile>, resid: Seq<u8>) -> Option<(Seq<u8>, Seq<u8>)> {
    match spec_test_step(cand, 0, resid, zero53(), 0) {
        Some(st) => if st.2 >= 2 {
            Some((st.0, st.1))
        } else {
            None
        },
        None => None,
    }
}

/// A satisfied candidate consumes one tile for each member.
proof fn lemma_spec_test_step_total(
    cand: Seq<Tile>,
    i: int,
    resid: Seq<u8>,
    combo: Seq<u8>,
    nats: int,
)
    requires
        resid.len() == 53,
        0 <= i <= cand.len(),
        spec_test_step(cand, i, resid, combo, nats) is Some,
    ensures
        ({
            let st = spec_test_step(cand, i, resid, combo, nats).unwrap();
            st.0.len() == 53 && total(st.0) == total(resid) - (cand.len() - i)
        }),
    decreases cand.len() - i,
{
    if i < cand.len() {
        let o = cand[i].ord();
        if 0 <= o < 53 && resid[o] > 0 {
            lemma_sum_prefix_update(resid, 53, o, (resid[o] - 1) as u8);
            lemma_spec_test_step_total(
                cand,
                i + 1,
                resid.update(o, (resid[o] - 1) as u8),
                combo.update(o, (combo[o] + 1) as u8),
                nats + 1,
            );
        } else {
            lemma_sum_prefix_update(resid, 53, 52, (resid[52] - 1) as u8);
            lemma_spec_test_step_total(
                cand,
                i + 1,
                resid.update(52, (resid[52] - 1) as u8),
                combo.update(o, (combo[o] + 1) as u8),
                nats,
            );
        }
    }
}

/// A satisfied candidate leaves a strictly smaller residual.
proof fn lemma_spec_test_combo_total(cand: Seq<Tile>, resid: Seq<u8>)
    requires
        resid.len() == 53,
        1 <= cand.len(),
        spec_test_combo(cand, resid) is Some,
    ensures
        ({
            let p = spec_test_combo(cand, resid).unwrap();
            p.0.len() == 53 && total(p.0) == total(resid) - cand.len() && total(p.0) < total(resid)
        }),
{
    lemma_spec_test_step_total(cand, 0, resid, zero53(), 0);
}

/// A decomposition as a plain value: meld records beyond the committed
/// prefix, and the jokers left over.
pub struct Decomp {
    /// The meld records, outermost first.
    pub melds: Seq<Seq<u8>>,
    /// How many jokers no meld consumed.
    pub leftover: int,
}

/// The same decompositions, each with one more meld at the front.
pub open spec fn prepend_meld(combo: Seq<u8>, ds: Seq<Decomp>) -> Seq<Decomp> {
    ds.map_values(|d: Decomp| Decomp { melds: seq![combo] + d.melds, leftover: d.leftover })
}

/// The first canonical position at or after `cur` whose kind the residual
/// still holds; 53 when there is none.
pub open spec fn spec_scan(m: Seq<u8>, cur: int) -> int
    decreases 53 - cur,
{
    if cur < 0 || cur >= 53 {
        53
    } else if m[cur] != 0 {
        cur
    } else {
        spec_scan(m, cur + 1)
    }
}

/// The run candidate from `rank` through `e` in one color.
pub open spec fn run_cand(rank: int, color: Color, e: int) -> Seq<Tile> {
    Seq::new((e - rank + 1) as nat, |k: int| Tile::Number((rank + k) as u8, color))
}

/// The group candidates a cursor color owns: the lowest color starts every
/// combination it belongs to; blue starts the one of the three higher colors;
/// orange starts that same combination, its blue member then standing for a
/// joker, since the blue tile is already explained when the cursor rests on
/// orange; red starts none.
pub open spec fn group_cands(rank: int, color: Color) -> Seq<Seq<Tile>> {
    let b = Tile::Number(rank as u8, Color::Black);
    let u = Tile::Number(rank as u8, Color::Blue);
    let o = Tile::Number(rank as u8, Color::Orange);
    let r = Tile::Number(rank as u8, Color::Red);
    match color {
        Color::Black => seq![seq![b, u, o], seq![b, u, r], seq![b, o, r], seq![b, u, o, r]],
        Color::Blue => seq![seq![u, o, r]],
        Color::Orange => seq![seq![u, o, r]],
        Color::Red => seq![],
    }
}

/// Every decomposition of the residual from the cursor on, in enumeration
/// order: the trivial one when only jokers remain unexplained, and otherwise
/// one for each satisfiable candidate meld begun at the cursor kind, extended
/// by each decomposition of what that candidate leaves.
pub open spec fn spec_search(m: Seq<u8>, cur: int) -> Seq<Decomp>
    decreases total(m), 20int, 0int,
        when m.len() == 53
    via spec_search_decreases
{
    let c2 = spec_scan(m, cur);
    if c2 >= 52 {
        seq![
            Decomp {
                melds: Seq::empty(),
                leftover: if c2 == 53 {
                    0int
                } else {
                    m[52] as int
                },
            },
        ]
    } else {
        let rank = c2 / 4 + 1;
        let color = crate::tiles::spec_color_at(c2);
        (if rank <= 11 && spec_test_combo(run_cand(rank, color, rank + 1), m) is Some {
            spec_runs(m, c2, rank, color, rank + 2)
        } else {
            Seq::empty()
        }) + spec_group_seq(m, c2, group_cands(rank, color), 0)
    }
}

/// The decompositions that runs from the cursor yield: extend the prefix one
/// rank at a time, greedily, searching on behind each satisfiable prefix.
pub open spec fn spec_runs(m: Seq<u8>, cur: int, rank: int, color: Color, e: int) -> Seq<Decomp>
    decreases total(m), 16int - e, 0int,
        when m.len() == 53 && 1 <= rank && rank + 2 <= e
    via spec_runs_decreases
{
    if e > 13 {
        Seq::empty()
    } else {
        match spec_test_combo(run_cand(rank, color, e), m) {
            None => Seq::empty(),
            Some(p) => prepend_meld(p.1, spec_search(p.0, cur)) + spec_runs(
                m,
                cur,
                rank,
                color,
                e + 1,
            ),
        }
    }
}

/// The decompositions one candidate meld yields: none if the residual cannot
/// satisfy it, and otherwise each decomposition of what it leaves, behind it.
pub open spec fn group_step(m: Seq<u8>, cur: int, cand: Seq<Tile>) -> Seq<Decomp>
    decreases total(m), 17int, 0int,
        when m.len() == 53 && 1 <= cand.len()
    via group_step_decreases
{
    match spec_test_combo(cand, m) {
        None => Seq::empty(),
        Some(p) => prepend_meld(p.1, spec_search(p.0, cur)),
    }
}

/// The decompositions that the listed group candidates yield, in order.
pub open spec fn spec_group_seq(m: Seq<u8>, cur: int, cands: Seq<Seq<Tile>>, i: int) -> Seq<Decomp>
    decreases total(m), 18int, cands.len() - i,
        when m.len() == 53 && (forall|k: int| 0 <= k < cands.len() ==> 1 <= cands[k].len())
    via spec_group_seq_decreases
{
    if i < 0 || i >= cands.len() {
        Seq::empty()
    } else {
        group_step(m, cur, cands[i]) + spec_group_seq(m, cur, cands, i + 1)
    }
}

/// The scan lands between the start of the catalog and just past its end.
proof fn lemma_spec_scan_bounds(m: Seq<u8>, cur: int)
    ensures
        0 <= spec_scan(m, cur) <= 53,
    decreases 53 - cur,
{
    if !(cur < 0 || cur >= 53) && m[cur] == 0 {
        lemma_spec_scan_bounds(m, cur + 1);
    }
}

#[via_fn]
proof fn spec_search_decreases(m: Seq<u8>, cur: int) {
    crate::tiles::lemma_sum_prefix_nonneg(m, 53);
    lemma_spec_scan_bounds(m, cur);
}

#[via_fn]
proof fn spec_runs_decreases(m: Seq<u8>, cur: int, rank: int, color: Color, e: int) {
    crate::tiles::lemma_sum_prefix_nonneg(m, 53);
    if m.len() == 53 && rank + 2 <= e <= 13 && 1 <= rank {
        let cand = run_cand(rank, color, e);
        if spec_test_combo(cand, m) is Some {
            lemma_spec_test_combo_total(cand, m);
            crate::tiles::lemma_sum_prefix_nonneg(spec_test_combo(cand, m).unwrap().0, 53);
        }
    }
}

#[via_fn]
proof fn group_step_decreases(m: Seq<u8>, cur: int, cand: Seq<Tile>) {
    crate::tiles::lemma_sum_prefix_nonneg(m, 53);
    if m.len() == 53 && 1 <= cand.len() {
        if spec_test_combo(cand, m) is Some {
            lemma_spec_test_combo_total(cand, m);
            crate::tiles::lemma_sum_prefix_nonneg(spec_test_combo(cand, m).unwrap().0, 53);
        }
    }
}

#[via_fn]
proof fn spec_group_seq_decreases(m: Seq<u8>, cur: int, cands: Seq<Seq<Tile>>, i: int) {
    crate::tiles::lemma_sum_prefix_nonneg(m, 53);
}

/// The count records of a meld sequence.
pub open spec fn melds_views(melds: Seq<Tiles>) -> Seq<Seq<u8>> {
    melds.map_values(|t: Tiles| t@)
}

/// The entries of `n` beyond those of `o` are exactly the decompositions
/// `ds`, each behind the committed prefix `chain`, and the entries of `o`
/// stand unchanged.
pub open spec fn out_matches(
    o: Seq<Solution>,
    n: Seq<Solution>,
    chain: Seq<Tiles>,
    ds: Seq<Decomp>,
) -> bool {
    &&& n.len() == o.len() + ds.len()
    &&& forall|i: int| 0 <= i < o.len() ==> n[i] == o[i]
    &&& forall|i: int| 0 <= i < ds.len() ==> melds_views(
        (#[trigger] n[o.len() + i]).combos@,
    ) == melds_views(chain) + ds[i].melds && n[o.len() + i].leftover_jokers as int
        == ds[i].leftover
}

/// Matched stretches of emissions concatenate.
proof fn lemma_out_matches_concat(
    o0: Seq<Solution>,
    o1: Seq<Solution>,
    o2: Seq<Solution>,
    chain: Seq<Tiles>,
    d1: Seq<Decomp>,
    d2: Seq<Decomp>,
)
    requires
        out_matches(o0, o1, chain, d1),
        out_matches(o1, o2, chain, d2),
    ensures
        out_matches(o0, o2, chain, d1 + d2),
{
    assert forall|i: int| 0 <= i < (d1 + d2).len() implies melds_views(
        (#[trigger] o2[o0.len() + i]).combos@,
    ) == melds_views(chain) + (d1 + d2)[i].melds && o2[o0.len() + i].leftover_jokers as int == (d1
        + d2)[i].leftover by {
        if i < d1.len() {
            assert(o2[o0.len() + i] == o1[o0.len() + i]);
        } else {
            assert(o2[o0.len() + i] == o2[o1.len() + (i - d1.len())]);
        }
    }
}

/// Emissions matched one level down, behind one more committed meld, match
/// here with that meld put at the front of each decomposition.
proof fn lemma_out_matches_chain(
    o0: Seq<Solution>,
    o1: Seq<Solution>,
    o2: Seq<Solution>,
    chain: Seq<Tiles>,
    combo: Tiles,
    done: Seq<Decomp>,
    ds: Seq<Decomp>,
)
    requires
        out_matches(o0, o1, chain, done),
        out_matches(o1, o2, chain.push(combo), ds),
    ensures
        out_matches(o0, o2, chain, done + prepend_meld(combo@, ds)),
{
    let pre = prepend_meld(combo@, ds);
    assert(melds_views(chain.push(combo)) =~= melds_views(chain).push(combo@));
    assert forall|i: int| 0 <= i < (done + pre).len() implies melds_views(
        (#[trigger] o2[o0.len() + i]).combos@,
    ) == melds_views(chain) + (done + pre)[i].melds && o2[o0.len() + i].leftover_jokers as int == (
    done + pre)[i].leftover by {
        if i < done.len() {
            assert(o2[o0.len() + i] == o1[o0.len() + i]);
        } else {
            let k = i - done.len();
            assert(o2[o0.len() + i] == o2[o1.len() + k]);
            assert(pre[k].melds == seq![combo@] + ds[k].melds);
            assert(melds_views(chain) + (seq![combo@] + ds[k].melds) =~= melds_views(chain).push(
                combo@,
            ) + ds[k].melds);
        }
    }
}

/// An exact copy of a meld sequence.
fn clone_melds(v: &Vec<Tiles>) -> (r: Vec<Tiles>)
    ensures
        r@ == v@,
{
    let mut r: Vec<Tiles> = Vec::new();
    let mut i: usize = 0;
    while i < v.len()
        invariant
            i <= v@.len(),
            r@ == v@.subrange(0, i as int),
        decreases v@.len() - i,
    {
        r.push(v[i]);
        proof {
            assert(r@ =~= v@.subrange(0, i + 1));
        }
        i = i + 1;
    }
    proof {
        assert(r@ =~= v@);
    }
    r
}

/// Try to satisfy a candidate meld against the residual: consume a natural
/// copy of each named kind when one is present, a joker otherwise. Succeeds
/// only when every member is covered and at least two members are natural;
/// returns the reduced residual and the meld's own count record.
fn test_combo(cand: &Vec<Tile>, residual: &Tiles) -> (r: Option<(Tiles, Tiles)>)
    requires
        residual.wf(),
        cand_wf(cand@),
        1 <= cand@.len() <= 53,
    ensures
        match r {
            Some(p) => {
                &&& p.0.wf()
                &&& p.1.wf()
                &&& pointwise_le(p.0@, residual@)
                &&& total(p.0@) == total(residual@) - cand@.len()
                &&& naturals(p.0@) <= naturals(residual@) - 2
                &&& p.1@ == combo_seq(cand@)
                &&& total(p.1@) == cand@.len()
                &&& forall|j: int| 0 <= j < 52 ==> p.0@[j] + p.1@[j] >= residual@[j]
                &&& spec_test_combo(cand@, residual@) == Some((p.0@, p.1@))
            },
            None => spec_test_combo(cand@, residual@) is None,
        },
{
    let mut nr = *residual;
    let mut combo = Tiles::new();
    let mut nat_used: usize = 0;
    let mut i: usize = 0;
    proof {
        assert(combo@ =~= combo_seq(cand@.subrange(0, 0)));
        assert(combo@ =~= zero53());
        lemma_sum_prefix_zero(combo@, 53);
    }
    while i < cand.len()
        invariant
            residual.wf(),
            cand_wf(cand@),
            1 <= cand@.len() <= 53,
            i <= cand@.len(),
            nr.wf(),
            combo.wf(),
            pointwise_le(nr@, residual@),
            total(nr@) == total(residual@) - i,
            naturals(nr@) == naturals(residual@) - nat_used,
            nat_used <= i,
            combo@ == combo_seq(cand@.subrange(0, i as int)),
            total(combo@) == i,
            forall|j: int| 0 <= j < 52 ==> nr@[j] + combo@[j] >= residual@[j],
            spec_test_step(cand@, 0, residual@, zero53(), 0) == spec_test_step(
                cand@,
                i as int,
                nr@,
                combo@,
                nat_used as int,
            ),
        decreases cand@.len() - i,
    {
        let t = cand[i];
        proof {
            assert(0 <= t.ord() < 52);
        }
        let c = nr.get_count(&t);
        let ghost nr0 = nr@;
        if c > 0 {
            nr.set_count(&t, (c - 1) as u8);
            nat_used = nat_used + 1;
            proof {
                lemma_sum_prefix_update(nr0, 53, t.ord(), (c - 1) as u8);
                lemma_sum_prefix_update(nr0, 52, t.ord(), (c - 1) as u8);
            }
        } else {
            let jc = nr.count_at(52);
            if jc == 0 {
                return None;
            }
            nr.set_count(&Tile::Joker, (jc - 1) as u8);
            proof {
                lemma_sum_prefix_update(nr0, 53, 52, (jc - 1) as u8);
                lemma_sum_prefix_update(nr0, 52, 52, (jc - 1) as u8);
            }
        }
        let ghost pre = cand@.subrange(0, i as int);
        let ghost combo0 = combo@;
        proof {
            // the kind is new to the combo: the candidate's kinds are distinct
            if combo_seq(pre)[t.ord()] == 1 {
                let k = choose|k: int| 0 <= k < pre.len() && (#[trigger] pre[k]).ord() == t.ord();
                assert(cand@[k].ord() == cand@[i as int].ord());
                assert(false);
            }
        }
        let add_res = combo.add_tile(&t);
        proof {
            assert(add_res is Ok);
            lemma_sum_prefix_update(combo0, 53, t.ord(), 1u8);
            let post = cand@.subrange(0, i + 1);
            assert forall|j: int| 0 <= j < 53 implies combo@[j] == combo_seq(post)[j] by {
                if j == t.ord() {
                    assert(post[i as int].ord() == j);
                    assert(combo_seq(post)[j] == 1);
                } else {
                    if combo_seq(pre)[j] == 1 {
                        let k = choose|k: int| 0 <= k < pre.len() && (#[trigger] pre[k]).ord()
                            == j;
                        assert(post[k].ord() == j);
                        assert(combo_seq(post)[j] == 1);
                    } else if combo_seq(post)[j] == 1 {
                        let k = choose|k: int| 0 <= k < post.len() && (#[trigger] post[k]).ord()
                            == j;
                        assert(pre[k].ord() == j);
                        assert(false);
                    }
                }
            }
            assert(combo@ =~= combo_seq(cand@.subrange(0, i + 1)));
        }
        i = i + 1;
    }
    if nat_used < 2 {
        return None;
    }
    proof {
        assert(cand@.subrange(0, cand@.len() as int) =~= cand@);
    }
    Some((nr, combo))
}

/// A decomposition acceptable one level down, behind one more committed meld
/// and a smaller residual, is acceptable here, and is longer than the chain.
proof fn lemma_sol_lift(s: Solution, chain: Seq<Tiles>, combo: Tiles, outer: Seq<u8>, inner: Seq<u8>)
    requires
        sol_ok(s, chain.push(combo), inner),
        pointwise_le(inner, outer),
        total(inner) == total(outer) - total(combo@),
        forall|j: int| 0 <= j < 52 ==> inner[j] + combo@[j] >= outer[j],
    ensures
        sol_ok(s, chain, outer),
        s.combos@.len() > chain.len(),
{
    let l = chain.len() as int;
    assert(s.combos@.subrange(0, l + 1) == chain.push(combo));
    assert forall|i: int| 0 <= i < l implies s.combos@.subrange(0, l)[i] == chain[i] by {
        assert(s.combos@.subrange(0, l + 1)[i] == chain.push(combo)[i]);
    }
    assert(s.combos@.subrange(0, l) =~= chain);
    assert(chain.push(combo).drop_last() =~= chain);
    assert(melds_total(chain.push(combo)) == melds_total(chain) + total(combo@));
    assert forall|j: int| 0 <= j < 52 implies melds_at(s.combos@, j) >= melds_at(chain, j)
        + outer[j] by {
        assert(melds_at(chain.push(combo), j) == melds_at(chain, j) + combo@[j]);
    }
}

/// Acceptable emissions compose across consecutive stretches of the search.
proof fn lemma_extend_compose(
    o0: Seq<Solution>,
    o1: Seq<Solution>,
    o2: Seq<Solution>,
    chain: Seq<Tiles>,
    r: Seq<u8>,
)
    requires
        out_extended(o0, o1),
        out_extended(o1, o2),
        forall|i: int| o0.len() <= i < o1.len() ==> sol_ok(#[trigger] o1[i], chain, r) && o1[i].combos@.len() > chain.len(),
        forall|i: int| o1.len() <= i < o2.len() ==> sol_ok(#[trigger] o2[i], chain, r) && o2[i].combos@.len() > chain.len(),
    ensures
        out_extended(o0, o2),
        forall|i: int| o0.len() <= i < o2.len() ==> sol_ok(#[trigger] o2[i], chain, r) && o2[i].combos@.len() > chain.len(),
{
    assert forall|i: int| o0.len() <= i < o2.len() implies sol_ok(#[trigger] o2[i], chain, r)
        && o2[i].combos@.len() > chain.len() by {
        if i < o1.len() {
            assert(o2[i] == o1[i]);
        }
    }
}

/// `t` has rank `rank`.
pub open spec fn is_rank(t: Tile, rank: u8) -> bool {
    match t {
        Tile::Number(r, _) => r == rank,
        Tile::Joker => false,
    }
}

/// A candidate listing `l` consecutive ranks of one color, lowest first,
/// covers exactly the positions of that run.
proof fn lemma_run_shape(cand: Seq<Tile>, c: Color, rank: u8, l: int)
    requires
        l == cand.len(),
        3 <= l,
        1 <= rank,
        rank + l - 1 <= 13,
        forall|k: int| 0 <= k < l ==> (#[trigger] cand[k]) == Tile::Number((rank + k) as u8, c),
    ensures
        cand_wf(cand),
        is_run_with(combo_seq(cand), c.ord(), rank as int, l),
{
    let co = c.ord();
    assert forall|k: int| 0 <= k < l implies (#[trigger] cand[k]).wf() && !cand[k].is_joker()
        && cand[k].ord() == (rank + k - 1) * 4 + co by {
        assert(cand[k] == Tile::Number((rank + k) as u8, c));
    }
    assert forall|j: int| 0 <= j < 53 implies combo_seq(cand)[j] == run_count(
        co,
        rank as int,
        l,
        j,
    ) by {
        if j != 52 && j % 4 == co && rank - 1 <= j / 4 < rank - 1 + l {
            let k = j / 4 - (rank - 1);
            assert(j == 4 * (j / 4) + j % 4) by (nonlinear_arith);
            assert(cand[k].ord() == j);
            assert(combo_seq(cand)[j] == 1);
        } else {
            if combo_seq(cand)[j] == 1 {
                let k = choose|k: int| 0 <= k < cand.len() && (#[trigger] cand[k]).ord() == j;
                assert(j == (rank + k - 1) * 4 + co);
                assert(j % 4 == co && j / 4 == rank + k - 1) by (nonlinear_arith)
                    requires
                        j == (rank + k - 1) * 4 + co,
                        0 <= co < 4,
                        0 <= rank + k - 1,
                ;
                assert(false);
            }
        }
    }
}

/// A candidate whose members all carry one rank covers only positions of that
/// rank's row, one copy each.
proof fn lemma_group_shape(cand: Seq<Tile>, rank: u8)
    requires
        1 <= rank <= 13,
        forall|k: int| 0 <= k < cand.len() ==> is_rank(#[trigger] cand[k], rank),
    ensures
        group_positions(combo_seq(cand), rank as int),
{
    assert forall|j: int| 0 <= j < 53 implies (combo_seq(cand)[j] == 0 || (combo_seq(cand)[j]
        == 1 && j != 52 && j / 4 == rank - 1)) by {
        if combo_seq(cand)[j] == 1 {
            let k = choose|k: int| 0 <= k < cand.len() && (#[trigger] cand[k]).ord() == j;
            let co = cand[k].ord() - (rank - 1) * 4;
            assert(j == (rank - 1) * 4 + co && 0 <= co < 4);
            assert(j % 4 == co && j / 4 == rank - 1) by (nonlinear_arith)
                requires
                    j == (rank - 1) * 4 + co,
                    0 <= co < 4,
                    1 <= rank,
            ;
        }
    }
}

/// Commit one group candidate: if the residual can satisfy it, push it and
/// search on behind it. Emits only decompositions that extend the chain by at
/// least this meld, and emits nothing when fewer than two naturals remain.
fn try_group(cand: &Vec<Tile>, residual: &Tiles, cur: usize, chain: &mut Vec<Tiles>, out: &mut Vec<Solution>)
    requires
        residual.wf(),
        cur <= 53,
        forall|j: int| 0 <= j < cur ==> residual@[j] == 0,
        melds_wf(old(chain)@),
        cand_wf(cand@),
        3 <= cand@.len() <= 4,
        exists|r: int| group_positions(combo_seq(cand@), r),
    ensures
        final(chain)@ == old(chain)@,
        out_extended(old(out)@, final(out)@),
        forall|i: int| old(out)@.len() <= i < final(out)@.len() ==> sol_ok(
            #[trigger] final(out)@[i],
            old(chain)@,
            residual@,
        ) && final(out)@[i].combos@.len() > old(chain)@.len(),
        naturals(residual@) <= 1 ==> final(out)@ == old(out)@,
        out_matches(old(out)@, final(out)@, old(chain)@, group_step(residual@, cur as int, cand@)),
    decreases total(residual@), 0int,
{
    proof {
        lemma_sum_prefix_bounds(residual@, 52);
    }
    match test_combo(cand, residual) {
        None => {
            proof {
                assert(out_matches(out@, out@, chain@, Seq::<Decomp>::empty()));
            }
        },
        Some((nr, combo)) => {
            proof {
                lemma_sum_prefix_bounds(nr@, 52);
                lemma_sum_prefix_bounds(nr@, 53);
                let r = choose|r: int| group_positions(combo_seq(cand@), r);
                assert(is_group_with(combo@, r));
                assert(melds_wf(old(chain)@.push(combo))) by {
                    assert(forall|i: int| 0 <= i < old(chain)@.len() ==> old(chain)@.push(combo)[i]
                        == old(chain)@[i]);
                }
            }
            let ghost out_mid = out@;
            chain.push(combo);
            solve_rec(&nr, cur, chain, out);
            let _ = chain.pop();
            proof {
                assert(chain@ =~= old(chain)@);
                assert forall|i: int| out_mid.len() <= i < out@.len() implies sol_ok(
                    #[trigger] out@[i],
                    old(chain)@,
                    residual@,
                ) && out@[i].combos@.len() > old(chain)@.len() by {
                    lemma_sol_lift(out@[i], old(chain)@, combo, residual@, nr@);
                }
                assert(out_matches(out_mid, out_mid, old(chain)@, Seq::<Decomp>::empty()));
                lemma_out_matches_chain(
                    out_mid,
                    out_mid,
                    out@,
                    old(chain)@,
                    combo,
                    Seq::empty(),
                    spec_search(nr@, cur as int),
                );
                assert(Seq::<Decomp>::empty() + prepend_meld(combo@, spec_search(nr@, cur as int))
                    =~= prepend_meld(combo@, spec_search(nr@, cur as int)));
            }
        },
    }
}

/// The depth-first scan from a cursor position: skip fully explained kinds;
/// emit a decomposition when only jokers (or nothing) remain; otherwise try
/// every candidate meld that the kind under the cursor can begin, and search
/// on behind each one that the residual satisfies.
#[verifier::rlimit(100)]
fn solve_rec(residual: &Tiles, cur: usize, chain: &mut Vec<Tiles>, out: &mut Vec<Solution>)
    requires
        residual.wf(),
        cur <= 53,
        forall|j: int| 0 <= j < cur ==> residual@[j] == 0,
        melds_wf(old(chain)@),
    ensures
        final(chain)@ == old(chain)@,
        out_extended(old(out)@, final(out)@),
        forall|i: int| old(out)@.len() <= i < final(out)@.len() ==> sol_ok(
            #[trigger] final(out)@[i],
            old(chain)@,
            residual@,
        ),
        naturals(residual@) >= 1 ==> forall|i: int|
            old(out)@.len() <= i < final(out)@.len() ==> (#[trigger] final(out)@[i]).combos@.len()
                > old(chain)@.len(),
        naturals(residual@) == 0 ==> final(out)@.len() == old(out)@.len() + 1
            && final(out)@.last().combos@ == old(chain)@
            && final(out)@.last().leftover_jokers == jokers(residual@),
        naturals(residual@) == 1 ==> final(out)@ == old(out)@,
        out_matches(old(out)@, final(out)@, old(chain)@, spec_search(residual@, cur as int)),
    decreases total(residual@), 1int,
{
    let ghost out0 = out@;
    let ghost chain0 = chain@;

    // advance the cursor past fully explained kinds
    let mut cur2 = cur;
    while cur2 < 53 && residual.count_at(cur2) == 0
        invariant
            residual.wf(),
            cur <= cur2 <= 53,
            forall|j: int| 0 <= j < cur2 ==> residual@[j] == 0,
            spec_scan(residual@, cur as int) == spec_scan(residual@, cur2 as int),
        decreases 53 - cur2,
    {
        cur2 = cur2 + 1;
    }
    proof {
        assert(spec_scan(residual@, cur as int) == cur2 as int);
    }
    let ghost search_all = spec_search(residual@, cur as int);

    if cur2 >= 52 {
        // every numbered kind is explained: emit, with the jokers left over
        proof {
            lemma_sum_prefix_zero(residual@, 52);
        }
        let leftover: u8 = if cur2 == 53 {
            0
        } else {
            residual.count_at(52)
        };
        let combos = clone_melds(chain);
        out.push(Solution { combos, leftover_jokers: leftover });
        proof {
            assert(out@ == out0.push(out@[out0.len() as int]));
            assert(out@[out0.len() as int].combos@.subrange(0, chain0.len() as int) =~= chain0);
            assert(total(residual@) == jokers(residual@));
            assert(search_all == seq![
                Decomp { melds: Seq::empty(), leftover: leftover as int },
            ]);
            assert(melds_views(chain0) + Seq::<Seq<u8>>::empty() =~= melds_views(chain0));
            assert(out_matches(out0, out@, chain0, search_all));
        }
        return ;
    }

    // the cursor kind: a numbered tile with at least one copy unexplained
    let t = kind_at(cur2);
    let rank: u8 = (cur2 / 4) as u8 + 1;
    let color: Color = match cur2 % 4 {
        0 => Color::Black,
        1 => Color::Blue,
        2 => Color::Orange,
        _ => Color::Red,
    };
    proof {
        assert(t == Tile::Number(rank, color));
        lemma_sum_prefix_ge_elem(residual@, 52, cur2 as int);
        lemma_sum_prefix_bounds(residual@, 52);
        assert(naturals(residual@) >= 1);
    }

    let ghost m = residual@;
    let ghost ci = cur2 as int;
    let ghost ranki = rank as int;
    let ghost cands = group_cands(ranki, color);
    let ghost mut acc: Seq<Decomp> = Seq::empty();
    proof {
        assert(color == crate::tiles::spec_color_at(ci));
        assert(ranki == ci / 4 + 1);
        assert(forall|k: int| 0 <= k < cands.len() ==> 1 <= (#[trigger] cands[k]).len());
    }

    // runs: grow from the two-tile stem, greedily, committing each prefix of
    // length three or more that the residual satisfies
    if rank <= 11 {
        let mut cand: Vec<Tile> = Vec::new();
        cand.push(Tile::Number(rank, color));
        cand.push(Tile::Number(rank + 1, color));
        proof {
            assert(cand@[0].ord() != cand@[1].ord());
            assert(cand_wf(cand@));
            assert(cand@ =~= run_cand(ranki, color, ranki + 1));
        }
        let stem_ok = test_combo(&cand, residual).is_some();
        if stem_ok {
            let mut e: u8 = rank + 2;
            let mut alive = true;
            proof {
                assert(out_matches(out0, out@, chain0, acc));
            }
            while alive && e <= 13
                invariant
                    residual.wf(),
                    m == residual@,
                    ci == cur2 as int,
                    ranki == rank as int,
                    cur2 < 52,
                    forall|j: int| 0 <= j < cur2 ==> residual@[j] == 0,
                    residual@[cur2 as int] >= 1,
                    naturals(residual@) >= 1,
                    t == Tile::Number(rank, color),
                    t.ord() == cur2,
                    1 <= rank <= 11,
                    rank + 2 <= e <= 14,
                    alive ==> cand@.len() == e - rank,
                    cand@.len() <= 13,
                    forall|k: int| 0 <= k < cand@.len() ==> (#[trigger] cand@[k]) == Tile::Number(
                        (rank + k) as u8,
                        color,
                    ),
                    chain@ == chain0,
                    melds_wf(chain0),
                    out_extended(out0, out@),
                    forall|i: int| out0.len() <= i < out@.len() ==> sol_ok(
                        #[trigger] out@[i],
                        chain0,
                        residual@,
                    ) && out@[i].combos@.len() > chain0.len(),
                    naturals(residual@) <= 1 ==> out@ == out0,
                    spec_runs(m, ci, ranki, color, ranki + 2) == acc + (if alive {
                        spec_runs(m, ci, ranki, color, e as int)
                    } else {
                        Seq::<Decomp>::empty()
                    }),
                    out_matches(out0, out@, chain0, acc),
                decreases 14 - e + if alive { 1int } else { 0int },
            {
                cand.push(Tile::Number(e, color));
                proof {
                    lemma_run_shape(cand@, color, rank, cand@.len() as int);
                    lemma_sum_prefix_bounds(residual@, 53);
                    assert(cand@ =~= run_cand(ranki, color, e as int));
                }
                match test_combo(&cand, residual) {
                    None => {
                        proof {
                            assert(spec_runs(m, ci, ranki, color, e as int)
                                == Seq::<Decomp>::empty());
                            assert(acc + Seq::<Decomp>::empty() =~= acc);
                        }
                        alive = false;
                    },
                    Some((nr, combo)) => {
                        proof {
                            lemma_sum_prefix_bounds(nr@, 52);
                            lemma_sum_prefix_bounds(nr@, 53);
                            assert(is_run_with(combo@, color.ord(), rank as int, cand@.len() as int));
                            assert(melds_wf(chain0.push(combo))) by {
                                assert(forall|i: int| 0 <= i < chain0.len() ==> chain0.push(
                                    combo,
                                )[i] == chain0[i]);
                            }
                        }
                        let ghost out_mid = out@;
                        chain.push(combo);
                        solve_rec(&nr, cur2, chain, out);
                        let _ = chain.pop();
                        proof {
                            assert(chain@ =~= chain0);
                            assert forall|i: int| out_mid.len() <= i < out@.len() implies sol_ok(
                                #[trigger] out@[i],
                                chain0,
                                residual@,
                            ) && out@[i].combos@.len() > chain0.len() by {
                                lemma_sol_lift(out@[i], chain0, combo, residual@, nr@);
                            }
                            lemma_extend_compose(out0, out_mid, out@, chain0, residual@);
                            let ds = spec_search(nr@, ci);
                            let step = prepend_meld(combo@, ds);
                            lemma_out_matches_chain(out0, out_mid, out@, chain0, combo, acc, ds);
                            assert(spec_runs(m, ci, ranki, color, e as int) == step + spec_runs(
                                m,
                                ci,
                                ranki,
                                color,
                                e as int + 1,
                            ));
                            assert(acc + (step + spec_runs(m, ci, ranki, color, e as int + 1)) =~= (
                            acc + step) + spec_runs(m, ci, ranki, color, e as int + 1));
                            acc = acc + step;
                        }
                        e = e + 1;
                    },
                }
            }
            proof {
                if alive {
                    assert(spec_runs(m, ci, ranki, color, e as int) == Seq::<Decomp>::empty());
                    assert(acc + Seq::<Decomp>::empty() =~= acc);
                }
                assert(acc == spec_runs(m, ci, ranki, color, ranki + 2));
            }
        }
    }
    proof {
        assert(out_matches(out0, out@, chain0, acc));
        assert(acc == (if ranki <= 11 && spec_test_combo(run_cand(ranki, color, ranki + 1), m)
            is Some {
            spec_runs(m, ci, ranki, color, ranki + 2)
        } else {
            Seq::<Decomp>::empty()
        }));
        assert(search_all == acc + spec_group_seq(m, ci, cands, 0));
    }

    // groups: fixed combinations so that each achievable group is attempted
    // exactly once, owned by the lowest color the residual can still hold
    match color {
        Color::Black => {
            let mut g: Vec<Tile> = Vec::new();
            g.push(Tile::Number(rank, Color::Black));
            g.push(Tile::Number(rank, Color::Blue));
            g.push(Tile::Number(rank, Color::Orange));
            proof {
                lemma_group_shape(g@, rank);
                assert(cand_wf(g@));
                assert(g@ =~= cands[0]);
            }
            let ghost out_a = out@;
            try_group(&g, residual, cur2, chain, out);
            proof {
                lemma_extend_compose(out0, out_a, out@, chain0, residual@);
                lemma_out_matches_concat(out0, out_a, out@, chain0, acc, group_step(m, ci, cands[0]));
                acc = acc + group_step(m, ci, cands[0]);
            }

            let mut g: Vec<Tile> = Vec::new();
            g.push(Tile::Number(rank, Color::Black));
            g.push(Tile::Number(rank, Color::Blue));
            g.push(Tile::Number(rank, Color::Red));
            proof {
                lemma_group_shape(g@, rank);
                assert(cand_wf(g@));
                assert(g@ =~= cands[1]);
            }
            let ghost out_b = out@;
            try_group(&g, residual, cur2, chain, out);
            proof {
                lemma_extend_compose(out0, out_b, out@, chain0, residual@);
                lemma_out_matches_concat(out0, out_b, out@, chain0, acc, group_step(m, ci, cands[1]));
                acc = acc + group_step(m, ci, cands[1]);
            }

            let mut g: Vec<Tile> = Vec::new();
            g.push(Tile::Number(rank, Color::Black));
            g.push(Tile::Number(rank, Color::Orange));
            g.push(Tile::Number(rank, Color::Red));
            proof {
                lemma_group_shape(g@, rank);
                assert(cand_wf(g@));
                assert(g@ =~= cands[2]);
            }
            let ghost out_c = out@;
            try_group(&g, residual, cur2, chain, out);
            proof {
                lemma_extend_compose(out0, out_c, out@, chain0, residual@);
                lemma_out_matches_concat(out0, out_c, out@, chain0, acc, group_step(m, ci, cands[2]));
                acc = acc + group_step(m, ci, cands[2]);
            }

            let mut g: Vec<Tile> = Vec::new();
            g.push(Tile::Number(rank, Color::Black));
            g.push(Tile::Number(rank, Color::Blue));
            g.push(Tile::Number(rank, Color::Orange));
            g.push(Tile::Number(rank, Color::Red));
            proof {
                lemma_group_shape(g@, rank);
                assert(cand_wf(g@));
                assert(g@ =~= cands[3]);
            }
            let ghost out_d = out@;
            try_group(&g, residual, cur2, chain, out);
            proof {
                lemma_extend_compose(out0, out_d, out@, chain0, residual@);
                lemma_out_matches_concat(out0, out_d, out@, chain0, acc, group_step(m, ci, cands[3]));
                acc = acc + group_step(m, ci, cands[3]);
            }
        },
        Color::Blue => {
            let mut g: Vec<Tile> = Vec::new();
            g.push(Tile::Number(rank, Color::Blue));
            g.push(Tile::Number(rank, Color::Orange));
            g.push(Tile::Number(rank, Color::Red));
            proof {
                lemma_group_shape(g@, rank);
                assert(cand_wf(g@));
                assert(g@ =~= cands[0]);
            }
            let ghost out_a = out@;
            try_group(&g, residual, cur2, chain, out);
            proof {
                lemma_extend_compose(out0, out_a, out@, chain0, residual@);
                lemma_out_matches_concat(out0, out_a, out@, chain0, acc, group_step(m, ci, cands[0]));
                acc = acc + group_step(m, ci, cands[0]);
            }
        },
        Color::Orange => {
            // the blue member, below the cursor, can only be a joker here
            let mut g: Vec<Tile> = Vec::new();
            g.push(Tile::Number(rank, Color::Blue));
            g.push(Tile::Number(rank, Color::Orange));
            g.push(Tile::Number(rank, Color::Red));
            proof {
                lemma_group_shape(g@, rank);
                assert(cand_wf(g@));
                assert(g@ =~= cands[0]);
            }
            let ghost out_a = out@;
            try_group(&g, residual, cur2, chain, out);
            proof {
                lemma_extend_compose(out0, out_a, out@, chain0, residual@);
                lemma_out_matches_concat(out0, out_a, out@, chain0, acc, group_step(m, ci, cands[0]));
                acc = acc + group_step(m, ci, cands[0]);
            }
        },
        Color::Red => {},
    }
    proof {
        let gs = |i: int| spec_group_seq(m, ci, cands, i);
        assert(gs(cands.len() as int) == Seq::<Decomp>::empty());
        match color {
            Color::Black => {
                assert(gs(0) == group_step(m, ci, cands[0]) + gs(1));
                assert(gs(1) == group_step(m, ci, cands[1]) + gs(2));
                assert(gs(2) == group_step(m, ci, cands[2]) + gs(3));
                assert(gs(3) == group_step(m, ci, cands[3]) + gs(4));
            },
            Color::Blue => {
                assert(gs(0) == group_step(m, ci, cands[0]) + gs(1));
            },
            Color::Orange => {
                assert(gs(0) == group_step(m, ci, cands[0]) + gs(1));
            },
            Color::Red => {},
        }
        assert(acc =~= search_all);
        assert(out_matches(out0, out@, chain0, search_all));
    }
}

/// The text of a meld sequence from entry `i` on: each meld's tile list in
/// parentheses, comma-separated.
pub open spec fn render_melds(melds: Seq<Tiles>, i: int) -> Seq<char>
    decreases melds.len() - i,
{
    if i < 0 || i >= melds.len() {
        Seq::empty()
    } else {
        seq!['('] + crate::text::spec_render(melds[i]@) + seq![')', ',', ' '] + render_melds(
            melds,
            i + 1,
        )
    }
}

/// The digits of a leftover-joker count, which is never above two.
pub open spec fn count_chars(n: u8) -> Seq<char> {
    if n == 0 {
        seq!['0']
    } else if n == 1 {
        seq!['1']
    } else {
        seq!['2']
    }
}

/// The text of a whole decomposition.
pub open spec fn spec_render_solution(melds: Seq<Tiles>, leftover: u8) -> Seq<char> {
    render_melds(melds, 0) + ("leftover jokers: ")@ + count_chars(leftover)
}

impl Solution {
    /// Render the decomposition as text: each meld's tile list in parentheses,
    /// melds comma-separated, then the count of jokers left unplaced.
    pub fn render(&self) -> (r: String)
        requires
            self.leftover_jokers <= 2,
        ensures
            r@ == spec_render_solution(self.combos@, self.leftover_jokers),
    {
        let mut out = String::new();
        let mut i: usize = 0;
        while i < self.combos.len()
            invariant
                i <= self.combos@.len(),
                render_melds(self.combos@, 0) == out@ + render_melds(self.combos@, i as int),
            decreases self.combos@.len() - i,
        {
            let ghost out0 = out@;
            proof {
                reveal_strlit("(");
                reveal_strlit("), ");
            }
            out.append("(");
            let meld_text = self.combos[i].render();
            out.append(meld_text.as_str());
            out.append("), ");
            proof {
                assert(out@ =~= out0 + (seq!['('] + crate::text::spec_render(self.combos@[i as int]@)
                    + seq![')', ',', ' ']));
                assert(out0 + (seq!['('] + crate::text::spec_render(self.combos@[i as int]@)
                    + seq![')', ',', ' '] + render_melds(self.combos@, i + 1)) =~= out@
                    + render_melds(self.combos@, i + 1));
            }
            i = i + 1;
        }
        let ghost out1 = out@;
        out.append("leftover jokers: ");
        if self.leftover_jokers == 0 {
            proof { reveal_strlit("0"); }
            out.append("0");
        } else if self.leftover_jokers == 1 {
            proof { reveal_strlit("1"); }
            out.append("1");
        } else {
            proof { reveal_strlit("2"); }
            out.append("2");
        }
        proof {
            assert(render_melds(self.combos@, self.combos@.len() as int) =~= Seq::<char>::empty());
            assert(out1 =~= render_melds(self.combos@, 0));
            assert(out@ =~= spec_render_solution(self.combos@, self.leftover_jokers));
        }
        out
    }
}

/// Enumerate every decomposition of the board: every way to assign all of its
/// numbered tiles to valid melds, each with the count of jokers left unplaced.
///
/// A board holding no numbered tile has exactly the trivial decomposition: no
/// melds, every joker left over. A board holding exactly one numbered tile has
/// none at all, since a meld keeps at least two natural tiles; in particular
/// one numbered tile plus any jokers is never decomposable. Every emitted
/// decomposition consists of valid melds only, and those melds consume the
/// whole board but for the jokers it reports left over. The sequence returned
/// is exactly `spec_search` of the board: one entry per decomposition the
/// backtracking order finds, in that order.
pub fn solve(tiles: Tiles) -> (res: Vec<Solution>)
    requires
        tiles.wf(),
    ensures
        res@.len() == spec_search(tiles@, 0).len(),
        forall|i: int| 0 <= i < res@.len() ==> melds_views((#[trigger] res@[i]).combos@)
            == spec_search(tiles@, 0)[i].melds && res@[i].leftover_jokers as int == spec_search(
            tiles@,
            0,
        )[i].leftover,
        forall|i: int| 0 <= i < res@.len() ==> solution_sound(#[trigger] res@[i], tiles@),
        naturals(tiles@) >= 1 ==> forall|i: int| 0 <= i < res@.len() ==> (#[trigger] res@[i]).combos@.len() >= 1,
        naturals(tiles@) == 0 ==> res@.len() == 1 && res@[0].combos@.len() == 0
            && res@[0].leftover_jokers == jokers(tiles@),
        naturals(tiles@) == 1 ==> res@.len() == 0,
{
    let mut out: Vec<Solution> = Vec::new();
    let mut chain: Vec<Tiles> = Vec::new();
    let ghost pre_out = out@;
    let ghost pre_chain = chain@;
    solve_rec(&tiles, 0, &mut chain, &mut out);
    proof {
        let ds = spec_search(tiles@, 0);
        assert forall|i: int| 0 <= i < out@.len() implies melds_views(
            (#[trigger] out@[i]).combos@,
        ) == ds[i].melds && out@[i].leftover_jokers as int == ds[i].leftover by {
            assert(melds_views(out@[pre_out.len() + i].combos@) == melds_views(pre_chain)
                + ds[i].melds);
            assert(pre_out.len() + i == i);
            assert(melds_views(pre_chain) + ds[i].melds =~= ds[i].melds);
        }
    }
    out
}

} // verus!
