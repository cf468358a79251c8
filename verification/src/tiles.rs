//! The tile catalog and the counted tile multiset.
//!
//! There are 53 tile kinds: ranks 1 through 13 in each of four colors, plus
//! the joker. The kinds carry a total order (rank-major, then color, with the
//! joker last), and each kind has a canonical position in that order. A board
//! is a `Tiles` value: a fixed-size record of how many copies of each kind are
//! present, never more than two.

use vstd::prelude::*;

verus! {

/// The four tile colors, in their canonical order.
#[derive(Debug, Clone, Copy, PartialEq, Eq, PartialOrd, Ord, Structural)]
pub enum Color {
    Black,
    Blue,
    Orange,
    Red,
}

impl Color {
    /// The position of this color in the canonical color order.
    pub open spec fn ord(self) -> int {
        match self {
            Color::Black => 0,
            Color::Blue => 1,
            Color::Orange => 2,
            Color::Red => 3,
        }
    }

    /// The first color in the canonical order.
    pub fn min_value() -> (r: Color)
        ensures
            r == Color::Black,
    {
        Color::Black
    }

    /// The color after this one in the canonical order, if any.
    pub fn next(&self) -> (r: Option<Color>)
        ensures
            match r {
                Some(c) => c.ord() == self.ord() + 1,
                None => self.ord() == 3,
            },
    {
        match self {
            Color::Black => Some(Color::Blue),
            Color::Blue => Some(Color::Orange),
            Color::Orange => Some(Color::Red),
            Color::Red => None,
        }
    }
}

/// A single tile kind: a numbered tile or the joker.
#[derive(Debug, Clone, Copy, PartialEq, Eq, Structural)]
pub enum Tile {
    Joker,
    Number(u8, Color),
}

impl Tile {
    /// A tile kind is well formed when a numbered tile's rank lies in 1..=13.
    pub open spec fn wf(self) -> bool {
        match self {
            Tile::Joker => true,
            Tile::Number(rank, _) => 1 <= rank <= 13,
        }
    }

    /// The canonical position of this kind, in 0..53: numbered tiles in
    /// rank-major order, the joker last.
    pub open spec fn ord(self) -> int {
        match self {
            Tile::Joker => 52,
            Tile::Number(rank, color) => (rank - 1) * 4 + color.ord(),
        }
    }

    /// Whether this kind is the joker.
    pub open spec fn is_joker(self) -> bool {
        self is Joker
    }

    /// Get the lowest valued tile.
    pub fn min_value() -> (r: Tile)
        ensures
            r == Tile::Number(1u8, Color::Black),
            r.wf(),
            r.ord() == 0,
    {
        Tile::Number(1, Color::min_value())
    }

    /// Get the next valued tile, in the canonical order; `None` only past the
    /// joker, which is the greatest kind.
    pub fn next(&self) -> (r: Option<Tile>)
        requires
            self.wf(),
        ensures
            match r {
                Some(t) => t.wf() && t.ord() == self.ord() + 1,
                None => self is Joker,
            },
    {
        match self {
            Tile::Joker => None,
            Tile::Number(rank, color) => Some(
                match color.next() {
                    Some(color) => Tile::Number(*rank, color),
                    None => {
                        if *rank < 13 {
                            Tile::Number(*rank + 1, Color::min_value())
                        } else {
                            Tile::Joker
                        }
                    },
                },
            ),
        }
    }

    /// Iterate over all the tiles, lowest first.
    pub fn all() -> (r: AllTiles)
        ensures
            r.pos() == 0,
    {
        AllTiles { next: Some(Tile::min_value()) }
    }

    /// Iterate over all the tiles except jokers, lowest first.
    pub fn all_no_jokers() -> (r: AllTilesNoJokers)
        ensures
            r.pos() == 0,
    {
        AllTilesNoJokers { next: Some(Tile::min_value()) }
    }

    /// A spaced index for this kind: twice its canonical position, so that
    /// successive kinds sit two apart, with the joker's index last.
    pub fn index(&self) -> (r: u8)
        requires
            self.wf(),
        ensures
            r == 2 * self.ord(),
    {
        match self {
            Tile::Joker => 104,
            Tile::Number(rank, color) => {
                let color_index: u8 = match color {
                    Color::Black => 0,
                    Color::Blue => 1,
                    Color::Orange => 2,
                    Color::Red => 3,
                };
                ((*rank - 1) * 4 + color_index) * 2
            },
        }
    }
}

/// The color of the numbered kind at a canonical position.
pub open spec fn spec_color_at(i: int) -> Color {
    if i % 4 == 0 {
        Color::Black
    } else if i % 4 == 1 {
        Color::Blue
    } else if i % 4 == 2 {
        Color::Orange
    } else {
        Color::Red
    }
}

/// The tile kind at a given canonical position.
pub open spec fn spec_kind_at(i: int) -> Tile {
    if i == 52 {
        Tile::Joker
    } else {
        Tile::Number((i / 4 + 1) as u8, spec_color_at(i))
    }
}

/// The canonical positions and the kinds are in bijection.
pub proof fn lemma_kind_at_ord(i: int)
    requires
        0 <= i < 53,
    ensures
        spec_kind_at(i).wf(),
        spec_kind_at(i).ord() == i,
{
}

/// The tile kind at a given canonical position.
pub fn kind_at(i: usize) -> (r: Tile)
    requires
        i < 53,
    ensures
        r == spec_kind_at(i as int),
        r.wf(),
        r.ord() == i,
{
    proof {
        lemma_kind_at_ord(i as int);
    }
    if i == 52 {
        Tile::Joker
    } else {
        let color = match i % 4 {
            0 => Color::Black,
            1 => Color::Blue,
            2 => Color::Orange,
            _ => Color::Red,
        };
        Tile::Number((i / 4 + 1) as u8, color)
    }
}

/// Iterator over all the tiles.
pub struct AllTiles {
    next: Option<Tile>,
}

impl AllTiles {
    /// How many tiles have been handed out so far; 53 once the iterator is
    /// exhausted.
    pub closed spec fn pos(self) -> int {
        match self.next {
            Some(t) => t.ord(),
            None => 53,
        }
    }

    /// The iterator's state is a well-formed tile or the end marker.
    pub closed spec fn wf(self) -> bool {
        match self.next {
            Some(t) => t.wf(),
            None => true,
        }
    }

    /// The next tile in the canonical order, or `None` once all 53 kinds have
    /// been produced.
    pub fn next(&mut self) -> (r: Option<Tile>)
        requires
            old(self).wf(),
        ensures
            final(self).wf(),
            match r {
                Some(t) => t.wf() && t.ord() == old(self).pos() && final(self).pos() == old(self).pos() + 1,
                None => old(self).pos() == 53 && final(self).pos() == 53,
            },
    {
        match self.next {
            None => None,
            Some(res) => {
                self.next = res.next();
                Some(res)
            },
        }
    }
}

/// Iterator over all the tiles except jokers.
pub struct AllTilesNoJokers {
    next: Option<Tile>,
}

impl AllTilesNoJokers {
    /// How many tiles have been handed out so far; 52 once the iterator is
    /// exhausted.
    pub closed spec fn pos(self) -> int {
        match self.next {
            Some(t) => t.ord(),
            None => 52,
        }
    }

    /// The iterator's state is a well-formed numbered tile or the end marker.
    pub closed spec fn wf(self) -> bool {
        match self.next {
            Some(t) => t.wf() && !t.is_joker(),
            None => true,
        }
    }

    /// The next numbered tile in the canonical order, or `None` once all 52
    /// numbered kinds have been produced.
    pub fn next(&mut self) -> (r: Option<Tile>)
        requires
            old(self).wf(),
        ensures
            final(self).wf(),
            match r {
                Some(t) => t.wf() && !t.is_joker() && t.ord() == old(self).pos() && final(self).pos() == old(self).pos() + 1,
                None => old(self).pos() == 52 && final(self).pos() == 52,
            },
    {
        match self.next {
            None => None,
            Some(res) => {
                self.next = match res.next() {
                    Some(Tile::Joker) => None,
                    Some(x) => Some(x),
                    None => None,
                };
                Some(res)
            },
        }
    }
}

/// The sum of the first `n` per-kind counts.
pub open spec fn sum_prefix(s: Seq<u8>, n: int) -> int
    decreases n,
{
    if n <= 0 {
        0
    } else {
        sum_prefix(s, n - 1) + s[n - 1]
    }
}

/// How many numbered (non-joker) tiles a count record holds.
pub open spec fn naturals(s: Seq<u8>) -> int {
    sum_prefix(s, 52)
}

/// How many jokers a count record holds.
pub open spec fn jokers(s: Seq<u8>) -> int {
    s[52] as int
}

/// How many tiles a count record holds in all.
pub open spec fn total(s: Seq<u8>) -> int {
    sum_prefix(s, 53)
}

/// A prefix sum only grows as the prefix grows.
pub proof fn lemma_sum_prefix_monotone(s: Seq<u8>, m: int, n: int)
    requires
        0 <= m <= n,
    ensures
        sum_prefix(s, m) <= sum_prefix(s, n),
    decreases n,
{
    if m < n {
        lemma_sum_prefix_monotone(s, m, n - 1);
    }
}

/// A prefix sum is at least any single count it covers.
pub proof fn lemma_sum_prefix_ge_elem(s: Seq<u8>, n: int, i: int)
    requires
        0 <= i < n,
    ensures
        sum_prefix(s, n) >= s[i],
    decreases n,
{
    lemma_sum_prefix_monotone(s, i + 1, n);
    lemma_sum_prefix_monotone(s, 0, i);
}

/// A prefix sum of counts is never negative.
pub proof fn lemma_sum_prefix_nonneg(s: Seq<u8>, n: int)
    ensures
        sum_prefix(s, n) >= 0,
    decreases n,
{
    if n > 0 {
        lemma_sum_prefix_nonneg(s, n - 1);
    }
}

/// A prefix sum over counts that are all zero is zero.
pub proof fn lemma_sum_prefix_zero(s: Seq<u8>, n: int)
    requires
        forall|j: int| 0 <= j < n ==> s[j] == 0,
    ensures
        sum_prefix(s, n) == 0,
    decreases n,
{
    if n > 0 {
        lemma_sum_prefix_zero(s, n - 1);
    }
}

/// Updating one count moves a prefix sum by the difference, when the prefix
/// covers the updated position, and not at all otherwise.
pub proof fn lemma_sum_prefix_update(s: Seq<u8>, n: int, i: int, v: u8)
    requires
        0 <= i < s.len(),
        n <= s.len(),
    ensures
        sum_prefix(s.update(i, v), n) == sum_prefix(s, n) + if 0 <= i < n {
            v - s[i]
        } else {
            0
        },
    decreases n,
{
    if n > 0 {
        lemma_sum_prefix_update(s, n - 1, i, v);
    }
}

/// A prefix sum of counts bounded by two is bounded by twice the prefix.
pub proof fn lemma_sum_prefix_bounds(s: Seq<u8>, n: int)
    requires
        forall|j: int| 0 <= j < n ==> s[j] <= 2,
    ensures
        0 <= sum_prefix(s, n),
        n >= 0 ==> sum_prefix(s, n) <= 2 * n,
    decreases n,
{
    if n > 0 {
        lemma_sum_prefix_bounds(s, n - 1);
    }
}

/// The tiles available: a counted multiset over the 53 tile kinds, holding
/// zero, one or two copies of each kind.
#[derive(Debug, Clone, Copy, PartialEq, Eq)]
pub struct Tiles {
    counts: [u8; 53],
}

impl View for Tiles {
    type V = Seq<u8>;

    /// A board is viewed as its 53 per-kind counts, in canonical kind order.
    closed spec fn view(&self) -> Seq<u8> {
        self.counts@
    }
}

impl Tiles {
    /// A board is well formed when it holds at most two copies of each kind.
    pub open spec fn wf(self) -> bool {
        self@.len() == 53 && forall|i: int| 0 <= i < 53 ==> self@[i] <= 2
    }

    /// An empty set of tiles.
    pub fn new() -> (r: Tiles)
        ensures
            r.wf(),
            r@ == Seq::new(53, |i: int| 0u8),
            forall|i: int| 0 <= i < 53 ==> r@[i] == 0,
    {
        let t = Tiles { counts: [0u8; 53] };
        proof {
            assert(t@ =~= Seq::new(53, |i: int| 0u8));
        }
        t
    }

    /// The count held at a canonical position.
    pub fn count_at(&self, i: usize) -> (r: u8)
        requires
            i < 53,
        ensures
            r == self@[i as int],
    {
        self.counts[i]
    }

    /// How many of this kind of tile do we have?
    pub fn get_count(&self, tile: &Tile) -> (r: u8)
        requires
            tile.wf(),
        ensures
            r == self@[tile.ord()],
    {
        let i = (tile.index() / 2) as usize;
        self.counts[i]
    }

    /// Set the number of tiles of this kind; the count must be at most two.
    pub fn set_count(&mut self, tile: &Tile, count: u8)
        requires
            tile.wf(),
            count <= 2,
        ensures
            final(self)@ == old(self)@.update(tile.ord(), count),
            old(self).wf() ==> final(self).wf(),
    {
        let i = (tile.index() / 2) as usize;
        self.counts[i] = count;
    }

    /// Add another tile of the given kind. Fails, leaving the board unchanged,
    /// exactly when two copies are already held.
    pub fn add_tile(&mut self, tile: &Tile) -> (r: Result<(), TilesError>)
        requires
            tile.wf(),
            old(self).wf(),
        ensures
            final(self).wf(),
            match r {
                Ok(()) => old(self)@[tile.ord()] < 2 && final(self)@ == old(self)@.update(
                    tile.ord(),
                    (old(self)@[tile.ord()] + 1) as u8,
                ),
                Err(e) => old(self)@[tile.ord()] == 2 && final(self)@ == old(self)@ && e
                    == TilesError::AlreadyHaveTwo(*tile),
            },
    {
        let count = self.get_count(tile);
        if count >= 2 {
            Err(TilesError::AlreadyHaveTwo(*tile))
        } else {
            self.set_count(tile, count + 1);
            Ok(())
        }
    }

    /// Whether the board is well formed: no kind held more than twice. Lets a
    /// caller outside the verified world test a board before solving it.
    pub fn is_valid(&self) -> (r: bool)
        ensures
            r == self.wf(),
    {
        let mut i: usize = 0;
        while i < 53
            invariant
                i <= 53,
                forall|j: int| 0 <= j < i ==> self@[j] <= 2,
            decreases 53 - i,
        {
            if self.counts[i] > 2 {
                return false;
            }
            i = i + 1;
        }
        true
    }

    /// How many tiles total do we have?
    pub fn get_total_count(&self) -> (r: u8)
        requires
            self.wf(),
        ensures
            r == total(self@),
    {
        let mut acc: u8 = 0;
        let mut i: usize = 0;
        while i < 53
            invariant
                self.wf(),
                i <= 53,
                acc == sum_prefix(self@, i as int),
                acc <= 2 * i,
            decreases 53 - i,
        {
            acc = acc + self.counts[i];
            i = i + 1;
        }
        acc
    }
}

/// The ways in which building a board can fail.
#[derive(Debug, PartialEq, Eq)]
pub enum TilesError {
    /// A third copy of the named kind was offered.
    AlreadyHaveTwo(Tile),
    /// A token of board text did not name a tile.
    InvalidTileString(String),
}

/// Setting a kind's count and reading it back gives that count, and touches
/// no other kind.
pub proof fn lemma_set_get_count(s: Seq<u8>, t: Tile, count: u8)
    requires
        s.len() == 53,
        t.wf(),
        count <= 2,
    ensures
        s.update(t.ord(), count)[t.ord()] == count,
        forall|u: Tile| u.wf() && u.ord() != t.ord() ==> s.update(t.ord(), count)[u.ord()] == s[u.ord()],
{
}

} // verus!
