//! Board text: rendering a board as tokens, and parsing token text back.
//!
//! A board is written as its tiles in canonical order, each tile as one token
//! followed by a space. A token is `J` (case-insensitive) for a joker, or one
//! or two decimal digits giving a rank in 1..=13 followed by one
//! case-insensitive color letter (`B`lack, bl`U`e, `O`range, `R`ed). Parsing
//! splits on whitespace, ignores empty tokens, and fails on the first token
//! that names no tile or would put a third copy of a kind on the board.

use vstd::prelude::*;
use vstd::string::StrSliceExecFns;

use crate::tiles::{Tile, Color, Tiles, TilesError, spec_kind_at, kind_at, lemma_kind_at_ord};

verus! {

/// The characters that separate tokens.
pub open spec fn is_ws(c: char) -> bool {
    c == ' ' || c == '\t' || c == '\n' || c == '\r'
}

/// The characters that separate tokens.
pub fn is_ws_char(c: char) -> (r: bool)
    ensures
        r == is_ws(c),
{
    c == ' ' || c == '\t' || c == '\n' || c == '\r'
}

/// A decimal digit.
pub open spec fn is_digit(c: char) -> bool {
    48 <= c as u32 <= 57
}

/// The value of a decimal digit.
pub open spec fn digit_val(c: char) -> int {
    c as u32 - 48
}

/// The color a letter names, if any.
pub open spec fn color_of_letter(c: char) -> Option<Color> {
    if c == 'B' || c == 'b' {
        Some(Color::Black)
    } else if c == 'U' || c == 'u' {
        Some(Color::Blue)
    } else if c == 'O' || c == 'o' {
        Some(Color::Orange)
    } else if c == 'R' || c == 'r' {
        Some(Color::Red)
    } else {
        None
    }
}

/// The tile a single token names, if any: `J`/`j`, or one or two digits with
/// a rank in 1..=13 and then a color letter.
pub open spec fn spec_parse_token(tok: Seq<char>) -> Option<Tile> {
    if tok.len() == 1 && (tok[0] == 'J' || tok[0] == 'j') {
        Some(Tile::Joker)
    } else if tok.len() == 2 && is_digit(tok[0]) {
        match color_of_letter(tok[1]) {
            Some(c) => {
                let r = digit_val(tok[0]);
                if 1 <= r <= 13 {
                    Some(Tile::Number(r as u8, c))
                } else {
                    None
                }
            },
            None => None,
        }
    } else if tok.len() == 3 && is_digit(tok[0]) && is_digit(tok[1]) {
        match color_of_letter(tok[2]) {
            Some(c) => {
                let r = 10 * digit_val(tok[0]) + digit_val(tok[1]);
                if 1 <= r <= 13 {
                    Some(Tile::Number(r as u8, c))
                } else {
                    None
                }
            },
            None => None,
        }
    } else {
        None
    }
}

/// How parsing can fail: a token that names no tile, or a third copy of a kind.
pub enum ParseErr {
    /// The board already held two copies of this kind.
    Capacity(Tile),
    /// This token names no tile.
    BadToken(Seq<char>),
}

/// Account one completed token against the counts gathered so far: an empty
/// token is ignored; a tile token adds one copy, failing on a third.
pub open spec fn step_token(tok: Seq<char>, acc: Seq<u8>) -> Result<Seq<u8>, ParseErr> {
    if tok.len() == 0 {
        Ok(acc)
    } else {
        match spec_parse_token(tok) {
            None => Err(ParseErr::BadToken(tok)),
            Some(t) => {
                if acc[t.ord()] < 2 {
                    Ok(acc.update(t.ord(), (acc[t.ord()] + 1) as u8))
                } else {
                    Err(ParseErr::Capacity(t))
                }
            },
        }
    }
}

/// The parse of the remaining text `s`, with `tok` the token gathered so far
/// and `acc` the counts gathered so far.
pub open spec fn spec_parse_rest(s: Seq<char>, tok: Seq<char>, acc: Seq<u8>) -> Result<
    Seq<u8>,
    ParseErr,
>
    decreases s.len(),
{
    if s.len() == 0 {
        step_token(tok, acc)
    } else if is_ws(s[0]) {
        match step_token(tok, acc) {
            Ok(acc2) => spec_parse_rest(s.drop_first(), Seq::empty(), acc2),
            Err(e) => Err(e),
        }
    } else {
        spec_parse_rest(s.drop_first(), tok.push(s[0]), acc)
    }
}

/// The counts of an empty board.
pub open spec fn zero_counts() -> Seq<u8> {
    Seq::new(53, |i: int| 0u8)
}

/// What parsing a whole text yields: the counts of the board it describes, or
/// the first failure.
pub open spec fn spec_parse(s: Seq<char>) -> Result<Seq<u8>, ParseErr> {
    spec_parse_rest(s, Seq::empty(), zero_counts())
}

/// The tile named by the token at `s[start..end]`, if any.
fn parse_token(s: &str, start: usize, end: usize) -> (r: Option<Tile>)
    requires
        start <= end <= s@.len(),
    ensures
        r == spec_parse_token(s@.subrange(start as int, end as int)),
        r matches Some(t) ==> t.wf(),
{
    let ghost tok = s@.subrange(start as int, end as int);
    let len = end - start;
    if len == 1 {
        let c = s.get_char(start);
        assert(c == tok[0]);
        if c == 'J' || c == 'j' {
            return Some(Tile::Joker);
        }
    }
    if len == 2 || len == 3 {
        let lc = s.get_char(end - 1);
        assert(lc == tok[len - 1]);
        let color = match lc {
            'B' | 'b' => Some(Color::Black),
            'U' | 'u' => Some(Color::Blue),
            'O' | 'o' => Some(Color::Orange),
            'R' | 'r' => Some(Color::Red),
            _ => None,
        };
        assert(color == color_of_letter(tok[len - 1]));
        match color {
            None => None,
            Some(col) => {
                let d0 = s.get_char(start);
                assert(d0 == tok[0]);
                if !((d0 as u32) >= 48 && (d0 as u32) <= 57) {
                    return None;
                }
                let mut rank: u32 = d0 as u32 - 48;
                if len == 3 {
                    let d1 = s.get_char(start + 1);
                    assert(d1 == tok[1]);
                    if !((d1 as u32) >= 48 && (d1 as u32) <= 57) {
                        return None;
                    }
                    rank = 10 * rank + (d1 as u32 - 48);
                }
                if 1 <= rank && rank <= 13 {
                    Some(Tile::Number(rank as u8, col))
                } else {
                    None
                }
            },
        }
    } else {
        None
    }
}

impl Tiles {
    /// Parse board text: split on whitespace, read each token as a tile, and
    /// gather the tiles into a board. Returns the board exactly when every
    /// token names a tile and no kind appears a third time; otherwise reports
    /// the first offending token or kind, returning no partial board.
    pub fn parse(s: &str) -> (r: Result<Tiles, TilesError>)
        ensures
            match r {
                Ok(t) => t.wf() && spec_parse(s@) == Result::<Seq<u8>, ParseErr>::Ok(t@),
                Err(e) => match e {
                    TilesError::AlreadyHaveTwo(t) => spec_parse(s@) == Result::<
                        Seq<u8>,
                        ParseErr,
                    >::Err(ParseErr::Capacity(t)),
                    TilesError::InvalidTileString(x) => spec_parse(s@) matches Result::<
                        Seq<u8>,
                        ParseErr,
                    >::Err(ParseErr::BadToken(tok)) && x@ == tok,
                },
            },
    {
        let n = s.unicode_len();
        let mut tiles = Tiles::new();
        proof {
            assert(tiles@ =~= zero_counts());
            assert(s@.subrange(0, n as int) =~= s@);
        }
        let mut i: usize = 0;
        while i < n
            invariant
                n == s@.len(),
                i <= n,
                tiles.wf(),
                spec_parse(s@) == spec_parse_rest(
                    s@.subrange(i as int, n as int),
                    Seq::empty(),
                    tiles@,
                ),
            decreases n - i,
        {
            let c = s.get_char(i);
            if is_ws_char(c) {
                proof {
                    let rest = s@.subrange(i as int, n as int);
                    assert(rest[0] == c);
                    assert(rest.drop_first() =~= s@.subrange(i + 1, n as int));
                }
                i = i + 1;
            } else {
                let start = i;
                i = i + 1;
                proof {
                    let rest = s@.subrange(start as int, n as int);
                    assert(rest[0] == c);
                    assert(rest.drop_first() =~= s@.subrange(i as int, n as int));
                    assert(Seq::<char>::empty().push(c) =~= s@.subrange(start as int, i as int));
                }
                while i < n && !is_ws_char(s.get_char(i))
                    invariant
                        n == s@.len(),
                        start < i <= n,
                        tiles.wf(),
                        spec_parse(s@) == spec_parse_rest(
                            s@.subrange(i as int, n as int),
                            s@.subrange(start as int, i as int),
                            tiles@,
                        ),
                    decreases n - i,
                {
                    proof {
                        let rest = s@.subrange(i as int, n as int);
                        assert(rest[0] == s@[i as int]);
                        assert(rest.drop_first() =~= s@.subrange(i + 1, n as int));
                        assert(s@.subrange(start as int, i as int).push(s@[i as int]) =~= s@.subrange(
                            start as int,
                            i + 1,
                        ));
                    }
                    i = i + 1;
                }
                let ghost tok = s@.subrange(start as int, i as int);
                proof {
                    assert(tok.len() > 0);
                }
                match parse_token(s, start, i) {
                    None => {
                        proof {
                            if i < n {
                                let rest = s@.subrange(i as int, n as int);
                                assert(rest[0] == s@[i as int]);
                                assert(is_ws(rest[0]));
                            }
                        }
                        let token_text = s.substring_char(start, i).to_owned();
                        return Err(TilesError::InvalidTileString(token_text));
                    },
                    Some(t) => {
                        let add_res = tiles.add_tile(&t);
                        match add_res {
                            Err(e) => {
                                proof {
                                    if i < n {
                                        let rest = s@.subrange(i as int, n as int);
                                        assert(rest[0] == s@[i as int]);
                                        assert(is_ws(rest[0]));
                                    }
                                }
                                return Err(e);
                            },
                            Ok(()) => {
                                proof {
                                    if i < n {
                                        let rest = s@.subrange(i as int, n as int);
                                        assert(rest[0] == s@[i as int]);
                                        assert(is_ws(rest[0]));
                                        assert(rest.drop_first() =~= s@.subrange(i + 1, n as int));
                                    }
                                }
                                if i < n {
                                    i = i + 1;
                                }
                            },
                        }
                    },
                }
            }
        }
        proof {
            assert(s@.subrange(i as int, n as int).len() == 0);
        }
        Ok(tiles)
    }
}

impl core::str::FromStr for Tiles {
    type Err = TilesError;

    fn from_str(s: &str) -> Result<Tiles, TilesError> {
        Tiles::parse(s)
    }
}

/// The digits of a rank in 1..=13, most significant first.
pub open spec fn rank_chars(r: int) -> Seq<char> {
    if r == 1 {
        seq!['1']
    } else if r == 2 {
        seq!['2']
    } else if r == 3 {
        seq!['3']
    } else if r == 4 {
        seq!['4']
    } else if r == 5 {
        seq!['5']
    } else if r == 6 {
        seq!['6']
    } else if r == 7 {
        seq!['7']
    } else if r == 8 {
        seq!['8']
    } else if r == 9 {
        seq!['9']
    } else if r == 10 {
        seq!['1', '0']
    } else if r == 11 {
        seq!['1', '1']
    } else if r == 12 {
        seq!['1', '2']
    } else if r == 13 {
        seq!['1', '3']
    } else {
        Seq::empty()
    }
}

/// The letter that names a color.
pub open spec fn color_letter(c: Color) -> char {
    match c {
        Color::Black => 'B',
        Color::Blue => 'U',
        Color::Orange => 'O',
        Color::Red => 'R',
    }
}

/// The token that names a tile.
pub open spec fn token_of(t: Tile) -> Seq<char> {
    match t {
        Tile::Joker => seq!['J'],
        Tile::Number(r, c) => rank_chars(r as int).push(color_letter(c)),
    }
}

/// The token of the kind at canonical position `k`, with its trailing space.
pub open spec fn token_sp(k: int) -> Seq<char> {
    token_of(spec_kind_at(k)).push(' ')
}

/// The text of a board from position `k` on, with `c` copies of the kind at
/// `k` still to write.
pub open spec fn render_partial(m: Seq<u8>, k: int, c: int) -> Seq<char>
    decreases 53 - k, c,
{
    if k >= 53 || k < 0 {
        Seq::empty()
    } else if c <= 0 {
        render_partial(m, k + 1, if k + 1 < 53 { m[k + 1] as int } else { 0 })
    } else {
        token_sp(k) + render_partial(m, k, c - 1)
    }
}

/// The text of a whole board: its tiles in canonical order, each token
/// followed by a space.
pub open spec fn spec_render(m: Seq<u8>) -> Seq<char> {
    render_partial(m, 0, m[0] as int)
}

/// The digits of a rank, as text.
fn rank_str(rank: u8) -> (r: &'static str)
    requires
        1 <= rank <= 13,
    ensures
        r@ == rank_chars(rank as int),
{
    match rank {
        1 => {
            proof { reveal_strlit("1"); }
            "1"
        },
        2 => {
            proof { reveal_strlit("2"); }
            "2"
        },
        3 => {
            proof { reveal_strlit("3"); }
            "3"
        },
        4 => {
            proof { reveal_strlit("4"); }
            "4"
        },
        5 => {
            proof { reveal_strlit("5"); }
            "5"
        },
        6 => {
            proof { reveal_strlit("6"); }
            "6"
        },
        7 => {
            proof { reveal_strlit("7"); }
            "7"
        },
        8 => {
            proof { reveal_strlit("8"); }
            "8"
        },
        9 => {
            proof { reveal_strlit("9"); }
            "9"
        },
        10 => {
            proof { reveal_strlit("10"); }
            "10"
        },
        11 => {
            proof { reveal_strlit("11"); }
            "11"
        },
        12 => {
            proof { reveal_strlit("12"); }
            "12"
        },
        _ => {
            proof { reveal_strlit("13"); }
            "13"
        },
    }
}

/// The letter of a color, as text.
fn color_str(c: Color) -> (r: &'static str)
    ensures
        r@ == seq![color_letter(c)],
{
    match c {
        Color::Black => {
            proof { reveal_strlit("B"); }
            "B"
        },
        Color::Blue => {
            proof { reveal_strlit("U"); }
            "U"
        },
        Color::Orange => {
            proof { reveal_strlit("O"); }
            "O"
        },
        Color::Red => {
            proof { reveal_strlit("R"); }
            "R"
        },
    }
}

impl Tiles {
    /// Render the board as text: every tile in canonical order, each token
    /// followed by a space, in the same grammar that `parse` reads.
    pub fn render(&self) -> (r: String)
        ensures
            r@ == spec_render(self@),
    {
        let mut out = String::new();
        let mut k: usize = 0;
        while k < 53
            invariant
                k <= 53,
                spec_render(self@) == out@ + render_partial(
                    self@,
                    k as int,
                    if k < 53 { self@[k as int] as int } else { 0 },
                ),
            decreases 53 - k,
        {
            let mut c = self.count_at(k);
            while c > 0
                invariant
                    k < 53,
                    spec_render(self@) == out@ + render_partial(self@, k as int, c as int),
                decreases c,
            {
                let ghost out0 = out@;
                let t = kind_at(k);
                match t {
                    Tile::Joker => {
                        proof { reveal_strlit("J"); }
                        out.append("J");
                        proof {
                            assert(out@ =~= out0 + token_of(spec_kind_at(k as int)));
                        }
                    },
                    Tile::Number(rank, color) => {
                        out.append(rank_str(rank));
                        out.append(color_str(color));
                        proof {
                            assert(out@ =~= out0 + token_of(spec_kind_at(k as int)));
                        }
                    },
                }
                proof { reveal_strlit(" "); }
                out.append(" ");
                proof {
                    assert(out@ =~= out0 + token_sp(k as int));
                    assert(out0 + (token_sp(k as int) + render_partial(self@, k as int, c - 1))
                        =~= out@ + render_partial(self@, k as int, c - 1));
                }
                c = c - 1;
            }
            k = k + 1;
        }
        proof {
            assert(out@ + render_partial(self@, 53, 0) =~= out@);
        }
        out
    }
}

/// Every kind's token consists of non-separator characters and parses back to
/// that kind.
proof fn lemma_token_parses(k: int)
    requires
        0 <= k < 53,
    ensures
        token_of(spec_kind_at(k)).len() >= 1,
        forall|i: int| 0 <= i < token_of(spec_kind_at(k)).len() ==> !is_ws(
            #[trigger] token_of(spec_kind_at(k))[i],
        ),
        spec_parse_token(token_of(spec_kind_at(k))) == Some(spec_kind_at(k)),
{
    lemma_kind_at_ord(k);
    let t = spec_kind_at(k);
    let tok = token_of(t);
    if k == 52 {
        assert(tok =~= seq!['J']);
    } else {
        let r = k / 4 + 1;
        assert(1 <= r <= 13);
        if r <= 9 {
            assert(tok.len() == 2);
            assert(tok[0] == rank_chars(r)[0]);
            assert(is_digit(tok[0]) && digit_val(tok[0]) == r);
            assert(color_of_letter(tok[1]) == Some(crate::tiles::spec_color_at(k)));
        } else {
            assert(tok.len() == 3);
            assert(tok[0] == '1' && tok[1] == rank_chars(r)[1]);
            assert(is_digit(tok[0]) && is_digit(tok[1]));
            assert(10 * digit_val(tok[0]) + digit_val(tok[1]) == r);
            assert(color_of_letter(tok[2]) == Some(crate::tiles::spec_color_at(k)));
        }
    }
}

/// Parsing consumes a stretch of non-separator characters into the open token.
proof fn lemma_parse_skip_token(t: Seq<char>, rest: Seq<char>, tok: Seq<char>, acc: Seq<u8>)
    requires
        forall|i: int| 0 <= i < t.len() ==> !is_ws(#[trigger] t[i]),
    ensures
        spec_parse_rest(t + rest, tok, acc) == spec_parse_rest(rest, tok + t, acc),
    decreases t.len(),
{
    if t.len() == 0 {
        assert(t + rest =~= rest);
        assert(tok + t =~= tok);
    } else {
        assert((t + rest)[0] == t[0]);
        assert((t + rest).len() > 0);
        assert((t + rest).drop_first() =~= t.drop_first() + rest);
        lemma_parse_skip_token(t.drop_first(), rest, tok.push(t[0]), acc);
        assert(tok.push(t[0]) + t.drop_first() =~= tok + t);
    }
}

/// Parsing what `render_partial` writes from position `k` on, with counts
/// already gathered that agree with the board below `k`, completes the board.
proof fn lemma_roundtrip_from(m: Seq<u8>, k: int, c: int, acc: Seq<u8>)
    requires
        m.len() == 53,
        forall|i: int| 0 <= i < 53 ==> m[i] <= 2,
        acc.len() == 53,
        0 <= k <= 53,
        forall|j: int| 0 <= j < k ==> acc[j] == m[j],
        forall|j: int| k < j < 53 ==> acc[j] == 0,
        k < 53 ==> 0 <= c <= m[k as int] && acc[k as int] == m[k as int] - c,
        k == 53 ==> c == 0,
    ensures
        spec_parse_rest(render_partial(m, k, c), Seq::empty(), acc) == Result::<
            Seq<u8>,
            ParseErr,
        >::Ok(m),
    decreases 53 - k, c,
{
    if k >= 53 {
        assert(render_partial(m, k, c) =~= Seq::<char>::empty());
        assert(acc =~= m);
        assert(spec_parse_rest(Seq::<char>::empty(), Seq::<char>::empty(), acc) == step_token(
            Seq::<char>::empty(),
            acc,
        ));
    } else if c <= 0 {
        assert(render_partial(m, k, c) == render_partial(
            m,
            k + 1,
            if k + 1 < 53 { m[k + 1] as int } else { 0 },
        ));
        lemma_roundtrip_from(m, k + 1, if k + 1 < 53 { m[k + 1] as int } else { 0 }, acc);
    } else {
        let t = spec_kind_at(k);
        let tokch = token_of(t);
        let rest = render_partial(m, k, c - 1);
        lemma_token_parses(k);
        lemma_kind_at_ord(k);
        assert(render_partial(m, k, c) == token_sp(k) + rest);
        assert(token_sp(k) + rest =~= tokch + (seq![' '] + rest));
        lemma_parse_skip_token(tokch, seq![' '] + rest, Seq::empty(), acc);
        assert(Seq::<char>::empty() + tokch =~= tokch);
        // the separator closes the token, which adds one copy of the kind
        let sp_rest = seq![' '] + rest;
        assert(sp_rest[0] == ' ' && is_ws(sp_rest[0]));
        assert(acc[k] < 2);
        let acc2 = acc.update(t.ord(), (acc[t.ord()] + 1) as u8);
        assert(step_token(tokch, acc) == Result::<Seq<u8>, ParseErr>::Ok(acc2));
        assert(sp_rest.drop_first() =~= rest);
        assert(spec_parse_rest(sp_rest, tokch, acc) == spec_parse_rest(rest, Seq::empty(), acc2));
        lemma_roundtrip_from(m, k, c - 1, acc2);
    }
}

/// The round-trip law: parsing what `render` writes for any well-formed board
/// gives back exactly that board.
pub proof fn lemma_parse_render_roundtrip(m: Seq<u8>)
    requires
        m.len() == 53,
        forall|i: int| 0 <= i < 53 ==> m[i] <= 2,
    ensures
        spec_parse(spec_render(m)) == Result::<Seq<u8>, ParseErr>::Ok(m),
{
    lemma_roundtrip_from(m, 0, m[0] as int, zero_counts());
}

} // verus!
