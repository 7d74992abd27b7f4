use vstd::prelude::*;
use vstd::string::StringSliceAdditionalSpecFns;

verus! {

broadcast use vstd::seq_lib::group_seq_properties;

/// The pieces of `s` between occurrences of `sep`, as `str::split` yields them: `k`
/// separators give `k + 1` pieces, some of them possibly empty.
pub open spec fn split_on(s: Seq<u8>, sep: u8) -> Seq<Seq<u8>>
    decreases s.len(),
{
    if s.len() == 0 {
        seq![Seq::<u8>::empty()]
    } else {
        let rest = split_on(s.drop_first(), sep);
        if s[0] == sep {
            seq![Seq::<u8>::empty()] + rest
        } else {
            rest.update(0, seq![s[0]] + rest[0])
        }
    }
}

pub proof fn lemma_split_on_nonempty(s: Seq<u8>, sep: u8)
    ensures
        split_on(s, sep).len() >= 1,
    decreases s.len(),
{
    if s.len() > 0 {
        lemma_split_on_nonempty(s.drop_first(), sep);
    }
}

/// The pieces found so far, the piece being read, and the pieces of what is left, put together.
pub open spec fn joined(done: Seq<Seq<u8>>, current: Seq<u8>, rest: Seq<Seq<u8>>) -> Seq<Seq<u8>> {
    done + seq![current + rest[0]] + rest.drop_first()
}

/// The pieces of `s` between occurrences of `sep`.
pub fn split_bytes(s: &[u8], sep: u8) -> (r: Vec<Vec<u8>>)
    ensures
        r@.map_values(|v: Vec<u8>| v@) == split_on(s@, sep),
{
    let mut done: Vec<Vec<u8>> = Vec::new();
    let mut current: Vec<u8> = Vec::new();
    let mut i: usize = 0;
    proof {
        lemma_split_on_nonempty(s@, sep);
        assert(s@.subrange(0, s@.len() as int) =~= s@);
        assert(joined(Seq::empty(), Seq::empty(), split_on(s@, sep)) =~= split_on(s@, sep));
    }
    while i < s.len()
        invariant
            i <= s@.len(),
            joined(
                done@.map_values(|v: Vec<u8>| v@),
                current@,
                split_on(s@.subrange(i as int, s@.len() as int), sep),
            ) == split_on(s@, sep),
        decreases s@.len() - i,
    {
        let ghost t = s@.subrange(i as int, s@.len() as int);
        let ghost tail = s@.subrange(i + 1, s@.len() as int);
        let ghost before = done@.map_values(|v: Vec<u8>| v@);
        let ghost cur0 = current@;
        proof {
            assert(t.drop_first() =~= tail);
            lemma_split_on_nonempty(tail, sep);
        }
        if s[i] == sep {
            done.push(current);
            current = Vec::new();
            proof {
                assert(done@.map_values(|v: Vec<u8>| v@) =~= before.push(cur0));
                let rest = split_on(tail, sep);
                assert(split_on(t, sep) == seq![Seq::<u8>::empty()] + rest);
                assert(joined(before, cur0, split_on(t, sep)) =~= joined(before.push(cur0), Seq::empty(), rest));
            }
        } else {
            current.push(s[i]);
            proof {
                let rest = split_on(tail, sep);
                assert(split_on(t, sep) == rest.update(0, seq![s@[i as int]] + rest[0]));
                assert(done@.map_values(|v: Vec<u8>| v@) =~= before);
                let c = s@[i as int];
                assert(cur0 + (seq![c] + rest[0]) =~= cur0.push(c) + rest[0]);
                assert(rest.update(0, seq![c] + rest[0]).drop_first() =~= rest.drop_first());
                assert(joined(before, cur0, split_on(t, sep)) =~= joined(before, cur0.push(s@[i as int]), rest));
            }
        }
        i = i + 1;
    }
    let ghost before = done@.map_values(|v: Vec<u8>| v@);
    let ghost cur0 = current@;
    done.push(current);
    proof {
        assert(s@.subrange(s@.len() as int, s@.len() as int) =~= Seq::<u8>::empty());
        assert(done@.map_values(|v: Vec<u8>| v@) =~= joined(before, cur0, seq![Seq::<u8>::empty()]));
    }
    done
}

/// `l` without one trailing carriage return.
pub open spec fn strip_cr(l: Seq<u8>) -> Seq<u8> {
    if l.len() > 0 && l.last() == 13 {
        l.drop_last()
    } else {
        l
    }
}

/// The lines of `s` as `str::lines` yields them: split at line feeds, a carriage return before
/// a line feed dropped, and no empty line after a final line feed.
pub open spec fn lines_of(s: Seq<u8>) -> Seq<Seq<u8>> {
    let parts = split_on(s, 10);
    let ended = parts.take(parts.len() - 1).map_values(|l: Seq<u8>| strip_cr(l));
    if parts.last().len() == 0 {
        ended
    } else {
        ended.push(parts.last())
    }
}

/// The value of a sequence of decimal digits.
pub open spec fn digits_value(d: Seq<u8>) -> nat
    decreases d.len(),
{
    if d.len() == 0 {
        0
    } else {
        digits_value(d.drop_last()) * 10 + (d.last() - 48) as nat
    }
}

pub open spec fn all_digits(d: Seq<u8>) -> bool {
    forall|i: int| 0 <= i < d.len() ==> 48 <= #[trigger] d[i] <= 57
}

/// The number that `t` spells as `usize::from_str` reads it: an optional `+`, then at least one
/// decimal digit, with a value that fits in a `usize`.
pub open spec fn token_value(t: Seq<u8>) -> Option<nat> {
    let d = if t.len() > 0 && t[0] == 43 {
        t.drop_first()
    } else {
        t
    };
    if d.len() > 0 && all_digits(d) && digits_value(d) <= usize::MAX {
        Some(digits_value(d))
    } else {
        None
    }
}

proof fn lemma_digits_value_grows(d: Seq<u8>, j: int)
    requires
        0 <= j <= d.len(),
        all_digits(d),
    ensures
        digits_value(d.take(j)) <= digits_value(d),
    decreases d.len() - j,
{
    if j < d.len() {
        lemma_digits_value_grows(d, j + 1);
        assert(d.take(j + 1).drop_last() =~= d.take(j));
    } else {
        assert(d.take(j) =~= d);
    }
}

/// The number that the token `t` spells, if it spells one that fits in a `usize`.
pub fn parse_token(t: &[u8]) -> (r: Option<usize>)
    ensures
        r matches Some(v) ==> token_value(t@) == Some(v as nat),
        r is None ==> token_value(t@) is None,
{
    let start: usize = if t.len() > 0 && t[0] == 43 { 1 } else { 0 };
    let ghost d = t@.subrange(start as int, t@.len() as int);
    if start == 1 {
        assert(d =~= t@.drop_first());
    } else {
        assert(d =~= t@);
    }
    if start == t.len() {
        return None;
    }
    let mut value: usize = 0;
    let mut i: usize = start;
    while i < t.len()
        invariant
            start <= i <= t@.len(),
            d == t@.subrange(start as int, t@.len() as int),
            token_value(t@) == (if d.len() > 0 && all_digits(d) && digits_value(d) <= usize::MAX {
                Some(digits_value(d))
            } else {
                None
            }),
            all_digits(d.take(i - start)),
            value as nat == digits_value(d.take(i - start)),
        decreases t@.len() - i,
    {
        let b = t[i];
        let ghost k = i - start;
        assert(d[k] == b);
        if b < 48 || b > 57 {
            assert(!all_digits(d));
            return None;
        }
        assert(d.take(k + 1).drop_last() =~= d.take(k));
        assert(d.take(k + 1).last() == b);
        let next = match value.checked_mul(10) {
            Some(v) => v.checked_add((b - 48) as usize),
            None => None,
        };
        match next {
            Some(v) => {
                value = v;
            },
            None => {
                proof {
                    if all_digits(d) {
                        lemma_digits_value_grows(d, k + 1);
                    }
                }
                return None;
            },
        }
        i = i + 1;
    }
    assert(d.take(t@.len() - start) =~= d);
    Some(value)
}

/// The lines of `s`, as `lines_of` describes them.
pub fn split_lines(s: &[u8]) -> (r: Vec<Vec<u8>>)
    ensures
        r@.map_values(|v: Vec<u8>| v@) == lines_of(s@),
{
    let mut parts = split_bytes(s, 10);
    let ghost all = parts@.map_values(|v: Vec<u8>| v@);
    proof {
        lemma_split_on_nonempty(s@, 10);
    }
    let last = match parts.pop() {
        Some(l) => l,
        None => Vec::new(),
    };
    assert(last@ == all.last());
    let ghost ended = all.take(all.len() - 1).map_values(|l: Seq<u8>| strip_cr(l));
    let mut lines: Vec<Vec<u8>> = Vec::new();
    let n = parts.len();
    let mut j: usize = 0;
    while j < n
        invariant
            n == parts@.len(),
            n == all.len() - 1,
            ended == all.take(all.len() - 1).map_values(|l: Seq<u8>| strip_cr(l)),
            forall|k: int| 0 <= k < n ==> #[trigger] parts@[k]@ == all[k],
            j <= n,
            lines@.map_values(|v: Vec<u8>| v@) == ended.take(j as int),
        decreases n - j,
    {
        let mut line: Vec<u8> = Vec::new();
        let len = parts[j].len();
        let keep = if len > 0 && parts[j][len - 1] == 13 { len - 1 } else { len };
        let mut k: usize = 0;
        while k < keep
            invariant
                j < n,
                n == parts@.len(),
                keep <= parts@[j as int]@.len(),
                k <= keep,
                line@ == parts@[j as int]@.take(k as int),
            decreases keep - k,
        {
            line.push(parts[j][k]);
            k = k + 1;
        }
        proof {
            assert(line@ =~= strip_cr(all[j as int]));
            assert(ended[j as int] == strip_cr(all[j as int]));
            assert(ended.take(j + 1) =~= ended.take(j as int).push(ended[j as int]));
            assert(lines@.map_values(|v: Vec<u8>| v@).push(line@) =~= ended.take(j + 1));
        }
        lines.push(line);
        assert(lines@.map_values(|v: Vec<u8>| v@) =~= ended.take(j + 1));
        j = j + 1;
    }
    assert(ended.take(n as int) =~= ended);
    if last.len() > 0 {
        let ghost before = lines@.map_values(|v: Vec<u8>| v@);
        lines.push(last);
        assert(lines@.map_values(|v: Vec<u8>| v@) =~= before.push(all.last()));
    }
    lines
}

/// Why a tile-map text could not be read.
#[derive(Debug, Clone, Copy, PartialEq, Eq, Structural)]
pub enum MapError {
    /// The text has no lines.
    Empty,
    /// The token at this line and position is not a tile id.
    InvalidTileId { line: usize, column: usize },
}

/// The tokens of a tile-map text: its lines, each split at spaces.
pub open spec fn map_tokens(text: Seq<u8>) -> Seq<Seq<Seq<u8>>> {
    lines_of(text).map_values(|l: Seq<u8>| split_on(l, 32))
}

pub open spec fn token_ok(tokens: Seq<Seq<Seq<u8>>>, line: int, column: int) -> bool {
    token_value(tokens[line][column]) is Some
}

/// Every token is a tile id.
pub open spec fn all_tokens_ok(tokens: Seq<Seq<Seq<u8>>>) -> bool {
    forall|line: int, column: int|
        0 <= line < tokens.len() && 0 <= column < tokens[line].len() ==> #[trigger] token_ok(
            tokens,
            line,
            column,
        )
}

/// The token at `(line, column)` is the first one, line by line, that is not a tile id.
pub open spec fn first_bad_token(tokens: Seq<Seq<Seq<u8>>>, line: int, column: int) -> bool {
    &&& 0 <= line < tokens.len()
    &&& 0 <= column < tokens[line].len()
    &&& !token_ok(tokens, line, column)
    &&& forall|l: int, c: int|
        0 <= l <= line && 0 <= c < tokens[l].len() && (l < line || c < column) ==> #[trigger] token_ok(
            tokens,
            l,
            c,
        )
}

/// The tile ids of a map, row by row.
pub struct TileGrid {
    rows: Vec<Vec<usize>>,
}

impl View for TileGrid {
    type V = Seq<Seq<usize>>;

    closed spec fn view(&self) -> Seq<Seq<usize>> {
        self.rows@.map_values(|r: Vec<usize>| r@)
    }
}

impl TileGrid {
    /// Reads a tile map: one line per row, tile ids separated by single spaces.
    pub fn parse(text: &str) -> (r: Result<TileGrid, MapError>)
        ensures
            lines_of(text.spec_bytes()).len() == 0 ==> r == Err::<TileGrid, MapError>(MapError::Empty),
            lines_of(text.spec_bytes()).len() > 0 && all_tokens_ok(map_tokens(text.spec_bytes())) ==> (
            r matches Ok(g) && {
                let tokens = map_tokens(text.spec_bytes());
                &&& g@.len() == tokens.len()
                &&& forall|l: int| 0 <= l < tokens.len() ==> #[trigger] g@[l].len() == tokens[l].len()
                &&& forall|l: int, c: int|
                    0 <= l < tokens.len() && 0 <= c < tokens[l].len() ==> token_value(tokens[l][c])
                        == Some(#[trigger] g@[l][c] as nat)
            }),
            lines_of(text.spec_bytes()).len() > 0 && !all_tokens_ok(map_tokens(text.spec_bytes())) ==> (
            r matches Err(MapError::InvalidTileId { line, column }) && first_bad_token(
                map_tokens(text.spec_bytes()),
                line as int,
                column as int,
            )),
    {
        let lines = split_lines(text.as_bytes());
        let ghost tokens = map_tokens(text.spec_bytes());
        if lines.len() == 0 {
            return Err(MapError::Empty);
        }
        let mut rows: Vec<Vec<usize>> = Vec::new();
        let mut l: usize = 0;
        while l < lines.len()
            invariant
                tokens == map_tokens(text.spec_bytes()),
                lines@.map_values(|v: Vec<u8>| v@) == lines_of(text.spec_bytes()),
                tokens.len() == lines@.len(),
                l <= lines@.len(),
                rows@.len() == l,
                forall|a: int| 0 <= a < l ==> #[trigger] rows@[a]@.len() == tokens[a].len(),
                forall|a: int, c: int|
                    0 <= a < l && 0 <= c < tokens[a].len() ==> token_value(tokens[a][c]) == Some(
                        #[trigger] rows@[a]@[c] as nat,
                    ),
            decreases lines@.len() - l,
        {
            let words = split_bytes(lines[l].as_slice(), 32);
            assert(words@.map_values(|v: Vec<u8>| v@) == tokens[l as int]);
            let mut row: Vec<usize> = Vec::new();
            let mut c: usize = 0;
            while c < words.len()
                invariant
                    tokens == map_tokens(text.spec_bytes()),
                    l < tokens.len(),
                    rows@.len() == l,
                    forall|a: int| 0 <= a < l ==> #[trigger] rows@[a]@.len() == tokens[a].len(),
                    forall|a: int, c2: int|
                        0 <= a < l && 0 <= c2 < tokens[a].len() ==> token_value(tokens[a][c2]) == Some(
                            #[trigger] rows@[a]@[c2] as nat,
                        ),
                    words@.map_values(|v: Vec<u8>| v@) == tokens[l as int],
                    c <= words@.len(),
                    row@.len() == c,
                    forall|c2: int| 0 <= c2 < c ==> token_value(tokens[l as int][c2]) == Some(
                        #[trigger] row@[c2] as nat,
                    ),
                decreases words@.len() - c,
            {
                assert(words@[c as int]@ == tokens[l as int][c as int]);
                match parse_token(words[c].as_slice()) {
                    Some(v) => {
                        row.push(v);
                    },
                    None => {
                        proof {
                            assert(!token_ok(tokens, l as int, c as int));
                            assert forall|a: int, c2: int|
                                0 <= a <= l && 0 <= c2 < tokens[a].len() && (a < l || c2 < c) implies #[trigger] token_ok(
                                tokens,
                                a,
                                c2,
                            ) by {
                                if a < l {
                                    assert(token_value(tokens[a][c2]) == Some(rows@[a]@[c2] as nat));
                                } else {
                                    assert(token_value(tokens[a][c2]) == Some(row@[c2] as nat));
                                }
                            }
                            assert(!all_tokens_ok(tokens));
                        }
                        return Err(MapError::InvalidTileId { line: l, column: c });
                    },
                }
                c = c + 1;
            }
            rows.push(row);
            l = l + 1;
        }
        let g = TileGrid { rows };
        proof {
            assert forall|a: int, c: int|
                0 <= a < tokens.len() && 0 <= c < tokens[a].len() implies #[trigger] token_ok(tokens, a, c) by {
                assert(token_value(tokens[a][c]) == Some(rows@[a]@[c] as nat));
            }
        }
        Ok(g)
    }
}

/// Whether grid `g` has a tile with id `id` at column `x`, row `y`.
pub open spec fn has_tile(g: Seq<Seq<usize>>, x: int, y: int, id: usize) -> bool {
    0 <= y < g.len() && 0 <= x < g[y].len() && g[y][x] == id
}

impl TileGrid {
    /// The number of rows.
    pub fn height(&self) -> (r: usize)
        ensures
            r == self@.len(),
    {
        self.rows.len()
    }

    /// The number of tiles in row `y`, if there is such a row.
    pub fn row_len(&self, y: usize) -> (r: Option<usize>)
        ensures
            y < self@.len() ==> r == Some(self@[y as int].len() as usize),
            y >= self@.len() ==> r is None,
    {
        if y < self.rows.len() {
            Some(self.rows[y].len())
        } else {
            None
        }
    }

    /// The tile id at column `x`, row `y`, if there is one.
    pub fn get(&self, x: usize, y: usize) -> (r: Option<usize>)
        ensures
            (y < self@.len() && x < self@[y as int].len()) ==> r == Some(self@[y as int][x as int]),
            !(y < self@.len() && x < self@[y as int].len()) ==> r is None,
    {
        if y < self.rows.len() && x < self.rows[y].len() {
            Some(self.rows[y][x])
        } else {
            None
        }
    }

    /// Whether the tile at offset `dx - 1`, `dy - 1` from column `x`, row `y` exists and has
    /// id `id`.
    fn matches_at(&self, x: usize, dx: usize, y: usize, dy: usize, id: usize) -> (r: bool)
        requires
            dx < 3,
            dy < 3,
        ensures
            r == has_tile(self@, x + dx - 1, y + dy - 1, id),
    {
        proof {
            assert(self.rows.len() == self.rows@.len());
            assert forall|k: int| 0 <= k < self@.len() implies #[trigger] self@[k].len() <= usize::MAX by {
                assert(self.rows@[k].len() == self.rows@[k]@.len());
            }
        }
        let nx = if dx == 0 {
            if x == 0 {
                return false;
            }
            x - 1
        } else if dx == 1 {
            x
        } else {
            match x.checked_add(1) {
                Some(v) => v,
                None => return false,
            }
        };
        let ny = if dy == 0 {
            if y == 0 {
                return false;
            }
            y - 1
        } else if dy == 1 {
            y
        } else {
            match y.checked_add(1) {
                Some(v) => v,
                None => return false,
            }
        };
        match self.get(nx, ny) {
            Some(t) => t == id,
            None => false,
        }
    }

    /// Which of the eight tiles around column `x`, row `y` exist and have the same id as the
    /// tile there: `r[dy][dx]` is about offset `(dx - 1, dy - 1)`; the middle entry is false.
    pub fn same_neighbours(&self, x: usize, y: usize) -> (r: [[bool; 3]; 3])
        requires
            y < self@.len(),
            x < self@[y as int].len(),
        ensures
            forall|dy: int, dx: int|
                0 <= dy < 3 && 0 <= dx < 3 ==> #[trigger] r@[dy]@[dx] == (!(dx == 1 && dy == 1)
                    && has_tile(self@, x + dx - 1, y + dy - 1, self@[y as int][x as int])),
    {
        let id = self.rows[y][x];
        let r = [
            [
                self.matches_at(x, 0, y, 0, id),
                self.matches_at(x, 1, y, 0, id),
                self.matches_at(x, 2, y, 0, id),
            ],
            [self.matches_at(x, 0, y, 1, id), false, self.matches_at(x, 2, y, 1, id)],
            [
                self.matches_at(x, 0, y, 2, id),
                self.matches_at(x, 1, y, 2, id),
                self.matches_at(x, 2, y, 2, id),
            ],
        ];
        r
    }
}

} // verus!
