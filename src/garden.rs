use vstd::prelude::*;

verus! {

/// What one cell of the grid holds.
#[derive(Clone, Copy, Debug, PartialEq, Eq, Structural)]
pub enum Cell {
    Blocked,
    Open,
    /// A herb, by letter: 0 for `A` up to 25 for `Z`.
    Herb(u8),
}

/// Why a text grid was refused.
#[derive(Clone, Copy, Debug, PartialEq, Eq, Structural)]
pub enum ParseError {
    /// The text holds no line.
    Empty,
    /// A character outside `#`, `~`, `.` and `A`..`Z`.
    InvalidChar(char),
    /// A line whose length differs from the first line's.
    Ragged,
    /// The first line holds no `.`.
    MissingEntry,
    /// As many lines, or as long a first line, as `MAX_INPUT` or more.
    TooLarge,
}

/// Largest number of characters accepted by `Garden::parse`.
pub const MAX_INPUT: usize = 0x4000_0000;

/// The cell that a character of the grid stands for, if any.
pub open spec fn cell_of(c: char) -> Option<Cell> {
    if c == '#' || c == '~' {
        Some(Cell::Blocked)
    } else if c == '.' {
        Some(Cell::Open)
    } else if 'A' <= c && c <= 'Z' {
        Some(Cell::Herb(((c as u32) - 65) as u8))
    } else {
        None
    }
}

/// The pieces of `s` between line feeds, in order; there is one more piece than line feeds.
pub open spec fn segments(s: Seq<char>) -> Seq<Seq<char>>
    decreases s.len(),
{
    if s.len() == 0 {
        seq![Seq::<char>::empty()]
    } else {
        let prev = segments(s.drop_last());
        if s.last() == '\n' {
            prev.push(Seq::<char>::empty())
        } else {
            prev.update(prev.len() - 1, prev.last().push(s.last()))
        }
    }
}

pub open spec fn strip_cr(l: Seq<char>) -> Seq<char> {
    if l.len() > 0 && l.last() == '\r' {
        l.drop_last()
    } else {
        l
    }
}

/// The lines of `s`: its segments without a trailing carriage return, where a final
/// empty segment (after a closing line feed, or of empty text) is no line.
pub open spec fn lines_of(s: Seq<char>) -> Seq<Seq<char>> {
    let segs = segments(s);
    let kept = if segs.last().len() == 0 {
        segs.drop_last()
    } else {
        segs
    };
    kept.map_values(|l: Seq<char>| strip_cr(l))
}

pub open spec fn all_valid(ls: Seq<Seq<char>>) -> bool {
    forall|i: int, j: int|
        0 <= i < ls.len() && 0 <= j < ls[i].len() ==> (#[trigger] cell_of(ls[i][j])).is_some()
}

pub open spec fn rectangular(ls: Seq<Seq<char>>) -> bool {
    forall|i: int| 0 <= i < ls.len() ==> (#[trigger] ls[i]).len() == ls[0].len()
}

pub open spec fn has_entry(ls: Seq<Seq<char>>) -> bool {
    exists|j: int| 0 <= j < ls[0].len() && #[trigger] ls[0][j] == '.'
}

pub open spec fn views(v: Seq<Vec<char>>) -> Seq<Seq<char>> {
    v.map_values(|x: Vec<char>| x@)
}

/// Some cell before (row `r`, column `c`) in reading order holds a herb of letter `t`.
pub open spec fn herb_before(ls: Seq<Seq<char>>, t: int, r: int, c: int) -> bool {
    exists|i: int, j: int|
        0 <= i < ls.len() && 0 <= j < ls[i].len() && (i < r || (i == r && j < c)) && cell_of(
            #[trigger] ls[i][j],
        ) == Some(Cell::Herb(t as u8))
}

/// `g` is the garden that the lines `ls` draw.
pub open spec fn drawn_by(g: Garden, ls: Seq<Seq<char>>) -> bool {
    &&& g.wf()
    &&& g.size == (ls.len() as usize, ls[0].len() as usize)
    &&& forall|r: int, c: int|
        0 <= r < ls.len() && 0 <= c < ls[r].len() ==> Some(#[trigger] g.grid@[r]@[c]) == cell_of(ls[r][c])
    &&& ls[0][g.start.1 as int] == '.'
    &&& forall|j: int| g.start.1 < j < ls[0].len() ==> #[trigger] ls[0][j] != '.'
}

/// Bit `t` of `m` is set.
pub open spec fn has_bit(m: u64, t: u64) -> bool {
    m & (1u64 << t) != 0
}

pub proof fn lemma_or_bit(m: u64, k: u64, t: u64)
    requires
        k < 64,
        t < 64,
    ensures
        has_bit(m | (1u64 << k), t) == (has_bit(m, t) || t == k),
{
    assert((m | (1u64 << k)) & (1u64 << t) != 0 <==> (m & (1u64 << t) != 0 || t == k))
        by (bit_vector)
        requires
            k < 64,
            t < 64,
    ;
}

fn strip(v: Vec<char>) -> (r: Vec<char>)
    ensures
        r@ == strip_cr(v@),
{
    let mut v = v;
    if v.len() > 0 && v[v.len() - 1] == '\r' {
        v.pop();
    }
    v
}

/// Splits `data` into its lines.
fn split_lines(data: &str) -> (r: Vec<Vec<char>>)
    ensures
        views(r@) == lines_of(data@),
{
    let n = data.unicode_len();
    let mut done: Vec<Vec<char>> = Vec::new();
    let mut cur: Vec<char> = Vec::new();
    let mut i: usize = 0;
    while i < n
        invariant
            n == data@.len(),
            i <= n,
            views(done@) == segments(data@.take(i as int)).drop_last().map_values(
                |l: Seq<char>| strip_cr(l),
            ),
            cur@ == segments(data@.take(i as int)).last(),
            segments(data@.take(i as int)).len() >= 1,
        decreases n - i,
    {
        let c = data.get_char(i);
        let ghost prev = segments(data@.take(i as int));
        assert(data@.take(i + 1).drop_last() =~= data@.take(i as int));
        assert(data@.take(i + 1).last() == c);
        if c == '\n' {
            let line = strip(cur);
            done.push(line);
            cur = Vec::new();
            assert(segments(data@.take(i + 1)) == prev.push(Seq::<char>::empty()));
            assert(segments(data@.take(i + 1)).drop_last() =~= prev);
            assert(prev.drop_last().push(prev.last()) =~= prev);
            assert(prev.map_values(|l: Seq<char>| strip_cr(l)) =~= prev.drop_last().map_values(
                |l: Seq<char>| strip_cr(l),
            ).push(strip_cr(prev.last())));
            assert(views(done@) =~= segments(data@.take(i + 1)).drop_last().map_values(
                |l: Seq<char>| strip_cr(l),
            ));
        } else {
            cur.push(c);
            assert(segments(data@.take(i + 1)) == prev.update(prev.len() - 1, prev.last().push(c)));
            assert(views(done@) =~= segments(data@.take(i + 1)).drop_last().map_values(
                |l: Seq<char>| strip_cr(l),
            ));
        }
        i = i + 1;
    }
    assert(data@.take(n as int) =~= data@);
    if cur.len() > 0 {
        let ghost segs = segments(data@);
        let line = strip(cur);
        done.push(line);
        assert(segs.drop_last().push(segs.last()) =~= segs);
        assert(segs.map_values(|l: Seq<char>| strip_cr(l)) =~= segs.drop_last().map_values(
            |l: Seq<char>| strip_cr(l),
        ).push(strip_cr(segs.last())));
        assert(views(done@) =~= lines_of(data@));
    } else {
        assert(views(done@) =~= lines_of(data@));
    }
    done
}

fn cell_from(c: char) -> (r: Option<Cell>)
    ensures
        r == cell_of(c),
{
    if c == '#' || c == '~' {
        Some(Cell::Blocked)
    } else if c == '.' {
        Some(Cell::Open)
    } else if 'A' <= c && c <= 'Z' {
        Some(Cell::Herb(((c as u32) - 65) as u8))
    } else {
        None
    }
}

/// A maze of garden cells, with the herbs to collect and the entry on the first row.
pub struct Garden {
    /// Rows of cells, all of one length.
    pub grid: Vec<Vec<Cell>>,
    /// Bit `t` is set when a herb of letter `t` grows somewhere.
    pub herb_types: u64,
    /// The entry, as (row, column).
    pub start: (i64, i64),
    /// (rows, columns).
    pub size: (usize, usize),
}

impl Garden {
    pub open spec fn herb_somewhere(self, t: int) -> bool {
        exists|r: int, c: int|
            0 <= r < self.grid@.len() && 0 <= c < self.grid@[r]@.len() && #[trigger] self.grid@[r]@[c]
                == Cell::Herb(t as u8)
    }

    pub open spec fn wf(self) -> bool {
        &&& self.grid@.len() == self.size.0
        &&& 1 <= self.size.0 < MAX_INPUT
        &&& self.size.1 < MAX_INPUT
        &&& forall|r: int| 0 <= r < self.grid@.len() ==> (#[trigger] self.grid@[r])@.len() == self.size.1
        &&& forall|r: int, c: int|
            0 <= r < self.grid@.len() && 0 <= c < self.grid@[r]@.len() ==> match #[trigger] self.grid@[r]@[c] {
                Cell::Herb(h) => h < 26,
                _ => true,
            }
        &&& forall|t: u64| t < 64 ==> (#[trigger] has_bit(self.herb_types, t) <==> self.herb_somewhere(t as int))
        &&& self.start.0 == 0
        &&& 0 <= self.start.1 < self.size.1
        &&& self.grid@[0]@[self.start.1 as int] == Cell::Open
    }

    /// Reads a grid: `#` and `~` are blocked, `.` is open ground, `A`..`Z` are herbs, and
    /// the last `.` of the first line is the entry.
    pub fn parse(data: &str) -> (res: Result<Self, ParseError>)
        ensures
            ({
                let ls = lines_of(data@);
                &&& res == Err::<Garden, ParseError>(ParseError::Empty) <==> ls.len() == 0
                &&& (res matches Err(ParseError::InvalidChar(_))) <==> ls.len() > 0 && !all_valid(ls)
                &&& (res matches Err(ParseError::InvalidChar(c)) ==> cell_of(c).is_none()
                    && exists|i: int, j: int|
                    0 <= i < ls.len() && 0 <= j < ls[i].len() && #[trigger] ls[i][j] == c)
                &&& res == Err::<Garden, ParseError>(ParseError::TooLarge) <==> ls.len() > 0 && all_valid(ls) && (
                ls.len() >= MAX_INPUT || ls[0].len() >= MAX_INPUT)
                &&& res == Err::<Garden, ParseError>(ParseError::Ragged) <==> ls.len() > 0 && all_valid(ls) && ls.len()
                    < MAX_INPUT && ls[0].len() < MAX_INPUT && !rectangular(ls)
                &&& res == Err::<Garden, ParseError>(ParseError::MissingEntry) <==> ls.len() > 0 && all_valid(ls)
                    && ls.len() < MAX_INPUT && ls[0].len() < MAX_INPUT && rectangular(ls) && !has_entry(ls)
                &&& res is Ok <==> ls.len() > 0 && all_valid(ls) && ls.len() < MAX_INPUT && ls[0].len()
                    < MAX_INPUT && rectangular(ls) && has_entry(ls)
                &&& res matches Ok(g) ==> drawn_by(g, ls)
            }),
    {
        let ls = split_lines(data);
        let ghost v = views(ls@);
        if ls.len() == 0 {
            return Err(ParseError::Empty);
        }
        let mut r: usize = 0;
        while r < ls.len()
            invariant
                v == views(ls@),
                v == lines_of(data@),
                r <= ls.len(),
                forall|i: int, j: int|
                    0 <= i < r && 0 <= j < v[i].len() ==> (#[trigger] cell_of(v[i][j])).is_some(),
            decreases ls.len() - r,
        {
            let mut c: usize = 0;
            while c < ls[r].len()
                invariant
                    v == views(ls@),
                    v == lines_of(data@),
                    r < ls.len(),
                    c <= v[r as int].len(),
                    forall|i: int, j: int|
                        0 <= i < r && 0 <= j < v[i].len() ==> (#[trigger] cell_of(v[i][j])).is_some(),
                    forall|j: int| 0 <= j < c ==> (#[trigger] cell_of(v[r as int][j])).is_some(),
                decreases v[r as int].len() - c,
            {
                let ch = ls[r][c];
                if cell_from(ch).is_none() {
                    assert(v[r as int][c as int] == ch);
                    assert(!all_valid(v));
                    assert(v == lines_of(data@));
                    assert(exists|i: int, j: int|
                        0 <= i < v.len() && 0 <= j < v[i].len() && #[trigger] v[i][j] == ch);
                    return Err(ParseError::InvalidChar(ch));
                }
                c = c + 1;
            }
            r = r + 1;
        }
        assert(all_valid(v));
        let rows = ls.len();
        let cols = ls[0].len();
        if rows >= MAX_INPUT || cols >= MAX_INPUT {
            return Err(ParseError::TooLarge);
        }
        let mut r: usize = 0;
        while r < rows
            invariant
                v == views(ls@),
                v == lines_of(data@),
                rows == v.len(),
                cols == v[0].len(),
                rows < MAX_INPUT,
                cols < MAX_INPUT,
                r <= rows,
                all_valid(v),
                forall|i: int| 0 <= i < r ==> (#[trigger] v[i]).len() == cols,
            decreases rows - r,
        {
            if ls[r].len() != cols {
                assert(v[r as int].len() == ls[r as int]@.len());
                assert(!rectangular(v));
                return Err(ParseError::Ragged);
            }
            r = r + 1;
        }
        let mut entry: Option<usize> = None;
        let mut c: usize = 0;
        while c < cols
            invariant
                v == views(ls@),
                v == lines_of(data@),
                rows == v.len(),
                rows >= 1,
                rectangular(v),
                all_valid(v),
                cols == v[0].len(),
                rows < MAX_INPUT,
                cols < MAX_INPUT,
                c <= cols,
                entry matches Some(k) ==> k < c && v[0][k as int] == '.' && forall|j: int|
                    k < j < c ==> #[trigger] v[0][j] != '.',
                entry is None ==> forall|j: int| 0 <= j < c ==> #[trigger] v[0][j] != '.',
            decreases cols - c,
        {
            if ls[0][c] == '.' {
                entry = Some(c);
            }
            c = c + 1;
        }
        let start_col = match entry {
            Some(k) => k,
            None => {
                return Err(ParseError::MissingEntry);
            },
        };
        let mut grid: Vec<Vec<Cell>> = Vec::new();
        let mut mask: u64 = 0;
        assert forall|t: u64| t < 64 implies !(#[trigger] has_bit(mask, t)) by {
            assert(0u64 & (1u64 << t) == 0) by (bit_vector);
        }
        let mut r: usize = 0;
        while r < rows
            invariant
                v == views(ls@),
                v == lines_of(data@),
                rows == v.len(),
                all_valid(v),
                rectangular(v),
                cols == v[0].len(),
                rows < MAX_INPUT,
                cols < MAX_INPUT,
                r <= rows,
                grid@.len() == r,
                forall|i: int| 0 <= i < r ==> (#[trigger] grid@[i])@.len() == cols,
                forall|i: int, j: int|
                    0 <= i < r && 0 <= j < cols ==> Some(#[trigger] grid@[i]@[j]) == cell_of(v[i][j]),
                forall|t: u64| t < 64 ==> (#[trigger] has_bit(mask, t) <==> herb_before(v, t as int, r as int, 0)),
            decreases rows - r,
        {
            let mut row: Vec<Cell> = Vec::new();
            let mut c: usize = 0;
            while c < cols
                invariant
                    v == views(ls@),
                    v == lines_of(data@),
                    rows == v.len(),
                    all_valid(v),
                    rectangular(v),
                    cols == v[0].len(),
                rows < MAX_INPUT,
                cols < MAX_INPUT,
                    r < rows,
                    c <= cols,
                    row@.len() == c,
                    forall|j: int| 0 <= j < c ==> Some(#[trigger] row@[j]) == cell_of(v[r as int][j]),
                    forall|t: u64| t < 64 ==> (#[trigger] has_bit(mask, t) <==> herb_before(v, t as int, r as int, c as int)),
                decreases cols - c,
            {
                let ch = ls[r][c];
                assert(v[r as int][c as int] == ch);
                let cell = match cell_from(ch) {
                    Some(x) => x,
                    None => {
                        assert(cell_of(v[r as int][c as int]).is_some());
                        Cell::Blocked
                    },
                };
                if let Cell::Herb(h) = cell {
                    let ghost old_mask = mask;
                    mask = mask | (1u64 << h as u64);
                    proof {
                        assert forall|t: u64| t < 64 implies (#[trigger] has_bit(mask, t) <==> herb_before(
                            v,
                            t as int,
                            r as int,
                            c + 1,
                        )) by {
                            lemma_or_bit(old_mask, h as u64, t);
                            if t == h as u64 {
                                assert(cell_of(v[r as int][c as int]) == Some(Cell::Herb(t as u8)));
                            }
                            if herb_before(v, t as int, r as int, c + 1) && !herb_before(v, t as int, r as int, c as int) {
                                let (i, j) = choose|i: int, j: int|
                                    0 <= i < v.len() && 0 <= j < v[i].len() && (i < r || (i == r && j < c + 1))
                                        && cell_of(#[trigger] v[i][j]) == Some(Cell::Herb(t as u8));
                                assert(i == r && j == c);
                            }
                        }
                    }
                } else {
                    proof {
                        assert forall|t: u64| t < 64 implies (#[trigger] has_bit(mask, t) <==> herb_before(
                            v,
                            t as int,
                            r as int,
                            c + 1,
                        )) by {
                            if herb_before(v, t as int, r as int, c + 1) && !herb_before(v, t as int, r as int, c as int) {
                                let (i, j) = choose|i: int, j: int|
                                    0 <= i < v.len() && 0 <= j < v[i].len() && (i < r || (i == r && j < c + 1))
                                        && cell_of(#[trigger] v[i][j]) == Some(Cell::Herb(t as u8));
                                assert(i == r && j == c);
                            }
                        }
                    }
                }
                row.push(cell);
                c = c + 1;
            }
            proof {
                assert forall|t: u64| t < 64 implies (#[trigger] has_bit(mask, t) <==> herb_before(
                    v,
                    t as int,
                    r + 1,
                    0,
                )) by {
                    if herb_before(v, t as int, r + 1, 0) {
                        let (i, j) = choose|i: int, j: int|
                            0 <= i < v.len() && 0 <= j < v[i].len() && (i < r + 1 || (i == r + 1 && j < 0))
                                && cell_of(#[trigger] v[i][j]) == Some(Cell::Herb(t as u8));
                        assert(v[i].len() == cols);
                        assert(herb_before(v, t as int, r as int, cols as int));
                    }
                    if herb_before(v, t as int, r as int, cols as int) {
                        let (i, j) = choose|i: int, j: int|
                            0 <= i < v.len() && 0 <= j < v[i].len() && (i < r || (i == r && j < cols))
                                && cell_of(#[trigger] v[i][j]) == Some(Cell::Herb(t as u8));
                        assert(herb_before(v, t as int, r + 1, 0));
                    }
                }
            }
            grid.push(row);
            r = r + 1;
        }
        let g = Garden { grid, herb_types: mask, start: (0, start_col as i64), size: (rows, cols) };
        proof {
            assert forall|t: u64| t < 64 implies (#[trigger] has_bit(g.herb_types, t) <==> g.herb_somewhere(t as int)) by {
                if g.herb_somewhere(t as int) {
                    let (i, j) = choose|i: int, j: int|
                        0 <= i < g.grid@.len() && 0 <= j < g.grid@[i]@.len() && #[trigger] g.grid@[i]@[j]
                            == Cell::Herb(t as u8);
                    assert(Some(g.grid@[i]@[j]) == cell_of(v[i][j]));
                    assert(herb_before(v, t as int, rows as int, 0));
                }
                if herb_before(v, t as int, rows as int, 0) {
                    let (i, j) = choose|i: int, j: int|
                        0 <= i < v.len() && 0 <= j < v[i].len() && (i < rows || (i == rows && j < 0))
                            && cell_of(#[trigger] v[i][j]) == Some(Cell::Herb(t as u8));
                    assert(v[i].len() == cols);
                    assert(Some(g.grid@[i]@[j]) == cell_of(v[i][j]));
                }
            }
            assert forall|i: int, j: int|
                0 <= i < g.grid@.len() && 0 <= j < g.grid@[i]@.len() implies match #[trigger] g.grid@[i]@[j] {
                    Cell::Herb(h) => h < 26,
                    _ => true,
                } by {
                assert(Some(g.grid@[i]@[j]) == cell_of(v[i][j]));
            }
            assert(Some(g.grid@[0]@[start_col as int]) == cell_of(v[0][start_col as int]));
        }
        Ok(g)
    }

    pub open spec fn in_bounds(self, p: (int, int)) -> bool {
        0 <= p.0 < self.size.0 && 0 <= p.1 < self.size.1
    }

    pub open spec fn cell(self, p: (int, int)) -> Cell {
        self.grid@[p.0]@[p.1]
    }

    /// A cell that can be walked on: inside the grid and not blocked.
    pub open spec fn navigable(self, p: (int, int)) -> bool {
        self.in_bounds(p) && self.cell(p) != Cell::Blocked
    }

    /// The herbs still to collect after stepping onto `p` with `m` left.
    pub open spec fn mask_after(self, m: u64, p: (int, int)) -> u64 {
        match self.cell(p) {
            Cell::Herb(h) => m & !(1u64 << (h as u64)),
            _ => m,
        }
    }

    pub open spec fn keep(self, p: (int, int)) -> Seq<(i64, i64)> {
        if self.navigable(p) {
            seq![(p.0 as i64, p.1 as i64)]
        } else {
            seq![]
        }
    }

    /// The navigable cells next to `p`, in the order up, down, left, right.
    pub open spec fn adjacent(self, p: (i64, i64)) -> Seq<(i64, i64)> {
        self.keep((p.0 - 1, p.1 as int)) + self.keep((p.0 + 1, p.1 as int)) + self.keep(
            (p.0 as int, p.1 - 1),
        ) + self.keep((p.0 as int, p.1 + 1))
    }

    /// The search states one step from `s`.
    pub open spec fn successors(self, s: (u64, (i64, i64))) -> Seq<(u64, (i64, i64))> {
        let adj = self.adjacent(s.1);
        Seq::new(adj.len(), |k: int| (self.mask_after(s.0, (adj[k].0 as int, adj[k].1 as int)), adj[k]))
    }

    pub open spec fn goal(self, s: (u64, (i64, i64))) -> bool {
        s.0 == 0 && s.1 == self.start
    }

    /// Stepping onto a herb whose letter is already crossed off leaves the mask as it is,
    /// and stepping onto any cell a second time changes nothing more.
    pub proof fn lemma_mask_idempotent(self, m: u64, q: (int, int))
        requires
            self.wf(),
            self.navigable(q),
        ensures
            (self.cell(q) matches Cell::Herb(h) && !has_bit(m, h as u64)) ==> self.mask_after(m, q) == m,
            self.mask_after(self.mask_after(m, q), q) == self.mask_after(m, q),
    {
        if let Cell::Herb(h) = self.cell(q) {
            let k = h as u64;
            assert(k < 26);
            assert(!(m & (1u64 << k) != 0) ==> m & !(1u64 << k) == m) by (bit_vector)
                requires
                    k < 64,
            ;
            assert((m & !(1u64 << k)) & !(1u64 << k) == m & !(1u64 << k)) by (bit_vector);
        }
    }

    fn is_navigable(&self, r: i64, c: i64) -> (b: bool)
        requires
            self.wf(),
        ensures
            b == self.navigable((r as int, c as int)),
    {
        if r < 0 || c < 0 || r >= self.size.0 as i64 || c >= self.size.1 as i64 {
            false
        } else {
            self.grid[r as usize][c as usize] != Cell::Blocked
        }
    }

    /// The navigable cells next to `pos`, up, down, left, right.
    pub fn all_neighbors(&self, pos: &(i64, i64)) -> (r: Vec<(i64, i64)>)
        requires
            self.wf(),
        ensures
            r@ == self.adjacent(*pos),
    {
        let row = pos.0;
        let col = pos.1;
        let mut r: Vec<(i64, i64)> = Vec::new();
        if row > 0 && self.is_navigable(row - 1, col) {
            r.push((row - 1, col));
        }
        let ghost a = r@;
        assert(a == self.keep((row - 1, col as int)));
        if row < MAX_INPUT as i64 && self.is_navigable(row + 1, col) {
            r.push((row + 1, col));
        }
        let ghost b = r@;
        assert(b == a + self.keep((row + 1, col as int)));
        if col > 0 && self.is_navigable(row, col - 1) {
            r.push((row, col - 1));
        }
        let ghost c = r@;
        assert(c == b + self.keep((row as int, col - 1)));
        if col < MAX_INPUT as i64 && self.is_navigable(row, col + 1) {
            r.push((row, col + 1));
        }
        assert(r@ == c + self.keep((row as int, col + 1)));
        r
    }

    /// The mask after stepping onto the navigable cell `q` with `m` left.
    fn mask_at(&self, m: u64, q: (i64, i64)) -> (r: u64)
        requires
            self.wf(),
            self.navigable((q.0 as int, q.1 as int)),
        ensures
            r == self.mask_after(m, (q.0 as int, q.1 as int)),
    {
        match self.grid[q.0 as usize][q.1 as usize] {
            Cell::Herb(h) => m & !(1u64 << h as u64),
            _ => m,
        }
    }

    /// The states one step from `state`: each navigable neighbour, with the herb there
    /// crossed off the mask.
    pub fn neighbors(&self, state: &(u64, (i64, i64))) -> (r: Vec<(u64, (i64, i64))>)
        requires
            self.wf(),
        ensures
            r@ == self.successors(*state),
    {
        let remaining = state.0;
        let pos = state.1;
        let cells = self.all_neighbors(&pos);
        let mut r: Vec<(u64, (i64, i64))> = Vec::new();
        let mut i: usize = 0;
        while i < cells.len()
            invariant
                self.wf(),
                cells@ == self.adjacent(pos),
                pos == state.1,
                remaining == state.0,
                i <= cells.len(),
                r@ == self.successors(*state).take(i as int),
            decreases cells.len() - i,
        {
            let q = cells[i];
            proof {
                assert(self.keep((pos.0 - 1, pos.1 as int)).contains(q)
                    || self.keep((pos.0 + 1, pos.1 as int)).contains(q)
                    || self.keep((pos.0 as int, pos.1 - 1)).contains(q)
                    || self.keep((pos.0 as int, pos.1 + 1)).contains(q)) by {
                    assert(cells@.contains(q));
                }
            }
            let m = self.mask_at(remaining, q);
            r.push((m, q));
            assert(self.successors(*state).len() == cells@.len());
            assert(self.successors(*state)[i as int] == (m, q));
            assert(self.successors(*state).take(i + 1) =~= self.successors(*state).take(i as int).push((m, q)));
            i = i + 1;
        }
        assert(self.successors(*state).take(i as int) =~= self.successors(*state));
        r
    }

    /// Whether `state` is the goal: no herb left and back at the entry.
    pub fn is_end(&self, state: &(u64, (i64, i64))) -> (r: bool)
        ensures
            r == self.goal(*state),
    {
        state.0 == 0 && state.1.0 == self.start.0 && state.1.1 == self.start.1
    }
}

} // verus!
