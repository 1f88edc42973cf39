use vstd::prelude::*;

verus! {

/// One cell of a floor layout.
#[derive(Clone, Copy, Debug, PartialEq, Eq, Structural)]
pub enum Tile {
    Floor,
    Wall,
    Exit,
}

/// A named collection of vaults to draw from when generating a floor.
#[derive(Debug)]
pub struct VaultSet {
    pub vaults: Vec<String>,
    /// Nodes per floor.
    pub density: u32,
    /// Ratio of halls to vaults.
    pub hall_ratio: i32,
}

/// A hand-authored map fragment: a row-major grid of tiles and the
/// characters standing on it, each naming the sheet to instantiate.
#[derive(Debug)]
pub struct Vault {
    pub tiles: Vec<Option<Tile>>,
    pub width: usize,
    pub characters: Vec<(i32, i32, String)>,
}

impl Vault {
    /// A vault is well formed when its tile grid is rectangular.
    pub open spec fn wf(&self) -> bool {
        self.width > 0 ==> (self.tiles@.len() as int) % (self.width as int) == 0
    }
}

/// What one metadata symbol stands for in a vault layout.
#[derive(Debug)]
pub enum SymbolMeaning {
    Tile(Tile),
    Character(String),
}

/// The symbol table of a vault file, as plain pairs.
#[derive(Debug)]
pub struct Metadata {
    pub symbols: Vec<(char, SymbolMeaning)>,
}

/// Why a vault file was rejected.
#[derive(Debug)]
pub enum Error {
    MissingLayout,
    UnexpectedSymbol(char),
}

impl Error {
    /// The narration line for this failure.
    pub fn message(&self) -> (r: &'static str)
        ensures
            match *self {
                Error::MissingLayout => r@ == "vault is missing a layout section"@,
                Error::UnexpectedSymbol(_) => r@ == "unexpected symbol"@,
            },
    {
        match self {
            Error::MissingLayout => "vault is missing a layout section",
            Error::UnexpectedSymbol(_) => "unexpected symbol",
        }
    }
}

} // verus!

verus! {

/// The side of a generated cave.
pub const CAVE_SIDE: usize = 36;

/// Whether a grid position lies on the cave's border.
pub open spec fn on_border(x: int, y: int) -> bool {
    x == 0 || y == 0 || x == CAVE_SIDE - 1 || y == CAVE_SIDE - 1
}

/// The freshly seeded cave: walls all around the border, and each interior
/// cell floor or wall as its random roll decided.
pub open spec fn cave_seed(rolls: Seq<bool>) -> Seq<Tile> {
    Seq::new(
        (CAVE_SIDE * CAVE_SIDE) as nat,
        |i: int|
            {
                let x = i % (CAVE_SIDE as int);
                let y = i / (CAVE_SIDE as int);
                if on_border(x, y) {
                    Tile::Wall
                } else if rolls[(y - 1) * (CAVE_SIDE - 2) + (x - 1)] {
                    Tile::Floor
                } else {
                    Tile::Wall
                }
            },
    )
}

/// How many of the eight neighbours of `(x, y)` are walls.
pub open spec fn wall_neighbors(g: Seq<Tile>, x: int, y: int) -> int {
    let side = CAVE_SIDE as int;
    (if g[(y - 1) * side + (x - 1)] is Wall {
        1int
    } else {
        0int
    }) + (if g[(y - 1) * side + x] is Wall {
        1int
    } else {
        0int
    }) + (if g[(y - 1) * side + (x + 1)] is Wall {
        1int
    } else {
        0int
    }) + (if g[y * side + (x - 1)] is Wall {
        1int
    } else {
        0int
    }) + (if g[y * side + (x + 1)] is Wall {
        1int
    } else {
        0int
    }) + (if g[(y + 1) * side + (x - 1)] is Wall {
        1int
    } else {
        0int
    }) + (if g[(y + 1) * side + x] is Wall {
        1int
    } else {
        0int
    }) + (if g[(y + 1) * side + (x + 1)] is Wall {
        1int
    } else {
        0int
    })
}

/// One smoothing pass of the cave automaton: interior cells crowded by more
/// than four walls, or touching none at all, become walls; the rest become
/// floor. The border stays wall.
pub open spec fn cave_step(g: Seq<Tile>) -> Seq<Tile> {
    Seq::new(
        (CAVE_SIDE * CAVE_SIDE) as nat,
        |i: int|
            {
                let x = i % (CAVE_SIDE as int);
                let y = i / (CAVE_SIDE as int);
                if on_border(x, y) {
                    Tile::Wall
                } else {
                    let n = wall_neighbors(g, x, y);
                    if n > 4 || n == 0 {
                        Tile::Wall
                    } else {
                        Tile::Floor
                    }
                }
            },
    )
}

/// The cave after `k` smoothing passes.
pub open spec fn cave_iter(g: Seq<Tile>, k: int) -> Seq<Tile>
    decreases k,
{
    if k <= 0 {
        g
    } else {
        cave_iter(cave_step(g), k - 1)
    }
}

/// Count the walls among the eight neighbours of an interior cave cell.
#[verifier::rlimit(60)]
#[verifier::spinoff_prover]
fn count_wall_neighbors(grid: &Vec<Tile>, x: usize, y: usize) -> (r: u32)
    requires
        grid@.len() == CAVE_SIDE * CAVE_SIDE,
        1 <= x <= CAVE_SIDE - 2,
        1 <= y <= CAVE_SIDE - 2,
    ensures
        r == wall_neighbors(grid@, x as int, y as int),
{
    proof {
        assert(0 <= (y - 1) * (CAVE_SIDE as int) + (x - 1) && (y + 1) * (CAVE_SIDE as int) + (x
            + 1) < CAVE_SIDE * CAVE_SIDE) by (nonlinear_arith)
            requires
                1 <= x <= CAVE_SIDE - 2,
                1 <= y <= CAVE_SIDE - 2,
        ;
    }
    let side = CAVE_SIDE;
    let mut neighbors: u32 = 0;
    if matches!(grid[(y - 1) * side + (x - 1)], Tile::Wall) {
        neighbors = neighbors + 1;
    }
    if matches!(grid[(y - 1) * side + x], Tile::Wall) {
        neighbors = neighbors + 1;
    }
    if matches!(grid[(y - 1) * side + (x + 1)], Tile::Wall) {
        neighbors = neighbors + 1;
    }
    if matches!(grid[y * side + (x - 1)], Tile::Wall) {
        neighbors = neighbors + 1;
    }
    if matches!(grid[y * side + (x + 1)], Tile::Wall) {
        neighbors = neighbors + 1;
    }
    if matches!(grid[(y + 1) * side + (x - 1)], Tile::Wall) {
        neighbors = neighbors + 1;
    }
    if matches!(grid[(y + 1) * side + x], Tile::Wall) {
        neighbors = neighbors + 1;
    }
    if matches!(grid[(y + 1) * side + (x + 1)], Tile::Wall) {
        neighbors = neighbors + 1;
    }
    neighbors
}

impl Vault {
    /// Use cellular automata to carve a cave layout: seed the interior from
    /// the given random rolls (`true` is floor), then smooth fifteen times.
    /// The route-finding pruning of unreachable pockets is the floor
    /// renderer's concern and is not part of this model.
    pub fn cellular_automata(rolls: &Vec<bool>) -> (v: Vault)
        requires
            rolls@.len() == (CAVE_SIDE - 2) * (CAVE_SIDE - 2),
        ensures
            v.width == CAVE_SIDE,
            v.characters@.len() == 0,
            v.tiles@ == cave_iter(cave_seed(rolls@), 15).map_values(
                |t: Tile| Option::<Tile>::Some(t),
            ),
            v.wf(),
    {
        let side = CAVE_SIDE;
        let mut grid: Vec<Tile> = Vec::new();
        let mut i: usize = 0;
        while i < side * side
            invariant
                side == CAVE_SIDE,
                rolls@.len() == (CAVE_SIDE - 2) * (CAVE_SIDE - 2),
                0 <= i <= side * side,
                grid@.len() == i,
                forall|j: int| 0 <= j < i ==> grid@[j] == cave_seed(rolls@)[j],
            decreases side * side - i,
        {
            let x = i % side;
            let y = i / side;
            proof {
                assert(x == (i as int) % (CAVE_SIDE as int) && y == (i as int) / (CAVE_SIDE as int));
                assert(y < CAVE_SIDE) by (nonlinear_arith)
                    requires
                        0 <= (i as int) < (CAVE_SIDE as int) * (CAVE_SIDE as int),
                        y == (i as int) / (CAVE_SIDE as int),
                ;
            }
            if x == 0 || y == 0 || x == side - 1 || y == side - 1 {
                grid.push(Tile::Wall);
            } else {
                proof {
                    assert(1 <= x && x <= side - 2 && 1 <= y && y <= side - 2);
                    assert(0 <= ((y - 1) as int) * ((side - 2) as int) + ((x - 1) as int)
                        < 1156) by (nonlinear_arith)
                        requires
                            1 <= x,
                            x <= side - 2,
                            1 <= y,
                            y <= side - 2,
                            side == 36,
                    ;
                    assert((CAVE_SIDE - 2) * (CAVE_SIDE - 2) == 1156) by (nonlinear_arith);
                    assert(rolls@.len() == 1156);
                }
                if rolls[(y - 1) * (side - 2) + (x - 1)] {
                    grid.push(Tile::Floor);
                } else {
                    grid.push(Tile::Wall);
                }
            }
            proof {
                assert(grid@[i as int] == cave_seed(rolls@)[i as int]);
            }
            i = i + 1;
        }
        proof {
            assert(grid@ =~= cave_seed(rolls@));
        }
        let mut pass: usize = 0;
        while pass < 15
            invariant
                side == CAVE_SIDE,
                0 <= pass <= 15,
                grid@.len() == CAVE_SIDE * CAVE_SIDE,
                cave_iter(cave_seed(rolls@), 15) == cave_iter(grid@, 15 - pass),
            decreases 15 - pass,
        {
            let mut fresh: Vec<Tile> = Vec::new();
            let mut i: usize = 0;
            while i < side * side
                invariant
                    side == CAVE_SIDE,
                    grid@.len() == CAVE_SIDE * CAVE_SIDE,
                    0 <= i <= side * side,
                    fresh@.len() == i,
                    forall|j: int| 0 <= j < i ==> fresh@[j] == cave_step(grid@)[j],
                decreases side * side - i,
            {
                let x = i % side;
                let y = i / side;
                proof {
                    assert(y < CAVE_SIDE) by (nonlinear_arith)
                        requires
                            0 <= (i as int) < (CAVE_SIDE as int) * (CAVE_SIDE as int),
                            y == (i as int) / (CAVE_SIDE as int),
                    ;
                }
                if x == 0 || y == 0 || x == side - 1 || y == side - 1 {
                    fresh.push(Tile::Wall);
                } else {
                    let neighbors = count_wall_neighbors(&grid, x, y);
                    if neighbors > 4 || neighbors == 0 {
                        fresh.push(Tile::Wall);
                    } else {
                        fresh.push(Tile::Floor);
                    }
                }
                proof {
                    assert(fresh@[i as int] == cave_step(grid@)[i as int]);
                }
                i = i + 1;
            }
            proof {
                assert(fresh@ =~= cave_step(grid@));
                assert(cave_iter(grid@, 15 - pass) == cave_iter(cave_step(grid@), 15 - pass - 1));
            }
            grid = fresh;
            pass = pass + 1;
        }
        let mut tiles: Vec<Option<Tile>> = Vec::new();
        let n = grid.len();
        let mut i: usize = 0;
        while i < n
            invariant
                n == grid@.len(),
                0 <= i <= n,
                tiles@.len() == i,
                forall|j: int| 0 <= j < i ==> tiles@[j] == Option::<Tile>::Some(grid@[j]),
            decreases n - i,
        {
            tiles.push(Some(grid[i]));
            i = i + 1;
        }
        let v = Vault { tiles, width: side, characters: Vec::new() };
        proof {
            assert(v.tiles@ =~= cave_iter(cave_seed(rolls@), 15).map_values(
                |t: Tile| Option::<Tile>::Some(t),
            ));
            assert((v.tiles@.len() as int) % (CAVE_SIDE as int) == 0);
        }
        v
    }
}

} // verus!

verus! {

/// The index of the first line break at or after `i`, or the text's length.
pub open spec fn first_nl(s: Seq<char>, i: int) -> int
    decreases s.len() - i,
{
    if i < 0 || i >= s.len() {
        s.len() as int
    } else if s[i] == '\n' {
        i
    } else {
        first_nl(s, i + 1)
    }
}

/// The layout text split at line breaks, exactly as `str::lines` splits it:
/// a trailing break opens no empty final line.
pub open spec fn split_lines(s: Seq<char>) -> Seq<Seq<char>>
    decreases s.len(),
{
    if s.len() == 0 {
        Seq::empty()
    } else {
        let i = first_nl(s, 0);
        if i < 0 || i >= s.len() {
            seq![s]
        } else {
            seq![s.take(i)] + split_lines(s.skip(i + 1))
        }
    }
}

/// The widest line's length.
pub open spec fn max_line_len(ls: Seq<Seq<char>>) -> int
    decreases ls.len(),
{
    if ls.len() == 0 {
        0
    } else {
        let m = max_line_len(ls.drop_last());
        if ls.last().len() > m {
            ls.last().len() as int
        } else {
            m
        }
    }
}

/// The first symbol-table entry at or after `i` binding `c`, or the table's
/// length when none does.
pub open spec fn first_symbol(symbols: Seq<(char, SymbolMeaning)>, c: char, i: int) -> int
    decreases symbols.len() - i,
{
    if i < 0 || i >= symbols.len() {
        symbols.len() as int
    } else if symbols[i].0 == c {
        i
    } else {
        first_symbol(symbols, c, i + 1)
    }
}

/// What one layout character puts in its grid cell — a tile, or a gap —
/// and `None` when the character is not mapped at all. A symbol bound to a
/// character stands on a floor tile.
pub open spec fn cell_tile(symbols: Seq<(char, SymbolMeaning)>, c: char) -> Option<Option<Tile>> {
    let j = first_symbol(symbols, c, 0);
    if j < symbols.len() {
        match symbols[j].1 {
            SymbolMeaning::Tile(t) => Some(Some(t)),
            SymbolMeaning::Character(_) => Some(Some(Tile::Floor)),
        }
    } else if c == ' ' {
        Some(None)
    } else if c == '.' {
        Some(Some(Tile::Floor))
    } else if c == 'x' {
        Some(Some(Tile::Wall))
    } else if c == '>' {
        Some(Some(Tile::Exit))
    } else {
        None
    }
}

proof fn lemma_first_nl_from(s: Seq<char>, j: int, i: int)
    requires
        0 <= i <= j <= s.len(),
        forall|k: int| i <= k < j ==> s[k] != '\n',
        j < s.len() ==> s[j] == '\n',
    ensures
        first_nl(s, i) == if j < s.len() {
            j
        } else {
            s.len() as int
        },
    decreases s.len() - i,
{
    if i < s.len() && i < j {
        lemma_first_nl_from(s, j, i + 1);
    }
}

proof fn lemma_first_symbol_at(symbols: Seq<(char, SymbolMeaning)>, c: char, j: int)
    requires
        0 <= j <= symbols.len(),
        forall|k: int| 0 <= k < j ==> (#[trigger] symbols[k]).0 != c,
        j < symbols.len() ==> symbols[j].0 == c,
    ensures
        first_symbol(symbols, c, 0) == if j < symbols.len() {
            j
        } else {
            symbols.len() as int
        },
    decreases symbols.len(),
{
    lemma_first_symbol_from(symbols, c, j, 0);
}

proof fn lemma_first_symbol_from(symbols: Seq<(char, SymbolMeaning)>, c: char, j: int, i: int)
    requires
        0 <= i <= j <= symbols.len(),
        forall|k: int| i <= k < j ==> (#[trigger] symbols[k]).0 != c,
        j < symbols.len() ==> symbols[j].0 == c,
    ensures
        first_symbol(symbols, c, i) == if j < symbols.len() {
            j
        } else {
            symbols.len() as int
        },
    decreases symbols.len() - i,
{
    if i < symbols.len() && i < j {
        lemma_first_symbol_from(symbols, c, j, i + 1);
    }
}

/// Splitting a break-free line off the front leaves the rest to split.
proof fn lemma_split_step(a: Seq<char>, rest: Seq<char>)
    requires
        forall|k: int| 0 <= k < a.len() ==> a[k] != '\n',
    ensures
        split_lines(a + seq!['\n'] + rest) == seq![a] + split_lines(rest),
{
    let whole = a + seq!['\n'] + rest;
    assert(whole.len() > 0);
    assert(whole[a.len() as int] == '\n');
    assert forall|k: int| 0 <= k < a.len() implies whole[k] != '\n' by {
        assert(whole[k] == a[k]);
    }
    lemma_first_nl_from(whole, a.len() as int, 0);
    assert(first_nl(whole, 0) == a.len());
    assert(whole.take(a.len() as int) =~= a);
    assert(whole.skip(a.len() as int + 1) =~= rest);
    assert(split_lines(whole) == seq![a] + split_lines(rest));
}

/// A break-free text is at most one line.
proof fn lemma_split_last(a: Seq<char>)
    requires
        forall|k: int| 0 <= k < a.len() ==> a[k] != '\n',
    ensures
        split_lines(a) == if a.len() == 0 {
            Seq::<Seq<char>>::empty()
        } else {
            seq![a]
        },
{
    if a.len() > 0 {
        lemma_first_nl_from(a, a.len() as int, 0);
    }
}

} // verus!

verus! {

/// The views of a list of lines.
pub open spec fn line_views(s: Seq<Vec<char>>) -> Seq<Seq<char>> {
    s.map_values(|l: Vec<char>| l@)
}

/// The tile of the row-major grid cell `t`, for a grid of the given width:
/// the line's character mapped through the symbol table, and a gap beyond
/// the line's end.
pub open spec fn cell_at(
    symbols: Seq<(char, SymbolMeaning)>,
    ls: Seq<Seq<char>>,
    width: int,
    t: int,
) -> Option<Tile> {
    let li = t / width;
    let xi = t % width;
    if xi < ls[li].len() {
        cell_tile(symbols, ls[li][xi]).unwrap()
    } else {
        None
    }
}

/// Whether the cell at line `li`, column `xi` is bound to a character.
pub open spec fn is_character_cell(
    symbols: Seq<(char, SymbolMeaning)>,
    ls: Seq<Seq<char>>,
    li: int,
    xi: int,
) -> bool {
    &&& 0 <= li < ls.len()
    &&& 0 <= xi < ls[li].len()
    &&& {
        let j = first_symbol(symbols, ls[li][xi], 0);
        &&& j < symbols.len()
        &&& symbols[j].1 is Character
    }
}

/// Look a layout character up in the symbol table: the first entry binding
/// it, if any.
fn lookup_symbol(metadata: &Metadata, c: char) -> (r: Option<usize>)
    ensures
        match r {
            Some(j) => j == first_symbol(metadata.symbols@, c, 0) && j < metadata.symbols@.len(),
            None => first_symbol(metadata.symbols@, c, 0) == metadata.symbols@.len(),
        },
{
    let n = metadata.symbols.len();
    let mut j: usize = 0;
    while j < n
        invariant
            n == metadata.symbols@.len(),
            0 <= j <= n,
            forall|k: int| 0 <= k < j ==> (#[trigger] metadata.symbols@[k]).0 != c,
        decreases n - j,
    {
        if metadata.symbols[j].0 == c {
            proof {
                lemma_first_symbol_at(metadata.symbols@, c, j as int);
            }
            return Some(j);
        }
        j = j + 1;
    }
    proof {
        lemma_first_symbol_at(metadata.symbols@, c, n as int);
    }
    None
}

/// Split a layout text into its lines.
fn split_layout(layout: &Vec<char>) -> (r: Vec<Vec<char>>)
    ensures
        line_views(r@) == split_lines(layout@),
{
    let n = layout.len();
    let mut lines: Vec<Vec<char>> = Vec::new();
    let mut partial: Vec<char> = Vec::new();
    let mut pos: usize = 0;
    proof {
        assert(partial@ + layout@.skip(0) =~= layout@);
        assert(line_views(lines@) + split_lines(layout@) =~= split_lines(layout@));
    }
    while pos < n
        invariant
            n == layout@.len(),
            0 <= pos <= n,
            forall|k: int| 0 <= k < partial@.len() ==> partial@[k] != '\n',
            split_lines(layout@) == line_views(lines@) + split_lines(
                partial@ + layout@.skip(pos as int),
            ),
        decreases n - pos,
    {
        let c = layout[pos];
        if c == '\n' {
            let ghost a = partial@;
            let ghost prev_lines = lines@;
            let done = partial;
            partial = Vec::new();
            lines.push(done);
            proof {
                assert(lines@.drop_last() =~= prev_lines);
                assert(a + layout@.skip(pos as int) =~= a + seq!['\n'] + layout@.skip(
                    pos + 1,
                ));
                lemma_split_step(a, layout@.skip(pos + 1));
                assert(split_lines(a + layout@.skip(pos as int)) == seq![a] + split_lines(
                    layout@.skip(pos + 1),
                ));
                assert(line_views(lines@) =~= line_views(lines@.drop_last()).push(a));
                assert(partial@ + layout@.skip(pos + 1) =~= layout@.skip(pos + 1));
                assert(line_views(lines@) + split_lines(partial@ + layout@.skip(pos + 1))
                    =~= line_views(lines@.drop_last()) + split_lines(
                    a + layout@.skip(pos as int),
                ));
                assert(split_lines(layout@) == line_views(lines@) + split_lines(
                    partial@ + layout@.skip(pos + 1),
                ));
            }
        } else {
            let ghost p0 = partial@;
            partial.push(c);
            proof {
                assert(partial@.drop_last() =~= p0);
                assert(partial@ + layout@.skip(pos + 1) =~= p0 + layout@.skip(pos as int));
                assert(split_lines(layout@) == line_views(lines@) + split_lines(
                    partial@ + layout@.skip(pos + 1),
                ));
            }
        }
        pos = pos + 1;
    }
    proof {
        assert(partial@ + layout@.skip(n as int) =~= partial@);
        lemma_split_last(partial@);
    }
    if partial.len() > 0 {
        let ghost a = partial@;
        lines.push(partial);
        proof {
            assert(line_views(lines@) =~= line_views(lines@.drop_last()).push(a));
            assert(line_views(lines@) =~= line_views(lines@.drop_last()) + seq![a]);
        }
        return lines;
    }
    proof {
        assert(line_views(lines@) + Seq::<Seq<char>>::empty() =~= line_views(lines@));
    }
    lines
}

} // verus!

verus! {

/// A text has at least as many characters as lines.
proof fn lemma_split_count(s: Seq<char>)
    ensures
        split_lines(s).len() <= s.len(),
    decreases s.len(),
{
    if s.len() > 0 {
        let i = first_nl(s, 0);
        if 0 <= i < s.len() {
            lemma_split_count(s.skip(i + 1));
        }
    }
}

/// No line outgrows its text.
proof fn lemma_split_line_len(s: Seq<char>)
    ensures
        forall|li: int|
            0 <= li < split_lines(s).len() ==> (#[trigger] split_lines(s)[li]).len() <= s.len(),
    decreases s.len(),
{
    if s.len() > 0 {
        let i = first_nl(s, 0);
        if 0 <= i < s.len() {
            lemma_split_line_len(s.skip(i + 1));
            assert forall|li: int|
                0 <= li < split_lines(s).len() implies (#[trigger] split_lines(s)[li]).len()
                <= s.len() by {
                if li >= 1 {
                    assert(split_lines(s)[li] == split_lines(s.skip(i + 1))[li - 1]);
                }
            }
        }
    }
}

/// No line outgrows the widest.
proof fn lemma_max_line_ge(ls: Seq<Seq<char>>)
    ensures
        forall|li: int| 0 <= li < ls.len() ==> (#[trigger] ls[li]).len() <= max_line_len(ls),
        max_line_len(ls) >= 0,
    decreases ls.len(),
{
    if ls.len() > 0 {
        lemma_max_line_ge(ls.drop_last());
        assert forall|li: int| 0 <= li < ls.len() implies (#[trigger] ls[li]).len()
            <= max_line_len(ls) by {
            if li < ls.len() - 1 {
                assert(ls.drop_last()[li] == ls[li]);
            }
        }
    }
}

impl Vault {
    /// Parse a vault layout against its symbol table: a row-major grid of
    /// tiles padded to the widest line, and the characters the symbols
    /// place, each standing on a floor tile. Rejected exactly when some
    /// layout character is neither in the table nor one of the four stock
    /// marks.
    pub fn from_layout(metadata: &Metadata, layout: &Vec<char>) -> (r: Result<Vault, Error>)
        requires
            layout@.len() <= 0xFFFF,
        ensures
            ({
                let ls = split_lines(layout@);
                let width = max_line_len(ls);
                match r {
                    Ok(v) => {
                        &&& v.width == width
                        &&& v.tiles@.len() == ls.len() * width
                        &&& forall|t: int|
                            0 <= t < v.tiles@.len() ==> #[trigger] v.tiles@[t] == cell_at(
                                metadata.symbols@,
                                ls,
                                width,
                                t,
                            )
                        &&& forall|li: int, xi: int|
                            0 <= li < ls.len() && 0 <= xi < ls[li].len() ==> cell_tile(
                                metadata.symbols@,
                                #[trigger] ls[li][xi],
                            ) is Some
                        &&& forall|k: int|
                            0 <= k < v.characters@.len() ==> {
                                let e = #[trigger] v.characters@[k];
                                &&& is_character_cell(metadata.symbols@, ls, e.1 as int, e.0 as int)
                                &&& metadata.symbols@[first_symbol(
                                    metadata.symbols@,
                                    ls[e.1 as int][e.0 as int],
                                    0,
                                )].1 matches SymbolMeaning::Character(sheet) && e.2 == sheet
                            }
                        &&& forall|li: int, xi: int|
                            #[trigger] is_character_cell(metadata.symbols@, ls, li, xi)
                                ==> exists|k: int|
                                0 <= k < v.characters@.len() && (#[trigger] v.characters@[k]).0
                                    == xi && v.characters@[k].1 == li
                    },
                    Err(e) => {
                        &&& e is UnexpectedSymbol
                        &&& exists|li: int, xi: int|
                            0 <= li < ls.len() && 0 <= xi < ls[li].len() && cell_tile(
                                metadata.symbols@,
                                #[trigger] ls[li][xi],
                            ) is None
                    },
                }
            }),
    {
        let ghost ls = split_lines(layout@);
        proof {
            lemma_split_count(layout@);
            lemma_split_line_len(layout@);
        }
        let lines = split_layout(layout);
        let ln = lines.len();
        // Before anything else, we need to know how wide this vault is.
        let mut width: usize = 0;
        let mut i: usize = 0;
        proof {
            assert(line_views(lines@).take(0) =~= Seq::<Seq<char>>::empty());
        }
        while i < ln
            invariant
                ln == lines@.len(),
                line_views(lines@) == ls,
                ls.len() <= 0xFFFF,
                forall|li: int| 0 <= li < ls.len() ==> (#[trigger] ls[li]).len() <= 0xFFFF,
                0 <= i <= ln,
                width == max_line_len(ls.take(i as int)),
                width <= 0xFFFF,
            decreases ln - i,
        {
            let ll = lines[i].len();
            proof {
                assert(ls[i as int] == lines@[i as int]@);
                assert(ls.take(i + 1).drop_last() =~= ls.take(i as int));
                assert(ls.take(i + 1).last() == ls[i as int]);
            }
            if ll > width {
                width = ll;
            }
            i = i + 1;
        }
        proof {
            assert(ls.take(ln as int) =~= ls);
            lemma_max_line_ge(ls);
        }
        let mut tiles: Vec<Option<Tile>> = Vec::new();
        let mut characters: Vec<(i32, i32, String)> = Vec::new();
        let mut li: usize = 0;
        while li < ln
            invariant
                ln == lines@.len(),
                line_views(lines@) == ls,
                ls == split_lines(layout@),
                ls.len() <= 0xFFFF,
                width == max_line_len(ls),
                width <= 0xFFFF,
                forall|lj: int| 0 <= lj < ls.len() ==> (#[trigger] ls[lj]).len() <= width,
                0 <= li <= ln,
                tiles@.len() == li * width,
                forall|t: int|
                    0 <= t < tiles@.len() ==> #[trigger] tiles@[t] == cell_at(
                        metadata.symbols@,
                        ls,
                        width as int,
                        t,
                    ),
                forall|lj: int, xj: int|
                    0 <= lj < li && 0 <= xj < ls[lj].len() ==> cell_tile(
                        metadata.symbols@,
                        #[trigger] ls[lj][xj],
                    ) is Some,
                forall|k: int|
                    0 <= k < characters@.len() ==> {
                        let e = #[trigger] characters@[k];
                        &&& is_character_cell(metadata.symbols@, ls, e.1 as int, e.0 as int)
                        &&& metadata.symbols@[first_symbol(
                            metadata.symbols@,
                            ls[e.1 as int][e.0 as int],
                            0,
                        )].1 matches SymbolMeaning::Character(sheet) && e.2 == sheet
                    },
                forall|lj: int, xj: int|
                    #[trigger] is_character_cell(metadata.symbols@, ls, lj, xj) && lj < li
                        ==> exists|k: int|
                        0 <= k < characters@.len() && (#[trigger] characters@[k]).0 == xj
                            && characters@[k].1 == lj,
            decreases ln - li,
        {
            let line_len = lines[li].len();
            proof {
                assert(ls[li as int] == lines@[li as int]@);
            }
            let mut xi: usize = 0;
            while xi < line_len
                invariant
                    ln == lines@.len(),
                    line_views(lines@) == ls,
                    ls == split_lines(layout@),
                    ls.len() <= 0xFFFF,
                    width == max_line_len(ls),
                    width <= 0xFFFF,
                    forall|lj: int| 0 <= lj < ls.len() ==> (#[trigger] ls[lj]).len() <= width,
                    0 <= li < ln,
                    line_len == ls[li as int].len(),
                    0 <= xi <= line_len,
                    tiles@.len() == li * width + xi,
                    forall|t: int|
                        0 <= t < tiles@.len() ==> #[trigger] tiles@[t] == cell_at(
                            metadata.symbols@,
                            ls,
                            width as int,
                            t,
                        ),
                    forall|lj: int, xj: int|
                        0 <= lj < ls.len() && 0 <= xj < ls[lj].len() && (lj < li || (lj == li && xj
                            < xi)) ==> cell_tile(metadata.symbols@, #[trigger] ls[lj][xj]) is Some,
                    forall|k: int|
                        0 <= k < characters@.len() ==> {
                            let e = #[trigger] characters@[k];
                            &&& is_character_cell(metadata.symbols@, ls, e.1 as int, e.0 as int)
                            &&& metadata.symbols@[first_symbol(
                                metadata.symbols@,
                                ls[e.1 as int][e.0 as int],
                                0,
                            )].1 matches SymbolMeaning::Character(sheet) && e.2 == sheet
                        },
                    forall|lj: int, xj: int|
                        #[trigger] is_character_cell(metadata.symbols@, ls, lj, xj) && (lj < li || (
                        lj == li && xj < xi)) ==> exists|k: int|
                            0 <= k < characters@.len() && (#[trigger] characters@[k]).0 == xj
                                && characters@[k].1 == lj,
                decreases line_len - xi,
            {
                let c = lines[li][xi];
                proof {
                    assert(ls[li as int][xi as int] == c);
                    assert(xi < width);
                    vstd::arithmetic::div_mod::lemma_fundamental_div_mod_converse_mod(
                        li * width + xi,
                        width as int,
                        li as int,
                        xi as int,
                    );
                    vstd::arithmetic::div_mod::lemma_fundamental_div_mod_converse_div(
                        li * width + xi,
                        width as int,
                        li as int,
                        xi as int,
                    );
                }
                let ghost t0 = tiles@.len() as int;
                match lookup_symbol(metadata, c) {
                    Some(j) => {
                        match &metadata.symbols[j].1 {
                            SymbolMeaning::Tile(t) => {
                                tiles.push(Some(*t));
                            },
                            SymbolMeaning::Character(sheet) => {
                                let ghost prev_chars = characters@;
                                characters.push((xi as i32, li as i32, sheet.clone()));
                                tiles.push(Some(Tile::Floor));
                                proof {
                                    assert(characters@[characters@.len() - 1].2 == metadata.symbols@[j as int].1->Character_0);
                                    assert forall|lj: int, xj: int|
                                        #[trigger] is_character_cell(metadata.symbols@, ls, lj, xj)
                                            && (lj < li || (lj == li && xj < xi
                                            + 1)) implies exists|k: int|
                                            0 <= k < characters@.len() && (
                                            #[trigger] characters@[k]).0 == xj
                                                && characters@[k].1 == lj by {
                                        if lj == li && xj == xi {
                                            assert(characters@[characters@.len() - 1].0 == xi);
                                        } else {
                                            let k0 = choose|k0: int|
                                                0 <= k0 < prev_chars.len() && (
                                                #[trigger] prev_chars[k0]).0 == xj
                                                    && prev_chars[k0].1 == lj;
                                            assert(characters@[k0] == prev_chars[k0]);
                                        }
                                    }
                                }
                            },
                        }
                    },
                    None => {
                        if c == ' ' {
                            tiles.push(None);
                        } else if c == '.' {
                            tiles.push(Some(Tile::Floor));
                        } else if c == 'x' {
                            tiles.push(Some(Tile::Wall));
                        } else if c == '>' {
                            tiles.push(Some(Tile::Exit));
                        } else {
                            proof {
                                assert(0 <= (li as int) < ls.len());
                                assert(0 <= (xi as int) < ls[li as int].len());
                                assert(cell_tile(metadata.symbols@, ls[li as int][xi as int])
                                    is None);
                                assert(exists|lj: int, xj: int|
                                    0 <= lj < ls.len() && 0 <= xj < ls[lj].len() && cell_tile(
                                        metadata.symbols@,
                                        #[trigger] ls[lj][xj],
                                    ) is None);

                            }
                            return Err(Error::UnexpectedSymbol(c));
                        }
                    },
                }
                proof {
                    assert(tiles@[t0] == cell_at(metadata.symbols@, ls, width as int, t0));
                }
                xi = xi + 1;
            }
            let mut pad: usize = line_len;
            while pad < width
                invariant
                    ln == lines@.len(),
                    line_views(lines@) == ls,
                    ls == split_lines(layout@),
                    ls.len() <= 0xFFFF,
                    width == max_line_len(ls),
                    width <= 0xFFFF,
                    forall|lj: int| 0 <= lj < ls.len() ==> (#[trigger] ls[lj]).len() <= width,
                    0 <= li < ln,
                    line_len == ls[li as int].len(),
                    line_len <= pad <= width,
                    tiles@.len() == li * width + pad,
                    forall|t: int|
                        0 <= t < tiles@.len() ==> #[trigger] tiles@[t] == cell_at(
                            metadata.symbols@,
                            ls,
                            width as int,
                            t,
                        ),
                    forall|lj: int, xj: int|
                        0 <= lj < ls.len() && 0 <= xj < ls[lj].len() && (lj < li || lj == li)
                            ==> cell_tile(metadata.symbols@, #[trigger] ls[lj][xj]) is Some,
                    forall|k: int|
                        0 <= k < characters@.len() ==> {
                            let e = #[trigger] characters@[k];
                            &&& is_character_cell(metadata.symbols@, ls, e.1 as int, e.0 as int)
                            &&& metadata.symbols@[first_symbol(
                                metadata.symbols@,
                                ls[e.1 as int][e.0 as int],
                                0,
                            )].1 matches SymbolMeaning::Character(sheet) && e.2 == sheet
                        },
                    forall|lj: int, xj: int|
                        #[trigger] is_character_cell(metadata.symbols@, ls, lj, xj) && lj <= li
                            ==> exists|k: int|
                            0 <= k < characters@.len() && (#[trigger] characters@[k]).0 == xj
                                && characters@[k].1 == lj,
                decreases width - pad,
            {
                proof {
                    vstd::arithmetic::div_mod::lemma_fundamental_div_mod_converse_mod(
                        li * width + pad,
                        width as int,
                        li as int,
                        pad as int,
                    );
                    vstd::arithmetic::div_mod::lemma_fundamental_div_mod_converse_div(
                        li * width + pad,
                        width as int,
                        li as int,
                        pad as int,
                    );
                }
                let ghost t0 = tiles@.len() as int;
                tiles.push(None);
                proof {
                    assert(tiles@[t0] == cell_at(metadata.symbols@, ls, width as int, t0));
                }
                pad = pad + 1;
            }
            proof {
                assert(li * width + width == (li + 1) * width) by (nonlinear_arith);
            }
            li = li + 1;
        }
        Ok(Vault { tiles, width, characters })
    }
}

} // verus!
