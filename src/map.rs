//! The tile grid, its index mapping, room carving and the two generators.
use crate::geometry::{Dimension, Position, Rectangle, Size};
use crate::random::gen_index;
use vstd::arithmetic::div_mod::{
    lemma_fundamental_div_mod, lemma_fundamental_div_mod_converse, lemma_mod_bound,
};
use vstd::prelude::*;

verus! {

/// Pixel length of one tile's side, shared with anything that draws the grid.
pub const GRID_SIZE: usize = 32;

#[derive(Debug, PartialEq, Eq, Structural, Clone, Copy)]
pub enum TileType {
    Wall,
    Floor,
}

/// A straight corridor runs along a row (`Horizontal`) or a column (`Vertical`).
pub enum Orientation {
    Horizontal,
    Vertical,
}

/// A grid of `rows` by `columns` tiles, stored row after row.
#[derive(Clone)]
pub struct TileMap {
    pub rows: usize,
    pub columns: usize,
    pub tiles: Vec<TileType>,
}

/// The buffer after every cell that `room` covers is set to `tile`; cell `i`
/// is column `i % columns` of row `i / columns`.
pub open spec fn paint(tiles: Seq<TileType>, columns: int, room: Rectangle, tile: TileType) -> Seq<
    TileType,
> {
    Seq::new(tiles.len(), |i: int| if room.covers(i % columns, i / columns) { tile } else { tiles[i] })
}

/// The buffer after every cell that `room` covers is set to floor.
pub open spec fn carve(tiles: Seq<TileType>, columns: int, room: Rectangle) -> Seq<TileType> {
    paint(tiles, columns, room, TileType::Floor)
}

/// Whether `room` lies inside a grid of `columns` by `rows`.
pub open spec fn fits(room: Rectangle, columns: int, rows: int) -> bool {
    room.left() + room.width() <= columns && room.top() + room.height() <= rows
}

impl TileMap {
    /// The buffer holds exactly one tile per cell.
    pub open spec fn wf(&self) -> bool {
        self.tiles@.len() == self.rows * self.columns
    }

    pub open spec fn index_of(&self, col: int, row: int) -> int {
        row * self.columns + col
    }

    pub open spec fn in_grid(&self, col: int, row: int) -> bool {
        0 <= col < self.columns && 0 <= row < self.rows
    }

    pub open spec fn tile(&self, col: int, row: int) -> TileType {
        self.tiles@[self.index_of(col, row)]
    }

    /// The linear index of a cell, `row * columns + column`. The position is
    /// not checked against the grid.
    pub fn grid_to_index(&self, position: Position) -> (r: usize)
        requires
            self.index_of(position.col(), position.row()) <= usize::MAX,
        ensures
            r == self.index_of(position.col(), position.row()),
    {
        (position.1.0 * self.columns) + position.0.0
    }
}

impl Default for TileMap {
    fn default() -> (r: TileMap)
        ensures
            r.rows == 0,
            r.columns == 0,
            r.tiles@.len() == 0,
    {
        TileMap { rows: 0, columns: 0, tiles: Vec::new() }
    }
}

/// Where cell `i` of a grid `columns` wide lies, and that it comes back.
proof fn lemma_cell_of_index(i: int, columns: int)
    requires
        0 <= i,
        0 < columns,
    ensures
        0 <= i % columns < columns,
        0 <= i / columns,
        i == (i / columns) * columns + i % columns,
{
    lemma_mod_bound(i, columns);
    lemma_fundamental_div_mod(i, columns);
    assert(0 <= i / columns) by (nonlinear_arith)
        requires
            0 <= i,
            0 < columns,
    ;
}

/// Sets every cell that `room` covers to `tile`, row by row; everything
/// else is left as it was.
fn paint_rect(room: Rectangle, tile: TileType, map: &mut TileMap)
    requires
        old(map).wf(),
        fits(room, old(map).columns as int, old(map).rows as int),
    ensures
        final(map).wf(),
        final(map).rows == old(map).rows,
        final(map).columns == old(map).columns,
        final(map).tiles@ == paint(old(map).tiles@, old(map).columns as int, room, tile),
{
    let width = room.1.0.0;
    let height = room.1.1.0;
    let pos = room.0;
    let ghost start_tiles = map.tiles@;
    let ghost c = map.columns as int;
    // The buffer's length fits in a usize, and so does every index below.
    let _len = map.tiles.len();
    for row in 0..height
        invariant
            map.wf(),
            map.rows == old(map).rows,
            map.columns == old(map).columns,
            c == map.columns,
            map.rows * c <= usize::MAX,
            start_tiles == old(map).tiles@,
            width == room.width(),
            height == room.height(),
            pos == room.0,
            fits(room, c, map.rows as int),
            map.tiles@ == paint(start_tiles, c, Rectangle(pos, Size(Dimension(width), Dimension(row))), tile),
    {
        let ghost before = map.tiles@;
        let line_pos = Position(pos.0, pos.1 + Dimension(row));
        proof {
            assert(pos.1.0 + row < map.rows);
            assert(line_pos.row() * c + line_pos.col() <= map.rows * c) by (nonlinear_arith)
                requires
                    line_pos.row() < map.rows,
                    line_pos.col() <= c,
                    0 <= line_pos.row(),
                    0 <= line_pos.col(),
            ;
        }
        let start_idx = map.grid_to_index(line_pos);
        for k in 0..width
            invariant
                map.wf(),
                map.rows == old(map).rows,
                map.columns == old(map).columns,
                c == map.columns,
                map.rows * c <= usize::MAX,
                width == room.width(),
                fits(room, c, map.rows as int),
                pos == room.0,
                line_pos.0 == pos.0,
                line_pos.row() == pos.row() + row,
                line_pos.row() < map.rows,
                start_idx == line_pos.row() * c + line_pos.col(),
                map.tiles@ == paint(before, c, Rectangle(line_pos, Size(Dimension(k), Dimension(1))), tile),
        {
            proof {
                assert(start_idx + k < map.rows * c) by (nonlinear_arith)
                    requires
                        start_idx == line_pos.row() * c + line_pos.col(),
                        line_pos.col() + k < c,
                        line_pos.row() < map.rows,
                        0 <= line_pos.row(),
                ;
            }
            let idx = start_idx + k;
            map.tiles.set(idx, tile);
            proof {
                lemma_fundamental_div_mod_converse(idx as int, c, line_pos.row(), line_pos.col() + k);
                let line = Rectangle(line_pos, Size(Dimension(k), Dimension(1)));
                let next = Rectangle(line_pos, Size(Dimension((k + 1) as usize), Dimension(1)));
                assert forall|i: int| 0 <= i < map.tiles@.len() implies map.tiles@[i] == paint(
                    before,
                    c,
                    next,
                    tile,
                )[i] by {
                    lemma_cell_of_index(i, c);
                    if i != idx {
                        if next.covers(i % c, i / c) && !line.covers(i % c, i / c) {
                            assert(i == (i / c) * c + i % c);
                        }
                    }
                }
                assert(map.tiles@ =~= paint(before, c, next, tile));
            }
        }
        proof {
            let next = Rectangle(pos, Size(Dimension(width), Dimension((row + 1) as usize)));
            assert(map.tiles@ =~= paint(start_tiles, c, next, tile)) by {
                assert forall|i: int| 0 <= i < map.tiles@.len() implies map.tiles@[i] == paint(
                    start_tiles,
                    c,
                    next,
                    tile,
                )[i] by {
                    lemma_cell_of_index(i, c);
                }
            }
        }
    }
    proof {
        assert(Rectangle(pos, Size(Dimension(width), Dimension(height))) == room);
    }
}

/// Sets to floor every cell that `room` covers, row by row; everything else
/// is left as it was.
pub fn add_room_to_map(room: Rectangle, map: &mut TileMap)
    requires
        old(map).wf(),
        fits(room, old(map).columns as int, old(map).rows as int),
    ensures
        final(map).wf(),
        final(map).rows == old(map).rows,
        final(map).columns == old(map).columns,
        final(map).tiles@ == carve(old(map).tiles@, old(map).columns as int, room),
{
    paint_rect(room, TileType::Floor, map);
}

/// Carving a room a second time changes nothing.
pub proof fn lemma_carve_idempotent(tiles: Seq<TileType>, columns: int, room: Rectangle)
    ensures
        carve(carve(tiles, columns, room), columns, room) == carve(tiles, columns, room),
{
    assert(carve(carve(tiles, columns, room), columns, room) =~= carve(tiles, columns, room));
}

/// The one-tile-wide strip that a corridor of `length` cells from `position` covers.
pub open spec fn corridor(orientation: Orientation, position: Position, length: Dimension) -> Rectangle {
    match orientation {
        Orientation::Horizontal => Rectangle(position, Size(length, Dimension(1))),
        Orientation::Vertical => Rectangle(position, Size(Dimension(1), length)),
    }
}

/// Sets to floor a straight line of `length` cells that starts at `position`
/// and runs along the row or the column that `orientation` names.
pub fn add_tunnel(orientation: Orientation, position: &Position, length: Dimension, map: &mut TileMap)
    requires
        old(map).wf(),
        fits(corridor(orientation, *position, length), old(map).columns as int, old(map).rows as int),
    ensures
        final(map).wf(),
        final(map).rows == old(map).rows,
        final(map).columns == old(map).columns,
        final(map).tiles@ == carve(
            old(map).tiles@,
            old(map).columns as int,
            corridor(orientation, *position, length),
        ),
{
    let strip = match orientation {
        Orientation::Horizontal => Rectangle(*position, Size(length, Dimension(1))),
        Orientation::Vertical => Rectangle(*position, Size(Dimension(1), length)),
    };
    add_room_to_map(strip, map);
}

/// The pixel at which a tile's top-left corner lies, along one axis.
pub open spec fn pixel_of(cell: int) -> int {
    cell * GRID_SIZE
}

/// The tile that a pixel falls in, along one axis.
pub open spec fn cell_of(pixel: int) -> int {
    pixel / GRID_SIZE as int
}

/// The pixel coordinate `(column * GRID_SIZE, row * GRID_SIZE)` of a cell's
/// top-left corner.
pub fn grid_to_pixels(position: Position) -> (r: (usize, usize))
    requires
        pixel_of(position.col()) <= usize::MAX,
        pixel_of(position.row()) <= usize::MAX,
    ensures
        r.0 == pixel_of(position.col()),
        r.1 == pixel_of(position.row()),
{
    (position.0.0 * GRID_SIZE, position.1.0 * GRID_SIZE)
}

/// The pixel coordinate of a cell's centre, where a block drawn on it sits.
pub fn grid_to_center_pixels(position: Position) -> (r: (usize, usize))
    requires
        pixel_of(position.col()) + GRID_SIZE / 2 <= usize::MAX,
        pixel_of(position.row()) + GRID_SIZE / 2 <= usize::MAX,
    ensures
        r.0 == pixel_of(position.col()) + GRID_SIZE / 2,
        r.1 == pixel_of(position.row()) + GRID_SIZE / 2,
{
    (position.0.0 * GRID_SIZE + GRID_SIZE / 2, position.1.0 * GRID_SIZE + GRID_SIZE / 2)
}

/// The cell that pixel coordinate `(x, y)` falls in, by truncating division.
pub fn pixels_to_grid(x: usize, y: usize) -> (r: Position)
    ensures
        r.col() == cell_of(x as int),
        r.row() == cell_of(y as int),
{
    Position(Dimension(x / GRID_SIZE), Dimension(y / GRID_SIZE))
}

/// A cell taken to its pixel coordinate and back is the same cell.
pub proof fn lemma_pixel_round_trip(position: Position)
    requires
        position.col() < 0x8000_0000,
        position.row() < 0x8000_0000,
    ensures
        cell_of(pixel_of(position.col())) == position.col(),
        cell_of(pixel_of(position.row())) == position.row(),
{
    lemma_fundamental_div_mod_converse(pixel_of(position.col()), GRID_SIZE as int, position.col(), 0);
    lemma_fundamental_div_mod_converse(pixel_of(position.row()), GRID_SIZE as int, position.row(), 0);
}

impl TileMap {
    /// Whether the tile at `position`'s index exists and is floor: the test a
    /// mover makes before stepping onto a cell.
    pub fn is_walkable(&self, position: Position) -> (r: bool)
        ensures
            r == (self.index_of(position.col(), position.row()) < self.tiles@.len()
                && self.tiles@[self.index_of(position.col(), position.row())] == TileType::Floor),
    {
        let len = self.tiles.len();
        match position.1.0.checked_mul(self.columns) {
            None => false,
            Some(start) => match start.checked_add(position.0.0) {
                None => false,
                Some(idx) => idx < len && self.tiles[idx] == TileType::Floor,
            },
        }
    }
}

/// The text of the error returned for a width or height that is not a whole
/// number of tiles.
pub open spec fn dimension_error_text() -> Seq<char> {
    "Invalid dimensions, we need to be divisable by 32"@
}

/// Whether a width and a height in pixels are both whole numbers of tiles.
pub open spec fn valid_dimensions(width: int, height: int) -> bool {
    width % GRID_SIZE as int == 0 && height % GRID_SIZE as int == 0
}

/// Cells of the first or last row or column.
pub open spec fn on_border(columns: int, rows: int, col: int, row: int) -> bool {
    col == 0 || row == 0 || col == columns - 1 || row == rows - 1
}

/// Cells strictly inside the border.
pub open spec fn inside_border(columns: int, rows: int, col: int, row: int) -> bool {
    1 <= col < columns - 1 && 1 <= row < rows - 1
}

/// Whether some drawn obstacle lands on `(col, row)`, which is not the
/// reserved cell.
pub open spec fn is_obstacle(obstacles: Seq<Position>, player: (usize, usize), col: int, row: int) -> bool {
    &&& !(col == player.0 && row == player.1)
    &&& exists|k: int|
        0 <= k < obstacles.len() && #[trigger] obstacles[k].col() == col && obstacles[k].row() == row
}

/// The tile buffer of a bordered grid with the given obstacles: walls on the
/// border and on every obstacle but the reserved cell, floor elsewhere.
pub open spec fn simple_tiles(columns: int, rows: int, obstacles: Seq<Position>, player: (usize, usize)) -> Seq<
    TileType,
> {
    Seq::new(
        (rows * columns) as nat,
        |i: int|
            if on_border(columns, rows, i % columns, i / columns) || is_obstacle(
                obstacles,
                player,
                i % columns,
                i / columns,
            ) {
                TileType::Wall
            } else {
                TileType::Floor
            },
    )
}

impl TileMap {
    /// The wall cells strictly inside the border.
    pub open spec fn interior_walls(&self) -> Set<(int, int)> {
        Set::new(
            |p: (int, int)|
                inside_border(self.columns as int, self.rows as int, p.0, p.1) && self.tile(p.0, p.1)
                    == TileType::Wall,
        )
    }
}

/// `n` copies of `tile`.
fn filled(n: usize, tile: TileType) -> (v: Vec<TileType>)
    ensures
        v@ == Seq::new(n as nat, |i: int| tile),
{
    let mut v: Vec<TileType> = Vec::with_capacity(n);
    for k in 0..n
        invariant
            v@ == Seq::new(k as nat, |i: int| tile),
    {
        v.push(tile);
        proof {
            assert(v@ =~= Seq::new((k + 1) as nat, |i: int| tile));
        }
    }
    v
}

/// A grid of floor with a wall border.
fn bordered_map(columns: usize, rows: usize) -> (m: TileMap)
    requires
        columns * rows <= usize::MAX,
    ensures
        m.wf(),
        m.columns == columns,
        m.rows == rows,
        m.tiles@ == simple_tiles(columns as int, rows as int, Seq::empty(), (0, 0)),
{
    let mut map = TileMap { rows, columns, tiles: filled(columns * rows, TileType::Floor) };
    proof {
        assert(columns * rows == rows * columns) by (nonlinear_arith);
    }
    if columns > 0 && rows > 0 {
        let ghost floor = map.tiles@;
        let ghost c = columns as int;
        let top = Rectangle(Position(Dimension(0), Dimension(0)), Size(Dimension(columns), Dimension(1)));
        let bottom = Rectangle(
            Position(Dimension(0), Dimension(rows - 1)),
            Size(Dimension(columns), Dimension(1)),
        );
        let left = Rectangle(Position(Dimension(0), Dimension(0)), Size(Dimension(1), Dimension(rows)));
        let right = Rectangle(
            Position(Dimension(columns - 1), Dimension(0)),
            Size(Dimension(1), Dimension(rows)),
        );
        paint_rect(top, TileType::Wall, &mut map);
        paint_rect(bottom, TileType::Wall, &mut map);
        paint_rect(left, TileType::Wall, &mut map);
        paint_rect(right, TileType::Wall, &mut map);
        proof {
            assert forall|i: int| 0 <= i < map.tiles@.len() implies map.tiles@[i] == simple_tiles(
                c,
                rows as int,
                Seq::empty(),
                (0, 0),
            )[i] by {
                lemma_cell_of_index(i, c);
                assert(i / c < rows) by (nonlinear_arith)
                    requires
                        i == (i / c) * c + i % c,
                        0 <= i % c,
                        i < rows * c,
                        0 < c,
                ;
            }
            assert(map.tiles@ =~= simple_tiles(c, rows as int, Seq::empty(), (0, 0)));
        }
    } else {
        proof {
            assert(rows * columns == 0) by (nonlinear_arith)
                requires
                    columns == 0 || rows == 0,
            ;
            assert(map.tiles@ =~= simple_tiles(columns as int, rows as int, Seq::empty(), (0, 0)));
        }
    }
    map
}

/// Walls in `cell` unless it is the reserved cell: one more obstacle drawn.
fn place_obstacle(map: &mut TileMap, cell: Position, player: (usize, usize), Ghost(
    obstacles,
): Ghost<Seq<Position>>)
    requires
        old(map).wf(),
        inside_border(old(map).columns as int, old(map).rows as int, cell.col(), cell.row()),
        old(map).tiles@ == simple_tiles(
            old(map).columns as int,
            old(map).rows as int,
            obstacles,
            player,
        ),
    ensures
        final(map).wf(),
        final(map).rows == old(map).rows,
        final(map).columns == old(map).columns,
        final(map).tiles@ == simple_tiles(
            old(map).columns as int,
            old(map).rows as int,
            obstacles.push(cell),
            player,
        ),
{
    let ghost c = map.columns as int;
    let ghost r = map.rows as int;
    let ghost next = obstacles.push(cell);
    let column = cell.0.0;
    let row = cell.1.0;
    proof {
        assert(row * c + column < r * c) by (nonlinear_arith)
            requires
                row < r,
                column < c,
                0 <= row,
                0 <= column,
        ;
        assert(map.tiles@.len() == r * c);
    }
    let len = map.tiles.len();
    if column != player.0 || row != player.1 {
        let idx = (map.columns * row) + column;
        map.tiles.set(idx, TileType::Wall);
    }
    proof {
        lemma_fundamental_div_mod_converse(row * c + column, c, row as int, column as int);
        assert forall|i: int| 0 <= i < map.tiles@.len() implies map.tiles@[i] == simple_tiles(
            c,
            r,
            next,
            player,
        )[i] by {
            lemma_cell_of_index(i, c);
            if is_obstacle(next, player, i % c, i / c) && !is_obstacle(obstacles, player, i % c, i / c) {
                let k = choose|k: int|
                    0 <= k < next.len() && #[trigger] next[k].col() == i % c && next[k].row() == i / c;
                if k < obstacles.len() {
                    assert(obstacles[k] == next[k]);
                }
            }
            if is_obstacle(obstacles, player, i % c, i / c) {
                let k = choose|k: int|
                    0 <= k < obstacles.len() && #[trigger] obstacles[k].col() == i % c && obstacles[k].row()
                        == i / c;
                assert(next[k] == obstacles[k]);
            }
            if i == row * c + column && !(column == player.0 && row == player.1) {
                assert(next[obstacles.len() as int] == cell);
            }
        }
        assert(map.tiles@ =~= simple_tiles(c, r, next, player));
    }
}

/// Builds the bordered grid of `width` by `height` pixels with a wall on each
/// given obstacle cell but the reserved one. Fails when either side is not a
/// whole number of tiles.
pub fn build_simple_map(width: usize, height: usize, obstacles: &Vec<Position>, player: (usize, usize)) -> (r: Result<TileMap, String>)
    requires
        (width / GRID_SIZE) * (height / GRID_SIZE) <= usize::MAX,
        forall|k: int|
            0 <= k < obstacles@.len() ==> inside_border(
                (width / GRID_SIZE) as int,
                (height / GRID_SIZE) as int,
                #[trigger] obstacles@[k].col(),
                obstacles@[k].row(),
            ),
    ensures
        r is Err <==> !valid_dimensions(width as int, height as int),
        r matches Err(e) ==> e@ == dimension_error_text(),
        r matches Ok(m) ==> {
            &&& m.wf()
            &&& m.columns == width / GRID_SIZE
            &&& m.rows == height / GRID_SIZE
            &&& m.tiles@ == simple_tiles(m.columns as int, m.rows as int, obstacles@, player)
        },
{
    if width % GRID_SIZE != 0 || height % GRID_SIZE != 0 {
        return Err("Invalid dimensions, we need to be divisable by 32".to_string());
    }
    let columns = width / GRID_SIZE;
    let rows = height / GRID_SIZE;
    let mut map = bordered_map(columns, rows);
    proof {
        assert(simple_tiles(columns as int, rows as int, Seq::empty(), (0, 0)) =~= simple_tiles(
            columns as int,
            rows as int,
            Seq::empty(),
            player,
        ));
    }
    for k in 0..obstacles.len()
        invariant
            map.wf(),
            map.columns == columns,
            map.rows == rows,
            columns == width / GRID_SIZE,
            rows == height / GRID_SIZE,
            forall|j: int|
                0 <= j < obstacles@.len() ==> inside_border(
                    columns as int,
                    rows as int,
                    #[trigger] obstacles@[j].col(),
                    obstacles@[j].row(),
                ),
            map.tiles@ == simple_tiles(columns as int, rows as int, obstacles@.take(k as int), player),
    {
        place_obstacle(&mut map, obstacles[k], player, Ghost(obstacles@.take(k as int)));
        proof {
            assert(obstacles@.take(k as int).push(obstacles@[k as int]) =~= obstacles@.take(k + 1));
        }
    }
    proof {
        assert(obstacles@.take(obstacles@.len() as int) =~= obstacles@);
    }
    Ok(map)
}

/// Every border cell of a bordered grid is a wall.
proof fn lemma_border_is_wall(columns: int, rows: int, obstacles: Seq<Position>, player: (usize, usize), col: int, row: int)
    requires
        0 <= col < columns,
        0 <= row < rows,
        on_border(columns, rows, col, row),
    ensures
        simple_tiles(columns, rows, obstacles, player)[row * columns + col] == TileType::Wall,
{
    lemma_fundamental_div_mod_converse(row * columns + col, columns, row, col);
    assert(row * columns + col < rows * columns) by (nonlinear_arith)
        requires
            0 <= col < columns,
            0 <= row < rows,
    ;
}

/// The reserved cell, when strictly inside the border, stays floor.
proof fn lemma_reserved_is_floor(columns: int, rows: int, obstacles: Seq<Position>, player: (usize, usize))
    requires
        inside_border(columns, rows, player.0 as int, player.1 as int),
    ensures
        simple_tiles(columns, rows, obstacles, player)[player.1 * columns + player.0] == TileType::Floor,
{
    lemma_fundamental_div_mod_converse(player.1 * columns + player.0, columns, player.1 as int, player.0 as int);
    assert(player.1 * columns + player.0 < rows * columns) by (nonlinear_arith)
        requires
            0 <= player.0 < columns,
            0 <= player.1 < rows,
    ;
}

/// The walls strictly inside the border are no more than the obstacles drawn.
proof fn lemma_interior_walls_bound(m: TileMap, obstacles: Seq<Position>, player: (usize, usize))
    requires
        m.wf(),
        m.tiles@ == simple_tiles(m.columns as int, m.rows as int, obstacles, player),
    ensures
        m.interior_walls().finite(),
        m.interior_walls().len() <= obstacles.len(),
{
    let c = m.columns as int;
    let r = m.rows as int;
    let cells = obstacles.map_values(|p: Position| (p.col(), p.row()));
    assert forall|p: (int, int)| m.interior_walls().contains(p) implies cells.to_set().contains(p) by {
        let col = p.0;
        let row = p.1;
        lemma_fundamental_div_mod_converse(row * c + col, c, row, col);
        assert(row * c + col < r * c) by (nonlinear_arith)
            requires
                0 <= col < c,
                0 <= row < r,
        ;
        assert(is_obstacle(obstacles, player, col, row));
        let k = choose|k: int|
            0 <= k < obstacles.len() && #[trigger] obstacles[k].col() == col && obstacles[k].row() == row;
        assert(cells[k] == p);
    }
    cells.lemma_cardinality_of_set();
    vstd::set_lib::lemma_len_subset(m.interior_walls(), cells.to_set());
}

/// Builds the bordered grid of `width` by `height` pixels and walls in up to
/// `blocks` cells drawn at random strictly inside the border, skipping a draw
/// that lands on the reserved `player` cell. A grid with no cell inside the
/// border gets no draws. Fails when either side is not a whole number of
/// tiles.
pub fn create_simple_map(width: usize, height: usize, blocks: usize, player: (usize, usize)) -> (r: Result<TileMap, String>)
    requires
        (width / GRID_SIZE) * (height / GRID_SIZE) <= usize::MAX,
    ensures
        r is Err <==> !valid_dimensions(width as int, height as int),
        r matches Err(e) ==> e@ == dimension_error_text(),
        r matches Ok(m) ==> {
            &&& m.wf()
            &&& m.columns == width / GRID_SIZE
            &&& m.rows == height / GRID_SIZE
            &&& forall|col: int, row: int|
                m.in_grid(col, row) && on_border(m.columns as int, m.rows as int, col, row)
                    ==> #[trigger] m.tile(col, row) == TileType::Wall
            &&& inside_border(m.columns as int, m.rows as int, player.0 as int, player.1 as int)
                ==> m.tile(player.0 as int, player.1 as int) == TileType::Floor
            &&& m.interior_walls().finite()
            &&& m.interior_walls().len() <= blocks
            &&& exists|drawn: Seq<Position>|
                {
                    &&& drawn.len() == if m.columns >= 3 && m.rows >= 3 {
                        blocks as int
                    } else {
                        0
                    }
                    &&& forall|k: int|
                        0 <= k < drawn.len() ==> inside_border(
                            m.columns as int,
                            m.rows as int,
                            #[trigger] drawn[k].col(),
                            drawn[k].row(),
                        )
                    &&& m.tiles@ == simple_tiles(m.columns as int, m.rows as int, drawn, player)
                }
        },
{
    if width % GRID_SIZE != 0 || height % GRID_SIZE != 0 {
        return Err("Invalid dimensions, we need to be divisable by 32".to_string());
    }
    let columns = width / GRID_SIZE;
    let rows = height / GRID_SIZE;
    let mut map = bordered_map(columns, rows);
    let ghost mut drawn: Seq<Position> = Seq::empty();
    proof {
        assert(simple_tiles(columns as int, rows as int, Seq::empty(), (0, 0)) =~= simple_tiles(
            columns as int,
            rows as int,
            Seq::empty(),
            player,
        ));
    }
    if columns >= 3 && rows >= 3 {
        let mut rng = rand::thread_rng();
        for n in 0..blocks
            invariant
                map.wf(),
                map.columns == columns,
                map.rows == rows,
                columns >= 3,
                rows >= 3,
                drawn.len() == n,
                forall|k: int|
                    0 <= k < drawn.len() ==> inside_border(
                        columns as int,
                        rows as int,
                        #[trigger] drawn[k].col(),
                        drawn[k].row(),
                    ),
                map.tiles@ == simple_tiles(columns as int, rows as int, drawn, player),
        {
            let column = gen_index(&mut rng, 1, columns - 1);
            let row = gen_index(&mut rng, 1, rows - 1);
            let cell = Position(Dimension(column), Dimension(row));
            place_obstacle(&mut map, cell, player, Ghost(drawn));
            proof {
                drawn = drawn.push(cell);
            }
        }
    }
    proof {
        assert forall|col: int, row: int|
            map.in_grid(col, row) && on_border(map.columns as int, map.rows as int, col, row)
                implies #[trigger] map.tile(col, row) == TileType::Wall by {
            lemma_border_is_wall(columns as int, rows as int, drawn, player, col, row);
        }
        if inside_border(columns as int, rows as int, player.0 as int, player.1 as int) {
            lemma_reserved_is_floor(columns as int, rows as int, drawn, player);
        }
        lemma_interior_walls_bound(map, drawn, player);
    }
    Ok(map)
}

/// Attempts at placing a room that the room generator makes.
pub const MAX_ROOMS: usize = 10;

/// Smallest side, in tiles, of a room that the room generator draws.
pub const ROOM_MIN: usize = 4;

/// Bound, in tiles and excluded, on the side of a room that the room
/// generator draws.
pub const ROOM_MAX: usize = 10;

/// What every room drawn by `create_room` satisfies: sides in `[min, max)`
/// and an origin that keeps it off the border of a `columns` by `rows` grid.
pub open spec fn sampled(room: Rectangle, min: int, max: int, columns: int, rows: int) -> bool {
    &&& min <= room.width() < max
    &&& min <= room.height() < max
    &&& 1 <= room.left() < columns - room.width() - 1
    &&& 1 <= room.top() < rows - room.height() - 1
}

/// The room lies strictly inside the border of a `columns` by `rows` grid.
pub open spec fn off_border(room: Rectangle, columns: int, rows: int) -> bool {
    &&& room.left() >= 1
    &&& room.top() >= 1
    &&& room.left() + room.width() <= columns - 1
    &&& room.top() + room.height() <= rows - 1
}

/// Neither rectangle's corner test fires on the other.
pub open spec fn apart(a: Rectangle, b: Rectangle) -> bool {
    !a.corner_within(b) && !b.corner_within(a)
}

/// `room` is apart from every room in `accepted`.
pub open spec fn clear_of(room: Rectangle, accepted: Seq<Rectangle>) -> bool {
    forall|k: int| 0 <= k < accepted.len() ==> apart(room, #[trigger] accepted[k])
}

/// The candidates that the room generator keeps, in order: each one that is
/// apart from all those kept before it.
pub open spec fn select_rooms(candidates: Seq<Rectangle>) -> Seq<Rectangle>
    decreases candidates.len(),
{
    if candidates.len() == 0 {
        Seq::empty()
    } else {
        let kept = select_rooms(candidates.drop_last());
        if clear_of(candidates.last(), kept) {
            kept.push(candidates.last())
        } else {
            kept
        }
    }
}

/// The buffer after carving each room of `rooms` in turn.
pub open spec fn carve_all(tiles: Seq<TileType>, columns: int, rooms: Seq<Rectangle>) -> Seq<TileType>
    decreases rooms.len(),
{
    if rooms.len() == 0 {
        tiles
    } else {
        carve(carve_all(tiles, columns, rooms.drop_last()), columns, rooms.last())
    }
}

/// Draws a room with width and height each in `[min, max)` and an origin
/// column in `[1, columns - width - 1)` and row in `[1, rows - height - 1)`
/// of a grid of `size` tiles, so that it never touches the border.
pub fn create_room(min: Dimension, max: Dimension, size: Size) -> (r: Rectangle)
    requires
        min.0 < max.0,
        max.0 + 1 < size.0.0,
        max.0 + 1 < size.1.0,
    ensures
        sampled(r, min.0 as int, max.0 as int, size.0.0 as int, size.1.0 as int),
{
    let mut rng = rand::thread_rng();
    let width = gen_index(&mut rng, min.0, max.0);
    let height = gen_index(&mut rng, min.0, max.0);
    let columns: usize = size.0.into();
    let rows: usize = size.1.into();
    let x = gen_index(&mut rng, 1, columns - width - 1);
    let y = gen_index(&mut rng, 1, rows - height - 1);
    Rectangle(Position(Dimension(x), Dimension(y)), Size(width.into(), height.into()))
}

/// Tries each candidate in order against the rooms kept so far, keeps it when
/// it is apart from all of them, and carves each kept room into `map` as
/// floor. Returns the rooms kept.
pub fn place_rooms(candidates: &Vec<Rectangle>, map: &mut TileMap) -> (accepted: Vec<Rectangle>)
    requires
        old(map).wf(),
        forall|k: int|
            0 <= k < candidates@.len() ==> fits(
                #[trigger] candidates@[k],
                old(map).columns as int,
                old(map).rows as int,
            ),
    ensures
        final(map).wf(),
        final(map).rows == old(map).rows,
        final(map).columns == old(map).columns,
        accepted@ == select_rooms(candidates@),
        final(map).tiles@ == carve_all(old(map).tiles@, old(map).columns as int, accepted@),
{
    let ghost start_tiles = map.tiles@;
    let mut accepted: Vec<Rectangle> = Vec::new();
    for n in 0..candidates.len()
        invariant
            map.wf(),
            map.rows == old(map).rows,
            map.columns == old(map).columns,
            start_tiles == old(map).tiles@,
            forall|k: int|
                0 <= k < candidates@.len() ==> fits(
                    #[trigger] candidates@[k],
                    map.columns as int,
                    map.rows as int,
                ),
            accepted@ == select_rooms(candidates@.take(n as int)),
            map.tiles@ == carve_all(start_tiles, map.columns as int, accepted@),
    {
        let room = candidates[n];
        let mut ok = true;
        for j in 0..accepted.len()
            invariant
                ok == (forall|i: int| 0 <= i < j ==> apart(room, #[trigger] accepted@[i])),
        {
            let existing = accepted[j];
            if room.intersect(&existing) || existing.intersect(&room) {
                ok = false;
            }
        }
        proof {
            let prefix = candidates@.take(n + 1);
            assert(prefix.drop_last() =~= candidates@.take(n as int));
            assert(prefix.last() == room);
        }
        if ok {
            let ghost before = accepted@;
            add_room_to_map(room, map);
            accepted.push(room);
            proof {
                assert(accepted@.drop_last() =~= before);
            }
        }
    }
    proof {
        assert(candidates@.take(candidates@.len() as int) =~= candidates@);
    }
    accepted
}

/// No two rooms kept by the room generator trip the corner test, in either
/// order.
pub proof fn lemma_selected_rooms_apart(candidates: Seq<Rectangle>)
    ensures
        forall|i: int, j: int|
            0 <= i < select_rooms(candidates).len() && 0 <= j < select_rooms(candidates).len() && i
                != j ==> !(#[trigger] select_rooms(candidates)[i]).corner_within(
                #[trigger] select_rooms(candidates)[j],
            ),
    decreases candidates.len(),
{
    if candidates.len() > 0 {
        let rest = candidates.drop_last();
        let kept = select_rooms(rest);
        let sel = select_rooms(candidates);
        lemma_selected_rooms_apart(rest);
        assert forall|i: int, j: int|
            0 <= i < sel.len() && 0 <= j < sel.len() && i != j implies !(#[trigger] sel[i]).corner_within(
            #[trigger] sel[j],
        ) by {
            if i < kept.len() && j < kept.len() {
                assert(sel[i] == kept[i] && sel[j] == kept[j]);
            } else if i < kept.len() {
                assert(apart(sel[j], kept[i]));
            } else {
                assert(apart(sel[i], kept[j]));
            }
        }
    }
}

/// Every room kept by the room generator is one of its candidates.
proof fn lemma_selected_from(candidates: Seq<Rectangle>)
    ensures
        forall|i: int|
            0 <= i < select_rooms(candidates).len() ==> exists|k: int|
                0 <= k < candidates.len() && candidates[k] == #[trigger] select_rooms(candidates)[i],
    decreases candidates.len(),
{
    if candidates.len() > 0 {
        let rest = candidates.drop_last();
        lemma_selected_from(rest);
        assert forall|i: int| 0 <= i < select_rooms(candidates).len() implies exists|k: int|
            0 <= k < candidates.len() && candidates[k] == #[trigger] select_rooms(candidates)[i] by {
            if i < select_rooms(rest).len() {
                let k = choose|k: int| 0 <= k < rest.len() && rest[k] == #[trigger] select_rooms(rest)[i];
                assert(candidates[k] == rest[k]);
            } else {
                assert(candidates[candidates.len() - 1] == select_rooms(candidates)[i]);
            }
        }
    }
}

/// Carving rooms into solid wall leaves floor exactly on the cells that some
/// room covers.
proof fn lemma_carve_all_floor(n: nat, columns: int, rooms: Seq<Rectangle>, i: int)
    requires
        0 <= i < n,
    ensures
        carve_all(Seq::new(n, |j: int| TileType::Wall), columns, rooms).len() == n,
        (carve_all(Seq::new(n, |j: int| TileType::Wall), columns, rooms)[i] == TileType::Floor) <==> exists|k: int|
            0 <= k < rooms.len() && (#[trigger] rooms[k]).covers(i % columns, i / columns),
    decreases rooms.len(),
{
    if rooms.len() > 0 {
        let rest = rooms.drop_last();
        lemma_carve_all_floor(n, columns, rest, i);
        if exists|k: int| 0 <= k < rest.len() && (#[trigger] rest[k]).covers(i % columns, i / columns) {
            let k = choose|k: int| 0 <= k < rest.len() && (#[trigger] rest[k]).covers(i % columns, i / columns);
            assert(rooms[k] == rest[k]);
        }
        if exists|k: int| 0 <= k < rooms.len() && (#[trigger] rooms[k]).covers(i % columns, i / columns) {
            let k = choose|k: int| 0 <= k < rooms.len() && (#[trigger] rooms[k]).covers(i % columns, i / columns);
            if k < rest.len() {
                assert(rest[k] == rooms[k]);
            }
        }
    }
}

/// Builds the room map of `width` by `height` pixels from given candidate
/// rooms: solid wall, with each candidate that is apart from those kept
/// before it carved as floor. Fails when either side is not a whole number of
/// tiles.
pub fn create_map_with_rooms(width: usize, height: usize, candidates: &Vec<Rectangle>) -> (r: Result<TileMap, String>)
    requires
        (width / GRID_SIZE) * (height / GRID_SIZE) <= usize::MAX,
        forall|k: int|
            0 <= k < candidates@.len() ==> fits(
                #[trigger] candidates@[k],
                (width / GRID_SIZE) as int,
                (height / GRID_SIZE) as int,
            ),
    ensures
        r is Err <==> !valid_dimensions(width as int, height as int),
        r matches Err(e) ==> e@ == dimension_error_text(),
        r matches Ok(m) ==> {
            &&& m.wf()
            &&& m.columns == width / GRID_SIZE
            &&& m.rows == height / GRID_SIZE
            &&& m.tiles@ == carve_all(
                Seq::new((m.rows * m.columns) as nat, |i: int| TileType::Wall),
                m.columns as int,
                select_rooms(candidates@),
            )
        },
{
    if width % GRID_SIZE != 0 || height % GRID_SIZE != 0 {
        return Err("Invalid dimensions, we need to be divisable by 32".to_string());
    }
    let columns = width / GRID_SIZE;
    let rows = height / GRID_SIZE;
    let mut map = TileMap { rows, columns, tiles: filled(columns * rows, TileType::Wall) };
    proof {
        assert(columns * rows == rows * columns) by (nonlinear_arith);
    }
    let _accepted = place_rooms(candidates, &mut map);
    Ok(map)
}

/// Builds the room map of `width` by `height` pixels: solid wall, into which
/// up to `MAX_ROOMS` rooms drawn by `create_room` are carved as floor, each
/// drawn room kept only when it is apart from those kept before it. Fails
/// when either side is not a whole number of tiles.
pub fn create_map(width: usize, height: usize, player: (usize, usize)) -> (r: Result<TileMap, String>)
    requires
        (width / GRID_SIZE) * (height / GRID_SIZE) <= usize::MAX,
        valid_dimensions(width as int, height as int) ==> width / GRID_SIZE > ROOM_MAX + 1
            && height / GRID_SIZE > ROOM_MAX + 1,
    ensures
        r is Err <==> !valid_dimensions(width as int, height as int),
        r matches Err(e) ==> e@ == dimension_error_text(),
        r matches Ok(m) ==> {
            &&& m.wf()
            &&& m.columns == width / GRID_SIZE
            &&& m.rows == height / GRID_SIZE
            &&& exists|rooms: Seq<Rectangle>|
                {
                    &&& rooms.len() <= MAX_ROOMS
                    &&& forall|i: int, j: int|
                        0 <= i < rooms.len() && 0 <= j < rooms.len() && i != j
                            ==> !(#[trigger] rooms[i]).corner_within(#[trigger] rooms[j])
                    &&& forall|i: int|
                        0 <= i < rooms.len() ==> off_border(
                            #[trigger] rooms[i],
                            m.columns as int,
                            m.rows as int,
                        )
                    &&& forall|col: int, row: int|
                        m.in_grid(col, row) ==> ((#[trigger] m.tile(col, row) == TileType::Floor)
                            <==> exists|k: int| 0 <= k < rooms.len() && (#[trigger] rooms[k]).covers(col, row))
                    &&& exists|candidates: Seq<Rectangle>|
                        {
                            &&& candidates.len() == MAX_ROOMS
                            &&& forall|k: int|
                                0 <= k < candidates.len() ==> sampled(
                                    #[trigger] candidates[k],
                                    ROOM_MIN as int,
                                    ROOM_MAX as int,
                                    m.columns as int,
                                    m.rows as int,
                                )
                            &&& rooms == select_rooms(candidates)
                        }
                }
        },
{
    if width % GRID_SIZE != 0 || height % GRID_SIZE != 0 {
        return Err("Invalid dimensions, we need to be divisable by 32".to_string());
    }
    let columns = width / GRID_SIZE;
    let rows = height / GRID_SIZE;
    let mut candidates: Vec<Rectangle> = Vec::new();
    for n in 0..MAX_ROOMS
        invariant
            columns == width / GRID_SIZE,
            rows == height / GRID_SIZE,
            columns > ROOM_MAX + 1,
            rows > ROOM_MAX + 1,
            candidates@.len() == n,
            forall|k: int|
                0 <= k < candidates@.len() ==> sampled(
                    #[trigger] candidates@[k],
                    ROOM_MIN as int,
                    ROOM_MAX as int,
                    columns as int,
                    rows as int,
                ),
    {
        let room = create_room(
            Dimension(ROOM_MIN),
            Dimension(ROOM_MAX),
            Size(Dimension(columns), Dimension(rows)),
        );
        candidates.push(room);
    }
    let r = create_map_with_rooms(width, height, &candidates);
    proof {
        let rooms = select_rooms(candidates@);
        lemma_selected_rooms_apart(candidates@);
        lemma_selected_from(candidates@);
        lemma_selected_len(candidates@);
        if r is Ok {
            let m = r->Ok_0;
            let c = columns as int;
            let n = (rows * columns) as nat;
            assert forall|i: int| 0 <= i < rooms.len() implies off_border(
                #[trigger] rooms[i],
                c,
                rows as int,
            ) by {
                let k = choose|k: int| 0 <= k < candidates@.len() && candidates@[k] == #[trigger] rooms[i];
            }
            assert forall|col: int, row: int| m.in_grid(col, row) implies ((#[trigger] m.tile(col, row)
                == TileType::Floor) <==> exists|k: int|
                0 <= k < rooms.len() && (#[trigger] rooms[k]).covers(col, row)) by {
                let i = row * c + col;
                lemma_fundamental_div_mod_converse(i, c, row, col);
                assert(i < rows * c) by (nonlinear_arith)
                    requires
                        i == row * c + col,
                        0 <= col < c,
                        0 <= row < rows,
                ;
                lemma_carve_all_floor(n, c, rooms, i);
            }
        }
    }
    r
}

/// At most one room is kept per candidate.
proof fn lemma_selected_len(candidates: Seq<Rectangle>)
    ensures
        select_rooms(candidates).len() <= candidates.len(),
    decreases candidates.len(),
{
    if candidates.len() > 0 {
        lemma_selected_len(candidates.drop_last());
    }
}

impl TileMap {
    /// The wall cells of the grid, in row-major order: the cells that get a
    /// block when the grid is drawn.
    pub fn wall_cells(&self) -> (r: Vec<Position>)
        requires
            self.wf(),
        ensures
            forall|k: int|
                0 <= k < r@.len() ==> self.in_grid((#[trigger] r@[k]).col(), r@[k].row())
                    && self.tile(r@[k].col(), r@[k].row()) == TileType::Wall,
            forall|k: int, j: int|
                0 <= k < j < r@.len() ==> self.index_of((#[trigger] r@[k]).col(), r@[k].row())
                    < self.index_of((#[trigger] r@[j]).col(), r@[j].row()),
            forall|col: int, row: int|
                self.in_grid(col, row) && #[trigger] self.tile(col, row) == TileType::Wall ==> exists|
                    k: int,
                | 0 <= k < r@.len() && r@[k] == Position(Dimension(col as usize), Dimension(row as usize)),
    {
        let mut cells: Vec<Position> = Vec::new();
        let ghost c = self.columns as int;
        if self.columns == 0 {
            return cells;
        }
        for i in 0..self.tiles.len()
            invariant
                self.wf(),
                c == self.columns,
                c > 0,
                forall|k: int|
                    0 <= k < cells@.len() ==> self.in_grid((#[trigger] cells@[k]).col(), cells@[k].row())
                        && self.index_of(cells@[k].col(), cells@[k].row()) < i
                        && self.tile(cells@[k].col(), cells@[k].row()) == TileType::Wall,
                forall|k: int, j: int|
                    0 <= k < j < cells@.len() ==> self.index_of((#[trigger] cells@[k]).col(), cells@[k].row())
                        < self.index_of((#[trigger] cells@[j]).col(), cells@[j].row()),
                forall|x: int|
                    0 <= x < i && #[trigger] self.tiles@[x] == TileType::Wall ==> exists|k: int|
                        0 <= k < cells@.len() && self.index_of(cells@[k].col(), cells@[k].row()) == x,
        {
            if self.tiles[i] == TileType::Wall {
                let cell = Position(Dimension(i % self.columns), Dimension(i / self.columns));
                proof {
                    let x = i as int;
                    lemma_cell_of_index(x, c);
                    assert(x / c < self.rows) by (nonlinear_arith)
                        requires
                            x == (x / c) * c + x % c,
                            0 <= x % c,
                            x < self.rows * c,
                            0 < c,
                    ;
                }
                let ghost earlier = cells@;
                cells.push(cell);
                proof {
                    let last = cells@.len() - 1;
                    assert(self.index_of(cells@[last].col(), cells@[last].row()) == i);
                    assert forall|x: int|
                        0 <= x < i + 1 && #[trigger] self.tiles@[x] == TileType::Wall implies exists|
                            k: int,
                        | 0 <= k < cells@.len() && self.index_of(cells@[k].col(), cells@[k].row()) == x by {
                        if x < i {
                            let k = choose|k: int|
                                0 <= k < earlier.len() && self.index_of(earlier[k].col(), earlier[k].row())
                                    == x;
                            assert(cells@[k] == earlier[k]);
                        }
                    }
                }
            }
        }
        proof {
            assert forall|col: int, row: int|
                self.in_grid(col, row) && #[trigger] self.tile(col, row) == TileType::Wall implies exists|
                    k: int,
                | 0 <= k < cells@.len() && cells@[k] == Position(Dimension(col as usize), Dimension(row as usize)) by {
                let x = row * c + col;
                assert(x < self.rows * c) by (nonlinear_arith)
                    requires
                        x == row * c + col,
                        0 <= col < c,
                        0 <= row < self.rows,
                ;
                assert(self.tiles@[x] == TileType::Wall);
                let k = choose|k: int|
                    0 <= k < cells@.len() && self.index_of(cells@[k].col(), cells@[k].row()) == x;
                let p = cells@[k];
                lemma_fundamental_div_mod_converse(x, c, row, col);
                lemma_fundamental_div_mod_converse(x, c, p.row(), p.col());
            }
        }
        cells
    }
}

} // verus!
