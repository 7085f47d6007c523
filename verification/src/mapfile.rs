//! The map file: a header of fixed length, then one whole number per line.
//! Three numbers in a row describe one cell of the grid, row by row.

use vstd::prelude::*;
use rand::rngs::StdRng;
use crate::config::Config;
use crate::geometry::Position;
use crate::lookup::{first_index, lemma_first_index_is};
use crate::pathfinder::MAX_TILES;
use crate::port::Port;
use crate::shipyard::FLEET_SIZE;
use crate::tile::{Tile, TileKind};
use crate::world::World;

verus! {

/// The length of the header of a map file, which is passed over.
pub const HEADER_LEN: usize = 58;

/// The byte that ends a line.
pub const NEWLINE: u8 = 10;

/// The byte that may stand before the end of a line and is not part of it.
pub const CARRIAGE_RETURN: u8 = 13;

/// Why a map file could not be read.
#[derive(Debug, Clone, Copy, PartialEq, Eq, Structural)]
pub enum MapError {
    /// The file is shorter than its header.
    Truncated,
    /// The line with this number, counted from zero after the header, is
    /// no whole number that fits 32 bits.
    Malformed(usize),
    /// The grid has no width, or one beyond what a coordinate can hold.
    NoWidth,
    /// The file describes more cells than a map can have.
    TooLarge,
}

/// The bytes of a line without the carriage return at its end, if it has
/// one.
pub open spec fn without_return(line: Seq<u8>) -> Seq<u8> {
    if line.len() > 0 && line.last() == CARRIAGE_RETURN {
        line.drop_last()
    } else {
        line
    }
}

/// The lines of a text: what stands between its newlines. A newline at the
/// very end starts no further line.
#[verifier::opaque]
pub open spec fn lines_of(text: Seq<u8>) -> Seq<Seq<u8>>
    decreases text.len(),
{
    if text.len() == 0 {
        Seq::empty()
    } else if text.contains(NEWLINE) && 0 <= first_index(text, NEWLINE) < text.len() {
        let end = first_index(text, NEWLINE);
        seq![without_return(text.take(end))] + lines_of(text.skip(end + 1))
    } else {
        seq![without_return(text)]
    }
}

/// `byte` is a decimal digit.
pub open spec fn is_digit(byte: u8) -> bool {
    48 <= byte <= 57
}

/// The number that a sequence of decimal digits stands for.
pub open spec fn decimal(digits: Seq<u8>) -> int
    decreases digits.len(),
{
    if digits.len() == 0 {
        0
    } else {
        decimal(digits.drop_last()) * 10 + (digits.last() - 48)
    }
}

/// The digits of a line: the line without its sign, if it has one.
pub open spec fn digits_of(line: Seq<u8>) -> Seq<u8> {
    if line.len() > 0 && (line[0] == 45 || line[0] == 43) {
        line.skip(1)
    } else {
        line
    }
}

/// The whole number that a line stands for: an optional sign, `+` or `-`,
/// then one decimal digit or more, and a value that fits 32 bits. `None`
/// for any other line.
pub open spec fn number_of(line: Seq<u8>) -> Option<int> {
    let digits = digits_of(line);
    let value = if line.len() > 0 && line[0] == 45 {
        -decimal(digits)
    } else {
        decimal(digits)
    };
    if digits.len() > 0 && (forall|k: int| 0 <= k < digits.len() ==> is_digit(#[trigger] digits[k]))
        && i32::MIN <= value <= i32::MAX {
        Some(value)
    } else {
        None
    }
}

/// Every line after the header of a map file is a number.
pub open spec fn readable(bytes: Seq<u8>) -> bool {
    let lines = lines_of(bytes.skip(HEADER_LEN as int));
    &&& bytes.len() >= HEADER_LEN
    &&& forall|k: int| 0 <= k < lines.len() ==> number_of(#[trigger] lines[k]) is Some
}

/// The numbers after the header of a map file, line by line.
pub open spec fn numbers(bytes: Seq<u8>) -> Seq<i32> {
    let lines = lines_of(bytes.skip(HEADER_LEN as int));
    Seq::new(lines.len(), |k: int| number_of(lines[k])->0 as i32)
}

/// Line `at` is the first line after the header of a map file that is no
/// number.
pub open spec fn first_bad_line(bytes: Seq<u8>, at: int) -> bool {
    let lines = lines_of(bytes.skip(HEADER_LEN as int));
    &&& bytes.len() >= HEADER_LEN
    &&& 0 <= at < lines.len()
    &&& number_of(lines[at]) is None
    &&& forall|k: int| 0 <= k < at ==> number_of(#[trigger] lines[k]) is Some
}

proof fn lemma_decimal_push(digits: Seq<u8>, digit: u8)
    ensures
        decimal(digits.push(digit)) == decimal(digits) * 10 + (digit - 48),
{
    assert(digits.push(digit).drop_last() =~= digits);
}

proof fn lemma_decimal_grows(digits: Seq<u8>, upto: int)
    requires
        0 <= upto <= digits.len(),
        forall|k: int| 0 <= k < digits.len() ==> is_digit(#[trigger] digits[k]),
    ensures
        0 <= decimal(digits.take(upto)) <= decimal(digits),
    decreases digits.len() - upto,
{
    if upto == digits.len() {
        assert(digits.take(upto) =~= digits);
        lemma_decimal_not_negative(digits);
    } else {
        lemma_decimal_grows(digits, upto + 1);
        assert(digits.take(upto + 1).drop_last() =~= digits.take(upto));
        assert(is_digit(digits[upto]));
        lemma_decimal_not_negative(digits.take(upto));
    }
}

proof fn lemma_decimal_not_negative(digits: Seq<u8>)
    requires
        forall|k: int| 0 <= k < digits.len() ==> is_digit(#[trigger] digits[k]),
    ensures
        0 <= decimal(digits),
    decreases digits.len(),
{
    if digits.len() > 0 {
        lemma_decimal_not_negative(digits.drop_last());
        assert(is_digit(digits[digits.len() - 1]));
    }
}

/// Reads the whole number that stands in `bytes` from `from` up to `to`.
fn read_number(bytes: &[u8], from: usize, to: usize) -> (number: Option<i32>)
    requires
        from <= to <= bytes@.len(),
    ensures
        match number {
            Some(n) => number_of(bytes@.subrange(from as int, to as int)) == Some(n as int),
            None => number_of(bytes@.subrange(from as int, to as int)) is None,
        },
{
    let ghost line = bytes@.subrange(from as int, to as int);
    let ghost digits = digits_of(line);
    if from == to {
        return None;
    }
    let negative = bytes[from] == 45;
    let start: usize = if bytes[from] == 45 || bytes[from] == 43 {
        from + 1
    } else {
        from
    };
    assert(line[0] == bytes@[from as int]);
    assert(digits =~= bytes@.subrange(start as int, to as int));
    if start == to {
        return None;
    }
    let mut value: i64 = 0;
    let mut k: usize = start;
    while k < to
        invariant
            from <= start <= k <= to,
            start < to,
            to <= bytes@.len(),
            line == bytes@.subrange(from as int, to as int),
            digits == digits_of(line),
            digits == bytes@.subrange(start as int, to as int),
            negative == (line[0] == 45),
            forall|m: int| 0 <= m < k - start ==> is_digit(#[trigger] digits[m]),
            value == decimal(digits.take(k - start)),
            0 <= value <= 0x8000_0000,
        decreases to - k,
    {
        let byte = bytes[k];
        assert(digits[k - start] == byte);
        if byte < 48 || byte > 57 {
            assert(!is_digit(digits[k - start]));
            return None;
        }
        proof {
            assert(digits.take(k - start + 1) =~= digits.take(k - start).push(byte));
            lemma_decimal_push(digits.take(k - start), byte);
        }
        value = value * 10 + (byte - 48) as i64;
        k += 1;
        if value > 0x8000_0000 {
            proof {
                if forall|m: int| 0 <= m < digits.len() ==> is_digit(#[trigger] digits[m]) {
                    lemma_decimal_grows(digits, k - start);
                }
            }
            return None;
        }
    }
    assert(digits.take(k - start) =~= digits);
    if negative {
        Some((-value) as i32)
    } else if value <= 0x7fff_ffff {
        Some(value as i32)
    } else {
        None
    }
}

/// The first line of a text ends at its first newline, or where the text
/// ends; the other lines are those of what follows the newline.
proof fn lemma_first_line(text: Seq<u8>, end: int)
    requires
        text.len() > 0,
        0 <= end <= text.len(),
        forall|m: int| 0 <= m < end ==> text[m] != NEWLINE,
        end < text.len() ==> text[end] == NEWLINE,
    ensures
        lines_of(text) == seq![without_return(text.take(end))] + lines_of(
            if end < text.len() {
                text.skip(end + 1)
            } else {
                Seq::empty()
            },
        ),
{
    reveal_with_fuel(lines_of, 2);
    if end < text.len() {
        lemma_first_index_is(text, NEWLINE, end);
    } else {
        assert(!text.contains(NEWLINE));
        assert(text.take(end) =~= text);
        assert(lines_of(Seq::<u8>::empty()) =~= Seq::<Seq<u8>>::empty());
        assert(seq![without_return(text)] + Seq::<Seq<u8>>::empty() =~= seq![without_return(text)]);
    }
}

/// Finds where the line that starts at `from` ends: at the next newline, or
/// at the end of `bytes`.
fn line_end(bytes: &[u8], from: usize) -> (end: usize)
    requires
        from <= bytes@.len(),
    ensures
        from <= end <= bytes@.len(),
        forall|m: int| from <= m < end ==> bytes@[m] != NEWLINE,
        end < bytes@.len() ==> bytes@[end as int] == NEWLINE,
{
    let mut end: usize = from;
    while end < bytes.len() && bytes[end] != NEWLINE
        invariant
            from <= end <= bytes@.len(),
            forall|m: int| from <= m < end ==> bytes@[m] != NEWLINE,
        decreases bytes@.len() - end,
    {
        end += 1;
    }
    end
}

/// Reads the numbers of a map file: passes over the header and takes each
/// line after it for a whole number.
pub fn parse_map(bytes: &[u8]) -> (parsed: Result<Vec<i32>, MapError>)
    ensures
        match parsed {
            Ok(values) => readable(bytes@) && values@ == numbers(bytes@),
            Err(MapError::Truncated) => bytes@.len() < HEADER_LEN,
            Err(MapError::Malformed(at)) => first_bad_line(bytes@, at as int),
            Err(_) => false,
        },
{
    if bytes.len() < HEADER_LEN {
        return Err(MapError::Truncated);
    }
    let ghost lines = lines_of(bytes@.skip(HEADER_LEN as int));
    let ghost mut read: Seq<Seq<u8>> = Seq::empty();
    let mut values: Vec<i32> = Vec::new();
    let mut from: usize = HEADER_LEN;
    assert(lines =~= read + lines_of(bytes@.skip(from as int)));
    while from < bytes.len()
        invariant
            HEADER_LEN <= from <= bytes@.len(),
            lines == lines_of(bytes@.skip(HEADER_LEN as int)),
            lines == read + lines_of(bytes@.skip(from as int)),
            read.len() == values@.len(),
            forall|k: int|
                0 <= k < read.len() ==> number_of(#[trigger] read[k]) == Some(values@[k] as int),
        decreases bytes@.len() - from,
    {
        let end = line_end(bytes, from);
        let stop: usize = if end > from && bytes[end - 1] == CARRIAGE_RETURN {
            end - 1
        } else {
            end
        };
        let next: usize = if end < bytes.len() {
            end + 1
        } else {
            end
        };
        let ghost rest = bytes@.skip(from as int);
        let ghost line = bytes@.subrange(from as int, stop as int);
        proof {
            lemma_first_line(rest, end - from);
            assert(rest.take(end - from) =~= bytes@.subrange(from as int, end as int));
            assert(without_return(bytes@.subrange(from as int, end as int)) =~= line);
            if end < bytes.len() {
                assert(rest.skip(end - from + 1) =~= bytes@.skip(next as int));
            } else {
                assert(bytes@.skip(next as int) =~= Seq::<u8>::empty());
            }
            assert(lines =~= read.push(line) + lines_of(bytes@.skip(next as int)));
        }
        match read_number(bytes, from, stop) {
            Some(number) => {
                values.push(number);
            },
            None => {
                proof {
                    assert(lines[read.len() as int] == line);
                    assert forall|k: int| 0 <= k < read.len() implies number_of(
                        #[trigger] lines[k],
                    ) is Some by {
                        assert(lines[k] == read[k]);
                    }
                }
                return Err(MapError::Malformed(values.len()));
            },
        }
        proof {
            read = read.push(line);
        }
        from = next;
    }
    proof {
        assert(bytes@.skip(from as int) =~= Seq::<u8>::empty());
        assert(lines_of(Seq::<u8>::empty()) =~= Seq::<Seq<u8>>::empty()) by {
            reveal_with_fuel(lines_of, 1);
        }
        assert(lines =~= read);
        assert(values@ =~= numbers(bytes@));
    }
    Ok(values)
}

/// The number of cells that the given numbers describe: one for every
/// three numbers, and one for what is left over.
pub open spec fn cell_count(values: Seq<i32>) -> int {
    (values.len() as int + 2) / 3
}

/// The numbers that describe cell `i`: three, or fewer at the end.
pub open spec fn cell(values: Seq<i32>, i: int) -> Seq<i32> {
    values.subrange(
        3 * i,
        if 3 * i + 3 <= values.len() {
            3 * i + 3
        } else {
            values.len() as int
        },
    )
}

/// The numbers that stand for water.
pub open spec fn water() -> Seq<i32> {
    seq![0i32, 0i32, 255i32]
}

/// The numbers that stand for land with a port.
pub open spec fn harbour() -> Seq<i32> {
    seq![0i32, 0i32, 0i32]
}

/// Where cell `i` lies on a grid of the given width, filled row by row.
pub open spec fn cell_position(i: int, width: int) -> Position {
    Position { x: (i % width) as i32, y: (i / width) as i32 }
}

/// The tile of cell `i`: water where the numbers say so, land otherwise.
pub open spec fn tile_at(values: Seq<i32>, width: int, i: int) -> Tile {
    Tile {
        position: cell_position(i, width),
        kind: if cell(values, i) == water() {
            TileKind::Water
        } else {
            TileKind::Land
        },
    }
}

/// The tiles that the given numbers describe, cell by cell.
pub open spec fn tiles_in(values: Seq<i32>, width: int) -> Seq<Tile> {
    Seq::new(cell_count(values) as nat, |i: int| tile_at(values, width, i))
}

/// The positions of the ports among the first `upto` cells, in order.
pub open spec fn harbours_upto(values: Seq<i32>, width: int, upto: int) -> Seq<Position>
    decreases upto,
{
    if upto <= 0 {
        Seq::empty()
    } else if cell(values, upto - 1) == harbour() {
        harbours_upto(values, width, upto - 1).push(cell_position(upto - 1, width))
    } else {
        harbours_upto(values, width, upto - 1)
    }
}

/// The positions of the ports that the given numbers describe, in order.
pub open spec fn harbours_in(values: Seq<i32>, width: int) -> Seq<Position> {
    harbours_upto(values, width, cell_count(values))
}

/// Builds the tiles that the given numbers describe, and finds the
/// positions of the ports among them. The cells fill the grid row by row.
pub fn build_cells(values: &[i32], width: u32) -> (built: (Vec<Tile>, Vec<Position>))
    requires
        0 < width <= i32::MAX,
        cell_count(values@) <= MAX_TILES,
    ensures
        built.0@ == tiles_in(values@, width as int),
        built.1@ == harbours_in(values@, width as int),
{
    let len = values.len();
    let count: usize = if len % 3 == 0 {
        len / 3
    } else {
        len / 3 + 1
    };
    assert(count == cell_count(values@));
    let mut tiles: Vec<Tile> = Vec::new();
    let mut harbours: Vec<Position> = Vec::new();
    let mut i: usize = 0;
    while i < count
        invariant
            i <= count,
            len == values@.len(),
            count == cell_count(values@),
            count <= MAX_TILES,
            0 < width <= i32::MAX,
            tiles@.len() == i,
            forall|k: int| 0 <= k < i ==> #[trigger] tiles@[k] == tile_at(values@, width as int, k),
            harbours@ == harbours_upto(values@, width as int, i as int),
        decreases count - i,
    {
        let base: usize = 3 * i;
        let whole = len - base >= 3;
        let column: usize = i % (width as usize);
        let row: usize = i / (width as usize);
        proof {
            let w = width as int;
            let n = i as int;
            assert(0 <= n % w < w && 0 <= n / w <= n) by (nonlinear_arith)
                requires
                    w > 0,
                    n >= 0,
            ;
        }
        let position = Position::new(column as i32, row as i32);
        let ghost this = cell(values@, i as int);
        let is_water = whole && values[base] == 0 && values[base + 1] == 0 && values[base + 2]
            == 255;
        let is_harbour = whole && values[base] == 0 && values[base + 1] == 0 && values[base + 2]
            == 0;
        proof {
            if whole {
                assert(this.len() == 3);
                assert(this[0] == values@[base as int]);
                assert(this[1] == values@[base + 1]);
                assert(this[2] == values@[base + 2]);
                assert(is_water == (this =~= water()));
                assert(is_harbour == (this =~= harbour()));
            } else {
                assert(this.len() < 3);
                assert(water().len() == 3);
                assert(harbour().len() == 3);
            }
            assert(position == cell_position(i as int, width as int));
        }
        if is_water {
            tiles.push(Tile::new(position, TileKind::Water));
        } else {
            tiles.push(Tile::new(position, TileKind::Land));
        }
        if is_harbour {
            harbours.push(position);
        }
        i += 1;
    }
    assert(tiles@ =~= tiles_in(values@, width as int));
    (tiles, harbours)
}

/// This world is the one that the given numbers describe on a grid of the
/// given width: it has their tiles and an open port at each of their
/// harbours, which imports one colour and exports another; it has no
/// closed port and no route, and its shipyard is full.
pub open spec fn describes(world: crate::world::WorldView, values: Seq<i32>, width: int) -> bool {
    &&& world.map == tiles_in(values, width)
    &&& world.port_positions() == harbours_in(values, width)
    &&& forall|k: int|
        0 <= k < world.open_ports.len() ==> (#[trigger] world.open_ports[k]).import
            != world.open_ports[k].export
    &&& world.closed_ports.len() == 0
    &&& world.routes.len() == 0
    &&& world.shipyard == FLEET_SIZE
}

/// Loads the world from the bytes of a map file. The colours of each port
/// are drawn from `gen`.
pub fn load_world(bytes: &[u8], config: &Config, gen: &mut StdRng) -> (loaded: Result<World, MapError>)
    ensures
        match loaded {
            Ok(world) => {
                &&& readable(bytes@)
                &&& 0 < config.grid_width <= i32::MAX
                &&& cell_count(numbers(bytes@)) <= MAX_TILES
                &&& describes(world@, numbers(bytes@), config.grid_width as int)
                &&& world@.wf()
            },
            Err(MapError::Truncated) => bytes@.len() < HEADER_LEN,
            Err(MapError::Malformed(at)) => first_bad_line(bytes@, at as int),
            Err(MapError::NoWidth) => {
                &&& readable(bytes@)
                &&& (config.grid_width == 0 || config.grid_width > i32::MAX)
            },
            Err(MapError::TooLarge) => {
                &&& readable(bytes@)
                &&& 0 < config.grid_width <= i32::MAX
                &&& cell_count(numbers(bytes@)) > MAX_TILES
            },
        },
{
    let values = match parse_map(bytes) {
        Ok(values) => values,
        Err(error) => {
            return Err(error);
        },
    };
    if config.grid_width == 0 || config.grid_width > 0x7fff_ffff {
        return Err(MapError::NoWidth);
    }
    if values.len() / 3 >= MAX_TILES {
        if values.len() / 3 > MAX_TILES || values.len() % 3 != 0 {
            return Err(MapError::TooLarge);
        }
    }
    let (tiles, harbours) = build_cells(values.as_slice(), config.grid_width);
    let mut ports: Vec<Port> = Vec::new();
    let mut k: usize = 0;
    while k < harbours.len()
        invariant
            k <= harbours@.len(),
            ports@.len() == k,
            forall|m: int|
                0 <= m < k ==> (#[trigger] ports@[m]).position == harbours@[m] && ports@[m].import
                    != ports@[m].export,
        decreases harbours@.len() - k,
    {
        ports.push(Port::new(harbours[k], gen));
        k += 1;
    }
    let world = World::new(tiles, ports, Vec::new());
    proof {
        assert(world@.port_positions() =~= harbours@);
        assert(crate::world::shapes_of(world@.routes) =~= Seq::<crate::shape::RouteShape>::empty());
    }
    Ok(world)
}

} // verus!
