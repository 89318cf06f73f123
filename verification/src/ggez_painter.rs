//! What painting the playfield into a window decides and how it can fail.
use vstd::prelude::*;
use crate::board::Board;
use crate::tiles::{lemma_cell_order, Tile};

verus! {

/// Why the playfield could not be painted.
#[derive(Debug, Clone, Copy, PartialEq, Eq, Structural)]
pub enum Error {
    /// The rectangle of the cell at the given column and row was refused.
    UnableToDrawRectangle(usize, usize),
    /// The finished frame was refused.
    UnableToFinishCanvasOperation,
}

/// The colours that cells are painted in.
#[derive(Debug, Clone, Copy, PartialEq, Eq, Structural)]
pub enum CellColor {
    Black,
    Blue,
    White,
    Magenta,
}

/// The colour of a cell: rock is black, water blue, air white; what lies
/// outside the board is magenta.
pub open spec fn color_of(tile: Option<Tile>) -> CellColor {
    match tile {
        Some(Tile::Rock) => CellColor::Black,
        Some(Tile::Water) => CellColor::Blue,
        Some(Tile::Air) => CellColor::White,
        None => CellColor::Magenta,
    }
}

/// A cell to be painted: its column, its row and its colour.
#[derive(Debug, Clone, Copy, PartialEq, Eq, Structural)]
pub struct Rectangle {
    pub x: usize,
    pub y: usize,
    pub color: CellColor,
}

/// The rectangle of a row-by-row listing that stands for the cell `(x, y)`.
pub open spec fn cell_rectangle(plan: Seq<Rectangle>, width: int, x: int, y: int) -> Rectangle {
    plan[y * width + x]
}

/// Paints the playfield into a window.
pub struct GgezPainter {}

impl GgezPainter {
    /// The colour in which a cell is painted.
    pub fn cell_color(tile: Option<&Tile>) -> (color: CellColor)
        ensures
            color == color_of(
                match tile {
                    Some(t) => Some(*t),
                    None => None,
                },
            ),
    {
        match tile {
            Some(Tile::Rock) => CellColor::Black,
            Some(Tile::Water) => CellColor::Blue,
            Some(Tile::Air) => CellColor::White,
            None => CellColor::Magenta,
        }
    }

    /// The rectangles that make up the picture of the board: one for each
    /// cell, row by row.
    pub fn rectangles(board: &Board) -> (plan: Vec<Rectangle>)
        requires
            board.wf(),
        ensures
            plan@.len() == board@.width * board@.height,
            forall|x: int, y: int|
                0 <= x < board@.width && 0 <= y < board@.height ==> #[trigger] cell_rectangle(
                    plan@,
                    board@.width as int,
                    x,
                    y,
                ) == (Rectangle { x: x as usize, y: y as usize, color: color_of(board@.tile(x, y)) }),
    {
        let width = board.width();
        let height = board.height();
        let mut plan: Vec<Rectangle> = Vec::new();
        let mut y: usize = 0;
        while y < height
            invariant
                y <= height,
                board.wf(),
                width == board@.width,
                height == board@.height,
                plan@.len() == y * width,
                forall|a: int, b: int|
                    0 <= a < width && 0 <= b < y ==> #[trigger] cell_rectangle(
                        plan@,
                        width as int,
                        a,
                        b,
                    ) == (Rectangle {
                        x: a as usize,
                        y: b as usize,
                        color: color_of(board@.tile(a, b)),
                    }),
            decreases height - y,
        {
            let mut x: usize = 0;
            while x < width
                invariant
                    x <= width,
                    y < height,
                    board.wf(),
                    width == board@.width,
                    height == board@.height,
                    plan@.len() == y * width + x,
                    forall|a: int, b: int|
                        0 <= a < width && (0 <= b < y || (b == y && a < x))
                            ==> #[trigger] cell_rectangle(plan@, width as int, a, b) == (Rectangle {
                            x: a as usize,
                            y: b as usize,
                            color: color_of(board@.tile(a, b)),
                        }),
                decreases width - x,
            {
                let ghost before = plan@;
                plan.push(Rectangle { x, y, color: Self::cell_color(board.tiles().at(x, y)) });
                proof {
                    assert forall|a: int, b: int|
                        0 <= a < width && (0 <= b < y || (b == y && a < x + 1))
                            implies #[trigger] cell_rectangle(plan@, width as int, a, b)
                        == (Rectangle {
                        x: a as usize,
                        y: b as usize,
                        color: color_of(board@.tile(a, b)),
                    }) by {
                        lemma_cell_order(a, b, x as int, y as int, width as int);
                        if !(b == y && a == x) {
                            assert(cell_rectangle(before, width as int, a, b) == (Rectangle {
                                x: a as usize,
                                y: b as usize,
                                color: color_of(board@.tile(a, b)),
                            }));
                        }
                    }
                }
                x += 1;
            }
            proof {
                assert((y + 1) * width == y * width + width) by (nonlinear_arith);
            }
            y += 1;
        }
        proof {
            assert(y * width == width * height) by (nonlinear_arith)
                requires
                    y == height,
            ;
        }
        plan
    }

    /// What to make of the attempt to draw a rectangle: a refused
    /// rectangle is an error that names its cell.
    pub fn rectangle_drawn(rectangle: &Rectangle, drawn: bool) -> (result: Result<(), Error>)
        ensures
            result == if drawn {
                Ok::<(), Error>(())
            } else {
                Err::<(), Error>(Error::UnableToDrawRectangle(rectangle.x, rectangle.y))
            },
    {
        if drawn {
            Ok(())
        } else {
            Err(Error::UnableToDrawRectangle(rectangle.x, rectangle.y))
        }
    }

    /// What to make of the attempt to finish the frame: a refused frame is
    /// an error.
    pub fn canvas_finished(finished: bool) -> (result: Result<(), Error>)
        ensures
            result == if finished {
                Ok::<(), Error>(())
            } else {
                Err::<(), Error>(Error::UnableToFinishCanvasOperation)
            },
    {
        if finished {
            Ok(())
        } else {
            Err(Error::UnableToFinishCanvasOperation)
        }
    }
}

} // verus!
