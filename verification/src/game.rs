//! The game around the engine: the painting tools and what the mouse and
//! the keyboard do to them.
use vstd::prelude::*;
use crate::engine::Engine;
use crate::grid::{lemma_with_tile, Grid};
use crate::tiles::{Tile, TileUpdateOperation, TileUpdateRule};

verus! {

/// What the game shows besides its window.
pub struct GameConfig {
    pub console_preview: bool,
    pub _perf_tick: bool,
    pub _perf_blob_detect: bool,
}

impl Default for GameConfig {
    fn default() -> (cfg: GameConfig)
        ensures
            !cfg.console_preview,
            !cfg._perf_tick,
            !cfg._perf_blob_detect,
    {
        GameConfig { console_preview: false, _perf_tick: false, _perf_blob_detect: false }
    }
}

/// The state of the painting tools.
pub struct Renderer {
    pub pixel_size: usize,
    pub left_button_down: bool,
    pub right_button_down: bool,
    pub middle_button_down: bool,
    /// The tile that the left mouse button paints.
    pub tile_to_draw: Tile,
}

impl Default for Renderer {
    fn default() -> (renderer: Renderer)
        ensures
            renderer.pixel_size == 4,
            !renderer.left_button_down,
            !renderer.right_button_down,
            !renderer.middle_button_down,
            renderer.tile_to_draw == Tile::Rock,
    {
        Renderer {
            pixel_size: 4,
            left_button_down: false,
            right_button_down: false,
            middle_button_down: false,
            tile_to_draw: Tile::Rock,
        }
    }
}

/// A button of the mouse.
#[derive(Clone, Copy, Debug, PartialEq, Eq, Structural)]
pub enum MouseButton {
    Left,
    Right,
    Middle,
    Other,
}

/// A key that the game tells from the others.
#[derive(Clone, Copy, Debug, PartialEq, Eq, Structural)]
pub enum KeyCode {
    Key1,
    Key2,
    Other,
}

/// The painting tools after a button went down or up.
pub open spec fn pressed(renderer: Renderer, button: MouseButton, down: bool) -> Renderer {
    match button {
        MouseButton::Left => Renderer { left_button_down: down, ..renderer },
        MouseButton::Right => Renderer { right_button_down: down, ..renderer },
        MouseButton::Middle => Renderer { middle_button_down: down, ..renderer },
        MouseButton::Other => renderer,
    }
}

/// The edit that a mouse button makes: the left one paints the chosen
/// tile, the right one erases, the middle one purges.
pub open spec fn tool_of(button: MouseButton, tile_to_draw: Tile) -> Option<TileUpdateOperation> {
    match button {
        MouseButton::Left => Some(TileUpdateOperation::Paint(tile_to_draw)),
        MouseButton::Right => Some(TileUpdateOperation::Erase),
        MouseButton::Middle => Some(TileUpdateOperation::Purge),
        MouseButton::Other => None,
    }
}

/// The edit that a moving mouse makes: that of the one button held down,
/// and none where none or several are held down.
pub open spec fn tool_in_hand(renderer: Renderer) -> Option<TileUpdateOperation> {
    if renderer.left_button_down && !renderer.middle_button_down && !renderer.right_button_down {
        Some(TileUpdateOperation::Paint(renderer.tile_to_draw))
    } else if !renderer.left_button_down && renderer.middle_button_down
        && !renderer.right_button_down {
        Some(TileUpdateOperation::Purge)
    } else if !renderer.left_button_down && !renderer.middle_button_down
        && renderer.right_button_down {
        Some(TileUpdateOperation::Erase)
    } else {
        None
    }
}

/// How far the brush reaches from the pixel under the mouse.
pub const BRUSH_REACH: usize = 10;

/// Whether the pixel coordinate `a` lies under a brush held at `at`.
pub open spec fn under_brush(a: int, at: int) -> bool {
    at - BRUSH_REACH <= a < at + BRUSH_REACH && 0 <= a < usize::MAX
}

/// Whether the brush held at the pixel `(px, py)` touches the cell `(cx, cy)`.
pub open spec fn brushed(cx: int, cy: int, px: int, py: int, pixel_size: int) -> bool {
    exists|a: int, b: int|
        #![trigger under_brush(a, px), under_brush(b, py)]
        under_brush(a, px) && under_brush(b, py) && a / pixel_size == cx && b / pixel_size == cy
}

/// Whether the cell lies off the outermost ring of a grid of the given size.
pub open spec fn off_border(cx: int, cy: int, width: int, height: int) -> bool {
    cx != 0 && cx != width - 1 && cy != 0 && cy != height - 1
}

/// The tile of a cell after an edit with the brush at pixel `(px, py)`.
pub open spec fn edited_tile(
    g: Grid,
    cx: int,
    cy: int,
    px: int,
    py: int,
    pixel_size: int,
    op: TileUpdateOperation,
) -> Option<Tile> {
    if g.in_range(cx, cy) && brushed(cx, cy, px, py, pixel_size) && off_border(
        cx,
        cy,
        g.width as int,
        g.height as int,
    ) && TileUpdateRule::allows(g.tile(cx, cy), op) {
        Some(op.spec_target())
    } else {
        g.tile(cx, cy)
    }
}

/// Whether `after` is what an edit with the brush at pixel `(px, py)`
/// makes of `before`.
pub open spec fn is_edit(
    before: Grid,
    after: Grid,
    px: int,
    py: int,
    pixel_size: int,
    op: TileUpdateOperation,
) -> bool {
    &&& after.wf()
    &&& after.width == before.width
    &&& after.height == before.height
    &&& forall|cx: int, cy: int| #[trigger]
        after.tile(cx, cy) == edited_tile(before, cx, cy, px, py, pixel_size, op)
}

/// Whether a pixel of the brush has been worked off: it lies in a column
/// before `a`, or in column `a` before row `b`.
pub open spec fn worked_off(i: int, j: int, a: int, b: int, px: int, py: int) -> bool {
    under_brush(i, px) && under_brush(j, py) && (i < a || (i == a && j < b))
}

/// Whether a worked-off pixel of the brush lies in the cell `(cx, cy)`.
pub open spec fn touched(
    cx: int,
    cy: int,
    a: int,
    b: int,
    px: int,
    py: int,
    pixel_size: int,
) -> bool {
    exists|i: int, j: int| #[trigger]
        worked_off(i, j, a, b, px, py) && i / pixel_size == cx && j / pixel_size == cy
}

/// The tile of a cell while an edit is under way.
pub open spec fn partly_edited_tile(
    g: Grid,
    cx: int,
    cy: int,
    a: int,
    b: int,
    px: int,
    py: int,
    pixel_size: int,
    op: TileUpdateOperation,
) -> Option<Tile> {
    if g.in_range(cx, cy) && touched(cx, cy, a, b, px, py, pixel_size) && off_border(
        cx,
        cy,
        g.width as int,
        g.height as int,
    ) && TileUpdateRule::allows(g.tile(cx, cy), op) {
        Some(op.spec_target())
    } else {
        g.tile(cx, cy)
    }
}

/// The engine together with the painting tools.
pub struct Game {
    engine: Engine,
    cfg: GameConfig,
    renderer: Renderer,
}

impl Game {
    /// The engine that the game drives.
    pub closed spec fn spec_engine(&self) -> Engine {
        self.engine
    }

    /// The painting tools.
    pub closed spec fn spec_renderer(&self) -> Renderer {
        self.renderer
    }

    /// What the game was told to show besides its window.
    pub closed spec fn spec_config(&self) -> GameConfig {
        self.cfg
    }

    /// The board on which the game is played.
    pub open spec fn grid(&self) -> Grid {
        self.spec_engine().spec_board()@
    }

    /// The engine is well formed and a cell is at least one pixel wide.
    pub open spec fn wf(&self) -> bool {
        &&& self.spec_engine().wf()
        &&& self.spec_renderer().pixel_size > 0
    }

    pub fn new(engine: Engine, cfg: GameConfig) -> (game: Self)
        ensures
            game.spec_engine() == engine,
            game.spec_config() == cfg,
            game.spec_renderer().pixel_size == 4,
            !game.spec_renderer().left_button_down,
            !game.spec_renderer().right_button_down,
            !game.spec_renderer().middle_button_down,
            game.spec_renderer().tile_to_draw == Tile::Rock,
    {
        Self { engine, cfg, renderer: Renderer::default() }
    }

    pub fn engine(&self) -> (engine: &Engine)
        ensures
            *engine == self.spec_engine(),
    {
        &self.engine
    }

    /// What the game was told to show besides its window.
    pub fn config(&self) -> (cfg: &GameConfig)
        ensures
            *cfg == self.spec_config(),
    {
        &self.cfg
    }

    pub fn renderer(&self) -> (renderer: &Renderer)
        ensures
            *renderer == self.spec_renderer(),
    {
        &self.renderer
    }

    /// The size of the window in pixels: the size of the board in cells
    /// times the size of a cell.
    pub fn windows_size(&self) -> (size: (usize, usize))
        requires
            self.spec_renderer().pixel_size * self.spec_engine().spec_board().spec_width()
                <= usize::MAX,
            self.spec_renderer().pixel_size * self.spec_engine().spec_board().spec_height()
                <= usize::MAX,
        ensures
            size.0 == self.spec_renderer().pixel_size
                * self.spec_engine().spec_board().spec_width(),
            size.1 == self.spec_renderer().pixel_size
                * self.spec_engine().spec_board().spec_height(),
    {
        (
            self.renderer.pixel_size * self.engine.board().width(),
            self.renderer.pixel_size * self.engine.board().height(),
        )
    }

    /// Whether the cell under the pixel `(x, y)` lies off the outermost
    /// ring of the board, which the tools leave alone.
    pub fn within_bounds(
        x: usize,
        y: usize,
        height: usize,
        width: usize,
        pixel_size: usize,
    ) -> (inside: bool)
        requires
            pixel_size > 0,
        ensures
            inside == off_border(
                x as int / pixel_size as int,
                y as int / pixel_size as int,
                width as int,
                height as int,
            ),
    {
        x / pixel_size != 0 && (width == 0 || x / pixel_size != width - 1) && y / pixel_size != 0
            && (height == 0 || y / pixel_size != height - 1)
    }

    /// Applies the edit to the cell under the pixel `(xx, yy)`.
    fn update_cell(&mut self, xx: usize, yy: usize, op: &TileUpdateOperation)
        requires
            old(self).wf(),
        ensures
            final(self).wf(),
            final(self).spec_renderer() == old(self).spec_renderer(),
            final(self).spec_config() == old(self).spec_config(),
            final(self).spec_engine().spec_blobs() == old(self).spec_engine().spec_blobs(),
            final(self).spec_engine().spec_perf_check() == old(
                self,
            ).spec_engine().spec_perf_check(),
            final(self).spec_engine().spec_board().spec_pixel_size() == old(
                self,
            ).spec_engine().spec_board().spec_pixel_size(),
            final(self).grid() == ({
                let g = old(self).grid();
                let cx = xx as int / old(self).spec_renderer().pixel_size as int;
                let cy = yy as int / old(self).spec_renderer().pixel_size as int;
                if off_border(cx, cy, g.width as int, g.height as int) && TileUpdateRule::allows(
                    g.tile(cx, cy),
                    *op,
                ) {
                    g.with_tile(cx, cy, op.spec_target())
                } else {
                    g
                }
            }),
    {
        let pixel_size = self.renderer.pixel_size;
        let board = self.engine.board_mut();
        let height = board.height();
        let width = board.width();
        let tiles = board.tiles_mut();
        let allowed = TileUpdateRule::is_allowed(tiles.at(xx / pixel_size, yy / pixel_size), op);
        if Self::within_bounds(xx, yy, height, width, pixel_size) && allowed {
            proof {
                lemma_with_tile(
                    tiles@,
                    xx as int / pixel_size as int,
                    yy as int / pixel_size as int,
                    op.spec_target(),
                );
            }
            tiles.set_at(xx / pixel_size, yy / pixel_size, op.target());
        }
    }

    /// Applies the edit to every cell that the brush touches when it is
    /// held at the pixel `(x, y)`, except on the outermost ring of the
    /// board and where the rule for the edit forbids it.
    pub fn update_tile(&mut self, x: usize, y: usize, op: &TileUpdateOperation)
        requires
            old(self).wf(),
        ensures
            final(self).wf(),
            final(self).spec_renderer() == old(self).spec_renderer(),
            final(self).spec_config() == old(self).spec_config(),
            final(self).spec_engine().spec_blobs() == old(self).spec_engine().spec_blobs(),
            final(self).spec_engine().spec_perf_check() == old(
                self,
            ).spec_engine().spec_perf_check(),
            is_edit(
                old(self).grid(),
                final(self).grid(),
                x as int,
                y as int,
                old(self).spec_renderer().pixel_size as int,
                *op,
            ),
    {
        let ghost g = self.grid();
        let ghost ps = self.renderer.pixel_size as int;
        let lo_x = x.saturating_sub(BRUSH_REACH);
        let hi_x = x.saturating_add(BRUSH_REACH);
        let lo_y = y.saturating_sub(BRUSH_REACH);
        let hi_y = y.saturating_add(BRUSH_REACH);
        let mut xx = lo_x;
        proof {
            Self::lemma_untouched(g, lo_x as int, lo_y as int, x as int, y as int, ps, *op);
        }
        while xx < hi_x
            invariant
                lo_x <= xx <= hi_x,
                lo_x == if x >= BRUSH_REACH { x - BRUSH_REACH } else { 0 },
                hi_x == if x + BRUSH_REACH <= usize::MAX { x + BRUSH_REACH } else { usize::MAX as int },
                lo_y == if y >= BRUSH_REACH { y - BRUSH_REACH } else { 0 },
                hi_y == if y + BRUSH_REACH <= usize::MAX { y + BRUSH_REACH } else { usize::MAX as int },
                self.wf(),
                self.spec_renderer() == old(self).spec_renderer(),
                self.spec_config() == old(self).spec_config(),
                self.spec_engine().spec_blobs() == old(self).spec_engine().spec_blobs(),
                self.spec_engine().spec_perf_check() == old(self).spec_engine().spec_perf_check(),
                ps == self.spec_renderer().pixel_size,
                g == old(self).grid(),
                g.wf(),
                self.grid().width == g.width,
                self.grid().height == g.height,
                forall|cx: int, cy: int| #[trigger]
                    self.grid().tile(cx, cy) == partly_edited_tile(
                        g,
                        cx,
                        cy,
                        xx as int,
                        lo_y as int,
                        x as int,
                        y as int,
                        ps,
                        *op,
                    ),
            decreases hi_x - xx,
        {
            let mut yy = lo_y;
            while yy < hi_y
                invariant
                    lo_x <= xx < hi_x,
                    lo_y <= yy <= hi_y,
                    lo_x == if x >= BRUSH_REACH { x - BRUSH_REACH } else { 0 },
                    hi_x == if x + BRUSH_REACH <= usize::MAX { x + BRUSH_REACH } else { usize::MAX as int },
                    lo_y == if y >= BRUSH_REACH { y - BRUSH_REACH } else { 0 },
                    hi_y == if y + BRUSH_REACH <= usize::MAX { y + BRUSH_REACH } else { usize::MAX as int },
                    self.wf(),
                    self.spec_renderer() == old(self).spec_renderer(),
                    self.spec_config() == old(self).spec_config(),
                    self.spec_engine().spec_blobs() == old(self).spec_engine().spec_blobs(),
                    self.spec_engine().spec_perf_check() == old(
                        self,
                    ).spec_engine().spec_perf_check(),
                    ps == self.spec_renderer().pixel_size,
                    g == old(self).grid(),
                    g.wf(),
                    self.grid().width == g.width,
                    self.grid().height == g.height,
                    forall|cx: int, cy: int| #[trigger]
                        self.grid().tile(cx, cy) == partly_edited_tile(
                            g,
                            cx,
                            cy,
                            xx as int,
                            yy as int,
                            x as int,
                            y as int,
                            ps,
                            *op,
                        ),
                decreases hi_y - yy,
            {
                let ghost now = self.grid();
                self.update_cell(xx, yy, op);
                proof {
                    Self::lemma_one_more_pixel(
                        g,
                        now,
                        self.grid(),
                        xx as int,
                        yy as int,
                        x as int,
                        y as int,
                        ps,
                        *op,
                    );
                }
                yy += 1;
            }
            proof {
                Self::lemma_next_column(
                    g,
                    self.grid(),
                    xx as int,
                    lo_y as int,
                    hi_y as int,
                    x as int,
                    y as int,
                    ps,
                    *op,
                );
            }
            xx += 1;
        }
        proof {
            Self::lemma_all_touched(
                g,
                self.grid(),
                hi_x as int,
                lo_y as int,
                x as int,
                y as int,
                ps,
                *op,
            );
        }
    }

    /// Clears whatever the brush touches.
    pub fn purge_tile(&mut self, x: usize, y: usize)
        requires
            old(self).wf(),
        ensures
            final(self).wf(),
            final(self).spec_renderer() == old(self).spec_renderer(),
            final(self).spec_config() == old(self).spec_config(),
            final(self).spec_engine().spec_blobs() == old(self).spec_engine().spec_blobs(),
            final(self).spec_engine().spec_perf_check() == old(
                self,
            ).spec_engine().spec_perf_check(),
            is_edit(
                old(self).grid(),
                final(self).grid(),
                x as int,
                y as int,
                old(self).spec_renderer().pixel_size as int,
                TileUpdateOperation::Purge,
            ),
    {
        self.update_tile(x, y, &TileUpdateOperation::Purge);
    }

    /// Clears the rock that the brush touches.
    pub fn erase_tile(&mut self, x: usize, y: usize)
        requires
            old(self).wf(),
        ensures
            final(self).wf(),
            final(self).spec_renderer() == old(self).spec_renderer(),
            final(self).spec_config() == old(self).spec_config(),
            final(self).spec_engine().spec_blobs() == old(self).spec_engine().spec_blobs(),
            final(self).spec_engine().spec_perf_check() == old(
                self,
            ).spec_engine().spec_perf_check(),
            is_edit(
                old(self).grid(),
                final(self).grid(),
                x as int,
                y as int,
                old(self).spec_renderer().pixel_size as int,
                TileUpdateOperation::Erase,
            ),
    {
        self.update_tile(x, y, &TileUpdateOperation::Erase);
    }

    /// Paints the chosen tile where the brush touches.
    pub fn draw_tile(&mut self, x: usize, y: usize)
        requires
            old(self).wf(),
        ensures
            final(self).wf(),
            final(self).spec_renderer() == old(self).spec_renderer(),
            final(self).spec_config() == old(self).spec_config(),
            final(self).spec_engine().spec_blobs() == old(self).spec_engine().spec_blobs(),
            final(self).spec_engine().spec_perf_check() == old(
                self,
            ).spec_engine().spec_perf_check(),
            is_edit(
                old(self).grid(),
                final(self).grid(),
                x as int,
                y as int,
                old(self).spec_renderer().pixel_size as int,
                TileUpdateOperation::Paint(old(self).spec_renderer().tile_to_draw),
            ),
    {
        let op = TileUpdateOperation::Paint(self.renderer.tile_to_draw);
        self.update_tile(x, y, &op);
    }

    /// Advances the simulation by one tick of the engine: the droplets of
    /// every blob move, buoyancy follows where none of a blob sank, and the
    /// blobs are found anew. Says whether the game is to end.
    pub fn update(&mut self) -> (quit: bool)
        requires
            old(self).wf(),
        ensures
            final(self).wf(),
            final(self).spec_renderer() == old(self).spec_renderer(),
            final(self).spec_config() == old(self).spec_config(),
            final(self).spec_engine().spec_board().spec_pixel_size() == old(
                self,
            ).spec_engine().spec_board().spec_pixel_size(),
            crate::grid::same_matter(old(self).grid(), final(self).grid()),
            exists|handles: Seq<usize>| #[trigger]
                crate::engine::handles_in_order(old(self).spec_engine().spec_blobs(), handles)
                    && crate::engine::is_tick_outcome(
                    old(self).grid(),
                    crate::engine::blob_listing(old(self).spec_engine().spec_blobs(), handles),
                    final(self).grid(),
                ),
            crate::components::is_component_partition(
                final(self).grid(),
                crate::blobs::blob_sets(final(self).spec_engine().spec_blobs()),
            ),
            final(self).spec_engine().spec_perf_check() == crate::engine::samples_left(
                old(self).spec_engine().spec_perf_check(),
            ),
            quit == (final(self).spec_engine().spec_perf_check() == Some(0usize)),
    {
        self.engine.tick()
    }

    /// A mouse button went down at the pixel `(x, y)`: the tool of the
    /// button is taken up and used there.
    pub fn mouse_button_down_event(&mut self, button: MouseButton, x: usize, y: usize)
        requires
            old(self).wf(),
        ensures
            final(self).wf(),
            final(self).spec_renderer() == pressed(old(self).spec_renderer(), button, true),
            final(self).spec_config() == old(self).spec_config(),
            final(self).spec_engine().spec_blobs() == old(self).spec_engine().spec_blobs(),
            final(self).spec_engine().spec_perf_check() == old(
                self,
            ).spec_engine().spec_perf_check(),
            match tool_of(button, old(self).spec_renderer().tile_to_draw) {
                Some(op) => is_edit(
                    old(self).grid(),
                    final(self).grid(),
                    x as int,
                    y as int,
                    old(self).spec_renderer().pixel_size as int,
                    op,
                ),
                None => final(self).grid() == old(self).grid(),
            },
    {
        match button {
            MouseButton::Left => {
                self.renderer.left_button_down = true;
                self.draw_tile(x, y);
            },
            MouseButton::Right => {
                self.renderer.right_button_down = true;
                self.erase_tile(x, y);
            },
            MouseButton::Middle => {
                self.renderer.middle_button_down = true;
                self.purge_tile(x, y);
            },
            MouseButton::Other => (),
        }
    }

    /// A mouse button went up: its tool is put down.
    pub fn mouse_button_up_event(&mut self, button: MouseButton)
        ensures
            final(self).spec_renderer() == pressed(old(self).spec_renderer(), button, false),
            final(self).spec_engine() == old(self).spec_engine(),
            final(self).spec_config() == old(self).spec_config(),
    {
        match button {
            MouseButton::Left => self.renderer.left_button_down = false,
            MouseButton::Right => self.renderer.right_button_down = false,
            MouseButton::Middle => self.renderer.middle_button_down = false,
            MouseButton::Other => (),
        }
    }

    /// The mouse moved to the pixel `(x, y)`: where exactly one button is
    /// held down, its tool is used there.
    pub fn mouse_motion_event(&mut self, x: usize, y: usize)
        requires
            old(self).wf(),
        ensures
            final(self).wf(),
            final(self).spec_renderer() == old(self).spec_renderer(),
            final(self).spec_config() == old(self).spec_config(),
            final(self).spec_engine().spec_blobs() == old(self).spec_engine().spec_blobs(),
            final(self).spec_engine().spec_perf_check() == old(
                self,
            ).spec_engine().spec_perf_check(),
            match tool_in_hand(old(self).spec_renderer()) {
                Some(op) => is_edit(
                    old(self).grid(),
                    final(self).grid(),
                    x as int,
                    y as int,
                    old(self).spec_renderer().pixel_size as int,
                    op,
                ),
                None => final(self).grid() == old(self).grid(),
            },
    {
        let left = self.renderer.left_button_down;
        let middle = self.renderer.middle_button_down;
        let right = self.renderer.right_button_down;
        if left && !middle && !right {
            self.draw_tile(x, y);
        } else if !left && middle && !right {
            self.purge_tile(x, y);
        } else if !left && !middle && right {
            self.erase_tile(x, y);
        }
    }

    /// A key went up: the first key chooses rock to paint with, the second
    /// water.
    pub fn key_up_event(&mut self, keycode: Option<KeyCode>)
        ensures
            final(self).spec_engine() == old(self).spec_engine(),
            final(self).spec_config() == old(self).spec_config(),
            final(self).spec_renderer() == (Renderer {
                tile_to_draw: match keycode {
                    Some(KeyCode::Key1) => Tile::Rock,
                    Some(KeyCode::Key2) => Tile::Water,
                    _ => old(self).spec_renderer().tile_to_draw,
                },
                ..old(self).spec_renderer()
            }),
    {
        match keycode {
            Some(KeyCode::Key1) => self.renderer.tile_to_draw = Tile::Rock,
            Some(KeyCode::Key2) => self.renderer.tile_to_draw = Tile::Water,
            _ => (),
        }
    }

    /// Before the first pixel no cell is touched.
    proof fn lemma_untouched(
        g: Grid,
        a: int,
        b: int,
        px: int,
        py: int,
        ps: int,
        op: TileUpdateOperation,
    )
        requires
            a <= px - BRUSH_REACH || a <= 0,
            b <= py - BRUSH_REACH || b <= 0,
        ensures
            forall|cx: int, cy: int| #[trigger]
                g.tile(cx, cy) == partly_edited_tile(g, cx, cy, a, b, px, py, ps, op),
    {
        assert forall|cx: int, cy: int| !touched(cx, cy, a, b, px, py, ps) by {
            assert forall|i: int, j: int| !(#[trigger] worked_off(i, j, a, b, px, py)) by {}
        }
    }

    /// Working off the pixel `(a, b)` edits the cell under it as the whole
    /// edit would.
    proof fn lemma_one_more_pixel(
        g: Grid,
        now: Grid,
        next: Grid,
        a: int,
        b: int,
        px: int,
        py: int,
        ps: int,
        op: TileUpdateOperation,
    )
        requires
            g.wf(),
            now.wf(),
            ps > 0,
            under_brush(a, px),
            under_brush(b, py),
            now.width == g.width,
            now.height == g.height,
            forall|cx: int, cy: int| #[trigger]
                now.tile(cx, cy) == partly_edited_tile(g, cx, cy, a, b, px, py, ps, op),
            next == if off_border(a / ps, b / ps, now.width as int, now.height as int)
                && TileUpdateRule::allows(now.tile(a / ps, b / ps), op) {
                now.with_tile(a / ps, b / ps, op.spec_target())
            } else {
                now
            },
        ensures
            next.width == g.width,
            next.height == g.height,
            forall|cx: int, cy: int| #[trigger]
                next.tile(cx, cy) == partly_edited_tile(g, cx, cy, a, b + 1, px, py, ps, op),
    {
        lemma_with_tile(now, a / ps, b / ps, op.spec_target());
        assert(worked_off(a, b, a, b + 1, px, py));
        assert forall|cx: int, cy: int| #[trigger]
            next.tile(cx, cy) == partly_edited_tile(g, cx, cy, a, b + 1, px, py, ps, op) by {
            let before = touched(cx, cy, a, b, px, py, ps);
            let after = touched(cx, cy, a, b + 1, px, py, ps);
            if before {
                let (i, j) = choose|i: int, j: int| #[trigger]
                    worked_off(i, j, a, b, px, py) && i / ps == cx && j / ps == cy;
                assert(worked_off(i, j, a, b + 1, px, py));
            }
            if after && !(cx == a / ps && cy == b / ps) {
                let (i, j) = choose|i: int, j: int| #[trigger]
                    worked_off(i, j, a, b + 1, px, py) && i / ps == cx && j / ps == cy;
                assert(worked_off(i, j, a, b, px, py));
            }
        }
    }

    /// A column of pixels that is worked off to its end is worked off.
    proof fn lemma_next_column(
        g: Grid,
        now: Grid,
        a: int,
        lo: int,
        hi: int,
        px: int,
        py: int,
        ps: int,
        op: TileUpdateOperation,
    )
        requires
            lo <= py - BRUSH_REACH || lo <= 0,
            hi >= py + BRUSH_REACH || hi >= usize::MAX,
            forall|cx: int, cy: int| #[trigger]
                now.tile(cx, cy) == partly_edited_tile(g, cx, cy, a, hi, px, py, ps, op),
        ensures
            forall|cx: int, cy: int| #[trigger]
                now.tile(cx, cy) == partly_edited_tile(g, cx, cy, a + 1, lo, px, py, ps, op),
    {
        assert forall|cx: int, cy: int| #[trigger]
            now.tile(cx, cy) == partly_edited_tile(g, cx, cy, a + 1, lo, px, py, ps, op) by {
            let before = touched(cx, cy, a, hi, px, py, ps);
            let after = touched(cx, cy, a + 1, lo, px, py, ps);
            if before {
                let (i, j) = choose|i: int, j: int| #[trigger]
                    worked_off(i, j, a, hi, px, py) && i / ps == cx && j / ps == cy;
                assert(worked_off(i, j, a + 1, lo, px, py));
            }
            if after {
                let (i, j) = choose|i: int, j: int| #[trigger]
                    worked_off(i, j, a + 1, lo, px, py) && i / ps == cx && j / ps == cy;
                assert(worked_off(i, j, a, hi, px, py));
            }
        }
    }

    /// Once every column is worked off, the brush has touched what it touches.
    proof fn lemma_all_touched(
        g: Grid,
        now: Grid,
        a: int,
        lo: int,
        px: int,
        py: int,
        ps: int,
        op: TileUpdateOperation,
    )
        requires
            a >= px + BRUSH_REACH || a >= usize::MAX,
            forall|cx: int, cy: int| #[trigger]
                now.tile(cx, cy) == partly_edited_tile(g, cx, cy, a, lo, px, py, ps, op),
        ensures
            forall|cx: int, cy: int| #[trigger]
                now.tile(cx, cy) == edited_tile(g, cx, cy, px, py, ps, op),
    {
        assert forall|cx: int, cy: int| #[trigger]
            now.tile(cx, cy) == edited_tile(g, cx, cy, px, py, ps, op) by {
            if touched(cx, cy, a, lo, px, py, ps) {
                let (i, j) = choose|i: int, j: int| #[trigger]
                    worked_off(i, j, a, lo, px, py) && i / ps == cx && j / ps == cy;
            }
            if brushed(cx, cy, px, py, ps) {
                let (i, j) = choose|i: int, j: int|
                    #![trigger under_brush(i, px), under_brush(j, py)]
                    under_brush(i, px) && under_brush(j, py) && i / ps == cx && j / ps == cy;
                assert(worked_off(i, j, a, lo, px, py));
            }
        }
    }
}

} // verus!
