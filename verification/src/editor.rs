//! The editing session: configuration, the mode state machine, cursor and
//! viewport movement, and command parsing.
//!
//! The editor owns a sheet, a cursor, and the viewport corner. It takes
//! already-decoded inputs — a key, a command string, the text a line
//! editor returned — and computes the next state; reading keys, drawing,
//! and file handling stay with the caller.

use vstd::prelude::*;
use vstd::string::StrSliceExecFns;

use crate::sheet::Sheet;
use crate::sheet::edited;
use crate::sheet::loads;
use crate::sheet::lemma_accum_strict;
use crate::util::is_in_offset_bounds;

verus! {

/// Construction-time configuration of a sheet.
pub struct Config {
    /// Terminal columns per tab-stop unit. Must be at least 1.
    pub tab_size: usize,
}

impl Config {
    /// The default configuration: eight terminal columns per tab stop.
    pub fn new() -> (c: Config)
        ensures
            c.tab_size == 8,
    {
        Config { tab_size: 8 }
    }
}

impl Default for Config {
    fn default() -> (c: Config)
        ensures
            c.tab_size == 8,
    {
        Config::new()
    }
}

/// The editor's mode. `Navigate` moves the cursor; `Edit` captures a
/// cell's replacement text; `Command` captures a command; `Quit` ends the
/// session.
#[derive(Clone, Copy, PartialEq, Eq, Structural, Debug)]
pub enum Mode {
    Navigate,
    Edit,
    Command,
    Quit,
}

/// A decoded key, as the navigate mode understands it. Anything else is
/// `Other`, a documented no-op.
#[derive(Clone, Copy, PartialEq, Eq, Structural, Debug)]
pub enum Key {
    Up,
    Down,
    Left,
    Right,
    PageUp,
    PageDown,
    BeginEdit,
    BeginCommand,
    Escape,
    Other,
}

/// `v + d` clamped into `[0, hi]`.
pub open spec fn clamp_add(v: int, d: int, hi: int) -> int {
    if v + d < 0 {
        0
    } else if v + d > hi {
        hi
    } else {
        v + d
    }
}

/// Whether `v` lies in the half-open window `[lbd, lbd + ofs)`.
pub open spec fn in_window(v: int, lbd: int, ofs: int) -> bool {
    lbd <= v < lbd + ofs
}

/// Cursor and corner after a move by `(dx, dy)` on sheet `s` under a
/// terminal of `view` cells: the cursor is clamped into the grid; then,
/// per axis, if the cursor's tab-stop offset (for columns) or row index
/// falls outside the viewport window, the corner follows by the same
/// delta, clamped between zero and the cursor.
pub open spec fn moved_state(
    s: Sheet,
    pos: (int, int),
    corner: (int, int),
    dx: int,
    dy: int,
    view: (int, int),
) -> ((int, int), (int, int)) {
    let np0 = clamp_add(pos.0, dx, s.size.0 - 1);
    let np1 = clamp_add(pos.1, dy, s.size.1 - 1);
    let colext = (view.0 - 1) / (s.tab_size as int);
    let rowext = view.1 - 1;
    let nc0 = if in_window(
        s.accum_widths@[np0] as int,
        s.accum_widths@[corner.0] as int,
        colext,
    ) {
        corner.0
    } else {
        clamp_add(corner.0, dx, np0)
    };
    let nc1 = if in_window(np1, corner.1, rowext) {
        corner.1
    } else {
        clamp_add(corner.1, dy, np1)
    };
    ((np0, np1), (nc0, nc1))
}

/// The cursor and corner deltas a key asks for, if it is a movement key.
/// Page movement covers one viewport of rows.
pub open spec fn key_delta(key: Key, view: (int, int)) -> Option<(int, int)> {
    match key {
        Key::Up => Some((0int, -1int)),
        Key::Down => Some((0int, 1int)),
        Key::Left => Some((-1int, 0int)),
        Key::Right => Some((1int, 0int)),
        Key::PageDown => Some((0int, view.1 - 1)),
        Key::PageUp => Some((0int, 1 - view.1)),
        _ => None,
    }
}

/// An editing session over one sheet.
pub struct Editor {
    pub mode: Mode,
    pub file_path: Option<String>,
    pub sheet: Sheet,
    /// Cursor position, zero-indexed, as (column, row).
    pub pos: (usize, usize),
    /// Top-left corner of the viewport, zero-indexed, as (column, row).
    pub corner: (usize, usize),
}

impl Editor {
    /// The session invariant: a well-formed sheet, the cursor inside the
    /// grid, and the corner at or before the cursor on both axes.
    pub open spec fn wf(self) -> bool {
        &&& self.sheet.wf()
        &&& (self.pos.0 as int) < self.sheet.size.0
        &&& (self.pos.1 as int) < self.sheet.size.1
        &&& self.corner.0 <= self.pos.0
        &&& self.corner.1 <= self.pos.1
    }

    /// A session in navigate mode over the given text, or over a fresh
    /// sheet when there is none, with the cursor and corner at the origin.
    pub fn new(config: Config, file_path: Option<String>, text: Option<&str>) -> (e: Editor)
        requires
            config.tab_size >= 1,
        ensures
            e.wf(),
            e.mode == Mode::Navigate,
            e.pos == (0usize, 0usize),
            e.corner == (0usize, 0usize),
            e.file_path == file_path,
            match text {
                Some(t) => loads(e.sheet, t@, config.tab_size as int),
                None => e.sheet.size == (1usize, 1usize) && e.sheet.units@.len() == 0
                    && e.sheet.tab_size == config.tab_size && e.sheet.wf(),
            },
    {
        let sheet = match text {
            Some(t) => Sheet::from_str(t, config),
            None => Sheet::from(config),
        };
        Editor { mode: Mode::Navigate, file_path, sheet, pos: (0, 0), corner: (0, 0) }
    }

    /// Moves the cursor by `(dx, dy)`, clamped into the grid, and scrolls
    /// the corner after it when the cursor leaves the viewport window.
    /// The cursor always ends inside `[0, size)` on both axes.
    pub fn move_pos_by(&mut self, dx: isize, dy: isize, view: (usize, usize))
        requires
            old(self).wf(),
            view.0 >= 1,
            view.1 >= 1,
        ensures
            final(self).wf(),
            final(self).mode == old(self).mode,
            final(self).file_path == old(self).file_path,
            final(self).sheet == old(self).sheet,
            (final(self).pos.0 as int) < final(self).sheet.size.0,
            (final(self).pos.1 as int) < final(self).sheet.size.1,
            ({
                let m = moved_state(
                    old(self).sheet,
                    (old(self).pos.0 as int, old(self).pos.1 as int),
                    (old(self).corner.0 as int, old(self).corner.1 as int),
                    dx as int,
                    dy as int,
                    (view.0 as int, view.1 as int),
                );
                (final(self).pos.0 as int, final(self).pos.1 as int) == m.0 && (
                final(self).corner.0 as int,
                final(self).corner.1 as int,
                ) == m.1
            }),
    {
        let np0 = clamp_add_to(self.pos.0, dx, self.sheet.size.0 - 1);
        let np1 = clamp_add_to(self.pos.1, dy, self.sheet.size.1 - 1);
        self.pos = (np0, np1);
        let colext = (view.0 - 1) / self.sheet.tab_size;
        if !is_in_offset_bounds(
            self.sheet.accum_widths[np0],
            self.sheet.accum_widths[self.corner.0],
            colext,
        ) {
            self.corner = (clamp_add_to(self.corner.0, dx, np0), self.corner.1);
        } else {
            proof {
                if self.corner.0 > np0 {
                    lemma_accum_strict(self.sheet, np0 as int, self.corner.0 as int);
                }
            }
        }
        if !is_in_offset_bounds(np1, self.corner.1, view.1 - 1) {
            self.corner = (self.corner.0, clamp_add_to(self.corner.1, dy, np1));
        }
    }

    /// Applies a key in navigate mode: arrows and page keys move the
    /// cursor; the command, escape, and edit keys switch the mode; any
    /// other key is a no-op.
    pub fn navigate_key(&mut self, key: Key, view: (usize, usize))
        requires
            old(self).wf(),
            old(self).mode == Mode::Navigate,
            view.0 >= 1,
            1 <= view.1 <= 32768,
        ensures
            final(self).wf(),
            final(self).file_path == old(self).file_path,
            final(self).sheet == old(self).sheet,
            ({
                let d = key_delta(key, (view.0 as int, view.1 as int));
                match d {
                    Some(dd) => final(self).mode == Mode::Navigate && ({
                        let m = moved_state(
                            old(self).sheet,
                            (old(self).pos.0 as int, old(self).pos.1 as int),
                            (old(self).corner.0 as int, old(self).corner.1 as int),
                            dd.0,
                            dd.1,
                            (view.0 as int, view.1 as int),
                        );
                        (final(self).pos.0 as int, final(self).pos.1 as int) == m.0 && (
                        final(self).corner.0 as int,
                        final(self).corner.1 as int,
                        ) == m.1
                    }),
                    None => final(self).pos == old(self).pos && final(self).corner == old(
                        self,
                    ).corner && final(self).mode == (match key {
                        Key::BeginEdit => Mode::Edit,
                        Key::BeginCommand => Mode::Command,
                        Key::Escape => Mode::Quit,
                        _ => Mode::Navigate,
                    }),
                }
            }),
    {
        match key {
            Key::Up => self.move_pos_by(0, -1, view),
            Key::Down => self.move_pos_by(0, 1, view),
            Key::Left => self.move_pos_by(-1, 0, view),
            Key::Right => self.move_pos_by(1, 0, view),
            Key::PageDown => {
                let page = (view.1 - 1) as isize;
                self.move_pos_by(0, page, view);
            },
            Key::PageUp => {
                let page = (view.1 - 1) as isize;
                self.move_pos_by(0, -page, view);
            },
            Key::BeginEdit => {
                self.mode = Mode::Edit;
            },
            Key::BeginCommand => {
                self.mode = Mode::Command;
            },
            Key::Escape => {
                self.mode = Mode::Quit;
            },
            Key::Other => {
            },
        }
    }

    /// Commits the text a line editor returned for the cell under the
    /// cursor, re-clamps the cursor and corner into the possibly smaller
    /// grid, and returns to navigate mode.
    pub fn edit(&mut self, buf: &str)
        requires
            old(self).wf(),
        ensures
            final(self).wf(),
            final(self).mode == Mode::Navigate,
            final(self).file_path == old(self).file_path,
            edited(old(self).sheet, final(self).sheet, old(self).pos, buf@),
            final(self).pos.0 as int == vstd::math::min(
                old(self).pos.0 as int,
                final(self).sheet.size.0 - 1,
            ),
            final(self).pos.1 as int == vstd::math::min(
                old(self).pos.1 as int,
                final(self).sheet.size.1 - 1,
            ),
            final(self).corner.0 as int == vstd::math::min(
                old(self).corner.0 as int,
                final(self).pos.0 as int,
            ),
            final(self).corner.1 as int == vstd::math::min(
                old(self).corner.1 as int,
                final(self).pos.1 as int,
            ),
    {
        let p = self.pos;
        self.sheet.edit(p, buf);
        let sz = self.sheet.size();
        let np0: usize = if self.pos.0 >= sz.0 {
            sz.0 - 1
        } else {
            self.pos.0
        };
        let np1: usize = if self.pos.1 >= sz.1 {
            sz.1 - 1
        } else {
            self.pos.1
        };
        self.pos = (np0, np1);
        let nc0: usize = if self.corner.0 > np0 {
            np0
        } else {
            self.corner.0
        };
        let nc1: usize = if self.corner.1 > np1 {
            np1
        } else {
            self.corner.1
        };
        self.corner = (nc0, nc1);
        self.mode = Mode::Navigate;
    }

    /// Parses a command: `w` asks for a save and returns to navigate
    /// mode, `q` quits, and anything else returns to navigate mode with
    /// no effect. Returns whether the caller should save.
    pub fn parse_command(&mut self, cmd: &str) -> (save: bool)
        requires
            old(self).wf(),
            old(self).mode == Mode::Command,
        ensures
            final(self).wf(),
            final(self).sheet == old(self).sheet,
            final(self).file_path == old(self).file_path,
            final(self).pos == old(self).pos,
            final(self).corner == old(self).corner,
            cmd@.len() == 1 && cmd@[0] == 'w' ==> save && final(self).mode == Mode::Navigate,
            cmd@.len() == 1 && cmd@[0] == 'q' ==> !save && final(self).mode == Mode::Quit,
            !(cmd@.len() == 1 && (cmd@[0] == 'w' || cmd@[0] == 'q')) ==> !save && final(self).mode
                == Mode::Navigate,
    {
        let n = cmd.unicode_len();
        if n == 1 {
            let c = cmd.get_char(0);
            if c == 'w' {
                self.mode = Mode::Navigate;
                return true;
            }
            if c == 'q' {
                self.mode = Mode::Quit;
                return false;
            }
        }
        self.mode = Mode::Navigate;
        false
    }
}

/// One down-move of (cursor row, corner row) on a grid of `n` rows with a
/// viewport window of `e` rows: the row components of `moved_state` for a
/// move by `(0, 1)`.
pub open spec fn down_step(st: (int, int), n: int, e: int) -> (int, int) {
    let np = clamp_add(st.0, 1, n - 1);
    let nc = if in_window(np, st.1, e) {
        st.1
    } else {
        clamp_add(st.1, 1, np)
    };
    (np, nc)
}

/// Cursor and corner rows after `k` down-moves from the origin.
pub open spec fn downs(k: nat, n: int, e: int) -> (int, int)
    decreases k,
{
    if k == 0 {
        (0, 0)
    } else {
        down_step(downs((k - 1) as nat, n, e), n, e)
    }
}

/// A move by `(0, 1)` leaves the column axis alone and steps the row axis
/// by `down_step`, with the viewport window of `view.1 - 1` rows.
pub proof fn lemma_move_down_is_down_step(
    s: Sheet,
    pos: (int, int),
    corner: (int, int),
    view: (int, int),
)
    requires
        s.wf(),
        0 <= corner.0 <= pos.0 < s.size.0,
        0 <= corner.1 <= pos.1 < s.size.1,
    ensures
        ({
            let m = moved_state(s, pos, corner, 0, 1, view);
            let d = down_step((pos.1, corner.1), s.size.1 as int, view.1 - 1);
            m.0 == (pos.0, d.0) && m.1 == (corner.0, d.1)
        }),
{
    let np0 = clamp_add(pos.0, 0, s.size.0 - 1);
    assert(np0 == pos.0);
    assert(clamp_add(corner.0, 0, np0) == corner.0);
}

/// The scrolling law: scrolling is edge-triggered and follows the cursor
/// by the overflow amount, never recentering. After `k` down-moves from
/// the origin on a grid of `n` rows with a viewport window of `e` rows,
/// the cursor row is `min(k, n - 1)` and the corner row is
/// `max(0, min(k, n - 1) - e + 1)`.
pub proof fn lemma_scroll_down(k: nat, n: int, e: int)
    requires
        n >= 1,
        e >= 1,
    ensures
        downs(k, n, e).0 == vstd::math::min(k as int, n - 1),
        downs(k, n, e).1 == vstd::math::max(0, vstd::math::min(k as int, n - 1) - e + 1),
    decreases k,
{
    if k > 0 {
        lemma_scroll_down((k - 1) as nat, n, e);
    }
}

/// With a viewport window of `e` rows, a cursor starting at row zero of an
/// `e + 1`-row grid, and `e + 1` down-moves, the corner ends at row one
/// exactly.
pub proof fn lemma_scroll_down_one_page(e: int)
    requires
        e >= 1,
    ensures
        downs((e + 1) as nat, e + 1, e).1 == 1,
        downs((e + 1) as nat, e + 1, e).0 == e,
{
    lemma_scroll_down((e + 1) as nat, e + 1, e);
}

/// `v + d` clamped into `[0, hi]`.
fn clamp_add_to(v: usize, d: isize, hi: usize) -> (r: usize)
    ensures
        r as int == clamp_add(v as int, d as int, hi as int),
{
    if d >= 0 {
        let du = d as usize;
        match v.checked_add(du) {
            Some(t) => if t > hi {
                hi
            } else {
                t
            },
            None => hi,
        }
    } else {
        let du: usize = if d == isize::MIN {
            (isize::MAX as usize) + 1
        } else {
            (-d) as usize
        };
        let t: usize = if v > du {
            v - du
        } else {
            0
        };
        if t > hi {
            hi
        } else {
            t
        }
    }
}

} // verus!
