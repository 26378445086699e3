//! The playfield: a fixed matrix of bytes, and the program text it is read from.

use vstd::prelude::*;
use crate::error::Error;
use crate::pc::{Position, GRID_HEIGHT, GRID_WIDTH};

verus! {

/// Number of cells of the playfield.
pub const GRID_CELLS: usize = 2000;

/// Whether a character is ASCII.
pub open spec fn is_ascii_char(c: char) -> bool {
    (c as u32) < 128
}

/// A line without the carriage return that ends it, if any.
pub open spec fn strip_cr(l: Seq<char>) -> Seq<char> {
    if l.len() > 0 && l.last() == '\r' {
        l.drop_last()
    } else {
        l
    }
}

/// The lines completed so far and the line under way, after reading `s`.
pub open spec fn split_state(s: Seq<char>) -> (Seq<Seq<char>>, Seq<char>)
    decreases s.len(),
{
    if s.len() == 0 {
        (Seq::empty(), Seq::empty())
    } else {
        let (done, cur) = split_state(s.drop_last());
        if s.last() == '\n' {
            (done.push(strip_cr(cur)), Seq::empty())
        } else {
            (done, cur.push(s.last()))
        }
    }
}

/// The lines of a text: split at line feeds, a carriage return before a
/// line feed dropped, and no empty line after a final line feed.
pub open spec fn text_lines(s: Seq<char>) -> Seq<Seq<char>> {
    let (done, cur) = split_state(s);
    if cur.len() == 0 {
        done
    } else {
        done.push(cur)
    }
}

/// Length of the longest line.
pub open spec fn max_width(lines: Seq<Seq<char>>) -> nat
    decreases lines.len(),
{
    if lines.len() == 0 {
        0
    } else {
        let w = max_width(lines.drop_last());
        if lines.last().len() > w {
            lines.last().len()
        } else {
            w
        }
    }
}

/// Whether the lines fit on the playfield.
pub open spec fn fits(lines: Seq<Seq<char>>) -> bool {
    lines.len() <= GRID_HEIGHT && forall|i: int| 0 <= i < lines.len() ==> #[trigger] lines[i].len() <= GRID_WIDTH
}

/// The playfield holding the lines, each padded with spaces on the right,
/// and rows of spaces below them.
pub open spec fn grid_of_lines(lines: Seq<Seq<char>>) -> Seq<u8> {
    Seq::new(
        GRID_CELLS as nat,
        |k: int|
            {
                let y = k / GRID_WIDTH as int;
                let x = k % GRID_WIDTH as int;
                if y < lines.len() && x < lines[y].len() {
                    (lines[y][x] as u32) as u8
                } else {
                    32u8
                }
            },
    )
}

/// A row of the playfield as a sequence of bytes.
pub open spec fn row(cells: Seq<u8>, y: int) -> Seq<u8> {
    cells.subrange(y * GRID_WIDTH as int, (y + 1) * GRID_WIDTH as int)
}

/// The first non-ASCII character of `s` is at index `i`.
pub open spec fn first_non_ascii_at(s: Seq<char>, i: int) -> bool {
    0 <= i < s.len() && !is_ascii_char(s[i]) && forall|j: int| 0 <= j < i ==> is_ascii_char(#[trigger] s[j])
}

/// Splits a text into its lines, failing at its first non-ASCII character.
pub fn split_lines(text: &str) -> (r: Result<Vec<Vec<char>>, Error>)
    ensures
        match r {
            Ok(lines) => {
                &&& forall|i: int| 0 <= i < text@.len() ==> is_ascii_char(#[trigger] text@[i])
                &&& lines@.len() == text_lines(text@).len()
                &&& forall|i: int| 0 <= i < lines@.len() ==> #[trigger] lines@[i]@ == text_lines(text@)[i]
            },
            Err(e) => exists|i: int| first_non_ascii_at(text@, i) && e == Error::NonAscii(text@[i] as u32 as i64),
        },
{
    let mut done: Vec<Vec<char>> = Vec::new();
    let mut cur: Vec<char> = Vec::new();
    let ghost s = text@;
    for c in it: text.chars()
        invariant
            it.seq() == s,
            s == text@,
            forall|j: int| 0 <= j < it.index() ==> is_ascii_char(#[trigger] s[j]),
            done@.len() == split_state(s.take(it.index() as int)).0.len(),
            forall|j: int| 0 <= j < done@.len() ==> #[trigger] done@[j]@ == split_state(s.take(it.index() as int)).0[j],
            cur@ == split_state(s.take(it.index() as int)).1,
    {
        proof {
            assert(s.take(it.index() + 1).drop_last() =~= s.take(it.index() as int));
        }
        if (c as u32) >= 128 {
            let e = Error::NonAscii(c as u32 as i64);
            assert(first_non_ascii_at(s, it.index() as int) && e == Error::NonAscii(s[it.index() as int] as u32 as i64));
            return Err(e);
        }
        if c == '\n' {
            if cur.len() > 0 && cur[cur.len() - 1] == '\r' {
                cur.pop();
            }
            done.push(cur);
            cur = Vec::new();
        } else {
            cur.push(c);
        }
    }
    proof {
        assert(s.take(s.len() as int) =~= s);
    }
    if cur.len() > 0 {
        done.push(cur);
    }
    Ok(done)
}

} // verus!

verus! {

/// A byte read as a signed 8-bit integer.
pub open spec fn signed_byte(b: u8) -> i64 {
    if b < 128 {
        b as i64
    } else {
        (b as int - 256) as i64
    }
}

/// A byte read as a signed 8-bit integer, widened.
pub fn signed_byte_value(b: u8) -> (r: i64)
    ensures
        r == signed_byte(b),
{
    if b < 128 {
        b as i64
    } else {
        b as i64 - 256
    }
}

/// Whether `(x, y)` names a cell of the playfield.
pub open spec fn in_bounds(x: int, y: int) -> bool {
    0 <= x < GRID_WIDTH && 0 <= y < GRID_HEIGHT
}

/// What `g` yields at `(x, y)`: the cell as a signed byte, or 0 off the playfield.
pub open spec fn cell_value(cells: Seq<u8>, x: int, y: int) -> i64 {
    if in_bounds(x, y) {
        signed_byte(cells[y * GRID_WIDTH + x])
    } else {
        0
    }
}

/// The byte that stores `v`: `v` modulo 256.
pub open spec fn byte_of(v: int) -> u8 {
    (v % 256) as u8
}

/// The cells after `p` stores `v` at `(x, y)`: unchanged off the playfield.
pub open spec fn stored(cells: Seq<u8>, x: int, y: int, v: int) -> Seq<u8> {
    if in_bounds(x, y) {
        cells.update(y * GRID_WIDTH + x, byte_of(v))
    } else {
        cells
    }
}

/// Whether all characters of `s` are ASCII.
pub open spec fn all_ascii(s: Seq<char>) -> bool {
    forall|i: int| 0 <= i < s.len() ==> is_ascii_char(#[trigger] s[i])
}

/// Index of the first non-ASCII character, for a text that has one.
pub open spec fn first_non_ascii(s: Seq<char>) -> int {
    choose|i: int| first_non_ascii_at(s, i)
}

/// What reading program text `s` gives: the playfield, or the first
/// failure: a non-ASCII character, else a text too wide or too tall.
pub open spec fn parse_spec(s: Seq<char>) -> Result<Seq<u8>, Error> {
    if !all_ascii(s) {
        Err(Error::NonAscii(s[first_non_ascii(s)] as u32 as i64))
    } else if !fits(text_lines(s)) {
        Err(Error::InvalidGridSize(max_width(text_lines(s)) as usize, text_lines(s).len() as usize))
    } else {
        Ok(grid_of_lines(text_lines(s)))
    }
}

/// The 80 x 25 playfield, in row-major order.
pub struct Grid {
    cells: Vec<u8>,
}

impl View for Grid {
    type V = Seq<u8>;

    closed spec fn view(&self) -> Seq<u8> {
        self.cells@
    }
}

/// Whether every character of every line is ASCII.
pub open spec fn lines_ascii(lines: Seq<Seq<char>>) -> bool {
    forall|y: int, x: int| 0 <= y < lines.len() && 0 <= x < lines[y].len() ==> is_ascii_char(#[trigger] lines[y][x])
}

pub(crate) proof fn lemma_split_ascii(s: Seq<char>)
    requires
        all_ascii(s),
    ensures
        lines_ascii(split_state(s).0),
        all_ascii(split_state(s).1),
        lines_ascii(text_lines(s)),
    decreases s.len(),
{
    if s.len() > 0 {
        let init = s.drop_last();
        assert(all_ascii(init)) by {
            assert forall|i: int| 0 <= i < init.len() implies is_ascii_char(#[trigger] init[i]) by {
                assert(init[i] == s[i]);
            }
        }
        lemma_split_ascii(init);
        let (done, cur) = split_state(init);
        if s.last() == '\n' {
            let l = strip_cr(cur);
            assert(all_ascii(l)) by {
                assert forall|i: int| 0 <= i < l.len() implies is_ascii_char(#[trigger] l[i]) by {
                    assert(l[i] == cur[i]);
                }
            }
            let nd = done.push(l);
            assert forall|y: int, x: int| 0 <= y < nd.len() && 0 <= x < nd[y].len() implies is_ascii_char(#[trigger] nd[y][x]) by {
                if y < done.len() {
                    assert(nd[y] == done[y]);
                }
            }
        } else {
            let nc = cur.push(s.last());
            assert(is_ascii_char(s[s.len() - 1]));
            assert forall|i: int| 0 <= i < nc.len() implies is_ascii_char(#[trigger] nc[i]) by {
                if i < cur.len() {
                    assert(nc[i] == cur[i]);
                }
            }
        }
    }
    let (done, cur) = split_state(s);
    if cur.len() > 0 {
        let nd = done.push(cur);
        assert forall|y: int, x: int| 0 <= y < nd.len() && 0 <= x < nd[y].len() implies is_ascii_char(#[trigger] nd[y][x]) by {
            if y < done.len() {
                assert(nd[y] == done[y]);
            }
        }
    }
}

pub(crate) proof fn lemma_max_width(lines: Seq<Seq<char>>)
    ensures
        forall|i: int| 0 <= i < lines.len() ==> #[trigger] lines[i].len() <= max_width(lines),
        lines.len() > 0 ==> exists|i: int| 0 <= i < lines.len() && #[trigger] lines[i].len() == max_width(lines),
    decreases lines.len(),
{
    if lines.len() > 0 {
        let init = lines.drop_last();
        lemma_max_width(init);
        assert forall|i: int| 0 <= i < lines.len() implies #[trigger] lines[i].len() <= max_width(lines) by {
            if i < init.len() {
                assert(lines[i] == init[i]);
            }
        }
        if lines.last().len() <= max_width(init) && init.len() > 0 {
            let j = choose|j: int| 0 <= j < init.len() && #[trigger] init[j].len() == max_width(init);
            assert(lines[j] == init[j]);
        } else {
            assert(lines[lines.len() - 1].len() == max_width(lines));
        }
    }
}

impl Grid {
    /// Whether the grid has its fixed size.
    pub open spec fn wf(&self) -> bool {
        self@.len() == GRID_CELLS
    }

    /// The playfield holding `lines`, padded with spaces.
    pub fn from_lines(lines: &Vec<Vec<char>>) -> (g: Grid)
        requires
            fits(lines.deep_view()),
            forall|y: int, x: int| 0 <= y < lines@.len() && 0 <= x < lines@[y]@.len()
                ==> is_ascii_char(#[trigger] lines@[y]@[x]),
        ensures
            g.wf(),
            g@ == grid_of_lines(lines.deep_view()),
    {
        let ghost target = grid_of_lines(lines.deep_view());
        let mut cells: Vec<u8> = Vec::new();
        let mut k: usize = 0;
        while k < GRID_CELLS
            invariant
                k <= GRID_CELLS,
                target == grid_of_lines(lines.deep_view()),
                cells@ =~= target.take(k as int),
                forall|y: int, x: int| 0 <= y < lines@.len() && 0 <= x < lines@[y]@.len()
                    ==> is_ascii_char(#[trigger] lines@[y]@[x]),
            decreases GRID_CELLS - k,
        {
            let y = k / GRID_WIDTH;
            let x = k % GRID_WIDTH;
            let b: u8 = if y < lines.len() && x < lines[y].len() {
                let c = lines[y][x];
                assert(lines.deep_view()[y as int] =~= lines@[y as int]@);
                assert(is_ascii_char(lines@[y as int]@[x as int]));
                (c as u32) as u8
            } else {
                32
            };
            cells.push(b);
            k = k + 1;
            assert(cells@ =~= target.take(k as int));
        }
        Grid { cells }
    }

    /// The byte at an in-grid position.
    pub fn get(&self, p: Position) -> (r: u8)
        requires
            self.wf(),
            p.in_grid(),
        ensures
            r == self@[p.cell()],
    {
        self.cells[p.cell_index()]
    }

    /// The cell at `(x, y)` as a signed byte, or 0 off the playfield.
    pub fn read(&self, x: i64, y: i64) -> (r: i64)
        requires
            self.wf(),
        ensures
            r == cell_value(self@, x as int, y as int),
    {
        if 0 <= x && x < GRID_WIDTH as i64 && 0 <= y && y < GRID_HEIGHT as i64 {
            signed_byte_value(self.cells[(y as usize) * GRID_WIDTH + (x as usize)])
        } else {
            0
        }
    }

    /// Stores `v` modulo 256 at `(x, y)`; nothing happens off the playfield.
    pub fn write(&mut self, x: i64, y: i64, v: i64)
        requires
            old(self).wf(),
        ensures
            final(self).wf(),
            final(self)@ == stored(old(self)@, x as int, y as int, v as int),
    {
        if 0 <= x && x < GRID_WIDTH as i64 && 0 <= y && y < GRID_HEIGHT as i64 {
            let b: u8 = match v.checked_rem_euclid(256) {
                Some(m) => m as u8,
                None => 0,
            };
            self.cells.set((y as usize) * GRID_WIDTH + (x as usize), b);
        }
    }
}

/// Lines written out as text, each followed by a line feed.
pub open spec fn terminated_text(lines: Seq<Seq<char>>) -> Seq<char>
    decreases lines.len(),
{
    if lines.len() == 0 {
        Seq::empty()
    } else {
        terminated_text(lines.drop_last()) + lines.last().push('\n')
    }
}

/// Lines written out as text, separated by line feeds, with a line feed
/// after the last one if `final_newline`.
pub open spec fn lines_text(lines: Seq<Seq<char>>, final_newline: bool) -> Seq<char> {
    if final_newline || lines.len() == 0 {
        terminated_text(lines)
    } else {
        terminated_text(lines.drop_last()) + lines.last()
    }
}

/// The bytes of an ASCII line.
pub open spec fn ascii_bytes(l: Seq<char>) -> Seq<u8> {
    Seq::new(l.len(), |i: int| (l[i] as u32) as u8)
}

/// A row without its trailing spaces.
pub open spec fn trim_end_spaces(r: Seq<u8>) -> Seq<u8>
    decreases r.len(),
{
    if r.len() > 0 && r.last() == 32 {
        trim_end_spaces(r.drop_last())
    } else {
        r
    }
}

/// A line that a playfield row gives back: at most 80 ASCII characters, no
/// line break, no trailing space.
pub open spec fn plain_line(l: Seq<char>) -> bool {
    &&& l.len() <= GRID_WIDTH
    &&& forall|i: int| 0 <= i < l.len() ==> is_ascii_char(#[trigger] l[i]) && l[i] != '\n' && l[i] != '\r'
    &&& l.len() == 0 || (l.last() as u32) != 32
}

proof fn lemma_split_append(s: Seq<char>, l: Seq<char>)
    requires
        forall|i: int| 0 <= i < l.len() ==> #[trigger] l[i] != '\n',
    ensures
        split_state(s + l) == (split_state(s).0, split_state(s).1 + l),
    decreases l.len(),
{
    if l.len() == 0 {
        assert(s + l =~= s);
        assert(split_state(s).1 + l =~= split_state(s).1);
    } else {
        let init = l.drop_last();
        lemma_split_append(s, init);
        assert((s + l).drop_last() =~= s + init);
        assert((s + l).last() == l.last());
        assert(split_state(s).1 + init.push(l.last()) =~= split_state(s).1 + l);
        assert(l.last() == l[l.len() - 1]);
    }
}

proof fn lemma_split_terminated(lines: Seq<Seq<char>>)
    requires
        forall|y: int| 0 <= y < lines.len() ==> plain_line(#[trigger] lines[y]),
    ensures
        split_state(terminated_text(lines)) == (lines, Seq::<char>::empty()),
        all_ascii(terminated_text(lines)),
    decreases lines.len(),
{
    if lines.len() > 0 {
        let init = lines.drop_last();
        assert forall|y: int| 0 <= y < init.len() implies plain_line(#[trigger] init[y]) by {
            assert(init[y] == lines[y]);
        }
        lemma_split_terminated(init);
        let prefix = terminated_text(init);
        let l = lines.last();
        assert(plain_line(lines[lines.len() - 1]));
        lemma_split_append(prefix, l);
        assert(Seq::<char>::empty() + l =~= l);
        let full = terminated_text(lines);
        assert(full =~= (prefix + l).push('\n'));
        assert(full.drop_last() =~= prefix + l);
        assert(strip_cr(l) == l);
        assert(init.push(l) =~= lines);
        assert forall|i: int| 0 <= i < full.len() implies is_ascii_char(#[trigger] full[i]) by {
            if i < prefix.len() {
                assert(full[i] == prefix[i]);
            } else if i < prefix.len() + l.len() {
                assert(full[i] == l[i - prefix.len()]);
            }
        }
    }
}

proof fn lemma_trim_padded(l: Seq<u8>, n: nat)
    requires
        l.len() == 0 || l.last() != 32,
    ensures
        trim_end_spaces(l + Seq::new(n, |i: int| 32u8)) == l,
    decreases n,
{
    let padded = l + Seq::new(n, |i: int| 32u8);
    if n == 0 {
        assert(padded =~= l);
    } else {
        assert(padded.drop_last() =~= l + Seq::new((n - 1) as nat, |i: int| 32u8));
        lemma_trim_padded(l, (n - 1) as nat);
    }
}

/// Reading text whose lines fit the playfield, and reading each row back
/// without its trailing spaces, gives back those lines, and empty rows
/// below them; with or without a line feed after the last line.
pub proof fn lemma_parse_round_trip(lines: Seq<Seq<char>>, final_newline: bool)
    requires
        lines.len() <= GRID_HEIGHT,
        forall|y: int| 0 <= y < lines.len() ==> plain_line(#[trigger] lines[y]),
    ensures
        parse_spec(lines_text(lines, final_newline)) is Ok,
        forall|y: int|
            0 <= y < GRID_HEIGHT ==> #[trigger] trim_end_spaces(row(parse_spec(lines_text(lines, final_newline))->Ok_0, y))
                == if y < lines.len() {
                ascii_bytes(lines[y])
            } else {
                Seq::empty()
            },
{
    let text = lines_text(lines, final_newline);
    let parsed: Seq<Seq<char>> = if final_newline || lines.len() == 0 || lines.last().len() > 0 {
        lines
    } else {
        lines.drop_last()
    };
    if final_newline || lines.len() == 0 {
        lemma_split_terminated(lines);
    } else {
        let init = lines.drop_last();
        assert forall|y: int| 0 <= y < init.len() implies plain_line(#[trigger] init[y]) by {
            assert(init[y] == lines[y]);
        }
        lemma_split_terminated(init);
        let l = lines.last();
        assert(plain_line(lines[lines.len() - 1]));
        lemma_split_append(terminated_text(init), l);
        assert(Seq::<char>::empty() + l =~= l);
        assert(init.push(l) =~= lines);
        let prefix = terminated_text(init);
        assert forall|i: int| 0 <= i < text.len() implies is_ascii_char(#[trigger] text[i]) by {
            if i < prefix.len() {
                assert(text[i] == prefix[i]);
            } else {
                assert(text[i] == l[i - prefix.len()]);
            }
        }
    }
    assert(text_lines(text) == parsed);
    assert(parsed.len() <= lines.len());
    assert forall|y: int| 0 <= y < parsed.len() implies #[trigger] parsed[y] == lines[y] by {}
    assert(fits(parsed)) by {
        assert forall|i: int| 0 <= i < parsed.len() implies #[trigger] parsed[i].len() <= GRID_WIDTH by {
            assert(plain_line(lines[i]));
        }
    }
    let g = grid_of_lines(parsed);
    assert forall|y: int| 0 <= y < GRID_HEIGHT implies #[trigger] trim_end_spaces(row(g, y)) == if y < lines.len() {
        ascii_bytes(lines[y])
    } else {
        Seq::empty()
    } by {
        let l: Seq<u8> = if y < lines.len() {
            ascii_bytes(lines[y])
        } else {
            Seq::empty()
        };
        if y < lines.len() {
            assert(plain_line(lines[y]));
            if l.len() > 0 {
                assert(l.last() == (lines[y].last() as u32) as u8);
            }
            if y >= parsed.len() {
                assert(lines[y].len() == 0);
                assert(l =~= Seq::<u8>::empty());
            }
        }
        let pad = Seq::new((GRID_WIDTH - l.len()) as nat, |i: int| 32u8);
        assert forall|x: int| 0 <= x < GRID_WIDTH implies #[trigger] row(g, y)[x] == (l + pad)[x] by {
            let k = y * GRID_WIDTH + x;
            assert(k / GRID_WIDTH as int == y) by (nonlinear_arith)
                requires
                    k == y * 80 + x,
                    0 <= x < 80,
            ;
            assert(k % GRID_WIDTH as int == x) by (nonlinear_arith)
                requires
                    k == y * 80 + x,
                    0 <= x < 80,
            ;
            assert(0 <= k < GRID_CELLS) by (nonlinear_arith)
                requires
                    k == y * 80 + x,
                    0 <= x < 80,
                    0 <= y < 25,
            ;
        }
        assert(row(g, y) =~= l + pad);
        lemma_trim_padded(l, (GRID_WIDTH - l.len()) as nat);
    }
}

} // verus!
