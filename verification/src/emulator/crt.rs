//! The CRT screen: one pixel is drawn per tick, lit when the sprite around
//! the X register covers the beam position, and the buffer is rendered as
//! newline-separated rows of forty pixels.

use vstd::prelude::*;

use crate::emulator::Cpu;

verus! {

/// Pixels per CRT row.
pub const CRT_ROW_WIDTH: usize = 40;

/// The pixel drawn when the beam at `pos` meets the sprite centred on `x`.
pub open spec fn pixel_of(pos: int, x: int) -> char {
    if -1 <= pos - x <= 1 {
        '#'
    } else {
        '.'
    }
}

/// The row of forty pixels starting at position `40 * i` of the buffer.
pub open spec fn row_of(buf: Seq<char>, i: int) -> Seq<char> {
    buf.subrange((CRT_ROW_WIDTH as int) * i, (CRT_ROW_WIDTH as int) * i + (CRT_ROW_WIDTH as int))
}

/// Rows joined by single newlines.
pub open spec fn join_rows(rows: Seq<Seq<char>>) -> Seq<char>
    decreases rows.len(),
{
    if rows.len() == 0 {
        Seq::empty()
    } else if rows.len() == 1 {
        rows[0]
    } else {
        rows[0] + seq!['\n'] + join_rows(rows.skip(1))
    }
}

/// Collects the characters of the vector into a string, in order.
///
/// Relies on `String::from_iter` (via `Iterator::collect`): the collected
/// string holds exactly the iterated characters.
#[verifier::external_body]
fn chars_to_string(chars: &Vec<char>) -> (r: String)
    ensures
        r@ == chars@,
{
    chars.iter().copied().collect()
}

/// Joins the lines with a newline between each adjacent pair.
///
/// Relies on `itertools::Itertools::intersperse`: the iterator yields the
/// items of the underlying iterator with the separator between each
/// adjacent pair, which `collect` concatenates in order.
#[verifier::external_body]
fn join_lines(lines: &Vec<String>) -> (r: String)
    ensures
        r@ == join_rows(lines@.map_values(|s: String| s@)),
{
    itertools::Itertools::intersperse(lines.iter().map(|s| s.as_str()), "\n").collect()
}

/// The CRT screen buffer.
pub struct Crt {
    buffer: Vec<char>,
}

impl Crt {
    /// The pixels drawn so far, in beam order.
    pub closed spec fn spec_buffer(self) -> Seq<char> {
        self.buffer@
    }

    /// An empty screen.
    pub fn new() -> (crt: Crt)
        ensures
            crt.spec_buffer() =~= Seq::<char>::empty(),
    {
        Crt { buffer: Vec::new() }
    }

    /// Draws the next pixel from the CPU's X register: lit exactly when the
    /// beam position within the row is within one of the register.
    pub fn read(&mut self, cpu: &Cpu)
        requires
            old(self).spec_buffer().len() < usize::MAX,
        ensures
            final(self).spec_buffer() == old(self).spec_buffer().push(
                pixel_of(
                    old(self).spec_buffer().len() as int % (CRT_ROW_WIDTH as int),
                    cpu.spec_register(),
                ),
            ),
    {
        let x_position = cpu.x_register().value();
        let crt_position = (self.buffer.len() % CRT_ROW_WIDTH) as isize;
        if x_position >= crt_position - 1 && x_position <= crt_position + 1 {
            self.buffer.push('#');
        } else {
            self.buffer.push('.');
        }
    }

    /// Renders the buffer as rows of forty pixels joined by newlines; the
    /// buffer must hold a whole positive number of rows.
    pub fn buffer(self) -> (r: String)
        requires
            self.spec_buffer().len() > 0,
            self.spec_buffer().len() % (CRT_ROW_WIDTH as nat) == 0,
        ensures
            r@ == join_rows(
                Seq::new(
                    self.spec_buffer().len() / (CRT_ROW_WIDTH as nat),
                    |i: int| row_of(self.spec_buffer(), i),
                ),
            ),
    {
        let ghost buf = self.spec_buffer();
        let n = self.buffer.len() / CRT_ROW_WIDTH;
        let ghost rows = Seq::new(n as nat, |i: int| row_of(buf, i));
        let mut lines: Vec<String> = Vec::new();
        let mut i: usize = 0;
        while i < n
            invariant
                buf == self.spec_buffer(),
                buf.len() <= usize::MAX,
                buf.len() % (CRT_ROW_WIDTH as nat) == 0,
                n as nat == buf.len() / (CRT_ROW_WIDTH as nat),
                rows == Seq::new(n as nat, |i: int| row_of(buf, i)),
                i <= n,
                lines@.len() == i,
                forall|j: int| 0 <= j < i ==> (#[trigger] lines@[j])@ == rows[j],
            decreases n - i,
        {
            proof {
                assert((CRT_ROW_WIDTH as int) * (i as int) + (CRT_ROW_WIDTH as int) <= buf.len()) by (
                nonlinear_arith)
                    requires
                        0 <= (i as int) && (i as int) < (n as int),
                        n as nat == buf.len() / (CRT_ROW_WIDTH as nat),
                        buf.len() % (CRT_ROW_WIDTH as nat) == 0,
                        CRT_ROW_WIDTH == 40,
                ;
            }
            let mut row: Vec<char> = Vec::new();
            let mut j: usize = 0;
            while j < CRT_ROW_WIDTH
                invariant
                    j <= CRT_ROW_WIDTH,
                    buf == self.spec_buffer(),
                    buf.len() <= usize::MAX,
                    (CRT_ROW_WIDTH as int) * (i as int) + (CRT_ROW_WIDTH as int) <= buf.len(),
                    row@.len() == j,
                    forall|k: int|
                        0 <= k < j ==> #[trigger] row@[k] == buf[(CRT_ROW_WIDTH as int) * (i as int) + k],
                decreases CRT_ROW_WIDTH - j,
            {
                proof {
                    assert((CRT_ROW_WIDTH as int) * (i as int) + (j as int) < buf.len());
                }
                row.push(self.buffer[i * CRT_ROW_WIDTH + j]);
                j += 1;
            }
            proof {
                assert(row@ =~= row_of(buf, i as int));
            }
            lines.push(chars_to_string(&row));
            i += 1;
        }
        proof {
            assert(lines@.map_values(|s: String| s@) =~= rows);
        }
        join_lines(&lines)
    }
}

} // verus!
