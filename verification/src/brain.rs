use vstd::prelude::*;

verus! {

broadcast use vstd::string::axiom_spec_iter, vstd::string::next_postcondition;

/// The mathematical model of the tape: the cells, the cursor, and the
/// buffered output bytes.
#[verifier::ext_equal]
pub ghost struct BrainView {
    pub mem: Seq<u8>,
    pub ptr: nat,
    pub out: Seq<u8>,
}

/// Addition of two bytes with 8-bit wraparound.
pub open spec fn byte_add(x: u8, y: u8) -> u8 {
    ((x + y) % 256) as u8
}

/// Subtraction of two bytes with 8-bit wraparound.
pub open spec fn byte_sub(x: u8, y: u8) -> u8 {
    ((x + 256 - y) % 256) as u8
}

/// The tape at the start of a session: one zero cell, the cursor on it,
/// nothing buffered for output.
pub open spec fn initial_brain() -> BrainView {
    BrainView { mem: seq![0u8], ptr: 0 as nat, out: Seq::<u8>::empty() }
}

impl BrainView {
    /// The cursor never leaves the cells, and at least one cell exists.
    pub open spec fn wf(self) -> bool {
        &&& self.mem.len() >= 1
        &&& self.ptr < self.mem.len()
    }

    /// The byte under the cursor.
    pub open spec fn cell(self) -> u8 {
        self.mem[self.ptr as int]
    }

    /// Moving right grows the tape by one zero cell exactly when the cursor
    /// steps past the last cell.
    pub open spec fn ptr_right(self) -> BrainView {
        BrainView {
            mem: if self.ptr + 1 < self.mem.len() {
                self.mem
            } else {
                self.mem.push(0)
            },
            ptr: (self.ptr + 1) as nat,
            ..self
        }
    }

    /// Moving left at cell zero is a no-op; the tape never shrinks.
    pub open spec fn ptr_left(self) -> BrainView {
        BrainView {
            ptr: if self.ptr == 0 {
                0 as nat
            } else {
                (self.ptr - 1) as nat
            },
            ..self
        }
    }

    /// Adding a byte into the current cell, with wraparound.
    pub open spec fn add(self, n: u8) -> BrainView {
        BrainView { mem: self.mem.update(self.ptr as int, byte_add(self.cell(), n)), ..self }
    }

    /// Subtracting one from the current cell, with wraparound.
    pub open spec fn decrement(self) -> BrainView {
        BrainView { mem: self.mem.update(self.ptr as int, byte_sub(self.cell(), 1)), ..self }
    }

    /// The current cell's value joins the output buffer.
    pub open spec fn output(self) -> BrainView {
        BrainView { out: self.out.push(self.cell()), ..self }
    }

    /// Effect of one input line: the first character's code, truncated to
    /// its low eight bits, is added into the current cell; an empty line
    /// changes nothing.
    pub open spec fn input(self, line: Seq<char>) -> BrainView {
        if line.len() == 0 {
            self
        } else {
            self.add(((line[0] as u32) % 256) as u8)
        }
    }

    /// The display form: every cell in order as its decimal value, each
    /// preceded by a space, the cell under the cursor in brackets.
    pub open spec fn render(self) -> Seq<u8> {
        render_cells(self.mem, self.ptr as int)
    }
}

/// Decimal digits of a byte as their character codes, most significant
/// first, without leading zeros.
pub open spec fn dec_digits(n: u8) -> Seq<u8>
    decreases n,
{
    if n < 10 {
        seq![(48 + n) as u8]
    } else {
        dec_digits((n / 10) as u8).push((48 + n % 10) as u8)
    }
}

/// One cell of the display: a space, then the value, bracketed when the
/// cursor stands on the cell.
pub open spec fn render_cell(v: u8, marked: bool) -> Seq<u8> {
    if marked {
        seq![32u8, 91u8] + dec_digits(v) + seq![93u8]
    } else {
        seq![32u8] + dec_digits(v)
    }
}

/// The display of a row of cells, the one at index `ptr` marked.
pub open spec fn render_cells(mem: Seq<u8>, ptr: int) -> Seq<u8>
    decreases mem.len(),
{
    if mem.len() == 0 {
        Seq::<u8>::empty()
    } else {
        render_cell(mem[0], ptr == 0) + render_cells(mem.drop_first(), ptr - 1)
    }
}

proof fn lemma_render_cells_push(mem: Seq<u8>, ptr: int, v: u8)
    ensures
        render_cells(mem.push(v), ptr) == render_cells(mem, ptr) + render_cell(
            v,
            ptr == mem.len(),
        ),
    decreases mem.len(),
{
    if mem.len() == 0 {
        assert(mem.push(v)[0] == v);
        assert(mem.push(v).drop_first() =~= Seq::<u8>::empty());
        assert(render_cells(mem.push(v).drop_first(), ptr - 1) == Seq::<u8>::empty());
        assert(render_cells(mem.push(v), ptr) == render_cell(v, ptr == 0) + Seq::<u8>::empty());
        assert(render_cells(mem, ptr) == Seq::<u8>::empty());
        assert(render_cell(v, ptr == 0) + Seq::<u8>::empty() =~= Seq::<u8>::empty() + render_cell(
            v,
            ptr == mem.len(),
        ));
    } else {
        assert(mem.push(v)[0] == mem[0]);
        assert(mem.push(v).drop_first() =~= mem.drop_first().push(v));
        lemma_render_cells_push(mem.drop_first(), ptr - 1, v);
        let a = render_cell(mem[0], ptr == 0);
        let b = render_cells(mem.drop_first(), ptr - 1);
        let c = render_cell(v, ptr == mem.len());
        assert(render_cells(mem.push(v), ptr) == a + (b + c));
        assert(a + (b + c) =~= (a + b) + c);
    }
}

/// The tape after `n` consecutive moves right from `b`.
pub open spec fn iterate_right(b: BrainView, n: nat) -> BrainView
    decreases n,
{
    if n == 0 {
        b
    } else {
        iterate_right(b, (n - 1) as nat).ptr_right()
    }
}

/// Tape growth is monotonic and lazy: starting from the initial one-cell
/// tape, `n` consecutive moves right leave exactly `n + 1` cells with the
/// cursor on the last one.
pub proof fn lemma_tape_growth(n: nat)
    ensures
        iterate_right(initial_brain(), n).mem.len() == n + 1,
        iterate_right(initial_brain(), n).ptr == n,
    decreases n,
{
    if n > 0 {
        lemma_tape_growth((n - 1) as nat);
    }
}

/// A move left never produces a negative cursor — the cursor stays a
/// valid index — and never shrinks the tape, so its length stays at least
/// one.
pub proof fn lemma_move_left_safe(b: BrainView)
    requires
        b.wf(),
    ensures
        b.ptr_left().wf(),
        b.ptr_left().mem == b.mem,
        b.ptr_left().ptr <= b.ptr,
{
}

/// The data cells, the cell cursor, and the buffered output bytes.
pub struct Brain {
    cells: Vec<u8>,
    ptr: usize,
    output_buffer: Vec<u8>,
}

impl View for Brain {
    type V = BrainView;

    closed spec fn view(&self) -> BrainView {
        BrainView { mem: self.cells@, ptr: self.ptr as nat, out: self.output_buffer@ }
    }
}

impl Brain {
    pub fn new() -> (b: Brain)
        ensures
            b@ == initial_brain(),
            b@.wf(),
    {
        let b = Brain { cells: vec![0u8; 1], ptr: 0, output_buffer: Vec::new() };
        proof {
            assert(b@.mem =~= seq![0u8]);
            assert(b@ =~= initial_brain());
        }
        b
    }

    pub fn ptr_right(&mut self)
        requires
            old(self)@.wf(),
        ensures
            final(self)@ == old(self)@.ptr_right(),
            final(self)@.wf(),
    {
        let n = self.cells.len();
        self.ptr = self.ptr + 1;
        if self.ptr > n - 1 {
            self.cells.push(0);
        }
        proof {
            assert(self@ =~= old(self)@.ptr_right());
        }
    }

    pub fn ptr_left(&mut self)
        requires
            old(self)@.wf(),
        ensures
            final(self)@ == old(self)@.ptr_left(),
            final(self)@.wf(),
    {
        if self.ptr == 0 {
            proof {
                assert(self@ =~= old(self)@.ptr_left());
            }
            return ;
        }
        self.ptr = self.ptr - 1;
        proof {
            assert(self@ =~= old(self)@.ptr_left());
        }
    }

    pub fn increment(&mut self)
        requires
            old(self)@.wf(),
        ensures
            final(self)@ == old(self)@.add(1),
            final(self)@.wf(),
    {
        self.add(1)
    }

    pub fn decrement(&mut self)
        requires
            old(self)@.wf(),
        ensures
            final(self)@ == old(self)@.decrement(),
            final(self)@.wf(),
    {
        let i = self.ptr;
        let v = self.cells[i];
        self.cells[i] = v.wrapping_sub(1);
        proof {
            assert(v.wrapping_sub(1) == byte_sub(v, 1));
            assert(self@ =~= old(self)@.decrement());
        }
    }

    pub fn add(&mut self, n: u8)
        requires
            old(self)@.wf(),
        ensures
            final(self)@ == old(self)@.add(n),
            final(self)@.wf(),
    {
        let i = self.ptr;
        let v = self.cells[i];
        self.cells[i] = v.wrapping_add(n);
        proof {
            assert(v.wrapping_add(n) == byte_add(v, n));
            assert(self@ =~= old(self)@.add(n));
        }
    }

    pub fn is_zero(&self) -> (z: bool)
        requires
            self@.wf(),
        ensures
            z == (self@.cell() == 0),
    {
        self.cells[self.ptr] == 0
    }

    pub fn output(&mut self)
        requires
            old(self)@.wf(),
        ensures
            final(self)@ == old(self)@.output(),
            final(self)@.wf(),
    {
        let v = self.cells[self.ptr];
        self.output_buffer.push(v);
        proof {
            assert(self@ =~= old(self)@.output());
        }
    }

    /// Takes one line of external text in place of a console read: the
    /// first character, truncated to eight bits, is added into the current
    /// cell; an empty line leaves the cell unchanged.
    pub fn input(&mut self, line: &str)
        requires
            old(self)@.wf(),
        ensures
            final(self)@ == old(self)@.input(line@),
            final(self)@.wf(),
    {
        let mut cs = line.chars();
        match cs.next() {
            Some(c) => {
                let code = c as u32;
                let b = (code % 256) as u8;
                proof {
                    assert(c == line@[0]);
                    assert(b == ((line@[0] as u32) % 256) as u8);
                }
                self.add(b);
            },
            None => {
                proof {
                    assert(line@.len() == 0);
                }
            },
        }
    }

    /// Hands the buffered output over and clears the buffer; the caller
    /// flushes it once per evaluation cycle.
    pub fn take_output(&mut self) -> (out: Vec<u8>)
        ensures
            out@ == old(self)@.out,
            final(self)@ == (BrainView { out: Seq::<u8>::empty(), ..old(self)@ }),
    {
        let mut out: Vec<u8> = Vec::new();
        core::mem::swap(&mut out, &mut self.output_buffer);
        proof {
            assert(self@ =~= (BrainView { out: Seq::<u8>::empty(), ..old(self)@ }));
        }
        out
    }

    /// The display form of the tape, as character codes.
    pub fn render(&self) -> (r: Vec<u8>)
        requires
            self@.wf(),
        ensures
            r@ == self@.render(),
    {
        let mut r: Vec<u8> = Vec::new();
        let n = self.cells.len();
        let mut i: usize = 0;
        while i < n
            invariant
                n == self.cells@.len(),
                i <= n,
                r@ == render_cells(self.cells@.take(i as int), self.ptr as int),
            decreases n - i,
        {
            let ghost done = self.cells@.take(i as int);
            let ghost r0 = r@;
            let v = self.cells[i];
            r.push(32);
            if i == self.ptr {
                r.push(91);
                push_decimal(&mut r, v);
                r.push(93);
                proof {
                    assert(r@ =~= r0 + render_cell(v, self.ptr == i));
                }
            } else {
                push_decimal(&mut r, v);
                proof {
                    assert(r@ =~= r0 + render_cell(v, self.ptr == i));
                }
            }
            proof {
                lemma_render_cells_push(done, self.ptr as int, v);
                assert(done.push(v) =~= self.cells@.take(i + 1));
            }
            i = i + 1;
        }
        proof {
            assert(self.cells@.take(n as int) =~= self.cells@);
        }
        r
    }

    /// How many cells the tape holds.
    pub fn cell_count(&self) -> (n: usize)
        ensures
            n == self@.mem.len(),
    {
        self.cells.len()
    }

    /// The value of the cell at `i`.
    pub fn cell(&self, i: usize) -> (v: u8)
        requires
            i < self@.mem.len(),
        ensures
            v == self@.mem[i as int],
    {
        self.cells[i]
    }

    /// Where the cursor stands.
    pub fn position(&self) -> (p: usize)
        ensures
            p == self@.ptr,
    {
        self.ptr
    }
}

/// Appends the decimal digits of `n` to `out`.
fn push_decimal(out: &mut Vec<u8>, n: u8)
    ensures
        final(out)@ == old(out)@ + dec_digits(n),
    decreases n,
{
    if n < 10 {
        out.push(48 + n);
        proof {
            assert(out@ =~= old(out)@ + dec_digits(n));
        }
    } else {
        push_decimal(out, n / 10);
        out.push(48 + n % 10);
        proof {
            assert(out@ =~= old(out)@ + dec_digits(n));
        }
    }
}

} // verus!
