//! The abstract machine: a fixed-size tape of bytes, a pointer that wraps
//! round the ends of the tape, an input stream and an output stream.

use vstd::prelude::*;

verus! {

/// Number of cells on the tape.
pub const TAPE_SIZE: usize = 30_000;

/// The mathematical state of the machine.
pub struct State {
    /// The cells, `TAPE_SIZE` of them.
    pub tape: Seq<u8>,
    /// Index of the current cell.
    pub ptr: int,
    /// The bytes not yet read.
    pub input: Seq<u8>,
    /// The bytes written so far.
    pub output: Seq<u8>,
}

impl State {
    /// The tape has its fixed size and the pointer lies on it.
    pub open spec fn wf(self) -> bool {
        &&& self.tape.len() == TAPE_SIZE
        &&& 0 <= self.ptr < TAPE_SIZE
    }

    /// The state in which a program starts: every cell zero, the pointer on
    /// the first cell, nothing written.
    pub open spec fn initial(input: Seq<u8>) -> State {
        State { tape: Seq::new(TAPE_SIZE as nat, |i: int| 0u8), ptr: 0, input, output: Seq::empty() }
    }

    /// The value of the current cell.
    pub open spec fn current(self) -> u8 {
        self.tape[self.ptr]
    }
}

/// The cell index that lies `offset` cells away from `ptr`, wrapping round
/// the ends of the tape.
pub open spec fn wrap_index(ptr: int, offset: int) -> int {
    (ptr + offset) % (TAPE_SIZE as int)
}

/// The byte that results from adding `amount` to `cell`, modulo 256.
pub open spec fn wrap_cell(cell: int, amount: int) -> u8 {
    ((cell + amount) % 256) as u8
}

/// The signed byte that stands for `v` modulo 256.
pub open spec fn wrap_i8(v: int) -> i8 {
    let r = v % 256;
    if r >= 128 {
        (r - 256) as i8
    } else {
        r as i8
    }
}

/// Two displacements in a row are one displacement by their sum.
pub proof fn lemma_wrap_index_add(ptr: int, a: int, b: int)
    ensures
        wrap_index(wrap_index(ptr, a), b) == wrap_index(ptr, a + b),
        0 <= wrap_index(ptr, a) < TAPE_SIZE,
{
}

/// Two additions in a row are one addition of their sum, and the sum may be
/// taken modulo 256 first.
pub proof fn lemma_wrap_cell_add(cell: int, a: int, b: int)
    ensures
        wrap_cell(wrap_cell(cell, a) as int, b) == wrap_cell(cell, a + b),
        wrap_cell(cell, wrap_i8(a + b) as int) == wrap_cell(cell, a + b),
        wrap_cell(0, wrap_cell(0, a) + b) == wrap_cell(0, a + b),
{
}

/// Computes the wrapped cell index.
pub fn wrapped_index(ptr: usize, offset: i64) -> (r: usize)
    requires
        ptr < TAPE_SIZE,
    ensures
        r == wrap_index(ptr as int, offset as int),
        r < TAPE_SIZE,
{
    if offset >= 0 {
        let rem: u64 = (offset as u64) % 30_000;
        ((ptr as u64 + rem) % 30_000) as usize
    } else {
        let mag: u64 = ((-(offset + 1)) as u64) + 1;
        let rem: u64 = mag % 30_000;
        ((ptr as u64 + 30_000 - rem) % 30_000) as usize
    }
}

/// Adds a signed amount to a cell, modulo 256.
pub fn wrapped_cell(cell: u8, amount: i8) -> (r: u8)
    ensures
        r == wrap_cell(cell as int, amount as int),
{
    let sum: i16 = cell as i16 + amount as i16;
    if sum < 0 {
        (sum + 256) as u8
    } else if sum > 255 {
        (sum - 256) as u8
    } else {
        sum as u8
    }
}

/// Adds two signed bytes, modulo 256.
pub fn wrapped_i8_add(a: i8, b: i8) -> (r: i8)
    ensures
        r == wrap_i8(a as int + b as int),
{
    let sum: i16 = a as i16 + b as i16;
    if sum < -128 {
        (sum + 256) as i8
    } else if sum > 127 {
        (sum - 256) as i8
    } else {
        sum as i8
    }
}

/// Adds `cell * factor` to `target`, modulo 256.
pub fn wrapped_mul_add(target: u8, cell: u8, factor: i8) -> (r: u8)
    ensures
        r == wrap_cell(target as int, cell as int * factor as int),
{
    assert(-128 * 255 <= cell as int * factor as int <= 127 * 255) by (nonlinear_arith)
        requires
            0 <= cell as int <= 255,
            -128 <= factor as int <= 127,
    ;
    let product: i32 = (cell as i32) * (factor as i32);
    let sum: i32 = target as i32 + product;
    let shifted: u32 = (sum + 32_768) as u32;
    (shifted % 256) as u8
}

} // verus!
