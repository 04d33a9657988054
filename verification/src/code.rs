//! The opcode text of each code-generation primitive, as a function of the
//! head position it starts from and the cells it works on.

use vstd::prelude::*;
use crate::machine::loop_of;

verus! {

/// `n` copies of `c`; empty when `n` is not positive.
pub open spec fn repeat(c: char, n: int) -> Seq<char> {
    Seq::new(
        if n >= 0 {
            n as nat
        } else {
            0nat
        },
        |i: int| c,
    )
}

/// Head movement from cell `from` to cell `to`.
pub open spec fn mv(from: int, to: int) -> Seq<char> {
    if to > from {
        repeat('>', to - from)
    } else {
        repeat('<', from - to)
    }
}

/// Clears the cell under the head.
pub open spec fn clear() -> Seq<char> {
    seq!['[', '-', ']']
}

/// Largest `s` with `s * s <= v`.
pub open spec fn isqrt(v: int) -> int
    decreases v,
{
    if v <= 0 {
        0
    } else {
        let s = isqrt(v - 1);
        if (s + 1) * (s + 1) <= v {
            s + 1
        } else {
            s
        }
    }
}

/// Stores `v` in cell `i`.
pub open spec fn set_code(h: int, i: int, v: int) -> Seq<char> {
    mv(h, i) + clear() + repeat('+', v)
}

/// Adds `v` to cell `i` as `s * s + r` with `s` the integer square root of
/// `v`, counting the outer factor down in cell `t`; below 16 it stores `v`.
pub open spec fn gcf_code(h: int, i: int, t: int, v: int) -> Seq<char> {
    if v < 16 {
        set_code(h, i, v)
    } else {
        let s = isqrt(v);
        let r = v - s * s;
        mv(h, t) + repeat('+', s) + loop_of(seq!['-'] + mv(t, i) + repeat('+', s) + mv(i, t)) + (if r
            > 0 {
            mv(t, i) + repeat('+', r)
        } else {
            Seq::<char>::empty()
        })
    }
}

/// Where the head is after `gcf_code`.
pub open spec fn gcf_head(i: int, t: int, v: int) -> int {
    if v < 16 || v - isqrt(v) * isqrt(v) > 0 {
        i
    } else {
        t
    }
}

/// Drains cell `s` into cell `d`, adding.
pub open spec fn dadd_code(h: int, s: int, d: int) -> Seq<char> {
    mv(h, s) + loop_of(seq!['-'] + mv(s, d) + seq!['+'] + mv(d, s))
}

/// Drains cell `s` into cell `d`, subtracting.
pub open spec fn dsub_code(h: int, s: int, d: int) -> Seq<char> {
    mv(h, s) + loop_of(seq!['-'] + mv(s, d) + seq!['-'] + mv(d, s))
}

/// Moves the value of cell `s` to cell `d`.
pub open spec fn move_code(h: int, s: int, d: int) -> Seq<char> {
    set_code(h, d, 0) + dadd_code(d, s, d)
}

/// `h` when `cells` is empty, else its last element.
pub open spec fn last_or(h: int, cells: Seq<int>) -> int {
    if cells.len() == 0 {
        h
    } else {
        cells.last()
    }
}

/// Clears each of `cells` in order.
pub open spec fn clear_all(h: int, cells: Seq<int>) -> Seq<char>
    decreases cells.len(),
{
    if cells.len() == 0 {
        Seq::<char>::empty()
    } else {
        clear_all(h, cells.drop_last()) + set_code(last_or(h, cells.drop_last()), cells.last(), 0)
    }
}

/// Adds one to each of `cells` in order.
pub open spec fn spread(h: int, cells: Seq<int>) -> Seq<char>
    decreases cells.len(),
{
    if cells.len() == 0 {
        Seq::<char>::empty()
    } else {
        spread(h, cells.drop_last()) + mv(last_or(h, cells.drop_last()), cells.last()) + seq!['+']
    }
}

/// Copies cell `s` into each of `dests`, with the cell at `top` as scratch.
pub open spec fn copy_code(h: int, top: int, s: int, dests: Seq<int>) -> Seq<char> {
    clear_all(h, dests) + set_code(last_or(h, dests), top, 0) + mv(top, s) + loop_of(
        seq!['-'] + spread(s, dests) + mv(last_or(s, dests), top) + seq!['+'] + mv(top, s),
    ) + move_code(s, top, s)
}

/// Adds cell `s` to cell `d`, keeping `s`; scratch cells start at `top`.
pub open spec fn add_code(h: int, top: int, s: int, d: int) -> Seq<char> {
    set_code(h, top, 0) + copy_code(top, top + 1, s, seq![top]) + dadd_code(top + 1, top, d)
}

/// Subtracts cell `s` from cell `d`, keeping `s`; scratch cells start at `top`.
pub open spec fn sub_code(h: int, top: int, s: int, d: int) -> Seq<char> {
    set_code(h, top, 0) + copy_code(top, top + 1, s, seq![top]) + dsub_code(top + 1, top, d)
}

/// Multiplies cell `d` by cell `s`, keeping `s`; scratch cells start at `top`.
pub open spec fn mul_code(h: int, top: int, s: int, d: int) -> Seq<char> {
    set_code(h, top, 0) + copy_code(top, top + 1, d, seq![top]) + set_code(top + 1, d, 0) + mv(
        d,
        top,
    ) + loop_of(seq!['-'] + add_code(top, top + 1, s, d) + mv(top + 1, top))
}

/// Clears the `n` cells from `base` upwards.
pub open spec fn calloc_code(h: int, base: int, n: int) -> Seq<char>
    decreases n,
{
    if n <= 0 {
        Seq::<char>::empty()
    } else {
        calloc_code(h, base, n - 1) + set_code(
            if n == 1 {
                h
            } else {
                base + n - 2
            },
            base + n - 1,
            0,
        )
    }
}

/// Prints the zero-terminated bytes that start at cell `i`.
pub open spec fn print_code(h: int, i: int) -> Seq<char> {
    mv(h, i) + seq!['[', '.', '>', ']']
}

} // verus!
