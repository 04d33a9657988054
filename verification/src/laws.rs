//! What the emitted code does when the tape machine runs it: each primitive's
//! effect on the cells and on the head.

use vstd::prelude::*;
use crate::code::{
    add_code, clear, copy_code, dadd_code, dsub_code, gcf_code, gcf_head, isqrt, move_code,
    mul_code, mv, repeat, set_code, sub_code,
};
use crate::machine::{
    closed, dec_byte, inc_byte, lemma_closed_concat, lemma_closed_loop, lemma_reaches_concat,
    lemma_reaches_empty, lemma_reaches_loop_exit, lemma_reaches_loop_iter, lemma_reaches_op,
    loop_of, reaches, scan_depth, step_op, wrap, Machine,
};

verus! {

/// A single character that is no bracket is closed code.
pub proof fn lemma_closed_op(c: char)
    requires
        c != '[',
        c != ']',
    ensures
        closed(seq![c]),
{
    let code = seq![c];
    assert(code.skip(1).len() == 0);
    assert(scan_depth(code.skip(1), 0) == 0);
}

/// Repeating a character that is no bracket gives closed code.
pub proof fn lemma_closed_repeat(c: char, n: int)
    requires
        c != '[',
        c != ']',
    ensures
        closed(repeat(c, n)),
    decreases n,
{
    if n <= 0 {
        assert(repeat(c, n).len() == 0);
    } else {
        lemma_closed_repeat(c, n - 1);
        assert(repeat(c, n).skip(1) =~= repeat(c, n - 1));
    }
}

/// Head movement is closed code.
pub proof fn lemma_closed_mv(from: int, to: int)
    ensures
        closed(mv(from, to)),
{
    lemma_closed_repeat('>', to - from);
    lemma_closed_repeat('<', from - to);
}

/// Clearing a cell is closed code.
pub proof fn lemma_closed_clear()
    ensures
        closed(clear()),
{
    lemma_closed_op('-');
    lemma_closed_loop(seq!['-']);
    assert(clear() =~= loop_of(seq!['-']));
}

/// Storing a value is closed code.
pub proof fn lemma_closed_set(h: int, i: int, v: int)
    ensures
        closed(set_code(h, i, v)),
{
    lemma_closed_mv(h, i);
    lemma_closed_clear();
    lemma_closed_repeat('+', v);
    lemma_closed_concat(mv(h, i), clear());
    lemma_closed_concat(mv(h, i) + clear(), repeat('+', v));
}

/// Moving the head from where it is to cell `to` ends with the head on `to`
/// and changes nothing else.
pub proof fn lemma_mv(m: Machine, to: int)
    requires
        m.head >= 0,
        to >= 0,
    ensures
        reaches(mv(m.head, to), m, m.at(to)),
    decreases
            if to > m.head {
                to - m.head
            } else {
                m.head - to
            },
{
    let code = mv(m.head, to);
    if to > m.head {
        let m1 = m.at(m.head + 1);
        lemma_reaches_op('>', m);
        lemma_mv(m1, to);
        assert(code =~= seq!['>'] + mv(m1.head, to));
        lemma_reaches_concat(seq!['>'], mv(m1.head, to), m, m1, m.at(to));
    } else if to < m.head {
        let m1 = m.at(m.head - 1);
        lemma_reaches_op('<', m);
        lemma_mv(m1, to);
        assert(code =~= seq!['<'] + mv(m1.head, to));
        lemma_reaches_concat(seq!['<'], mv(m1.head, to), m, m1, m.at(to));
    } else {
        assert(code =~= Seq::<char>::empty());
        assert(m.at(to) == m);
        lemma_reaches_empty(m);
    }
}

/// `n` increments add `n` to the cell under the head, modulo 256.
pub proof fn lemma_plus(m: Machine, n: int)
    requires
        m.wf(),
        n >= 0,
    ensures
        reaches(repeat('+', n), m, m.put(wrap(m.cur() + n))),
    decreases n,
{
    if n == 0 {
        assert(repeat('+', n) =~= Seq::<char>::empty());
        lemma_reaches_empty(m);
        assert(m.put(wrap(m.cur() + 0)).cells =~= m.cells);
        assert(m.put(wrap(m.cur() + 0)) == m);
    } else {
        let m1 = m.put(inc_byte(m.cur()));
        lemma_reaches_op('+', m);
        lemma_plus(m1, n - 1);
        let m2 = m1.put(wrap(m1.cur() + n - 1));
        assert(repeat('+', n) =~= seq!['+'] + repeat('+', n - 1));
        lemma_reaches_concat(seq!['+'], repeat('+', n - 1), m, m1, m2);
        assert(m2.cells =~= m.put(wrap(m.cur() + n)).cells);
        assert(m2 == m.put(wrap(m.cur() + n)));
    }
}

/// `[-]` leaves zero under the head.
pub proof fn lemma_clear(m: Machine)
    requires
        m.wf(),
    ensures
        reaches(clear(), m, m.put(0)),
    decreases m.cur(),
{
    lemma_closed_op('-');
    assert(clear() =~= loop_of(seq!['-']));
    if m.cur() == 0 {
        lemma_reaches_loop_exit(seq!['-'], m);
        assert(m.put(0).cells =~= m.cells);
        assert(m.put(0) == m);
    } else {
        let m1 = m.put(dec_byte(m.cur()));
        lemma_reaches_op('-', m);
        lemma_clear(m1);
        assert(m1.put(0).cells =~= m.put(0).cells);
        assert(m1.put(0) == m.put(0));
        lemma_reaches_loop_iter(seq!['-'], m, m1, m.put(0));
    }
}

/// `set(i, v)` leaves `v` in cell `i` with the head on `i`, and changes no
/// other cell.
pub proof fn law_set(m: Machine, i: int, v: int)
    requires
        m.wf(),
        i >= 0,
        0 <= v < 256,
    ensures
        reaches(set_code(m.head, i, v), m, m.with_cell(i, v as u8).at(i)),
{
    let m1 = m.at(i);
    let m2 = m1.put(0);
    let m3 = m2.put(wrap(m2.cur() + v));
    lemma_mv(m, i);
    lemma_clear(m1);
    lemma_plus(m2, v);
    lemma_reaches_concat(mv(m.head, i), clear(), m, m1, m2);
    lemma_reaches_concat(mv(m.head, i) + clear(), repeat('+', v), m, m2, m3);
    assert(m3.cells =~= m.with_cell(i, v as u8).at(i).cells);
    assert(m3 == m.with_cell(i, v as u8).at(i));
}

/// Sequencing of three pieces of code.
pub proof fn lemma_chain3(
    a: Seq<char>,
    b: Seq<char>,
    c: Seq<char>,
    m0: Machine,
    m1: Machine,
    m2: Machine,
    m3: Machine,
)
    requires
        reaches(a, m0, m1),
        reaches(b, m1, m2),
        reaches(c, m2, m3),
    ensures
        reaches(a + b + c, m0, m3),
{
    lemma_reaches_concat(a, b, m0, m1, m2);
    lemma_reaches_concat(a + b, c, m0, m2, m3);
}

/// Sequencing of four pieces of code.
pub proof fn lemma_chain4(
    a: Seq<char>,
    b: Seq<char>,
    c: Seq<char>,
    d: Seq<char>,
    m0: Machine,
    m1: Machine,
    m2: Machine,
    m3: Machine,
    m4: Machine,
)
    requires
        reaches(a, m0, m1),
        reaches(b, m1, m2),
        reaches(c, m2, m3),
        reaches(d, m3, m4),
    ensures
        reaches(a + b + c + d, m0, m4),
{
    lemma_chain3(a, b, c, m0, m1, m2, m3);
    lemma_reaches_concat(a + b + c, d, m0, m3, m4);
}

/// Four closed pieces in a row are closed.
pub proof fn lemma_closed4(a: Seq<char>, b: Seq<char>, c: Seq<char>, d: Seq<char>)
    requires
        closed(a),
        closed(b),
        closed(c),
        closed(d),
    ensures
        closed(a + b),
        closed(a + b + c),
        closed(a + b + c + d),
{
    lemma_closed_concat(a, b);
    lemma_closed_concat(a + b, c);
    lemma_closed_concat(a + b + c, d);
}

/// Body of a loop that drains cell `s` into cell `d` with opcode `op`.
pub open spec fn drain_body(s: int, d: int, op: char) -> Seq<char> {
    seq!['-'] + mv(s, d) + seq![op] + mv(d, s)
}

/// The byte that draining `s0` into a cell holding `d0` leaves there.
pub open spec fn drained(d0: u8, s0: u8, op: char) -> u8 {
    if op == '+' {
        wrap(d0 + s0)
    } else {
        wrap(d0 - s0)
    }
}

/// The drain body is closed code.
pub proof fn lemma_closed_drain(s: int, d: int, op: char)
    requires
        op == '+' || op == '-',
    ensures
        closed(drain_body(s, d, op)),
{
    lemma_closed_op('-');
    lemma_closed_mv(s, d);
    lemma_closed_op(op);
    lemma_closed_mv(d, s);
    lemma_closed4(seq!['-'], mv(s, d), seq![op], mv(d, s));
}

/// A drain loop entered with the head on `s` empties `s` and adds its value
/// to `d`, or subtracts it, modulo 256.
pub proof fn lemma_drain(m: Machine, s: int, d: int, op: char)
    requires
        m.wf(),
        m.head == s,
        d >= 0,
        s != d,
        op == '+' || op == '-',
    ensures
        reaches(
            loop_of(drain_body(s, d, op)),
            m,
            m.with_cell(d, drained(m.cells[d], m.cells[s], op)).with_cell(s, 0),
        ),
    decreases m.cells[s],
{
    let body = drain_body(s, d, op);
    let goal = m.with_cell(d, drained(m.cells[d], m.cells[s], op)).with_cell(s, 0);
    lemma_closed_drain(s, d, op);
    if m.cells[s] == 0 {
        lemma_reaches_loop_exit(body, m);
        assert(goal.cells =~= m.cells);
        assert(goal == m);
    } else {
        let m1 = m.put(dec_byte(m.cur()));
        let m2 = m1.at(d);
        let m3 = step_op(op, m2)->0;
        let m4 = m3.at(s);
        lemma_reaches_op('-', m);
        lemma_mv(m1, d);
        lemma_reaches_op(op, m2);
        lemma_mv(m3, s);
        lemma_chain4(seq!['-'], mv(s, d), seq![op], mv(d, s), m, m1, m2, m3, m4);
        lemma_drain(m4, s, d, op);
        let end = m4.with_cell(d, drained(m4.cells[d], m4.cells[s], op)).with_cell(s, 0);
        assert(end.cells =~= goal.cells);
        assert(end == goal);
        lemma_reaches_loop_iter(body, m, m4, goal);
    }
}

/// `dadd(s, d)` leaves zero in `s` and the sum modulo 256 in `d`, with the
/// head on `s`.
pub proof fn law_dadd(m: Machine, s: int, d: int)
    requires
        m.wf(),
        s >= 0,
        d >= 0,
        s != d,
    ensures
        reaches(
            dadd_code(m.head, s, d),
            m,
            m.with_cell(d, wrap(m.cells[d] + m.cells[s])).with_cell(s, 0).at(s),
        ),
{
    lemma_mv(m, s);
    lemma_drain(m.at(s), s, d, '+');
    assert(dadd_code(m.head, s, d) =~= mv(m.head, s) + loop_of(drain_body(s, d, '+')));
    lemma_reaches_concat(
        mv(m.head, s),
        loop_of(drain_body(s, d, '+')),
        m,
        m.at(s),
        m.with_cell(d, wrap(m.cells[d] + m.cells[s])).with_cell(s, 0).at(s),
    );
}

/// `dsub(s, d)` leaves zero in `s` and the difference modulo 256 in `d`, with
/// the head on `s`.
pub proof fn law_dsub(m: Machine, s: int, d: int)
    requires
        m.wf(),
        s >= 0,
        d >= 0,
        s != d,
    ensures
        reaches(
            dsub_code(m.head, s, d),
            m,
            m.with_cell(d, wrap(m.cells[d] - m.cells[s])).with_cell(s, 0).at(s),
        ),
{
    lemma_mv(m, s);
    lemma_drain(m.at(s), s, d, '-');
    assert(dsub_code(m.head, s, d) =~= mv(m.head, s) + loop_of(drain_body(s, d, '-')));
    lemma_reaches_concat(
        mv(m.head, s),
        loop_of(drain_body(s, d, '-')),
        m,
        m.at(s),
        m.with_cell(d, wrap(m.cells[d] - m.cells[s])).with_cell(s, 0).at(s),
    );
}

/// `move_val(s, d)` leaves the value of `s` in `d` and zero in `s`, with the
/// head on `s`.
pub proof fn law_move_val(m: Machine, s: int, d: int)
    requires
        m.wf(),
        s >= 0,
        d >= 0,
        s != d,
    ensures
        reaches(
            move_code(m.head, s, d),
            m,
            m.with_cell(d, m.cells[s]).with_cell(s, 0).at(s),
        ),
{
    let m1 = m.with_cell(d, 0).at(d);
    let goal = m.with_cell(d, m.cells[s]).with_cell(s, 0).at(s);
    law_set(m, d, 0);
    law_dadd(m1, s, d);
    let m2 = m1.with_cell(d, wrap(m1.cells[d] + m1.cells[s])).with_cell(s, 0).at(s);
    assert(m2.cells =~= goal.cells);
    assert(m2 == goal);
    lemma_reaches_concat(set_code(m.head, d, 0), dadd_code(d, s, d), m, m1, goal);
}

/// Body of the loop by which `copy_val` splits cell `s` into cells `d` and
/// `t`.
pub open spec fn split_body(s: int, d: int, t: int) -> Seq<char> {
    seq!['-'] + mv(s, d) + seq!['+'] + mv(d, t) + seq!['+'] + mv(t, s)
}

/// The split body is closed code.
pub proof fn lemma_closed_split(s: int, d: int, t: int)
    ensures
        closed(split_body(s, d, t)),
{
    lemma_closed_op('-');
    lemma_closed_op('+');
    lemma_closed_mv(s, d);
    lemma_closed_mv(d, t);
    lemma_closed_mv(t, s);
    lemma_closed4(seq!['-'], mv(s, d), seq!['+'], mv(d, t));
    lemma_closed_concat(seq!['-'] + mv(s, d) + seq!['+'] + mv(d, t), seq!['+']);
    lemma_closed_concat(seq!['-'] + mv(s, d) + seq!['+'] + mv(d, t) + seq!['+'], mv(t, s));
}

/// A split loop entered with the head on `s` empties `s` and adds its value
/// to both `d` and `t`, modulo 256.
#[verifier::rlimit(30)]
pub proof fn lemma_split(m: Machine, s: int, d: int, t: int)
    requires
        m.wf(),
        m.head == s,
        d >= 0,
        t >= 0,
        s != d,
        s != t,
        d != t,
    ensures
        reaches(
            loop_of(split_body(s, d, t)),
            m,
            m.with_cell(d, wrap(m.cells[d] + m.cells[s])).with_cell(
                t,
                wrap(m.cells[t] + m.cells[s]),
            ).with_cell(s, 0),
        ),
    decreases m.cells[s],
{
    let body = split_body(s, d, t);
    let goal = m.with_cell(d, wrap(m.cells[d] + m.cells[s])).with_cell(
        t,
        wrap(m.cells[t] + m.cells[s]),
    ).with_cell(s, 0);
    lemma_closed_split(s, d, t);
    if m.cells[s] == 0 {
        lemma_reaches_loop_exit(body, m);
        assert(goal.cells =~= m.cells);
        assert(goal == m);
    } else {
        let m1 = m.put(dec_byte(m.cur()));
        let m2 = m1.at(d);
        let m3 = m2.put(inc_byte(m2.cur()));
        let m4 = m3.at(t);
        let m5 = m4.put(inc_byte(m4.cur()));
        let m6 = m5.at(s);
        lemma_reaches_op('-', m);
        lemma_mv(m1, d);
        lemma_reaches_op('+', m2);
        lemma_mv(m3, t);
        lemma_reaches_op('+', m4);
        lemma_mv(m5, s);
        lemma_chain4(seq!['-'], mv(s, d), seq!['+'], mv(d, t), m, m1, m2, m3, m4);
        lemma_chain3(
            seq!['-'] + mv(s, d) + seq!['+'] + mv(d, t),
            seq!['+'],
            mv(t, s),
            m,
            m4,
            m5,
            m6,
        );
        lemma_split(m6, s, d, t);
        let end = m6.with_cell(d, wrap(m6.cells[d] + m6.cells[s])).with_cell(
            t,
            wrap(m6.cells[t] + m6.cells[s]),
        ).with_cell(s, 0);
        assert(end.cells =~= goal.cells);
        assert(end == goal);
        lemma_reaches_loop_iter(body, m, m6, goal);
    }
}

/// The text of `copy_val` for a single destination, piece by piece.
pub proof fn lemma_copy_one_shape(h: int, top: int, s: int, d: int)
    ensures
        copy_code(h, top, s, seq![d]) == set_code(h, d, 0) + set_code(d, top, 0) + mv(top, s)
            + loop_of(split_body(s, d, top)) + move_code(s, top, s),
{
    let dests = seq![d];
    assert(dests.drop_last() =~= Seq::<int>::empty());
    assert(crate::code::clear_all(h, dests.drop_last()) =~= Seq::<char>::empty());
    assert(crate::code::spread(s, dests.drop_last()) =~= Seq::<char>::empty());
    assert(crate::code::clear_all(h, dests) =~= set_code(h, d, 0));
    assert(crate::code::spread(s, dests) =~= mv(s, d) + seq!['+']);
    lemma_regroup_split(seq!['-'], mv(s, d), seq!['+'], mv(d, top), seq!['+'], mv(top, s));
}

/// Regrouping of the pieces of a split body.
proof fn lemma_regroup_split(
    a: Seq<char>,
    b: Seq<char>,
    c: Seq<char>,
    d: Seq<char>,
    e: Seq<char>,
    f: Seq<char>,
)
    ensures
        a + (Seq::<char>::empty() + b + c) + d + e + f == a + b + c + d + e + f,
        a + (b + c) + d + e + f == a + b + c + d + e + f,
{
    assert(a + (Seq::<char>::empty() + b + c) + d + e + f =~= a + b + c + d + e + f);
    assert(a + (b + c) + d + e + f =~= a + b + c + d + e + f);
}

/// `copy_val(s, [d])` leaves the value of `s` in `d`, keeps `s`, and leaves
/// its scratch cell `top` zero with the head on it.
#[verifier::rlimit(30)]
pub proof fn law_copy_val(m: Machine, top: int, s: int, d: int)
    requires
        m.wf(),
        top >= 0,
        s >= 0,
        d >= 0,
        s != d,
        s != top,
        d != top,
    ensures
        reaches(
            copy_code(m.head, top, s, seq![d]),
            m,
            m.with_cell(d, m.cells[s]).with_cell(top, 0).at(top),
        ),
{
    let goal = m.with_cell(d, m.cells[s]).with_cell(top, 0).at(top);
    let ma = m.with_cell(d, 0).at(d);
    let mb = ma.with_cell(top, 0).at(top);
    let mc = mb.at(s);
    let md = mc.with_cell(d, wrap(mc.cells[d] + mc.cells[s])).with_cell(
        top,
        wrap(mc.cells[top] + mc.cells[s]),
    ).with_cell(s, 0);
    let me = md.with_cell(s, md.cells[top]).with_cell(top, 0).at(top);
    lemma_copy_one_shape(m.head, top, s, d);
    law_set(m, d, 0);
    law_set(ma, top, 0);
    lemma_mv(mb, s);
    lemma_split(mc, s, d, top);
    law_move_val(md, top, s);
    lemma_chain4(
        set_code(m.head, d, 0),
        set_code(d, top, 0),
        mv(top, s),
        loop_of(split_body(s, d, top)),
        m,
        ma,
        mb,
        mc,
        md,
    );
    lemma_reaches_concat(
        set_code(m.head, d, 0) + set_code(d, top, 0) + mv(top, s) + loop_of(
            split_body(s, d, top),
        ),
        move_code(s, top, s),
        m,
        md,
        me,
    );
    assert(me.cells =~= goal.cells);
    assert(me == goal);
}

/// Copying `s` into the scratch cell `top` and draining that into `d`.
#[verifier::rlimit(30)]
proof fn lemma_accumulate(m: Machine, top: int, s: int, d: int, op: char)
    requires
        m.wf(),
        top >= 0,
        s >= 0,
        d >= 0,
        s != top,
        s != top + 1,
        d != top,
        d != top + 1,
        op == '+' || op == '-',
    ensures
        reaches(
            set_code(m.head, top, 0) + copy_code(top, top + 1, s, seq![top]) + (mv(top + 1, top)
                + loop_of(drain_body(top, d, op))),
            m,
            m.with_cell(top + 1, 0).with_cell(d, drained(m.cells[d], m.cells[s], op)).with_cell(
                top,
                0,
            ).at(top),
        ),
{
    let goal = m.with_cell(top + 1, 0).with_cell(
        d,
        drained(m.cells[d], m.cells[s], op),
    ).with_cell(top, 0).at(top);
    let ma = m.with_cell(top, 0).at(top);
    let mb = ma.with_cell(top, ma.cells[s]).with_cell(top + 1, 0).at(top + 1);
    let mc = mb.at(top);
    let md = mc.with_cell(d, drained(mc.cells[d], mc.cells[top], op)).with_cell(top, 0);
    law_set(m, top, 0);
    law_copy_val(ma, top + 1, s, top);
    lemma_mv(mb, top);
    lemma_drain(mc, top, d, op);
    lemma_reaches_concat(mv(top + 1, top), loop_of(drain_body(top, d, op)), mb, mc, md);
    lemma_chain3(
        set_code(m.head, top, 0),
        copy_code(top, top + 1, s, seq![top]),
        mv(top + 1, top) + loop_of(drain_body(top, d, op)),
        m,
        ma,
        mb,
        md,
    );
    assert(md.cells =~= goal.cells);
    assert(md == goal);
}

/// `add(s, d)` adds the value of `s` to `d` modulo 256 and leaves its two
/// scratch cells zero, with the head on the first of them.
pub proof fn law_add(m: Machine, top: int, s: int, d: int)
    requires
        m.wf(),
        top >= 0,
        s >= 0,
        d >= 0,
        s != top,
        s != top + 1,
        d != top,
        d != top + 1,
    ensures
        reaches(
            add_code(m.head, top, s, d),
            m,
            m.with_cell(top + 1, 0).with_cell(d, wrap(m.cells[d] + m.cells[s])).with_cell(
                top,
                0,
            ).at(top),
        ),
{
    lemma_accumulate(m, top, s, d, '+');
    assert(dadd_code(top + 1, top, d) =~= mv(top + 1, top) + loop_of(drain_body(top, d, '+')));
}

/// `sub(s, d)` subtracts the value of `s` from `d` modulo 256 and leaves its
/// two scratch cells zero, with the head on the first of them.
pub proof fn law_sub(m: Machine, top: int, s: int, d: int)
    requires
        m.wf(),
        top >= 0,
        s >= 0,
        d >= 0,
        s != top,
        s != top + 1,
        d != top,
        d != top + 1,
    ensures
        reaches(
            sub_code(m.head, top, s, d),
            m,
            m.with_cell(top + 1, 0).with_cell(d, wrap(m.cells[d] - m.cells[s])).with_cell(
                top,
                0,
            ).at(top),
        ),
{
    lemma_accumulate(m, top, s, d, '-');
    assert(dsub_code(top + 1, top, d) =~= mv(top + 1, top) + loop_of(drain_body(top, d, '-')));
}

/// A drain is closed code.
pub proof fn lemma_closed_dadd(h: int, s: int, d: int)
    ensures
        closed(dadd_code(h, s, d)),
        closed(dsub_code(h, s, d)),
{
    lemma_closed_mv(h, s);
    lemma_closed_drain(s, d, '+');
    lemma_closed_drain(s, d, '-');
    lemma_closed_loop(drain_body(s, d, '+'));
    lemma_closed_loop(drain_body(s, d, '-'));
    lemma_closed_concat(mv(h, s), loop_of(drain_body(s, d, '+')));
    lemma_closed_concat(mv(h, s), loop_of(drain_body(s, d, '-')));
}

/// A move is closed code.
pub proof fn lemma_closed_move(h: int, s: int, d: int)
    ensures
        closed(move_code(h, s, d)),
{
    lemma_closed_set(h, d, 0);
    lemma_closed_dadd(d, s, d);
    lemma_closed_concat(set_code(h, d, 0), dadd_code(d, s, d));
}

/// A copy into one cell is closed code.
pub proof fn lemma_closed_copy_one(h: int, top: int, s: int, d: int)
    ensures
        closed(copy_code(h, top, s, seq![d])),
{
    lemma_copy_one_shape(h, top, s, d);
    lemma_closed_set(h, d, 0);
    lemma_closed_set(d, top, 0);
    lemma_closed_mv(top, s);
    lemma_closed_split(s, d, top);
    lemma_closed_loop(split_body(s, d, top));
    lemma_closed_move(s, top, s);
    lemma_closed4(
        set_code(h, d, 0),
        set_code(d, top, 0),
        mv(top, s),
        loop_of(split_body(s, d, top)),
    );
    lemma_closed_concat(
        set_code(h, d, 0) + set_code(d, top, 0) + mv(top, s) + loop_of(split_body(s, d, top)),
        move_code(s, top, s),
    );
}

/// Every piece of code that `add` or `sub` emits is closed.
pub proof fn lemma_closed_add(h: int, top: int, s: int, d: int)
    ensures
        closed(add_code(h, top, s, d)),
        closed(sub_code(h, top, s, d)),
{
    lemma_closed_set(h, top, 0);
    lemma_closed_copy_one(top, top + 1, s, top);
    lemma_closed_dadd(top + 1, top, d);
    lemma_closed_concat(set_code(h, top, 0), copy_code(top, top + 1, s, seq![top]));
    lemma_closed_concat(
        set_code(h, top, 0) + copy_code(top, top + 1, s, seq![top]),
        dadd_code(top + 1, top, d),
    );
    lemma_closed_concat(
        set_code(h, top, 0) + copy_code(top, top + 1, s, seq![top]),
        dsub_code(top + 1, top, d),
    );
}

/// Every piece of code that `mul` emits is closed.
pub proof fn lemma_closed_mul(h: int, top: int, s: int, d: int)
    ensures
        closed(mul_code(h, top, s, d)),
{
    lemma_closed_set(h, top, 0);
    lemma_closed_copy_one(top, top + 1, d, top);
    lemma_closed_set(top + 1, d, 0);
    lemma_closed_mv(d, top);
    lemma_closed_op('-');
    lemma_closed_add(top, top + 1, s, d);
    lemma_closed_mv(top + 1, top);
    lemma_closed_concat(seq!['-'], add_code(top, top + 1, s, d));
    lemma_closed_concat(seq!['-'] + add_code(top, top + 1, s, d), mv(top + 1, top));
    lemma_closed_loop(mul_body(top, s, d));
    lemma_closed4(
        set_code(h, top, 0),
        copy_code(top, top + 1, d, seq![top]),
        set_code(top + 1, d, 0),
        mv(d, top),
    );
    lemma_closed_concat(
        set_code(h, top, 0) + copy_code(top, top + 1, d, seq![top]) + set_code(top + 1, d, 0) + mv(
            d,
            top,
        ),
        loop_of(mul_body(top, s, d)),
    );
}

/// Adding `n` once and then `k - 1` times more is adding it `k` times,
/// modulo 256.
pub proof fn lemma_wrap_step(d: int, n: int, k: int)
    requires
        k >= 1,
    ensures
        wrap(wrap(d + n) + (k - 1) * n) == wrap(d + k * n),
        k == 1 ==> wrap(d + k * n) == wrap(d + n),
{
    let p = (k - 1) * n;
    assert(k * n == p + n) by (nonlinear_arith)
        requires
            p == (k - 1) * n,
    ;
    assert(((d + n) % 256 + p) % 256 == (d + n + p) % 256);
    if k == 1 {
        assert(p == 0);
    }
}

/// Body of the loop by which `mul` adds cell `s` to cell `d` once for each
/// unit of the counter in cell `top`.
pub open spec fn mul_body(top: int, s: int, d: int) -> Seq<char> {
    seq!['-'] + add_code(top, top + 1, s, d) + mv(top + 1, top)
}

/// The state in which the multiplication loop ends: the counter and, once the
/// loop ran, its scratch cells are zero and `d` has grown by counter times
/// `s`.
pub open spec fn mul_loop_end(m: Machine, top: int, s: int, d: int) -> Machine {
    if m.cells[top] == 0 {
        m
    } else {
        m.with_cell(top + 2, 0).with_cell(top + 1, 0).with_cell(
            d,
            wrap(m.cells[d] + m.cells[top] * m.cells[s]),
        ).with_cell(top, 0)
    }
}

/// The multiplication loop, entered with the head on the counter.
#[verifier::rlimit(30)]
pub proof fn lemma_mul_loop(m: Machine, top: int, s: int, d: int)
    requires
        m.wf(),
        m.head == top,
        top >= 0,
        s >= 0,
        d >= 0,
        s != d,
        s != top,
        s != top + 1,
        s != top + 2,
        d != top,
        d != top + 1,
        d != top + 2,
    ensures
        reaches(loop_of(mul_body(top, s, d)), m, mul_loop_end(m, top, s, d)),
    decreases m.cells[top],
{
    let body = mul_body(top, s, d);
    let goal = mul_loop_end(m, top, s, d);
    lemma_closed_op('-');
    lemma_closed_add(top, top + 1, s, d);
    lemma_closed_mv(top + 1, top);
    lemma_closed_concat(seq!['-'], add_code(top, top + 1, s, d));
    lemma_closed_concat(seq!['-'] + add_code(top, top + 1, s, d), mv(top + 1, top));
    if m.cells[top] == 0 {
        lemma_reaches_loop_exit(body, m);
    } else {
        let k = m.cells[top] as int;
        let s0 = m.cells[s] as int;
        let m1 = m.put(dec_byte(m.cur()));
        let m2 = m1.with_cell(top + 2, 0).with_cell(d, wrap(m1.cells[d] + m1.cells[s])).with_cell(
            top + 1,
            0,
        ).at(top + 1);
        let m3 = m2.at(top);
        lemma_reaches_op('-', m);
        law_add(m1, top + 1, s, d);
        lemma_mv(m2, top);
        lemma_chain3(seq!['-'], add_code(top, top + 1, s, d), mv(top + 1, top), m, m1, m2, m3);
        lemma_mul_loop(m3, top, s, d);
        let end = mul_loop_end(m3, top, s, d);
        lemma_wrap_step(m.cells[d] as int, s0, k);
        assert(m3.cells[top] == k - 1);
        assert(m3.cells[s] == s0);
        assert(m3.cells[d] == wrap(m.cells[d] + s0));
        assert(end.cells[d] == goal.cells[d]);
        assert(end.cells =~= goal.cells);
        assert(end == goal);
        lemma_reaches_loop_iter(body, m, m3, goal);
    }
}

/// `mul(s, d)` leaves the product modulo 256 in `d` and keeps `s`. Its
/// counter cell `top` and the scratch cell behind it end zero, with the head
/// on `top`; the second scratch cell ends zero whenever the loop ran.
#[verifier::rlimit(30)]
pub proof fn law_mul(m: Machine, top: int, s: int, d: int)
    requires
        m.wf(),
        top >= 0,
        s >= 0,
        d >= 0,
        s != d,
        s != top,
        s != top + 1,
        s != top + 2,
        d != top,
        d != top + 1,
        d != top + 2,
    ensures
        reaches(
            mul_code(m.head, top, s, d),
            m,
            m.with_cell(
                top + 2,
                if m.cells[d] == 0 {
                    m.cells[top + 2]
                } else {
                    0
                },
            ).with_cell(top + 1, 0).with_cell(d, wrap(m.cells[d] * m.cells[s])).with_cell(
                top,
                0,
            ).at(top),
        ),
{
    let goal = m.with_cell(
        top + 2,
        if m.cells[d] == 0 {
            m.cells[top + 2]
        } else {
            0
        },
    ).with_cell(top + 1, 0).with_cell(d, wrap(m.cells[d] * m.cells[s])).with_cell(top, 0).at(
        top,
    );
    let ma = m.with_cell(top, 0).at(top);
    let mb = ma.with_cell(top, ma.cells[d]).with_cell(top + 1, 0).at(top + 1);
    let mc = mb.with_cell(d, 0).at(d);
    let md = mc.at(top);
    let me = mul_loop_end(md, top, s, d);
    law_set(m, top, 0);
    law_copy_val(ma, top + 1, d, top);
    law_set(mb, d, 0);
    lemma_mv(mc, top);
    lemma_mul_loop(md, top, s, d);
    lemma_chain4(
        set_code(m.head, top, 0),
        copy_code(top, top + 1, d, seq![top]),
        set_code(top + 1, d, 0),
        mv(d, top),
        m,
        ma,
        mb,
        mc,
        md,
    );
    lemma_reaches_concat(
        set_code(m.head, top, 0) + copy_code(top, top + 1, d, seq![top]) + set_code(
            top + 1,
            d,
            0,
        ) + mv(d, top),
        loop_of(mul_body(top, s, d)),
        m,
        md,
        me,
    );
    assert(me.cells =~= goal.cells);
    assert(me == goal);
}

/// `isqrt(v)` is the integer square root of `v`.
pub proof fn lemma_isqrt(v: int)
    requires
        v >= 0,
    ensures
        isqrt(v) >= 0,
        isqrt(v) * isqrt(v) <= v < (isqrt(v) + 1) * (isqrt(v) + 1),
    decreases v,
{
    if v > 0 {
        lemma_isqrt(v - 1);
        let s = isqrt(v - 1);
        assert((s + 2) * (s + 2) > (s + 1) * (s + 1)) by (nonlinear_arith)
            requires
                s >= 0,
        ;
    }
}

/// Body of the loop by which `set_with_gcf` adds `n` to cell `i` once for
/// each unit of the counter in cell `t`.
pub open spec fn gcf_body(i: int, t: int, n: int) -> Seq<char> {
    seq!['-'] + mv(t, i) + repeat('+', n) + mv(i, t)
}

/// The counting loop of `set_with_gcf`, entered with the head on the counter.
#[verifier::rlimit(30)]
pub proof fn lemma_gcf_loop(m: Machine, i: int, t: int, n: int)
    requires
        m.wf(),
        m.head == t,
        i >= 0,
        i != t,
        n >= 0,
    ensures
        reaches(
            loop_of(gcf_body(i, t, n)),
            m,
            m.with_cell(i, wrap(m.cells[i] + m.cells[t] * n)).with_cell(t, 0),
        ),
    decreases m.cells[t],
{
    let body = gcf_body(i, t, n);
    let goal = m.with_cell(i, wrap(m.cells[i] + m.cells[t] * n)).with_cell(t, 0);
    lemma_closed_op('-');
    lemma_closed_mv(t, i);
    lemma_closed_repeat('+', n);
    lemma_closed_mv(i, t);
    lemma_closed4(seq!['-'], mv(t, i), repeat('+', n), mv(i, t));
    if m.cells[t] == 0 {
        lemma_reaches_loop_exit(body, m);
        assert(m.cells[t] * n == 0) by (nonlinear_arith)
            requires
                m.cells[t] == 0,
        ;
        assert(goal.cells =~= m.cells);
        assert(goal == m);
    } else {
        let k = m.cells[t] as int;
        let m1 = m.put(dec_byte(m.cur()));
        let m2 = m1.at(i);
        let m3 = m2.put(wrap(m2.cur() + n));
        let m4 = m3.at(t);
        lemma_reaches_op('-', m);
        lemma_mv(m1, i);
        lemma_plus(m2, n);
        lemma_mv(m3, t);
        lemma_chain4(seq!['-'], mv(t, i), repeat('+', n), mv(i, t), m, m1, m2, m3, m4);
        lemma_gcf_loop(m4, i, t, n);
        let end = m4.with_cell(i, wrap(m4.cells[i] + m4.cells[t] * n)).with_cell(t, 0);
        lemma_wrap_step(m.cells[i] as int, n, k);
        assert(m4.cells[t] == k - 1);
        assert(m4.cells[i] == wrap(m.cells[i] + n));
        assert(end.cells[i] == goal.cells[i]);
        assert(end.cells =~= goal.cells);
        assert(end == goal);
        lemma_reaches_loop_iter(body, m, m4, goal);
    }
}

/// `set_with_gcf(i, t, v)`, started with zero in `t` and, from 16 upwards,
/// zero in `i`, leaves `v` in `i` and zero in `t`.
#[verifier::rlimit(30)]
pub proof fn law_set_with_gcf(m: Machine, i: int, t: int, v: int)
    requires
        m.wf(),
        i >= 0,
        t >= 0,
        i != t,
        0 <= v < 256,
        m.cells[t] == 0,
        v < 16 || m.cells[i] == 0,
    ensures
        reaches(
            gcf_code(m.head, i, t, v),
            m,
            m.with_cell(i, v as u8).at(gcf_head(i, t, v)),
        ),
{
    let goal = m.with_cell(i, v as u8).at(gcf_head(i, t, v));
    if v < 16 {
        law_set(m, i, v);
    } else {
        let s = isqrt(v);
        let r = v - s * s;
        lemma_isqrt(v);
        assert(s < 16) by (nonlinear_arith)
            requires
                s * s <= v,
                v < 256,
                s >= 0,
        ;
        let m1 = m.at(t);
        let m2 = m1.put(wrap(m1.cur() + s));
        let m3 = m2.with_cell(i, wrap(m2.cells[i] + m2.cells[t] * s)).with_cell(t, 0);
        lemma_mv(m, t);
        lemma_plus(m1, s);
        lemma_gcf_loop(m2, i, t, s);
        let square = s * s;
        assert(0 <= square <= v);
        assert(m2.cells[t] == s);
        assert(m2.cells[i] == 0);
        assert(m2.cells[t] * s == square);
        assert(m3.cells[i] == square);
        assert(m3.cells[t] == 0);
        lemma_chain3(
            mv(m.head, t),
            repeat('+', s),
            loop_of(gcf_body(i, t, s)),
            m,
            m1,
            m2,
            m3,
        );
        let front = mv(m.head, t) + repeat('+', s) + loop_of(gcf_body(i, t, s));
        if r > 0 {
            let m4 = m3.at(i);
            let m5 = m4.put(wrap(m4.cur() + r));
            lemma_mv(m3, i);
            lemma_plus(m4, r);
            lemma_reaches_concat(mv(t, i), repeat('+', r), m3, m4, m5);
            lemma_reaches_concat(front, mv(t, i) + repeat('+', r), m, m3, m5);
            assert(m5.cells[i] == v);
            assert(m5.cells =~= goal.cells);
            assert(m5 == goal);
        } else {
            assert(front + Seq::<char>::empty() =~= front);
            assert(m3.cells =~= goal.cells);
            assert(m3 == goal);
        }
    }
}

/// Moving a value from `a` to an empty cell `b` and back restores every
/// cell; the head ends on `b`.
pub proof fn law_move_round_trip(m: Machine, a: int, b: int)
    requires
        m.wf(),
        a >= 0,
        b >= 0,
        a != b,
        m.cells[b] == 0,
    ensures
        reaches(move_code(m.head, a, b) + move_code(a, b, a), m, m.at(b)),
{
    let m1 = m.with_cell(b, m.cells[a]).with_cell(a, 0).at(a);
    let m2 = m1.with_cell(a, m1.cells[b]).with_cell(b, 0).at(b);
    law_move_val(m, a, b);
    law_move_val(m1, b, a);
    lemma_reaches_concat(move_code(m.head, a, b), move_code(a, b, a), m, m1, m2);
    assert(m2.cells =~= m.at(b).cells);
    assert(m2 == m.at(b));
}

/// Copying `a` into `b` and then clearing `a` ends in the state in which
/// moving `a` to `b` ends, when the copy's scratch cell `top` was zero.
pub proof fn law_copy_then_clear_is_move(m: Machine, top: int, a: int, b: int)
    requires
        m.wf(),
        top >= 0,
        a >= 0,
        b >= 0,
        a != b,
        a != top,
        b != top,
        m.cells[top] == 0,
    ensures
        reaches(
            copy_code(m.head, top, a, seq![b]) + set_code(top, a, 0),
            m,
            m.with_cell(b, m.cells[a]).with_cell(a, 0).at(a),
        ),
        reaches(move_code(m.head, a, b), m, m.with_cell(b, m.cells[a]).with_cell(a, 0).at(a)),
{
    let goal = m.with_cell(b, m.cells[a]).with_cell(a, 0).at(a);
    let m1 = m.with_cell(b, m.cells[a]).with_cell(top, 0).at(top);
    let m2 = m1.with_cell(a, 0).at(a);
    law_copy_val(m, top, a, b);
    law_set(m1, a, 0);
    lemma_reaches_concat(copy_code(m.head, top, a, seq![b]), set_code(top, a, 0), m, m1, m2);
    assert(m2.cells =~= goal.cells);
    assert(m2 == goal);
    law_move_val(m, a, b);
}

/// A loop whose body leaves zero under the head runs once.
pub proof fn lemma_loop_once(body: Seq<char>, m: Machine, m1: Machine)
    requires
        closed(body),
        m.cur() != 0,
        reaches(body, m, m1),
        m1.cur() == 0,
    ensures
        reaches(loop_of(body), m, m1),
{
    lemma_reaches_loop_exit(body, m1);
    lemma_reaches_loop_iter(body, m, m1, m1);
}

/// The code of `set_with_gcf` is closed.
pub proof fn lemma_closed_gcf(h: int, i: int, t: int, v: int)
    ensures
        closed(gcf_code(h, i, t, v)),
{
    if v < 16 {
        lemma_closed_set(h, i, v);
    } else {
        let s = isqrt(v);
        let r = v - s * s;
        lemma_closed_mv(h, t);
        lemma_closed_repeat('+', s);
        lemma_closed_op('-');
        lemma_closed_mv(t, i);
        lemma_closed_mv(i, t);
        lemma_closed4(seq!['-'], mv(t, i), repeat('+', s), mv(i, t));
        lemma_closed_loop(gcf_body(i, t, s));
        lemma_closed_concat(mv(h, t), repeat('+', s));
        lemma_closed_concat(mv(h, t) + repeat('+', s), loop_of(gcf_body(i, t, s)));
        let front = mv(h, t) + repeat('+', s) + loop_of(gcf_body(i, t, s));
        if r > 0 {
            lemma_closed_repeat('+', r);
            lemma_closed_concat(mv(t, i), repeat('+', r));
            lemma_closed_concat(front, mv(t, i) + repeat('+', r));
        } else {
            assert(front + Seq::<char>::empty() =~= front);
        }
    }
}

/// No cell occurs twice in the list.
pub open spec fn no_repeats(cells: Seq<int>) -> bool {
    forall|i: int, j: int| 0 <= i < j < cells.len() ==> cells[i] != cells[j]
}

/// The machine with `k` added, modulo 256, to each cell of the list.
pub open spec fn raised(m: Machine, cells: Seq<int>, k: int) -> Machine {
    Machine {
        cells: Map::new(
            |c: int| true,
            |c: int|
                if cells.contains(c) {
                    wrap(m.cells[c] + k)
                } else {
                    m.cells[c]
                },
        ),
        ..m
    }
}

/// The machine with zero in each cell of the list.
pub open spec fn zeroed(m: Machine, cells: Seq<int>) -> Machine {
    Machine {
        cells: Map::new(
            |c: int| true,
            |c: int|
                if cells.contains(c) {
                    0u8
                } else {
                    m.cells[c]
                },
        ),
        ..m
    }
}

/// A cell is in a list when it is the last of the list or in the rest.
pub proof fn lemma_contains_last(cells: Seq<int>, c: int)
    requires
        cells.len() > 0,
    ensures
        cells.contains(c) <==> (c == cells.last() || cells.drop_last().contains(c)),
{
    let front = cells.drop_last();
    if cells.contains(c) {
        let i = choose|i: int| 0 <= i < cells.len() && cells[i] == c;
        if i < cells.len() - 1 {
            assert(front[i] == c);
        }
    }
    if front.contains(c) {
        let i = choose|i: int| 0 <= i < front.len() && front[i] == c;
        assert(cells[i] == c);
    }
    if c == cells.last() {
        assert(cells[cells.len() - 1] == c);
    }
}

/// Clearing each cell of a list leaves zero in each, with the head on the
/// last.
#[verifier::rlimit(30)]
pub proof fn lemma_clear_all(m: Machine, cells: Seq<int>)
    requires
        m.wf(),
        forall|k: int| 0 <= k < cells.len() ==> #[trigger] cells[k] >= 0,
    ensures
        reaches(
            crate::code::clear_all(m.head, cells),
            m,
            zeroed(m, cells).at(crate::code::last_or(m.head, cells)),
        ),
    decreases cells.len(),
{
    let goal = zeroed(m, cells).at(crate::code::last_or(m.head, cells));
    if cells.len() == 0 {
        lemma_reaches_empty(m);
        assert(goal.cells =~= m.cells);
        assert(goal == m);
    } else {
        let front = cells.drop_last();
        assert forall|k: int| 0 <= k < front.len() implies #[trigger] front[k] >= 0 by {
            assert(front[k] == cells[k]);
        }
        lemma_clear_all(m, front);
        let m1 = zeroed(m, front).at(crate::code::last_or(m.head, front));
        assert(cells[cells.len() - 1] >= 0);
        law_set(m1, cells.last(), 0);
        let m2 = m1.with_cell(cells.last(), 0).at(cells.last());
        lemma_reaches_concat(
            crate::code::clear_all(m.head, front),
            set_code(m1.head, cells.last(), 0),
            m,
            m1,
            m2,
        );
        assert forall|c: int| m2.cells[c] == goal.cells[c] by {
            lemma_contains_last(cells, c);
        }
        assert(m2.cells =~= goal.cells);
        assert(m2 == goal);
    }
}

/// Adding one to each cell of a list of distinct cells.
#[verifier::rlimit(30)]
pub proof fn lemma_spread(m: Machine, cells: Seq<int>)
    requires
        m.wf(),
        no_repeats(cells),
        forall|k: int| 0 <= k < cells.len() ==> #[trigger] cells[k] >= 0,
    ensures
        reaches(
            crate::code::spread(m.head, cells),
            m,
            raised(m, cells, 1).at(crate::code::last_or(m.head, cells)),
        ),
    decreases cells.len(),
{
    let goal = raised(m, cells, 1).at(crate::code::last_or(m.head, cells));
    if cells.len() == 0 {
        lemma_reaches_empty(m);
        assert(goal.cells =~= m.cells);
        assert(goal == m);
    } else {
        let front = cells.drop_last();
        let last = cells.last();
        assert forall|k: int| 0 <= k < front.len() implies #[trigger] front[k] >= 0 by {
            assert(front[k] == cells[k]);
        }
        assert(no_repeats(front)) by {
            assert forall|i: int, j: int| 0 <= i < j < front.len() implies front[i] != front[j] by {
                assert(front[i] == cells[i]);
                assert(front[j] == cells[j]);
            }
        }
        lemma_spread(m, front);
        let m1 = raised(m, front, 1).at(crate::code::last_or(m.head, front));
        assert(cells[cells.len() - 1] >= 0);
        lemma_mv(m1, last);
        let m2 = m1.at(last);
        lemma_reaches_op('+', m2);
        let m3 = m2.put(inc_byte(m2.cur()));
        lemma_chain3(
            crate::code::spread(m.head, front),
            mv(m1.head, last),
            seq!['+'],
            m,
            m1,
            m2,
            m3,
        );
        assert(!front.contains(last)) by {
            if front.contains(last) {
                let i = choose|i: int| 0 <= i < front.len() && front[i] == last;
                assert(cells[i] == cells[cells.len() - 1]);
            }
        }
        assert forall|c: int| m3.cells[c] == goal.cells[c] by {
            lemma_contains_last(cells, c);
        }
        assert(m3.cells =~= goal.cells);
        assert(m3 == goal);
    }
}

/// Body of the loop by which `copy_val` splits cell `s` into the cells of
/// `dests` and cell `t`.
pub open spec fn fan_body(s: int, dests: Seq<int>, t: int) -> Seq<char> {
    seq!['-'] + crate::code::spread(s, dests) + mv(crate::code::last_or(s, dests), t) + seq!['+']
        + mv(t, s)
}

/// The machine after the fan loop: the source is empty and its value was
/// added to each destination and to `t`.
pub open spec fn fanned(m: Machine, s: int, dests: Seq<int>, t: int) -> Machine {
    raised(m, dests, m.cells[s] as int).with_cell(t, wrap(m.cells[t] + m.cells[s])).with_cell(
        s,
        0,
    )
}

/// The fan body is closed code.
pub proof fn lemma_closed_fan(s: int, dests: Seq<int>, t: int)
    ensures
        closed(fan_body(s, dests, t)),
    decreases dests.len(),
{
    lemma_closed_op('-');
    lemma_closed_op('+');
    lemma_closed_spread_list(s, dests);
    lemma_closed_mv(crate::code::last_or(s, dests), t);
    lemma_closed_mv(t, s);
    lemma_closed4(
        seq!['-'],
        crate::code::spread(s, dests),
        mv(crate::code::last_or(s, dests), t),
        seq!['+'],
    );
    lemma_closed_concat(
        seq!['-'] + crate::code::spread(s, dests) + mv(crate::code::last_or(s, dests), t) + seq![
            '+',
        ],
        mv(t, s),
    );
}

/// The code that adds one to each cell of a list is closed.
pub proof fn lemma_closed_spread_list(h: int, cells: Seq<int>)
    ensures
        closed(crate::code::spread(h, cells)),
    decreases cells.len(),
{
    if cells.len() > 0 {
        let front = cells.drop_last();
        lemma_closed_spread_list(h, front);
        lemma_closed_mv(crate::code::last_or(h, front), cells.last());
        lemma_closed_op('+');
        lemma_closed_concat(
            crate::code::spread(h, front),
            mv(crate::code::last_or(h, front), cells.last()),
        );
        lemma_closed_concat(
            crate::code::spread(h, front) + mv(crate::code::last_or(h, front), cells.last()),
            seq!['+'],
        );
    }
}

/// The code that clears each cell of a list is closed.
pub proof fn lemma_closed_clear_all(h: int, cells: Seq<int>)
    ensures
        closed(crate::code::clear_all(h, cells)),
    decreases cells.len(),
{
    if cells.len() > 0 {
        let front = cells.drop_last();
        lemma_closed_clear_all(h, front);
        lemma_closed_set(crate::code::last_or(h, front), cells.last(), 0);
        lemma_closed_concat(
            crate::code::clear_all(h, front),
            set_code(crate::code::last_or(h, front), cells.last(), 0),
        );
    }
}

/// One more turn of the fan loop ends where the loop ends.
proof fn lemma_fan_step(m: Machine, m5: Machine, s: int, dests: Seq<int>, t: int)
    requires
        m.wf(),
        m5.wf(),
        s != t,
        !dests.contains(s),
        !dests.contains(t),
        m.cells[s] != 0,
        m5.cells[s] == m.cells[s] - 1,
        m5.cells[t] == wrap(m.cells[t] + 1),
        forall|c: int| c != s && c != t ==> #[trigger] m5.cells[c] == raised(m, dests, 1).cells[c],
        m5.head == m.head,
        m5.input == m.input,
        m5.output == m.output,
    ensures
        fanned(m5, s, dests, t) == fanned(m, s, dests, t),
{
    let end = fanned(m5, s, dests, t);
    let goal = fanned(m, s, dests, t);
    let k = m.cells[s] as int;
    assert forall|c: int| end.cells[c] == goal.cells[c] by {
        if c == s {
        } else if c == t {
            assert(wrap(wrap(m.cells[t] + 1) + (k - 1)) == wrap(m.cells[t] + k));
        } else if dests.contains(c) {
            assert(m5.cells[c] == wrap(m.cells[c] + 1));
            assert(wrap(wrap(m.cells[c] + 1) + (k - 1)) == wrap(m.cells[c] + k));
        } else {
            assert(m5.cells[c] == m.cells[c]);
        }
    }
    assert(end.cells =~= goal.cells);
}

/// The fan loop, entered with the head on the source `s`.
#[verifier::rlimit(30)]
pub proof fn lemma_fan(m: Machine, s: int, dests: Seq<int>, t: int)
    requires
        m.wf(),
        m.head == s,
        s >= 0,
        t >= 0,
        s != t,
        no_repeats(dests),
        !dests.contains(s),
        !dests.contains(t),
        forall|k: int| 0 <= k < dests.len() ==> #[trigger] dests[k] >= 0,
    ensures
        reaches(loop_of(fan_body(s, dests, t)), m, fanned(m, s, dests, t)),
    decreases m.cells[s],
{
    let body = fan_body(s, dests, t);
    let goal = fanned(m, s, dests, t);
    lemma_closed_fan(s, dests, t);
    if m.cells[s] == 0 {
        lemma_reaches_loop_exit(body, m);
        assert(goal.cells =~= m.cells);
        assert(goal == m);
    } else {
        let m1 = m.put(dec_byte(m.cur()));
        let m2 = raised(m1, dests, 1).at(crate::code::last_or(s, dests));
        let m3 = m2.at(t);
        let m4 = m3.put(inc_byte(m3.cur()));
        let m5 = m4.at(s);
        lemma_reaches_op('-', m);
        lemma_spread(m1, dests);
        if dests.len() > 0 {
            assert(dests[dests.len() - 1] >= 0);
        }
        lemma_mv(m2, t);
        lemma_reaches_op('+', m3);
        lemma_mv(m4, s);
        lemma_chain4(
            seq!['-'],
            crate::code::spread(s, dests),
            mv(crate::code::last_or(s, dests), t),
            seq!['+'],
            m,
            m1,
            m2,
            m3,
            m4,
        );
        lemma_reaches_concat(
            seq!['-'] + crate::code::spread(s, dests) + mv(crate::code::last_or(s, dests), t)
                + seq!['+'],
            mv(t, s),
            m,
            m4,
            m5,
        );
        lemma_fan(m5, s, dests, t);
        assert(m5.cells[s] == m.cells[s] - 1);
        assert(m5.cells[t] == wrap(m.cells[t] + 1));
        assert forall|c: int| c != s && c != t implies #[trigger] m5.cells[c] == raised(
            m,
            dests,
            1,
        ).cells[c] by {}
        lemma_fan_step(m, m5, s, dests, t);
        lemma_reaches_loop_iter(body, m, m5, goal);
    }
}

/// The machine after `copy_val`: the value of `s` is in each destination,
/// and the scratch cell `top` is zero with the head on it.
pub open spec fn copied(m: Machine, top: int, s: int, dests: Seq<int>) -> Machine {
    Machine {
        cells: Map::new(
            |c: int| true,
            |c: int|
                if dests.contains(c) {
                    m.cells[s]
                } else if c == top {
                    0u8
                } else {
                    m.cells[c]
                },
        ),
        head: top,
        ..m
    }
}

/// `copy_val(s, dests)` leaves the value of `s` in each of the distinct
/// cells `dests`, keeps `s`, and leaves its scratch cell `top` zero with
/// the head on it.
#[verifier::rlimit(30)]
pub proof fn law_copy_val_all(m: Machine, top: int, s: int, dests: Seq<int>)
    requires
        m.wf(),
        top >= 0,
        s >= 0,
        s != top,
        no_repeats(dests),
        !dests.contains(s),
        !dests.contains(top),
        forall|k: int| 0 <= k < dests.len() ==> #[trigger] dests[k] >= 0,
    ensures
        reaches(copy_code(m.head, top, s, dests), m, copied(m, top, s, dests)),
        closed(copy_code(m.head, top, s, dests)),
{
    let h1 = crate::code::last_or(m.head, dests);
    let goal = copied(m, top, s, dests);
    let ma = zeroed(m, dests).at(h1);
    let mb = ma.with_cell(top, 0).at(top);
    let mc = mb.at(s);
    let md = fanned(mc, s, dests, top);
    let me = md.with_cell(s, md.cells[top]).with_cell(top, 0).at(top);
    lemma_clear_all(m, dests);
    law_set(ma, top, 0);
    lemma_mv(mb, s);
    lemma_fan(mc, s, dests, top);
    law_move_val(md, top, s);
    lemma_chain4(
        crate::code::clear_all(m.head, dests),
        set_code(h1, top, 0),
        mv(top, s),
        loop_of(fan_body(s, dests, top)),
        m,
        ma,
        mb,
        mc,
        md,
    );
    lemma_reaches_concat(
        crate::code::clear_all(m.head, dests) + set_code(h1, top, 0) + mv(top, s) + loop_of(
            fan_body(s, dests, top),
        ),
        move_code(s, top, s),
        m,
        md,
        me,
    );
    assert(me.cells =~= goal.cells);
    assert(me == goal);
    lemma_closed_clear_all(m.head, dests);
    lemma_closed_set(h1, top, 0);
    lemma_closed_mv(top, s);
    lemma_closed_fan(s, dests, top);
    lemma_closed_loop(fan_body(s, dests, top));
    lemma_closed_move(s, top, s);
    lemma_closed4(
        crate::code::clear_all(m.head, dests),
        set_code(h1, top, 0),
        mv(top, s),
        loop_of(fan_body(s, dests, top)),
    );
    lemma_closed_concat(
        crate::code::clear_all(m.head, dests) + set_code(h1, top, 0) + mv(top, s) + loop_of(
            fan_body(s, dests, top),
        ),
        move_code(s, top, s),
    );
}

/// The machine after `calloc`: the `n` cells from `base` on hold zero and
/// the head is on the last of them; with no cell to clear, nothing changed.
pub open spec fn wiped(m: Machine, base: int, n: int) -> Machine {
    Machine {
        cells: Map::new(
            |c: int| true,
            |c: int|
                if base <= c < base + n {
                    0u8
                } else {
                    m.cells[c]
                },
        ),
        head: if n > 0 {
            base + n - 1
        } else {
            m.head
        },
        ..m
    }
}

/// `calloc(n)` leaves zero in each of the `n` cells it reserved, whatever
/// they held, with the head on the last of them, and changes no other cell.
pub proof fn law_calloc(m: Machine, base: int, n: int)
    requires
        m.wf(),
        base >= 0,
    ensures
        reaches(crate::code::calloc_code(m.head, base, n), m, wiped(m, base, n)),
        closed(crate::code::calloc_code(m.head, base, n)),
    decreases n,
{
    let goal = wiped(m, base, n);
    if n <= 0 {
        lemma_reaches_empty(m);
        assert(goal.cells =~= m.cells);
        assert(goal == m);
    } else {
        law_calloc(m, base, n - 1);
        let m1 = wiped(m, base, n - 1);
        law_set(m1, base + n - 1, 0);
        lemma_closed_set(m1.head, base + n - 1, 0);
        let m2 = m1.with_cell(base + n - 1, 0).at(base + n - 1);
        lemma_reaches_concat(
            crate::code::calloc_code(m.head, base, n - 1),
            set_code(m1.head, base + n - 1, 0),
            m,
            m1,
            m2,
        );
        lemma_closed_concat(
            crate::code::calloc_code(m.head, base, n - 1),
            set_code(m1.head, base + n - 1, 0),
        );
        assert(m2.cells =~= goal.cells);
        assert(m2 == goal);
    }
}

} // verus!
