//! Head synchrony: on a tape of zeros, the code of every primitive leaves
//! the machine's head where the generator's simulated head is.

use vstd::prelude::*;
use crate::code::{
    add_code, calloc_code, clear_all, copy_code, dadd_code, dsub_code, gcf_code, gcf_head,
    last_or, move_code, mul_code, mv, set_code, spread, sub_code,
};
use crate::laws::{
    drain_body, law_set, law_set_with_gcf, lemma_chain3, lemma_chain4, lemma_closed4,
    lemma_closed_add, lemma_closed_drain, lemma_closed_spread_list, lemma_closed_mv,
    lemma_closed_op, lemma_mv, mul_body,
};
use crate::state::GenState;
use crate::machine::{
    lemma_closed_concat, lemma_reaches_concat, lemma_reaches_empty, lemma_reaches_loop_exit,
    loop_of, reaches, Machine,
};

verus! {

/// Every cell from 0 on holds zero.
pub open spec fn zero_tape(m: Machine) -> bool {
    &&& m.wf()
    &&& forall|i: int| i >= 0 ==> #[trigger] m.cells[i] == 0
}

/// All of `cells` are on the tape.
pub open spec fn on_tape(cells: Seq<int>) -> bool {
    forall|k: int| 0 <= k < cells.len() ==> #[trigger] cells[k] >= 0
}

/// Storing zero on a tape of zeros only moves the head.
pub proof fn zero_set(m: Machine, i: int)
    requires
        zero_tape(m),
        i >= 0,
    ensures
        reaches(set_code(m.head, i, 0), m, m.at(i)),
{
    law_set(m, i, 0);
    assert(m.with_cell(i, 0).cells =~= m.cells);
    assert(m.with_cell(i, 0).at(i) == m.at(i));
}

/// `dadd` and `dsub` on a tape of zeros leave the head on the source.
pub proof fn zero_drain(m: Machine, s: int, d: int)
    requires
        zero_tape(m),
        s >= 0,
    ensures
        reaches(dadd_code(m.head, s, d), m, m.at(s)),
        reaches(dsub_code(m.head, s, d), m, m.at(s)),
{
    lemma_mv(m, s);
    lemma_closed_drain(s, d, '+');
    lemma_closed_drain(s, d, '-');
    lemma_reaches_loop_exit(drain_body(s, d, '+'), m.at(s));
    lemma_reaches_loop_exit(drain_body(s, d, '-'), m.at(s));
    lemma_reaches_concat(mv(m.head, s), loop_of(drain_body(s, d, '+')), m, m.at(s), m.at(s));
    lemma_reaches_concat(mv(m.head, s), loop_of(drain_body(s, d, '-')), m, m.at(s), m.at(s));
}

/// `move_val` on a tape of zeros leaves the head on the source.
pub proof fn zero_move(m: Machine, s: int, d: int)
    requires
        zero_tape(m),
        s >= 0,
        d >= 0,
    ensures
        reaches(move_code(m.head, s, d), m, m.at(s)),
{
    zero_set(m, d);
    zero_drain(m.at(d), s, d);
    lemma_reaches_concat(set_code(m.head, d, 0), dadd_code(d, s, d), m, m.at(d), m.at(s));
}

/// Clearing a list of cells on a tape of zeros leaves the head on the
/// last of them.
pub proof fn zero_clear_all(m: Machine, cells: Seq<int>)
    requires
        zero_tape(m),
        on_tape(cells),
    ensures
        reaches(clear_all(m.head, cells), m, m.at(last_or(m.head, cells))),
    decreases cells.len(),
{
    if cells.len() == 0 {
        lemma_reaches_empty(m);
        assert(m.at(m.head) == m);
    } else {
        let front = cells.drop_last();
        assert(on_tape(front)) by {
            assert forall|k: int| 0 <= k < front.len() implies #[trigger] front[k] >= 0 by {
                assert(front[k] == cells[k]);
            }
        }
        zero_clear_all(m, front);
        let m1 = m.at(last_or(m.head, front));
        assert(cells[cells.len() - 1] >= 0);
        zero_set(m1, cells.last());
        lemma_reaches_concat(
            clear_all(m.head, front),
            set_code(last_or(m.head, front), cells.last(), 0),
            m,
            m1,
            m.at(cells.last()),
        );
    }
}

/// `copy_val` on a tape of zeros leaves the head on its scratch cell.
pub proof fn zero_copy(m: Machine, top: int, s: int, dests: Seq<int>)
    requires
        zero_tape(m),
        top >= 0,
        s >= 0,
        on_tape(dests),
    ensures
        reaches(copy_code(m.head, top, s, dests), m, m.at(top)),
{
    let h1 = last_or(m.head, dests);
    let body = seq!['-'] + spread(s, dests) + mv(last_or(s, dests), top) + seq!['+'] + mv(top, s);
    zero_clear_all(m, dests);
    if dests.len() > 0 {
        assert(dests[dests.len() - 1] >= 0);
    }
    zero_set(m.at(h1), top);
    lemma_mv(m.at(top), s);
    lemma_closed_op('-');
    lemma_closed_op('+');
    lemma_closed_spread_list(s, dests);
    lemma_closed_mv(last_or(s, dests), top);
    lemma_closed_mv(top, s);
    lemma_closed4(seq!['-'], spread(s, dests), mv(last_or(s, dests), top), seq!['+']);
    lemma_closed_concat(
        seq!['-'] + spread(s, dests) + mv(last_or(s, dests), top) + seq!['+'],
        mv(top, s),
    );
    lemma_reaches_loop_exit(body, m.at(s));
    zero_move(m.at(s), top, s);
    lemma_chain4(
        clear_all(m.head, dests),
        set_code(h1, top, 0),
        mv(top, s),
        loop_of(body),
        m,
        m.at(h1),
        m.at(top),
        m.at(s),
        m.at(s),
    );
    lemma_reaches_concat(
        clear_all(m.head, dests) + set_code(h1, top, 0) + mv(top, s) + loop_of(body),
        move_code(s, top, s),
        m,
        m.at(s),
        m.at(top),
    );
}

/// `add` and `sub` on a tape of zeros leave the head on their first
/// scratch cell.
pub proof fn zero_add(m: Machine, top: int, s: int, d: int)
    requires
        zero_tape(m),
        top >= 0,
        s >= 0,
    ensures
        reaches(add_code(m.head, top, s, d), m, m.at(top)),
        reaches(sub_code(m.head, top, s, d), m, m.at(top)),
{
    zero_set(m, top);
    assert(on_tape(seq![top]));
    zero_copy(m.at(top), top + 1, s, seq![top]);
    zero_drain(m.at(top + 1), top, d);
    lemma_chain3(
        set_code(m.head, top, 0),
        copy_code(top, top + 1, s, seq![top]),
        dadd_code(top + 1, top, d),
        m,
        m.at(top),
        m.at(top + 1),
        m.at(top),
    );
    lemma_chain3(
        set_code(m.head, top, 0),
        copy_code(top, top + 1, s, seq![top]),
        dsub_code(top + 1, top, d),
        m,
        m.at(top),
        m.at(top + 1),
        m.at(top),
    );
}

/// `mul` on a tape of zeros leaves the head on its counter cell.
pub proof fn zero_mul(m: Machine, top: int, s: int, d: int)
    requires
        zero_tape(m),
        top >= 0,
        d >= 0,
    ensures
        reaches(mul_code(m.head, top, s, d), m, m.at(top)),
{
    zero_set(m, top);
    assert(on_tape(seq![top]));
    zero_copy(m.at(top), top + 1, d, seq![top]);
    zero_set(m.at(top + 1), d);
    lemma_mv(m.at(d), top);
    lemma_closed_op('-');
    lemma_closed_add(top, top + 1, s, d);
    lemma_closed_mv(top + 1, top);
    lemma_closed_concat(seq!['-'], add_code(top, top + 1, s, d));
    lemma_closed_concat(seq!['-'] + add_code(top, top + 1, s, d), mv(top + 1, top));
    lemma_reaches_loop_exit(mul_body(top, s, d), m.at(top));
    lemma_chain4(
        set_code(m.head, top, 0),
        copy_code(top, top + 1, d, seq![top]),
        set_code(top + 1, d, 0),
        mv(d, top),
        m,
        m.at(top),
        m.at(top + 1),
        m.at(d),
        m.at(top),
    );
    lemma_reaches_concat(
        set_code(m.head, top, 0) + copy_code(top, top + 1, d, seq![top]) + set_code(
            top + 1,
            d,
            0,
        ) + mv(d, top),
        loop_of(mul_body(top, s, d)),
        m,
        m.at(top),
        m.at(top),
    );
}

/// `calloc` on a tape of zeros leaves the head on the last cell it
/// cleared, or where it was when it cleared none.
pub proof fn zero_calloc(m: Machine, base: int, n: int)
    requires
        zero_tape(m),
        base >= 0,
    ensures
        reaches(
            calloc_code(m.head, base, n),
            m,
            m.at(
                if n > 0 {
                    base + n - 1
                } else {
                    m.head
                },
            ),
        ),
    decreases n,
{
    if n <= 0 {
        lemma_reaches_empty(m);
        assert(m.at(m.head) == m);
    } else {
        zero_calloc(m, base, n - 1);
        let m1 = m.at(
            if n - 1 > 0 {
                base + n - 2
            } else {
                m.head
            },
        );
        zero_set(m1, base + n - 1);
        lemma_reaches_concat(
            calloc_code(m.head, base, n - 1),
            set_code(m1.head, base + n - 1, 0),
            m,
            m1,
            m.at(base + n - 1),
        );
    }
}

/// The text that the generator emitted between two states.
pub open spec fn emitted(before: GenState, after: GenState) -> Seq<char> {
    after.output.skip(before.output.len() as int)
}

/// What was appended is what was emitted.
pub proof fn lemma_emitted(st: GenState, i: int, text: Seq<char>)
    ensures
        emitted(st, st.step(i, text)) == text,
        emitted(st, st.calloc(i)) == calloc_code(st.head, st.top, i),
{
    assert((st.output + text).skip(st.output.len() as int) =~= text);
    assert((st.output + calloc_code(st.head, st.top, i)).skip(st.output.len() as int)
        =~= calloc_code(st.head, st.top, i));
}

/// Head synchrony. On a tape of zeros with the machine's head where the
/// generator's simulated head is, the code that a primitive emits halts
/// with the machine's head where the primitive leaves the simulated head.
/// This holds of `set_ptr`, `set`, `dadd`, `dsub`, `move_val`, `copy_val`,
/// `add`, `sub`, `mul` and `calloc` on any cells of the tape, and of
/// `set_with_gcf` when its two cells differ.
pub proof fn law_head_synchrony(
    st: GenState,
    m: Machine,
    s: int,
    d: int,
    v: int,
    n: int,
    dests: Seq<int>,
)
    requires
        zero_tape(m),
        m.head == st.head,
        st.top >= 0,
        s >= 0,
        d >= 0,
        0 <= v < 256,
        on_tape(dests),
    ensures
        reaches(emitted(st, st.set_ptr(s)), m, m.at(st.set_ptr(s).head)),
        reaches(emitted(st, st.set(s, v)), m, m.with_cell(s, v as u8).at(st.set(s, v).head)),
        s != d ==> reaches(
            emitted(st, st.set_with_gcf(s, d, v)),
            m,
            m.with_cell(s, v as u8).at(st.set_with_gcf(s, d, v).head),
        ),
        reaches(emitted(st, st.dadd(s, d)), m, m.at(st.dadd(s, d).head)),
        reaches(emitted(st, st.dsub(s, d)), m, m.at(st.dsub(s, d).head)),
        reaches(emitted(st, st.move_val(s, d)), m, m.at(st.move_val(s, d).head)),
        reaches(emitted(st, st.copy_val(s, dests)), m, m.at(st.copy_val(s, dests).head)),
        reaches(emitted(st, st.add(s, d)), m, m.at(st.add(s, d).head)),
        reaches(emitted(st, st.sub(s, d)), m, m.at(st.sub(s, d).head)),
        reaches(emitted(st, st.mul(s, d)), m, m.at(st.mul(s, d).head)),
        reaches(emitted(st, st.calloc(n)), m, m.at(st.calloc(n).head)),
{
    let top = st.top;
    lemma_mv(m, s);
    law_set(m, s, v);
    if s != d {
        law_set_with_gcf(m, s, d, v);
    }
    zero_drain(m, s, d);
    zero_move(m, s, d);
    zero_copy(m, top, s, dests);
    zero_add(m, top, s, d);
    zero_mul(m, top, s, d);
    zero_calloc(m, top, n);
    lemma_emitted(st, s, mv(st.head, s));
    lemma_emitted(st, s, set_code(st.head, s, v));
    lemma_emitted(st, gcf_head(s, d, v), gcf_code(st.head, s, d, v));
    lemma_emitted(st, s, dadd_code(st.head, s, d));
    lemma_emitted(st, s, dsub_code(st.head, s, d));
    lemma_emitted(st, s, move_code(st.head, s, d));
    lemma_emitted(st, top, copy_code(st.head, top, s, dests));
    lemma_emitted(st, top, add_code(st.head, top, s, d));
    lemma_emitted(st, top, sub_code(st.head, top, s, d));
    lemma_emitted(st, top, mul_code(st.head, top, s, d));
    lemma_emitted(st, n, Seq::empty());
}

} // verus!
