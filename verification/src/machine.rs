//! The abstract tape machine: an unbounded tape of wrapping byte cells, a head,
//! an input stream and an output stream, driven by the eight opcode characters.

use vstd::prelude::*;

verus! {

/// A snapshot of the tape machine.
pub struct Machine {
    /// Cell contents by index; every index is present.
    pub cells: Map<int, u8>,
    /// The selected cell.
    pub head: int,
    /// Bytes not yet read by `,`.
    pub input: Seq<u8>,
    /// Bytes written so far by `.`.
    pub output: Seq<u8>,
}

/// `v + 1` modulo 256.
pub open spec fn inc_byte(v: u8) -> u8 {
    if v == 255 {
        0
    } else {
        (v + 1) as u8
    }
}

/// `v - 1` modulo 256.
pub open spec fn dec_byte(v: u8) -> u8 {
    if v == 0 {
        255
    } else {
        (v - 1) as u8
    }
}

/// `n` reduced modulo 256 into a byte.
pub open spec fn wrap(n: int) -> u8 {
    (n % 256) as u8
}

impl Machine {
    /// The machine before anything ran: all cells zero, head at cell 0.
    pub open spec fn blank(input: Seq<u8>) -> Machine {
        Machine { cells: Map::total(|i: int| 0u8), head: 0, input, output: Seq::empty() }
    }

    /// The head is on the tape and every cell has a value.
    pub open spec fn wf(self) -> bool {
        &&& self.head >= 0
        &&& forall|i: int| self.cells.dom().contains(i)
    }

    /// The byte under the head.
    pub open spec fn cur(self) -> u8 {
        self.cells[self.head]
    }

    /// The machine with the byte under the head replaced.
    pub open spec fn put(self, v: u8) -> Machine {
        Machine { cells: self.cells.insert(self.head, v), ..self }
    }

    /// The machine with the head moved to `i`.
    pub open spec fn at(self, i: int) -> Machine {
        Machine { head: i, ..self }
    }

    /// The machine with cell `i` set to `v`.
    pub open spec fn with_cell(self, i: int, v: u8) -> Machine {
        Machine { cells: self.cells.insert(i, v), ..self }
    }
}

/// Effect of one opcode other than `[` and `]`. `None` when the machine is
/// stuck: `<` at cell 0, or `,` with no input left. Any other character is
/// skipped.
pub open spec fn step_op(c: char, m: Machine) -> Option<Machine> {
    if c == '>' {
        Some(m.at(m.head + 1))
    } else if c == '<' {
        if m.head > 0 {
            Some(m.at(m.head - 1))
        } else {
            None
        }
    } else if c == '+' {
        Some(m.put(inc_byte(m.cur())))
    } else if c == '-' {
        Some(m.put(dec_byte(m.cur())))
    } else if c == '.' {
        Some(Machine { output: m.output.push(m.cur()), ..m })
    } else if c == ',' {
        if m.input.len() > 0 {
            Some(Machine { input: m.input.skip(1), ..m.put(m.input[0]) })
        } else {
            None
        }
    } else {
        Some(m)
    }
}

/// Index of the first `]` at or after `i` that closes a loop opened before
/// `i`, where `depth` loops opened at or after the start of the scan are
/// still open; `code.len()` when there is none.
pub open spec fn matching_close(code: Seq<char>, i: int, depth: nat) -> int
    decreases code.len() - i,
{
    if i < 0 || i >= code.len() {
        code.len() as int
    } else if code[i] == ']' {
        if depth == 0 {
            i
        } else {
            matching_close(code, i + 1, (depth - 1) as nat)
        }
    } else if code[i] == '[' {
        matching_close(code, i + 1, depth + 1)
    } else {
        matching_close(code, i + 1, depth)
    }
}

/// Runs `code` from `m`. Each loop iteration costs one unit of `fuel`; the
/// result is `None` when the fuel runs out, the machine gets stuck, or a
/// bracket has no partner.
pub open spec fn run(code: Seq<char>, m: Machine, fuel: nat) -> Option<Machine>
    decreases fuel, code.len(),
{
    if code.len() == 0 {
        Some(m)
    } else if code[0] == '[' {
        let j = matching_close(code, 1, 0);
        if !(1 <= j < code.len()) {
            None
        } else if m.cur() == 0 {
            run(code.skip(j + 1), m, fuel)
        } else if fuel == 0 {
            None
        } else {
            match run(code.subrange(1, j), m, (fuel - 1) as nat) {
                Some(m1) => run(code, m1, (fuel - 1) as nat),
                None => None,
            }
        }
    } else if code[0] == ']' {
        None
    } else {
        match step_op(code[0], m) {
            Some(m1) => run(code.skip(1), m1, fuel),
            None => None,
        }
    }
}

/// `code` started in `m` halts in `m2`.
pub open spec fn reaches(code: Seq<char>, m: Machine, m2: Machine) -> bool {
    exists|fuel: nat| run(code, m, fuel) == Some(m2)
}

/// A loop around `body`.
pub open spec fn loop_of(body: Seq<char>) -> Seq<char> {
    seq!['['] + body + seq![']']
}

/// Change of nesting depth caused by one character.
pub open spec fn bracket_delta(c: char) -> int {
    if c == '[' {
        1
    } else if c == ']' {
        -1
    } else {
        0
    }
}

/// Nesting depth after reading all of `code` from depth `d`, or -1 when some
/// `]` closes a loop that was never opened.
pub open spec fn scan_depth(code: Seq<char>, d: int) -> int
    decreases code.len(),
{
    if d < 0 {
        -1
    } else if code.len() == 0 {
        d
    } else {
        scan_depth(code.skip(1), d + bracket_delta(code[0]))
    }
}

/// Every `[` in `code` has its `]` in `code`, and the other way round.
pub open spec fn closed(code: Seq<char>) -> bool {
    scan_depth(code, 0) == 0
}

/// More fuel never changes a result.
pub proof fn lemma_fuel_monotone(code: Seq<char>, m: Machine, f: nat, g: nat)
    requires
        run(code, m, f) is Some,
        f <= g,
    ensures
        run(code, m, g) == run(code, m, f),
    decreases f, code.len(),
{
    if code.len() == 0 {
    } else if code[0] == '[' {
        let j = matching_close(code, 1, 0);
        if !(1 <= j < code.len()) {
        } else if m.cur() == 0 {
            lemma_fuel_monotone(code.skip(j + 1), m, f, g);
        } else {
            let body = code.subrange(1, j);
            let m1 = run(body, m, (f - 1) as nat)->0;
            lemma_fuel_monotone(body, m, (f - 1) as nat, (g - 1) as nat);
            lemma_fuel_monotone(code, m1, (f - 1) as nat, (g - 1) as nat);
        }
    } else if code[0] == ']' {
    } else {
        match step_op(code[0], m) {
            Some(m1) => {
                lemma_fuel_monotone(code.skip(1), m1, f, g);
            },
            None => {},
        }
    }
}

/// The machine is deterministic: a program halts in at most one state.
pub proof fn law_deterministic(code: Seq<char>, m: Machine, a: Machine, b: Machine)
    requires
        reaches(code, m, a),
        reaches(code, m, b),
    ensures
        a == b,
{
    let fa = choose|fuel: nat| run(code, m, fuel) == Some(a);
    let fb = choose|fuel: nat| run(code, m, fuel) == Some(b);
    if fa <= fb {
        lemma_fuel_monotone(code, m, fa, fb);
    } else {
        lemma_fuel_monotone(code, m, fb, fa);
    }
}

/// Reading `a` and then `b` is reading `a + b`.
pub proof fn lemma_scan_concat(a: Seq<char>, b: Seq<char>, d: int)
    ensures
        scan_depth(a + b, d) == scan_depth(b, scan_depth(a, d)),
    decreases a.len(),
{
    if d < 0 {
    } else if a.len() == 0 {
        assert(a + b =~= b);
    } else {
        assert((a + b).skip(1) =~= a.skip(1) + b);
        lemma_scan_concat(a.skip(1), b, d + bracket_delta(a[0]));
    }
}

/// Starting deeper ends deeper by the same amount.
pub proof fn lemma_scan_shift(a: Seq<char>, d: int, k: int)
    requires
        scan_depth(a, d) >= 0,
        k >= 0,
    ensures
        scan_depth(a, d + k) == scan_depth(a, d) + k,
    decreases a.len(),
{
    if a.len() > 0 {
        lemma_scan_shift(a.skip(1), d + bracket_delta(a[0]), k);
    }
}

/// Closed programs concatenate to a closed program.
pub proof fn lemma_closed_concat(a: Seq<char>, b: Seq<char>)
    requires
        closed(a),
        closed(b),
    ensures
        closed(a + b),
{
    lemma_scan_concat(a, b, 0);
}

/// A loop around a closed body is closed.
pub proof fn lemma_closed_loop(body: Seq<char>)
    requires
        closed(body),
    ensures
        closed(loop_of(body)),
{
    let open = seq!['['];
    let close = seq![']'];
    lemma_scan_concat(open + body, close, 0);
    lemma_scan_concat(open, body, 0);
    assert(scan_depth(open, 0) == 1) by {
        assert(open.skip(1).len() == 0);
        assert(scan_depth(open.skip(1), 1) == 1);
    }
    lemma_scan_shift(body, 0, 1);
    assert(scan_depth(close, 1) == 0) by {
        assert(close.skip(1).len() == 0);
        assert(scan_depth(close.skip(1), 0) == 0);
    }
}

/// The search for a closing bracket passes over a stretch of code whose own
/// brackets pair up, arriving behind it at the depth the stretch ends on.
pub proof fn lemma_close_skips(
    pre: Seq<char>,
    x: Seq<char>,
    suf: Seq<char>,
    d: nat,
    k: int,
)
    requires
        k >= 0,
        scan_depth(x, k) >= 0,
    ensures
        matching_close(pre + x + suf, pre.len() as int, (d + k) as nat) == matching_close(
            pre + x + suf,
            (pre.len() + x.len()) as int,
            (d + scan_depth(x, k)) as nat,
        ),
    decreases x.len(),
{
    if x.len() > 0 {
        let c = x[0];
        let whole = pre + x + suf;
        let k1 = k + bracket_delta(c);
        assert(whole[pre.len() as int] == c);
        assert(k1 >= 0) by {
            assert(scan_depth(x, k) == scan_depth(x.skip(1), k1));
        }
        assert(whole =~= pre.push(c) + x.skip(1) + suf);
        lemma_close_skips(pre.push(c), x.skip(1), suf, d, k1);
    }
}

/// A closing bracket found inside `a` is found at the same place when more
/// code follows.
pub proof fn lemma_close_prefix(a: Seq<char>, b: Seq<char>, i: int, d: nat)
    requires
        0 <= i,
        matching_close(a, i, d) < a.len(),
    ensures
        matching_close(a + b, i, d) == matching_close(a, i, d),
    decreases a.len() - i,
{
    if i < a.len() {
        assert((a + b)[i] == a[i]);
        if a[i] == ']' {
            if d != 0 {
                lemma_close_prefix(a, b, i + 1, (d - 1) as nat);
            }
        } else if a[i] == '[' {
            lemma_close_prefix(a, b, i + 1, d + 1);
        } else {
            lemma_close_prefix(a, b, i + 1, d);
        }
    }
}

/// Running `a` and then `b` is running `a + b`.
pub proof fn lemma_run_concat(
    a: Seq<char>,
    b: Seq<char>,
    m: Machine,
    f: nat,
    g: nat,
)
    requires
        run(a, m, f) is Some,
        run(b, run(a, m, f)->0, g) is Some,
    ensures
        run(a + b, m, f + g) == run(b, run(a, m, f)->0, g),
    decreases f, a.len(),
{
    let m1 = run(a, m, f)->0;
    if a.len() == 0 {
        assert(a + b =~= b);
        lemma_fuel_monotone(b, m, g, f + g);
    } else if a[0] == '[' {
        let j = matching_close(a, 1, 0);
        lemma_close_prefix(a, b, 1, 0);
        assert((a + b).subrange(1, j) =~= a.subrange(1, j));
        assert((a + b).skip(j + 1) =~= a.skip(j + 1) + b);
        if m.cur() == 0 {
            lemma_run_concat(a.skip(j + 1), b, m, f, g);
        } else {
            let body = a.subrange(1, j);
            let mb = run(body, m, (f - 1) as nat)->0;
            lemma_fuel_monotone(body, m, (f - 1) as nat, (f + g - 1) as nat);
            lemma_run_concat(a, b, mb, (f - 1) as nat, g);
        }
    } else {
        assert((a + b).skip(1) =~= a.skip(1) + b);
        lemma_run_concat(a.skip(1), b, step_op(a[0], m)->0, f, g);
    }
}

/// The empty program halts at once.
pub proof fn lemma_reaches_empty(m: Machine)
    ensures
        reaches(Seq::<char>::empty(), m, m),
{
    assert(run(Seq::<char>::empty(), m, 0) == Some(m));
}

/// A single opcode other than a bracket halts in the state `step_op` gives.
pub proof fn lemma_reaches_op(c: char, m: Machine)
    requires
        c != '[',
        c != ']',
        step_op(c, m) is Some,
    ensures
        reaches(seq![c], m, step_op(c, m)->0),
{
    let code = seq![c];
    assert(code.skip(1).len() == 0);
    assert(run(code.skip(1), step_op(c, m)->0, 0) == Some(step_op(c, m)->0));
    assert(run(code, m, 0) == Some(step_op(c, m)->0));
}

/// Sequencing: if `a` takes `m` to `m1` and `b` takes `m1` to `m2`, then
/// `a + b` takes `m` to `m2`.
pub proof fn lemma_reaches_concat(
    a: Seq<char>,
    b: Seq<char>,
    m: Machine,
    m1: Machine,
    m2: Machine,
)
    requires
        reaches(a, m, m1),
        reaches(b, m1, m2),
    ensures
        reaches(a + b, m, m2),
{
    let f = choose|fuel: nat| run(a, m, fuel) == Some(m1);
    let g = choose|fuel: nat| run(b, m1, fuel) == Some(m2);
    lemma_run_concat(a, b, m, f, g);
}

/// A loop entered on a zero cell is skipped.
pub proof fn lemma_reaches_loop_exit(body: Seq<char>, m: Machine)
    requires
        closed(body),
        m.cur() == 0,
    ensures
        reaches(loop_of(body), m, m),
{
    let code = loop_of(body);
    lemma_close_skips(seq!['['], body, seq![']'], 0, 0);
    let n = body.len() as int;
    assert(matching_close(code, 1 + n, 0) == 1 + n);
    assert(code.skip(n + 2).len() == 0);
    assert(run(code.skip(n + 2), m, 0) == Some(m));
    assert(code[0] == '[');
    assert(matching_close(code, 1, 0) == 1 + n);
    assert(run(code, m, 0) == Some(m));
}

/// A loop entered on a nonzero cell runs its body once and starts over.
pub proof fn lemma_reaches_loop_iter(body: Seq<char>, m: Machine, m1: Machine, m2: Machine)
    requires
        closed(body),
        m.cur() != 0,
        reaches(body, m, m1),
        reaches(loop_of(body), m1, m2),
    ensures
        reaches(loop_of(body), m, m2),
{
    let code = loop_of(body);
    lemma_close_skips(seq!['['], body, seq![']'], 0, 0);
    let n = body.len() as int;
    assert(matching_close(code, 1 + n, 0) == 1 + n);
    assert(code.subrange(1, 1 + n) =~= body);
    let f = choose|fuel: nat| run(body, m, fuel) == Some(m1);
    let g = choose|fuel: nat| run(code, m1, fuel) == Some(m2);
    let h = if f <= g { g } else { f };
    lemma_fuel_monotone(body, m, f, h);
    lemma_fuel_monotone(code, m1, g, h);
    assert(run(code, m, h + 1) == Some(m2));
}

} // verus!
