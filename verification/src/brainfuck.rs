//! Opcode text as the source of a host program that does the same.

use vstd::prelude::*;
use vstd::string::*;
use crate::code::repeat;
use crate::text::{chars_of, push_char};

verus! {

/// What can go wrong when a host program is written, built and run.
#[derive(Debug)]
pub enum RunError {
    CouldNotCompile,
    PermissionDenied,
    Runtime(String),
    InvalidPath(String),
    InvalidChar(usize, char),
}

/// The decimal digits of `n`.
pub open spec fn decimal_digits(n: nat) -> Seq<char>
    decreases n,
{
    if n < 10 {
        seq![digit_char(n)]
    } else {
        decimal_digits(n / 10).push(digit_char(n % 10))
    }
}

/// The character of a digit below ten.
pub open spec fn digit_char(d: nat) -> char {
    if d == 0 {
        '0'
    } else if d == 1 {
        '1'
    } else if d == 2 {
        '2'
    } else if d == 3 {
        '3'
    } else if d == 4 {
        '4'
    } else if d == 5 {
        '5'
    } else if d == 6 {
        '6'
    } else if d == 7 {
        '7'
    } else if d == 8 {
        '8'
    } else {
        '9'
    }
}

/// The character of a digit below ten.
fn digit(d: usize) -> (c: char)
    requires
        d < 10,
    ensures
        c == digit_char(d as nat),
{
    if d == 0 {
        '0'
    } else if d == 1 {
        '1'
    } else if d == 2 {
        '2'
    } else if d == 3 {
        '3'
    } else if d == 4 {
        '4'
    } else if d == 5 {
        '5'
    } else if d == 6 {
        '6'
    } else if d == 7 {
        '7'
    } else if d == 8 {
        '8'
    } else {
        '9'
    }
}

/// `n` written in decimal.
pub fn decimal_text(n: usize) -> (s: String)
    ensures
        s@ == decimal_digits(n as nat),
    decreases n,
{
    if n < 10 {
        let mut s = String::new();
        push_char(&mut s, digit(n));
        s
    } else {
        let mut s = decimal_text(n / 10);
        push_char(&mut s, digit(n % 10));
        s
    }
}

impl RunError {
    /// The error in words.
    pub open spec fn spec_message(&self) -> Seq<char> {
        match self {
            RunError::CouldNotCompile => "Could not compile the generated Rust code"@,
            RunError::InvalidPath(s) => "Invalid path: "@ + s@,
            RunError::InvalidChar(i, c) => ("Invalid character at index "@ + decimal_digits(
                *i as nat,
            ) + ": "@).push(*c),
            RunError::PermissionDenied => "Permission denied"@,
            RunError::Runtime(s) => "Runtime error: "@ + s@,
        }
    }

    /// The error in words.
    pub fn message(&self) -> (s: String)
        ensures
            s@ == self.spec_message(),
    {
        match self {
            RunError::CouldNotCompile => "Could not compile the generated Rust code".to_owned(),
            RunError::InvalidPath(s) => {
                let mut m = "Invalid path: ".to_owned();
                m.append(s.as_str());
                m
            },
            RunError::InvalidChar(i, c) => {
                let mut m = "Invalid character at index ".to_owned();
                m.append(decimal_text(*i).as_str());
                m.append(": ");
                push_char(&mut m, *c);
                m
            },
            RunError::PermissionDenied => "Permission denied".to_owned(),
            RunError::Runtime(s) => {
                let mut m = "Runtime error: ".to_owned();
                m.append(s.as_str());
                m
            },
        }
    }
}

/// The lines that open the host program.
pub open spec fn prologue() -> Seq<char> {
    "use std::io::Read;\nuse std::io::Write;\n\nfn main() {\n    let mut sp = 0;\n    let mut stack = vec![0u8; 30000];\n"@
}

/// The host statement for an opcode, if `c` is one.
pub open spec fn statement_of(c: char) -> Option<Seq<char>> {
    if c == '>' {
        Some("sp += 1;"@)
    } else if c == '<' {
        Some("sp -= 1;"@)
    } else if c == '+' {
        Some("stack[sp] = stack[sp].wrapping_add(1);"@)
    } else if c == '-' {
        Some("stack[sp] = stack[sp].wrapping_sub(1);"@)
    } else if c == '.' {
        Some("print!(\"{}\", stack[sp] as char); std::io::stdout().flush().unwrap();"@)
    } else if c == ',' {
        Some("stack[sp] = std::io::stdin().bytes().next().unwrap().unwrap();"@)
    } else if c == '[' {
        Some("while stack[sp] != 0 {"@)
    } else if c == ']' {
        Some("}"@)
    } else {
        None
    }
}

/// Blanks, for which no statement is written.
pub open spec fn is_blank(c: char) -> bool {
    c == ' ' || c == '\n' || c == '\t'
}

/// The host program after `n` characters: the text so far and the number
/// of indentation levels, or the first character that stands for no
/// statement with its index. A `]` that would close more than the program's
/// own body stands for none.
pub open spec fn rendered(src: Seq<char>, n: int) -> Result<(Seq<char>, int), (int, char)>
    decreases n,
{
    if n <= 0 {
        Ok((prologue(), 1))
    } else {
        match rendered(src, n - 1) {
            Err(e) => Err(e),
            Ok((out, levels)) => {
                let c = src[n - 1];
                let inner = if c == ']' {
                    levels - 1
                } else {
                    levels
                };
                let after = if c == '[' {
                    inner + 1
                } else {
                    inner
                };
                let indented = out + repeat(' ', 4 * inner);
                if inner < 0 {
                    Err((n - 1, c))
                } else if is_blank(c) {
                    Ok((indented, after))
                } else {
                    match statement_of(c) {
                        Some(line) => Ok(((indented + line).push('\n'), after)),
                        None => Err((n - 1, c)),
                    }
                }
            },
        }
    }
}

/// The source of the host program for `src`, or the first character that
/// stands for no statement with its index.
pub open spec fn spec_to_bf(src: Seq<char>) -> Result<Seq<char>, (int, char)> {
    match rendered(src, src.len() as int) {
        Err(e) => Err(e),
        Ok((out, _)) => Ok(out + "}\n"@),
    }
}

/// Once a character stood for no statement, the outcome is settled.
proof fn lemma_rendering_stops(src: Seq<char>, i: int, n: int)
    requires
        rendered(src, i) is Err,
        i <= n,
    ensures
        rendered(src, n) == rendered(src, i),
    decreases n - i,
{
    if i < n {
        lemma_rendering_stops(src, i, n - 1);
    }
}

/// The source of a host program that does what the opcodes of `src` do, on
/// a tape of 30000 cells.
#[verifier::rlimit(30)]
pub fn to_bf(src: &str) -> (r: Result<String, RunError>)
    ensures
        match r {
            Ok(out) => spec_to_bf(src@) == Ok::<Seq<char>, (int, char)>(out@),
            Err(e) => e matches RunError::InvalidChar(i, c) && spec_to_bf(src@) == Err::<
                Seq<char>,
                (int, char),
            >((i as int, c)),
        },
{
    let chars = chars_of(src);
    let mut levels: u128 = 1;
    let mut out = String::new();
    out.append("use std::io::Read;\n");
    out.append("use std::io::Write;\n\n");
    out.append("fn main() {\n");
    out.append("    let mut sp = 0;\n");
    out.append("    let mut stack = vec![0u8; 30000];\n");
    proof {
        reveal_strlit("use std::io::Read;\n");
        reveal_strlit("use std::io::Write;\n\n");
        reveal_strlit("fn main() {\n");
        reveal_strlit("    let mut sp = 0;\n");
        reveal_strlit("    let mut stack = vec![0u8; 30000];\n");
        reveal_strlit(
            "use std::io::Read;\nuse std::io::Write;\n\nfn main() {\n    let mut sp = 0;\n    let mut stack = vec![0u8; 30000];\n",
        );
        assert(out@ =~= prologue());
    }
    let mut i: usize = 0;
    while i < chars.len()
        invariant
            i <= chars.len(),
            chars@ == src@,
            levels <= i + 1,
            rendered(src@, i as int) == Ok::<(Seq<char>, int), (int, char)>(
                (out@, levels as int),
            ),
        decreases chars.len() - i,
    {
        let c = chars[i];
        let ghost before = out@;
        if c == ']' {
            if levels == 0 {
                proof {
                    lemma_rendering_stops(src@, i as int + 1, src@.len() as int);
                }
                return Err(RunError::InvalidChar(i, c));
            }
            levels -= 1;
        }
        let ghost inner = levels as int;
        let mut k: u128 = 0;
        while k < levels
            invariant
                k <= levels,
                out@ == before + repeat(' ', 4 * k),
            decreases levels - k,
        {
            out.append("    ");
            k += 1;
            proof {
                reveal_strlit("    ");
                assert(before + repeat(' ', 4 * (k - 1)) + "    "@ =~= before + repeat(' ', 4 * k));
            }
        }
        if c == '[' {
            levels += 1;
        }
        if c == '>' {
            out.append("sp += 1;");
        } else if c == '<' {
            out.append("sp -= 1;");
        } else if c == '+' {
            out.append("stack[sp] = stack[sp].wrapping_add(1);");
        } else if c == '-' {
            out.append("stack[sp] = stack[sp].wrapping_sub(1);");
        } else if c == '.' {
            out.append("print!(\"{}\", stack[sp] as char); std::io::stdout().flush().unwrap();");
        } else if c == ',' {
            out.append("stack[sp] = std::io::stdin().bytes().next().unwrap().unwrap();");
        } else if c == '[' {
            out.append("while stack[sp] != 0 {");
        } else if c == ']' {
            out.append("}");
        } else if c == ' ' || c == '\n' || c == '\t' {
            i += 1;
            continue ;
        } else {
            proof {
                lemma_rendering_stops(src@, i as int + 1, src@.len() as int);
            }
            return Err(RunError::InvalidChar(i, c));
        }
        push_char(&mut out, '\n');
        i += 1;
    }
    out.append("}\n");
    Ok(out)
}

} // verus!
