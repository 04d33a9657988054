use tapegen::compiler::compile;
use tapegen::interpreter::{Interpreter, Step};

/// Runs `code` to its end and returns the cells, the output and the head.
fn run(code: &str) -> (Vec<u8>, String, usize) {
    let mut machine = Interpreter::new(code);
    let mut steps = 0u64;
    loop {
        match machine.step(None) {
            Step::Ran => {}
            Step::Halted => break,
            other => panic!("program stopped with {:?}", other),
        }
        steps += 1;
        assert!(steps < 10_000_000, "program does not end");
    }
    (machine.memory().clone(), machine.output().clone(), machine.memory_ptr())
}

fn cell(cells: &[u8], i: usize) -> u8 {
    if i < cells.len() {
        cells[i]
    } else {
        0
    }
}

#[test]
fn definition_with_literal_sets_first_cell() {
    let code = compile("let x = 3;").unwrap();
    assert_eq!(code, "[-]>[-][-]+++<[-]>[-<+>]");
    let (cells, out, _) = run(&code);
    assert_eq!(cell(&cells, 0), 3);
    for i in 1..cells.len() {
        assert_eq!(cells[i], 0);
    }
    assert_eq!(out, "");
}

#[test]
fn definition_with_sum() {
    let code = compile("let x = 2 + 5;").unwrap();
    let (cells, _, _) = run(&code);
    assert_eq!(cell(&cells, 0), 7);
}

#[test]
fn second_variable_reads_first() {
    let code = compile("let x = 3; let y = x + x;").unwrap();
    let (cells, _, _) = run(&code);
    assert_eq!(cell(&cells, 0), 3);
    assert_eq!(cell(&cells, 1), 6);
}

#[test]
fn definition_with_product() {
    let code = compile("let x = 4 * 3;").unwrap();
    let (cells, _, _) = run(&code);
    assert_eq!(cell(&cells, 0), 12);
}

#[test]
fn definition_with_difference() {
    let code = compile("let x = 9 - 4;").unwrap();
    let (cells, _, _) = run(&code);
    assert_eq!(cell(&cells, 0), 5);
}

#[test]
fn print_writes_the_literal() {
    let code = compile("print(\"Hi\");").unwrap();
    let (_, out, _) = run(&code);
    assert_eq!(out, "Hi");
}

#[test]
fn if_runs_then_branch_on_nonzero() {
    let code = compile("let x = 1; if x { print(\"Y\"); } else { print(\"N\"); }").unwrap();
    let (_, out, _) = run(&code);
    assert_eq!(out, "Y");
}

#[test]
fn if_runs_else_branch_on_zero() {
    let code = compile("let x = 0; if x { print(\"Y\"); } else { print(\"N\"); }").unwrap();
    let (_, out, _) = run(&code);
    assert_eq!(out, "N");
}

#[test]
fn if_without_else_skips_on_zero() {
    let code = compile("let x = 0; if x { print(\"Y\"); } print(\"!\");").unwrap();
    let (_, out, _) = run(&code);
    assert_eq!(out, "!");
    let code = compile("let x = 5; if x { print(\"Y\"); } print(\"!\");").unwrap();
    let (_, out, _) = run(&code);
    assert_eq!(out, "Y!");
}

#[test]
fn sums_wrap_at_256() {
    let code = compile("let x = 200 + 100;").unwrap();
    let (cells, _, _) = run(&code);
    assert_eq!(cell(&cells, 0), 44);
}

#[test]
fn differences_wrap_at_zero() {
    let code = compile("let x = 3 - 5;").unwrap();
    let (cells, _, _) = run(&code);
    assert_eq!(cell(&cells, 0), 254);
}

#[test]
fn products_wrap_at_256() {
    let code = compile("let x = 20 * 13;").unwrap();
    let (cells, _, _) = run(&code);
    assert_eq!(cell(&cells, 0), 4);
}

#[test]
fn empty_literal_prints_nothing() {
    let code = compile("print(\"\");").unwrap();
    assert_eq!(code, "[-][.>]");
    let (_, out, _) = run(&code);
    assert_eq!(out, "");
}

#[test]
fn sibling_blocks_may_reuse_a_name() {
    let code = compile("{ let a = 1; } { let a = 2; }").unwrap();
    let (cells, _, _) = run(&code);
    assert_eq!(cell(&cells, 0), 2);
}

#[test]
fn nested_block_frees_its_variables() {
    let code = compile("let x = 1; { let y = 2; { let z = 3; } let z = 4; } let y = 5;").unwrap();
    let (cells, _, _) = run(&code);
    assert_eq!(cell(&cells, 0), 1);
    assert_eq!(cell(&cells, 1), 5);
}

#[test]
fn assignment_overwrites() {
    let code = compile("let x = 3; x = x + 4;").unwrap();
    let (cells, _, _) = run(&code);
    assert_eq!(cell(&cells, 0), 7);
}

#[test]
fn definition_without_initializer_is_zero() {
    let code = compile("let x;").unwrap();
    assert_eq!(code, "[-]");
    let (cells, _, _) = run(&code);
    assert_eq!(cell(&cells, 0), 0);
}

#[test]
fn operators_group_to_the_right() {
    let code = compile("let x = 2 * 3 + 4;").unwrap();
    let (cells, _, _) = run(&code);
    assert_eq!(cell(&cells, 0), 14);
}

#[test]
fn long_literal_is_laid_out_with_square_roots() {
    let code = compile("print(\"Hello, world!\\n\");").unwrap();
    let (cells, out, head) = run(&code);
    assert_eq!(out, "Hello, world!\n");
    assert_eq!(head, 14);
    assert_eq!(cell(&cells, 14), 0);
}

#[test]
fn literal_bytes_above_127_are_laid_out() {
    let code = compile("print(\"\u{e9}\");").unwrap();
    let (cells, _, _) = run(&code);
    assert_eq!(cell(&cells, 0), 0xc3);
    assert_eq!(cell(&cells, 1), 0xa9);
    assert_eq!(cell(&cells, 2), 0);
}

#[test]
fn two_prints_of_one_literal_lay_it_out_once() {
    let code = compile("print(\"a\"); print(\"a\");").unwrap();
    let (_, out, _) = run(&code);
    assert_eq!(out, "aa");
    assert_eq!(code, ">+++++++++[-<+++++++++>]<++++++++++++++++>[-]<[.>]<[.>]");
}

#[test]
fn arithmetic_agrees_with_wrapping_bytes() {
    let values = [0u8, 1, 2, 15, 16, 17, 100, 128, 200, 255];
    for a in values {
        for b in values {
            let (cells, _, _) = run(&compile(&format!("let x = {} + {};", a, b)).unwrap());
            assert_eq!(cell(&cells, 0), a.wrapping_add(b));
            let (cells, _, _) = run(&compile(&format!("let x = {} - {};", a, b)).unwrap());
            assert_eq!(cell(&cells, 0), a.wrapping_sub(b));
        }
    }
    for a in [0u8, 1, 3, 16, 255] {
        for b in [0u8, 1, 2, 17, 255] {
            let (cells, _, _) = run(&compile(&format!("let x = {} * {};", a, b)).unwrap());
            assert_eq!(cell(&cells, 0), a.wrapping_mul(b));
        }
    }
}

#[test]
fn nested_expressions_read_variables() {
    let code = compile("let a = 7; let b = a * (a - 2) + a; let c = (b - a) * (a + 1) - b;").unwrap();
    let (cells, _, _) = run(&code);
    let a = 7u8;
    let b = a.wrapping_mul((a - 2).wrapping_add(a));
    let c = b.wrapping_sub(a).wrapping_mul((a + 1).wrapping_sub(b));
    assert_eq!(cell(&cells, 0), a);
    assert_eq!(cell(&cells, 1), b);
    assert_eq!(cell(&cells, 2), c);
}

#[test]
fn definition_sees_itself_as_zero() {
    let code = compile("let x = x + 5;").unwrap();
    let (cells, _, _) = run(&code);
    assert_eq!(cell(&cells, 0), 5);
}

#[test]
fn branches_assign_outer_variables() {
    let src = "let x = 3; let y = 0; if x - 3 { y = 1; } else { y = 2; } if y { let z = y + y; x = z; }";
    let code = compile(src).unwrap();
    let (cells, _, _) = run(&code);
    assert_eq!(cell(&cells, 0), 4);
    assert_eq!(cell(&cells, 1), 2);
}

#[test]
fn prints_come_in_program_order() {
    let code = compile("print(\"a\"); let x = 1; print(\"bc\"); if x { x = 0; } print(\"a\");").unwrap();
    let (_, out, _) = run(&code);
    assert_eq!(out, "abca");
}

#[test]
fn literal_of_a_later_block_is_not_laid_on_a_used_cell() {
    let code = compile("{ let a = 5; } { print(\"Y\"); }").unwrap();
    let (cells, out, _) = run(&code);
    assert_eq!(out, "Y");
    assert_eq!(cell(&cells, 0), 89);
    assert_eq!(cell(&cells, 2), 5);
}

#[test]
fn bare_branch_prints_its_literal() {
    let code = compile("let x = 1; if x print(\"a\");").unwrap();
    let (_, out, _) = run(&code);
    assert_eq!(out, "a");
}

#[test]
fn every_literal_is_laid_out_before_anything_else() {
    let code = compile("let x = 0; if x { print(\"A\"); } else { { print(\"B\"); } } print(\"A\");").unwrap();
    let (cells, out, _) = run(&code);
    assert_eq!(out, "BA");
    assert_eq!(&cells[0..4], &[65, 0, 66, 0]);
    assert_eq!(cell(&cells, 4), 0);
}

#[test]
fn literals_after_a_product_print_rightly() {
    let code = compile("let x = 4 * 3; { print(\"ok\"); } if x { print(\"!\"); }").unwrap();
    let (_, out, _) = run(&code);
    assert_eq!(out, "ok!");
}
