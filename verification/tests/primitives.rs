use tapegen::ast::{BinaryOp, Expr, Statement};
use tapegen::compiler::{compile, find_factors, Compiler};
use tapegen::interpreter::{Interpreter, Step};

/// Runs `code` to its end and returns the cells and the head.
fn run(code: &str) -> (Vec<u8>, usize) {
    let mut machine = Interpreter::new(code);
    let mut steps = 0u64;
    loop {
        match machine.step(None) {
            Step::Ran => {}
            Step::Halted => break,
            other => panic!("program stopped with {:?}", other),
        }
        steps += 1;
        assert!(steps < 10_000_000, "program does not end");
    }
    (machine.memory().clone(), machine.memory_ptr())
}

fn cell(cells: &[u8], i: usize) -> u8 {
    if i < cells.len() {
        cells[i]
    } else {
        0
    }
}

/// A generator that has stored `values` in the cells from 0 on and
/// reserved them.
fn with_cells(values: &[u8]) -> Compiler {
    let mut c = Compiler::new();
    c.malloc(values.len());
    for (i, v) in values.iter().enumerate() {
        c.set(i, *v);
    }
    c
}

#[test]
fn emit_appends_verbatim() {
    let mut c = Compiler::new();
    c.emit("+-");
    c.emit("[x]");
    assert_eq!(c.code(), "+-[x]");
    assert_eq!(c.head(), 0);
    assert_eq!(c.top(), 0);
}

#[test]
fn move_ptr_emits_one_opcode_per_cell() {
    let mut c = Compiler::new();
    c.move_ptr(3);
    assert_eq!(c.code(), ">>>");
    assert_eq!(c.head(), 3);
    c.move_ptr(-2);
    assert_eq!(c.code(), ">>><<");
    assert_eq!(c.head(), 1);
    c.move_ptr(0);
    assert_eq!(c.code(), ">>><<");
}

#[test]
fn set_ptr_moves_by_the_difference() {
    let mut c = Compiler::new();
    c.set_ptr(4);
    c.set_ptr(1);
    c.set_ptr(1);
    assert_eq!(c.code(), ">>>><<<");
    assert_eq!(c.head(), 1);
}

#[test]
fn set_clears_then_counts_up() {
    let mut c = Compiler::new();
    c.set(2, 3);
    assert_eq!(c.code(), ">>[-]+++");
    assert_eq!(c.head(), 2);
    let (cells, head) = run(&c.code());
    assert_eq!(cell(&cells, 2), 3);
    assert_eq!(head, 2);
}

#[test]
fn set_overwrites_any_value() {
    let mut c = with_cells(&[200]);
    c.set(0, 255);
    let (cells, _) = run(&c.code());
    assert_eq!(cell(&cells, 0), 255);
}

#[test]
fn find_factors_gives_root_and_rest() {
    assert_eq!(find_factors(0), (0, 0));
    assert_eq!(find_factors(15), (3, 6));
    assert_eq!(find_factors(16), (4, 0));
    assert_eq!(find_factors(89), (9, 8));
    assert_eq!(find_factors(255), (15, 30));
}

#[test]
fn set_with_gcf_small_value_is_plain_set() {
    let mut c = Compiler::new();
    c.set_with_gcf(0, 1, 15);
    assert_eq!(c.code(), "[-]+++++++++++++++");
    assert_eq!(c.head(), 0);
}

#[test]
fn set_with_gcf_factors_large_value() {
    let mut c = Compiler::new();
    c.set_with_gcf(0, 1, 89);
    assert_eq!(c.code(), ">+++++++++[-<+++++++++>]<++++++++");
    assert_eq!(c.head(), 0);
    let (cells, head) = run(&c.code());
    assert_eq!(cell(&cells, 0), 89);
    assert_eq!(cell(&cells, 1), 0);
    assert_eq!(head, 0);
}

#[test]
fn set_with_gcf_square_ends_on_the_counter() {
    let mut c = Compiler::new();
    c.set_with_gcf(0, 1, 16);
    assert_eq!(c.code(), ">++++[-<++++>]");
    assert_eq!(c.head(), 1);
    let (cells, head) = run(&c.code());
    assert_eq!(cell(&cells, 0), 16);
    assert_eq!(cell(&cells, 1), 0);
    assert_eq!(head, 1);
}

#[test]
fn set_with_gcf_every_value() {
    for v in 0..=255u8 {
        let mut c = Compiler::new();
        c.set_with_gcf(3, 4, v);
        let (cells, head) = run(&c.code());
        assert_eq!(cell(&cells, 3), v);
        assert_eq!(cell(&cells, 4), 0);
        assert_eq!(head as isize, c.head());
    }
}

#[test]
fn set_with_gcf_adds_to_what_is_there() {
    let mut c = with_cells(&[1]);
    c.set_with_gcf(0, 1, 16);
    let (cells, _) = run(&c.code());
    assert_eq!(cell(&cells, 0), 17);
}

#[test]
fn malloc_reserves_without_code() {
    let mut c = Compiler::new();
    assert_eq!(c.malloc(3), 0);
    assert_eq!(c.malloc(2), 3);
    assert_eq!(c.top(), 5);
    assert_eq!(c.code(), "");
    c.dealloc(2);
    assert_eq!(c.top(), 3);
}

#[test]
fn calloc_clears_each_cell() {
    let mut c = Compiler::new();
    assert_eq!(c.calloc(3), 0);
    assert_eq!(c.code(), "[-]>[-]>[-]");
    assert_eq!(c.head(), 2);
    assert_eq!(c.top(), 3);
    assert_eq!(c.calloc(0), 3);
    assert_eq!(c.code(), "[-]>[-]>[-]");
}

#[test]
fn dadd_drains_into_destination() {
    let mut c = with_cells(&[5, 7]);
    c.dadd(0, 1);
    assert!(c.code().ends_with("<[->+<]"));
    let (cells, head) = run(&c.code());
    assert_eq!(cell(&cells, 0), 0);
    assert_eq!(cell(&cells, 1), 12);
    assert_eq!(head as isize, c.head());
    assert_eq!(c.head(), 0);
}

#[test]
fn dadd_wraps() {
    let mut c = with_cells(&[200, 100]);
    c.dadd(0, 1);
    let (cells, _) = run(&c.code());
    assert_eq!(cell(&cells, 0), 0);
    assert_eq!(cell(&cells, 1), 44);
}

#[test]
fn dsub_drains_out_of_destination() {
    let mut c = with_cells(&[5, 7]);
    c.dsub(0, 1);
    assert!(c.code().ends_with("<[->-<]"));
    let (cells, head) = run(&c.code());
    assert_eq!(cell(&cells, 0), 0);
    assert_eq!(cell(&cells, 1), 2);
    assert_eq!(head as isize, c.head());
}

#[test]
fn dsub_wraps() {
    let mut c = with_cells(&[7, 5]);
    c.dsub(0, 1);
    let (cells, _) = run(&c.code());
    assert_eq!(cell(&cells, 1), 254);
}

#[test]
fn move_val_replaces_destination() {
    let mut c = with_cells(&[9, 4]);
    c.move_val(0, 1);
    let (cells, head) = run(&c.code());
    assert_eq!(cell(&cells, 0), 0);
    assert_eq!(cell(&cells, 1), 9);
    assert_eq!(head as isize, c.head());
}

#[test]
fn copy_val_keeps_source() {
    let mut c = with_cells(&[9, 4]);
    c.copy_val(0, &[1]);
    assert_eq!(c.top(), 2);
    let (cells, head) = run(&c.code());
    assert_eq!(cell(&cells, 0), 9);
    assert_eq!(cell(&cells, 1), 9);
    assert_eq!(cell(&cells, 2), 0);
    assert_eq!(head as isize, c.head());
}

#[test]
fn copy_val_fills_every_destination() {
    let mut c = with_cells(&[9, 4, 3, 2]);
    c.copy_val(0, &[1, 3, 2]);
    let (cells, head) = run(&c.code());
    assert_eq!(&cells[0..5], &[9, 9, 9, 9, 0]);
    assert_eq!(head as isize, c.head());
}

#[test]
fn copy_val_without_destinations_keeps_source() {
    let mut c = with_cells(&[9]);
    c.copy_val(0, &[]);
    let (cells, _) = run(&c.code());
    assert_eq!(cell(&cells, 0), 9);
    assert_eq!(cell(&cells, 1), 0);
}

#[test]
fn add_keeps_source() {
    let mut c = with_cells(&[200, 100]);
    c.add(0, 1);
    assert_eq!(c.top(), 2);
    let (cells, head) = run(&c.code());
    assert_eq!(cell(&cells, 0), 200);
    assert_eq!(cell(&cells, 1), 44);
    assert_eq!(cell(&cells, 2), 0);
    assert_eq!(cell(&cells, 3), 0);
    assert_eq!(head as isize, c.head());
}

#[test]
fn sub_keeps_source() {
    let mut c = with_cells(&[3, 10]);
    c.sub(0, 1);
    let (cells, head) = run(&c.code());
    assert_eq!(cell(&cells, 0), 3);
    assert_eq!(cell(&cells, 1), 7);
    assert_eq!(head as isize, c.head());
}

#[test]
fn mul_keeps_source() {
    let mut c = with_cells(&[6, 7]);
    c.mul(0, 1);
    assert_eq!(c.top(), 2);
    let (cells, head) = run(&c.code());
    assert_eq!(cell(&cells, 0), 6);
    assert_eq!(cell(&cells, 1), 42);
    assert_eq!(cell(&cells, 2), 0);
    assert_eq!(cell(&cells, 3), 0);
    assert_eq!(cell(&cells, 4), 0);
    assert_eq!(head as isize, c.head());
}

#[test]
fn mul_wraps_and_handles_zero() {
    let mut c = with_cells(&[20, 13]);
    c.mul(0, 1);
    let (cells, _) = run(&c.code());
    assert_eq!(cell(&cells, 1), 4);
    let mut c = with_cells(&[0, 13]);
    c.mul(0, 1);
    let (cells, _) = run(&c.code());
    assert_eq!(cell(&cells, 1), 0);
    let mut c = with_cells(&[13, 0]);
    c.mul(0, 1);
    let (cells, _) = run(&c.code());
    assert_eq!(cell(&cells, 0), 13);
    assert_eq!(cell(&cells, 1), 0);
}

#[test]
fn moving_there_and_back_restores_the_cells() {
    let mut c = with_cells(&[9, 0]);
    c.move_val(0, 1);
    c.move_val(1, 0);
    let (cells, head) = run(&c.code());
    assert_eq!(cell(&cells, 0), 9);
    assert_eq!(cell(&cells, 1), 0);
    assert_eq!(head as isize, c.head());
}

#[test]
fn copy_then_clear_is_move() {
    let mut a = with_cells(&[9, 4]);
    a.copy_val(0, &[1]);
    a.set(0, 0);
    let mut b = with_cells(&[9, 4]);
    b.move_val(0, 1);
    let (cells_a, head_a) = run(&a.code());
    let (cells_b, head_b) = run(&b.code());
    assert_eq!(cell(&cells_a, 0), cell(&cells_b, 0));
    assert_eq!(cell(&cells_a, 1), cell(&cells_b, 1));
    assert_eq!(cell(&cells_a, 2), cell(&cells_b, 2));
    assert_eq!(head_a, head_b);
}

#[test]
fn variables_take_and_give_back_cells() {
    let mut c = Compiler::new();
    assert_eq!(c.alloc_var("a"), Ok(0));
    assert_eq!(c.alloc_var("b"), Ok(1));
    assert_eq!(c.alloc_var("a"), Err("Variable a is already defined".to_string()));
    assert_eq!(c.top(), 2);
    c.dealloc_var("b");
    assert_eq!(c.top(), 1);
    assert_eq!(c.alloc_var("b"), Ok(1));
}

#[test]
fn string_literal_takes_its_bytes_and_a_terminator() {
    let mut c = Compiler::new();
    assert_eq!(c.add_string_literal("Hi"), Ok(0));
    assert_eq!(c.top(), 3);
    assert_eq!(c.add_string_literal(""), Ok(3));
    assert_eq!(c.top(), 4);
    let (cells, _) = run(&c.code());
    assert_eq!(&cells[0..4], &[72, 105, 0, 0]);
}

#[test]
fn write_str_lays_out_from_the_index() {
    let mut c = Compiler::new();
    c.malloc(5);
    c.write_str(2, "ab");
    let (cells, _) = run(&c.code());
    assert_eq!(&cells[0..5], &[0, 0, 97, 98, 0]);
}

#[test]
fn print_str_at_moves_the_head_by_the_length() {
    let mut c = Compiler::new();
    c.add_string_literal("Hi").unwrap();
    c.print_str_at(0);
    assert_eq!(c.head(), 2);
    assert!(c.code().ends_with("<<[.>]"));
    let before = c.code();
    c.print_str_at(1);
    assert_eq!(c.code(), before);
}

#[test]
fn head_follows_the_machine_through_statements() {
    let program = vec![
        Statement::Print(Expr::String("abc".to_string())),
        Statement::VariableDefinition {
            name: "x".to_string(),
            initializer: Some(Expr::Binary {
                lhs: Box::new(Expr::Number(3)),
                op: BinaryOp::Mul,
                rhs: Box::new(Expr::Number(5)),
            }),
        },
        Statement::If {
            condition: Expr::Identifier("x".to_string()),
            then_branch: Box::new(Statement::Block(vec![Statement::Assignment {
                name: "x".to_string(),
                value: Expr::Number(1),
            }])),
            else_branch: None,
        },
    ];
    let mut c = Compiler::new();
    c.compile(&program).unwrap();
    let (cells, head) = run(&c.code());
    assert_eq!(head as isize, c.head());
    assert_eq!(c.top(), 5);
    assert_eq!(cell(&cells, 4), 1);
}

#[test]
fn temporaries_end_zero_without_multiplication() {
    let code = compile("let x = 2 + 5; let y = x - 1; y = y + x; if y { x = 0; } else { x = 1; }").unwrap();
    let (cells, _) = run(&code);
    assert_eq!(cell(&cells, 0), 0);
    assert_eq!(cell(&cells, 1), 13);
    for i in 2..cells.len() {
        assert_eq!(cells[i], 0);
    }
}

#[test]
fn every_temporary_is_given_back() {
    let mut c = Compiler::new();
    let program = vec![
        Statement::Print(Expr::String("ab".to_string())),
        Statement::VariableDefinition {
            name: "x".to_string(),
            initializer: Some(Expr::Binary {
                lhs: Box::new(Expr::Number(2)),
                op: BinaryOp::Mul,
                rhs: Box::new(Expr::Binary {
                    lhs: Box::new(Expr::Number(3)),
                    op: BinaryOp::Sub,
                    rhs: Box::new(Expr::Number(1)),
                }),
            }),
        },
        Statement::Block(vec![
            Statement::VariableDefinition { name: "y".to_string(), initializer: None },
            Statement::If {
                condition: Expr::Identifier("x".to_string()),
                then_branch: Box::new(Statement::VariableDefinition {
                    name: "z".to_string(),
                    initializer: Some(Expr::Identifier("y".to_string())),
                }),
                else_branch: Some(Box::new(Statement::Assignment {
                    name: "y".to_string(),
                    value: Expr::Number(1),
                })),
            },
        ]),
    ];
    c.compile(&program).unwrap();
    assert_eq!(c.top(), 3 + 1);
    let (cells, head) = run(&c.code());
    assert_eq!(head as isize, c.head());
    assert_eq!(cell(&cells, 3), 4);
}

#[test]
fn multiplication_leaves_its_right_operand_behind() {
    let code = compile("let x = 4 * 3;").unwrap();
    let (cells, _) = run(&code);
    assert_eq!(cell(&cells, 0), 12);
    assert_eq!(cell(&cells, 1), 0);
    assert_eq!(cell(&cells, 2), 0);
    assert_eq!(cell(&cells, 3), 3);
}

#[test]
fn a_block_leaves_the_values_of_its_variables_behind() {
    let code = compile("{ let y = 5; }").unwrap();
    let (cells, _) = run(&code);
    assert_eq!(cell(&cells, 0), 5);
}

#[test]
fn product_with_zero_on_the_right_leaves_zeros() {
    let code = compile("let x = 4 * 0; let y = x * (3 - 3);").unwrap();
    let (cells, _) = run(&code);
    for i in 0..cells.len() {
        assert_eq!(cells[i], 0);
    }
}

#[test]
fn block_variables_that_end_at_zero_leave_zeros() {
    let code = compile("let x = 2; { let y = x + 1; x = y + y; y = 0; } if x { let z = 0; }").unwrap();
    let (cells, _) = run(&code);
    assert_eq!(cell(&cells, 0), 6);
    for i in 1..cells.len() {
        assert_eq!(cells[i], 0);
    }
}
