use grotsky::instruction::{split_operand, Instruction, OpCode};
use grotsky::machine::{check_call, jump_target, returns_value, test_outcome, CallCheck, Frame, Machine, ReturnAction};

fn jmp(offset: i64) -> Instruction {
    let (b, c) = split_operand(offset);
    Instruction { opcode: OpCode::Jmp, a: 0, b, c }
}

#[test]
fn jumps_move_by_their_signed_operand() {
    assert_eq!(jump_target(10, jmp(3)), 13);
    assert_eq!(jump_target(10, jmp(-10)), 0);
    assert_eq!(jump_target(2, jmp(-3)), usize::MAX);
}

#[test]
fn tests_copy_or_skip() {
    assert_eq!(test_outcome(4, true, 1), (5, true));
    assert_eq!(test_outcome(4, false, 0), (5, true));
    assert_eq!(test_outcome(4, true, 0), (6, false));
}

#[test]
fn calls_are_checked_for_arity_then_depth() {
    assert_eq!(check_call(2, 2, 0), CallCheck::Ready);
    assert_eq!(check_call(1, 2, 0), CallCheck::WrongArity);
    assert_eq!(check_call(1, 2, 5000), CallCheck::WrongArity);
    assert_eq!(check_call(2, 2, 1024), CallCheck::TooDeep);
}

#[test]
fn returns_hand_back_a_value_when_b_is_a_plus_two() {
    assert!(returns_value(Instruction { opcode: OpCode::Return, a: 3, b: 5, c: 0 }));
    assert!(!returns_value(Instruction { opcode: OpCode::Return, a: 0, b: 1, c: 0 }));
}

#[test]
fn a_call_then_a_return_resumes_the_caller() {
    let mut m = Machine::new(0, 0);
    m.pc = 7;
    m.sp = 2;
    m.call(3, 10);
    assert_eq!((m.pc, m.sp, m.frames.len()), (0, 10, 2));
    m.pc = 4;
    match m.ret(true) {
        ReturnAction::Resume { frame, write_back, truncate_to } => {
            assert_eq!((frame.ret_pc, frame.sp, frame.result_register), (8, 2, 3));
            assert!(write_back);
            assert_eq!(truncate_to, 10);
        }
        ReturnAction::Exit => panic!("the caller should go on"),
    }
    assert_eq!((m.pc, m.sp, m.frames.len()), (8, 2, 1));
    assert!(matches!(m.ret(false), ReturnAction::Exit));
}

#[test]
fn a_throw_goes_to_the_innermost_handler() {
    let mut m = Machine::new(0, 0);
    m.pc = 5;
    m.register_handler(10);
    assert_eq!(m.pc, 6);
    m.pc = 9;
    m.register_handler(3);
    m.frames.push(Frame { ret_pc: 20, sp: 0, result_register: 0 });
    m.sp = 30;
    assert_eq!(m.throw("boom".to_string()), Some(0));
    assert_eq!((m.pc, m.sp), (12, 0));
    assert_eq!(m.handlers.last().unwrap().exception.as_deref(), Some("boom"));
    m.deregister_handler();
    m.deregister_handler();
    m.deregister_handler();
    assert!(m.handlers.is_empty());
    assert_eq!(m.throw("lost".to_string()), None);
}
