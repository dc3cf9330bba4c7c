use nanolang::ir::IrInst;
use nanolang::vm::{vm_start, vm_step, VmAction, VmError, VmEvent, VmState};

fn step(code: &Vec<IrInst>, state: VmState, event: VmEvent) -> (VmState, VmAction) {
    vm_step(code, state, event).ok().unwrap()
}

#[test]
fn condition_decides_the_jump() {
    let code = vec![IrInst::JumpIfFalse(2), IrInst::Print, IrInst::Return];
    let (s, a) = step(&code, vm_start(), VmEvent::Done);
    assert_eq!(a, VmAction::PopTruth);
    let (s, a) = step(&code, s, VmEvent::Truth(false));
    assert_eq!((s.ip, a), (2, VmAction::Next));
    let (_, a) = step(&code, s, VmEvent::Done);
    assert_eq!(a, VmAction::Return);
    let (s, _) = step(&code, vm_start(), VmEvent::Done);
    let (s, _) = step(&code, s, VmEvent::Truth(true));
    let (s, a) = step(&code, s, VmEvent::Done);
    assert_eq!((s.ip, a), (2, VmAction::Perform(1)));
}

#[test]
fn for_loop_binds_each_item_then_ends() {
    let code = vec![IrInst::IterInit, IrInst::IterNext("x".into(), 3), IrInst::Jump(1), IrInst::Pop];
    let mut actions = Vec::new();
    let (mut s, mut a) = step(&code, vm_start(), VmEvent::Done);
    actions.push(a);
    let mut event = VmEvent::Items(2);
    while a != VmAction::Halt {
        let (s2, a2) = step(&code, s, event);
        s = s2;
        a = a2;
        actions.push(a);
        event = VmEvent::Done;
    }
    assert_eq!(
        actions,
        vec![
            VmAction::PopList,
            VmAction::Next,
            VmAction::Bind(1, 0),
            VmAction::Next,
            VmAction::Bind(1, 1),
            VmAction::Next,
            VmAction::EndLoop,
            VmAction::Perform(3),
            VmAction::Halt,
        ]
    );
}

#[test]
fn loop_errors() {
    let code = vec![IrInst::IterNext("x".into(), 1)];
    assert!(matches!(vm_step(&code, vm_start(), VmEvent::Done), Err(VmError::IterNextWithoutInit)));
    let code = vec![IrInst::IterInit];
    let (s, _) = step(&code, vm_start(), VmEvent::Done);
    assert!(matches!(vm_step(&code, s, VmEvent::NotList), Err(VmError::ForNeedsList)));
    assert!(matches!(vm_step(&code, vm_start(), VmEvent::Truth(true)), Err(VmError::UnexpectedEvent)));
}
