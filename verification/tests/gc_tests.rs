use mark_sweep::ObjectType;
use mark_sweep::VmError;
use mark_sweep::VM;

#[test]
fn stack_objects_are_preserved() {
    let mut vm = VM::new(10);

    vm.push_int(1).unwrap();
    vm.push_int(2).unwrap();

    vm.gc();

    assert_eq!(vm.num_objects, 2);
}

#[test]
fn unreached_objects_are_collected() {
    let mut vm = VM::new(10);

    vm.push_int(1).unwrap();
    vm.push_int(2).unwrap();

    vm.pop().unwrap();
    vm.pop().unwrap();

    vm.gc();

    assert_eq!(vm.num_objects, 0);
}

#[test]
fn nested_objects_are_reachable() {
    let mut vm = VM::new(10);

    vm.push_int(1).unwrap();
    vm.push_int(2).unwrap();
    vm.push_pair().unwrap();
    vm.push_int(3).unwrap();
    vm.push_int(4).unwrap();
    vm.push_pair().unwrap();
    vm.push_pair().unwrap();

    vm.gc();

    assert_eq!(vm.num_objects, 7);
}

#[test]
fn handles_cycles() {
    let mut vm = VM::new(10);

    vm.push_int(1).unwrap();
    vm.push_int(2).unwrap();
    let a = vm.push_pair().unwrap();
    vm.push_int(3).unwrap();
    vm.push_int(4).unwrap();
    let b = vm.push_pair().unwrap();

    vm.set_pair_tail(a, b).unwrap();
    vm.set_pair_tail(b, a).unwrap();

    vm.gc();

    assert_eq!(vm.num_objects, 4);
}

#[test]
fn gc_reports_reclaimed_and_remaining() {
    let mut vm = VM::new(10);

    vm.push_int(1).unwrap();
    vm.push_int(2).unwrap();
    vm.pop().unwrap();

    assert_eq!(vm.gc(), (1, 1));
    assert_eq!(vm.gc(), (0, 1));
}

#[test]
fn push_overflow_is_reported() {
    let mut vm = VM::new(1);

    vm.push_int(7).unwrap();

    assert_eq!(vm.push_int(8), Err(VmError::StackOverflow));
    assert_eq!(vm.num_objects, 1);
}

#[test]
fn pop_underflow_is_reported() {
    let mut vm = VM::new(4);

    assert_eq!(vm.pop(), Err(VmError::StackUnderflow));

    vm.push_int(1).unwrap();

    assert_eq!(vm.push_pair(), Err(VmError::StackUnderflow));
}

#[test]
fn tail_mutation_needs_a_pair() {
    let mut vm = VM::new(4);

    let a = vm.push_int(1).unwrap();
    let b = vm.push_int(2).unwrap();

    assert_eq!(vm.set_pair_tail(a, b), Err(VmError::TypeMismatch));
}

#[test]
fn pair_takes_deeper_operand_as_head() {
    let mut vm = VM::new(4);

    let deeper = vm.push_int(1).unwrap();
    let shallower = vm.push_int(2).unwrap();
    let p = vm.push_pair().unwrap();

    assert_eq!(vm.objects[p].obj_type, ObjectType::Pair(deeper, shallower));
    assert_eq!(vm.stack, vec![p]);
}

#[test]
fn self_cycle_is_reclaimed_when_unrooted() {
    let mut vm = VM::new(4);

    vm.push_int(1).unwrap();
    vm.push_int(2).unwrap();
    let p = vm.push_pair().unwrap();
    vm.set_pair_tail(p, p).unwrap();

    vm.pop().unwrap();
    vm.gc();

    assert_eq!(vm.num_objects, 0);
}

#[test]
fn rooted_cycle_survives_repeated_collections() {
    let mut vm = VM::new(10);

    vm.push_int(1).unwrap();
    vm.push_int(2).unwrap();
    let a = vm.push_pair().unwrap();
    vm.push_int(3).unwrap();
    vm.push_int(4).unwrap();
    let b = vm.push_pair().unwrap();
    vm.set_pair_tail(a, b).unwrap();
    vm.set_pair_tail(b, a).unwrap();

    vm.gc();
    vm.gc();
    assert_eq!(vm.num_objects, 4);

    // Marks were reset: dropping the roots lets the next cycle reclaim all.
    vm.pop().unwrap();
    vm.pop().unwrap();
    vm.gc();
    assert_eq!(vm.num_objects, 0);
}

#[test]
fn allocation_triggers_collection_at_threshold() {
    let mut vm = VM::new(16);

    // Fill the heap up to the initial threshold, then unroot everything.
    for i in 0..8 {
        vm.push_int(i).unwrap();
    }
    for _ in 0..8 {
        vm.pop().unwrap();
    }
    assert_eq!(vm.num_objects, 8);

    // The ninth allocation runs a collection first, reclaiming all eight.
    vm.push_int(8).unwrap();
    assert_eq!(vm.num_objects, 1);
}

#[test]
fn threshold_doubles_after_collection() {
    let mut vm = VM::new(10);

    vm.push_int(1).unwrap();
    vm.push_int(2).unwrap();
    vm.gc();
    // Two survivors: the next forced collection needs the count to reach 4.
    vm.push_int(3).unwrap();
    vm.pop().unwrap();
    vm.push_int(4).unwrap();
    // Garbage was retained: the count (3, then 4 after allocating) stayed
    // below the doubled threshold, so no collection ran in between.
    assert_eq!(vm.num_objects, 4);

    assert_eq!(vm.gc(), (1, 3));
}
