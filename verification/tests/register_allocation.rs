use compile_sysy::riscv::{RegLocation, RegName, RegisterAllocator};

#[test]
fn values_get_temporaries_then_saved_registers_then_stack_slots() {
    let mut ra = RegisterAllocator::new();
    let first = ra.register(1);
    assert_eq!(first.location, RegLocation::Reg(RegName::TempT(1)));
    assert!(first.owned);
    let again = ra.register(1);
    assert_eq!(again.location, RegLocation::Reg(RegName::TempT(1)));
    assert!(!again.owned);
    for v in 2..=5 {
        ra.register(v);
    }
    assert_eq!(ra.register(6).location, RegLocation::Reg(RegName::TempS(2)));
    for v in 7..=15 {
        ra.register(v);
    }
    assert_eq!(ra.find(&15).unwrap().location, RegLocation::Reg(RegName::TempS(11)));
    assert_eq!(ra.register(16).location, RegLocation::Stack(0));
    assert_eq!(ra.register(17).location, RegLocation::Stack(1));
    assert_eq!(ra.max_stack_size(), 2);
}

#[test]
fn freed_places_are_handed_out_again() {
    let mut ra = RegisterAllocator::new();
    let a = ra.register(10);
    let b = ra.register(11);
    assert_eq!(b.location, RegLocation::Reg(RegName::TempT(2)));
    ra.release(b);
    assert!(ra.find(&11).is_none());
    assert_eq!(ra.register(12).location, RegLocation::Reg(RegName::TempT(2)));
    ra.free_location(10, RegLocation::Reg(RegName::TempT(3)));
    assert_eq!(ra.find(&10).unwrap().location, a.location);
}

#[test]
fn parameters_sit_in_argument_registers() {
    let mut ra = RegisterAllocator::new();
    let p = ra.register_param(40, 2);
    assert_eq!(p.location, RegLocation::Reg(RegName::Param(2)));
    assert_eq!(ra.find(&40).unwrap().location, RegLocation::Reg(RegName::Param(2)));
    assert!(ra.find(&41).is_none());
}

#[test]
fn live_values_never_share_a_place() {
    let mut ra = RegisterAllocator::new();
    let mut held = Vec::new();
    for v in 0..20u64 {
        held.push(ra.register(v));
    }
    ra.release(held.remove(3));
    ra.release(held.remove(16));
    held.push(ra.register(100));
    held.push(ra.register(101));
    for i in 0..held.len() {
        for j in (i + 1)..held.len() {
            assert_ne!(held[i].location, held[j].location);
        }
    }
}
