use compile_sysy::assembly::{
    caller_saved_slot, emit_load_from_offset, emit_offset_addr_to_reg, emit_store_to_offset, fits_imm12,
    name_to_symbol, Asm,
};
use compile_sysy::ast::indexing::{flat_index_to_indices, nested_init_string, product};
use compile_sysy::riscv::RegName;

#[test]
fn products_multiply_lengths() {
    assert_eq!(product(&[]), 1);
    assert_eq!(product(&[2, 3, 4]), 24);
    assert_eq!(product(&[5, 0, 7]), 0);
}

#[test]
fn flat_positions_split_into_indices() {
    assert_eq!(flat_index_to_indices(7, &[2, 3, 4]), vec![0, 1, 3]);
    assert_eq!(flat_index_to_indices(23, &[2, 3, 4]), vec![1, 2, 3]);
    assert_eq!(flat_index_to_indices(0, &[5]), vec![0]);
    assert_eq!(flat_index_to_indices(0, &[]), Vec::<usize>::new());
}

#[test]
fn initializers_nest_by_dimension() {
    let values: Vec<String> = (1..=6).map(|v| v.to_string()).collect();
    assert_eq!(nested_init_string(&values, &[2, 3]), "{{1, 2, 3}, {4, 5, 6}}");
    assert_eq!(nested_init_string(&values, &[3, 2]), "{{1, 2}, {3, 4}, {5, 6}}");
    assert_eq!(nested_init_string(&values[..2], &[3]), "{1, 2}");
}

#[test]
fn far_offsets_go_through_a_scratch_register() {
    assert!(fits_imm12(2047));
    assert!(!fits_imm12(2048));
    assert!(fits_imm12(-2048));
    let mut code = Asm::new();
    emit_offset_addr_to_reg(&mut code, RegName::TempT(0), RegName::Stack, 8, RegName::TempT(1));
    emit_load_from_offset(&mut code, RegName::TempT(2), RegName::Stack, 4096, RegName::TempT(3));
    emit_store_to_offset(&mut code, RegName::Stack, -4, RegName::TempT(4), RegName::TempT(5));
    assert_eq!(
        code.to_string(),
        "\taddi t0, sp, 8\n\tli t3, 4096\n\tadd t3, sp, t3\n\tlw t2, 0(t3)\n\tsw t4, -4(sp)\n"
    );
}

#[test]
fn symbols_and_save_slots() {
    assert_eq!(name_to_symbol("@main"), "main");
    assert_eq!(name_to_symbol("x"), "x");
    assert_eq!(caller_saved_slot(&RegName::TempT(6)), Some(6));
    assert_eq!(caller_saved_slot(&RegName::TempT(7)), None);
    assert_eq!(caller_saved_slot(&RegName::TempS(1)), None);
}
