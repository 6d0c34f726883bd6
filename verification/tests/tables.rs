use zjit::cruby::VALUE;
use zjit::exit_meta;
use zjit::exit_meta::ExitMeta;
use zjit::growth::{append_only_growth, fixed_growth, reserve_append_only, reserve_fixed_step};
use zjit::le;

fn meta(iseq: u64) -> ExitMeta {
    ExitMeta { pc: 0x10, iseq, compiled_iseq: 0, sp_offset: 2, insn_idx: 3 }
}

#[test]
fn interned_records_stay() {
    let mut metas = Vec::new();
    let mut roots = Vec::new();
    let first = exit_meta::intern(&mut metas, &mut roots, meta(0x100));
    let second = exit_meta::intern(&mut metas, &mut roots, meta(0x200));
    assert_eq!((first, second), (0, 1));
    assert_eq!(exit_meta::get(&metas, first), meta(0x100));
    assert_eq!(exit_meta::get(&metas, second), meta(0x200));
    assert_eq!(roots, vec![0x100, 0, 0x200, 0]);
    assert!(metas.capacity() >= exit_meta::GROWTH_STEP);
}

#[test]
fn compaction_moves_both_iseqs_but_not_null() {
    let mut record = ExitMeta { compiled_iseq: 0x300, ..meta(0x100) };
    record.update_references(|object| VALUE(object.0 + 1));
    assert_eq!((record.iseq, record.compiled_iseq), (0x101, 0x301));
    let mut record = meta(0);
    record.update_references(|object| VALUE(object.0 + 1));
    assert_eq!(record, meta(0));
}

#[test]
fn append_only_tables_grow_by_an_eighth() {
    assert_eq!(append_only_growth(8, 16, 8, 8), None);
    // At least 64 KiB.
    assert_eq!(append_only_growth(8, 16, 8, 9), Some(8192));
    assert_eq!(append_only_growth(1 << 20, 1 << 20, 8, 1), Some(1 << 17));
    // At least what is asked for.
    assert_eq!(append_only_growth(0, 0, 1, 1 << 20), Some(1 << 20));
    assert_eq!(fixed_growth(5, 5, 4096), Some(4096));
    assert_eq!(fixed_growth(5, 6, 4096), None);
}

#[test]
fn reserving_keeps_the_elements() {
    let mut bytes: Vec<u8> = vec![1, 2, 3];
    bytes.shrink_to_fit();
    reserve_append_only(&mut bytes, 1000);
    assert_eq!(bytes, vec![1, 2, 3]);
    assert!(bytes.capacity() >= 3 + 64 * 1024);
    let mut words: Vec<u64> = Vec::new();
    reserve_fixed_step(&mut words, 100);
    assert!(words.capacity() >= 100);
    assert!(words.is_empty());
}

#[test]
fn room_is_asked_for_only_where_it_is_missing() {
    let mut bytes: Vec<u8> = Vec::new();
    assert_eq!(reserve_append_only(&mut bytes, 0), None);
    assert_eq!(reserve_append_only(&mut bytes, 10), Some(64 * 1024));
    assert_eq!(reserve_append_only(&mut bytes, 10), None);
    // More than fits in memory is not asked for.
    assert_eq!(reserve_append_only(&mut bytes, usize::MAX), None);

    let mut words: Vec<u64> = Vec::new();
    assert_eq!(reserve_fixed_step(&mut words, usize::MAX / 8), None);
    assert_eq!(reserve_fixed_step(&mut words, 100), Some(100));
    assert_eq!(reserve_fixed_step(&mut words, 100), None);
}

#[test]
fn words_are_little_endian() {
    let mut bytes = vec![9];
    le::push_u64(&mut bytes, 0x0102_0304_0506_0708);
    assert_eq!(bytes, vec![9, 8, 7, 6, 5, 4, 3, 2, 1]);
    assert_eq!(le::read_u64(&bytes, 1), 0x0102_0304_0506_0708);
    le::write_u64_at(&mut bytes, 1, u64::MAX - 1);
    assert_eq!(bytes, vec![9, 254, 255, 255, 255, 255, 255, 255, 255]);
}
