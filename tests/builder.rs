use cell_builder::{append_tag, find_tag, BuilderData, ByteVec, CellType, ExceptionCode, LevelMask, RefVec, SliceData};

fn raw(bytes: &[u8], bits: usize) -> BuilderData {
    BuilderData::with_raw(ByteVec::from_slice(bytes), bits).unwrap()
}

fn bits_of(b: &BuilderData) -> Vec<bool> {
    let d = b.data();
    (0..b.length_in_bits()).map(|i| (d[i / 8] >> (7 - i % 8)) & 1 == 1).collect()
}

fn bits_from(bytes: &[u8], n: usize) -> Vec<bool> {
    (0..n).map(|i| (bytes[i / 8] >> (7 - i % 8)) & 1 == 1).collect()
}

#[test]
fn two_appends_make_sixteen_bits() {
    let mut a = BuilderData::new();
    a.append_raw(&[0b1010_0000], 3).unwrap();
    a.append_raw(&[0b0000_0000, 0b0111_1000], 13).unwrap();
    assert_eq!(a.length_in_bits(), 16);
    assert_eq!(a.data(), &[0xA0, 0x0F]);
    let mut b = BuilderData::new();
    b.append_raw(&[0b1010_0000], 3).unwrap();
    b.append_raw(&[0b0000_0000, 0b0111_1000], 13).unwrap();
    assert_eq!(a.compare_data(&b), Ok((None, None)));
}

#[test]
fn full_builder_refuses_one_more_bit() {
    let mut b = raw(&[0xFF; 128], 1023);
    assert_eq!(b.length_in_bits(), 1023);
    assert_eq!(b.append_raw(&[0x80], 1), Err(ExceptionCode::CellOverflow));
    assert_eq!(b.length_in_bits(), 1023);
    assert_eq!(b.append_raw(&[], 0), Ok(()));
    assert_eq!(b.length_in_bits(), 1023);
}

#[test]
fn overflow_leaves_builder_unchanged() {
    let mut b = raw(&[0xAB; 100], 800);
    let before = b.data().to_vec();
    assert_eq!(b.append_raw(&[0xFF; 30], 224), Err(ExceptionCode::CellOverflow));
    assert_eq!(b.data(), &before[..]);
    assert_eq!(b.length_in_bits(), 800);
    assert_eq!(b.append_raw(&[0xFF; 30], 223), Ok(()));
    assert_eq!(b.length_in_bits(), 1023);
}

#[test]
fn short_slice_is_fatal() {
    let mut b = BuilderData::new();
    assert_eq!(b.append_raw(&[0xFF], 9), Err(ExceptionCode::FatalError));
    assert_eq!(b.prepend_raw(&[0xFF], 9), Err(ExceptionCode::FatalError));
    assert_eq!(
        BuilderData::with_raw(ByteVec::from_slice(&[1, 2]), 17).err(),
        Some(ExceptionCode::FatalError)
    );
    assert_eq!(
        BuilderData::with_raw(ByteVec::from_slice(&[0; 200]), 1024).err(),
        Some(ExceptionCode::CellOverflow)
    );
}

#[test]
fn with_raw_masks_tail_bits() {
    let b = raw(&[0xFF, 0xFF, 0xFF], 11);
    assert_eq!(b.data(), &[0xFF, 0xE0]);
    let c = raw(&[0x12, 0x34, 0x56], 16);
    assert_eq!(c.data(), &[0x12, 0x34]);
}

#[test]
fn appends_at_every_offset_keep_bits() {
    let payload: [u8; 5] = [0xC3, 0x5A, 0x0F, 0xF0, 0x99];
    for offset in 0..8usize {
        for len in 0..=5usize {
            for extra in [0usize, 3] {
                let n = if len == 0 { 0 } else { 8 * len - extra };
                let mut b = raw(&[0b1011_0110], offset);
                b.append_raw(&payload[..len], n).unwrap();
                let mut expect = bits_from(&[0b1011_0110], offset);
                expect.extend(bits_from(&payload, n));
                assert_eq!(bits_of(&b), expect, "offset {} len {} bits {}", offset, len, n);
                assert_eq!(b.data().len(), (offset + n + 7) / 8);
            }
        }
    }
}

#[test]
fn same_bits_same_bytes() {
    let mut a = BuilderData::new();
    a.append_raw(&[0b1100_0000], 2).unwrap();
    a.append_raw(&[0b1010_1010, 0b1000_0000], 9).unwrap();
    let b = raw(&[0b1110_1010, 0b1010_0000], 11);
    assert_eq!(a.data(), b.data());
    assert_eq!(a.compare_data(&b), Ok((None, None)));
}

#[test]
fn prepend_puts_bits_in_front() {
    let mut b = raw(&[0b1010_0000], 3);
    b.prepend_raw(&[0b0110_0000], 4).unwrap();
    assert_eq!(b.length_in_bits(), 7);
    assert_eq!(b.data(), &[0b0110_1010]);
    let mut full = raw(&[0; 128], 1020);
    assert_eq!(full.prepend_raw(&[0xFF], 4), Err(ExceptionCode::CellOverflow));
    assert_eq!(full.length_in_bits(), 1020);
    assert_eq!(full.prepend_raw(&[], 0), Ok(()));
}

#[test]
fn fifth_reference_overflows() {
    let child = BuilderData::new().into_cell().unwrap();
    let mut b = BuilderData::new();
    for _ in 0..4 {
        b.checked_append_reference(child.clone()).unwrap();
    }
    assert_eq!(b.checked_append_reference(child.clone()), Err(ExceptionCode::CellOverflow));
    assert_eq!(b.checked_prepend_reference(child.clone()), Err(ExceptionCode::CellOverflow));
    assert_eq!(b.references().len(), 4);
}

#[test]
fn references_keep_insertion_order() {
    let a = raw(&[0x01], 8).into_cell().unwrap();
    let c = raw(&[0x02], 8).into_cell().unwrap();
    let d = raw(&[0x03], 8).into_cell().unwrap();
    let mut b = BuilderData::new();
    b.checked_append_reference(a).unwrap();
    b.checked_append_reference(c).unwrap();
    b.checked_prepend_reference(d).unwrap();
    let firsts: Vec<u8> = b.references().iter().map(|r| r.data()[0]).collect();
    assert_eq!(firsts, vec![0x03, 0x01, 0x02]);
}

#[test]
fn replace_reference_out_of_range_is_noop() {
    let a = raw(&[0x01], 8).into_cell().unwrap();
    let z = raw(&[0x09], 8).into_cell().unwrap();
    let mut b = BuilderData::new();
    b.checked_append_reference(a).unwrap();
    b.replace_reference_cell(3, z.clone());
    assert_eq!(b.references()[0].data()[0], 0x01);
    b.replace_reference_cell(0, z);
    assert_eq!(b.references()[0].data()[0], 0x09);
}

#[test]
fn tag_round_trip_every_length() {
    let bytes = [0xA5u8; 128];
    for n in 0..=1023usize {
        let b = raw(&bytes, n);
        let mut t = ByteVec::from_slice(b.data());
        append_tag(&mut t, n);
        assert_eq!(find_tag(t.as_slice()), n);
        let back = BuilderData::with_bitstring(t).unwrap();
        assert_eq!(back.length_in_bits(), n);
        assert_eq!(back.data(), b.data());
    }
}

#[test]
fn append_tag_marks_end() {
    let mut t = ByteVec::from_slice(&[0b1010_0000]);
    append_tag(&mut t, 3);
    assert_eq!(t.as_slice(), &[0b1011_0000]);
    let mut e = ByteVec::new();
    append_tag(&mut e, 0);
    assert_eq!(e.as_slice(), &[0x80]);
    assert_eq!(find_tag(&[0, 0]), 0);
    assert_eq!(find_tag(&[0x12, 0x40, 0]), 9);
}

#[test]
fn with_bitstring_without_tag_is_empty() {
    let b = BuilderData::with_bitstring(ByteVec::from_slice(&[0, 0, 0])).unwrap();
    assert!(b.is_empty());
    let long = BuilderData::with_bitstring(ByteVec::from_slice(&[0xFF; 130]));
    assert_eq!(long.err(), Some(ExceptionCode::CellOverflow));
}

#[test]
fn finalize_then_reopen_keeps_content() {
    let child = raw(&[0x77], 5).into_cell().unwrap();
    let mut b = raw(&[0xDE, 0xAD, 0xBE], 21);
    b.checked_append_reference(child).unwrap();
    let copy = b.clone();
    let cell = b.finalize(10).unwrap();
    assert_eq!(cell.bit_length(), 21);
    let back = BuilderData::from_cell(&cell);
    assert_eq!(back.length_in_bits(), 21);
    assert_eq!(back.data(), copy.data());
    assert_eq!(back.references().len(), 1);
    assert_eq!(back.references()[0].bit_length(), 5);
    assert_eq!(back.level_mask(), copy.level_mask());
    assert_eq!(back.compare_data(&copy), Ok((None, None)));
}

#[test]
fn finalize_ors_child_masks_for_ordinary() {
    let mut p = BuilderData::new();
    p.set_type(CellType::PrunedBranch);
    p.set_level_mask(LevelMask::with_mask(1));
    let c1 = p.into_cell().unwrap();
    assert_eq!(c1.level_mask().mask(), 1);
    let mut q = BuilderData::new();
    q.set_type(CellType::MerkleProof);
    q.set_level_mask(LevelMask::with_mask(4));
    let c2 = q.into_cell().unwrap();
    let mut b = BuilderData::new();
    b.set_level_mask(LevelMask::with_mask(2));
    b.checked_append_reference(c1).unwrap();
    b.checked_append_reference(c2).unwrap();
    let cell = b.into_cell().unwrap();
    assert_eq!(cell.level_mask().mask(), 5);
    assert_eq!(cell.cell_type(), CellType::Ordinary);
}

#[test]
fn depth_ceiling_is_enforced() {
    let leaf = BuilderData::new().into_cell().unwrap();
    let mut mid = BuilderData::new();
    mid.checked_append_reference(leaf).unwrap();
    let mid = mid.finalize(1).unwrap();
    let mut top = BuilderData::new();
    top.checked_append_reference(mid.clone()).unwrap();
    let top2 = top.clone();
    assert_eq!(top.finalize(1).err(), Some(ExceptionCode::FatalError));
    assert!(top2.finalize(2).is_ok());
}

#[test]
fn compare_reports_first_differing_bits() {
    let a = raw(&[0b1011_0000], 4);
    let b = raw(&[0b1001_0000], 4);
    assert_eq!(a.compare_data(&b), Ok((Some(1), Some(0))));
    let short = raw(&[0b1010_0000], 3);
    assert_eq!(short.compare_data(&a), Ok((None, Some(1))));
    assert_eq!(a.compare_data(&short), Ok((Some(1), None)));
}

#[test]
fn trunc_clears_dropped_bits() {
    let mut b = raw(&[0xFF, 0xFF], 16);
    assert_eq!(b.trunc(17), Err(ExceptionCode::FatalError));
    b.trunc(10).unwrap();
    assert_eq!(b.length_in_bits(), 10);
    assert_eq!(b.data(), &[0xFF, 0xC0]);
    b.trunc(8).unwrap();
    assert_eq!(b.data(), &[0xFF]);
}

#[test]
fn replace_data_clamps_length() {
    let mut b = BuilderData::new();
    b.replace_data(ByteVec::from_slice(&[0xFF, 0xFF]), 100);
    assert_eq!(b.length_in_bits(), 16);
    b.replace_data(ByteVec::from_slice(&[0xF0]), 3);
    assert_eq!(b.length_in_bits(), 3);
    assert_eq!(b.data(), &[0xE0]);
    b.replace_data(ByteVec::from_slice(&[0xFF; 200]), 5000);
    assert_eq!(b.length_in_bits(), 1023);
    assert_eq!(b.data().len(), 128);
}

#[test]
fn can_append_checks_both_capacities() {
    let big = raw(&[0; 128], 1000);
    let small = raw(&[0; 3], 23);
    let more = raw(&[0; 3], 24);
    assert!(big.can_append(&small));
    assert!(!big.can_append(&more));
    let child = BuilderData::new().into_cell().unwrap();
    let mut refs = BuilderData::new();
    for _ in 0..3 {
        refs.checked_append_reference(child.clone()).unwrap();
    }
    let mut two = BuilderData::new();
    two.checked_append_reference(child.clone()).unwrap();
    two.checked_append_reference(child).unwrap();
    assert!(!refs.can_append(&two));
    assert!(refs.can_append(&small));
}

#[test]
fn with_raw_and_refs_limits_references() {
    let child = BuilderData::new().into_cell().unwrap();
    let ok = BuilderData::with_raw_and_refs(ByteVec::from_slice(&[0x80]), 1, vec![child.clone(); 4]);
    assert_eq!(ok.unwrap().references().len(), 4);
    let too_many = BuilderData::with_raw_and_refs(ByteVec::from_slice(&[0x80]), 1, vec![child; 5]);
    assert_eq!(too_many.err(), Some(ExceptionCode::CellOverflow));
}

#[test]
fn cell_data_copies_content() {
    let child = BuilderData::new().into_cell().unwrap();
    let mut b = raw(&[0xAB, 0xC0], 10);
    b.checked_append_reference(child).unwrap();
    let mut data = ByteVec::new();
    let mut bits = 0usize;
    let mut children = RefVec::new();
    b.cell_data(&mut data, &mut bits, &mut children);
    assert_eq!(data.as_slice(), &[0xAB, 0xC0]);
    assert_eq!(bits, 10);
    assert_eq!(children.len(), 1);
}

#[test]
fn level_counts_mask_bits() {
    assert_eq!(LevelMask::with_mask(5).level(), 2);
    assert_eq!(LevelMask::with_mask(7).level(), 3);
    assert_eq!(LevelMask::with_mask(9).mask(), 0);
    let mut b = BuilderData::new();
    b.set_level_mask(LevelMask::with_mask(3));
    assert_eq!(b.level(), 2);
}

#[test]
fn clone_is_independent() {
    let mut a = raw(&[0xF0], 4);
    let b = a.clone();
    a.append_raw(&[0xFF], 8).unwrap();
    assert_eq!(b.length_in_bits(), 4);
    assert_eq!(b.data(), &[0xF0]);
    assert_eq!(a.length_in_bits(), 12);
}

#[test]
fn level_mask_mut_edits_in_place() {
    let mut b = BuilderData::new();
    *b.level_mask_mut() = LevelMask::with_mask(6);
    assert_eq!(b.level_mask().mask(), 6);
    assert_eq!(b.level(), 2);
}

#[test]
fn from_slice_takes_unread_part() {
    let c1 = raw(&[0x11], 8).into_cell().unwrap();
    let c2 = raw(&[0x22], 8).into_cell().unwrap();
    let mut b = raw(&[0b1100_1010, 0b0111_0000], 12);
    b.checked_append_reference(c1).unwrap();
    b.checked_append_reference(c2).unwrap();
    let cell = b.into_cell().unwrap();
    let mut s = SliceData::load_cell(cell);
    assert_eq!(s.skip(3, 1), Ok(()));
    assert_eq!(s.remaining_references(), 1);
    let r = BuilderData::from_slice(&s);
    assert_eq!(r.length_in_bits(), 9);
    assert_eq!(r.data(), &[0b0101_0011, 0b1000_0000]);
    assert_eq!(r.references().len(), 1);
    assert_eq!(r.references()[0].data()[0], 0x22);
    assert_eq!(r.level_mask().mask(), 0);
    assert_eq!(s.skip(10, 0), Err(ExceptionCode::FatalError));
    assert_eq!(s.reference(1).err(), Some(ExceptionCode::FatalError));
}

#[test]
fn default_is_empty() {
    let b = BuilderData::default();
    assert!(b.is_empty());
    assert_eq!(b.data().len(), 0);
    assert_eq!(b.level_mask().mask(), 0);
}

#[test]
fn append_at_offset_three_gives_exact_bytes() {
    let mut b = raw(&[0xA0], 3);
    b.append_raw(&[0x5A, 0xC0], 10).unwrap();
    assert_eq!(b.length_in_bits(), 13);
    assert_eq!(b.data(), &[0xAB, 0x58]);
    let full = raw(&[0xFF; 128], 1023);
    assert_eq!(full.data().len(), 128);
    assert_eq!(full.data()[127], 0xFE);
}

#[test]
fn with_bitstring_strips_tag() {
    let b = BuilderData::with_bitstring(ByteVec::from_slice(&[0xA8])).unwrap();
    assert_eq!(b.length_in_bits(), 4);
    assert_eq!(b.data(), &[0xA0]);
    assert!(b.references().is_empty());
}

#[test]
fn from_cell_conversions() {
    let cell = raw(&[0xC0], 2).into_cell().unwrap();
    let a = BuilderData::from(&cell);
    let b: BuilderData = cell.clone().into();
    assert_eq!(a.data(), &[0xC0]);
    assert_eq!(b.length_in_bits(), 2);
    assert_eq!(format!("{:?}", a).is_empty(), false);
}

#[test]
fn append_tag_cuts_and_clears_first() {
    let mut t = ByteVec::from_slice(&[0xFF, 0xFF, 0xFF]);
    append_tag(&mut t, 3);
    assert_eq!(t.as_slice(), &[0b1111_0000]);
    let mut u = ByteVec::from_slice(&[0xAB, 0xCD]);
    append_tag(&mut u, 8);
    assert_eq!(u.as_slice(), &[0xAB, 0x80]);
    assert_eq!(find_tag(u.as_slice()), 8);
}
