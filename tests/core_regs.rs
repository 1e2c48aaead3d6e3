use gdbstub_arch::{Aarch64CoreRegs, RegError, CORE_REGS_LEN, NUM_GPRS, NUM_REG_IDS};

fn sample() -> Aarch64CoreRegs {
    let mut regs = [0u64; 31];
    for (i, r) in regs.iter_mut().enumerate() {
        *r = 0x1111_1111_1111_1111u64.wrapping_mul(i as u64 + 1) ^ (i as u64);
    }
    Aarch64CoreRegs {
        regs,
        sp: 0xfedc_ba98_7654_3210,
        pc: 0x0102_0304_0506_0708,
        cpsr: 0x8000_03c5,
    }
}

#[test]
fn round_trip_into_zeroed_target() {
    let r = sample();
    let bytes = r.gdb_serialize();
    let mut t = Aarch64CoreRegs::default();
    assert_eq!(t.gdb_deserialize(&bytes), Ok(()));
    assert_eq!(t, r);
}

#[test]
fn round_trip_into_used_target() {
    let r = Aarch64CoreRegs::default();
    let bytes = r.gdb_serialize();
    let mut t = sample();
    assert_eq!(t.gdb_deserialize(&bytes), Ok(()));
    assert_eq!(t, r);
}

#[test]
fn short_buffer_is_refused_and_target_kept() {
    let bytes = vec![0xaau8; 267];
    let mut t = sample();
    assert_eq!(t.gdb_deserialize(&bytes), Err(RegError::TooShort));
    assert_eq!(t, sample());
    let mut e = sample();
    assert_eq!(e.gdb_deserialize(&[]), Err(RegError::TooShort));
    assert_eq!(e, sample());
}

#[test]
fn longer_buffer_ignores_trailing_bytes() {
    let r = sample();
    let mut bytes = r.gdb_serialize();
    bytes.resize(300, 0xee);
    let mut t = Aarch64CoreRegs::default();
    assert_eq!(t.gdb_deserialize(&bytes), Ok(()));
    assert_eq!(t, r);
}

#[test]
fn program_counter_is_little_endian() {
    let mut r = Aarch64CoreRegs::default();
    r.pc = 0x0102030405060708;
    let bytes = r.gdb_serialize();
    assert_eq!(&bytes[256..264], &[8, 7, 6, 5, 4, 3, 2, 1]);
    let mut t = Aarch64CoreRegs::default();
    assert_eq!(t.gdb_deserialize(&bytes), Ok(()));
    assert_eq!(t.pc, 0x0102030405060708);
    assert_eq!(t.pc(), 0x0102030405060708);
}

#[test]
fn decode_reads_fields_at_their_offsets() {
    let bytes: Vec<u8> = (0..CORE_REGS_LEN).map(|i| i as u8).collect();
    let mut t = Aarch64CoreRegs::default();
    assert_eq!(t.gdb_deserialize(&bytes), Ok(()));
    assert_eq!(t.regs[0], 0x0706050403020100);
    assert_eq!(t.regs[30], u64::from_le_bytes([240, 241, 242, 243, 244, 245, 246, 247]));
    assert_eq!(t.sp, u64::from_le_bytes([248, 249, 250, 251, 252, 253, 254, 255]));
    assert_eq!(t.pc, 0x0706050403020100);
    assert_eq!(t.cpsr, 0x0b0a0908);
}

#[test]
fn locate_matches_encoded_layout() {
    let r = sample();
    let bytes = r.gdb_serialize();
    for id in 0..NUM_REG_IDS {
        let (off, width) = Aarch64CoreRegs::locate(id).unwrap();
        let expected: Vec<u8> = if id < NUM_GPRS {
            r.regs[id].to_le_bytes().to_vec()
        } else if id == 31 {
            r.sp.to_le_bytes().to_vec()
        } else if id == 32 {
            r.pc.to_le_bytes().to_vec()
        } else {
            r.cpsr.to_le_bytes().to_vec()
        };
        assert_eq!(width, expected.len());
        assert_eq!(&bytes[off..off + width], &expected[..]);
        assert_eq!(r.read_reg(id).unwrap(), expected);
    }
}

#[test]
fn locate_known_ranges_and_unknown_id() {
    assert_eq!(Aarch64CoreRegs::locate(0), Some((0, 8)));
    assert_eq!(Aarch64CoreRegs::locate(30), Some((240, 8)));
    assert_eq!(Aarch64CoreRegs::locate(31), Some((248, 8)));
    assert_eq!(Aarch64CoreRegs::locate(32), Some((256, 8)));
    assert_eq!(Aarch64CoreRegs::locate(33), Some((264, 4)));
    assert_eq!(Aarch64CoreRegs::locate(34), None);
    assert_eq!(Aarch64CoreRegs::locate(usize::MAX), None);
    assert_eq!(sample().read_reg(34), None);
}

#[test]
fn write_reg_checks_width() {
    let mut r = sample();
    assert_eq!(r.write_reg(5, &[1, 2, 3, 4]), Err(RegError::WidthMismatch));
    assert_eq!(r, sample());
    assert_eq!(r.write_reg(33, &[1, 2, 3, 4, 5, 6, 7, 8]), Err(RegError::WidthMismatch));
    assert_eq!(r, sample());
    let value = [0x10, 0x20, 0x30, 0x40, 0x50, 0x60, 0x70, 0x80];
    assert_eq!(r.write_reg(5, &value), Ok(()));
    assert_eq!(r.regs[5], 0x8070605040302010);
    let bytes = r.gdb_serialize();
    let (off, width) = Aarch64CoreRegs::locate(5).unwrap();
    assert_eq!(&bytes[off..off + width], &value);
    assert_eq!(r.read_reg(5).unwrap(), value.to_vec());
    let mut expected = sample();
    expected.regs[5] = 0x8070605040302010;
    assert_eq!(r, expected);
}

#[test]
fn write_reg_status_and_special_registers() {
    let mut r = Aarch64CoreRegs::default();
    assert_eq!(r.write_reg(33, &[0xc5, 0x03, 0x00, 0x80]), Ok(()));
    assert_eq!(r.cpsr, 0x8000_03c5);
    assert_eq!(r.write_reg(31, &[1, 0, 0, 0, 0, 0, 0, 0]), Ok(()));
    assert_eq!(r.sp, 1);
    assert_eq!(r.write_reg(32, &[0, 0, 0, 0, 0, 0, 0, 0xff]), Ok(()));
    assert_eq!(r.pc, 0xff00_0000_0000_0000);
    assert_eq!(r.write_reg(34, &[0; 8]), Err(RegError::UnknownRegister));
    assert_eq!(r.regs, [0u64; 31]);
}

#[test]
fn zero_registers_encode_to_zero_bytes() {
    let r = Aarch64CoreRegs { regs: [0; 31], sp: 0, pc: 0, cpsr: 0 };
    assert_eq!(r.gdb_serialize(), vec![0u8; 268]);
    assert_eq!(Aarch64CoreRegs::default(), r);
}

#[test]
fn serialize_has_canonical_length() {
    assert_eq!(sample().gdb_serialize().len(), CORE_REGS_LEN);
    assert_eq!(CORE_REGS_LEN, 268);
}
