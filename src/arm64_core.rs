use vstd::bytes::{
    spec_u32_from_le_bytes, spec_u32_to_le_bytes, spec_u64_from_le_bytes, spec_u64_to_le_bytes,
    u32_from_le_bytes, u32_to_le_bytes, u64_from_le_bytes, u64_to_le_bytes,
};
use vstd::prelude::*;
use vstd::slice::slice_subrange;

use crate::error::RegError;

verus! {

/// Number of general-purpose registers (X0 to X30).
pub const NUM_GPRS: usize = 31;

/// Number of register ids: the general-purpose registers, then SP, PC and CPSR.
pub const NUM_REG_IDS: usize = 34;

/// Length in bytes of the canonical layout: 31 * 8 + 8 + 8 + 4.
pub const CORE_REGS_LEN: usize = 268;

/// 64-bit ARM core registers, as the debugger sees them.
#[derive(Debug, Clone, Copy, PartialEq, Eq)]
pub struct Aarch64CoreRegs {
    /// General purpose registers (X0-X30)
    pub regs: [u64; 31],
    /// Stack Pointer
    pub sp: u64,
    /// Program Counter
    pub pc: u64,
    /// Current program status register
    pub cpsr: u32,
}

/// Width in bytes of the register with the given id: every register is
/// 8 bytes wide but the status register, which has 4.
pub open spec fn field_width(id: nat) -> nat {
    if id < 33 {
        8
    } else {
        4
    }
}

/// Offset in bytes of the register with the given id in the canonical layout:
/// the widths of all the registers before it, added up.
pub open spec fn field_offset(id: nat) -> nat
    decreases id,
{
    if id == 0 {
        0
    } else {
        field_offset((id - 1) as nat) + field_width((id - 1) as nat)
    }
}

/// The little-endian encodings of 64-bit and 32-bit values have 8 and 4 bytes.
pub proof fn lemma_bytes_lengths()
    ensures
        forall|x: u64| #[trigger] spec_u64_to_le_bytes(x).len() == 8,
        forall|x: u32| #[trigger] spec_u32_to_le_bytes(x).len() == 4,
{
    vstd::bytes::lemma_auto_spec_u64_to_from_le_bytes();
    vstd::bytes::lemma_auto_spec_u32_to_from_le_bytes();
}

/// Every register starts at eight times its id, and the layout ends at
/// `CORE_REGS_LEN`.
pub proof fn lemma_field_offset(id: nat)
    requires
        id <= NUM_REG_IDS,
    ensures
        id < NUM_REG_IDS ==> field_offset(id) == 8 * id,
        id == NUM_REG_IDS ==> field_offset(id) == CORE_REGS_LEN,
    decreases id,
{
    if id > 0 {
        lemma_field_offset((id - 1) as nat);
    }
}

impl Aarch64CoreRegs {
    /// The little-endian bytes of the register with the given id.
    pub open spec fn field_bytes(&self, id: nat) -> Seq<u8> {
        if id < 31 {
            spec_u64_to_le_bytes(self.regs@[id as int])
        } else if id == 31 {
            spec_u64_to_le_bytes(self.sp)
        } else if id == 32 {
            spec_u64_to_le_bytes(self.pc)
        } else {
            spec_u32_to_le_bytes(self.cpsr)
        }
    }

    /// The bytes of the first `n` registers, one after the other.
    pub open spec fn encoding_prefix(&self, n: nat) -> Seq<u8>
        decreases n,
    {
        if n == 0 {
            Seq::empty()
        } else {
            self.encoding_prefix((n - 1) as nat) + self.field_bytes((n - 1) as nat)
        }
    }

    /// The canonical byte layout of the whole register set.
    pub open spec fn encoding(&self) -> Seq<u8> {
        self.encoding_prefix(NUM_REG_IDS as nat)
    }

    /// Whether `bytes` holds, at the range of each register, the little-endian
    /// bytes of that register's value.
    pub open spec fn decodes_from(&self, bytes: Seq<u8>) -> bool {
        &&& forall|i: int|
            0 <= i < 31 ==> #[trigger] self.regs@[i] == spec_u64_from_le_bytes(
                bytes.subrange(8 * i, 8 * i + 8),
            )
        &&& self.sp == spec_u64_from_le_bytes(bytes.subrange(248, 256))
        &&& self.pc == spec_u64_from_le_bytes(bytes.subrange(256, 264))
        &&& self.cpsr == spec_u32_from_le_bytes(bytes.subrange(264, 268))
    }

    /// Encodes the register set in its canonical layout.
    pub fn gdb_serialize(&self) -> (out: Vec<u8>)
        ensures
            out@ == self.encoding(),
            out@.len() == CORE_REGS_LEN,
    {
        proof {
            lemma_bytes_lengths();
        }
        let mut out: Vec<u8> = Vec::new();
        let mut i: usize = 0;
        while i < NUM_GPRS
            invariant
                0 <= i <= NUM_GPRS,
                out@ == self.encoding_prefix(i as nat),
            decreases NUM_GPRS - i,
        {
            let mut b = u64_to_le_bytes(self.regs[i]);
            out.append(&mut b);
            assert(out@ == self.encoding_prefix((i + 1) as nat));
            i = i + 1;
        }
        let mut b = u64_to_le_bytes(self.sp);
        out.append(&mut b);
        assert(out@ == self.encoding_prefix(32));
        let mut b = u64_to_le_bytes(self.pc);
        out.append(&mut b);
        assert(out@ == self.encoding_prefix(33));
        let mut b = u32_to_le_bytes(self.cpsr);
        out.append(&mut b);
        assert(out@ == self.encoding_prefix(34));
        proof {
            self.lemma_encoding_len(NUM_REG_IDS as nat);
            lemma_field_offset(NUM_REG_IDS as nat);
        }
        out
    }

    /// The length of the bytes of the first `n` registers is the offset of
    /// register `n`.
    pub proof fn lemma_encoding_len(&self, n: nat)
        ensures
            self.encoding_prefix(n).len() == field_offset(n),
        decreases n,
    {
        lemma_bytes_lengths();
        if n > 0 {
            self.lemma_encoding_len((n - 1) as nat);
        }
    }

    /// A register set read from the canonical layout has that layout as its
    /// encoding.
    pub proof fn lemma_decoded_encoding(&self, bytes: Seq<u8>)
        requires
            bytes.len() >= CORE_REGS_LEN,
            self.decodes_from(bytes),
        ensures
            self.encoding() == bytes.subrange(0, CORE_REGS_LEN as int),
    {
        self.lemma_decoded_prefix(bytes, NUM_REG_IDS as nat);
        lemma_field_offset(NUM_REG_IDS as nat);
    }

    proof fn lemma_decoded_prefix(&self, bytes: Seq<u8>, n: nat)
        requires
            bytes.len() >= CORE_REGS_LEN,
            self.decodes_from(bytes),
            n <= NUM_REG_IDS,
        ensures
            self.encoding_prefix(n) == bytes.subrange(0, field_offset(n) as int),
        decreases n,
    {
        if n > 0 {
            let id = (n - 1) as nat;
            self.lemma_decoded_prefix(bytes, id);
            lemma_field_offset(id);
            lemma_field_offset(n);
            vstd::bytes::lemma_auto_spec_u64_to_from_le_bytes();
            vstd::bytes::lemma_auto_spec_u32_to_from_le_bytes();
            let lo = field_offset(id) as int;
            let hi = field_offset(n) as int;
            if id < 31 {
                assert(self.regs@[id as int] == spec_u64_from_le_bytes(
                    bytes.subrange(8 * id as int, 8 * id as int + 8),
                ));
            }
            assert(self.field_bytes(id) == bytes.subrange(lo, hi));
            assert(bytes.subrange(0, hi) =~= bytes.subrange(0, lo) + bytes.subrange(lo, hi));
        }
    }

    /// Overwrites the register set from the canonical layout at the start of
    /// `bytes`; bytes past the layout are ignored. A buffer shorter than the
    /// layout is refused and leaves the register set as it was.
    pub fn gdb_deserialize(&mut self, bytes: &[u8]) -> (r: Result<(), RegError>)
        ensures
            bytes@.len() < CORE_REGS_LEN ==> r == Err::<(), RegError>(RegError::TooShort)
                && *final(self) == *old(self),
            bytes@.len() >= CORE_REGS_LEN ==> r is Ok && final(self).encoding() == bytes@.subrange(
                0,
                CORE_REGS_LEN as int,
            ),
    {
        if bytes.len() < CORE_REGS_LEN {
            return Err(RegError::TooShort);
        }
        let mut i: usize = 0;
        while i < NUM_GPRS
            invariant
                0 <= i <= NUM_GPRS,
                bytes@.len() >= CORE_REGS_LEN,
                forall|j: int|
                    0 <= j < i ==> #[trigger] self.regs@[j] == spec_u64_from_le_bytes(
                        bytes@.subrange(8 * j, 8 * j + 8),
                    ),
            decreases NUM_GPRS - i,
        {
            self.regs[i] = u64_from_le_bytes(slice_subrange(bytes, 8 * i, 8 * i + 8));
            i = i + 1;
        }
        self.sp = u64_from_le_bytes(slice_subrange(bytes, 248, 256));
        self.pc = u64_from_le_bytes(slice_subrange(bytes, 256, 264));
        self.cpsr = u32_from_le_bytes(slice_subrange(bytes, 264, 268));
        proof {
            self.lemma_decoded_encoding(bytes@);
        }
        Ok(())
    }

    /// The byte range `(offset, width)` of the register with the given id in
    /// the canonical layout, or `None` for an id past the last register.
    pub fn locate(id: usize) -> (r: Option<(usize, usize)>)
        ensures
            id < NUM_REG_IDS ==> r == Some(
                (field_offset(id as nat) as usize, field_width(id as nat) as usize),
            ),
            id >= NUM_REG_IDS ==> r is None,
    {
        if id >= NUM_REG_IDS {
            return None;
        }
        proof {
            lemma_field_offset(id as nat);
        }
        let width: usize = if id < 33 {
            8
        } else {
            4
        };
        Some((8 * id, width))
    }

    /// The little-endian bytes of the register with the given id, or `None`
    /// for an id past the last register.
    pub fn read_reg(&self, id: usize) -> (r: Option<Vec<u8>>)
        ensures
            id < NUM_REG_IDS ==> r is Some && r->Some_0@ == self.field_bytes(id as nat),
            id >= NUM_REG_IDS ==> r is None,
    {
        if id < NUM_GPRS {
            Some(u64_to_le_bytes(self.regs[id]))
        } else if id == 31 {
            Some(u64_to_le_bytes(self.sp))
        } else if id == 32 {
            Some(u64_to_le_bytes(self.pc))
        } else if id == 33 {
            Some(u32_to_le_bytes(self.cpsr))
        } else {
            None
        }
    }

    /// Overwrites the register with the given id from its little-endian bytes.
    /// An unknown id, or a value whose length is not the register's width, is
    /// refused and leaves the register set as it was. No other register
    /// changes.
    pub fn write_reg(&mut self, id: usize, bytes: &[u8]) -> (r: Result<(), RegError>)
        ensures
            id >= NUM_REG_IDS ==> r == Err::<(), RegError>(RegError::UnknownRegister),
            id < NUM_REG_IDS && bytes@.len() != field_width(id as nat) ==> r == Err::<(), RegError>(
                RegError::WidthMismatch,
            ),
            r is Err ==> *final(self) == *old(self),
            id < NUM_REG_IDS && bytes@.len() == field_width(id as nat) ==> r is Ok,
            r is Ok ==> final(self).field_bytes(id as nat) == bytes@,
            r is Ok ==> forall|j: nat|
                j < NUM_REG_IDS && j != id ==> #[trigger] final(self).field_bytes(j) == old(
                    self,
                ).field_bytes(j),
    {
        if id >= NUM_REG_IDS {
            return Err(RegError::UnknownRegister);
        }
        let width: usize = if id < 33 {
            8
        } else {
            4
        };
        if bytes.len() != width {
            return Err(RegError::WidthMismatch);
        }
        proof {
            vstd::bytes::lemma_auto_spec_u64_to_from_le_bytes();
            vstd::bytes::lemma_auto_spec_u32_to_from_le_bytes();
        }
        if id < NUM_GPRS {
            self.regs[id] = u64_from_le_bytes(bytes);
        } else if id == 31 {
            self.sp = u64_from_le_bytes(bytes);
        } else if id == 32 {
            self.pc = u64_from_le_bytes(bytes);
        } else {
            self.cpsr = u32_from_le_bytes(bytes);
        }
        Ok(())
    }

    proof fn lemma_prefix_range(&self, id: nat, n: nat)
        requires
            id < n <= NUM_REG_IDS,
        ensures
            self.encoding_prefix(n).subrange(
                field_offset(id) as int,
                field_offset(id + 1) as int,
            ) == self.field_bytes(id),
        decreases n,
    {
        self.lemma_encoding_len((n - 1) as nat);
        self.lemma_encoding_len(n);
        lemma_field_offset(id);
        lemma_field_offset(id + 1);
        lemma_field_offset((n - 1) as nat);
        let pre = self.encoding_prefix((n - 1) as nat);
        let lo = field_offset(id) as int;
        let hi = field_offset(id + 1) as int;
        if id + 1 == n {
            assert(self.encoding_prefix(n).subrange(lo, hi) =~= self.field_bytes(id));
        } else {
            self.lemma_prefix_range(id, (n - 1) as nat);
            assert(self.encoding_prefix(n).subrange(lo, hi) =~= pre.subrange(lo, hi));
        }
    }

    /// The range that `locate` gives for a register id holds, in the canonical
    /// layout, exactly the bytes of that register: the id order and the field
    /// order of the layout are the same.
    pub proof fn lemma_locate_matches_encoding(&self, id: nat)
        requires
            id < NUM_REG_IDS,
        ensures
            self.encoding().subrange(
                field_offset(id) as int,
                (field_offset(id) + field_width(id)) as int,
            ) == self.field_bytes(id),
    {
        self.lemma_prefix_range(id, NUM_REG_IDS as nat);
    }

    /// Two register sets with the same canonical layout are equal, field for
    /// field.
    pub proof fn lemma_encoding_injective(&self, other: Aarch64CoreRegs)
        requires
            self.encoding() == other.encoding(),
        ensures
            *self == other,
    {
        vstd::bytes::lemma_auto_spec_u64_to_from_le_bytes();
        vstd::bytes::lemma_auto_spec_u32_to_from_le_bytes();
        assert forall|id: nat| id < NUM_REG_IDS implies #[trigger] self.field_bytes(id)
            == other.field_bytes(id) by {
            self.lemma_locate_matches_encoding(id);
            other.lemma_locate_matches_encoding(id);
        }
        assert forall|i: int| 0 <= i < 31 implies self.regs@[i] == other.regs@[i] by {
            assert(self.field_bytes(i as nat) == other.field_bytes(i as nat));
        }
        assert(self.field_bytes(31) == other.field_bytes(31));
        assert(self.field_bytes(32) == other.field_bytes(32));
        assert(self.field_bytes(33) == other.field_bytes(33));
        assert(self.regs =~= other.regs);
    }

    /// Decoding the canonical layout of a register set gives that register
    /// set back, whatever the target held before.
    pub proof fn lemma_round_trip(&self, decoded: Aarch64CoreRegs, bytes: Seq<u8>)
        requires
            bytes == self.encoding(),
            decoded.encoding() == bytes.subrange(0, CORE_REGS_LEN as int),
        ensures
            decoded == *self,
    {
        self.lemma_encoding_len(NUM_REG_IDS as nat);
        lemma_field_offset(NUM_REG_IDS as nat);
        assert(bytes.subrange(0, CORE_REGS_LEN as int) =~= bytes);
        decoded.lemma_encoding_injective(*self);
    }

    /// After a register is written with a value of its width, the range that
    /// `locate` gives for it holds, in the canonical layout, the bytes written.
    pub proof fn lemma_write_then_read(&self, id: nat, bytes: Seq<u8>)
        requires
            id < NUM_REG_IDS,
            self.field_bytes(id) == bytes,
        ensures
            self.encoding().subrange(
                field_offset(id) as int,
                (field_offset(id) + field_width(id)) as int,
            ) == bytes,
    {
        self.lemma_locate_matches_encoding(id);
    }

    /// The program counter.
    pub fn pc(&self) -> (r: u64)
        ensures
            r == self.pc,
    {
        self.pc
    }
}

impl Default for Aarch64CoreRegs {
    /// The register set with every register zero.
    fn default() -> (r: Self)
        ensures
            forall|i: int| 0 <= i < 31 ==> r.regs@[i] == 0,
            r.sp == 0,
            r.pc == 0,
            r.cpsr == 0,
    {
        Aarch64CoreRegs { regs: [0u64; 31], sp: 0, pc: 0, cpsr: 0 }
    }
}

} // verus!
