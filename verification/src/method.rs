//! The closed table of methods with their ids.

use vstd::prelude::*;

verus! {

/// Whether two byte slices hold the same bytes.
pub fn bytes_eq(a: &[u8], b: &[u8]) -> (same: bool)
    ensures
        same == (a@ == b@),
{
    if a.len() != b.len() {
        return false;
    }
    let mut i: usize = 0;
    while i < a.len()
        invariant
            a.len() == b.len(),
            i <= a.len(),
            forall|j: int| 0 <= j < i ==> a@[j] == b@[j],
        decreases a.len() - i,
    {
        if a[i] != b[i] {
            return false;
        }
        i += 1;
    }
    assert(a@ =~= b@);
    true
}

/// The machine architecture whose branch instructions a BCJ filter rewrites.
#[derive(Clone, Copy, Debug, PartialEq, Eq, Structural)]
pub enum BcjArch {
    X86,
    Ppc,
    Ia64,
    Arm,
    Arm64,
    ArmThumb,
    Sparc,
    Riscv,
}

/// The closed table of methods a coder may name.
#[derive(Clone, Copy, Debug, PartialEq, Eq, Structural)]
pub enum EncoderMethod {
    Copy,
    Delta,
    Lzma,
    Lzma2,
    Ppmd,
    Bcj(BcjArch),
    Deflate,
    Bzip2,
    Zstd,
    Brotli,
    Lz4,
    Aes256Sha256,
}

impl BcjArch {
    /// The id bytes under which the filter for this architecture is stored.
    pub open spec fn spec_id(self) -> Seq<u8> {
        match self {
            BcjArch::X86 => seq![0x03u8, 0x03u8, 0x01u8, 0x03u8],
            BcjArch::Ppc => seq![0x03u8, 0x03u8, 0x02u8, 0x05u8],
            BcjArch::Ia64 => seq![0x03u8, 0x03u8, 0x04u8, 0x01u8],
            BcjArch::Arm => seq![0x03u8, 0x03u8, 0x05u8, 0x01u8],
            BcjArch::Arm64 => seq![0x0Au8],
            BcjArch::ArmThumb => seq![0x03u8, 0x03u8, 0x07u8, 0x01u8],
            BcjArch::Sparc => seq![0x03u8, 0x03u8, 0x08u8, 0x05u8],
            BcjArch::Riscv => seq![0x0Bu8],
        }
    }
}

impl EncoderMethod {
    /// The id bytes of this method, in the order in which an archive stores them.
    pub open spec fn spec_id(self) -> Seq<u8> {
        match self {
            EncoderMethod::Copy => seq![0x00u8],
            EncoderMethod::Delta => seq![0x03u8],
            EncoderMethod::Lzma => seq![0x03u8, 0x01u8, 0x01u8],
            EncoderMethod::Lzma2 => seq![0x21u8],
            EncoderMethod::Ppmd => seq![0x03u8, 0x04u8, 0x01u8],
            EncoderMethod::Bcj(arch) => arch.spec_id(),
            EncoderMethod::Deflate => seq![0x04u8, 0x01u8, 0x08u8],
            EncoderMethod::Bzip2 => seq![0x04u8, 0x02u8, 0x02u8],
            EncoderMethod::Zstd => seq![0x04u8, 0xF7u8, 0x11u8, 0x01u8],
            EncoderMethod::Brotli => seq![0x04u8, 0xF7u8, 0x11u8, 0x02u8],
            EncoderMethod::Lz4 => seq![0x04u8, 0xF7u8, 0x11u8, 0x04u8],
            EncoderMethod::Aes256Sha256 => seq![0x06u8, 0xF1u8, 0x07u8, 0x01u8],
        }
    }

    /// The method stored under `id`, if the table has one.
    pub open spec fn spec_by_id(id: Seq<u8>) -> Option<EncoderMethod> {
        if exists|m: EncoderMethod| m.spec_id() == id {
            Some(choose|m: EncoderMethod| m.spec_id() == id)
        } else {
            None
        }
    }

    /// The id bytes of this method.
    pub fn id(self) -> (id: Vec<u8>)
        ensures
            id@ == self.spec_id(),
            1 <= id.len() <= 4,
    {
        let id = match self {
            EncoderMethod::Copy => vec![0x00u8],
            EncoderMethod::Delta => vec![0x03u8],
            EncoderMethod::Lzma => vec![0x03u8, 0x01u8, 0x01u8],
            EncoderMethod::Lzma2 => vec![0x21u8],
            EncoderMethod::Ppmd => vec![0x03u8, 0x04u8, 0x01u8],
            EncoderMethod::Bcj(BcjArch::X86) => vec![0x03u8, 0x03u8, 0x01u8, 0x03u8],
            EncoderMethod::Bcj(BcjArch::Ppc) => vec![0x03u8, 0x03u8, 0x02u8, 0x05u8],
            EncoderMethod::Bcj(BcjArch::Ia64) => vec![0x03u8, 0x03u8, 0x04u8, 0x01u8],
            EncoderMethod::Bcj(BcjArch::Arm) => vec![0x03u8, 0x03u8, 0x05u8, 0x01u8],
            EncoderMethod::Bcj(BcjArch::Arm64) => vec![0x0Au8],
            EncoderMethod::Bcj(BcjArch::ArmThumb) => vec![0x03u8, 0x03u8, 0x07u8, 0x01u8],
            EncoderMethod::Bcj(BcjArch::Sparc) => vec![0x03u8, 0x03u8, 0x08u8, 0x05u8],
            EncoderMethod::Bcj(BcjArch::Riscv) => vec![0x0Bu8],
            EncoderMethod::Deflate => vec![0x04u8, 0x01u8, 0x08u8],
            EncoderMethod::Bzip2 => vec![0x04u8, 0x02u8, 0x02u8],
            EncoderMethod::Zstd => vec![0x04u8, 0xF7u8, 0x11u8, 0x01u8],
            EncoderMethod::Brotli => vec![0x04u8, 0xF7u8, 0x11u8, 0x02u8],
            EncoderMethod::Lz4 => vec![0x04u8, 0xF7u8, 0x11u8, 0x04u8],
            EncoderMethod::Aes256Sha256 => vec![0x06u8, 0xF1u8, 0x07u8, 0x01u8],
        };
        assert(id@ =~= self.spec_id());
        id
    }

    /// The name under which this method is known.
    pub fn name(self) -> (name: &'static str)
        ensures
            name == self.spec_name(),
    {
        match self {
            EncoderMethod::Copy => "COPY",
            EncoderMethod::Delta => "DELTA",
            EncoderMethod::Lzma => "LZMA",
            EncoderMethod::Lzma2 => "LZMA2",
            EncoderMethod::Ppmd => "PPMD",
            EncoderMethod::Bcj(BcjArch::X86) => "BCJ_X86",
            EncoderMethod::Bcj(BcjArch::Ppc) => "BCJ_PPC",
            EncoderMethod::Bcj(BcjArch::Ia64) => "BCJ_IA64",
            EncoderMethod::Bcj(BcjArch::Arm) => "BCJ_ARM",
            EncoderMethod::Bcj(BcjArch::Arm64) => "BCJ_ARM64",
            EncoderMethod::Bcj(BcjArch::ArmThumb) => "BCJ_ARM_THUMB",
            EncoderMethod::Bcj(BcjArch::Sparc) => "BCJ_SPARC",
            EncoderMethod::Bcj(BcjArch::Riscv) => "BCJ_RISCV",
            EncoderMethod::Deflate => "DEFLATE",
            EncoderMethod::Bzip2 => "BZIP2",
            EncoderMethod::Zstd => "ZSTD",
            EncoderMethod::Brotli => "BROTLI",
            EncoderMethod::Lz4 => "LZ4",
            EncoderMethod::Aes256Sha256 => "AES256_SHA256",
        }
    }

    /// What [`EncoderMethod::name`] returns.
    pub open spec fn spec_name(self) -> &'static str {
        match self {
            EncoderMethod::Copy => "COPY",
            EncoderMethod::Delta => "DELTA",
            EncoderMethod::Lzma => "LZMA",
            EncoderMethod::Lzma2 => "LZMA2",
            EncoderMethod::Ppmd => "PPMD",
            EncoderMethod::Bcj(BcjArch::X86) => "BCJ_X86",
            EncoderMethod::Bcj(BcjArch::Ppc) => "BCJ_PPC",
            EncoderMethod::Bcj(BcjArch::Ia64) => "BCJ_IA64",
            EncoderMethod::Bcj(BcjArch::Arm) => "BCJ_ARM",
            EncoderMethod::Bcj(BcjArch::Arm64) => "BCJ_ARM64",
            EncoderMethod::Bcj(BcjArch::ArmThumb) => "BCJ_ARM_THUMB",
            EncoderMethod::Bcj(BcjArch::Sparc) => "BCJ_SPARC",
            EncoderMethod::Bcj(BcjArch::Riscv) => "BCJ_RISCV",
            EncoderMethod::Deflate => "DEFLATE",
            EncoderMethod::Bzip2 => "BZIP2",
            EncoderMethod::Zstd => "ZSTD",
            EncoderMethod::Brotli => "BROTLI",
            EncoderMethod::Lz4 => "LZ4",
            EncoderMethod::Aes256Sha256 => "AES256_SHA256",
        }
    }

    /// Looks `id` up in the method table.
    pub fn by_id(id: &[u8]) -> (found: Option<EncoderMethod>)
        ensures
            found == Self::spec_by_id(id@),
            found matches Some(m) ==> m.spec_id() == id@,
            found is None ==> forall|m: EncoderMethod| m.spec_id() != id@,
    {
        let found = if id.len() == 1 {
            let b: u8 = id[0];
            if b == 0x00 {
                Some(EncoderMethod::Copy)
            } else if b == 0x03 {
                Some(EncoderMethod::Delta)
            } else if b == 0x21 {
                Some(EncoderMethod::Lzma2)
            } else if b == 0x0A {
                Some(EncoderMethod::Bcj(BcjArch::Arm64))
            } else if b == 0x0B {
                Some(EncoderMethod::Bcj(BcjArch::Riscv))
            } else {
                None
            }
        } else if id.len() == 3 {
            let (a, b, c): (u8, u8, u8) = (id[0], id[1], id[2]);
            if a == 0x03 && b == 0x01 && c == 0x01 {
                Some(EncoderMethod::Lzma)
            } else if a == 0x03 && b == 0x04 && c == 0x01 {
                Some(EncoderMethod::Ppmd)
            } else if a == 0x04 && b == 0x01 && c == 0x08 {
                Some(EncoderMethod::Deflate)
            } else if a == 0x04 && b == 0x02 && c == 0x02 {
                Some(EncoderMethod::Bzip2)
            } else {
                None
            }
        } else if id.len() == 4 {
            let (a, b, c, d): (u8, u8, u8, u8) = (id[0], id[1], id[2], id[3]);
            if a == 0x03 && b == 0x03 {
                if c == 0x01 && d == 0x03 {
                    Some(EncoderMethod::Bcj(BcjArch::X86))
                } else if c == 0x02 && d == 0x05 {
                    Some(EncoderMethod::Bcj(BcjArch::Ppc))
                } else if c == 0x04 && d == 0x01 {
                    Some(EncoderMethod::Bcj(BcjArch::Ia64))
                } else if c == 0x05 && d == 0x01 {
                    Some(EncoderMethod::Bcj(BcjArch::Arm))
                } else if c == 0x07 && d == 0x01 {
                    Some(EncoderMethod::Bcj(BcjArch::ArmThumb))
                } else if c == 0x08 && d == 0x05 {
                    Some(EncoderMethod::Bcj(BcjArch::Sparc))
                } else {
                    None
                }
            } else if a == 0x04 && b == 0xF7 && c == 0x11 {
                if d == 0x01 {
                    Some(EncoderMethod::Zstd)
                } else if d == 0x02 {
                    Some(EncoderMethod::Brotli)
                } else if d == 0x04 {
                    Some(EncoderMethod::Lz4)
                } else {
                    None
                }
            } else if a == 0x06 && b == 0xF1 && c == 0x07 && d == 0x01 {
                Some(EncoderMethod::Aes256Sha256)
            } else {
                None
            }
        } else {
            None
        };
        proof {
            match found {
                Some(m) => {
                    assert(m.spec_id() =~= id@);
                    lemma_ids_are_unique(m, choose|o: EncoderMethod| o.spec_id() == id@);
                },
                None => {
                    assert forall|m: EncoderMethod| m.spec_id() != id@ by {
                        if m.spec_id() == id@ {
                            lemma_id_bytes(m);
                        }
                    }
                },
            }
        }
        found
    }
}

/// The bytes of a method's id, position by position.
pub proof fn lemma_id_bytes(m: EncoderMethod)
    ensures
        1 <= m.spec_id().len() <= 4,
        m == EncoderMethod::Copy ==> m.spec_id().len() == 1 && m.spec_id()[0] == 0x00,
        m == EncoderMethod::Delta ==> m.spec_id().len() == 1 && m.spec_id()[0] == 0x03,
        m == EncoderMethod::Lzma2 ==> m.spec_id().len() == 1 && m.spec_id()[0] == 0x21,
        m == EncoderMethod::Bcj(BcjArch::Arm64) ==> m.spec_id().len() == 1 && m.spec_id()[0]
            == 0x0A,
        m == EncoderMethod::Bcj(BcjArch::Riscv) ==> m.spec_id().len() == 1 && m.spec_id()[0]
            == 0x0B,
        m == EncoderMethod::Lzma ==> m.spec_id().len() == 3 && m.spec_id()[0] == 0x03
            && m.spec_id()[1] == 0x01 && m.spec_id()[2] == 0x01,
        m == EncoderMethod::Ppmd ==> m.spec_id().len() == 3 && m.spec_id()[0] == 0x03
            && m.spec_id()[1] == 0x04 && m.spec_id()[2] == 0x01,
        m == EncoderMethod::Deflate ==> m.spec_id().len() == 3 && m.spec_id()[0] == 0x04
            && m.spec_id()[1] == 0x01 && m.spec_id()[2] == 0x08,
        m == EncoderMethod::Bzip2 ==> m.spec_id().len() == 3 && m.spec_id()[0] == 0x04
            && m.spec_id()[1] == 0x02 && m.spec_id()[2] == 0x02,
        m == EncoderMethod::Bcj(BcjArch::X86) ==> m.spec_id().len() == 4 && m.spec_id()[0] == 0x03
            && m.spec_id()[1] == 0x03 && m.spec_id()[2] == 0x01 && m.spec_id()[3] == 0x03,
        m == EncoderMethod::Bcj(BcjArch::Ppc) ==> m.spec_id().len() == 4 && m.spec_id()[0] == 0x03
            && m.spec_id()[1] == 0x03 && m.spec_id()[2] == 0x02 && m.spec_id()[3] == 0x05,
        m == EncoderMethod::Bcj(BcjArch::Ia64) ==> m.spec_id().len() == 4 && m.spec_id()[0]
            == 0x03 && m.spec_id()[1] == 0x03 && m.spec_id()[2] == 0x04 && m.spec_id()[3] == 0x01,
        m == EncoderMethod::Bcj(BcjArch::Arm) ==> m.spec_id().len() == 4 && m.spec_id()[0] == 0x03
            && m.spec_id()[1] == 0x03 && m.spec_id()[2] == 0x05 && m.spec_id()[3] == 0x01,
        m == EncoderMethod::Bcj(BcjArch::ArmThumb) ==> m.spec_id().len() == 4 && m.spec_id()[0]
            == 0x03 && m.spec_id()[1] == 0x03 && m.spec_id()[2] == 0x07 && m.spec_id()[3] == 0x01,
        m == EncoderMethod::Bcj(BcjArch::Sparc) ==> m.spec_id().len() == 4 && m.spec_id()[0]
            == 0x03 && m.spec_id()[1] == 0x03 && m.spec_id()[2] == 0x08 && m.spec_id()[3] == 0x05,
        m == EncoderMethod::Zstd ==> m.spec_id().len() == 4 && m.spec_id()[0] == 0x04
            && m.spec_id()[1] == 0xF7 && m.spec_id()[2] == 0x11 && m.spec_id()[3] == 0x01,
        m == EncoderMethod::Brotli ==> m.spec_id().len() == 4 && m.spec_id()[0] == 0x04
            && m.spec_id()[1] == 0xF7 && m.spec_id()[2] == 0x11 && m.spec_id()[3] == 0x02,
        m == EncoderMethod::Lz4 ==> m.spec_id().len() == 4 && m.spec_id()[0] == 0x04
            && m.spec_id()[1] == 0xF7 && m.spec_id()[2] == 0x11 && m.spec_id()[3] == 0x04,
        m == EncoderMethod::Aes256Sha256 ==> m.spec_id().len() == 4 && m.spec_id()[0] == 0x06
            && m.spec_id()[1] == 0xF1 && m.spec_id()[2] == 0x07 && m.spec_id()[3] == 0x01,
{
}

/// No two methods of the table share an id.
pub proof fn lemma_ids_are_unique(a: EncoderMethod, b: EncoderMethod)
    requires
        a.spec_id() == b.spec_id(),
    ensures
        a == b,
{
    lemma_id_bytes(a);
    lemma_id_bytes(b);
}

/// Looking up the id of a method finds that method.
pub proof fn lemma_by_id_of_id(m: EncoderMethod)
    ensures
        EncoderMethod::spec_by_id(m.spec_id()) == Some(m),
{
    let found = choose|o: EncoderMethod| o.spec_id() == m.spec_id();
    lemma_ids_are_unique(found, m);
}

} // verus!
