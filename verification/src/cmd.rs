//! Instruction opcodes of the ST7789V display controller.

use vstd::prelude::*;

verus! {

/// The instructions of the ST7789V controller that this driver knows.
///
/// Each instruction is sent as one byte on the bus while the data/command
/// line is low; `Commands::opcode` gives that byte.
#[derive(Copy, Clone, Debug, PartialEq, Eq, Structural)]
pub enum Commands {
    /// No Operation; opcode `0x00`.
    Nop,
    /// Software Reset; opcode `0x01`.
    SwReset,
    /// Read Display Identification Information; opcode `0x04`.
    RddId,
    /// Read Display Status; opcode `0x09`.
    RddSt,
    /// Enter Sleep Mode (SLPIN); opcode `0x10`.
    SlpIn,
    /// Exit Sleep Mode (SLPOUT); opcode `0x11`.
    SlpOut,
    /// Enter Partial Mode (PTLON); opcode `0x12`.
    PtlOn,
    /// Enter Normal Mode (NORON); opcode `0x13`.
    NorOn,
    /// Display Inversion Off (INVOFF); opcode `0x20`.
    InvOff,
    /// Display Inversion On (INVON); opcode `0x21`.
    InvOn,
    /// Gamma Set (GAMSET); opcode `0x26`.
    GamSet,
    /// Display Off (DISPOFF); opcode `0x28`.
    DispOff,
    /// Display On (DISPON); opcode `0x29`.
    DispOn,
    /// Column Address Set (CASET); opcode `0x2A`.
    CaSet,
    /// Row Address Set (RASET); opcode `0x2B`.
    RaSet,
    /// Memory Write (RAMWR); opcode `0x2C`.
    RamWr,
    /// Memory Read (RAMRD); opcode `0x2E`.
    RamRd,
    /// Partial Area (PTLAR); opcode `0x30`.
    PtlAr,
    /// Vertical Scrolling Definition (VSCRDEF); opcode `0x33`.
    VScrDef,
    /// Tearing Effect Line OFF (TEOFF); opcode `0x34`.
    TEOFF,
    /// Tearing Effect Line ON (TEON); opcode `0x35`.
    TEON,
    /// Memory Access Control (MADCTL); opcode `0x36`.
    MadCtl,
    /// Pixel Format Set (COLMOD); opcode `0x3A`.
    ColMod,
    /// Write Memory Continue (WRMEMC); opcode `0x3C`.
    WrMemC,
    /// Read Memory Continue (RDMEMC); opcode `0x3E`.
    RdMemC,
    /// Set Tear Scanline (STE); opcode `0x44`.
    Ste,
    /// Get Scanline (GSCAN); opcode `0x45`.
    GScan,
    /// Write Display Brightness (WRDISBV); opcode `0x51`.
    WrDisBV,
    /// Read Display Brightness (RDDISBV); opcode `0x52`.
    RdDisBV,
    /// Write CTRL Display (WRCTRLD); opcode `0x53`.
    WrCtrLD,
    /// Read CTRL Display (RDCTRLD); opcode `0x54`.
    RdCtrLD,
    /// Write CABC (WRCACE); opcode `0x55`.
    WrCACE,
    /// Read CABC (RDCABC); opcode `0x56`.
    RdCABC,
    /// Write CABC Minimum Brightness (WRCABCMB); opcode `0x5E`.
    WrCABCMB,
    /// Read CABC Minimum Brightness (RDCABCMB); opcode `0x5F`.
    RdCABCMB,
    /// Read Automatic Brightness Control Self-Diagnostic Result (RDABCSDR); opcode `0x68`.
    RdABCSDR,
    /// Read ID1 (RDID1); opcode `0xDA`.
    RdId1,
    /// Read ID2 (RDID2); opcode `0xDB`.
    RdId2,
    /// Read ID3 (RDID3); opcode `0xDC`.
    RdId3,
}

impl Commands {
    /// The byte that selects this instruction on the bus.
    pub open spec fn code(self) -> u8 {
        match self {
            Commands::Nop => 0x00u8,
            Commands::SwReset => 0x01u8,
            Commands::RddId => 0x04u8,
            Commands::RddSt => 0x09u8,
            Commands::SlpIn => 0x10u8,
            Commands::SlpOut => 0x11u8,
            Commands::PtlOn => 0x12u8,
            Commands::NorOn => 0x13u8,
            Commands::InvOff => 0x20u8,
            Commands::InvOn => 0x21u8,
            Commands::GamSet => 0x26u8,
            Commands::DispOff => 0x28u8,
            Commands::DispOn => 0x29u8,
            Commands::CaSet => 0x2Au8,
            Commands::RaSet => 0x2Bu8,
            Commands::RamWr => 0x2Cu8,
            Commands::RamRd => 0x2Eu8,
            Commands::PtlAr => 0x30u8,
            Commands::VScrDef => 0x33u8,
            Commands::TEOFF => 0x34u8,
            Commands::TEON => 0x35u8,
            Commands::MadCtl => 0x36u8,
            Commands::ColMod => 0x3Au8,
            Commands::WrMemC => 0x3Cu8,
            Commands::RdMemC => 0x3Eu8,
            Commands::Ste => 0x44u8,
            Commands::GScan => 0x45u8,
            Commands::WrDisBV => 0x51u8,
            Commands::RdDisBV => 0x52u8,
            Commands::WrCtrLD => 0x53u8,
            Commands::RdCtrLD => 0x54u8,
            Commands::WrCACE => 0x55u8,
            Commands::RdCABC => 0x56u8,
            Commands::WrCABCMB => 0x5Eu8,
            Commands::RdCABCMB => 0x5Fu8,
            Commands::RdABCSDR => 0x68u8,
            Commands::RdId1 => 0xDAu8,
            Commands::RdId2 => 0xDBu8,
            Commands::RdId3 => 0xDCu8,
        }
    }

    /// Returns the opcode byte of the instruction.
    pub fn opcode(&self) -> (byte: u8)
        ensures
            byte == self.code(),
    {
        match self {
            Commands::Nop => 0x00u8,
            Commands::SwReset => 0x01u8,
            Commands::RddId => 0x04u8,
            Commands::RddSt => 0x09u8,
            Commands::SlpIn => 0x10u8,
            Commands::SlpOut => 0x11u8,
            Commands::PtlOn => 0x12u8,
            Commands::NorOn => 0x13u8,
            Commands::InvOff => 0x20u8,
            Commands::InvOn => 0x21u8,
            Commands::GamSet => 0x26u8,
            Commands::DispOff => 0x28u8,
            Commands::DispOn => 0x29u8,
            Commands::CaSet => 0x2Au8,
            Commands::RaSet => 0x2Bu8,
            Commands::RamWr => 0x2Cu8,
            Commands::RamRd => 0x2Eu8,
            Commands::PtlAr => 0x30u8,
            Commands::VScrDef => 0x33u8,
            Commands::TEOFF => 0x34u8,
            Commands::TEON => 0x35u8,
            Commands::MadCtl => 0x36u8,
            Commands::ColMod => 0x3Au8,
            Commands::WrMemC => 0x3Cu8,
            Commands::RdMemC => 0x3Eu8,
            Commands::Ste => 0x44u8,
            Commands::GScan => 0x45u8,
            Commands::WrDisBV => 0x51u8,
            Commands::RdDisBV => 0x52u8,
            Commands::WrCtrLD => 0x53u8,
            Commands::RdCtrLD => 0x54u8,
            Commands::WrCACE => 0x55u8,
            Commands::RdCABC => 0x56u8,
            Commands::WrCABCMB => 0x5Eu8,
            Commands::RdCABCMB => 0x5Fu8,
            Commands::RdABCSDR => 0x68u8,
            Commands::RdId1 => 0xDAu8,
            Commands::RdId2 => 0xDBu8,
            Commands::RdId3 => 0xDCu8,
        }
    }
}

/// The instruction that a byte selects, if any.
pub open spec fn command_with_code(byte: u8) -> Option<Commands> {
    if byte == 0x00u8 { Some(Commands::Nop) }
    else if byte == 0x01u8 { Some(Commands::SwReset) }
    else if byte == 0x04u8 { Some(Commands::RddId) }
    else if byte == 0x09u8 { Some(Commands::RddSt) }
    else if byte == 0x10u8 { Some(Commands::SlpIn) }
    else if byte == 0x11u8 { Some(Commands::SlpOut) }
    else if byte == 0x12u8 { Some(Commands::PtlOn) }
    else if byte == 0x13u8 { Some(Commands::NorOn) }
    else if byte == 0x20u8 { Some(Commands::InvOff) }
    else if byte == 0x21u8 { Some(Commands::InvOn) }
    else if byte == 0x26u8 { Some(Commands::GamSet) }
    else if byte == 0x28u8 { Some(Commands::DispOff) }
    else if byte == 0x29u8 { Some(Commands::DispOn) }
    else if byte == 0x2Au8 { Some(Commands::CaSet) }
    else if byte == 0x2Bu8 { Some(Commands::RaSet) }
    else if byte == 0x2Cu8 { Some(Commands::RamWr) }
    else if byte == 0x2Eu8 { Some(Commands::RamRd) }
    else if byte == 0x30u8 { Some(Commands::PtlAr) }
    else if byte == 0x33u8 { Some(Commands::VScrDef) }
    else if byte == 0x34u8 { Some(Commands::TEOFF) }
    else if byte == 0x35u8 { Some(Commands::TEON) }
    else if byte == 0x36u8 { Some(Commands::MadCtl) }
    else if byte == 0x3Au8 { Some(Commands::ColMod) }
    else if byte == 0x3Cu8 { Some(Commands::WrMemC) }
    else if byte == 0x3Eu8 { Some(Commands::RdMemC) }
    else if byte == 0x44u8 { Some(Commands::Ste) }
    else if byte == 0x45u8 { Some(Commands::GScan) }
    else if byte == 0x51u8 { Some(Commands::WrDisBV) }
    else if byte == 0x52u8 { Some(Commands::RdDisBV) }
    else if byte == 0x53u8 { Some(Commands::WrCtrLD) }
    else if byte == 0x54u8 { Some(Commands::RdCtrLD) }
    else if byte == 0x55u8 { Some(Commands::WrCACE) }
    else if byte == 0x56u8 { Some(Commands::RdCABC) }
    else if byte == 0x5Eu8 { Some(Commands::WrCABCMB) }
    else if byte == 0x5Fu8 { Some(Commands::RdCABCMB) }
    else if byte == 0x68u8 { Some(Commands::RdABCSDR) }
    else if byte == 0xDAu8 { Some(Commands::RdId1) }
    else if byte == 0xDBu8 { Some(Commands::RdId2) }
    else if byte == 0xDCu8 { Some(Commands::RdId3) }
    else { None }
}

/// Decoding the opcode of an instruction gives the instruction back.
pub proof fn lemma_code_decodes(c: Commands)
    ensures
        command_with_code(c.code()) == Some(c),
{
}

/// No two instructions share an opcode.
pub proof fn lemma_codes_distinct(a: Commands, b: Commands)
    requires
        a.code() == b.code(),
    ensures
        a == b,
{
    lemma_code_decodes(a);
    lemma_code_decodes(b);
}

} // verus!
