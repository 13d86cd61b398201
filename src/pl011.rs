use vstd::prelude::*;

verus! {

/// A byte read from the PL011 receive register, with the error bits that came
/// with it.
#[derive(Clone, Copy, PartialEq, Eq, Structural, Debug)]
pub struct Error {
    err: u8,
    data: u8,
}

/// The parity a line uses.
#[derive(Clone, Copy, PartialEq, Eq, Structural, Debug)]
pub enum Parity {
    Disabled,
    Odd,
    Even,
}

/// How to set up a line.
#[derive(Clone, Copy, PartialEq, Eq, Structural, Debug)]
pub struct Config {
    pub baud_rate: u32,
    pub clock_rate: u32,
    pub parity: Parity,
}

/// The register values that set up a line: integer and fractional baud-rate
/// divisors, and line control.
#[derive(Clone, Copy, PartialEq, Eq, Structural, Debug)]
pub struct LineSettings {
    pub ibrd: u16,
    pub fbrd: u8,
    pub lcrh: u8,
}

impl Error {
    pub closed spec fn bits(&self) -> u8 {
        self.err
    }

    pub closed spec fn byte(&self) -> u8 {
        self.data
    }

    /// A stop bit was not read.
    pub fn framing_err(&self) -> (r: bool)
        ensures
            r == (self.bits() & 1 > 0),
    {
        self.err & 1 > 0
    }

    /// A parity check failed.
    pub fn parity_err(&self) -> (r: bool)
        ensures
            r == (self.bits() & 2 > 0),
    {
        self.err & 2 > 0
    }

    /// The other end has shut down.
    pub fn break_err(&self) -> (r: bool)
        ensures
            r == (self.bits() & 4 > 0),
    {
        self.err & 4 > 0
    }

    /// Data arrived while the FIFO was full.
    pub fn overrun_err(&self) -> (r: bool)
        ensures
            r == (self.bits() & 8 > 0),
    {
        self.err & 8 > 0
    }

    /// The byte read.
    pub fn data(&self) -> (r: u8)
        ensures
            r == self.byte(),
    {
        self.data
    }
}

/// What a read of `data` with receive-status bits `err` yields: the byte, or
/// an error when any of the four low error bits is set.
pub fn read_result(data: u8, err: u8) -> (r: Result<u8, Error>)
    ensures
        err & 0xF == 0 ==> r == Ok::<u8, Error>(data),
        err & 0xF != 0 ==> r.is_err() && r.unwrap_err().bits() == err && r.unwrap_err().byte() == data,
{
    if err & 0xF > 0 {
        Err(Error { err, data })
    } else {
        Ok(data)
    }
}

/// The register values for `config`: 8 data bits, FIFOs on, and the parity
/// asked for.
pub fn line_settings(config: &Config) -> (r: LineSettings)
    requires
        config.baud_rate > 0,
        16 * config.baud_rate <= u32::MAX,
    ensures
        r.ibrd == (config.clock_rate as int / (16 * config.baud_rate as int)) as u16,
        r.fbrd == ((config.clock_rate as int * 64 / config.baud_rate as int) % 64) as u8,
        r.lcrh == 0x70u8 | match config.parity {
            Parity::Disabled => 0u8,
            Parity::Odd => 2u8,
            Parity::Even => 6u8,
        },
{
    let divisor = config.clock_rate / (16 * config.baud_rate);
    let fraction = config.clock_rate as u64 * 64 / config.baud_rate as u64;
    let parity: u8 = match config.parity {
        Parity::Disabled => 0,
        Parity::Odd => 2,
        Parity::Even => 6,
    };
    proof {
        assert(fraction & 0x3F == fraction % 64) by (bit_vector);
    }
    LineSettings { ibrd: divisor as u16, fbrd: (fraction & 0x3F) as u8, lcrh: 0x70u8 | parity }
}

} // verus!
