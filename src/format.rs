//! The negotiated capture format and the container format it is recorded in.

use vstd::prelude::*;

verus! {

/// The sample representation a capture device delivers.
#[derive(Clone, Copy, Debug, PartialEq, Eq)]
pub enum SampleKind {
    I8,
    I16,
    I32,
    I64,
    U8,
    U16,
    U32,
    U64,
    F32,
    F64,
}

/// How the container stores samples.
#[derive(Clone, Copy, Debug, PartialEq, Eq)]
pub enum Encoding {
    Int,
    Float,
}

/// The header parameters of a segment file.
#[derive(Clone, Copy, Debug, PartialEq, Eq)]
pub struct WavFormat {
    pub channels: u16,
    pub sample_rate: u32,
    pub bits_per_sample: u16,
    pub encoding: Encoding,
}

/// Initialization failures that end the process.
#[derive(Clone, Copy, Debug, PartialEq, Eq)]
pub enum InitError {
    /// The device's sample representation cannot be stored by the encoder.
    UnsupportedFormat(SampleKind),
}

impl SampleKind {
    pub open spec fn spec_size(self) -> nat {
        match self {
            SampleKind::I8 | SampleKind::U8 => 1,
            SampleKind::I16 | SampleKind::U16 => 2,
            SampleKind::I32 | SampleKind::U32 | SampleKind::F32 => 4,
            SampleKind::I64 | SampleKind::U64 | SampleKind::F64 => 8,
        }
    }

    pub open spec fn spec_is_float(self) -> bool {
        self is F32 || self is F64
    }

    /// The encoder stores 8, 16 and 32-bit integers and single-precision floats.
    pub open spec fn encodable(self) -> bool {
        self is I8 || self is I16 || self is I32 || self is F32
    }

    /// Bytes per sample.
    pub fn sample_size(&self) -> (r: usize)
        ensures
            r == self.spec_size(),
    {
        match self {
            SampleKind::I8 | SampleKind::U8 => 1,
            SampleKind::I16 | SampleKind::U16 => 2,
            SampleKind::I32 | SampleKind::U32 | SampleKind::F32 => 4,
            SampleKind::I64 | SampleKind::U64 | SampleKind::F64 => 8,
        }
    }

    pub fn is_float(&self) -> (r: bool)
        ensures
            r == self.spec_is_float(),
    {
        match self {
            SampleKind::F32 | SampleKind::F64 => true,
            _ => false,
        }
    }

    /// The container encoding for this representation.
    pub fn encoding(&self) -> (r: Encoding)
        ensures
            r == (if self.spec_is_float() {
                Encoding::Float
            } else {
                Encoding::Int
            }),
    {
        if self.is_float() {
            Encoding::Float
        } else {
            Encoding::Int
        }
    }
}

/// The segment header for a device format: channel count and rate as
/// negotiated, the sample width in bits, and integer or float encoding.
/// Fails when the encoder cannot store the device's representation.
pub fn wav_format(channels: u16, sample_rate: u32, kind: SampleKind) -> (r: Result<
    WavFormat,
    InitError,
>)
    ensures
        r is Ok <==> kind.encodable(),
        r matches Ok(f) ==> f.channels == channels && f.sample_rate == sample_rate
            && f.bits_per_sample == kind.spec_size() * 8 && f.encoding == (if kind.spec_is_float() {
            Encoding::Float
        } else {
            Encoding::Int
        }),
        r matches Err(e) ==> e == InitError::UnsupportedFormat(kind),
{
    match kind {
        SampleKind::I8 | SampleKind::I16 | SampleKind::I32 | SampleKind::F32 => {
            let bits = (kind.sample_size() * 8) as u16;
            Ok(WavFormat { channels, sample_rate, bits_per_sample: bits, encoding: kind.encoding() })
        },
        _ => Err(InitError::UnsupportedFormat(kind)),
    }
}

} // verus!
