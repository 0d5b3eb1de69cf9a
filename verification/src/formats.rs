use vstd::prelude::*;

use crate::text::{append_decimal, append_str, decimal, str_equals};

verus! {

/// How the samples of a WAV file are encoded.
#[derive(Debug, Clone, Copy, PartialEq, Eq, Structural)]
pub enum WavFormat {
    Int,
    Float,
}

/// The in-memory sample type that a benchmark reads or writes.
#[derive(Debug, Clone, Copy, PartialEq, Eq, Structural)]
pub enum SampleType {
    I8,
    U8,
    I16,
    I32,
    F32,
}

/// The sample type in which the first library reads a file of the given encoding.
pub open spec fn hound_read_type_of(bits_per_sample: u16, format: WavFormat) -> Option<SampleType> {
    match format {
        WavFormat::Int => if bits_per_sample == 8 {
            Some(SampleType::I8)
        } else if bits_per_sample == 16 {
            Some(SampleType::I16)
        } else if bits_per_sample == 32 {
            Some(SampleType::I32)
        } else {
            None
        },
        WavFormat::Float => if bits_per_sample == 32 {
            Some(SampleType::F32)
        } else {
            None
        },
    }
}

/// The sample type in which the first library reads a file of the given encoding,
/// if it is one that the benchmark supports.
pub fn hound_read_type(bits_per_sample: u16, format: WavFormat) -> (r: Option<SampleType>)
    ensures
        r == hound_read_type_of(bits_per_sample, format),
{
    match format {
        WavFormat::Int => if bits_per_sample == 8 {
            Some(SampleType::I8)
        } else if bits_per_sample == 16 {
            Some(SampleType::I16)
        } else if bits_per_sample == 32 {
            Some(SampleType::I32)
        } else {
            None
        },
        WavFormat::Float => if bits_per_sample == 32 {
            Some(SampleType::F32)
        } else {
            None
        },
    }
}

/// Name of an encoding in error messages.
pub open spec fn format_name(format: WavFormat) -> Seq<char> {
    match format {
        WavFormat::Int => "Int"@,
        WavFormat::Float => "Float"@,
    }
}

/// The error for a WAV file whose encoding the benchmark does not read.
pub open spec fn unsupported_format(path: Seq<char>, bits_per_sample: u16, format: WavFormat) -> Seq<
    char,
> {
    "Unsupported WAV format in "@ + path + ": "@ + decimal(bits_per_sample as nat) + "‑bit "@
        + format_name(format)
}

/// The error for a WAV file whose encoding the benchmark does not read.
pub fn unsupported_format_text(path: &str, bits_per_sample: u16, format: WavFormat) -> (r: String)
    ensures
        r@ == unsupported_format(path@, bits_per_sample, format),
{
    let mut r = String::new();
    append_str(&mut r, "Unsupported WAV format in ");
    append_str(&mut r, path);
    append_str(&mut r, ": ");
    append_decimal(&mut r, bits_per_sample as u64);
    append_str(&mut r, "‑bit ");
    match format {
        WavFormat::Int => append_str(&mut r, "Int"),
        WavFormat::Float => append_str(&mut r, "Float"),
    }
    assert(r@ =~= unsupported_format(path@, bits_per_sample, format));
    r
}

/// The error for a sample type name that the benchmark does not know.
pub open spec fn unsupported_dtype(dtype: Seq<char>) -> Seq<char> {
    "Unsupported signal dtype: "@ + dtype
}

fn unsupported_dtype_text(dtype: &str) -> (r: String)
    ensures
        r@ == unsupported_dtype(dtype@),
{
    let mut r = String::new();
    append_str(&mut r, "Unsupported signal dtype: ");
    append_str(&mut r, dtype);
    r
}

/// The sample type in which the second library reads and writes a signal
/// named `dtype`; 8-bit signals are handled as unsigned bytes.
pub open spec fn aus_sample_type_of(dtype: Seq<char>) -> Option<SampleType> {
    if dtype == "i8"@ {
        Some(SampleType::U8)
    } else if dtype == "i16"@ {
        Some(SampleType::I16)
    } else if dtype == "i32"@ {
        Some(SampleType::I32)
    } else if dtype == "f32"@ {
        Some(SampleType::F32)
    } else {
        None
    }
}

/// The sample type in which the second library reads and writes a signal
/// named `dtype`, or the error for an unknown name.
pub fn aus_sample_type(dtype: &str) -> (r: Result<SampleType, String>)
    ensures
        match r {
            Ok(t) => aus_sample_type_of(dtype@) == Some(t),
            Err(e) => aus_sample_type_of(dtype@) is None && e@ == unsupported_dtype(dtype@),
        },
{
    if str_equals(dtype, "i8") {
        Ok(SampleType::U8)
    } else if str_equals(dtype, "i16") {
        Ok(SampleType::I16)
    } else if str_equals(dtype, "i32") {
        Ok(SampleType::I32)
    } else if str_equals(dtype, "f32") {
        Ok(SampleType::F32)
    } else {
        Err(unsupported_dtype_text(dtype))
    }
}

/// How the first library writes a signal: its WAV encoding and sample type.
#[derive(Debug, Clone, Copy, PartialEq, Eq, Structural)]
pub struct HoundWrite {
    pub bits_per_sample: u16,
    pub format: WavFormat,
    pub sample: SampleType,
}

/// How the first library writes a signal named `dtype`; 16-bit signals go
/// through the dedicated 16-bit writer.
pub open spec fn hound_write_of(dtype: Seq<char>) -> Option<HoundWrite> {
    if dtype == "i8"@ {
        Some(HoundWrite { bits_per_sample: 8, format: WavFormat::Int, sample: SampleType::I8 })
    } else if dtype == "i16"@ {
        Some(HoundWrite { bits_per_sample: 16, format: WavFormat::Int, sample: SampleType::I16 })
    } else if dtype == "i32"@ {
        Some(HoundWrite { bits_per_sample: 32, format: WavFormat::Int, sample: SampleType::I32 })
    } else if dtype == "f32"@ {
        Some(HoundWrite { bits_per_sample: 32, format: WavFormat::Float, sample: SampleType::F32 })
    } else {
        None
    }
}

/// How the first library writes a signal named `dtype`, or the error for an unknown name.
pub fn hound_write(dtype: &str) -> (r: Result<HoundWrite, String>)
    ensures
        match r {
            Ok(w) => hound_write_of(dtype@) == Some(w),
            Err(e) => hound_write_of(dtype@) is None && e@ == unsupported_dtype(dtype@),
        },
{
    if str_equals(dtype, "i8") {
        Ok(HoundWrite { bits_per_sample: 8, format: WavFormat::Int, sample: SampleType::I8 })
    } else if str_equals(dtype, "i16") {
        Ok(HoundWrite { bits_per_sample: 16, format: WavFormat::Int, sample: SampleType::I16 })
    } else if str_equals(dtype, "i32") {
        Ok(HoundWrite { bits_per_sample: 32, format: WavFormat::Int, sample: SampleType::I32 })
    } else if str_equals(dtype, "f32") {
        Ok(HoundWrite { bits_per_sample: 32, format: WavFormat::Float, sample: SampleType::F32 })
    } else {
        Err(unsupported_dtype_text(dtype))
    }
}

/// A file that the first library writes for a known signal name is read back
/// by it in the sample type it was written from.
pub proof fn lemma_hound_write_read_back(dtype: Seq<char>)
    requires
        hound_write_of(dtype) is Some,
    ensures
        hound_read_type_of(
            hound_write_of(dtype)->0.bits_per_sample,
            hound_write_of(dtype)->0.format,
        ) == Some(hound_write_of(dtype)->0.sample),
{
}

/// Both libraries accept exactly the same signal names.
pub proof fn lemma_same_dtypes(dtype: Seq<char>)
    ensures
        hound_write_of(dtype) is Some <==> aus_sample_type_of(dtype) is Some,
{
}

} // verus!
