use aus_vs_hound::formats::{
    aus_sample_type, hound_read_type, hound_write, unsupported_format_text, HoundWrite, SampleType,
    WavFormat,
};

#[test]
fn hound_reads_supported_encodings() {
    assert_eq!(hound_read_type(8, WavFormat::Int), Some(SampleType::I8));
    assert_eq!(hound_read_type(16, WavFormat::Int), Some(SampleType::I16));
    assert_eq!(hound_read_type(32, WavFormat::Int), Some(SampleType::I32));
    assert_eq!(hound_read_type(32, WavFormat::Float), Some(SampleType::F32));
}

#[test]
fn hound_rejects_other_encodings() {
    assert_eq!(hound_read_type(24, WavFormat::Int), None);
    assert_eq!(hound_read_type(64, WavFormat::Float), None);
    assert_eq!(hound_read_type(16, WavFormat::Float), None);
}

#[test]
fn unsupported_format_message() {
    assert_eq!(
        unsupported_format_text("resources/sine_1s_i24_1ch.wav", 24, WavFormat::Int),
        "Unsupported WAV format in resources/sine_1s_i24_1ch.wav: 24‑bit Int"
    );
    assert_eq!(unsupported_format_text("x.wav", 64, WavFormat::Float), "Unsupported WAV format in x.wav: 64‑bit Float");
}

#[test]
fn aus_types_for_dtypes() {
    assert_eq!(aus_sample_type("i8"), Ok(SampleType::U8));
    assert_eq!(aus_sample_type("i16"), Ok(SampleType::I16));
    assert_eq!(aus_sample_type("i32"), Ok(SampleType::I32));
    assert_eq!(aus_sample_type("f32"), Ok(SampleType::F32));
    assert_eq!(aus_sample_type("u8"), Err("Unsupported signal dtype: u8".to_string()));
    assert_eq!(aus_sample_type(""), Err("Unsupported signal dtype: ".to_string()));
}

#[test]
fn hound_write_encodings() {
    assert_eq!(
        hound_write("i8"),
        Ok(HoundWrite { bits_per_sample: 8, format: WavFormat::Int, sample: SampleType::I8 })
    );
    assert_eq!(
        hound_write("i16"),
        Ok(HoundWrite { bits_per_sample: 16, format: WavFormat::Int, sample: SampleType::I16 })
    );
    assert_eq!(
        hound_write("i32"),
        Ok(HoundWrite { bits_per_sample: 32, format: WavFormat::Int, sample: SampleType::I32 })
    );
    assert_eq!(
        hound_write("f32"),
        Ok(HoundWrite { bits_per_sample: 32, format: WavFormat::Float, sample: SampleType::F32 })
    );
    assert_eq!(hound_write("I16"), Err("Unsupported signal dtype: I16".to_string()));
}

#[test]
fn written_files_read_back_in_the_same_type() {
    for d in ["i8", "i16", "i32", "f32"] {
        let w = hound_write(d).unwrap();
        assert_eq!(hound_read_type(w.bits_per_sample, w.format), Some(w.sample));
    }
}
