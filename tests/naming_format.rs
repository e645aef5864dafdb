use audio_keeper::format::{wav_format, Encoding, InitError, SampleKind, WavFormat};
use audio_keeper::naming::Stamp;

#[test]
fn stamp_names_are_zero_padded() {
    let s = Stamp::new(2024, 1, 2, 3, 4).unwrap();
    assert_eq!(s.bucket_name(), "2024-01-02");
    assert_eq!(s.file_name(), "03-04.wav");
    assert_eq!(s.relative_path(), "2024-01-02/03-04.wav");
}

#[test]
fn stamp_names_at_field_maxima() {
    let s = Stamp::new(9999, 12, 31, 23, 59).unwrap();
    assert_eq!(s.relative_path(), "9999-12-31/23-59.wav");
    let z = Stamp::new(0, 1, 1, 0, 0).unwrap();
    assert_eq!(z.relative_path(), "0000-01-01/00-00.wav");
}

#[test]
fn stamp_rejects_out_of_range_fields() {
    assert_eq!(Stamp::new(2024, 13, 1, 0, 0), None);
    assert_eq!(Stamp::new(2024, 0, 1, 0, 0), None);
    assert_eq!(Stamp::new(2024, 1, 32, 0, 0), None);
    assert_eq!(Stamp::new(2024, 1, 1, 24, 0), None);
    assert_eq!(Stamp::new(2024, 1, 1, 0, 60), None);
    assert_eq!(Stamp::new(10000, 1, 1, 0, 0), None);
    assert_eq!(Stamp::new(-1, 1, 1, 0, 0), None);
}

#[test]
fn clock_reading_is_a_valid_stamp() {
    if let Some(s) = Stamp::now() {
        let name = s.relative_path();
        assert_eq!(name.len(), 20);
        assert!(name.ends_with(".wav"));
        assert!((1..=12).contains(&s.month));
    }
}

#[test]
fn integer_and_float_formats() {
    assert_eq!(
        wav_format(2, 48000, SampleKind::I16),
        Ok(WavFormat { channels: 2, sample_rate: 48000, bits_per_sample: 16, encoding: Encoding::Int })
    );
    assert_eq!(
        wav_format(1, 44100, SampleKind::F32),
        Ok(WavFormat { channels: 1, sample_rate: 44100, bits_per_sample: 32, encoding: Encoding::Float })
    );
    assert_eq!(wav_format(1, 8000, SampleKind::I8).map(|f| f.bits_per_sample), Ok(8));
    assert_eq!(wav_format(1, 8000, SampleKind::I32).map(|f| f.bits_per_sample), Ok(32));
}

#[test]
fn unencodable_formats_are_fatal() {
    assert_eq!(wav_format(2, 48000, SampleKind::U8), Err(InitError::UnsupportedFormat(SampleKind::U8)));
    assert_eq!(wav_format(2, 48000, SampleKind::F64), Err(InitError::UnsupportedFormat(SampleKind::F64)));
    assert_eq!(wav_format(2, 48000, SampleKind::I64), Err(InitError::UnsupportedFormat(SampleKind::I64)));
}

#[test]
fn sample_sizes() {
    assert_eq!(SampleKind::U16.sample_size(), 2);
    assert_eq!(SampleKind::F64.sample_size(), 8);
    assert!(SampleKind::F64.is_float());
    assert!(!SampleKind::I32.is_float());
    assert_eq!(SampleKind::F32.encoding(), Encoding::Float);
}

#[test]
fn later_compares_fields_in_order() {
    let a = Stamp::new(2024, 3, 1, 0, 0).unwrap();
    let b = Stamp::new(2024, 2, 28, 23, 59).unwrap();
    assert!(a.is_later_than(&b));
    assert!(!b.is_later_than(&a));
    assert!(!a.is_later_than(&a));
    let c = Stamp::new(2023, 12, 31, 23, 59).unwrap();
    assert!(b.is_later_than(&c));
    let d = Stamp::new(2024, 3, 1, 0, 1).unwrap();
    assert!(d.is_later_than(&a));
}
