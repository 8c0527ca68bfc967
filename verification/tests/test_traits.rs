use compression_lib::{Codec, CompressionError, Compressor, Decompressor, Result};

struct MockCodec;

impl Compressor for MockCodec {
    fn compress(&self, input: &[u8]) -> Result<Vec<u8>> {
        if input.is_empty() {
            return Err(CompressionError::InvalidInput("empty input".to_string()));
        }
        Ok(input.to_vec())
    }

    fn name(&self) -> &'static str {
        "MockCodec"
    }
}

impl Decompressor for MockCodec {
    fn decompress(&self, input: &[u8]) -> Result<Vec<u8>> {
        if input.is_empty() {
            return Err(CompressionError::DecompressionError(
                "empty input".to_string(),
            ));
        }
        Ok(input.to_vec())
    }

    fn name(&self) -> &'static str {
        "MockCodec"
    }
}

fn accepts_codec<T: Codec>(codec: &T, data: &[u8]) -> Result<Vec<u8>> {
    let compressed = codec.compress(data)?;
    codec.decompress(&compressed)
}

#[test]
fn test_compressor_trait() {
    let codec = MockCodec;
    let input = b"test data";
    let compressed = codec.compress(input).unwrap();
    assert_eq!(compressed, input);
}

#[test]
fn traits_test_compressor_name() {
    let codec = MockCodec;
    assert_eq!(Compressor::name(&codec), "MockCodec");
}

#[test]
fn test_decompressor_trait() {
    let codec = MockCodec;
    let input = b"test data";
    let decompressed = codec.decompress(input).unwrap();
    assert_eq!(decompressed, input);
}

#[test]
fn test_codec_roundtrip() {
    let codec = MockCodec;
    let input = b"hello world";
    let compressed = codec.compress(input).unwrap();
    let decompressed = codec.decompress(&compressed).unwrap();
    assert_eq!(decompressed, input);
}

#[test]
fn test_compressor_empty_input() {
    let codec = MockCodec;
    let result = codec.compress(&[]);
    assert!(result.is_err());
}

#[test]
fn test_decompressor_empty_input() {
    let codec = MockCodec;
    let result = codec.decompress(&[]);
    assert!(result.is_err());
}

#[test]
fn test_codec_trait_bound() {
    let codec = MockCodec;
    let result = accepts_codec(&codec, b"test");
    assert!(result.is_ok());
    assert_eq!(result.unwrap(), b"test");
}
