use rag_llm::quantization::Quantizer;

#[test]
fn test_binary_quantization() {
    let data = vec![0.5f32, -0.5, 1.0, -1.0, 0.0, 0.3, -0.7, 0.1];
    let signs: Vec<bool> = data.iter().map(|v| *v >= 0.0).collect();
    let quantized = Quantizer::pack_bits(&signs);
    let dequantized = Quantizer::unpack_bits(&quantized, data.len());

    assert_eq!(data.len(), dequantized.len());
    for (orig, deq) in data.iter().zip(dequantized.iter()) {
        assert_eq!(orig.signum(), if *deq { 1.0 } else { -1.0 });
    }
}

#[test]
fn pack_bits_lowest_first_with_padding() {
    let bits = vec![true, false, true, true, false, false, false, false, true, true];
    let packed = Quantizer::pack_bits(&bits);
    assert_eq!(packed, vec![0b0000_1101, 0b0000_0011]);
    assert_eq!(Quantizer::unpack_bits(&packed, 10), bits);
    assert_eq!(Quantizer::unpack_bits(&packed, 3), vec![true, false, true]);
    assert_eq!(Quantizer::unpack_bits(&packed, 100).len(), 16);
    assert_eq!(Quantizer::pack_bits(&Vec::new()), Vec::<u8>::new());
    assert_eq!(Quantizer::pack_bits(&vec![true; 8]), vec![0xFF]);
}
