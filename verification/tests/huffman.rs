use ans::huffman::codebook_pair;
use ans::huffman::DecoderHuffmanTree;
use ans::huffman::DecodingError;
use ans::huffman::EncoderHuffmanTree;
use ans::huffman::EncodingError;
use ans::huffman::HuffmanWeight;

/// A float probability that is known not to be NaN, ordered by lifting the
/// partial order of the underlying float.
#[derive(Clone, Copy)]
struct NonNanFloat {
    inner: f32,
}

impl NonNanFloat {
    fn new(x: f32) -> Result<Self, ()> {
        if x.is_nan() {
            Err(())
        } else {
            Ok(NonNanFloat { inner: x })
        }
    }
}

impl HuffmanWeight for NonNanFloat {
    fn less_than(&self, other: &Self) -> bool {
        self.inner
            .partial_cmp(&other.inner)
            .expect("NonNanFloat::inner is not NaN.")
            == std::cmp::Ordering::Less
    }

    fn combine(&self, other: &Self) -> Self {
        NonNanFloat {
            inner: self.inner + other.inner,
        }
    }
}

fn encoder_from_floats(probabilities: &[f32]) -> Result<EncoderHuffmanTree, ()> {
    let validated: Vec<Result<NonNanFloat, ()>> =
        probabilities.iter().map(|&p| NonNanFloat::new(p)).collect();
    EncoderHuffmanTree::try_from_probabilities(&validated)
}

fn decoder_from_floats(probabilities: &[f32]) -> Result<DecoderHuffmanTree, ()> {
    let validated: Vec<Result<NonNanFloat, ()>> =
        probabilities.iter().map(|&p| NonNanFloat::new(p)).collect();
    DecoderHuffmanTree::try_from_probabilities(&validated)
}

fn encode_all_symbols(tree: &EncoderHuffmanTree) -> Vec<String> {
    (0..tree.num_symbols())
        .map(|symbol| {
            tree.encode_symbol(symbol)
                .unwrap()
                .iter()
                .map(|&bit| if bit { '1' } else { '0' })
                .collect::<String>()
        })
        .collect()
}

#[test]
fn encoder_huffman_tree() {
    let tree = EncoderHuffmanTree::from_probabilities(&vec![1u64]);
    assert_eq!(tree.nodes(), &vec![0]);
    assert_eq!(encode_all_symbols(&tree), [""]);

    let tree = EncoderHuffmanTree::from_probabilities(&vec![1u64, 2]);
    assert_eq!(tree.nodes(), &vec![4, 5, 0]);
    assert_eq!(encode_all_symbols(&tree), ["0", "1"]);

    let tree = EncoderHuffmanTree::from_probabilities(&vec![2u64, 1]);
    assert_eq!(tree.nodes(), &vec![5, 4, 0]);
    assert_eq!(encode_all_symbols(&tree), ["1", "0"]);

    // Ties are broken by index.
    let tree = EncoderHuffmanTree::from_probabilities(&vec![1u64, 1]);
    assert_eq!(tree.nodes(), &vec![4, 5, 0]);
    assert_eq!(encode_all_symbols(&tree), ["0", "1"]);

    let tree = EncoderHuffmanTree::from_probabilities(&vec![2u64, 2, 4, 1, 1]);
    assert_eq!(tree.nodes(), &vec![12, 13, 15, 10, 11, 14, 16, 17, 0]);
    assert_eq!(encode_all_symbols(&tree), ["00", "01", "11", "100", "101"]);

    // Let's not test ties of sums in floating point probabilities since they'll depend
    // on rounding errors (but should still be deterministic).
    let tree = encoder_from_floats(&[0.19, 0.2, 0.41, 0.1, 0.1]).unwrap();
    assert_eq!(tree.nodes(), &vec![12, 13, 16, 10, 11, 14, 15, 17, 0]);
    assert_eq!(encode_all_symbols(&tree), ["110", "111", "0", "100", "101"]);
}

fn test_decoding_all_symbols(decoder_tree: &DecoderHuffmanTree, encoder_tree: &EncoderHuffmanTree) {
    for symbol in 0..encoder_tree.num_symbols() {
        let codeword = encoder_tree.encode_symbol(symbol).unwrap();
        let (decoded, bits_used) = decoder_tree.decode_symbol(&codeword, 0).unwrap();
        assert_eq!(symbol, decoded);
        assert_eq!(bits_used, codeword.len());
    }
}

#[test]
fn decoder_huffman_tree() {
    let tree = DecoderHuffmanTree::from_probabilities(&vec![1u64]);
    assert!(tree.nodes().is_empty());
    test_decoding_all_symbols(
        &tree,
        &EncoderHuffmanTree::from_probabilities(&vec![1u64]),
    );

    let tree = DecoderHuffmanTree::from_probabilities(&vec![1u64, 2]);
    assert_eq!(tree.nodes(), &vec![(0, 1)]);
    test_decoding_all_symbols(
        &tree,
        &EncoderHuffmanTree::from_probabilities(&vec![0u64, 1]),
    );

    let tree = DecoderHuffmanTree::from_probabilities(&vec![2u64, 1]);
    assert_eq!(tree.nodes(), &vec![(1, 0)]);
    test_decoding_all_symbols(
        &tree,
        &EncoderHuffmanTree::from_probabilities(&vec![2u64, 1]),
    );

    // Ties are broken by index.
    let tree = DecoderHuffmanTree::from_probabilities(&vec![1u64, 1]);
    assert_eq!(tree.nodes(), &vec![(0, 1)]);
    test_decoding_all_symbols(
        &tree,
        &EncoderHuffmanTree::from_probabilities(&vec![1u64, 1]),
    );

    let tree = DecoderHuffmanTree::from_probabilities(&vec![2u64, 2, 4, 1, 1]);
    assert_eq!(tree.nodes(), &vec![(3, 4), (0, 1), (5, 2), (6, 7)]);
    test_decoding_all_symbols(
        &tree,
        &EncoderHuffmanTree::from_probabilities(&vec![2u64, 2, 4, 1, 1]),
    );

    // Let's not test ties of sums in floating point probabilities since they'll depend
    // on rounding errors (but should still be deterministic).
    let tree = decoder_from_floats(&[0.19, 0.2, 0.41, 0.1, 0.1]).unwrap();
    assert_eq!(tree.nodes(), &vec![(3, 4), (0, 1), (5, 6), (2, 7)]);
    test_decoding_all_symbols(&tree, &encoder_from_floats(&[0.19, 0.2, 0.41, 0.1, 0.1]).unwrap());
}

#[test]
fn codebook_pair_round_trips() {
    let (encoder, decoder) = codebook_pair(&vec![7u64, 1, 1, 3, 2, 9]);
    for symbol in 0..encoder.num_symbols() {
        let codeword = encoder.encode_symbol(symbol).unwrap();
        // Decoding must consume exactly the codeword, even with the next
        // codeword's bits already waiting behind it.
        let mut stream = codeword.clone();
        stream.push(true);
        stream.push(false);
        let (decoded, bits_used) = decoder.decode_symbol(&stream, 0).unwrap();
        assert_eq!(decoded, symbol);
        assert_eq!(bits_used, codeword.len());
    }
}

#[test]
fn encoder_rejects_impossible_symbol() {
    let tree = EncoderHuffmanTree::from_probabilities(&vec![2u64, 2, 4, 1, 1]);
    assert_eq!(tree.encode_symbol(4).unwrap().len(), 3);
    assert_eq!(tree.encode_symbol(5), Err(EncodingError::ImpossibleSymbol));
    assert_eq!(tree.encode_symbol(17), Err(EncodingError::ImpossibleSymbol));
}

#[test]
fn decoder_rejects_truncated_input() {
    let tree = DecoderHuffmanTree::from_probabilities(&vec![2u64, 2, 4, 1, 1]);
    assert_eq!(
        tree.decode_symbol(&vec![], 0),
        Err(DecodingError::OutOfCompressedData)
    );
    // "10" is a strict prefix of the codeword "100" of symbol 3.
    assert_eq!(
        tree.decode_symbol(&vec![true, false], 0),
        Err(DecodingError::OutOfCompressedData)
    );
}

#[test]
fn try_from_probabilities_propagates_validation_failure() {
    let valid: Vec<Result<u64, ()>> = vec![Ok(2), Ok(3), Ok(1)];
    assert!(EncoderHuffmanTree::try_from_probabilities(&valid).is_ok());
    assert!(DecoderHuffmanTree::try_from_probabilities(&valid).is_ok());

    let invalid: Vec<Result<u64, ()>> = vec![Ok(2), Err(()), Ok(1)];
    assert!(EncoderHuffmanTree::try_from_probabilities(&invalid).is_err());
    assert!(DecoderHuffmanTree::try_from_probabilities(&invalid).is_err());

    assert!(encoder_from_floats(&[0.5, f32::NAN, 0.2]).is_err());
    assert!(decoder_from_floats(&[0.5, f32::NAN, 0.2]).is_err());
}

#[test]
fn decode_starts_mid_stream() {
    let tree = DecoderHuffmanTree::from_probabilities(&vec![2u64, 2, 4, 1, 1]);
    let encoder = EncoderHuffmanTree::from_probabilities(&vec![2u64, 2, 4, 1, 1]);
    let mut stream: Vec<bool> = Vec::new();
    let symbols = [3usize, 0, 2, 4, 1];
    for &symbol in &symbols {
        stream.extend(encoder.encode_symbol(symbol).unwrap());
    }
    let mut position = 0;
    for &symbol in &symbols {
        let (decoded, next_position) = tree.decode_symbol(&stream, position).unwrap();
        assert_eq!(decoded, symbol);
        position = next_position;
    }
    assert_eq!(position, stream.len());
}
