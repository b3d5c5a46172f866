use huffman::bit_stream::BitWriter;
use huffman::compress::assign_codes;
use huffman::compress::build_tree;
use huffman::compress::compress;
use huffman::compress::Strategy;
use huffman::decompress::decompress;
use huffman::huffman_types::HuffmanNode;

fn chars_of(s: &str) -> Vec<char> {
    s.chars().collect()
}

fn encode(text: &str, strategy: Strategy) -> BitWriter {
    let mut w = BitWriter::new();
    compress(String::from(text), &mut w, strategy);
    w
}

fn stream_bits(w: &BitWriter) -> Vec<bool> {
    let mut r = w.to_reader();
    r.read_bits_vec(w.bit_count()).unwrap()
}

fn round_trip(text: &str, strategy: Strategy) -> Option<String> {
    let w = encode(text, strategy);
    decompress(w.to_reader(), strategy)
}

#[test]
fn round_trip_tree_shape() {
    assert_eq!(
        round_trip("abracadabra", Strategy::TreeShape),
        Some(String::from("abracadabra"))
    );
    assert_eq!(
        round_trip("the quick brown fox jumps over the lazy dog", Strategy::TreeShape),
        Some(String::from("the quick brown fox jumps over the lazy dog"))
    );
}

#[test]
fn round_trip_code_table() {
    assert_eq!(
        round_trip("abracadabra", Strategy::CodeTable),
        Some(String::from("abracadabra"))
    );
    assert_eq!(
        round_trip("mississippi river", Strategy::CodeTable),
        Some(String::from("mississippi river"))
    );
}

#[test]
fn single_symbol_input_round_trips() {
    // degenerate tree: one leaf, no branch, an empty code
    assert_eq!(round_trip("aaaa", Strategy::TreeShape), Some(String::from("aaaa")));
    assert_eq!(round_trip("aaaa", Strategy::CodeTable), Some(String::from("aaaa")));
    let tree = build_tree(&chars_of("aaaa"));
    match tree {
        HuffmanNode::Value(v) => {
            assert_eq!(v.ch, 'a');
            assert_eq!(v.count, 4);
        },
        _ => panic!("expected a single leaf"),
    }
}

#[test]
fn two_symbol_input_builds_one_branch() {
    let tree = build_tree(&chars_of("ab"));
    match &tree {
        HuffmanNode::Branch(b) => {
            assert_eq!(b.count, 2);
            assert!(matches!(*b.t, HuffmanNode::Value(_)));
            assert!(matches!(*b.f, HuffmanNode::Value(_)));
            assert!(!b.is_t_none());
            assert!(!b.is_f_none());
        },
        _ => panic!("expected a branch root"),
    }
    let (table, highest) = assign_codes(&tree);
    assert_eq!(table.len(), 2);
    assert_eq!(highest, 1);
    for (code, _) in &table {
        assert_eq!(code.len(), 1);
    }
    assert_eq!(round_trip("ab", Strategy::TreeShape), Some(String::from("ab")));
    assert_eq!(round_trip("ab", Strategy::CodeTable), Some(String::from("ab")));
}

#[test]
fn root_weight_equals_input_length() {
    let tree = build_tree(&chars_of("abracadabra"));
    assert_eq!(tree.count_sub_branches(), 11);
    let tree2 = build_tree(&chars_of("zzz y x"));
    assert_eq!(tree2.count_sub_branches(), 7);
}

#[test]
fn codes_are_prefix_free() {
    let tree = build_tree(&chars_of("prefix freedom for every pair"));
    let (table, _) = assign_codes(&tree);
    for i in 0..table.len() {
        for j in 0..table.len() {
            if i != j {
                let a = &table[i].0;
                let b = &table[j].0;
                let is_prefix = a.len() <= b.len() && a[..] == b[..a.len()];
                assert!(!is_prefix, "code {:?} is a prefix of {:?}", a, b);
            }
        }
    }
}

#[test]
fn same_input_encodes_to_identical_bits() {
    for strategy in [Strategy::TreeShape, Strategy::CodeTable] {
        let first = encode("determinism check", strategy);
        let second = encode("determinism check", strategy);
        assert_eq!(first.bit_count(), second.bit_count());
        assert_eq!(stream_bits(&first), stream_bits(&second));
    }
}

#[test]
fn truncated_stream_is_detected() {
    for strategy in [Strategy::TreeShape, Strategy::CodeTable] {
        let w = encode("truncate me", strategy);
        let bits = stream_bits(&w);
        // drop the final byte of payload bits
        let mut cut = BitWriter::new();
        let keep: Vec<bool> = bits[..bits.len() - 8].to_vec();
        cut.write_bits_vec(&keep);
        assert_eq!(decompress(cut.to_reader(), strategy), None);
        // cutting inside the framing is detected too
        let mut head = BitWriter::new();
        head.write_bits_vec(&bits[..20].to_vec());
        assert_eq!(decompress(head.to_reader(), strategy), None);
    }
}

#[test]
fn empty_input_writes_nothing_and_empty_stream_rejects() {
    for strategy in [Strategy::TreeShape, Strategy::CodeTable] {
        let w = encode("", strategy);
        assert_eq!(w.bit_count(), 0);
        assert_eq!(decompress(w.to_reader(), strategy), None);
    }
}

#[test]
fn tree_shape_wire_layout_for_ab() {
    // "ab": both symbols have count 1; the merge pops 'b' (tail) first, so
    // the leaf-visitation order is [b, a]; the frame is
    // [u16 2][u8 'b'][u8 'a'][1 0 0], then [u16 2] and one bit per symbol.
    let w = encode("ab", Strategy::TreeShape);
    assert_eq!(w.bit_count(), 16 + 8 + 8 + 3 + 16 + 2);
    let mut r = w.to_reader();
    assert_eq!(r.read_u16(), Some(2));
    assert_eq!(r.read_u8(), Some(b'b'));
    assert_eq!(r.read_u8(), Some(b'a'));
    assert_eq!(r.read_bits_vec(3), Some(vec![true, false, false]));
    assert_eq!(r.read_u16(), Some(2));
    // 'a' sits on the `f` (true) side, 'b' on the `t` (false) side
    assert_eq!(r.read_bits_vec(2), Some(vec![true, false]));
    assert_eq!(r.read_bit(), None);
}

#[test]
fn code_table_wire_layout_for_ab() {
    // two entries, maximum depth 1: [u16 2][u16 1], then per entry one
    // (1 + 1 + 8)-bit record: terminator, code bit, symbol byte.
    let w = encode("ab", Strategy::CodeTable);
    assert_eq!(w.bit_count(), 16 + 16 + 2 * (1 + 1 + 8) + 16 + 2);
    let mut r = w.to_reader();
    assert_eq!(r.read_u16(), Some(2));
    assert_eq!(r.read_u16(), Some(1));
}

#[test]
fn latin1_symbols_survive() {
    let text = "caf\u{e9} \u{fc}ber";
    for strategy in [Strategy::TreeShape, Strategy::CodeTable] {
        assert_eq!(round_trip(text, strategy), Some(String::from(text)));
    }
}
