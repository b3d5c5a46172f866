//! Encoding: frequency counting, Huffman tree construction, code
//! assignment, the two framing strategies and the driver.

use vstd::prelude::*;
use vstd::seq_lib::lemma_multiset_commutative;
use crate::bit_stream::BitWriter;
use crate::bit_stream::val_bits;
use crate::bit_stream::lemma_val_bits_len;
use crate::huffman_types::HuffmanValue;
use crate::huffman_types::HuffmanBranch;
use crate::huffman_types::HuffmanNode;
use crate::huffman_types::node_weight;
use crate::huffman_types::wf_node;
use crate::huffman_types::syms;
use crate::huffman_types::shape;
use crate::huffman_types::depth;
use crate::huffman_types::int_max;
use crate::huffman_types::paths;
use crate::huffman_types::code_of;
use crate::huffman_types::lemma_paths_len;

verus! {

/// Records one more occurrence of `c`: the first entry for `c` is
/// incremented, or a fresh entry with count 1 is appended.
pub open spec fn bump(s: Seq<HuffmanValue>, c: char) -> Seq<HuffmanValue>
    decreases s.len(),
{
    if s.len() == 0 {
        seq![HuffmanValue { ch: c, count: 1 }]
    } else if s[0].ch == c {
        seq![HuffmanValue { ch: c, count: (s[0].count + 1) as usize }] + s.drop_first()
    } else {
        seq![s[0]] + bump(s.drop_first(), c)
    }
}

/// The frequency table of `s`: one entry per distinct symbol, in order of
/// first appearance, counting occurrences.
pub open spec fn freq_spec(s: Seq<char>) -> Seq<HuffmanValue>
    decreases s.len(),
{
    if s.len() == 0 {
        Seq::empty()
    } else {
        bump(freq_spec(s.drop_last()), s.last())
    }
}

/// The symbols of a frequency table, in table order.
pub open spec fn chars_of(s: Seq<HuffmanValue>) -> Seq<char> {
    s.map_values(|v: HuffmanValue| v.ch)
}

/// The sum of the occurrence counts of a frequency table.
pub open spec fn sum_counts(s: Seq<HuffmanValue>) -> int
    decreases s.len(),
{
    if s.len() == 0 {
        0
    } else {
        s[0].count + sum_counts(s.drop_first())
    }
}

proof fn lemma_bump_props(s: Seq<HuffmanValue>, c: char)
    requires
        forall|k: int| 0 <= k < s.len() ==> (#[trigger] s[k]).count >= 1,
        chars_of(s).no_duplicates(),
        sum_counts(s) < usize::MAX,
    ensures
        forall|k: int| 0 <= k < bump(s, c).len() ==> (#[trigger] bump(s, c)[k]).count >= 1,
        chars_of(bump(s, c)).no_duplicates(),
        sum_counts(bump(s, c)) == sum_counts(s) + 1,
        forall|d: char| #[trigger]
            chars_of(bump(s, c)).contains(d) ==> (chars_of(s).contains(d) || d == c),
        forall|d: char| #[trigger] chars_of(s).contains(d) ==> chars_of(bump(s, c)).contains(d),
        chars_of(bump(s, c)).contains(c),
        s.len() <= bump(s, c).len() <= s.len() + 1,
    decreases s.len(),
{
    let r = bump(s, c);
    if s.len() == 0 {
        assert(r[0].count == 1);
        assert(chars_of(r) =~= seq![c]);
        assert(chars_of(r)[0] == c);
        assert(chars_of(r).contains(c));
        assert(r.drop_first() =~= Seq::<HuffmanValue>::empty());
        assert(sum_counts(r.drop_first()) == 0);
    } else if s[0].ch == c {
        lemma_count_le_sum(s, 0);
        lemma_sum_counts_nonneg(s.drop_first());
        let head = HuffmanValue { ch: c, count: (s[0].count + 1) as usize };
        assert(head.count == s[0].count + 1);
        assert(r =~= seq![head] + s.drop_first());
        assert(r.drop_first() =~= s.drop_first());
        assert(chars_of(r) =~= chars_of(s));
        assert(sum_counts(r) == head.count + sum_counts(s.drop_first()));
        assert(chars_of(s)[0] == c);
        assert(chars_of(s).contains(c));
    } else {
        let rest = s.drop_first();
        assert(forall|k: int| 0 <= k < rest.len() ==> (#[trigger] rest[k]).count >= 1);
        assert(chars_of(rest) =~= chars_of(s).drop_first());
        assert forall|i: int, j: int| 0 <= i < j < chars_of(rest).len() implies chars_of(
            rest,
        )[i] != chars_of(rest)[j] by {
            assert(chars_of(s)[i + 1] == chars_of(rest)[i]);
            assert(chars_of(s)[j + 1] == chars_of(rest)[j]);
        }
        assert(sum_counts(s) == s[0].count + sum_counts(rest));
        assert(sum_counts(rest) < usize::MAX);
        lemma_bump_props(rest, c);
        assert(r =~= seq![s[0]] + bump(rest, c));
        assert(r.drop_first() =~= bump(rest, c));
        assert(sum_counts(r) == s[0].count + sum_counts(bump(rest, c)));
        assert(chars_of(r) =~= seq![s[0].ch] + chars_of(bump(rest, c)));
        // no_duplicates: the head char is neither c nor in the rest
        assert(!chars_of(rest).contains(s[0].ch)) by {
            if chars_of(rest).contains(s[0].ch) {
                let j = choose|j: int| 0 <= j < chars_of(rest).len() && chars_of(rest)[j] == s[0].ch;
                assert(chars_of(s)[j + 1] == s[0].ch);
                assert(chars_of(s)[0] == s[0].ch);
            }
        }
        assert forall|d: char| chars_of(r).contains(d) implies (chars_of(s).contains(d) || d
            == c) by {
            let j = choose|j: int| 0 <= j < chars_of(r).len() && chars_of(r)[j] == d;
            if j == 0 {
                assert(chars_of(s)[0] == d);
            } else {
                assert(chars_of(bump(rest, c)).contains(d));
                if chars_of(rest).contains(d) {
                    let k = choose|k: int| 0 <= k < chars_of(rest).len() && chars_of(rest)[k] == d;
                    assert(chars_of(s)[k + 1] == d);
                }
            }
        }
        assert(chars_of(r).contains(c)) by {
            assert(chars_of(bump(rest, c)).contains(c));
            let k = choose|k: int|
                0 <= k < chars_of(bump(rest, c)).len() && chars_of(bump(rest, c))[k] == c;
            assert(chars_of(r)[k + 1] == c);
        }
        assert forall|d: char| (chars_of(s).contains(d) || d == c) implies chars_of(r).contains(
            d,
        ) by {
            if d == c || chars_of(rest).contains(d) {
                assert(chars_of(rest).contains(d) || d == c);
                if d == c {
                    assert(chars_of(bump(rest, c)).contains(d));
                }
                assert(chars_of(bump(rest, c)).contains(d));
                let k = choose|k: int|
                    0 <= k < chars_of(bump(rest, c)).len() && chars_of(bump(rest, c))[k] == d;
                assert(chars_of(r)[k + 1] == d);
            } else {
                assert(chars_of(s).contains(d));
                let j = choose|j: int| 0 <= j < chars_of(s).len() && chars_of(s)[j] == d;
                if j > 0 {
                    assert(chars_of(rest)[j - 1] == d);
                    assert(chars_of(rest).contains(d));
                }
                assert(chars_of(r)[0] == d);
            }
        }
        assert(chars_of(r).no_duplicates()) by {
            assert(chars_of(r)[0] == s[0].ch);
            assert(!chars_of(bump(rest, c)).contains(s[0].ch));
            assert(forall|i: int, j: int|
                0 <= i < j < chars_of(r).len() ==> chars_of(r)[i] != chars_of(r)[j]) by {
                assert forall|i: int, j: int| 0 <= i < j < chars_of(r).len() implies chars_of(
                    r,
                )[i] != chars_of(r)[j] by {
                    if i == 0 {
                        assert(chars_of(bump(rest, c))[j - 1] == chars_of(r)[j]);
                        assert(chars_of(bump(rest, c)).contains(chars_of(r)[j]));
                    } else {
                        assert(chars_of(bump(rest, c))[i - 1] == chars_of(r)[i]);
                        assert(chars_of(bump(rest, c))[j - 1] == chars_of(r)[j]);
                    }
                }
            }
        }
    }
}

/// The facts the rest of the pipeline needs about a frequency table:
/// counts are positive, symbols are distinct, the counts sum to the input
/// length, and the table holds exactly the symbols of the input.
pub proof fn lemma_freq_props(s: Seq<char>)
    requires
        s.len() < usize::MAX,
    ensures
        forall|k: int|
            0 <= k < freq_spec(s).len() ==> (#[trigger] freq_spec(s)[k]).count >= 1,
        chars_of(freq_spec(s)).no_duplicates(),
        sum_counts(freq_spec(s)) == s.len(),
        forall|d: char| chars_of(freq_spec(s)).contains(d) <==> s.contains(d),
        freq_spec(s).len() <= s.len(),
        s.len() > 0 ==> freq_spec(s).len() >= 1,
    decreases s.len(),
{
    if s.len() == 0 {
    } else {
        let pre = s.drop_last();
        lemma_freq_props(pre);
        lemma_bump_props(freq_spec(pre), s.last());
        assert(freq_spec(s) == bump(freq_spec(pre), s.last()));
        assert forall|d: char| chars_of(freq_spec(s)).contains(d) implies s.contains(d) by {
            assert(chars_of(freq_spec(pre)).contains(d) || d == s.last());
            if pre.contains(d) {
                let j = choose|j: int| 0 <= j < pre.len() && pre[j] == d;
                assert(s[j] == d);
            } else {
                assert(d == s.last());
                assert(s[s.len() - 1] == d);
            }
        }
        assert forall|d: char| s.contains(d) implies chars_of(freq_spec(s)).contains(d) by {
            let j = choose|j: int| 0 <= j < s.len() && s[j] == d;
            if j < s.len() - 1 {
                assert(pre[j] == d);
                assert(pre.contains(d));
                assert(chars_of(freq_spec(pre)).contains(d));
            } else {
                assert(d == s.last());
            }
            if d == s.last() {
                assert(chars_of(bump(freq_spec(pre), s.last())).contains(s.last()));
            } else {
                assert(chars_of(freq_spec(pre)).contains(d));
                assert(chars_of(bump(freq_spec(pre), s.last())).contains(d));
            }
        }
    }
}

proof fn lemma_bump_found(s: Seq<HuffmanValue>, c: char, j: int)
    requires
        0 <= j < s.len(),
        s[j].ch == c,
        forall|k: int| 0 <= k < j ==> (#[trigger] s[k]).ch != c,
    ensures
        bump(s, c) == s.update(j, HuffmanValue { ch: c, count: (s[j].count + 1) as usize }),
    decreases j,
{
    if j == 0 {
        assert(bump(s, c) =~= s.update(0, HuffmanValue { ch: c, count: (s[0].count + 1) as usize }));
    } else {
        let rest = s.drop_first();
        assert(forall|k: int| 0 <= k < j - 1 ==> (#[trigger] rest[k]).ch != c);
        lemma_bump_found(rest, c, j - 1);
        assert(bump(s, c) =~= s.update(j, HuffmanValue { ch: c, count: (s[j].count + 1) as usize }));
    }
}

proof fn lemma_bump_absent(s: Seq<HuffmanValue>, c: char)
    requires
        forall|k: int| 0 <= k < s.len() ==> (#[trigger] s[k]).ch != c,
    ensures
        bump(s, c) == s.push(HuffmanValue { ch: c, count: 1 }),
    decreases s.len(),
{
    if s.len() == 0 {
        assert(bump(s, c) =~= s.push(HuffmanValue { ch: c, count: 1 }));
    } else {
        lemma_bump_absent(s.drop_first(), c);
        assert(bump(s, c) =~= s.push(HuffmanValue { ch: c, count: 1 }));
    }
}

proof fn lemma_count_le_sum(s: Seq<HuffmanValue>, j: int)
    requires
        0 <= j < s.len(),
        forall|k: int| 0 <= k < s.len() ==> (#[trigger] s[k]).count >= 1,
    ensures
        s[j].count <= sum_counts(s),
    decreases s.len(),
{
    if j == 0 {
        lemma_sum_counts_nonneg(s.drop_first());
    } else {
        lemma_count_le_sum(s.drop_first(), j - 1);
    }
}

proof fn lemma_sum_counts_nonneg(s: Seq<HuffmanValue>)
    ensures
        sum_counts(s) >= 0,
    decreases s.len(),
{
    if s.len() > 0 {
        lemma_sum_counts_nonneg(s.drop_first());
    }
}

/// Scans the input once and accumulates the occurrence count of each
/// distinct symbol, in order of first appearance.
pub fn count_frequencies(input: &Vec<char>) -> (r: Vec<HuffmanValue>)
    requires
        input@.len() <= 0xFFFF,
    ensures
        r@ == freq_spec(input@),
{
    let mut r: Vec<HuffmanValue> = Vec::new();
    let mut i: usize = 0;
    proof {
        assert(input@.take(0) =~= Seq::<char>::empty());
    }
    while i < input.len()
        invariant
            0 <= i <= input@.len() <= 0xFFFF,
            r@ == freq_spec(input@.take(i as int)),
        decreases input@.len() - i,
    {
        let c = input[i];
        proof {
            lemma_freq_props(input@.take(i as int));
        }
        let mut j: usize = 0;
        while j < r.len() && r[j].ch != c
            invariant
                0 <= j <= r@.len(),
                forall|k: int| 0 <= k < j ==> (#[trigger] r@[k]).ch != c,
            decreases r@.len() - j,
        {
            j = j + 1;
        }
        if j < r.len() {
            proof {
                lemma_count_le_sum(r@, j as int);
                lemma_bump_found(r@, c, j as int);
            }
            let cnt = r[j].count;
            r[j] = HuffmanValue { ch: c, count: cnt + 1 };
        } else {
            proof {
                lemma_bump_absent(r@, c);
            }
            r.push(HuffmanValue { ch: c, count: 1 });
        }
        proof {
            assert(input@.take(i + 1).drop_last() =~= input@.take(i as int));
            assert(input@.take(i + 1).last() == input@[i as int]);
        }
        i = i + 1;
    }
    proof {
        assert(input@.take(input@.len() as int) =~= input@);
    }
    r
}

/// Frequency entries wrapped as leaf nodes, in table order.
pub open spec fn value_nodes(fs: Seq<HuffmanValue>) -> Seq<HuffmanNode> {
    fs.map_values(|v: HuffmanValue| HuffmanNode::Value(v))
}

/// The position at which a node of weight `w` is inserted into a list
/// sorted by descending weight: after every node at least as heavy.
pub open spec fn insert_pos_desc(s: Seq<HuffmanNode>, w: int) -> int
    decreases s.len(),
{
    if s.len() == 0 {
        0
    } else if node_weight(s[0]) < w {
        0
    } else {
        1 + insert_pos_desc(s.drop_first(), w)
    }
}

/// Ordered (descending) insertion of a node into the working list.
pub open spec fn insert_desc(s: Seq<HuffmanNode>, n: HuffmanNode) -> Seq<HuffmanNode> {
    s.insert(insert_pos_desc(s, node_weight(n)), n)
}

proof fn lemma_insert_pos_desc_bounds(s: Seq<HuffmanNode>, w: int)
    ensures
        0 <= insert_pos_desc(s, w) <= s.len(),
        forall|k: int|
            0 <= k < insert_pos_desc(s, w) ==> node_weight(#[trigger] s[k]) >= w,
        insert_pos_desc(s, w) < s.len() ==> node_weight(s[insert_pos_desc(s, w)]) < w,
    decreases s.len(),
{
    if s.len() > 0 && !(node_weight(s[0]) < w) {
        lemma_insert_pos_desc_bounds(s.drop_first(), w);
        let p = insert_pos_desc(s, w);
        assert forall|k: int| 0 <= k < p implies node_weight(#[trigger] s[k]) >= w by {
            if k > 0 {
                assert(s.drop_first()[k - 1] == s[k]);
                assert(node_weight(s.drop_first()[k - 1]) >= w);
            }
        }
        if p < s.len() {
            assert(s.drop_first()[p - 1] == s[p]);
        }
    }
}

/// Descending insertion sort of the working list, inserting the elements
/// in their given order.
pub open spec fn sort_desc_spec(s: Seq<HuffmanNode>) -> Seq<HuffmanNode>
    decreases s.len(),
{
    if s.len() == 0 {
        Seq::empty()
    } else {
        insert_desc(sort_desc_spec(s.drop_last()), s.last())
    }
}

/// One merge: the two lightest nodes (at the tail) become one branch,
/// reinserted at its descending-order position.
pub open spec fn merge_step(s: Seq<HuffmanNode>) -> Seq<HuffmanNode>
    recommends
        s.len() >= 2,
{
    let first = s[s.len() - 1];
    let second = s[s.len() - 2];
    let b = HuffmanNode::Branch(
        Box::new(
            HuffmanBranch {
                t: Box::new(first),
                f: Box::new(second),
                count: (node_weight(first) + node_weight(second)) as usize,
            },
        ),
    );
    insert_desc(s.take(s.len() - 2), b)
}

/// Repeated merging until a single node remains; `fuel` bounds the number
/// of merges and equals the list length wherever this is applied.
pub open spec fn merge_fuel(s: Seq<HuffmanNode>, fuel: nat) -> HuffmanNode
    decreases fuel,
{
    if s.len() == 0 || fuel == 0 {
        HuffmanNode::Empty
    } else if s.len() == 1 {
        s[0]
    } else {
        merge_fuel(merge_step(s), (fuel - 1) as nat)
    }
}

/// The tree the builder produces for the given input.
pub open spec fn build_spec(input: Seq<char>) -> HuffmanNode {
    let ns = sort_desc_spec(value_nodes(freq_spec(input)));
    merge_fuel(ns, ns.len() as nat)
}

/// The total weight of the working list.
pub open spec fn total_weight(s: Seq<HuffmanNode>) -> int
    decreases s.len(),
{
    if s.len() == 0 {
        0
    } else {
        node_weight(s[0]) + total_weight(s.drop_first())
    }
}

/// The leaf symbols of all nodes of the working list, in list order.
pub open spec fn all_syms(s: Seq<HuffmanNode>) -> Seq<char>
    decreases s.len(),
{
    if s.len() == 0 {
        Seq::empty()
    } else {
        syms(s[0]) + all_syms(s.drop_first())
    }
}

/// Every node of the working list is a well-formed tree.
pub open spec fn all_wf(s: Seq<HuffmanNode>) -> bool {
    forall|k: int| 0 <= k < s.len() ==> wf_node(#[trigger] s[k])
}

proof fn lemma_single_node(n: HuffmanNode)
    ensures
        total_weight(seq![n]) == node_weight(n),
        all_syms(seq![n]) == syms(n),
{
    assert(seq![n].drop_first() =~= Seq::<HuffmanNode>::empty());
    assert(total_weight(Seq::<HuffmanNode>::empty()) == 0);
    assert(all_syms(Seq::<HuffmanNode>::empty()) == Seq::<char>::empty());
    assert(seq![n][0] == n);
    assert(all_syms(seq![n]) =~= syms(n));
}

proof fn lemma_total_weight_concat(a: Seq<HuffmanNode>, b: Seq<HuffmanNode>)
    ensures
        total_weight(a + b) == total_weight(a) + total_weight(b),
    decreases a.len(),
{
    if a.len() == 0 {
        assert(a + b =~= b);
    } else {
        assert((a + b).drop_first() =~= a.drop_first() + b);
        assert((a + b)[0] == a[0]);
        lemma_total_weight_concat(a.drop_first(), b);
    }
}

proof fn lemma_all_syms_concat(a: Seq<HuffmanNode>, b: Seq<HuffmanNode>)
    ensures
        all_syms(a + b) == all_syms(a) + all_syms(b),
    decreases a.len(),
{
    if a.len() == 0 {
        assert(a + b =~= b);
        assert(all_syms(a) + all_syms(b) =~= all_syms(b));
    } else {
        assert((a + b).drop_first() =~= a.drop_first() + b);
        assert((a + b)[0] == a[0]);
        lemma_all_syms_concat(a.drop_first(), b);
        assert(all_syms(a + b) =~= all_syms(a) + all_syms(b));
    }
}

proof fn lemma_insert_desc_props(s: Seq<HuffmanNode>, n: HuffmanNode)
    ensures
        insert_desc(s, n).len() == s.len() + 1,
        total_weight(insert_desc(s, n)) == total_weight(s) + node_weight(n),
        all_syms(insert_desc(s, n)).to_multiset() == all_syms(s).to_multiset().add(
            syms(n).to_multiset(),
        ),
        all_wf(s) && wf_node(n) ==> all_wf(insert_desc(s, n)),
{
    let p = insert_pos_desc(s, node_weight(n));
    lemma_insert_pos_desc_bounds(s, node_weight(n));
    let a = s.take(p);
    let b = s.skip(p);
    assert(s =~= a + b);
    assert(insert_desc(s, n) =~= a + seq![n] + b);
    lemma_total_weight_concat(a, b);
    lemma_total_weight_concat(a + seq![n], b);
    lemma_total_weight_concat(a, seq![n]);
    lemma_all_syms_concat(a, b);
    lemma_all_syms_concat(a + seq![n], b);
    lemma_all_syms_concat(a, seq![n]);
    lemma_single_node(n);
    lemma_multiset_commutative(all_syms(a), all_syms(b));
    lemma_multiset_commutative(all_syms(a) + syms(n), all_syms(b));
    lemma_multiset_commutative(all_syms(a), syms(n));
    assert(all_syms(insert_desc(s, n)) == (all_syms(a) + syms(n)) + all_syms(b));
    assert(all_syms(s) == all_syms(a) + all_syms(b));
    assert(all_syms(insert_desc(s, n)).to_multiset() =~= all_syms(s).to_multiset().add(
        syms(n).to_multiset(),
    ));
    if all_wf(s) && wf_node(n) {
        assert forall|k: int| 0 <= k < insert_desc(s, n).len() implies wf_node(
            #[trigger] insert_desc(s, n)[k],
        ) by {
            if k < p {
                assert(insert_desc(s, n)[k] == s[k]);
            } else if k == p {
            } else {
                assert(insert_desc(s, n)[k] == s[k - 1]);
            }
        }
    }
}

proof fn lemma_merge_step_props(s: Seq<HuffmanNode>)
    requires
        s.len() >= 2,
        all_wf(s),
        total_weight(s) <= 0xFFFF,
    ensures
        merge_step(s).len() == s.len() - 1,
        all_wf(merge_step(s)),
        total_weight(merge_step(s)) == total_weight(s),
        all_syms(merge_step(s)).to_multiset() == all_syms(s).to_multiset(),
    decreases s.len(),
{
    let nn = s.len() as int;
    let first = s[nn - 1];
    let second = s[nn - 2];
    let head = s.take(nn - 2);
    let tail = s.skip(nn - 2);
    assert(s =~= head + tail);
    lemma_total_weight_concat(head, tail);
    lemma_all_syms_concat(head, tail);
    assert(tail.len() == 2);
    assert(tail[0] == second && tail[1] == first);
    assert(tail.drop_first() =~= seq![first]);
    lemma_single_node(first);
    assert(total_weight(tail) == node_weight(tail[0]) + total_weight(tail.drop_first()));
    assert(all_syms(tail) == syms(tail[0]) + all_syms(tail.drop_first()));
    assert(seq![first].drop_first() =~= Seq::<HuffmanNode>::empty());
    assert(total_weight(tail) == node_weight(second) + node_weight(first));
    assert(all_syms(tail) =~= syms(second) + syms(first));
    lemma_weight_nonneg_all(s);
    let b = HuffmanNode::Branch(
        Box::new(
            HuffmanBranch {
                t: Box::new(first),
                f: Box::new(second),
                count: (node_weight(first) + node_weight(second)) as usize,
            },
        ),
    );
    assert(wf_node(first) && wf_node(second));
    lemma_weight_nonneg(first);
    lemma_weight_nonneg(second);
    assert(total_weight(head) >= 0) by {
        lemma_tw_nonneg(head);
    }
    assert(node_weight(first) + node_weight(second) <= 0xFFFF);
    assert(wf_node(b));
    assert(node_weight(b) == node_weight(first) + node_weight(second));
    assert(syms(b) == syms(first) + syms(second));
    assert(all_wf(head)) by {
        assert forall|k: int| 0 <= k < head.len() implies wf_node(#[trigger] head[k]) by {
            assert(head[k] == s[k]);
        }
    }
    lemma_insert_desc_props(head, b);
    lemma_multiset_commutative(all_syms(head), all_syms(tail));
    lemma_multiset_commutative(syms(second), syms(first));
    lemma_multiset_commutative(syms(first), syms(second));
    assert(all_syms(merge_step(s)).to_multiset() =~= all_syms(s).to_multiset());
}

proof fn lemma_weight_nonneg(n: HuffmanNode)
    ensures
        node_weight(n) >= 0,
{
}

proof fn lemma_weight_nonneg_all(s: Seq<HuffmanNode>)
    ensures
        forall|k: int| 0 <= k < s.len() ==> node_weight(#[trigger] s[k]) >= 0,
{
}

proof fn lemma_tw_nonneg(s: Seq<HuffmanNode>)
    ensures
        total_weight(s) >= 0,
    decreases s.len(),
{
    if s.len() > 0 {
        lemma_tw_nonneg(s.drop_first());
    }
}

proof fn lemma_node_le_total(s: Seq<HuffmanNode>, j: int)
    requires
        0 <= j < s.len(),
    ensures
        node_weight(s[j]) <= total_weight(s),
    decreases s.len(),
{
    if j == 0 {
        lemma_tw_nonneg(s.drop_first());
    } else {
        lemma_node_le_total(s.drop_first(), j - 1);
        lemma_weight_nonneg(s[0]);
    }
}

/// Merging a non-empty well-formed working list yields one well-formed
/// tree whose weight is the list's total weight and whose leaf symbols are
/// exactly the list's leaf symbols; from two or more nodes the root is a
/// branch.
pub proof fn lemma_merge_fuel_props(s: Seq<HuffmanNode>)
    requires
        s.len() >= 1,
        all_wf(s),
        total_weight(s) <= 0xFFFF,
    ensures
        wf_node(merge_fuel(s, s.len() as nat)),
        node_weight(merge_fuel(s, s.len() as nat)) == total_weight(s),
        syms(merge_fuel(s, s.len() as nat)).to_multiset() == all_syms(s).to_multiset(),
        s.len() >= 2 ==> (merge_fuel(s, s.len() as nat) matches HuffmanNode::Branch(_)),
    decreases s.len(),
{
    if s.len() == 1 {
        assert(merge_fuel(s, 1) == s[0]);
        assert(s =~= seq![s[0]]);
        lemma_single_node(s[0]);
    } else {
        lemma_merge_step_props(s);
        let s2 = merge_step(s);
        assert(s2.len() == s.len() - 1);
        lemma_merge_fuel_props(s2);
        assert(merge_fuel(s, s.len() as nat) == merge_fuel(s2, s2.len() as nat));
        if s.len() == 2 {
            // the single remaining node is the branch just inserted
            assert(s.take(0) =~= Seq::<HuffmanNode>::empty());
            let b = HuffmanNode::Branch(
                Box::new(
                    HuffmanBranch {
                        t: Box::new(s[1]),
                        f: Box::new(s[0]),
                        count: (node_weight(s[1]) + node_weight(s[0])) as usize,
                    },
                ),
            );
            lemma_insert_pos_desc_bounds(s.take(0), node_weight(b));
            assert(s2 =~= seq![b]);
            assert(merge_fuel(s2, 1) == s2[0]);
        }
    }
}

proof fn lemma_sort_desc_props(s: Seq<HuffmanNode>)
    ensures
        sort_desc_spec(s).len() == s.len(),
        total_weight(sort_desc_spec(s)) == total_weight(s),
        all_syms(sort_desc_spec(s)).to_multiset() == all_syms(s).to_multiset(),
        all_wf(s) ==> all_wf(sort_desc_spec(s)),
    decreases s.len(),
{
    if s.len() == 0 {
    } else {
        let pre = s.drop_last();
        lemma_sort_desc_props(pre);
        lemma_insert_desc_props(sort_desc_spec(pre), s.last());
        // relate s to pre.push(last)
        assert(s =~= pre + seq![s.last()]);
        lemma_total_weight_concat(pre, seq![s.last()]);
        lemma_all_syms_concat(pre, seq![s.last()]);
        lemma_single_node(s.last());
        lemma_multiset_commutative(all_syms(pre), syms(s.last()));
        assert(all_wf(pre) || !all_wf(s)) by {
            if all_wf(s) {
                assert forall|k: int| 0 <= k < pre.len() implies wf_node(#[trigger] pre[k]) by {
                    assert(pre[k] == s[k]);
                }
            }
        }
        if all_wf(s) {
            assert(wf_node(s.last()));
        }
    }
}

proof fn lemma_value_nodes_props(fs: Seq<HuffmanValue>)
    ensures
        value_nodes(fs).len() == fs.len(),
        total_weight(value_nodes(fs)) == sum_counts(fs),
        all_syms(value_nodes(fs)) == chars_of(fs),
        (forall|k: int| 0 <= k < fs.len() ==> (#[trigger] fs[k]).count >= 1) ==> all_wf(
            value_nodes(fs),
        ),
    decreases fs.len(),
{
    if fs.len() == 0 {
        assert(all_syms(value_nodes(fs)) =~= chars_of(fs));
    } else {
        lemma_value_nodes_props(fs.drop_first());
        assert(value_nodes(fs).drop_first() =~= value_nodes(fs.drop_first()));
        assert(chars_of(fs).drop_first() =~= chars_of(fs.drop_first()));
        assert(value_nodes(fs)[0] == HuffmanNode::Value(fs[0]));
        assert(all_syms(value_nodes(fs)) =~= chars_of(fs));
        if forall|k: int| 0 <= k < fs.len() ==> (#[trigger] fs[k]).count >= 1 {
            assert forall|k: int| 0 <= k < value_nodes(fs).len() implies wf_node(
                #[trigger] value_nodes(fs)[k],
            ) by {
                assert(value_nodes(fs)[k] == HuffmanNode::Value(fs[k]));
            }
        }
    }
}

/// What the driver and the laws rely on about the built tree: it is
/// well-formed, its root weight is the input length, and its leaves are
/// exactly the distinct symbols of the input, each once.
pub proof fn lemma_build_props(input: Seq<char>)
    requires
        1 <= input.len() <= 0xFFFF,
    ensures
        wf_node(build_spec(input)),
        node_weight(build_spec(input)) == input.len(),
        syms(build_spec(input)).no_duplicates(),
        forall|c: char| syms(build_spec(input)).contains(c) <==> input.contains(c),
        syms(build_spec(input)).len() <= input.len(),
        syms(build_spec(input)).len() >= 2 ==> (build_spec(input) matches HuffmanNode::Branch(_)),
        syms(build_spec(input)).len() >= 1,
{
    let fs = freq_spec(input);
    let ns = sort_desc_spec(value_nodes(fs));
    lemma_freq_props(input);
    lemma_value_nodes_props(fs);
    lemma_sort_desc_props(value_nodes(fs));
    lemma_merge_fuel_props(ns);
    broadcast use vstd::seq_lib::group_to_multiset_ensures;

    let t = build_spec(input);
    let ms = chars_of(fs).to_multiset();
    assert(syms(t).to_multiset() == ms);
    chars_of(fs).lemma_multiset_has_no_duplicates();
    syms(t).lemma_multiset_has_no_duplicates_conv();
    assert(syms(t).no_duplicates());
    assert forall|c: char| syms(t).contains(c) <==> input.contains(c) by {
        assert(syms(t).contains(c) <==> syms(t).to_multiset().count(c) > 0);
        assert(chars_of(fs).contains(c) <==> chars_of(fs).to_multiset().count(c) > 0);
    }
    assert(syms(t).len() == syms(t).to_multiset().len());
    assert(chars_of(fs).len() == chars_of(fs).to_multiset().len());
    assert(syms(t).len() == fs.len());
    assert(ns.len() == fs.len());
    if fs.len() >= 2 {
        assert(t matches HuffmanNode::Branch(_));
    }
}

/// Builds the Huffman tree for a non-empty input: count, sort by
/// descending count, then repeatedly merge the two lightest nodes.
pub fn build_tree(input: &Vec<char>) -> (t: HuffmanNode)
    requires
        1 <= input@.len() <= 0xFFFF,
    ensures
        t == build_spec(input@),
        wf_node(t),
        node_weight(t) == input@.len(),
        syms(t).no_duplicates(),
        forall|c: char| syms(t).contains(c) <==> input@.contains(c),
        syms(t).len() <= input@.len(),
{
    let freqs = count_frequencies(input);
    proof {
        lemma_freq_props(input@);
        lemma_value_nodes_props(freqs@);
        lemma_sort_desc_props(value_nodes(freqs@));
    }
    // wrap the frequency entries as leaf nodes
    let mut nodes: Vec<HuffmanNode> = Vec::new();
    let mut i: usize = 0;
    proof {
        assert(nodes@ =~= value_nodes(freqs@.take(0)));
    }
    while i < freqs.len()
        invariant
            0 <= i <= freqs@.len(),
            nodes@ == value_nodes(freqs@.take(i as int)),
        decreases freqs@.len() - i,
    {
        let v = freqs[i];
        nodes.push(HuffmanNode::Value(v));
        proof {
            assert(nodes@ =~= value_nodes(freqs@.take(i + 1)));
        }
        i = i + 1;
    }
    proof {
        assert(freqs@.take(freqs@.len() as int) =~= freqs@);
    }
    // descending insertion sort
    let ghost ns0 = nodes@;
    let mut sorted: Vec<HuffmanNode> = Vec::new();
    proof {
        assert(ns0.take(0) =~= Seq::<HuffmanNode>::empty());
    }
    let mut k: usize = 0;
    proof {
        assert(ns0.len() <= 0xFFFF);
    }
    while nodes.len() > 0
        invariant
            ns0.len() <= 0xFFFF,
            k + nodes@.len() == ns0.len(),
            nodes@ == ns0.skip(k as int),
            sorted@ == sort_desc_spec(ns0.take(k as int)),
        decreases nodes@.len(),
    {
        let nd = nodes.remove(0);
        proof {
            assert(nd == ns0[k as int]);
            assert(nodes@ =~= ns0.skip(k as int + 1));
        }
        let w = nd.count_sub_branches();
        let p = find_insert_pos(&sorted, w);
        proof {
            assert(ns0.take(k + 1).drop_last() =~= ns0.take(k as int));
            assert(ns0.take(k + 1).last() == ns0[k as int]);
        }
        sorted.insert(p, nd);
        proof {
            assert(sorted@ == sort_desc_spec(ns0.take(k + 1)));
        }
        k = k + 1;
    }
    proof {
        assert(ns0.take(ns0.len() as int) =~= ns0);
        assert(sorted@ == sort_desc_spec(ns0));
    }
    // merge until one node remains
    let ghost start = sorted@;
    proof {
        assert(merge_fuel(sorted@, sorted@.len() as nat) == build_spec(input@));
        assert(total_weight(sorted@) == input@.len());
        assert(sorted@.len() >= 1);
    }
    while sorted.len() > 1
        invariant
            sorted@.len() >= 1,
            all_wf(sorted@),
            total_weight(sorted@) == input@.len(),
            input@.len() <= 0xFFFF,
            merge_fuel(sorted@, sorted@.len() as nat) == build_spec(input@),
        decreases sorted@.len(),
    {
        let ghost s = sorted@;
        proof {
            lemma_merge_step_props(s);
        }
        let first = sorted.pop().unwrap();
        let second = sorted.pop().unwrap();
        proof {
            assert(first == s[s.len() - 1]);
            assert(second == s[s.len() - 2]);
            assert(sorted@ =~= s.take(s.len() - 2));
            lemma_node_le_total(s, s.len() - 1);
            lemma_node_le_total(s, s.len() - 2);
            lemma_weight_nonneg(first);
            lemma_weight_nonneg(second);
        }
        let w1 = first.count_sub_branches();
        let w2 = second.count_sub_branches();
        let count = w1 + w2;
        let b = HuffmanNode::Branch(
            Box::new(HuffmanBranch { t: Box::new(first), f: Box::new(second), count }),
        );
        let p = find_insert_pos(&sorted, count);
        sorted.insert(p, b);
        proof {
            assert(sorted@ == merge_step(s));
            assert(merge_fuel(s, s.len() as nat) == merge_fuel(sorted@, sorted@.len() as nat));
        }
    }
    let t = sorted.pop().unwrap();
    proof {
        assert(t == merge_fuel(sorted@.push(t), 1));
        assert(sorted@.push(t)[0] == t);
        assert(t == build_spec(input@));
        lemma_build_props(input@);
    }
    t
}

/// Finds the descending-order insertion position for weight `w`.
fn find_insert_pos(list: &Vec<HuffmanNode>, w: usize) -> (p: usize)
    ensures
        p as int == insert_pos_desc(list@, w as int),
        p <= list@.len(),
{
    let mut p: usize = 0;
    while p < list.len() && list[p].count_sub_branches() >= w
        invariant
            0 <= p <= list@.len(),
            forall|k: int| 0 <= k < p ==> node_weight(#[trigger] list@[k]) >= w,
        decreases list@.len() - p,
    {
        p = p + 1;
    }
    proof {
        lemma_insert_pos_desc_bounds(list@, w as int);
        let q = insert_pos_desc(list@, w as int);
        if (p as int) < q {
            assert(node_weight(list@[p as int]) >= w);
            assert(p < list@.len());
            assert(node_weight(list@[p as int]) < w);
        }
        if q < (p as int) {
            assert(node_weight(list@[q]) < w);
            assert(node_weight(list@[q]) >= w);
        }
    }
    p
}

/// The low eight bits of a symbol's scalar value, as written on the wire.
pub open spec fn sym_byte(c: char) -> u8 {
    ((c as u32) % 256) as u8
}

/// The symbol block: eight wire bits per symbol, in sequence order.
pub open spec fn sym_bytes(cs: Seq<char>) -> Seq<bool>
    decreases cs.len(),
{
    if cs.len() == 0 {
        Seq::empty()
    } else {
        val_bits(sym_byte(cs[0]) as int, 8) + sym_bytes(cs.drop_first())
    }
}

/// The payload: each input symbol's code, concatenated in input order.
pub open spec fn payload_spec(t: HuffmanNode, s: Seq<char>) -> Seq<bool>
    decreases s.len(),
{
    if s.len() == 0 {
        Seq::empty()
    } else {
        code_of(t, s[0]) + payload_spec(t, s.drop_first())
    }
}

/// Structural framing: leaf count, the leaf symbols in visitation order,
/// then the self-terminating structural bit sequence.
pub open spec fn frame_a_spec(t: HuffmanNode) -> Seq<bool> {
    val_bits(syms(t).len() as int, 16) + sym_bytes(syms(t)) + shape(t)
}

/// One fixed-size code-table record: padding zeros, a terminator bit, the
/// code, then the symbol byte.
pub open spec fn record_bits(code: Seq<bool>, c: char, d: int) -> Seq<bool> {
    Seq::new((d - code.len()) as nat, |i: int| false) + seq![true] + code + val_bits(
        sym_byte(c) as int,
        8,
    )
}

/// The code-table records, in table order.
pub open spec fn records_bits(tbl: Seq<(Seq<bool>, char)>, d: int) -> Seq<bool>
    decreases tbl.len(),
{
    if tbl.len() == 0 {
        Seq::empty()
    } else {
        record_bits(tbl[0].0, tbl[0].1, d) + records_bits(tbl.drop_first(), d)
    }
}

/// Code-table framing: entry count, the maximum depth, then the
/// fixed-size records.
pub open spec fn frame_b_spec(tbl: Seq<(Seq<bool>, char)>, d: int) -> Seq<bool> {
    val_bits(tbl.len() as int, 16) + val_bits(d, 16) + records_bits(tbl, d)
}

/// The framing strategy both ends agree on out of band.
#[derive(Clone, Copy)]
pub enum Strategy {
    TreeShape,
    CodeTable,
}

/// The framing bits the chosen strategy writes for a tree.
pub open spec fn frame_spec(strategy: Strategy, t: HuffmanNode) -> Seq<bool> {
    match strategy {
        Strategy::TreeShape => frame_a_spec(t),
        Strategy::CodeTable => frame_b_spec(paths(t), depth(t)),
    }
}

/// Everything a non-empty input encodes to: framing, the input length,
/// then the payload.
pub open spec fn encode_spec(strategy: Strategy, input: Seq<char>) -> Seq<bool> {
    let t = build_spec(input);
    frame_spec(strategy, t) + val_bits(input.len() as int, 16) + payload_spec(t, input)
}

/// The mathematical view of an executable code table.
pub open spec fn table_view(t: Seq<(Vec<bool>, char)>) -> Seq<(Seq<bool>, char)> {
    t.map_values(|p: (Vec<bool>, char)| (p.0@, p.1))
}

proof fn lemma_sym_bytes_push(cs: Seq<char>, c: char)
    ensures
        sym_bytes(cs.push(c)) == sym_bytes(cs) + val_bits(sym_byte(c) as int, 8),
    decreases cs.len(),
{
    if cs.len() == 0 {
        assert(cs.push(c)[0] == c);
        assert(cs.push(c).drop_first() =~= Seq::<char>::empty());
        assert(sym_bytes(Seq::<char>::empty()) == Seq::<bool>::empty());
        assert(sym_bytes(cs.push(c)) =~= sym_bytes(cs) + val_bits(sym_byte(c) as int, 8));
    } else {
        assert(cs.push(c)[0] == cs[0]);
        assert(cs.push(c).drop_first() =~= cs.drop_first().push(c));
        lemma_sym_bytes_push(cs.drop_first(), c);
        assert(sym_bytes(cs.push(c)) =~= sym_bytes(cs) + val_bits(sym_byte(c) as int, 8));
    }
}

pub proof fn lemma_sym_bytes_len(cs: Seq<char>)
    ensures
        sym_bytes(cs).len() == 8 * cs.len(),
    decreases cs.len(),
{
    if cs.len() > 0 {
        lemma_sym_bytes_len(cs.drop_first());
        lemma_val_bits_len(sym_byte(cs[0]) as int, 8);
    }
}

proof fn lemma_payload_push(t: HuffmanNode, s: Seq<char>, c: char)
    ensures
        payload_spec(t, s.push(c)) == payload_spec(t, s) + code_of(t, c),
    decreases s.len(),
{
    if s.len() == 0 {
        assert(s.push(c)[0] == c);
        assert(s.push(c).drop_first() =~= Seq::<char>::empty());
        assert(payload_spec(t, Seq::<char>::empty()) == Seq::<bool>::empty());
        assert(payload_spec(t, s.push(c)) =~= payload_spec(t, s) + code_of(t, c));
    } else {
        assert(s.push(c)[0] == s[0]);
        assert(s.push(c).drop_first() =~= s.drop_first().push(c));
        lemma_payload_push(t, s.drop_first(), c);
        assert(payload_spec(t, s.push(c)) =~= payload_spec(t, s) + code_of(t, c));
    }
}

proof fn lemma_records_push(tbl: Seq<(Seq<bool>, char)>, e: (Seq<bool>, char), d: int)
    ensures
        records_bits(tbl.push(e), d) == records_bits(tbl, d) + record_bits(e.0, e.1, d),
    decreases tbl.len(),
{
    if tbl.len() == 0 {
        assert(tbl.push(e)[0] == e);
        assert(tbl.push(e).drop_first() =~= Seq::<(Seq<bool>, char)>::empty());
        assert(records_bits(Seq::<(Seq<bool>, char)>::empty(), d) == Seq::<bool>::empty());
        assert(records_bits(tbl.push(e), d) =~= records_bits(tbl, d) + record_bits(e.0, e.1, d));
    } else {
        assert(tbl.push(e)[0] == tbl[0]);
        assert(tbl.push(e).drop_first() =~= tbl.drop_first().push(e));
        lemma_records_push(tbl.drop_first(), e, d);
        assert(records_bits(tbl.push(e), d) =~= records_bits(tbl, d) + record_bits(e.0, e.1, d));
    }
}

/// Every leaf is no deeper than the tree depth, and a well-formed tree has
/// at least one leaf and depth below its leaf count.
pub proof fn lemma_depth_bound(t: HuffmanNode)
    requires
        wf_node(t),
    ensures
        1 <= syms(t).len(),
        0 <= depth(t) <= syms(t).len() - 1,
        forall|j: int| 0 <= j < paths(t).len() ==> (#[trigger] paths(t)[j]).0.len() <= depth(t),
    decreases t,
{
    lemma_paths_len(t);
    match t {
        HuffmanNode::Branch(b) => {
            lemma_depth_bound(*b.t);
            lemma_depth_bound(*b.f);
            lemma_paths_len(*b.t);
            lemma_paths_len(*b.f);
            let la = paths(*b.t).len() as int;
            assert forall|j: int| 0 <= j < paths(t).len() implies (#[trigger] paths(t)[j]).0.len()
                <= depth(t) by {
                if j < la {
                    assert(paths(t)[j].0 == seq![false] + paths(*b.t)[j].0);
                } else {
                    assert(paths(t)[j].0 == seq![true] + paths(*b.f)[j - la].0);
                }
            }
        },
        _ => {},
    }
}

/// Entry `j` of the code table belongs to leaf `j`: it pairs that leaf's
/// symbol with the path leading to it.
pub proof fn lemma_paths_align(t: HuffmanNode)
    requires
        wf_node(t),
        syms(t).no_duplicates(),
    ensures
        paths(t).len() == syms(t).len(),
        forall|j: int|
            0 <= j < paths(t).len() ==> (#[trigger] paths(t)[j]) == (
                code_of(t, syms(t)[j]),
                syms(t)[j],
            ),
    decreases t,
{
    lemma_paths_len(t);
    match t {
        HuffmanNode::Branch(b) => {
            let sa = syms(*b.t);
            let sb = syms(*b.f);
            let la = sa.len() as int;
            assert forall|i: int, j: int| 0 <= i < j < sa.len() implies sa[i] != sa[j] by {
                assert(syms(t)[i] == sa[i]);
                assert(syms(t)[j] == sa[j]);
            }
            assert forall|i: int, j: int| 0 <= i < j < sb.len() implies sb[i] != sb[j] by {
                assert(syms(t)[la + i] == sb[i]);
                assert(syms(t)[la + j] == sb[j]);
            }
            lemma_paths_align(*b.t);
            lemma_paths_align(*b.f);
            lemma_paths_len(*b.t);
            lemma_paths_len(*b.f);
            assert forall|j: int| 0 <= j < paths(t).len() implies (#[trigger] paths(t)[j]) == (
                code_of(t, syms(t)[j]),
                syms(t)[j],
            ) by {
                if j < la {
                    assert(paths(t)[j] == (seq![false] + paths(*b.t)[j].0, paths(*b.t)[j].1));
                    assert(syms(t)[j] == sa[j]);
                    assert(sa.contains(sa[j]));
                } else {
                    assert(paths(t)[j] == (
                        seq![true] + paths(*b.f)[j - la].0,
                        paths(*b.f)[j - la].1,
                    ));
                    assert(syms(t)[j] == sb[j - la]);
                    assert(!sa.contains(sb[j - la])) by {
                        if sa.contains(sb[j - la]) {
                            let i = choose|i: int| 0 <= i < sa.len() && sa[i] == sb[j - la];
                            assert(syms(t)[i] == sb[j - la]);
                            assert(syms(t)[j] == sb[j - la]);
                        }
                    }
                }
            }
        },
        HuffmanNode::Value(v) => {
            assert(syms(t)[0] == v.ch);
        },
        HuffmanNode::Empty => {},
    }
}

/// Walks the tree once, assigning `false` to each left descent and `true`
/// to each right descent; a leaf's accumulated path is its code.
fn assign_codes_rec(
    node: &HuffmanNode,
    prefix: &mut Vec<bool>,
    table: &mut Vec<(Vec<bool>, char)>,
    highest: &mut usize,
)
    requires
        wf_node(*node),
    ensures
        final(prefix)@ == old(prefix)@,
        table_view(final(table)@) == table_view(old(table)@) + paths(*node).map_values(
            |p: (Seq<bool>, char)| (old(prefix)@ + p.0, p.1),
        ),
        *final(highest) as int == int_max(*old(highest) as int, old(prefix)@.len() + depth(*node)),
    decreases *node,
{
    match node {
        HuffmanNode::Branch(b) => {
            let ghost p0 = prefix@;
            let ghost t0 = table@;
            prefix.push(false);
            assign_codes_rec(&b.t, prefix, table, highest);
            let _ = prefix.pop();
            proof {
                assert(prefix@ =~= p0);
            }
            let ghost t1 = table@;
            prefix.push(true);
            assign_codes_rec(&b.f, prefix, table, highest);
            let _ = prefix.pop();
            proof {
                assert(prefix@ =~= p0);
                let fl = |p: (Seq<bool>, char)| (seq![false] + p.0, p.1);
                let fr = |p: (Seq<bool>, char)| (seq![true] + p.0, p.1);
                let g = |p: (Seq<bool>, char)| (p0 + p.0, p.1);
                let gl = |p: (Seq<bool>, char)| (p0.push(false) + p.0, p.1);
                let gr = |p: (Seq<bool>, char)| (p0.push(true) + p.0, p.1);
                assert(table_view(t1) == table_view(t0) + paths(*b.t).map_values(gl));
                assert(table_view(table@) == table_view(t1) + paths(*b.f).map_values(gr));
                assert(paths(*node) == paths(*b.t).map_values(fl) + paths(*b.f).map_values(fr));
                assert(paths(*node).map_values(g) =~~= paths(*b.t).map_values(gl) + paths(
                    *b.f,
                ).map_values(gr)) by {
                    assert forall|j: int| 0 <= j < paths(*node).len() implies paths(
                        *node,
                    ).map_values(g)[j] == (paths(*b.t).map_values(gl) + paths(*b.f).map_values(
                        gr,
                    ))[j] by {
                        let la = paths(*b.t).len() as int;
                        lemma_paths_len(*b.t);
                        lemma_paths_len(*b.f);
                        lemma_paths_len(*node);
                        if j < la {
                            assert(paths(*node)[j] == fl(paths(*b.t)[j]));
                            assert(p0 + (seq![false] + paths(*b.t)[j].0) =~= p0.push(false) + paths(
                                *b.t,
                            )[j].0);
                        } else {
                            assert(paths(*node)[j] == fr(paths(*b.f)[j - la]));
                            assert(p0 + (seq![true] + paths(*b.f)[j - la].0) =~= p0.push(true)
                                + paths(*b.f)[j - la].0);
                        }
                    }
                }
                assert(table_view(table@) =~~= table_view(t0) + paths(*node).map_values(g));
            }
        },
        HuffmanNode::Value(v) => {
            if prefix.len() > *highest {
                *highest = prefix.len();
            }
            table.push((prefix.clone(), v.ch));
            proof {
                let g = |p: (Seq<bool>, char)| (old(prefix)@ + p.0, p.1);
                assert(paths(*node) == seq![(Seq::<bool>::empty(), v.ch)]);
                assert(paths(*node).map_values(g)[0] == (old(prefix)@ + Seq::<bool>::empty(), v.ch));
                assert(old(prefix)@ + Seq::<bool>::empty() =~= old(prefix)@);
                assert(prefix@ == old(prefix)@);
                assert(table_view(table@) =~~= table_view(old(table)@) + paths(*node).map_values(g));
            }
        },
        HuffmanNode::Empty => {
            proof {
                assert(false);
            }
        },
    }
}

/// Assigns every leaf its root-to-leaf code and reports the deepest path
/// length, in one depth-first traversal.
pub fn assign_codes(tree: &HuffmanNode) -> (r: (Vec<(Vec<bool>, char)>, usize))
    requires
        wf_node(*tree),
    ensures
        table_view(r.0@) == paths(*tree),
        r.1 as int == depth(*tree),
{
    let mut prefix: Vec<bool> = Vec::new();
    let mut table: Vec<(Vec<bool>, char)> = Vec::new();
    let mut highest: usize = 0;
    assign_codes_rec(tree, &mut prefix, &mut table, &mut highest);
    proof {
        lemma_depth_bound(*tree);
        let g = |p: (Seq<bool>, char)| (Seq::<bool>::empty() + p.0, p.1);
        assert(table_view(table@) =~~= paths(*tree)) by {
            assert(table_view(Seq::<(Vec<bool>, char)>::empty()) =~= Seq::<(Seq<bool>,
            char)>::empty());
            assert forall|j: int| 0 <= j < paths(*tree).len() implies paths(*tree).map_values(
                g,
            )[j] == paths(*tree)[j] by {
                assert(Seq::<bool>::empty() + paths(*tree)[j].0 =~= paths(*tree)[j].0);
            }
            assert(paths(*tree).map_values(g) =~~= paths(*tree));
        }
    }
    (table, highest)
}

/// Collects the pre-order leaf symbols and structural bits of a tree.
fn collect_shape(node: &HuffmanNode, ordered_characters: &mut Vec<char>, tree_structure: &mut Vec<bool>)
    requires
        wf_node(*node),
    ensures
        final(ordered_characters)@ == old(ordered_characters)@ + syms(*node),
        final(tree_structure)@ == old(tree_structure)@ + shape(*node),
    decreases *node,
{
    match node {
        HuffmanNode::Branch(b) => {
            tree_structure.push(true);
            collect_shape(&b.t, ordered_characters, tree_structure);
            collect_shape(&b.f, ordered_characters, tree_structure);
            proof {
                assert(ordered_characters@ =~= old(ordered_characters)@ + syms(*node));
                assert(tree_structure@ =~= old(tree_structure)@ + shape(*node));
            }
        },
        HuffmanNode::Value(v) => {
            tree_structure.push(false);
            ordered_characters.push(v.ch);
            proof {
                assert(ordered_characters@ =~= old(ordered_characters)@ + syms(*node));
                assert(tree_structure@ =~= old(tree_structure)@ + shape(*node));
            }
        },
        HuffmanNode::Empty => {
            proof {
                assert(false);
            }
        },
    }
}

/// The low wire byte of a symbol.
fn sym_byte_exec(c: char) -> (b: u8)
    ensures
        b == sym_byte(c),
{
    let code_point: u32 = c as u32;
    (code_point % 256) as u8
}

/// Structural (tree-shape) framing: writes the leaf count, the leaf
/// symbols in visitation order, then the self-terminating structural bits.
pub fn tree_struct_encode(output_stream: &mut BitWriter, tree: &HuffmanNode)
    requires
        old(output_stream).wf(),
        wf_node(*tree),
        syms(*tree).len() <= 0xFFFF,
        old(output_stream)@.len() + frame_a_spec(*tree).len() <= usize::MAX,
    ensures
        final(output_stream).wf(),
        final(output_stream)@ == old(output_stream)@ + frame_a_spec(*tree),
{
    let mut ordered_characters: Vec<char> = Vec::new();
    let mut tree_structure: Vec<bool> = Vec::new();
    collect_shape(tree, &mut ordered_characters, &mut tree_structure);
    proof {
        assert(ordered_characters@ =~= syms(*tree));
        assert(tree_structure@ =~= shape(*tree));
        lemma_val_bits_len(syms(*tree).len() as int, 16);
        lemma_sym_bytes_len(syms(*tree));
    }
    let n = ordered_characters.len();
    output_stream.write_u16(n as u16);
    let mut i: usize = 0;
    proof {
        assert(sym_bytes(syms(*tree).take(0)) =~= Seq::<bool>::empty());
        assert(output_stream@ =~= old(output_stream)@ + val_bits(syms(*tree).len() as int, 16)
            + sym_bytes(syms(*tree).take(0)));
    }
    while i < n
        invariant
            output_stream.wf(),
            0 <= i <= n == syms(*tree).len() <= 0xFFFF,
            ordered_characters@ == syms(*tree),
            old(output_stream)@.len() + frame_a_spec(*tree).len() <= usize::MAX,
            frame_a_spec(*tree).len() == 16 + 8 * syms(*tree).len() + shape(*tree).len(),
            output_stream@ == old(output_stream)@ + val_bits(syms(*tree).len() as int, 16)
                + sym_bytes(syms(*tree).take(i as int)),
        decreases n - i,
    {
        proof {
            lemma_sym_bytes_len(syms(*tree).take(i as int));
            lemma_val_bits_len(syms(*tree).len() as int, 16);
        }
        let byte = sym_byte_exec(ordered_characters[i]);
        output_stream.write_u8(byte);
        proof {
            assert(syms(*tree).take(i + 1) =~= syms(*tree).take(i as int).push(
                syms(*tree)[i as int],
            ));
            lemma_sym_bytes_push(syms(*tree).take(i as int), syms(*tree)[i as int]);
            assert(output_stream@ =~= old(output_stream)@ + val_bits(
                syms(*tree).len() as int,
                16,
            ) + sym_bytes(syms(*tree).take(i + 1)));
        }
        i = i + 1;
    }
    proof {
        assert(syms(*tree).take(n as int) =~= syms(*tree));
        lemma_sym_bytes_len(syms(*tree));
    }
    output_stream.write_bits_vec(&tree_structure);
    proof {
        assert(output_stream@ =~= old(output_stream)@ + frame_a_spec(*tree));
    }
}

/// Code-table framing: writes the entry count and maximum depth, then one
/// fixed-size record per table entry.
pub fn hash_map_encode(
    output_stream: &mut BitWriter,
    cache_encode: &Vec<(Vec<bool>, char)>,
    highest_depth: usize,
)
    requires
        old(output_stream).wf(),
        cache_encode@.len() <= 0xFFFF,
        highest_depth <= 0xFFFF,
        forall|k: int|
            0 <= k < cache_encode@.len() ==> (#[trigger] cache_encode@[k]).0@.len()
                <= highest_depth,
        old(output_stream)@.len() + 32 + cache_encode@.len() * (highest_depth + 9) <= usize::MAX,
    ensures
        final(output_stream).wf(),
        final(output_stream)@ == old(output_stream)@ + frame_b_spec(
            table_view(cache_encode@),
            highest_depth as int,
        ),
{
    let ghost tbl = table_view(cache_encode@);
    let ghost d = highest_depth as int;
    proof {
        lemma_val_bits_len(tbl.len() as int, 16);
        lemma_val_bits_len(d, 16);
    }
    output_stream.write_u16(cache_encode.len() as u16);
    output_stream.write_u16(highest_depth as u16);
    let mut i: usize = 0;
    proof {
        assert(records_bits(tbl.take(0), d) =~= Seq::<bool>::empty());
        assert(output_stream@ =~= old(output_stream)@ + val_bits(tbl.len() as int, 16) + val_bits(
            d,
            16,
        ) + records_bits(tbl.take(0), d));
    }
    while i < cache_encode.len()
        invariant
            output_stream.wf(),
            0 <= i <= cache_encode@.len() <= 0xFFFF,
            highest_depth <= 0xFFFF,
            tbl == table_view(cache_encode@),
            d == highest_depth as int,
            forall|k: int|
                0 <= k < cache_encode@.len() ==> (#[trigger] cache_encode@[k]).0@.len()
                    <= highest_depth,
            old(output_stream)@.len() + 32 + cache_encode@.len() * (highest_depth + 9)
                <= usize::MAX,
            output_stream@ == old(output_stream)@ + val_bits(tbl.len() as int, 16) + val_bits(
                d,
                16,
            ) + records_bits(tbl.take(i as int), d),
        decreases cache_encode@.len() - i,
    {
        proof {
            lemma_records_len(tbl.take(i as int), d, highest_depth as int);
            lemma_val_bits_len(tbl.len() as int, 16);
            lemma_val_bits_len(d, 16);
            assert((i + 1) * (d + 9) <= cache_encode@.len() * (d + 9)) by (nonlinear_arith)
                requires
                    0 <= i < cache_encode@.len(),
                    d >= 0,
            ;
            assert(i * (d + 9) + (d + 9) == (i + 1) * (d + 9)) by (nonlinear_arith);
            assert(tbl[i as int] == (cache_encode@[i as int].0@, cache_encode@[i as int].1));
        }
        let ghost before = output_stream@;
        let code = &cache_encode[i].0;
        let code_len = code.len();
        let mut j: usize = 0;
        proof {
            assert(before + Seq::new(0, |q: int| false) =~= before);
        }
        while j < highest_depth - code_len
            invariant
                output_stream.wf(),
                code_len == cache_encode@[i as int].0@.len(),
                0 <= i < cache_encode@.len() <= 0xFFFF,
                code_len <= highest_depth <= 0xFFFF,
                0 <= j <= highest_depth - code_len,
                before.len() + (highest_depth + 9) <= usize::MAX,
                before == old(output_stream)@ + val_bits(tbl.len() as int, 16) + val_bits(d, 16)
                    + records_bits(tbl.take(i as int), d),
                output_stream@ == before + Seq::new(j as nat, |q: int| false),
            decreases highest_depth - code_len - j,
        {
            output_stream.write_bit(false);
            proof {
                assert(output_stream@ =~= before + Seq::new((j + 1) as nat, |q: int| false));
            }
            j = j + 1;
        }
        output_stream.write_bit(true);
        output_stream.write_bits_vec(&cache_encode[i].0);
        let byte = sym_byte_exec(cache_encode[i].1);
        output_stream.write_u8(byte);
        proof {
            let e = tbl[i as int];
            assert(output_stream@ =~= before + record_bits(e.0, e.1, d)) by {
                assert(record_bits(e.0, e.1, d) == Seq::new((d - e.0.len()) as nat, |q: int| false)
                    + seq![true] + e.0 + val_bits(sym_byte(e.1) as int, 8));
                assert(output_stream@ =~= before + (Seq::new(
                    (d - e.0.len()) as nat,
                    |q: int| false,
                ) + seq![true] + e.0 + val_bits(sym_byte(e.1) as int, 8)));
            }
            assert(tbl.take(i + 1) =~= tbl.take(i as int).push(e));
            lemma_records_push(tbl.take(i as int), e, d);
            assert(output_stream@ =~= old(output_stream)@ + val_bits(tbl.len() as int, 16)
                + val_bits(d, 16) + records_bits(tbl.take(i + 1), d));
        }
        i = i + 1;
    }
    proof {
        assert(tbl.take(tbl.len() as int) =~= tbl);
        assert(output_stream@ =~= old(output_stream)@ + frame_b_spec(tbl, d));
    }
}

pub proof fn lemma_records_len(tbl: Seq<(Seq<bool>, char)>, d: int, bound: int)
    requires
        forall|k: int| 0 <= k < tbl.len() ==> (#[trigger] tbl[k]).0.len() <= d,
        0 <= d,
    ensures
        records_bits(tbl, d).len() == tbl.len() * (d + 9),
    decreases tbl.len(),
{
    if tbl.len() == 0 {
    } else {
        assert(forall|k: int|
            0 <= k < tbl.drop_first().len() ==> (#[trigger] tbl.drop_first()[k]).0.len() <= d);
        lemma_records_len(tbl.drop_first(), d, bound);
        lemma_val_bits_len(sym_byte(tbl[0].1) as int, 8);
        assert(tbl[0].0.len() <= d);
        assert(record_bits(tbl[0].0, tbl[0].1, d).len() == d + 9);
        assert(tbl.len() * (d + 9) == (d + 9) + (tbl.len() - 1) * (d + 9)) by (nonlinear_arith);
    }
}

/// Named extension point for a third framing strategy (length-prefixed
/// relative leaf depths); it is not functional and writes nothing.
pub fn branch_length_encode(output_stream: &mut BitWriter, tree: &HuffmanNode, highest_depth: usize)
    ensures
        final(output_stream)@ == old(output_stream)@,
        final(output_stream).wf() == old(output_stream).wf(),
{
    let _ = tree;
    let _ = highest_depth;
}

/// Looks up the table entry of symbol `c`.
fn lookup_code_index(
    table: &Vec<(Vec<bool>, char)>,
    c: char,
    Ghost(t): Ghost<HuffmanNode>,
) -> (j: usize)
    requires
        table_view(table@) == paths(t),
        wf_node(t),
        syms(t).no_duplicates(),
        syms(t).contains(c),
    ensures
        j < table@.len(),
        table@[j as int].0@ == code_of(t, c),
        table@[j as int].1 == c,
{
    proof {
        lemma_paths_align(t);
    }
    let mut j: usize = 0;
    while j < table.len() && table[j].1 != c
        invariant
            0 <= j <= table@.len(),
            forall|k: int| 0 <= k < j ==> (#[trigger] table@[k]).1 != c,
        decreases table@.len() - j,
    {
        j = j + 1;
    }
    proof {
        if j == table@.len() {
            let q = choose|q: int| 0 <= q < syms(t).len() && syms(t)[q] == c;
            assert(paths(t)[q] == (code_of(t, syms(t)[q]), syms(t)[q]));
            assert(table_view(table@)[q].1 == c);
            assert(table@[q].1 == c);
            assert(false);
        }
        assert(table_view(table@)[j as int] == (table@[j as int].0@, table@[j as int].1));
        assert(paths(t)[j as int] == (code_of(t, syms(t)[j as int]), syms(t)[j as int]));
        assert(syms(t)[j as int] == c);
    }
    j
}

/// Encodes the input into the stream: frequency count, tree build, code
/// assignment, framing per the chosen strategy, the input length, then
/// each symbol's code in input order. An empty input writes nothing.
pub fn compress(input: String, output_stream: &mut BitWriter, strategy: Strategy)
    requires
        old(output_stream).wf(),
        input@.len() <= 0xFFFF,
        old(output_stream)@.len() + encode_spec(strategy, input@).len() <= usize::MAX,
    ensures
        final(output_stream).wf(),
        input@.len() == 0 ==> final(output_stream)@ == old(output_stream)@,
        input@.len() >= 1 ==> final(output_stream)@ == old(output_stream)@ + encode_spec(
            strategy,
            input@,
        ),
{
    let n = input.as_str().unicode_len();
    if n == 0 {
        return ;
    }
    let mut chars_vec: Vec<char> = Vec::new();
    let mut i: usize = 0;
    proof {
        assert(chars_vec@ =~= input@.take(0));
    }
    while i < n
        invariant
            0 <= i <= n == input@.len(),
            chars_vec@ == input@.take(i as int),
        decreases n - i,
    {
        let c = input.as_str().get_char(i);
        chars_vec.push(c);
        proof {
            assert(chars_vec@ =~= input@.take(i + 1));
        }
        i = i + 1;
    }
    proof {
        assert(input@.take(n as int) =~= input@);
    }
    let tree = build_tree(&chars_vec);
    let r = assign_codes(&tree);
    let cache_encode = r.0;
    let highest_depth = r.1;
    let ghost t = build_spec(input@);
    proof {
        lemma_depth_bound(t);
        lemma_paths_len(t);
        lemma_paths_align(t);
        assert(encode_spec(strategy, input@) == frame_spec(strategy, t) + val_bits(
            input@.len() as int,
            16,
        ) + payload_spec(t, input@));
        lemma_val_bits_len(input@.len() as int, 16);
    }
    match strategy {
        Strategy::TreeShape => {
            tree_struct_encode(output_stream, &tree);
        },
        Strategy::CodeTable => {
            proof {
                assert forall|k: int| 0 <= k < cache_encode@.len() implies (
                #[trigger] cache_encode@[k]).0@.len() <= highest_depth by {
                    assert(table_view(cache_encode@)[k] == (cache_encode@[k].0@,
                    cache_encode@[k].1));
                    assert(paths(t)[k].0.len() <= depth(t));
                }
                lemma_records_len(paths(t), depth(t), depth(t));
                assert(frame_b_spec(paths(t), depth(t)).len() == 32 + paths(t).len() * (depth(t)
                    + 9)) by {
                    lemma_val_bits_len(paths(t).len() as int, 16);
                    lemma_val_bits_len(depth(t), 16);
                }
            }
            hash_map_encode(output_stream, &cache_encode, highest_depth);
        },
    }
    proof {
        assert(output_stream@ == old(output_stream)@ + frame_spec(strategy, t));
    }
    output_stream.write_u16(n as u16);
    let ghost frame_and_len = old(output_stream)@ + frame_spec(strategy, t) + val_bits(
        input@.len() as int,
        16,
    );
    proof {
        assert(output_stream@ =~= frame_and_len + payload_spec(t, input@.take(0))) by {
            assert(payload_spec(t, input@.take(0)) =~= Seq::<bool>::empty());
        }
    }
    let mut i: usize = 0;
    while i < n
        invariant
            output_stream.wf(),
            0 <= i <= n == input@.len(),
            chars_vec@ == input@,
            t == build_spec(input@),
            wf_node(t),
            syms(t).no_duplicates(),
            forall|c: char| input@.contains(c) ==> syms(t).contains(c),
            table_view(cache_encode@) == paths(t),
            frame_and_len.len() + payload_spec(t, input@).len() <= usize::MAX,
            output_stream@ == frame_and_len + payload_spec(t, input@.take(i as int)),
        decreases n - i,
    {
        let c = chars_vec[i];
        proof {
            assert(input@.contains(input@[i as int]));
            lemma_payload_prefix_len(t, input@, i as int);
        }
        let j = lookup_code_index(&cache_encode, c, Ghost(t));
        output_stream.write_bits_vec(&cache_encode[j].0);
        proof {
            assert(input@.take(i + 1) =~= input@.take(i as int).push(input@[i as int]));
            lemma_payload_push(t, input@.take(i as int), input@[i as int]);
            assert(output_stream@ =~= frame_and_len + payload_spec(t, input@.take(i + 1)));
        }
        i = i + 1;
    }
    proof {
        assert(input@.take(n as int) =~= input@);
        assert(output_stream@ =~= old(output_stream)@ + encode_spec(strategy, input@));
    }
}

/// The payload of a prefix, extended by one code, stays within the whole
/// payload's length.
proof fn lemma_payload_prefix_len(t: HuffmanNode, s: Seq<char>, i: int)
    requires
        0 <= i < s.len(),
    ensures
        payload_spec(t, s.take(i)).len() + code_of(t, s[i]).len() <= payload_spec(t, s).len(),
    decreases s.len(),
{
    lemma_payload_take_step(t, s, i);
    lemma_payload_take_mono(t, s, i + 1);
}

proof fn lemma_payload_take_step(t: HuffmanNode, s: Seq<char>, i: int)
    requires
        0 <= i < s.len(),
    ensures
        payload_spec(t, s.take(i + 1)).len() == payload_spec(t, s.take(i)).len() + code_of(
            t,
            s[i],
        ).len(),
{
    assert(s.take(i + 1) =~= s.take(i).push(s[i]));
    lemma_payload_push(t, s.take(i), s[i]);
}

proof fn lemma_payload_take_mono(t: HuffmanNode, s: Seq<char>, i: int)
    requires
        0 <= i <= s.len(),
    ensures
        payload_spec(t, s.take(i)).len() <= payload_spec(t, s).len(),
    decreases s.len() - i,
{
    if i == s.len() {
        assert(s.take(i) =~= s);
    } else {
        lemma_payload_take_step(t, s, i);
        lemma_payload_take_mono(t, s, i + 1);
    }
}

} // verus!
