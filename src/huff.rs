//! Frequency table over the move-to-front alphabet, Huffman tree with a
//! bounded depth, and the code of each leaf.
//!
//! Ties are broken in one fixed way: the queue of nodes is kept by weight,
//! heaviest first, and the two nodes at its end are merged. Leaves enter it
//! from the highest key down and a node enters after every node of at least
//! its weight, so among equal weights the lowest key is merged first, and a
//! fresh branch before older nodes of the same weight. The node taken first
//! becomes the left child.
use crate::mtf::{values_below, MtfIndex, MtfTransform};
use vstd::prelude::*;

verus! {

/// Longest code, in bits, that the coder hands out.
pub const MAX_HUFFMAN_LEN: usize = 20;

/// Rounds of weight scaling tried before a tree that stays too deep is reported.
pub const MAX_SCALING_ROUNDS: usize = 64;

/// Error of the Huffman coder.
#[derive(Debug, Clone, Copy, PartialEq, Eq, Structural)]
pub enum HuffmanError {
    /// A `Val` symbol lies beyond the end-of-block symbol of its stack.
    OutOfRange,
    /// No tree within the depth bound was found.
    ConstraintViolation,
}

/// Key of a symbol in the frequency table: `RunA` is 0, `RunB` is 1, `Val(i)`
/// is `i + 1`.
pub open spec fn symbol_key(s: MtfIndex) -> int {
    match s {
        MtfIndex::RunA => 0,
        MtfIndex::RunB => 1,
        MtfIndex::Val(i) => i + 1,
    }
}

/// Key of the end-of-block symbol for a stack of `stack_len` bytes.
pub open spec fn eob_key(stack_len: nat) -> int {
    if stack_len < 1 {
        2
    } else {
        stack_len + 1int
    }
}

/// Number of symbols of `syms` with key `k`.
pub open spec fn count_key(syms: Seq<MtfIndex>, k: int) -> nat
    decreases syms.len(),
{
    if syms.len() == 0 {
        0
    } else {
        count_key(syms.drop_last(), k) + if symbol_key(syms.last()) == k {
            1nat
        } else {
            0nat
        }
    }
}

/// Some symbol of `syms` has a key beyond `eob`.
pub open spec fn has_key_beyond(syms: Seq<MtfIndex>, eob: int) -> bool {
    exists|j: int| 0 <= j < syms.len() && symbol_key(syms[j]) > eob
}

/// The frequency table of the symbols `syms` of a stream with a stack of
/// `stack_len` bytes: one entry per key up to the end-of-block key, which
/// counts once.
pub open spec fn frequency_counts(syms: Seq<MtfIndex>, stack_len: nat) -> Seq<usize> {
    Seq::new(
        (eob_key(stack_len) + 1) as nat,
        |k: int|
            if k == eob_key(stack_len) {
                1usize
            } else {
                count_key(syms, k) as usize
            },
    )
}

/// Occurrence counts of the alphabet of a move-to-front stream, by key.
#[derive(Debug)]
pub struct FrequencyTable {
    counts: Vec<usize>,
}

impl View for FrequencyTable {
    type V = Seq<usize>;

    closed spec fn view(&self) -> Seq<usize> {
        self.counts@
    }
}

proof fn lemma_count_key_bound(syms: Seq<MtfIndex>, k: int)
    ensures
        count_key(syms, k) <= syms.len(),
    decreases syms.len(),
{
    if syms.len() > 0 {
        lemma_count_key_bound(syms.drop_last(), k);
    }
}

/// The symbols of an encoded stream all have keys within its alphabet, so its
/// frequency table has one entry per key: `max(stack_len, 1) + 2` entries.
pub proof fn lemma_encoded_alphabet(syms: Seq<MtfIndex>, stack_len: nat)
    requires
        values_below(syms, stack_len),
    ensures
        !has_key_beyond(syms, eob_key(stack_len)),
        eob_key(stack_len) + 1 == if stack_len < 1 {
            3
        } else {
            stack_len + 2
        },
{
    assert forall|j: int| 0 <= j < syms.len() implies symbol_key(syms[j]) <= eob_key(
        stack_len,
    ) by {
        match syms[j] {
            MtfIndex::Val(v) => {
                assert(1 <= v < stack_len);
            },
            _ => {},
        }
    }
}

impl FrequencyTable {
    /// Counts each symbol of the stream under its key, with `RunA` and `RunB`
    /// present even when absent, and the end-of-block symbol, keyed
    /// `max(stack_len, 1) + 1`, counted once whatever stood there. A `Val`
    /// whose key lies beyond the end-of-block key is out of range.
    pub fn build(mtf: &MtfTransform) -> (r: Result<Self, HuffmanError>)
        requires
            mtf@.1.len() + 2 <= usize::MAX,
        ensures
            r is Err <==> has_key_beyond(mtf@.0, eob_key(mtf@.1.len())),
            r is Err ==> r->Err_0 == HuffmanError::OutOfRange,
            r is Ok ==> r->Ok_0@ == frequency_counts(mtf@.0, mtf@.1.len()),
            r is Ok ==> count_sum(r->Ok_0@) <= mtf@.0.len() + 1,
    {
        let num_stack = mtf.num_stack();
        let eob: usize = if num_stack < 1 {
            2
        } else {
            num_stack + 1
        };
        let indices = mtf.indices();
        let ghost syms = mtf@.0;
        let mut counts: Vec<usize> = Vec::new();
        let mut k: usize = 0;
        while k <= eob
            invariant
                eob as int == eob_key(mtf@.1.len()),
                eob < usize::MAX,
                k <= eob + 1,
                counts@.len() == k,
                forall|j: int| 0 <= j < k ==> counts@[j] == 0,
            decreases eob + 1 - k,
        {
            counts.push(0);
            k = k + 1;
        }
        proof {
            lemma_count_sum_zeros(counts@);
        }
        let mut i: usize = 0;
        while i < indices.len()
            invariant
                syms == indices@,
                syms == mtf@.0,
                eob as int == eob_key(mtf@.1.len()),
                eob < usize::MAX,
                i <= syms.len(),
                counts@.len() == eob + 1,
                forall|j: int| 0 <= j <= eob ==> counts@[j] == count_key(syms.take(i as int), j),
                forall|j: int| 0 <= j < i ==> symbol_key(syms[j]) <= eob,
                count_sum(counts@) == i,
            decreases syms.len() - i,
        {
            let key: usize = match indices[i] {
                MtfIndex::RunA => 0,
                MtfIndex::RunB => 1,
                MtfIndex::Val(v) => v as usize + 1,
            };
            if key > eob {
                assert(indices@[i as int] == syms[i as int]);
                assert(symbol_key(syms[i as int]) == key);
                assert(0 <= i < syms.len() && symbol_key(syms[i as int]) > eob);
                assert(has_key_beyond(syms, eob as int));
                return Err(HuffmanError::OutOfRange);
            }
            proof {
                assert(syms.take(i + 1).drop_last() =~= syms.take(i as int));
                lemma_count_key_bound(syms.take(i as int), key as int);
            }
            let c = counts[key];
            proof {
                lemma_count_sum_update(counts@, key as int, (c + 1) as usize);
            }
            counts.set(key, c + 1);
            i = i + 1;
        }
        assert(syms.take(i as int) =~= syms);
        proof {
            lemma_count_sum_update(counts@, eob as int, 1);
            lemma_count_key_bound(syms, eob as int);
        }
        counts.set(eob, 1);
        proof {
            assert forall|j: int| 0 <= j <= eob implies counts@[j] == #[trigger] frequency_counts(
                syms,
                mtf@.1.len(),
            )[j] by {
                lemma_count_key_bound(syms, j);
            }
            assert(counts@ =~= frequency_counts(syms, mtf@.1.len()));
        }
        Ok(FrequencyTable { counts })
    }

    /// Number of entries.
    pub fn len(&self) -> (r: usize)
        ensures
            r == self@.len(),
    {
        self.counts.len()
    }

    /// The counts, by key.
    pub fn counts(&self) -> (r: &Vec<usize>)
        ensures
            r@ == self@,
    {
        &self.counts
    }
}


/// A node of a Huffman tree: a leaf with a symbol, or a branch whose weight is
/// the sum of its children's.
#[derive(Debug, PartialEq, Eq)]
pub struct Node {
    pub left: Option<Box<Node>>,
    pub right: Option<Box<Node>>,
    pub freq: usize,
    pub symbol: Option<usize>,
}

impl Node {
    /// Number of nodes on the longest path from this node down to a leaf,
    /// the leaf included.
    pub open spec fn depth(self) -> nat
        decreases self,
    {
        match self.left {
            None => match self.right {
                None => 1,
                Some(r) => 1 + r.depth(),
            },
            Some(l) => match self.right {
                None => 1 + l.depth(),
                Some(r) => 1 + if l.depth() >= r.depth() {
                    l.depth()
                } else {
                    r.depth()
                },
            },
        }
    }

    /// The node has no children.
    pub open spec fn is_leaf(self) -> bool {
        self.left is None && self.right is None
    }
}

/// A leaf for `symbol` with weight `freq`.
pub open spec fn leaf(freq: usize, symbol: usize) -> Node {
    Node { left: None, right: None, freq, symbol: Some(symbol) }
}

/// The branch over `l` and `r`.
pub open spec fn branch(l: Node, r: Node) -> Node {
    Node {
        left: Some(Box::new(l)),
        right: Some(Box::new(r)),
        freq: (l.freq + r.freq) as usize,
        symbol: None,
    }
}

/// Where a node of weight `f` enters the queue: before the first node that
/// weighs less, so that among equal weights the newest leaves last.
pub open spec fn insert_pos(queue: Seq<Node>, f: usize) -> int
    decreases queue.len(),
{
    if queue.len() == 0 {
        0
    } else if queue[0].freq < f {
        0
    } else {
        1 + insert_pos(queue.drop_first(), f)
    }
}

/// `queue` with `n` entered.
pub open spec fn enqueue(queue: Seq<Node>, n: Node) -> Seq<Node> {
    queue.insert(insert_pos(queue, n.freq), n)
}

/// The queue of leaves for the keys from `j` on, entered from the highest
/// key down, so that the queue's end holds the lightest leaf of lowest key.
pub open spec fn leaf_queue(counts: Seq<usize>, j: nat) -> Seq<Node>
    decreases counts.len() - j,
{
    if j >= counts.len() {
        Seq::empty()
    } else {
        enqueue(leaf_queue(counts, j + 1), leaf(counts[j as int], j as int as usize))
    }
}

/// Repeatedly replaces the two nodes at the end of the queue, the last one
/// first, by their branch, until one node is left.
pub open spec fn merge_queue(queue: Seq<Node>) -> Seq<Node>
    decreases queue.len(),
    via merge_queue_decreases
{
    if queue.len() <= 1 {
        queue
    } else {
        let n = queue.len();
        merge_queue(enqueue(queue.take(n - 2), branch(queue[n - 1], queue[n - 2])))
    }
}

/// The Huffman tree of the weights `counts`, by key.
pub open spec fn huffman_tree(counts: Seq<usize>) -> Node {
    merge_queue(leaf_queue(counts, 0))[0]
}

#[via_fn]
proof fn merge_queue_decreases(queue: Seq<Node>) {
    if queue.len() > 1 {
        let n = queue.len();
        lemma_insert_pos(queue.take(n - 2), branch(queue[n - 1], queue[n - 2]).freq);
    }
}

/// Total weight of the nodes of a queue.
pub open spec fn weight_sum(q: Seq<Node>) -> int
    decreases q.len(),
{
    if q.len() == 0 {
        0
    } else {
        weight_sum(q.drop_last()) + q.last().freq
    }
}

/// Total of the weights `c`.
pub open spec fn count_sum(c: Seq<usize>) -> int
    decreases c.len(),
{
    if c.len() == 0 {
        0
    } else {
        c[0] + count_sum(c.drop_first())
    }
}

proof fn lemma_weight_sum_concat(a: Seq<Node>, b: Seq<Node>)
    ensures
        weight_sum(a + b) == weight_sum(a) + weight_sum(b),
    decreases b.len(),
{
    if b.len() == 0 {
        assert(a + b =~= a);
    } else {
        lemma_weight_sum_concat(a, b.drop_last());
        assert((a + b).drop_last() =~= a + b.drop_last());
    }
}

proof fn lemma_weight_sum_nonneg(q: Seq<Node>)
    ensures
        weight_sum(q) >= 0,
    decreases q.len(),
{
    if q.len() > 0 {
        lemma_weight_sum_nonneg(q.drop_last());
    }
}

proof fn lemma_weight_sum_enqueue(q: Seq<Node>, n: Node)
    ensures
        weight_sum(enqueue(q, n)) == weight_sum(q) + n.freq,
{
    let p = insert_pos(q, n.freq);
    lemma_insert_pos(q, n.freq);
    assert(enqueue(q, n) =~= q.take(p) + seq![n] + q.skip(p));
    assert(q =~= q.take(p) + q.skip(p));
    assert(seq![n].drop_last() =~= Seq::<Node>::empty());
    assert(weight_sum(seq![n]) == weight_sum(Seq::<Node>::empty()) + n.freq);
    lemma_weight_sum_concat(q.take(p) + seq![n], q.skip(p));
    lemma_weight_sum_concat(q.take(p), seq![n]);
    lemma_weight_sum_concat(q.take(p), q.skip(p));
}

proof fn lemma_weight_sum_last_two(q: Seq<Node>)
    requires
        q.len() >= 2,
    ensures
        weight_sum(q) == weight_sum(q.take(q.len() - 2)) + q[q.len() - 1].freq + q[q.len()
            - 2].freq,
        weight_sum(q.take(q.len() - 2)) >= 0,
{
    let n = q.len();
    assert(q.drop_last() =~= q.take(n - 1));
    assert(q.take(n - 1).drop_last() =~= q.take(n - 2));
    assert(weight_sum(q) == weight_sum(q.take(n - 1)) + q[n - 1].freq);
    assert(q.take(n - 1).last() == q[n - 2]);
    assert(weight_sum(q.take(n - 1)) == weight_sum(q.take(n - 2)) + q[n - 2].freq);
    lemma_weight_sum_nonneg(q.take(n - 2));
}

proof fn lemma_leaf_queue_sum(c: Seq<usize>, j: nat)
    requires
        j <= c.len(),
    ensures
        weight_sum(leaf_queue(c, j)) == count_sum(c.skip(j as int)),
    decreases c.len() - j,
{
    if j < c.len() {
        lemma_leaf_queue_sum(c, j + 1);
        lemma_weight_sum_enqueue(leaf_queue(c, j + 1), leaf(c[j as int], j as int as usize));
        assert(c.skip(j as int).drop_first() =~= c.skip(j + 1int));
    } else {
        assert(c.skip(j as int) =~= Seq::<usize>::empty());
    }
}

proof fn lemma_count_sum_update(c: Seq<usize>, k: int, x: usize)
    requires
        0 <= k < c.len(),
    ensures
        count_sum(c.update(k, x)) == count_sum(c) - c[k] + x,
    decreases c.len(),
{
    if k == 0 {
        assert(c.update(k, x).drop_first() =~= c.drop_first());
    } else {
        lemma_count_sum_update(c.drop_first(), k - 1, x);
        assert(c.update(k, x).drop_first() =~= c.drop_first().update(k - 1, x));
    }
}

proof fn lemma_count_sum_zeros(c: Seq<usize>)
    requires
        forall|j: int| 0 <= j < c.len() ==> c[j] == 0,
    ensures
        count_sum(c) == 0,
    decreases c.len(),
{
    if c.len() > 0 {
        lemma_count_sum_zeros(c.drop_first());
    }
}

proof fn lemma_count_sum_nonneg(c: Seq<usize>)
    ensures
        count_sum(c) >= 0,
    decreases c.len(),
{
    if c.len() > 0 {
        lemma_count_sum_nonneg(c.drop_first());
    }
}

proof fn lemma_count_sum_scaled(c: Seq<usize>)
    ensures
        2 * count_sum(scaled(c)) <= 2 * c.len() + count_sum(c),
    decreases c.len(),
{
    if c.len() > 0 {
        lemma_count_sum_scaled(c.drop_first());
        assert(scaled(c).drop_first() =~= scaled(c.drop_first()));
    }
}

proof fn lemma_insert_pos(queue: Seq<Node>, f: usize)
    ensures
        0 <= insert_pos(queue, f) <= queue.len(),
    decreases queue.len(),
{
    if queue.len() > 0 {
        lemma_insert_pos(queue.drop_first(), f);
    }
}

proof fn lemma_leaf_queue_len(counts: Seq<usize>, j: nat)
    requires
        j <= counts.len(),
    ensures
        leaf_queue(counts, j).len() == counts.len() - j,
    decreases counts.len() - j,
{
    if j < counts.len() {
        lemma_leaf_queue_len(counts, j + 1);
        lemma_insert_pos(leaf_queue(counts, j + 1), counts[j as int]);
    }
}

proof fn lemma_merge_queue_len(queue: Seq<Node>)
    requires
        queue.len() >= 1,
    ensures
        merge_queue(queue).len() == 1,
    decreases queue.len(),
{
    if queue.len() > 1 {
        let n = queue.len();
        let b = branch(queue[n - 1], queue[n - 2]);
        lemma_insert_pos(queue.take(n - 2), b.freq);
        lemma_merge_queue_len(enqueue(queue.take(n - 2), b));
    }
}

impl Node {
    /// A leaf.
    pub fn new_leaf(freq: usize, symbol: Option<usize>) -> (r: Self)
        ensures
            r == (Node { left: None, right: None, freq, symbol }),
    {
        Self { left: None, right: None, freq, symbol }
    }

    /// The branch over `left` and `right`; its weight is theirs summed.
    pub fn new_branch(left: Self, right: Self) -> (r: Self)
        requires
            left.freq + right.freq <= usize::MAX,
        ensures
            r == branch(left, right),
            r.freq == left.freq + right.freq,
    {
        let freq = left.freq + right.freq;
        Self { left: Some(Box::new(left)), right: Some(Box::new(right)), freq, symbol: None }
    }

    /// The depth of the tree under this node, held at `usize::MAX`.
    pub fn get_depth(&self) -> (r: usize)
        ensures
            r == if self.depth() > usize::MAX {
                usize::MAX as nat
            } else {
                self.depth()
            },
        decreases self,
    {
        match &self.left {
            None => match &self.right {
                None => 1,
                Some(right) => saturating_succ(right.get_depth()),
            },
            Some(left) => match &self.right {
                None => saturating_succ(left.get_depth()),
                Some(right) => {
                    let l = left.get_depth();
                    let r = right.get_depth();
                    saturating_succ(
                        if l >= r {
                            l
                        } else {
                            r
                        },
                    )
                },
            },
        }
    }
}

/// `d + 1`, held at `usize::MAX`.
fn saturating_succ(d: usize) -> (r: usize)
    ensures
        r == if d == usize::MAX {
            usize::MAX as int
        } else {
            d + 1
        },
{
    if d == usize::MAX {
        d
    } else {
        d + 1
    }
}

/// Enters `n` into the queue.
fn enqueue_node(queue: &mut Vec<Node>, n: Node)
    ensures
        final(queue)@ == enqueue(old(queue)@, n),
{
    let f = n.freq;
    let mut p: usize = 0;
    let ghost q = queue@;
    assert(q.skip(0) =~= q);
    while p < queue.len() && queue[p].freq >= f
        invariant
            q == queue@,
            p <= q.len(),
            insert_pos(q, f) == p + insert_pos(q.skip(p as int), f),
        decreases q.len() - p,
    {
        assert(q.skip(p as int).drop_first() =~= q.skip(p + 1));
        p = p + 1;
    }
    queue.insert(p, n);
}

impl HuffmanEncoder {
    /// The Huffman tree of the weights `counts`: one leaf per key, the two
    /// nodes at the end of the weight-ordered queue merged until one is left.
    fn build_tree(counts: &Vec<usize>) -> (r: Node)
        requires
            counts@.len() >= 1,
            count_sum(counts@) <= usize::MAX,
        ensures
            r == huffman_tree(counts@),
    {
        let mut queue: Vec<Node> = Vec::new();
        let mut j: usize = counts.len();
        while j > 0
            invariant
                j <= counts@.len(),
                queue@ == leaf_queue(counts@, j as nat),
            decreases j,
        {
            j = j - 1;
            let n = Node::new_leaf(counts[j], Some(j));
            enqueue_node(&mut queue, n);
        }
        proof {
            lemma_leaf_queue_len(counts@, 0);
            lemma_leaf_queue_sum(counts@, 0);
            assert(counts@.skip(0) =~= counts@);
        }
        let ghost start = queue@;
        while queue.len() > 1
            invariant
                queue@.len() >= 1,
                merge_queue(queue@) == merge_queue(start),
                weight_sum(queue@) <= usize::MAX,
            decreases queue@.len(),
        {
            let ghost q = queue@;
            let left = queue.pop().unwrap();
            let right = queue.pop().unwrap();
            assert(queue@ =~= q.take(q.len() - 2));
            proof {
                lemma_weight_sum_last_two(q);
            }
            let b = Node::new_branch(left, right);
            proof {
                lemma_insert_pos(queue@, b.freq);
                lemma_weight_sum_enqueue(queue@, b);
            }
            enqueue_node(&mut queue, b);
        }
        queue.pop().unwrap()
    }
}

/// The Huffman coder of one block: its tree and the code of each leaf.
pub struct HuffmanEncoder {
    root: Option<Node>,
    code_table: Vec<(Option<usize>, Vec<bool>)>,
}


impl View for HuffmanEncoder {
    type V = (Option<Node>, Seq<(Option<usize>, Seq<bool>)>);

    closed spec fn view(&self) -> (Option<Node>, Seq<(Option<usize>, Seq<bool>)>) {
        (self.root, entries_view(self.code_table@))
    }
}

/// The bit views of code table entries.
pub open spec fn entries_view(t: Seq<(Option<usize>, Vec<bool>)>) -> Seq<(Option<usize>, Seq<bool>)> {
    t.map_values(|e: (Option<usize>, Vec<bool>)| (e.0, e.1@))
}

/// The codes of the leaves under `n`, in depth-first order, left before
/// right, each the path from `n` (`false` for left, `true` for right) after
/// `prefix`.
pub open spec fn codes_from(n: Node, prefix: Seq<bool>) -> Seq<(Option<usize>, Seq<bool>)>
    decreases n,
{
    match n.left {
        None => match n.right {
            None => seq![(n.symbol, prefix)],
            Some(r) => codes_from(*r, prefix.push(true)),
        },
        Some(l) => match n.right {
            None => codes_from(*l, prefix.push(false)),
            Some(r) => codes_from(*l, prefix.push(false)) + codes_from(*r, prefix.push(true)),
        },
    }
}

/// The code table of a tree; a lone leaf gets the one-bit code `0`.
pub open spec fn code_table_of(root: Node) -> Seq<(Option<usize>, Seq<bool>)> {
    if root.is_leaf() {
        seq![(root.symbol, seq![false])]
    } else {
        codes_from(root, Seq::empty())
    }
}

/// `a` is a prefix of `b`.
pub open spec fn is_prefix_of(a: Seq<bool>, b: Seq<bool>) -> bool {
    &&& a.len() <= b.len()
    &&& forall|k: int| 0 <= k < a.len() ==> a[k] == b[k]
}

/// No code of the table is a prefix of the code of another entry.
pub open spec fn prefix_free(t: Seq<(Option<usize>, Seq<bool>)>) -> bool {
    forall|i: int, j: int|
        0 <= i < t.len() && 0 <= j < t.len() && i != j ==> !is_prefix_of(t[i].1, t[j].1)
}

/// Scaled weight: half the weight plus one, which lifts a zero weight to one.
pub open spec fn scale(c: usize) -> usize {
    (1 + c / 2) as usize
}

/// Every weight scaled.
pub open spec fn scaled(counts: Seq<usize>) -> Seq<usize> {
    counts.map_values(|c: usize| scale(c))
}

/// The weights from which the tree is built: while the Huffman tree is
/// deeper than the bound, and for at most `rounds` rounds, the weights are
/// scaled.
pub open spec fn limited_counts(counts: Seq<usize>, rounds: nat) -> Seq<usize>
    decreases rounds,
{
    if rounds == 0 || huffman_tree(counts).depth() <= MAX_HUFFMAN_LEN {
        counts
    } else {
        limited_counts(scaled(counts), (rounds - 1) as nat)
    }
}

proof fn lemma_codes_from(n: Node, p: Seq<bool>)
    ensures
        prefix_free(codes_from(n, p)),
        forall|i: int|
            0 <= i < codes_from(n, p).len() ==> is_prefix_of(p, (#[trigger] codes_from(n, p)[i]).1)
                && codes_from(n, p)[i].1.len() <= p.len() + n.depth() - 1,
        !n.is_leaf() ==> forall|i: int|
            0 <= i < codes_from(n, p).len() ==> (#[trigger] codes_from(n, p)[i]).1.len() > p.len(),
    decreases n,
{
    let c = codes_from(n, p);
    match n.left {
        None => match n.right {
            None => {},
            Some(r) => {
                lemma_codes_from(*r, p.push(true));
                lemma_prefix_push(p, true, c);
            },
        },
        Some(l) => match n.right {
            None => {
                lemma_codes_from(*l, p.push(false));
                lemma_prefix_push(p, false, c);
            },
            Some(r) => {
                let a = codes_from(*l, p.push(false));
                let b = codes_from(*r, p.push(true));
                lemma_codes_from(*l, p.push(false));
                lemma_codes_from(*r, p.push(true));
                lemma_prefix_push(p, false, a);
                lemma_prefix_push(p, true, b);
                assert forall|i: int|
                    0 <= i < c.len() implies is_prefix_of(p, (#[trigger] c[i]).1) && c[i].1.len()
                    <= p.len() + n.depth() - 1 && c[i].1.len() > p.len() by {
                    if i < a.len() {
                        assert(c[i] == a[i]);
                    } else {
                        assert(c[i] == b[i - a.len()]);
                    }
                }
                assert forall|i: int, j: int|
                    0 <= i < c.len() && 0 <= j < c.len() && i != j implies !is_prefix_of(
                    c[i].1,
                    c[j].1,
                ) by {
                    if i < a.len() && j < a.len() {
                        assert(c[i] == a[i] && c[j] == a[j]);
                    } else if i >= a.len() && j >= a.len() {
                        assert(c[i] == b[i - a.len()] && c[j] == b[j - a.len()]);
                    } else if i < a.len() {
                        assert(c[i] == a[i] && c[j] == b[j - a.len()]);
                        assert(c[i].1[p.len() as int] == false);
                        assert(c[j].1[p.len() as int] == true);
                    } else {
                        assert(c[i] == b[i - a.len()] && c[j] == a[j]);
                        assert(c[i].1[p.len() as int] == true);
                        assert(c[j].1[p.len() as int] == false);
                    }
                }
            },
        },
    }
}

/// Codes that extend `p.push(b)` extend `p` and hold `b` after it.
proof fn lemma_prefix_push(p: Seq<bool>, b: bool, t: Seq<(Option<usize>, Seq<bool>)>)
    requires
        forall|i: int| 0 <= i < t.len() ==> is_prefix_of(p.push(b), (#[trigger] t[i]).1),
    ensures
        forall|i: int|
            0 <= i < t.len() ==> is_prefix_of(p, (#[trigger] t[i]).1) && t[i].1[p.len() as int]
                == b && t[i].1.len() > p.len(),
{
    assert forall|i: int| 0 <= i < t.len() implies is_prefix_of(p, (#[trigger] t[i]).1)
        && t[i].1[p.len() as int] == b && t[i].1.len() > p.len() by {
        assert(is_prefix_of(p.push(b), t[i].1));
        assert forall|k: int| 0 <= k < p.len() implies p[k] == t[i].1[k] by {
            assert(p.push(b)[k] == p[k]);
        }
        assert(p.push(b)[p.len() as int] == b);
    }
}

/// No code of a tree's code table is a prefix of another entry's code.
pub proof fn lemma_code_table_prefix_free(root: Node)
    ensures
        prefix_free(code_table_of(root)),
{
    if !root.is_leaf() {
        lemma_codes_from(root, Seq::empty());
    }
}

/// Every code of a tree no deeper than the bound is at most the bound long.
pub proof fn lemma_code_lengths(root: Node)
    requires
        root.depth() <= MAX_HUFFMAN_LEN,
    ensures
        forall|i: int|
            0 <= i < code_table_of(root).len() ==> (#[trigger] code_table_of(root)[i]).1.len()
                <= MAX_HUFFMAN_LEN,
{
    if !root.is_leaf() {
        lemma_codes_from(root, Seq::empty());
    }
}

/// A copy of a code.
fn copy_code(code: &Vec<bool>) -> (r: Vec<bool>)
    ensures
        r@ == code@,
{
    let mut r: Vec<bool> = Vec::new();
    let mut i: usize = 0;
    while i < code.len()
        invariant
            i <= code.len(),
            r@ == code@.take(i as int),
        decreases code.len() - i,
    {
        r.push(code[i]);
        assert(code@.take(i + 1) =~= code@.take(i as int).push(code@[i as int]));
        i = i + 1;
    }
    assert(code@.take(i as int) =~= code@);
    r
}

/// Every weight scaled.
fn scale_counts(counts: &Vec<usize>) -> (r: Vec<usize>)
    ensures
        r@ == scaled(counts@),
{
    let mut r: Vec<usize> = Vec::new();
    let mut i: usize = 0;
    while i < counts.len()
        invariant
            i <= counts.len(),
            r@ == scaled(counts@).take(i as int),
        decreases counts.len() - i,
    {
        r.push(1 + counts[i] / 2);
        assert(scaled(counts@).take(i + 1) =~= scaled(counts@).take(i as int).push(
            scale(counts@[i as int]),
        ));
        i = i + 1;
    }
    assert(scaled(counts@).take(i as int) =~= scaled(counts@));
    r
}

impl HuffmanEncoder {
    /// Builds the coder of a stream: the frequency table of its symbols, the
    /// Huffman tree of those weights, scaled while the tree is deeper than
    /// the bound, and the code of each leaf. A symbol outside the alphabet is
    /// out of range; a tree that stays too deep is a constraint violation.
    pub fn new(mtf_encode: &MtfTransform) -> (r: Result<Self, HuffmanError>)
        requires
            mtf_encode@.0.len() < usize::MAX,
            mtf_encode@.1.len() + 3 <= usize::MAX / 2,
        ensures
            r is Err && r->Err_0 == HuffmanError::OutOfRange <==> has_key_beyond(
                mtf_encode@.0,
                eob_key(mtf_encode@.1.len()),
            ),
            !has_key_beyond(mtf_encode@.0, eob_key(mtf_encode@.1.len())) ==> {
                let root = huffman_tree(
                    limited_counts(
                        frequency_counts(mtf_encode@.0, mtf_encode@.1.len()),
                        MAX_SCALING_ROUNDS as nat,
                    ),
                );
                &&& r is Err ==> r->Err_0 == HuffmanError::ConstraintViolation && root.depth()
                    > MAX_HUFFMAN_LEN
                &&& r is Ok ==> root.depth() <= MAX_HUFFMAN_LEN && r->Ok_0@ == (
                    Some(root),
                    code_table_of(root),
                )
            },
            r is Ok ==> prefix_free(r->Ok_0@.1) && forall|i: int|
                0 <= i < r->Ok_0@.1.len() ==> (#[trigger] r->Ok_0@.1[i]).1.len()
                    <= MAX_HUFFMAN_LEN,
    {
        let table = FrequencyTable::build(mtf_encode)?;
        let ghost counts0 = table@;
        let mut counts = copy_counts(table.counts());
        let ghost bound: int = if count_sum(counts0) >= 2 * counts0.len() {
            count_sum(counts0)
        } else {
            2 * counts0.len() as int
        };
        let mut root = Self::build_tree(&counts);
        let mut round: usize = 0;
        while round < MAX_SCALING_ROUNDS && root.get_depth() > MAX_HUFFMAN_LEN
            invariant
                round <= MAX_SCALING_ROUNDS,
                counts@.len() == counts0.len(),
                counts0.len() >= 1,
                2 * counts0.len() <= bound <= usize::MAX,
                count_sum(counts@) <= bound,
                root == huffman_tree(counts@),
                limited_counts(counts0, MAX_SCALING_ROUNDS as nat) == limited_counts(
                    counts@,
                    (MAX_SCALING_ROUNDS - round) as nat,
                ),
            decreases MAX_SCALING_ROUNDS - round,
        {
            proof {
                lemma_count_sum_scaled(counts@);
            }
            counts = scale_counts(&counts);
            root = Self::build_tree(&counts);
            round = round + 1;
        }
        proof {
            assert(limited_counts(counts0, MAX_SCALING_ROUNDS as nat) == counts@);
            lemma_code_table_prefix_free(root);
        }
        if root.get_depth() > MAX_HUFFMAN_LEN {
            return Err(HuffmanError::ConstraintViolation);
        }
        proof {
            lemma_code_lengths(root);
        }
        let mut code_table: Vec<(Option<usize>, Vec<bool>)> = Vec::new();
        if root.left.is_none() && root.right.is_none() {
            let mut code: Vec<bool> = Vec::new();
            code.push(false);
            code_table.push((root.symbol, code));
            assert(entries_view(code_table@) =~= code_table_of(root));
        } else {
            let mut cur_sym_code: Vec<bool> = Vec::new();
            Self::get_codes(&root, &mut cur_sym_code, &mut code_table);
            assert(entries_view(code_table@) =~= code_table_of(root));
        }
        Ok(Self { root: Some(root), code_table })
    }

    /// Appends the codes of the leaves under `node`, each the path after
    /// `current_symbol_code`, in depth-first order, left before right.
    fn get_codes(
        node: &Node,
        current_symbol_code: &mut Vec<bool>,
        code_table: &mut Vec<(Option<usize>, Vec<bool>)>,
    )
        ensures
            entries_view(final(code_table)@) == entries_view(old(code_table)@) + codes_from(
                *node,
                old(current_symbol_code)@,
            ),
        decreases node,
    {
        let ghost t0 = entries_view(code_table@);
        let ghost p = current_symbol_code@;
        match &node.left {
            None => match &node.right {
                None => {
                    let code = copy_code(current_symbol_code);
                    code_table.push((node.symbol, code));
                    assert(entries_view(code_table@) =~= t0 + seq![(node.symbol, p)]);
                },
                Some(right) => {
                    current_symbol_code.push(true);
                    Self::get_codes(right, current_symbol_code, code_table);
                },
            },
            Some(left) => match &node.right {
                None => {
                    current_symbol_code.push(false);
                    Self::get_codes(left, current_symbol_code, code_table);
                },
                Some(right) => {
                    let mut current_symbol_code_left = copy_code(current_symbol_code);
                    current_symbol_code_left.push(false);
                    current_symbol_code.push(true);
                    Self::get_codes(left, &mut current_symbol_code_left, code_table);
                    Self::get_codes(right, current_symbol_code, code_table);
                    assert(entries_view(code_table@) =~= t0 + codes_from(*node, p));
                },
            },
        }
    }

    /// The coder of nothing: no tree and no codes.
    pub fn empty() -> (r: Self)
        ensures
            r@ == (None::<Node>, Seq::<(Option<usize>, Seq<bool>)>::empty()),
    {
        let code_table: Vec<(Option<usize>, Vec<bool>)> = Vec::new();
        assert(entries_view(code_table@) =~= Seq::<(Option<usize>, Seq<bool>)>::empty());
        Self { root: None, code_table }
    }

    /// The tree.
    pub fn root(&self) -> (r: &Option<Node>)
        ensures
            *r == self@.0,
    {
        &self.root
    }

    /// The code of each leaf, in depth-first order.
    pub fn code_table(&self) -> (r: &Vec<(Option<usize>, Vec<bool>)>)
        ensures
            entries_view(r@) == self@.1,
    {
        &self.code_table
    }
}

/// A copy of the weights.
fn copy_counts(counts: &Vec<usize>) -> (r: Vec<usize>)
    ensures
        r@ == counts@,
{
    let mut r: Vec<usize> = Vec::new();
    let mut i: usize = 0;
    while i < counts.len()
        invariant
            i <= counts.len(),
            r@ == counts@.take(i as int),
        decreases counts.len() - i,
    {
        r.push(counts[i]);
        assert(counts@.take(i + 1) =~= counts@.take(i as int).push(counts@[i as int]));
        i = i + 1;
    }
    assert(counts@.take(i as int) =~= counts@);
    r
}

} // verus!
