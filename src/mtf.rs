//! Move-to-front transform combined with the bijective base-2 run-length code
//! of zero runs.
use vstd::prelude::*;

verus! {

/// A symbol of the move-to-front stream.
#[derive(Debug, Clone, Copy, PartialEq, Eq, Structural)]
pub enum MtfIndex {
    /// Digit one of a zero run.
    RunA,
    /// Digit two of a zero run.
    RunB,
    /// A nonzero move-to-front position.
    Val(u8),
}

/// Error of the move-to-front decoder.
#[derive(Debug, Clone, Copy, PartialEq, Eq, Structural)]
pub enum MtfError {
    /// A position with no entry in the stack.
    OutOfRange,
    /// A zero run longer than any block can be.
    MalformedStream,
}

/// A move-to-front stream with the stack of bytes it refers to.
#[derive(Debug, PartialEq, Eq)]
pub struct MtfTransform {
    indices: Vec<MtfIndex>,
    stack: Vec<u8>,
}

impl View for MtfTransform {
    type V = (Seq<MtfIndex>, Seq<u8>);

    closed spec fn view(&self) -> (Seq<MtfIndex>, Seq<u8>) {
        (self.indices@, self.stack@)
    }
}

/// `s` is sorted ascending and free of duplicates.
pub open spec fn strictly_increasing(s: Seq<u8>) -> bool {
    forall|i: int, j: int| 0 <= i < j < s.len() ==> s[i] < s[j]
}

/// The stack of `data`: its distinct bytes in ascending order.
pub open spec fn is_stack_of(stack: Seq<u8>, data: Seq<u8>) -> bool {
    &&& strictly_increasing(stack)
    &&& forall|b: u8| stack.contains(b) <==> data.contains(b)
}

/// First position of `b` in `ws` (`ws.len()` where it is absent).
pub open spec fn position_of(ws: Seq<u8>, b: u8) -> int
    decreases ws.len(),
{
    if ws.len() == 0 {
        0
    } else if ws[0] == b {
        0
    } else {
        1 + position_of(ws.drop_first(), b)
    }
}

/// `ws` with its entry at `p` moved to the front.
pub open spec fn move_to_front(ws: Seq<u8>, p: int) -> Seq<u8> {
    seq![ws[p]] + ws.remove(p)
}

/// The move-to-front positions of `data` against the working stack `ws`.
pub open spec fn mtf_positions(data: Seq<u8>, ws: Seq<u8>) -> Seq<u8>
    decreases data.len(),
{
    if data.len() == 0 {
        Seq::empty()
    } else {
        let p = position_of(ws, data[0]);
        seq![p as u8] + mtf_positions(data.drop_first(), move_to_front(ws, p))
    }
}

/// The bijective base-2 digits of a zero run of length `len`, least
/// significant first: `RunA` is worth one, `RunB` two.
pub open spec fn run_symbols(len: nat) -> Seq<MtfIndex>
    decreases len,
{
    if len == 0 {
        Seq::empty()
    } else if len % 2 == 1 {
        seq![MtfIndex::RunA] + run_symbols(((len - 1) / 2) as nat)
    } else {
        seq![MtfIndex::RunB] + run_symbols(((len - 2) / 2) as nat)
    }
}

/// Run-length code of the positions `raw`, after `pending` zeros that are
/// not emitted yet: each maximal zero run becomes its digits, every other
/// position a `Val`.
pub open spec fn rle2_from(raw: Seq<u8>, pending: nat) -> Seq<MtfIndex>
    decreases raw.len(),
{
    if raw.len() == 0 {
        run_symbols(pending)
    } else if raw[0] == 0 {
        rle2_from(raw.drop_first(), pending + 1)
    } else {
        run_symbols(pending) + seq![MtfIndex::Val(raw[0])] + rle2_from(raw.drop_first(), 0)
    }
}

/// Run-length code of the positions `raw`.
pub open spec fn rle2(raw: Seq<u8>) -> Seq<MtfIndex> {
    rle2_from(raw, 0)
}

/// `n` zero positions.
pub open spec fn zeros(n: nat) -> Seq<u8> {
    Seq::new(n, |i: int| 0u8)
}

/// Expansion of the symbols `syms` into positions, with a run of `run` zeros
/// under way whose next digit is worth `power`; `None` where a run grows past
/// `usize::MAX`.
pub open spec fn expand_from(syms: Seq<MtfIndex>, run: nat, power: nat) -> Option<Seq<u8>>
    decreases syms.len(),
{
    if run > usize::MAX {
        None
    } else if syms.len() == 0 {
        Some(zeros(run))
    } else {
        match syms[0] {
            MtfIndex::RunA => expand_from(syms.drop_first(), run + power, 2 * power),
            MtfIndex::RunB => expand_from(syms.drop_first(), run + 2 * power, 2 * power),
            MtfIndex::Val(v) => match expand_from(syms.drop_first(), 0, 1) {
                Some(t) => Some(zeros(run) + seq![v] + t),
                None => None,
            },
        }
    }
}

/// Expansion of the symbols `syms` into positions.
pub open spec fn expand(syms: Seq<MtfIndex>) -> Option<Seq<u8>> {
    expand_from(syms, 0, 1)
}

/// Move-to-front decoding of the positions `raw` against the working stack `ws`.
pub open spec fn mtf_decode(raw: Seq<u8>, ws: Seq<u8>) -> Seq<u8>
    decreases raw.len(),
{
    if raw.len() == 0 {
        Seq::empty()
    } else {
        let p = raw[0] as int;
        seq![ws[p]] + mtf_decode(raw.drop_first(), move_to_front(ws, p))
    }
}

/// Every `Val` of `syms` is a nonzero position below `n`.
pub open spec fn values_below(syms: Seq<MtfIndex>, n: nat) -> bool {
    forall|k: int|
        0 <= k < syms.len() ==> match #[trigger] syms[k] {
            MtfIndex::Val(v) => 1 <= v < n,
            _ => true,
        }
}

/// Some position of `raw` has no entry in a stack of `n` bytes.
pub open spec fn has_position_at_least(raw: Seq<u8>, n: nat) -> bool {
    exists|j: int| 0 <= j < raw.len() && raw[j] >= n
}

/// Appends the digits of a zero run of length `run_length`.
pub fn emit_run(run_length: usize, out: &mut Vec<MtfIndex>)
    ensures
        final(out)@ == old(out)@ + run_symbols(run_length as nat),
{
    let mut run_length = run_length;
    let ghost start = old(out)@ + run_symbols(run_length as nat);
    assert(out@ + run_symbols(run_length as nat) == start);
    while run_length > 0
        invariant
            out@ + run_symbols(run_length as nat) == start,
        decreases run_length,
    {
        let ghost before = out@;
        if run_length % 2 == 1 {
            out.push(MtfIndex::RunA);
            assert(before + run_symbols(run_length as nat) =~= out@ + run_symbols(
                ((run_length - 1) / 2) as nat,
            ));
            run_length = (run_length - 1) / 2;
        } else {
            out.push(MtfIndex::RunB);
            assert(before + run_symbols(run_length as nat) =~= out@ + run_symbols(
                ((run_length - 2) / 2) as nat,
            ));
            run_length = (run_length - 2) / 2;
        }
    }
    assert(out@ =~= start);
}

proof fn lemma_increasing_len(s: Seq<u8>)
    requires
        strictly_increasing(s),
    ensures
        s.len() <= 256,
{
    if s.len() > 0 {
        lemma_increasing_bound(s, s.len() - 1);
    }
}

proof fn lemma_increasing_bound(s: Seq<u8>, i: int)
    requires
        strictly_increasing(s),
        0 <= i < s.len(),
    ensures
        s[i] >= i,
    decreases i,
{
    if i > 0 {
        lemma_increasing_bound(s, i - 1);
    }
}

proof fn lemma_position_of(ws: Seq<u8>, b: u8)
    requires
        ws.contains(b),
    ensures
        0 <= position_of(ws, b) < ws.len(),
        ws[position_of(ws, b)] == b,
    decreases ws.len(),
{
    if ws[0] != b {
        let j = choose|j: int| 0 <= j < ws.len() && ws[j] == b;
        assert(ws.drop_first()[j - 1] == b);
        lemma_position_of(ws.drop_first(), b);
    }
}

proof fn lemma_move_to_front(ws: Seq<u8>, p: int)
    requires
        0 <= p < ws.len(),
    ensures
        move_to_front(ws, p).len() == ws.len(),
        forall|x: u8| move_to_front(ws, p).contains(x) <==> ws.contains(x),
        p == 0 ==> move_to_front(ws, p) == ws,
{
    let m = move_to_front(ws, p);
    assert forall|x: u8| m.contains(x) <==> ws.contains(x) by {
        if m.contains(x) {
            let j = choose|j: int| 0 <= j < m.len() && m[j] == x;
            if j == 0 {
                assert(ws[p] == x);
            } else if j - 1 < p {
                assert(ws[j - 1] == x);
            } else {
                assert(ws[j] == x);
            }
        }
        if ws.contains(x) {
            let j = choose|j: int| 0 <= j < ws.len() && ws[j] == x;
            if j == p {
                assert(m[0] == x);
            } else if j < p {
                assert(m[j + 1] == x);
            } else {
                assert(m[j] == x);
            }
        }
    }
    if p == 0 {
        assert(m =~= ws);
    }
}


/// The distinct bytes of `data` in ascending order.
fn stack_of(data: &[u8]) -> (r: Vec<u8>)
    ensures
        is_stack_of(r@, data@),
{
    let mut present: Vec<bool> = Vec::new();
    let mut v: usize = 0;
    while v < 256
        invariant
            v <= 256,
            present@.len() == v,
            forall|k: int| 0 <= k < v ==> !present@[k],
        decreases 256 - v,
    {
        present.push(false);
        v = v + 1;
    }
    let mut i: usize = 0;
    while i < data.len()
        invariant
            i <= data@.len(),
            present@.len() == 256,
            forall|b: u8| present@[b as int] <==> data@.take(i as int).contains(b),
        decreases data@.len() - i,
    {
        present.set(data[i] as usize, true);
        assert forall|b: u8| present@[b as int] <==> data@.take(i + 1).contains(b) by {
            let t0 = data@.take(i as int);
            let t1 = data@.take(i + 1);
            assert(t1 =~= t0.push(data@[i as int]));
            if t0.contains(b) {
                let j = choose|j: int| 0 <= j < t0.len() && t0[j] == b;
                assert(t1[j] == b);
            }
            if t1.contains(b) && b != data@[i as int] {
                let j = choose|j: int| 0 <= j < t1.len() && t1[j] == b;
                assert(t0[j] == b);
            }
            if b == data@[i as int] {
                assert(t1[i as int] == b);
            }
        }
        i = i + 1;
    }
    assert(data@.take(i as int) =~= data@);
    let mut stack: Vec<u8> = Vec::new();
    let mut v: usize = 0;
    while v < 256
        invariant
            v <= 256,
            present@.len() == 256,
            strictly_increasing(stack@),
            forall|k: int| 0 <= k < stack@.len() ==> stack@[k] < v,
            forall|b: u8| stack@.contains(b) <==> (b < v && present@[b as int]),
        decreases 256 - v,
    {
        if present[v] {
            let ghost prev = stack@;
            stack.push(v as u8);
            assert forall|b: u8| stack@.contains(b) <==> (b < v + 1 && present@[b as int]) by {
                if prev.contains(b) {
                    let j = choose|j: int| 0 <= j < prev.len() && prev[j] == b;
                    assert(stack@[j] == b);
                }
                if stack@.contains(b) && b != v {
                    let j = choose|j: int| 0 <= j < stack@.len() && stack@[j] == b;
                    assert(prev[j] == b);
                }
                if b == v {
                    assert(stack@[prev.len() as int] == b);
                }
            }
        } else {
            assert forall|b: u8| stack@.contains(b) <==> (b < v + 1 && present@[b as int]) by {
                if b == v {
                    if stack@.contains(b) {
                        let j = choose|j: int| 0 <= j < stack@.len() && stack@[j] == b;
                    }
                }
            }
        }
        v = v + 1;
    }
    stack
}

/// A copy of a byte sequence.
fn copy_bytes(src: &Vec<u8>) -> (r: Vec<u8>)
    ensures
        r@ == src@,
{
    let mut r: Vec<u8> = Vec::new();
    let mut i: usize = 0;
    while i < src.len()
        invariant
            i <= src.len(),
            r@ == src@.take(i as int),
        decreases src.len() - i,
    {
        r.push(src[i]);
        assert(src@.take(i + 1) =~= src@.take(i as int).push(src@[i as int]));
        i = i + 1;
    }
    assert(src@.take(i as int) =~= src@);
    r
}

/// Position of `byte` in the working stack.
fn find_position(ws: &Vec<u8>, byte: u8) -> (p: usize)
    requires
        ws@.contains(byte),
    ensures
        p == position_of(ws@, byte),
{
    proof {
        lemma_position_of(ws@, byte);
    }
    let mut p: usize = 0;
    let n = ws.len();
    assert(ws@.skip(0) =~= ws@);
    while ws[p] != byte
        invariant
            n == ws@.len(),
            0 <= position_of(ws@, byte) < ws@.len(),
            ws@[position_of(ws@, byte)] == byte,
            p <= position_of(ws@, byte),
            position_of(ws@, byte) == p + position_of(ws@.skip(p as int), byte),
        decreases ws@.len() - p,
    {
        assert(ws@.skip(p as int).drop_first() =~= ws@.skip(p + 1));
        assert(p < position_of(ws@, byte));
        p = p + 1;
    }
    p
}

/// Moves the entry at `p` to the front of the working stack.
fn rotate_to_front(ws: &mut Vec<u8>, p: usize)
    requires
        p < old(ws)@.len(),
    ensures
        final(ws)@ == move_to_front(old(ws)@, p as int),
{
    if p > 0 {
        let val = ws.remove(p);
        ws.insert(0, val);
        assert(ws@ =~= move_to_front(old(ws)@, p as int));
    } else {
        proof {
            lemma_move_to_front(ws@, 0);
        }
    }
}

impl MtfTransform {
    /// Move-to-front positions of `data` against the ascending stack of its
    /// distinct bytes, with each maximal zero run replaced by its bijective
    /// base-2 digits.
    pub fn encode(data: &[u8]) -> (r: Self)
        ensures
            is_stack_of(r@.1, data@),
            r@.0 == rle2(mtf_positions(data@, r@.1)),
            values_below(r@.0, r@.1.len()),
            r@.0.len() <= data@.len(),
            r@.1.len() <= 256,
    {
        let stack = stack_of(data);
        proof {
            lemma_increasing_len(stack@);
        }
        let mut working_stack = copy_bytes(&stack);
        let mut mtf_indices: Vec<u8> = Vec::new();
        let mut current_byte: Option<u8> = None;
        let mut i: usize = 0;
        assert(data@.skip(0) =~= data@);
        while i < data.len()
            invariant
                i <= data@.len(),
                is_stack_of(stack@, data@),
                stack@.len() <= 256,
                working_stack@.len() == stack@.len(),
                forall|x: u8| working_stack@.contains(x) <==> stack@.contains(x),
                current_byte is Some ==> working_stack@.len() > 0 && working_stack@[0]
                    == current_byte->Some_0,
                mtf_positions(data@, stack@) == mtf_indices@ + mtf_positions(
                    data@.skip(i as int),
                    working_stack@,
                ),
                forall|k: int| 0 <= k < mtf_indices@.len() ==> mtf_indices@[k] < stack@.len(),
            decreases data@.len() - i,
        {
            let byte = data[i];
            let ghost ws0 = working_stack@;
            let ghost rest = data@.skip(i as int);
            assert(rest[0] == byte);
            assert(rest.drop_first() =~= data@.skip(i + 1));
            assert(data@.contains(byte)) by {
                assert(data@[i as int] == byte);
            }
            proof {
                lemma_position_of(ws0, byte);
            }
            let repeat = match current_byte {
                Some(c) => c == byte,
                None => false,
            };
            let ghost prev = mtf_indices@;
            if repeat {
                proof {
                    lemma_move_to_front(ws0, 0);
                }
                mtf_indices.push(0);
                assert(mtf_indices@ + mtf_positions(data@.skip(i + 1), working_stack@) =~= prev
                    + mtf_positions(rest, ws0));
            } else {
                let position = find_position(&working_stack, byte);
                proof {
                    lemma_move_to_front(ws0, position as int);
                }
                rotate_to_front(&mut working_stack, position);
                mtf_indices.push(position as u8);
                assert(mtf_indices@ + mtf_positions(data@.skip(i + 1), working_stack@) =~= prev
                    + mtf_positions(rest, ws0));
                current_byte = Some(byte);
                assert(working_stack@[0] == byte);
            }
            i = i + 1;
        }
        assert(mtf_positions(data@.skip(i as int), working_stack@) =~= Seq::<u8>::empty());
        assert(mtf_indices@ =~= mtf_positions(data@, stack@));
        let mut indices: Vec<MtfIndex> = Vec::new();
        let mut zero_run: usize = 0;
        let mut j: usize = 0;
        let ghost raw = mtf_indices@;
        assert(raw.skip(0) =~= raw);
        while j < mtf_indices.len()
            invariant
                raw == mtf_indices@,
                j <= raw.len(),
                zero_run <= j,
                rle2(raw) == indices@ + rle2_from(raw.skip(j as int), zero_run as nat),
                values_below(indices@, stack@.len()),
                forall|k: int| 0 <= k < raw.len() ==> raw[k] < stack@.len(),
            decreases raw.len() - j,
        {
            let x = mtf_indices[j];
            let ghost rest = raw.skip(j as int);
            assert(rest[0] == x);
            assert(rest.drop_first() =~= raw.skip(j + 1));
            let ghost prev = indices@;
            let ghost run0 = zero_run as nat;
            if x == 0 {
                zero_run = zero_run + 1;
            } else {
                emit_run(zero_run, &mut indices);
                indices.push(MtfIndex::Val(x));
                proof {
                    lemma_run_symbols_no_values(zero_run as nat);
                }
                assert(indices@ =~= prev + run_symbols(zero_run as nat) + seq![MtfIndex::Val(x)]);
                assert forall|k: int| 0 <= k < indices@.len() implies match #[trigger] indices@[k] {
                    MtfIndex::Val(v) => 1 <= v < stack@.len(),
                    _ => true,
                } by {
                    if k < prev.len() {
                        assert(indices@[k] == prev[k]);
                    } else if k < prev.len() + run_symbols(zero_run as nat).len() {
                        assert(indices@[k] == run_symbols(zero_run as nat)[k - prev.len()]);
                    }
                }
                zero_run = 0;
                assert(indices@ + rle2_from(raw.skip(j + 1), 0) =~= prev + rle2_from(
                    rest,
                    run0,
                ));
            }
            j = j + 1;
        }
        let ghost prev = indices@;
        emit_run(zero_run, &mut indices);
        proof {
            lemma_positions_len(data@, stack@);
            lemma_rle2_len(raw, 0);
            lemma_run_symbols_no_values(zero_run as nat);
            assert(raw.skip(j as int) =~= Seq::<u8>::empty());
            assert(indices@ =~= rle2(raw));
            assert forall|k: int| 0 <= k < indices@.len() implies match #[trigger] indices@[k] {
                MtfIndex::Val(v) => 1 <= v < stack@.len(),
                _ => true,
            } by {
                if k < prev.len() {
                    assert(indices@[k] == prev[k]);
                } else {
                    assert(indices@[k] == run_symbols(zero_run as nat)[k - prev.len()]);
                }
            }
        }
        MtfTransform { indices, stack }
    }
}

proof fn lemma_run_symbols_no_values(len: nat)
    ensures
        forall|k: int|
            0 <= k < run_symbols(len).len() ==> !(#[trigger] run_symbols(len)[k] is Val),
    decreases len,
{
    if len > 0 {
        if len % 2 == 1 {
            lemma_run_symbols_no_values(((len - 1) / 2) as nat);
            let t = run_symbols(((len - 1) / 2) as nat);
            assert forall|k: int| 0 <= k < run_symbols(len).len() implies !(
            #[trigger] run_symbols(len)[k] is Val) by {
                if k > 0 {
                    assert(run_symbols(len)[k] == t[k - 1]);
                }
            }
        } else {
            lemma_run_symbols_no_values(((len - 2) / 2) as nat);
            let t = run_symbols(((len - 2) / 2) as nat);
            assert forall|k: int| 0 <= k < run_symbols(len).len() implies !(
            #[trigger] run_symbols(len)[k] is Val) by {
                if k > 0 {
                    assert(run_symbols(len)[k] == t[k - 1]);
                }
            }
        }
    }
}


/// `a` in front of the sequence that `o` may hold.
pub open spec fn prefix_opt(a: Seq<u8>, o: Option<Seq<u8>>) -> Option<Seq<u8>> {
    match o {
        Some(t) => Some(a + t),
        None => None,
    }
}

impl MtfTransform {
    /// Expands the symbols into positions, then decodes the positions against
    /// a working copy of the stack. A zero run too long for memory is a
    /// malformed stream; a position with no entry in the stack is out of range.
    pub fn decode(&self) -> (r: Result<Vec<u8>, MtfError>)
        ensures
            expand(self@.0) is None ==> r == Err::<Vec<u8>, MtfError>(MtfError::MalformedStream),
            expand(self@.0) is Some && has_position_at_least(
                expand(self@.0)->Some_0,
                self@.1.len(),
            ) ==> r == Err::<Vec<u8>, MtfError>(MtfError::OutOfRange),
            expand(self@.0) is Some && !has_position_at_least(
                expand(self@.0)->Some_0,
                self@.1.len(),
            ) ==> r is Ok && r->Ok_0@ == mtf_decode(expand(self@.0)->Some_0, self@.1),
    {
        let ghost syms = self@.0;
        let mut mtf_indices: Vec<u8> = Vec::new();
        let mut run_length: usize = 0;
        let mut power: usize = 1;
        let ghost mut gpower: nat = 1;
        let mut k: usize = 0;
        assert(syms.skip(0) =~= syms);
        assert(Seq::<u8>::empty() + expand(syms)->Some_0 =~= expand(syms)->Some_0);
        while k < self.indices.len()
            invariant
                syms == self@.0,
                k <= syms.len(),
                1 <= gpower <= run_length + 1,
                power == if gpower <= usize::MAX {
                    gpower
                } else {
                    usize::MAX as nat
                },
                expand(syms) == prefix_opt(
                    mtf_indices@,
                    expand_from(syms.skip(k as int), run_length as nat, gpower),
                ),
            decreases syms.len() - k,
        {
            let ghost rest = syms.skip(k as int);
            assert(rest[0] == syms[k as int]);
            assert(rest.drop_first() =~= syms.skip(k + 1));
            match self.indices[k] {
                MtfIndex::RunA => {
                    if power > usize::MAX - run_length {
                        assert(run_length + gpower > usize::MAX);
                        assert(expand_from(rest.drop_first(), (run_length + gpower) as nat, 2 * gpower)
                            is None);
                        return Err(MtfError::MalformedStream);
                    }
                    run_length = run_length + power;
                    power = if power > usize::MAX / 2 {
                        usize::MAX
                    } else {
                        power * 2
                    };
                    proof {
                        gpower = 2 * gpower;
                    }
                },
                MtfIndex::RunB => {
                    if power > (usize::MAX - run_length) / 2 {
                        assert(run_length + 2 * gpower > usize::MAX);
                        assert(expand_from(rest.drop_first(), (run_length + 2 * gpower) as nat, 2 * gpower)
                            is None);
                        return Err(MtfError::MalformedStream);
                    }
                    run_length = run_length + 2 * power;
                    power = if power > usize::MAX / 2 {
                        usize::MAX
                    } else {
                        power * 2
                    };
                    proof {
                        gpower = 2 * gpower;
                    }
                },
                MtfIndex::Val(v) => {
                    let ghost prev = mtf_indices@;
                    push_zeros(&mut mtf_indices, run_length);
                    mtf_indices.push(v);
                    assert(mtf_indices@ =~= prev + zeros(run_length as nat) + seq![v]);
                    proof {
                        match expand_from(syms.skip(k + 1), 0, 1) {
                            Some(t) => {
                                assert(prev + (zeros(run_length as nat) + seq![v] + t)
                                    =~= mtf_indices@ + t);
                            },
                            None => {},
                        }
                    }
                    run_length = 0;
                    power = 1;
                    proof {
                        gpower = 1;
                    }
                },
            }
            k = k + 1;
        }
        push_zeros(&mut mtf_indices, run_length);
        assert(syms.skip(k as int) =~= Seq::<MtfIndex>::empty());
        assert(expand(syms) == Some(mtf_indices@));
        let ghost raw = mtf_indices@;
        let mut result: Vec<u8> = Vec::new();
        let mut working_stack = copy_bytes(&self.stack);
        let mut j: usize = 0;
        assert(raw.skip(0) =~= raw);
        assert(Seq::<u8>::empty() + mtf_decode(raw, self@.1) =~= mtf_decode(raw, self@.1));
        while j < mtf_indices.len()
            invariant
                raw == mtf_indices@,
                Some(raw) == expand(self@.0),
                j <= raw.len(),
                working_stack@.len() == self@.1.len(),
                forall|i: int| 0 <= i < j ==> raw[i] < self@.1.len(),
                mtf_decode(raw, self@.1) == result@ + mtf_decode(
                    raw.skip(j as int),
                    working_stack@,
                ),
            decreases raw.len() - j,
        {
            let idx = mtf_indices[j] as usize;
            if idx >= working_stack.len() {
                return Err(MtfError::OutOfRange);
            }
            let ghost ws0 = working_stack@;
            let ghost rest = raw.skip(j as int);
            assert(rest[0] == raw[j as int]);
            assert(rest.drop_first() =~= raw.skip(j + 1));
            let ghost prev = result@;
            result.push(working_stack[idx]);
            rotate_to_front(&mut working_stack, idx);
            proof {
                lemma_move_to_front(ws0, idx as int);
            }
            assert(result@ + mtf_decode(raw.skip(j + 1), working_stack@) =~= prev + mtf_decode(
                rest,
                ws0,
            ));
            j = j + 1;
        }
        assert(raw.skip(j as int) =~= Seq::<u8>::empty());
        assert(result@ =~= mtf_decode(raw, self@.1));
        Ok(result)
    }

    /// A stream from its symbols and its stack, as a decoder receives them.
    pub fn from_parts(indices: Vec<MtfIndex>, stack: Vec<u8>) -> (r: Self)
        ensures
            r@ == (indices@, stack@),
    {
        MtfTransform { indices, stack }
    }

    /// The transform of the empty block.
    pub fn empty() -> (r: Self)
        ensures
            r@ == (Seq::<MtfIndex>::empty(), Seq::<u8>::empty()),
    {
        MtfTransform { indices: Vec::new(), stack: Vec::new() }
    }

    /// Whether the stream has no symbols.
    pub fn is_empty(&self) -> (r: bool)
        ensures
            r == (self@.0.len() == 0),
    {
        self.indices.len() == 0
    }

    /// Number of symbols.
    pub fn len(&self) -> (r: usize)
        ensures
            r == self@.0.len(),
    {
        self.indices.len()
    }

    /// Number of bytes in the stack.
    pub fn num_stack(&self) -> (r: usize)
        ensures
            r == self@.1.len(),
    {
        self.stack.len()
    }

    /// The symbols.
    pub fn indices(&self) -> (r: &Vec<MtfIndex>)
        ensures
            r@ == self@.0,
    {
        &self.indices
    }

    /// The stack.
    pub fn stack(&self) -> (r: &Vec<u8>)
        ensures
            r@ == self@.1,
    {
        &self.stack
    }
}

/// Appends `n` zero positions.
fn push_zeros(out: &mut Vec<u8>, n: usize)
    ensures
        final(out)@ == old(out)@ + zeros(n as nat),
{
    let mut z: usize = 0;
    while z < n
        invariant
            z <= n,
            out@ == old(out)@ + zeros(z as nat),
        decreases n - z,
    {
        out.push(0);
        assert(out@ =~= old(out)@ + zeros((z + 1) as nat));
        z = z + 1;
    }
}


proof fn lemma_decode_positions(d: Seq<u8>, ws: Seq<u8>)
    requires
        forall|j: int| 0 <= j < d.len() ==> ws.contains(#[trigger] d[j]),
        ws.len() <= 256,
    ensures
        mtf_positions(d, ws).len() == d.len(),
        forall|j: int|
            0 <= j < d.len() ==> (#[trigger] mtf_positions(d, ws)[j]) < ws.len(),
        mtf_decode(mtf_positions(d, ws), ws) == d,
    decreases d.len(),
{
    if d.len() > 0 {
        let p = position_of(ws, d[0]);
        lemma_position_of(ws, d[0]);
        lemma_move_to_front(ws, p);
        let ws1 = move_to_front(ws, p);
        let rest = d.drop_first();
        assert forall|j: int| 0 <= j < rest.len() implies ws1.contains(#[trigger] rest[j]) by {
            assert(rest[j] == d[j + 1]);
        }
        lemma_decode_positions(rest, ws1);
        let pos = mtf_positions(d, ws);
        let tail = mtf_positions(rest, ws1);
        assert(pos == seq![p as u8] + tail);
        assert(pos.drop_first() =~= tail);
        assert forall|j: int| 0 <= j < d.len() implies (#[trigger] pos[j]) < ws.len() by {
            if j > 0 {
                assert(pos[j] == tail[j - 1]);
            }
        }
        assert(mtf_decode(pos, ws) == seq![ws[p]] + mtf_decode(tail, ws1));
        assert(d =~= seq![d[0]] + rest);
    }
}

proof fn lemma_expand_run(len: nat, tail: Seq<MtfIndex>, run: nat, power: nat)
    requires
        tail.len() == 0 || tail[0] is Val,
    ensures
        expand_from(run_symbols(len) + tail, run, power) == expand_from(
            tail,
            run + power * len,
            1,
        ),
    decreases len,
{
    if len == 0 {
        assert(run_symbols(len) + tail =~= tail);
        assert(power * len == 0) by (nonlinear_arith)
            requires
                len == 0,
        ;
    } else if len % 2 == 1 {
        let m = ((len - 1) / 2) as nat;
        let t = run_symbols(m);
        assert((seq![MtfIndex::RunA] + t + tail).drop_first() =~= t + tail);
        assert(run_symbols(len) + tail =~= seq![MtfIndex::RunA] + t + tail);
        lemma_expand_run(m, tail, run + power, 2 * power);
        assert(run + power + 2 * power * m == run + power * len) by (nonlinear_arith)
            requires
                len == 2 * m + 1,
        ;
        assert(power * len >= 0) by (nonlinear_arith);
    } else {
        let m = ((len - 2) / 2) as nat;
        let t = run_symbols(m);
        assert((seq![MtfIndex::RunB] + t + tail).drop_first() =~= t + tail);
        assert(run_symbols(len) + tail =~= seq![MtfIndex::RunB] + t + tail);
        lemma_expand_run(m, tail, run + 2 * power, 2 * power);
        assert(run + 2 * power + 2 * power * m == run + power * len) by (nonlinear_arith)
            requires
                len == 2 * m + 2,
        ;
        assert(power * len >= 0) by (nonlinear_arith);
    }
}

proof fn lemma_expand_rle2(raw: Seq<u8>, pending: nat)
    requires
        pending + raw.len() <= usize::MAX,
    ensures
        expand(rle2_from(raw, pending)) == Some(zeros(pending) + raw),
    decreases raw.len(),
{
    if raw.len() == 0 {
        assert(run_symbols(pending) + Seq::<MtfIndex>::empty() =~= run_symbols(pending));
        lemma_expand_run(pending, Seq::empty(), 0, 1);
        assert(zeros(pending) + raw =~= zeros(pending));
    } else if raw[0] == 0 {
        lemma_expand_rle2(raw.drop_first(), pending + 1);
        assert(zeros(pending + 1) + raw.drop_first() =~= zeros(pending) + raw);
    } else {
        let v = raw[0];
        let rest = rle2_from(raw.drop_first(), 0);
        let tail = seq![MtfIndex::Val(v)] + rest;
        assert(run_symbols(pending) + seq![MtfIndex::Val(v)] + rest =~= run_symbols(pending)
            + tail);
        lemma_expand_run(pending, tail, 0, 1);
        assert(tail.drop_first() =~= rest);
        lemma_expand_rle2(raw.drop_first(), 0);
        assert(zeros(pending) + seq![v] + (zeros(0) + raw.drop_first()) =~= zeros(pending)
            + raw);
    }
}

/// Decoding undoes encoding: the positions of every block, under the stack
/// of its distinct bytes, survive the run-length code, all have an entry in
/// the stack, and decode back to the block.
pub proof fn lemma_mtf_round_trip(data: Seq<u8>, stack: Seq<u8>)
    requires
        is_stack_of(stack, data),
        data.len() <= usize::MAX,
    ensures
        expand(rle2(mtf_positions(data, stack))) == Some(mtf_positions(data, stack)),
        !has_position_at_least(mtf_positions(data, stack), stack.len()),
        mtf_decode(mtf_positions(data, stack), stack) == data,
{
    lemma_increasing_len(stack);
    assert forall|j: int| 0 <= j < data.len() implies stack.contains(#[trigger] data[j]) by {
        assert(data.contains(data[j]));
    }
    lemma_decode_positions(data, stack);
    lemma_expand_rle2(mtf_positions(data, stack), 0);
    assert(zeros(0) + mtf_positions(data, stack) =~= mtf_positions(data, stack));
}

proof fn lemma_positions_len(data: Seq<u8>, ws: Seq<u8>)
    ensures
        mtf_positions(data, ws).len() == data.len(),
    decreases data.len(),
{
    if data.len() > 0 {
        lemma_positions_len(data.drop_first(), move_to_front(ws, position_of(ws, data[0])));
    }
}

proof fn lemma_run_symbols_len(len: nat)
    ensures
        run_symbols(len).len() <= len,
    decreases len,
{
    if len > 0 {
        if len % 2 == 1 {
            lemma_run_symbols_len(((len - 1) / 2) as nat);
        } else {
            lemma_run_symbols_len(((len - 2) / 2) as nat);
        }
    }
}

proof fn lemma_rle2_len(raw: Seq<u8>, pending: nat)
    ensures
        rle2_from(raw, pending).len() <= raw.len() + pending,
    decreases raw.len(),
{
    lemma_run_symbols_len(pending);
    if raw.len() > 0 {
        if raw[0] == 0 {
            lemma_rle2_len(raw.drop_first(), pending + 1);
        } else {
            lemma_rle2_len(raw.drop_first(), 0);
        }
    }
}

} // verus!
