//! Byte-level run-length pre-pass: a run of four equal bytes is followed by a
//! count of the further repeats.
use vstd::prelude::*;

verus! {

/// A run-length coded byte sequence.
#[derive(Debug, PartialEq, Eq)]
pub struct RleSequence(Vec<u8>);

impl View for RleSequence {
    type V = Seq<u8>;

    closed spec fn view(&self) -> Seq<u8> {
        self.0@
    }
}

/// `n` copies of `b`.
pub open spec fn repeat_byte(b: u8, n: nat) -> Seq<u8> {
    Seq::new(n, |i: int| b)
}

/// Code of a run of `len` bytes `v`, in pieces of at most 255: a piece
/// shorter than four stands as it is, a longer one as four bytes and the
/// count of the rest.
pub open spec fn encode_run(v: u8, len: nat) -> Seq<u8>
    decreases len,
{
    if len == 0 {
        Seq::empty()
    } else {
        let r: nat = if len > 255 {
            255
        } else {
            len
        };
        (if r < 4 {
            repeat_byte(v, r)
        } else {
            repeat_byte(v, 4).push((r - 4) as u8)
        }) + encode_run(v, (len - r) as nat)
    }
}

/// Code of `data` after a run of `pending` bytes `v` not coded yet.
pub open spec fn rle_from(data: Seq<u8>, v: u8, pending: nat) -> Seq<u8>
    decreases data.len(),
{
    if data.len() == 0 {
        encode_run(v, pending)
    } else if pending > 0 && data[0] == v {
        rle_from(data.drop_first(), v, pending + 1)
    } else {
        encode_run(v, pending) + rle_from(data.drop_first(), data[0], 1)
    }
}

/// Run-length code of `data`: each maximal run of equal bytes coded apart.
pub open spec fn rle_encode(data: Seq<u8>) -> Seq<u8> {
    rle_from(data, 0, 0)
}

/// Decoding of `s`, after `count` copies of `last` in a row: every byte is
/// copied, and the byte after the fourth equal one in a row counts further
/// copies of it, after which the count starts anew.
pub open spec fn rle_decode_from(s: Seq<u8>, last: Option<u8>, count: nat) -> Seq<u8>
    decreases s.len(),
{
    if s.len() == 0 {
        Seq::empty()
    } else {
        let b = s[0];
        let c: nat = if last == Some(b) {
            count + 1
        } else {
            1
        };
        if c == 4 {
            if s.len() > 1 {
                seq![b] + repeat_byte(b, s[1] as nat) + rle_decode_from(s.skip(2), None, 0)
            } else {
                seq![b]
            }
        } else {
            seq![b] + rle_decode_from(s.drop_first(), Some(b), c)
        }
    }
}

/// Decoding of `s`.
pub open spec fn rle_decode(s: Seq<u8>) -> Seq<u8> {
    rle_decode_from(s, None, 0)
}

/// Appends `n` copies of `b`.
fn push_repeat(out: &mut Vec<u8>, b: u8, n: usize)
    ensures
        final(out)@ == old(out)@ + repeat_byte(b, n as nat),
{
    let mut k: usize = 0;
    while k < n
        invariant
            k <= n,
            out@ == old(out)@ + repeat_byte(b, k as nat),
        decreases n - k,
    {
        out.push(b);
        assert(out@ =~= old(out)@ + repeat_byte(b, (k + 1) as nat));
        k = k + 1;
    }
}

/// Appends the code of a run of `len` bytes `value`.
fn emit_byte_run(out: &mut Vec<u8>, value: u8, len: usize)
    ensures
        final(out)@ == old(out)@ + encode_run(value, len as nat),
{
    let mut remaining_length = len;
    let ghost start = old(out)@ + encode_run(value, len as nat);
    assert(out@ + encode_run(value, remaining_length as nat) == start);
    while remaining_length > 0
        invariant
            out@ + encode_run(value, remaining_length as nat) == start,
        decreases remaining_length,
    {
        let ghost before = out@;
        let run_length = if remaining_length > 255 {
            255
        } else {
            remaining_length
        };
        if run_length < 4 {
            push_repeat(out, value, run_length);
        } else {
            push_repeat(out, value, 4);
            out.push((run_length - 4) as u8);
        }
        remaining_length = remaining_length - run_length;
        assert(before + encode_run(value, (remaining_length + run_length) as nat) =~= out@
            + encode_run(value, remaining_length as nat));
    }
    assert(out@ =~= start);
}

impl RleSequence {
    /// Number of coded bytes.
    pub fn len(&self) -> (r: usize)
        ensures
            r == self@.len(),
    {
        self.0.len()
    }

    /// The coded bytes.
    pub fn sequence(&self) -> (r: &[u8])
        ensures
            r@ == self@,
    {
        self.0.as_slice()
    }

    /// Whether there are no coded bytes.
    pub fn is_empty(&self) -> (r: bool)
        ensures
            r == (self@.len() == 0),
    {
        self.0.len() == 0
    }

    /// The empty sequence.
    pub fn empty() -> (r: Self)
        ensures
            r@ == Seq::<u8>::empty(),
    {
        Self(Vec::new())
    }

    /// A coded sequence as it is received.
    pub fn from_vec(data: Vec<u8>) -> (r: Self)
        ensures
            r@ == data@,
    {
        Self(data)
    }

    /// Codes `data`, each maximal run of equal bytes apart.
    pub fn encode(data: &[u8]) -> (r: Self)
        ensures
            r@ == rle_encode(data@),
    {
        let mut sequence: Vec<u8> = Vec::new();
        let mut value: u8 = 0;
        let mut pending: usize = 0;
        let mut i: usize = 0;
        assert(data@.skip(0) =~= data@);
        while i < data.len()
            invariant
                i <= data@.len(),
                pending <= i,
                rle_encode(data@) == sequence@ + rle_from(data@.skip(i as int), value, pending as nat),
            decreases data@.len() - i,
        {
            let b = data[i];
            let ghost rest = data@.skip(i as int);
            assert(rest[0] == b);
            assert(rest.drop_first() =~= data@.skip(i + 1));
            let ghost prev = sequence@;
            let ghost v0 = value;
            let ghost p0 = pending as nat;
            if pending > 0 && b == value {
                pending = pending + 1;
            } else {
                emit_byte_run(&mut sequence, value, pending);
                value = b;
                pending = 1;
                assert(sequence@ + rle_from(data@.skip(i + 1), value, 1) =~= prev + rle_from(
                    rest,
                    v0,
                    p0,
                ));
            }
            i = i + 1;
        }
        emit_byte_run(&mut sequence, value, pending);
        assert(data@.skip(i as int) =~= Seq::<u8>::empty());
        assert(sequence@ =~= rle_encode(data@));
        Self(sequence)
    }

    /// Decodes the sequence.
    pub fn decode(&self) -> (r: Vec<u8>)
        ensures
            r@ == rle_decode(self@),
    {
        let s = &self.0;
        let ghost sq = self@;
        let mut data: Vec<u8> = Vec::new();
        let mut i: usize = 0;
        let mut consecutive_count: usize = 0;
        let mut last_byte: Option<u8> = None;
        assert(sq.skip(0) =~= sq);
        while i < s.len()
            invariant
                sq == s@,
                i <= sq.len(),
                consecutive_count < 4,
                rle_decode(sq) == data@ + rle_decode_from(
                    sq.skip(i as int),
                    last_byte,
                    consecutive_count as nat,
                ),
            decreases sq.len() - i,
        {
            let byte = s[i];
            let ghost rest = sq.skip(i as int);
            let ghost prev = data@;
            assert(rest[0] == byte);
            assert(rest.drop_first() =~= sq.skip(i + 1));
            i = i + 1;
            data.push(byte);
            let same = match last_byte {
                Some(l) => l == byte,
                None => false,
            };
            if same {
                consecutive_count = consecutive_count + 1;
            } else {
                consecutive_count = 1;
                last_byte = Some(byte);
            }
            if consecutive_count == 4 {
                if i < s.len() {
                    let run_length = s[i];
                    assert(rest[1] == run_length);
                    assert(rest.skip(2) =~= sq.skip(i + 1));
                    i = i + 1;
                    push_repeat(&mut data, byte, run_length as usize);
                    assert(data@ =~= prev + seq![byte] + repeat_byte(byte, run_length as nat));
                } else {
                    assert(sq.skip(i as int) =~= Seq::<u8>::empty());
                }
                consecutive_count = 0;
                last_byte = None;
            }
        }
        assert(sq.skip(i as int) =~= Seq::<u8>::empty());
        assert(data@ =~= rle_decode(sq));
        data
    }
}


/// The decoder state after the code of a run of `len` bytes `v`: a run that
/// ends in a piece of four or more leaves no count behind.
pub open spec fn run_end_state(v: u8, len: nat) -> (Option<u8>, nat)
    decreases len,
{
    let r: nat = if len > 255 {
        255
    } else {
        len
    };
    if len > r {
        run_end_state(v, (len - r) as nat)
    } else if r < 4 {
        (Some(v), r)
    } else {
        (None, 0)
    }
}

proof fn lemma_decode_repeat(v: u8, k: nat, c: nat, rest: Seq<u8>)
    requires
        1 <= c,
        c + k <= 3,
    ensures
        rle_decode_from(repeat_byte(v, k) + rest, Some(v), c) == repeat_byte(v, k)
            + rle_decode_from(rest, Some(v), c + k),
    decreases k,
{
    if k > 0 {
        let s = repeat_byte(v, k) + rest;
        assert(s[0] == v);
        assert(s.drop_first() =~= repeat_byte(v, (k - 1) as nat) + rest);
        lemma_decode_repeat(v, (k - 1) as nat, c + 1, rest);
        assert(seq![v] + (repeat_byte(v, (k - 1) as nat) + rle_decode_from(
            rest,
            Some(v),
            c + k,
        )) =~= repeat_byte(v, k) + rle_decode_from(rest, Some(v), c + k));
    } else {
        assert(repeat_byte(v, k) + rest =~= rest);
        assert(repeat_byte(v, k) + rle_decode_from(rest, Some(v), c) =~= rle_decode_from(
            rest,
            Some(v),
            c,
        ));
    }
}

proof fn lemma_decode_run(v: u8, len: nat, rest: Seq<u8>, last: Option<u8>, count: nat)
    requires
        len > 0,
        last != Some(v),
    ensures
        rle_decode_from(encode_run(v, len) + rest, last, count) == repeat_byte(v, len)
            + rle_decode_from(rest, run_end_state(v, len).0, run_end_state(v, len).1),
        run_end_state(v, len).0 is None || run_end_state(v, len).0 == Some(v),
    decreases len,
{
    let r: nat = if len > 255 {
        255
    } else {
        len
    };
    let tail = encode_run(v, (len - r) as nat) + rest;
    if r < 4 {
        assert(len == r);
        assert(encode_run(v, 0) =~= Seq::<u8>::empty());
        let s = repeat_byte(v, r) + rest;
        assert(encode_run(v, len) + rest =~= s);
        assert(s[0] == v);
        assert(s.drop_first() =~= repeat_byte(v, (r - 1) as nat) + rest);
        lemma_decode_repeat(v, (r - 1) as nat, 1, rest);
        assert(seq![v] + (repeat_byte(v, (r - 1) as nat) + rle_decode_from(rest, Some(v), r))
            =~= repeat_byte(v, len) + rle_decode_from(rest, Some(v), r));
    } else {
        let x = (r - 4) as u8;
        let s = repeat_byte(v, 4).push(x) + tail;
        assert(encode_run(v, len) + rest =~= s);
        assert(s[0] == v);
        let s1 = seq![v, x] + tail;
        assert(s.drop_first() =~= repeat_byte(v, 2) + s1);
        lemma_decode_repeat(v, 2, 1, s1);
        assert(s1[0] == v);
        assert(s1[1] == x);
        assert(s1.skip(2) =~= tail);
        let after = rle_decode_from(tail, None, 0);
        assert(rle_decode_from(s1, Some(v), 3) == seq![v] + repeat_byte(v, x as nat) + after);
        if len > r {
            lemma_decode_run(v, (len - r) as nat, rest, None, 0);
            assert(seq![v] + (repeat_byte(v, 2) + (seq![v] + repeat_byte(v, x as nat)
                + repeat_byte(v, (len - r) as nat))) =~= repeat_byte(v, len));
            assert(seq![v] + (repeat_byte(v, 2) + (seq![v] + repeat_byte(v, x as nat) + after))
                =~= repeat_byte(v, len) + rle_decode_from(
                rest,
                run_end_state(v, len).0,
                run_end_state(v, len).1,
            ));
        } else {
            assert(encode_run(v, 0) =~= Seq::<u8>::empty());
            assert(tail =~= rest);
            assert(seq![v] + (repeat_byte(v, 2) + (seq![v] + repeat_byte(v, x as nat) + after))
                =~= repeat_byte(v, len) + after);
        }
    }
}

proof fn lemma_decode_rle_from(data: Seq<u8>, v: u8, pending: nat, last: Option<u8>, count: nat)
    requires
        pending == 0 ==> last is None,
        pending > 0 ==> last != Some(v),
    ensures
        rle_decode_from(rle_from(data, v, pending), last, count) == repeat_byte(v, pending)
            + data,
    decreases data.len(),
{
    if data.len() == 0 {
        if pending == 0 {
            assert(encode_run(v, 0) =~= Seq::<u8>::empty());
            assert(repeat_byte(v, 0) + data =~= Seq::<u8>::empty());
        } else {
            lemma_decode_run(v, pending, Seq::empty(), last, count);
            assert(encode_run(v, pending) + Seq::<u8>::empty() =~= encode_run(v, pending));
            assert(repeat_byte(v, pending) + Seq::<u8>::empty() =~= repeat_byte(v, pending));
            assert(repeat_byte(v, pending) + data =~= repeat_byte(v, pending));
        }
    } else if pending > 0 && data[0] == v {
        lemma_decode_rle_from(data.drop_first(), v, pending + 1, last, count);
        assert(repeat_byte(v, pending + 1) + data.drop_first() =~= repeat_byte(v, pending)
            + data);
    } else {
        let w = data[0];
        let next = rle_from(data.drop_first(), w, 1);
        if pending == 0 {
            assert(encode_run(v, 0) =~= Seq::<u8>::empty());
            assert(encode_run(v, 0) + next =~= next);
            lemma_decode_rle_from(data.drop_first(), w, 1, last, count);
        } else {
            lemma_decode_run(v, pending, next, last, count);
            let st = run_end_state(v, pending);
            lemma_decode_rle_from(data.drop_first(), w, 1, st.0, st.1);
        }
        assert(repeat_byte(w, 1) + data.drop_first() =~= data);
        assert(repeat_byte(v, pending) + (repeat_byte(w, 1) + data.drop_first())
            =~= repeat_byte(v, pending) + data);
        if pending == 0 {
            assert(repeat_byte(v, 0) + data =~= data);
        }
    }
}

/// Decoding undoes the run-length code of every byte sequence.
pub proof fn lemma_rle_round_trip(data: Seq<u8>)
    ensures
        rle_decode(rle_encode(data)) == data,
{
    lemma_decode_rle_from(data, 0, 0, None, 0);
    assert(repeat_byte(0, 0) + data =~= data);
}

} // verus!
