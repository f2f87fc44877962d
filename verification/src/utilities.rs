use vstd::prelude::*;

verus! {

/// Powers of two, for bit weights.
pub open spec fn pow2(n: nat) -> nat
    decreases n,
{
    if n == 0 {
        1
    } else {
        2 * pow2((n - 1) as nat)
    }
}

/// The binary digits of a text, in order; every other character is
/// ignored.
pub open spec fn bit_chars(s: Seq<char>) -> Seq<char>
    decreases s.len(),
{
    if s.len() == 0 {
        seq![]
    } else {
        bit_chars(s.drop_last()) + (if s.last() == '1' || s.last() == '0' {
            seq![s.last()]
        } else {
            seq![]
        })
    }
}

/// The value of one binary digit.
pub open spec fn bit_val(c: char) -> nat {
    if c == '1' {
        1
    } else {
        0
    }
}

/// The value that positions `t` and onward of a chunk contribute to its
/// byte, most significant digit first; digits past the eighth, or past
/// the chunk's end, contribute nothing.
pub open spec fn chunk_value(bits: Seq<char>, t: int) -> nat
    decreases 8 - t,
{
    if t < 0 || t >= 8 || t >= bits.len() {
        0
    } else {
        bit_val(bits[t]) * pow2((7 - t) as nat) + chunk_value(bits, t + 1)
    }
}

/// The bytes a run of binary digits packs into: eight digits per byte,
/// most significant first, a trailing short chunk zero-padded at the low
/// end.
pub open spec fn packed_bytes(bits: Seq<char>) -> Seq<u8>
    decreases bits.len(),
{
    if bits.len() == 0 {
        seq![]
    } else {
        seq![chunk_value(bits, 0) as u8] + packed_bytes(
            bits.skip(
                if bits.len() < 8 {
                    bits.len() as int
                } else {
                    8
                },
            ),
        )
    }
}

/// Powers of two are positive.
proof fn lemma_pow2_pos(n: nat)
    ensures
        pow2(n) >= 1,
    decreases n,
{
    if n > 0 {
        lemma_pow2_pos((n - 1) as nat);
    }
}

/// `chunk_value` reads only the first eight positions.
proof fn lemma_chunk_agree(s1: Seq<char>, s2: Seq<char>, t: int)
    requires
        s1.len() >= 8,
        s2.len() >= 8,
        forall|i: int| 0 <= i < 8 ==> s1[i] == s2[i],
        0 <= t,
    ensures
        chunk_value(s1, t) == chunk_value(s2, t),
    decreases 8 - t,
{
    if t < 8 {
        assert(s1[t] == s2[t]);
        lemma_chunk_agree(s1, s2, t + 1);
    }
}

/// Appending one digit to a short chunk adds its weighted value.
proof fn lemma_chunk_push(bits: Seq<char>, b: char, t: int)
    requires
        bits.len() <= 7,
        0 <= t <= bits.len(),
    ensures
        chunk_value(bits.push(b), t) == chunk_value(bits, t) + bit_val(b) * pow2(
            (7 - bits.len()) as nat,
        ),
    decreases 8 - t,
{
    if t == bits.len() {
        assert(chunk_value(bits, t) == 0);
        assert(chunk_value(bits.push(b), t + 1) == 0);
    } else {
        lemma_chunk_push(bits, b, t + 1);
    }
}

/// A chunk of at most eight digits stays under its padding bound.
proof fn lemma_chunk_bound(bits: Seq<char>, t: int)
    requires
        0 <= t <= bits.len(),
        bits.len() <= 8,
    ensures
        chunk_value(bits, t) <= pow2((8 - t) as nat) - pow2((8 - bits.len()) as nat),
    decreases 8 - t,
{
    if t == bits.len() {
    } else {
        lemma_chunk_bound(bits, t + 1);
        assert(bit_val(bits[t]) <= 1);
        assert(pow2((8 - t) as nat) == 2 * pow2((7 - t) as nat));
    }
}

/// Packing distributes over a whole number of chunks.
proof fn lemma_packed_append(a: Seq<char>, c: Seq<char>)
    requires
        a.len() % 8 == 0,
    ensures
        packed_bytes(a + c) == packed_bytes(a) + packed_bytes(c),
    decreases a.len(),
{
    if a.len() == 0 {
        assert(a + c =~= c);
    } else {
        assert(a.len() >= 8) by (nonlinear_arith)
            requires
                a.len() % 8 == 0,
                a.len() > 0,
        ;
        let rest = a.skip(8);
        assert(rest.len() % 8 == 0) by (nonlinear_arith)
            requires
                a.len() % 8 == 0,
                a.len() >= 8,
                rest.len() == a.len() - 8,
        ;
        assert((a + c).skip(8) =~= rest + c);
        lemma_chunk_agree(a + c, a, 0);
        lemma_packed_append(rest, c);
        if c.len() == 0 {
            assert(a + c =~= a);
        } else {
            assert(packed_bytes(a + c) =~= packed_bytes(a) + packed_bytes(c));
        }
    }
}

/// One more character of text extends the digit run by at most one digit.
proof fn lemma_bits_step(s: Seq<char>, i: int)
    requires
        0 <= i < s.len(),
    ensures
        bit_chars(s.take(i + 1)) == bit_chars(s.take(i)) + (if s[i] == '1' || s[i] == '0' {
            seq![s[i]]
        } else {
            seq![]
        }),
{
    let a = s.take(i + 1);
    assert(a.drop_last() =~= s.take(i));
    assert(a.last() == s[i]);
}

/// The exponent's power of two, computed.
fn pow2_u8(e: usize) -> (r: u8)
    requires
        e <= 7,
    ensures
        r == pow2(e as nat),
{
    proof {
        reveal_with_fuel(pow2, 9);
    }
    if e == 0 {
        1
    } else if e == 1 {
        2
    } else if e == 2 {
        4
    } else if e == 3 {
        8
    } else if e == 4 {
        16
    } else if e == 5 {
        32
    } else if e == 6 {
        64
    } else {
        128
    }
}

/// Packs the binary digits of a text into bytes, most significant digit
/// first, eight to a byte; characters other than `0` and `1` are
/// ignored, and a trailing short group becomes a final byte padded with
/// zeros at the low end.
#[verifier::loop_isolation(false)]
pub fn convert_string_to_u8(content: &String) -> (data: Vec<u8>)
    ensures
        data@ == packed_bytes(bit_chars(content@)),
{
    let text = content.as_str();
    let n = text.unicode_len();
    let mut data: Vec<u8> = Vec::new();
    let mut counter: usize = 7;
    let mut value: u8 = 0;
    let mut idx: usize = 0;
    let ghost s = content@;
    let ghost mut done: Seq<char> = seq![];
    let ghost mut part: Seq<char> = seq![];
    proof {
        assert(bit_chars(s.take(0)) =~= done + part);
    }
    while idx < n
        invariant
            idx <= n,
            n == s.len(),
            text@ == s,
            part.len() <= 7,
            counter == 7 - part.len(),
            value == chunk_value(part, 0),
            data@ == packed_bytes(done),
            done.len() == 8 * data@.len(),
            bit_chars(s.take(idx as int)) == done + part,
        decreases n - idx,
    {
        let c = text.get_char(idx);
        proof {
            lemma_bits_step(s, idx as int);
        }
        if c == '1' {
            proof {
                lemma_chunk_bound(part, 0);
                lemma_chunk_push(part, c, 0);
                assert(pow2((8 - part.len()) as nat) == 2 * pow2((7 - part.len()) as nat));
                lemma_pow2_pos((7 - part.len()) as nat);
                assert(pow2(8) == 256) by {
                    reveal_with_fuel(pow2, 9);
                }
            }
            value = value + pow2_u8(counter);
        }
        if c == '1' || c == '0' {
            proof {
                lemma_chunk_push(part, c, 0);
                if c != '1' {
                    assert(bit_val(c) == 0);
                }
                part = part.push(c);
                assert(value == chunk_value(part, 0));
            }
            if counter == 0 {
                proof {
                    lemma_packed_append(done, part);
                    assert(part.skip(8) =~= Seq::<char>::empty());
                    assert(packed_bytes(part.skip(8)) =~= Seq::<u8>::empty());
                    assert(packed_bytes(part) =~= seq![chunk_value(part, 0) as u8]);
                    lemma_chunk_bound(part, 0);
                    done = done + part;
                    part = seq![];
                }
                data.push(value);
                value = 0;
                counter = 8;
            }
            counter = counter - 1;
        }
        idx += 1;
    }
    proof {
        assert(s.take(n as int) =~= s);
    }
    if counter < 7 {
        proof {
            lemma_packed_append(done, part);
            assert(part.skip(part.len() as int) =~= Seq::<char>::empty());
            assert(packed_bytes(part.skip(part.len() as int)) =~= Seq::<u8>::empty());
            assert(packed_bytes(part) =~= seq![chunk_value(part, 0) as u8]);
            lemma_chunk_bound(part, 0);
        }
        data.push(value);
    } else {
        proof {
            assert(part.len() == 0);
            assert(done + part =~= done);
        }
    }
    data
}

} // verus!
