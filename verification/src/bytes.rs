//! Byte strings: order, comparison, and the integer encodings of the wire formats.

use vstd::prelude::*;

verus! {

/// `a` precedes `b` in lexicographic order.
pub open spec fn lex_less(a: Seq<u8>, b: Seq<u8>) -> bool {
    exists|k: int| #[trigger] first_difference(a, b, k)
}

/// `a` and `b` agree on their first `k` bytes, and `a` is the smaller one at position `k`.
pub open spec fn first_difference(a: Seq<u8>, b: Seq<u8>, k: int) -> bool {
    &&& 0 <= k <= a.len()
    &&& k < b.len()
    &&& forall|i: int| 0 <= i < k ==> a[i] == b[i]
    &&& k < a.len() ==> a[k] < b[k]
}

/// The lexicographic order is asymmetric.
pub proof fn lemma_lex_asymmetric(a: Seq<u8>, b: Seq<u8>)
    requires
        lex_less(a, b),
    ensures
        !lex_less(b, a),
        a != b,
{
    let k = choose|k: int| #[trigger] first_difference(a, b, k);
    assert forall|j: int| #[trigger] first_difference(b, a, j) implies false by {
        if j < k {
            assert(a[j] == b[j]);
        } else if k < j {
            assert(a[k] == b[k]);
        }
    }
}

/// The lexicographic order is transitive.
pub proof fn lemma_lex_transitive(a: Seq<u8>, b: Seq<u8>, c: Seq<u8>)
    requires
        lex_less(a, b),
        lex_less(b, c),
    ensures
        lex_less(a, c),
{
    let k = choose|k: int| #[trigger] first_difference(a, b, k);
    let j = choose|j: int| #[trigger] first_difference(b, c, j);
    if k < j {
        assert(first_difference(a, c, k));
    } else {
        assert(first_difference(a, c, j));
    }
}

/// Two byte strings are equal, or one of them precedes the other.
pub proof fn lemma_lex_total(a: Seq<u8>, b: Seq<u8>)
    ensures
        a == b || lex_less(a, b) || lex_less(b, a),
{
    if a != b && !lex_less(a, b) && !lex_less(b, a) {
        lemma_no_difference(a, b, a.len() as int);
        lemma_no_difference(b, a, b.len() as int);
        assert(a =~= b);
    }
}

proof fn lemma_no_difference(a: Seq<u8>, b: Seq<u8>, n: int)
    requires
        !lex_less(a, b),
        !lex_less(b, a),
        0 <= n <= a.len(),
    ensures
        n <= b.len(),
        forall|i: int| 0 <= i < n ==> a[i] == b[i],
    decreases n,
{
    if n > 0 {
        lemma_no_difference(a, b, n - 1);
        if n > b.len() {
            assert(first_difference(b, a, n - 1));
        } else {
            assert(!first_difference(a, b, n - 1));
            assert(!first_difference(b, a, n - 1));
        }
    }
}

/// Whether two byte strings are equal.
pub fn bytes_equal(a: &[u8], b: &[u8]) -> (res: bool)
    ensures
        res == (a@ == b@),
{
    if a.len() != b.len() {
        return false;
    }
    let mut i: usize = 0;
    while i < a.len()
        invariant
            a@.len() == b@.len(),
            i <= a@.len(),
            forall|j: int| 0 <= j < i ==> a@[j] == b@[j],
        decreases a@.len() - i,
    {
        if a[i] != b[i] {
            return false;
        }
        i += 1;
    }
    assert(a@ =~= b@);
    true
}

/// Whether `a` precedes `b` in lexicographic order.
pub fn precedes(a: &[u8], b: &[u8]) -> (res: bool)
    ensures
        res == lex_less(a@, b@),
{
    let mut i: usize = 0;
    while i < a.len() && i < b.len() && a[i] == b[i]
        invariant
            i <= a@.len(),
            i <= b@.len(),
            forall|j: int| 0 <= j < i ==> a@[j] == b@[j],
        decreases a@.len() - i,
    {
        i += 1;
    }
    let res = i < b.len() && (i == a.len() || a[i] < b[i]);
    proof {
        if res {
            assert(first_difference(a@, b@, i as int));
        } else {
            assert forall|k: int| #[trigger] first_difference(a@, b@, k) implies false by {
                if k > i {
                    assert(a@[i as int] == b@[i as int]);
                }
            }
        }
    }
    res
}

/// A copy of a byte string.
pub fn copy_bytes(bytes: &[u8]) -> (res: Vec<u8>)
    ensures
        res@ == bytes@,
{
    let mut res: Vec<u8> = Vec::with_capacity(bytes.len());
    append_bytes(&mut res, bytes);
    assert(res@ =~= bytes@);
    res
}

/// Appends `bytes` to `out`.
pub fn append_bytes(out: &mut Vec<u8>, bytes: &[u8])
    ensures
        final(out)@ == old(out)@ + bytes@,
{
    let mut i: usize = 0;
    while i < bytes.len()
        invariant
            i <= bytes@.len(),
            out@ == old(out)@ + bytes@.take(i as int),
        decreases bytes@.len() - i,
    {
        out.push(bytes[i]);
        i += 1;
        assert(bytes@.take(i as int) =~= bytes@.take(i - 1).push(bytes@[i - 1]));
    }
    assert(bytes@.take(i as int) =~= bytes@);
}

/// The `width` lowest bytes of `n`, the lowest one first.
pub open spec fn le_bytes(n: nat, width: nat) -> Seq<u8>
    decreases width,
{
    if width == 0 {
        Seq::empty()
    } else {
        seq![(n % 256) as u8] + le_bytes(n / 256, (width - 1) as nat)
    }
}

/// The `width` lowest bytes of `n`, the highest one first.
pub open spec fn be_bytes(n: nat, width: nat) -> Seq<u8>
    decreases width,
{
    if width == 0 {
        Seq::empty()
    } else {
        be_bytes(n / 256, (width - 1) as nat).push((n % 256) as u8)
    }
}

/// The number that a byte string encodes, the highest byte first.
pub open spec fn be_value(bytes: Seq<u8>) -> nat
    decreases bytes.len(),
{
    if bytes.len() == 0 {
        0
    } else {
        be_value(bytes.drop_last()) * 256 + bytes.last() as nat
    }
}

/// A number below 256 to the power of `width` is what its encoding of that width encodes.
pub proof fn lemma_be_bytes_value(n: nat, width: nat)
    requires
        n < power_of_256(width),
    ensures
        be_bytes(n, width).len() == width,
        be_value(be_bytes(n, width)) == n,
    decreases width,
{
    if width > 0 {
        let rest = (width - 1) as nat;
        assert(n / 256 < power_of_256(rest));
        lemma_be_bytes_value(n / 256, rest);
        assert(be_bytes(n, width).drop_last() =~= be_bytes(n / 256, rest));
    }
}

/// The number of byte strings of a length.
pub open spec fn power_of_256(width: nat) -> nat
    decreases width,
{
    if width == 0 {
        1
    } else {
        256 * power_of_256((width - 1) as nat)
    }
}

/// A byte string encodes a number below 256 to the power of its length.
pub proof fn lemma_be_value_bound(bytes: Seq<u8>)
    ensures
        be_value(bytes) < power_of_256(bytes.len()),
    decreases bytes.len(),
{
    if bytes.len() > 0 {
        lemma_be_value_bound(bytes.drop_last());
    }
}

/// A byte string is the encoding of the number that it encodes.
pub proof fn lemma_be_round_trip(bytes: Seq<u8>)
    ensures
        be_bytes(be_value(bytes), bytes.len()) == bytes,
    decreases bytes.len(),
{
    if bytes.len() > 0 {
        let rest = bytes.drop_last();
        let last = bytes.last() as nat;
        lemma_be_round_trip(rest);
        assert((be_value(rest) * 256 + last) / 256 == be_value(rest));
        assert((be_value(rest) * 256 + last) % 256 == last);
        assert(be_bytes(be_value(bytes), bytes.len()) =~= bytes);
    } else {
        assert(be_bytes(be_value(bytes), 0) =~= bytes);
    }
}

/// An encoding of `width` bytes has that length.
pub proof fn lemma_le_bytes_len(n: nat, width: nat)
    ensures
        le_bytes(n, width).len() == width,
    decreases width,
{
    if width > 0 {
        lemma_le_bytes_len(n / 256, (width - 1) as nat);
    }
}

/// Appends the `width` lowest bytes of `n`, the lowest one first.
pub fn append_le(out: &mut Vec<u8>, n: u64, width: usize)
    ensures
        final(out)@ == old(out)@ + le_bytes(n as nat, width as nat),
{
    let mut rest: u64 = n;
    let mut left: usize = width;
    while left > 0
        invariant
            left <= width,
            out@ + le_bytes(rest as nat, left as nat) == old(out)@ + le_bytes(
                n as nat,
                width as nat,
            ),
        decreases left,
    {
        let ghost before = out@;
        out.push((rest % 256) as u8);
        proof {
            assert(before + le_bytes(rest as nat, left as nat) =~= out@ + le_bytes(
                rest as nat / 256,
                (left - 1) as nat,
            ));
        }
        rest = rest / 256;
        left -= 1;
    }
    assert(out@ + le_bytes(rest as nat, 0) =~= out@);
}

/// The four bytes of `n`, the highest one first.
pub fn be_four(n: u32) -> (res: [u8; 4])
    ensures
        res@ == be_bytes(n as nat, 4),
{
    let res = [
        (n / 16777216 % 256) as u8,
        (n / 65536 % 256) as u8,
        (n / 256 % 256) as u8,
        (n % 256) as u8,
    ];
    proof {
        reveal_with_fuel(be_bytes, 5);
        assert(n as nat / 256 / 256 == n as nat / 65536);
        assert(n as nat / 256 / 256 / 256 == n as nat / 16777216);
        assert(res@ =~= be_bytes(n as nat, 4));
    }
    res
}

/// The variable length encoding of a count.
pub open spec fn compact_size(n: nat) -> Seq<u8> {
    if n < 0xfd {
        seq![n as u8]
    } else if n <= 0xffff {
        seq![0xfdu8] + le_bytes(n, 2)
    } else if n <= 0xffff_ffff {
        seq![0xfeu8] + le_bytes(n, 4)
    } else {
        seq![0xffu8] + le_bytes(n, 8)
    }
}

/// Appends the variable length encoding of a count.
pub fn append_compact_size(out: &mut Vec<u8>, n: usize)
    ensures
        final(out)@ == old(out)@ + compact_size(n as nat),
{
    let n: u64 = n as u64;
    if n < 0xfd {
        out.push(n as u8);
        assert(out@ =~= old(out)@ + compact_size(n as nat));
    } else if n <= 0xffff {
        out.push(0xfdu8);
        append_le(out, n, 2);
        assert(out@ =~= old(out)@ + compact_size(n as nat));
    } else if n <= 0xffff_ffff {
        out.push(0xfeu8);
        append_le(out, n, 4);
        assert(out@ =~= old(out)@ + compact_size(n as nat));
    } else {
        out.push(0xffu8);
        append_le(out, n, 8);
        assert(out@ =~= old(out)@ + compact_size(n as nat));
    }
}

/// The number of bytes in the variable length encoding of a count.
pub fn compact_size_len(n: usize) -> (res: u64)
    ensures
        res == compact_size(n as nat).len(),
{
    proof {
        lemma_le_bytes_len(n as nat, 2);
        lemma_le_bytes_len(n as nat, 4);
        lemma_le_bytes_len(n as nat, 8);
    }
    if n < 0xfd {
        1
    } else if n <= 0xffff {
        3
    } else if n as u64 <= 0xffff_ffff {
        5
    } else {
        9
    }
}

/// For byte strings of one length, the lexicographic order is the order of the numbers that they
/// encode, highest byte first.
pub proof fn lemma_be_value_order(a: Seq<u8>, b: Seq<u8>)
    requires
        a.len() == b.len(),
    ensures
        lex_less(a, b) <==> be_value(a) < be_value(b),
    decreases a.len(),
{
    if a.len() == 0 {
    } else {
        let ra = a.drop_last();
        let rb = b.drop_last();
        let n = a.len() - 1;
        lemma_be_value_order(ra, rb);
        lemma_be_value_order(rb, ra);
        if lex_less(a, b) {
            let k = choose|k: int| #[trigger] first_difference(a, b, k);
            if k < n {
                assert(first_difference(ra, rb, k));
            } else {
                assert(ra =~= rb);
            }
        } else if be_value(a) < be_value(b) {
            lemma_lex_total(ra, rb);
            if lex_less(ra, rb) {
                let k = choose|k: int| #[trigger] first_difference(ra, rb, k);
                assert forall|i: int| 0 <= i < k implies a[i] == b[i] by {
                    assert(ra[i] == rb[i]);
                }
                assert(ra[k] < rb[k]);
                assert(first_difference(a, b, k));
            } else if ra == rb {
                assert forall|i: int| 0 <= i < n implies a[i] == b[i] by {
                    assert(ra[i] == rb[i]);
                }
                assert(first_difference(a, b, n));
            }
        }
    }
}

/// The four bytes of a number, the highest one first.
pub proof fn law_be_four(n: u32)
    ensures
        be_bytes(n as nat, 4) == seq![
            (n / 0x100_0000) as u8,
            (n / 0x1_0000 % 0x100) as u8,
            (n / 0x100 % 0x100) as u8,
            (n % 0x100) as u8,
        ],
{
    reveal_with_fuel(be_bytes, 5);
    assert(n as nat / 256 / 256 == n as nat / 0x1_0000);
    assert(n as nat / 256 / 256 / 256 == n as nat / 0x100_0000);
    assert(be_bytes(n as nat, 4) =~= seq![
        (n / 0x100_0000) as u8,
        (n / 0x1_0000 % 0x100) as u8,
        (n / 0x100 % 0x100) as u8,
        (n % 0x100) as u8,
    ]);
}

/// The four bytes of a number, the lowest one first.
pub proof fn law_le_four(n: u32)
    ensures
        le_bytes(n as nat, 4) == seq![
            (n % 0x100) as u8,
            (n / 0x100 % 0x100) as u8,
            (n / 0x1_0000 % 0x100) as u8,
            (n / 0x100_0000) as u8,
        ],
{
    reveal_with_fuel(le_bytes, 5);
    assert(n as nat / 256 / 256 == n as nat / 0x1_0000);
    assert(n as nat / 256 / 256 / 256 == n as nat / 0x100_0000);
    assert(le_bytes(n as nat, 4) =~= seq![
        (n % 0x100) as u8,
        (n / 0x100 % 0x100) as u8,
        (n / 0x1_0000 % 0x100) as u8,
        (n / 0x100_0000) as u8,
    ]);
}

/// The number of a byte string is made of its parts: what stands in front counts 256 times for each
/// byte behind it. One byte stands for itself.
pub proof fn law_be_value_of_parts(a: Seq<u8>, b: Seq<u8>, byte: u8)
    ensures
        be_value(Seq::empty()) == 0,
        be_value(seq![byte]) == byte,
        be_value(a + b) == be_value(a) * vstd::arithmetic::power::pow(256, b.len()) + be_value(b),
    decreases b.len(),
{
    reveal_with_fuel(be_value, 2);
    assert(seq![byte].drop_last() =~= Seq::empty());
    if b.len() == 0 {
        assert(a + b =~= a);
        vstd::arithmetic::power::lemma_pow0(256);
    } else {
        let rest = b.drop_last();
        let shift = vstd::arithmetic::power::pow(256, rest.len());
        law_be_value_of_parts(a, rest, byte);
        assert((a + b).drop_last() =~= a + rest);
        reveal(vstd::arithmetic::power::pow);
        assert(vstd::arithmetic::power::pow(256, b.len()) == 256 * shift);
        assert((be_value(a) * shift + be_value(rest)) * 256 + b.last() == be_value(a) * (256
            * shift) + (be_value(rest) * 256 + b.last())) by (nonlinear_arith);
    }
}

/// The bytes of a number are as many as are asked for, and stand for the number, as far as it can
/// be written with so many: the highest one first, or the lowest one first.
pub proof fn law_encodings_stand_for_numbers(n: nat, width: nat)
    requires
        n < vstd::arithmetic::power::pow(256, width),
    ensures
        be_bytes(n, width).len() == width,
        be_value(be_bytes(n, width)) == n,
        le_bytes(n, width) == be_bytes(n, width).reverse(),
{
    lemma_power(width);
    lemma_be_bytes_value(n, width);
    lemma_reversed(n, width);
}

proof fn lemma_power(width: nat)
    ensures
        power_of_256(width) == vstd::arithmetic::power::pow(256, width),
    decreases width,
{
    reveal(vstd::arithmetic::power::pow);
    if width > 0 {
        lemma_power((width - 1) as nat);
    }
}

proof fn lemma_reversed(n: nat, width: nat)
    ensures
        be_bytes(n, width).len() == width,
        le_bytes(n, width) == be_bytes(n, width).reverse(),
    decreases width,
{
    if width > 0 {
        let rest = (width - 1) as nat;
        lemma_reversed(n / 256, rest);
        assert(be_bytes(n, width).reverse() =~= seq![(n % 256) as u8] + be_bytes(
            n / 256,
            rest,
        ).reverse());
    } else {
        assert(be_bytes(n, width).reverse() =~= Seq::empty());
    }
}

/// The variable length encoding of a count: below 253 the count itself; otherwise a byte that says
/// in how many bytes the count follows, two, four or eight, whichever suffice, the lowest one
/// first.
pub proof fn law_compact_size(n: nat)
    requires
        n <= u64::MAX,
    ensures
        n < 253 ==> compact_size(n) == seq![n as u8],
        n >= 253 ==> ({
            let width: int = if n < 0x1_0000 {
                2
            } else if n < 0x1_0000_0000 {
                4
            } else {
                8
            };
            &&& compact_size(n).len() == 1 + width
            &&& compact_size(n)[0] == (if width == 2 {
                253
            } else if width == 4 {
                254
            } else {
                255int
            })
            &&& be_value(compact_size(n).skip(1).reverse()) == n
        }),
{
    if n >= 253 {
        let width: nat = if n < 0x1_0000 {
            2
        } else if n < 0x1_0000_0000 {
            4
        } else {
            8
        };
        reveal_with_fuel(vstd::arithmetic::power::pow, 9);
        law_encodings_stand_for_numbers(n, width);
        lemma_le_bytes_len(n, width);
        assert(compact_size(n).skip(1) =~= le_bytes(n, width));
        assert(le_bytes(n, width).reverse() =~= be_bytes(n, width));
    }
}

/// Of two different byte strings exactly one precedes the other: the one with the lower byte where
/// they first differ, or the one that ends there.
pub proof fn law_lexicographic_order(a: Seq<u8>, b: Seq<u8>)
    ensures
        a == b ==> !lex_less(a, b),
        a != b ==> lex_less(a, b) != lex_less(b, a),
        lex_less(a, b) <==> exists|k: int|
            {
                &&& 0 <= k < b.len()
                &&& k <= a.len()
                &&& #[trigger] a.take(k) == b.take(k)
                &&& k == a.len() || a[k] < b[k]
            },
{
    if lex_less(a, b) {
        lemma_lex_asymmetric(a, b);
        let k = choose|k: int| #[trigger] first_difference(a, b, k);
        assert(a.take(k) =~= b.take(k));
    }
    if lex_less(b, a) {
        lemma_lex_asymmetric(b, a);
    }
    lemma_lex_total(a, b);
    assert forall|k: int|
        {
            &&& 0 <= k < b.len()
            &&& k <= a.len()
            &&& #[trigger] a.take(k) == b.take(k)
            &&& k == a.len() || a[k] < b[k]
        } implies lex_less(a, b) by {
        assert forall|i: int| 0 <= i < k implies a[i] == b[i] by {
            assert(a.take(k)[i] == b.take(k)[i]);
        }
        assert(first_difference(a, b, k));
    }
}

} // verus!
