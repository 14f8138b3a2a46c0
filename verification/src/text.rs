//! Numbers and bytes as text.

use vstd::prelude::*;

verus! {

/// The character of a decimal digit.
pub open spec fn digit_char(digit: nat) -> char {
    (digit + '0' as nat) as char
}

/// A number in decimal.
pub open spec fn decimal(n: nat) -> Seq<char>
    decreases n,
{
    if n < 10 {
        seq![digit_char(n)]
    } else {
        decimal(n / 10).push(digit_char(n % 10))
    }
}

/// The character of a hexadecimal digit.
pub open spec fn hex_char(digit: nat) -> char {
    if digit < 10 {
        digit_char(digit)
    } else {
        (digit - 10 + 'a' as nat) as char
    }
}

/// Bytes in hexadecimal, two digits each.
pub open spec fn hex(bytes: Seq<u8>) -> Seq<char>
    decreases bytes.len(),
{
    if bytes.len() == 0 {
        Seq::empty()
    } else {
        hex(bytes.drop_last()) + seq![
            hex_char((bytes.last() / 16) as nat),
            hex_char((bytes.last() % 16) as nat),
        ]
    }
}

/// Numbers in decimal, with commas between them.
pub open spec fn listed(bytes: Seq<u8>) -> Seq<char>
    decreases bytes.len(),
{
    if bytes.len() == 0 {
        Seq::empty()
    } else if bytes.len() == 1 {
        decimal(bytes[0] as nat)
    } else {
        listed(bytes.drop_last()) + ", "@ + decimal(bytes.last() as nat)
    }
}

/// Bytes as a list of decimal numbers in brackets.
pub open spec fn byte_list(bytes: Seq<u8>) -> Seq<char> {
    "["@ + listed(bytes) + "]"@
}

fn digit(n: u64) -> (res: &'static str)
    requires
        n < 10,
    ensures
        res@ == seq![digit_char(n as nat)],
{
    proof {
        reveal_strlit("0");
        reveal_strlit("1");
        reveal_strlit("2");
        reveal_strlit("3");
        reveal_strlit("4");
        reveal_strlit("5");
        reveal_strlit("6");
        reveal_strlit("7");
        reveal_strlit("8");
        reveal_strlit("9");
    }
    let res = match n {
        0 => "0",
        1 => "1",
        2 => "2",
        3 => "3",
        4 => "4",
        5 => "5",
        6 => "6",
        7 => "7",
        8 => "8",
        _ => "9",
    };
    assert(res@ =~= seq![digit_char(n as nat)]);
    res
}

/// Writes a number in decimal.
pub fn to_decimal(n: u64) -> (res: String)
    ensures
        res@ == decimal(n as nat),
    decreases n,
{
    if n < 10 {
        String::from_str(digit(n))
    } else {
        let mut res = to_decimal(n / 10);
        res.append(digit(n % 10));
        assert(res@ =~= decimal(n as nat));
        res
    }
}

fn hex_digit(n: u8) -> (res: &'static str)
    requires
        n < 16,
    ensures
        res@ == seq![hex_char(n as nat)],
{
    proof {
        reveal_strlit("0");
        reveal_strlit("1");
        reveal_strlit("2");
        reveal_strlit("3");
        reveal_strlit("4");
        reveal_strlit("5");
        reveal_strlit("6");
        reveal_strlit("7");
        reveal_strlit("8");
        reveal_strlit("9");
        reveal_strlit("a");
        reveal_strlit("b");
        reveal_strlit("c");
        reveal_strlit("d");
        reveal_strlit("e");
        reveal_strlit("f");
    }
    let res = match n {
        0 => "0",
        1 => "1",
        2 => "2",
        3 => "3",
        4 => "4",
        5 => "5",
        6 => "6",
        7 => "7",
        8 => "8",
        9 => "9",
        10 => "a",
        11 => "b",
        12 => "c",
        13 => "d",
        14 => "e",
        _ => "f",
    };
    assert(res@ =~= seq![hex_char(n as nat)]);
    res
}

/// Writes bytes in hexadecimal.
pub fn to_hex(bytes: &[u8]) -> (res: String)
    ensures
        res@ == hex(bytes@),
{
    let mut res = String::new();
    let mut i: usize = 0;
    assert(res@ =~= hex(bytes@.take(0)));
    while i < bytes.len()
        invariant
            i <= bytes@.len(),
            res@ == hex(bytes@.take(i as int)),
        decreases bytes@.len() - i,
    {
        let byte = bytes[i];
        assert(bytes@.take(i + 1).drop_last() =~= bytes@.take(i as int));
        res.append(hex_digit(byte / 16));
        res.append(hex_digit(byte % 16));
        assert(res@ =~= hex(bytes@.take(i + 1)));
        i += 1;
    }
    assert(bytes@.take(i as int) =~= bytes@);
    res
}

/// Writes bytes as a list of decimal numbers in brackets.
pub fn to_byte_list(bytes: &[u8]) -> (res: String)
    ensures
        res@ == byte_list(bytes@),
{
    let mut res = String::from_str("[");
    let mut i: usize = 0;
    assert(res@ =~= "["@ + listed(bytes@.take(0)));
    while i < bytes.len()
        invariant
            i <= bytes@.len(),
            res@ == "["@ + listed(bytes@.take(i as int)),
        decreases bytes@.len() - i,
    {
        let byte = bytes[i];
        assert(bytes@.take(i + 1).drop_last() =~= bytes@.take(i as int));
        if i > 0 {
            res.append(", ");
        }
        res.append(to_decimal(byte as u64).as_str());
        assert(res@ =~= "["@ + listed(bytes@.take(i + 1)));
        i += 1;
    }
    assert(bytes@.take(i as int) =~= bytes@);
    res.append("]");
    res
}

/// A number in decimal is read back as the number: its characters are digits, the highest one
/// first, and the first one is not a zero unless it is the only one.
pub proof fn law_decimal(n: nat)
    ensures
        decimal(n).len() > 0,
        decimal(n).fold_left(0int, |value: int, digit: char| 10 * value + (digit as int - 48)) == n,
        forall|i: int| 0 <= i < decimal(n).len() ==> '0' <= #[trigger] decimal(n)[i] <= '9',
        decimal(n)[0] == '0' ==> n == 0 && decimal(n).len() == 1,
    decreases n,
{
    reveal_with_fuel(Seq::fold_left, 2);
    let read = |value: int, digit: char| 10 * value + (digit as int - 48);
    if n < 10 {
        assert(decimal(n).drop_last() =~= Seq::empty());
        assert(decimal(n).last() == digit_char(n));
    } else {
        law_decimal(n / 10);
        assert(decimal(n).drop_last() =~= decimal(n / 10));
        assert(decimal(n).last() == digit_char(n % 10));
        assert(decimal(n)[0] == decimal(n / 10)[0]);
        assert forall|i: int| 0 <= i < decimal(n).len() implies '0' <= #[trigger] decimal(n)[i]
            <= '9' by {
            if i < decimal(n / 10).len() {
                assert(decimal(n)[i] == decimal(n / 10)[i]);
            }
        }
    }
}

/// Different numbers have different texts.
pub proof fn law_decimals_differ(n: nat, m: nat)
    requires
        decimal(n) == decimal(m),
    ensures
        n == m,
{
    law_decimal(n);
    law_decimal(m);
}

/// A hexadecimal digit is the character that stands for it, in lower case.
pub proof fn law_hex_char(digit: nat)
    requires
        digit < 16,
    ensures
        hex_char(digit) == "0123456789abcdef"@[digit as int],
{
    reveal_strlit("0123456789abcdef");
}

/// Bytes in hexadecimal stand one behind the other in their order, each with the digit of its higher
/// half first.
pub proof fn law_hex(a: Seq<u8>, b: Seq<u8>, byte: u8)
    ensures
        hex(Seq::empty()) == Seq::<char>::empty(),
        hex(seq![byte]) == seq![hex_char((byte / 16) as nat), hex_char((byte % 16) as nat)],
        hex(a + b) == hex(a) + hex(b),
    decreases b.len(),
{
    reveal_with_fuel(hex, 2);
    assert(seq![byte].drop_last() =~= Seq::empty());
    assert(hex(seq![byte]) =~= seq![
        hex_char((byte / 16) as nat),
        hex_char((byte % 16) as nat),
    ]);
    if b.len() == 0 {
        assert(a + b =~= a);
        assert(hex(a) + hex(b) =~= hex(a));
    } else {
        law_hex(a, b.drop_last(), byte);
        assert((a + b).drop_last() =~= a + b.drop_last());
        assert((a + b).last() == b.last());
        assert(hex(a + b) =~= hex(a) + hex(b));
    }
}

/// A list of bytes stands in brackets: each in decimal, in their order, with a comma and a space
/// between two of them.
pub proof fn law_byte_list(a: Seq<u8>, b: Seq<u8>, byte: u8)
    requires
        a.len() > 0,
        b.len() > 0,
    ensures
        byte_list(a) == "["@ + listed(a) + "]"@,
        listed(Seq::empty()) == Seq::<char>::empty(),
        listed(seq![byte]) == decimal(byte as nat),
        listed(a + b) == listed(a) + ", "@ + listed(b),
    decreases b.len(),
{
    if b.len() == 1 {
        assert((a + b).drop_last() =~= a);
        assert((a + b).last() == b[0]);
    } else {
        law_byte_list(a, b.drop_last(), byte);
        assert((a + b).drop_last() =~= a + b.drop_last());
        assert((a + b).last() == b.last());
        assert(listed(a + b) =~= listed(a) + ", "@ + listed(b));
    }
}

} // verus!
