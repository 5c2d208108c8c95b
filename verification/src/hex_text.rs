//! Lower-case hexadecimal text, as `format!("{:02x}")` and
//! `format!("{:016x}")` write it.
use vstd::prelude::*;

verus! {

/// The lower-case hex digit for `n` in `0..16`.
pub open spec fn hex_char(n: int) -> char {
    if n == 0 {
        '0'
    } else if n == 1 {
        '1'
    } else if n == 2 {
        '2'
    } else if n == 3 {
        '3'
    } else if n == 4 {
        '4'
    } else if n == 5 {
        '5'
    } else if n == 6 {
        '6'
    } else if n == 7 {
        '7'
    } else if n == 8 {
        '8'
    } else if n == 9 {
        '9'
    } else if n == 10 {
        'a'
    } else if n == 11 {
        'b'
    } else if n == 12 {
        'c'
    } else if n == 13 {
        'd'
    } else if n == 14 {
        'e'
    } else {
        'f'
    }
}

/// The last `width` hex digits of `x`, most significant first, padded
/// with zeros.
pub open spec fn hex_fixed(x: nat, width: nat) -> Seq<char>
    decreases width,
{
    if width == 0 {
        seq![]
    } else {
        hex_fixed(x / 16, (width - 1) as nat).push(hex_char((x % 16) as int))
    }
}

/// Two hex digits per byte, in order.
pub open spec fn hex_of_bytes(bytes: Seq<u8>) -> Seq<char>
    decreases bytes.len(),
{
    if bytes.len() == 0 {
        seq![]
    } else {
        hex_of_bytes(bytes.drop_last()) + hex_fixed(bytes.last() as nat, 2)
    }
}

/// Appends the hex digit for `n`.
pub(crate) fn push_hex_digit(out: &mut String, n: u8)
    requires
        n < 16,
    ensures
        final(out)@ == old(out)@.push(hex_char(n as int)),
{
    proof {
        reveal_strlit("0");
        reveal_strlit("1");
        reveal_strlit("2");
        reveal_strlit("3");
        reveal_strlit("4");
        reveal_strlit("5");
        reveal_strlit("6");
        reveal_strlit("7");
        reveal_strlit("8");
        reveal_strlit("9");
        reveal_strlit("a");
        reveal_strlit("b");
        reveal_strlit("c");
        reveal_strlit("d");
        reveal_strlit("e");
        reveal_strlit("f");
    }
    let d: &str = if n == 0 {
        "0"
    } else if n == 1 {
        "1"
    } else if n == 2 {
        "2"
    } else if n == 3 {
        "3"
    } else if n == 4 {
        "4"
    } else if n == 5 {
        "5"
    } else if n == 6 {
        "6"
    } else if n == 7 {
        "7"
    } else if n == 8 {
        "8"
    } else if n == 9 {
        "9"
    } else if n == 10 {
        "a"
    } else if n == 11 {
        "b"
    } else if n == 12 {
        "c"
    } else if n == 13 {
        "d"
    } else if n == 14 {
        "e"
    } else {
        "f"
    };
    assert(d@ == seq![hex_char(n as int)]);
    out.append(d);
}

/// Appends the two hex digits of a byte.
pub(crate) fn push_hex_byte(out: &mut String, b: u8)
    ensures
        final(out)@ == old(out)@ + hex_fixed(b as nat, 2),
{
    push_hex_digit(out, b / 16);
    push_hex_digit(out, b % 16);
    let ghost x = b as nat;
    assert(x / 16 < 16);
    assert((x / 16) % 16 == x / 16);
    assert(hex_fixed(x / 16 / 16, 0) =~= Seq::<char>::empty());
    assert(hex_fixed(x / 16, 1) =~= seq![hex_char((x / 16) as int)]);
    assert(hex_fixed(x, 2) =~= seq![hex_char((x / 16) as int), hex_char((x % 16) as int)]);
    assert(out@ =~= old(out)@ + hex_fixed(x, 2));
}

/// `x` in exactly 16 lower-case hex digits, zero-padded.
pub(crate) fn hex_u64_text(x: u64) -> (r: String)
    ensures
        r@ == hex_fixed(x as nat, 16),
{
    let mut digits: Vec<u8> = Vec::new();
    let mut y: u64 = x;
    let mut k: usize = 0;
    while k < 16
        invariant
            k <= 16,
            digits@.len() == k,
            forall|i: int| 0 <= i < k ==> #[trigger] digits@[i] < 16,
            hex_fixed(x as nat, 16) == hex_fixed(y as nat, (16 - k) as nat) + digits@.reverse().map_values(
                |d: u8| hex_char(d as int),
            ),
        decreases 16 - k,
    {
        let ghost before = digits@;
        let d = (y % 16) as u8;
        digits.push(d);
        proof {
            let w = (16 - k) as nat;
            assert(hex_fixed(y as nat, w) == hex_fixed((y / 16) as nat, (w - 1) as nat).push(
                hex_char((y % 16) as int),
            ));
            assert(digits@.reverse() =~= seq![d] + before.reverse());
            assert(digits@.reverse().map_values(|d: u8| hex_char(d as int)) =~= seq![
                hex_char(d as int),
            ] + before.reverse().map_values(|d: u8| hex_char(d as int)));
        }
        y = y / 16;
        k = k + 1;
    }
    let mut out = String::new();
    let mut j: usize = 0;
    let ghost rev = digits@.reverse().map_values(|d: u8| hex_char(d as int));
    assert(hex_fixed(y as nat, 0) =~= Seq::<char>::empty());
    while j < 16
        invariant
            j <= 16,
            digits@.len() == 16,
            forall|i: int| 0 <= i < 16 ==> #[trigger] digits@[i] < 16,
            rev == digits@.reverse().map_values(|d: u8| hex_char(d as int)),
            out@ == rev.take(j as int),
        decreases 16 - j,
    {
        push_hex_digit(&mut out, digits[15 - j]);
        assert(rev.take(j + 1) =~= rev.take(j as int).push(rev[j as int]));
        j = j + 1;
    }
    assert(rev.take(16) =~= rev);
    out
}

/// The bytes in lower-case hex, two digits each.
pub(crate) fn hex_bytes_text(bytes: &[u8]) -> (r: String)
    ensures
        r@ == hex_of_bytes(bytes@),
{
    let mut out = String::new();
    let mut i: usize = 0;
    while i < bytes.len()
        invariant
            i <= bytes@.len(),
            out@ == hex_of_bytes(bytes@.take(i as int)),
        decreases bytes@.len() - i,
    {
        push_hex_byte(&mut out, bytes[i]);
        assert(bytes@.take(i + 1).drop_last() =~= bytes@.take(i as int));
        i = i + 1;
    }
    assert(bytes@.take(bytes@.len() as int) =~= bytes@);
    out
}

} // verus!
