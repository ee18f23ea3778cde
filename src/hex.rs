//! Hexadecimal text for addresses and byte strings.
use vstd::prelude::*;
use vstd::string::StringExecFns;

verus! {

/// The lower-case hexadecimal digit for `d`.
pub open spec fn hex_char(d: u8) -> char {
    match d {
        0 => '0',
        1 => '1',
        2 => '2',
        3 => '3',
        4 => '4',
        5 => '5',
        6 => '6',
        7 => '7',
        8 => '8',
        9 => '9',
        10 => 'a',
        11 => 'b',
        12 => 'c',
        13 => 'd',
        14 => 'e',
        15 => 'f',
        _ => '?',
    }
}

/// The upper-case hexadecimal digit for `d`.
pub open spec fn hex_char_upper(d: u8) -> char {
    match d {
        0 => '0',
        1 => '1',
        2 => '2',
        3 => '3',
        4 => '4',
        5 => '5',
        6 => '6',
        7 => '7',
        8 => '8',
        9 => '9',
        10 => 'A',
        11 => 'B',
        12 => 'C',
        13 => 'D',
        14 => 'E',
        15 => 'F',
        _ => '?',
    }
}

/// The digit for `d`, upper case when `upper` holds.
pub open spec fn digit_char(d: u8, upper: bool) -> char {
    if upper {
        hex_char_upper(d)
    } else {
        hex_char(d)
    }
}

fn lower_digit(d: u8) -> (r: &'static str)
    requires
        d < 16,
    ensures
        r@ == seq![hex_char(d)],
{
    match d {
        0 => {
            proof {
                reveal_strlit("0");
            }
            "0"
        },
        1 => {
            proof {
                reveal_strlit("1");
            }
            "1"
        },
        2 => {
            proof {
                reveal_strlit("2");
            }
            "2"
        },
        3 => {
            proof {
                reveal_strlit("3");
            }
            "3"
        },
        4 => {
            proof {
                reveal_strlit("4");
            }
            "4"
        },
        5 => {
            proof {
                reveal_strlit("5");
            }
            "5"
        },
        6 => {
            proof {
                reveal_strlit("6");
            }
            "6"
        },
        7 => {
            proof {
                reveal_strlit("7");
            }
            "7"
        },
        8 => {
            proof {
                reveal_strlit("8");
            }
            "8"
        },
        9 => {
            proof {
                reveal_strlit("9");
            }
            "9"
        },
        10 => {
            proof {
                reveal_strlit("a");
            }
            "a"
        },
        11 => {
            proof {
                reveal_strlit("b");
            }
            "b"
        },
        12 => {
            proof {
                reveal_strlit("c");
            }
            "c"
        },
        13 => {
            proof {
                reveal_strlit("d");
            }
            "d"
        },
        14 => {
            proof {
                reveal_strlit("e");
            }
            "e"
        },
        15 => {
            proof {
                reveal_strlit("f");
            }
            "f"
        },
        _ => {
            proof {
                reveal_strlit("f");
            }
            "f"
        },
    }
}

fn upper_digit(d: u8) -> (r: &'static str)
    requires
        d < 16,
    ensures
        r@ == seq![hex_char_upper(d)],
{
    match d {
        0 => {
            proof {
                reveal_strlit("0");
            }
            "0"
        },
        1 => {
            proof {
                reveal_strlit("1");
            }
            "1"
        },
        2 => {
            proof {
                reveal_strlit("2");
            }
            "2"
        },
        3 => {
            proof {
                reveal_strlit("3");
            }
            "3"
        },
        4 => {
            proof {
                reveal_strlit("4");
            }
            "4"
        },
        5 => {
            proof {
                reveal_strlit("5");
            }
            "5"
        },
        6 => {
            proof {
                reveal_strlit("6");
            }
            "6"
        },
        7 => {
            proof {
                reveal_strlit("7");
            }
            "7"
        },
        8 => {
            proof {
                reveal_strlit("8");
            }
            "8"
        },
        9 => {
            proof {
                reveal_strlit("9");
            }
            "9"
        },
        10 => {
            proof {
                reveal_strlit("A");
            }
            "A"
        },
        11 => {
            proof {
                reveal_strlit("B");
            }
            "B"
        },
        12 => {
            proof {
                reveal_strlit("C");
            }
            "C"
        },
        13 => {
            proof {
                reveal_strlit("D");
            }
            "D"
        },
        14 => {
            proof {
                reveal_strlit("E");
            }
            "E"
        },
        15 => {
            proof {
                reveal_strlit("F");
            }
            "F"
        },
        _ => {
            proof {
                reveal_strlit("F");
            }
            "F"
        },
    }
}

fn digit_str(d: u8, upper: bool) -> (r: &'static str)
    requires
        d < 16,
    ensures
        r@ == seq![digit_char(d, upper)],
{
    if upper {
        upper_digit(d)
    } else {
        lower_digit(d)
    }
}


/// The digits of `n` in base sixteen, most significant first, without
/// leading zeros ("0" for zero).
pub open spec fn hex_digits(n: nat, upper: bool) -> Seq<char>
    decreases n,
{
    if n < 16 {
        seq![digit_char(n as u8, upper)]
    } else {
        hex_digits(n / 16, upper) + seq![digit_char((n % 16) as u8, upper)]
    }
}

/// `c` repeated `k` times.
pub open spec fn repeat(c: char, k: nat) -> Seq<char>
    decreases k,
{
    if k == 0 {
        Seq::empty()
    } else {
        repeat(c, (k - 1) as nat).push(c)
    }
}

/// `s` with zeros in front up to `width` characters.
pub open spec fn zero_padded(s: Seq<char>, width: nat) -> Seq<char> {
    if s.len() < width {
        repeat('0', (width - s.len()) as nat) + s
    } else {
        s
    }
}

fn append_hex(out: &mut String, n: usize, upper: bool)
    ensures
        final(out)@ == old(out)@ + hex_digits(n as nat, upper),
    decreases n,
{
    if n >= 16 {
        append_hex(out, n / 16, upper);
    }
    out.append(digit_str((n % 16) as u8, upper));
}

fn hex_len(n: usize) -> (r: usize)
    ensures
        r == hex_digits(n as nat, false).len(),
        r == hex_digits(n as nat, true).len(),
        r <= 16,
    decreases n,
{
    if n < 16 {
        1
    } else {
        let k = hex_len(n / 16);
        assert(k < 16) by {
            lemma_hex_len_bound(n as nat);
        }
        k + 1
    }
}

proof fn lemma_hex_len_bound(n: nat)
    requires
        n >= 16,
        n <= usize::MAX,
    ensures
        hex_digits(n / 16, false).len() < 16,
    decreases n,
{
    reveal_with_fuel(pow16, 16);
    assert(n / 16 <= 0x0fff_ffff_ffff_ffff);
    lemma_hex_len_small(n / 16, 0x0fff_ffff_ffff_ffff, 15);
}

proof fn lemma_hex_len_small(n: nat, bound: nat, k: nat)
    requires
        n <= bound,
        k >= 1,
        bound < pow16(k),
    ensures
        hex_digits(n, false).len() <= k,
    decreases n,
{
    if n >= 16 {
        assert(bound / 16 < pow16((k - 1) as nat)) by {
            assert(pow16(k) == 16 * pow16((k - 1) as nat));
        }
        if k == 1 {
            assert(pow16(1) == 16 * pow16(0));
        } else {
            lemma_hex_len_small(n / 16, bound / 16, (k - 1) as nat);
        }
    }
}

pub open spec fn pow16(k: nat) -> nat
    decreases k,
{
    if k == 0 {
        1
    } else {
        16 * pow16((k - 1) as nat)
    }
}

fn append_repeat(out: &mut String, c: &'static str, k: usize)
    requires
        c@.len() == 1,
    ensures
        final(out)@ == old(out)@ + repeat(c@[0], k as nat),
{
    let mut i: usize = 0;
    while i < k
        invariant
            c@.len() == 1,
            i <= k,
            out@ == old(out)@ + repeat(c@[0], i as nat),
        decreases k - i,
    {
        let ghost before = out@;
        out.append(c);
        i += 1;
        assert(c@ == seq![c@[0]]);
        assert(out@ =~= old(out)@ + repeat(c@[0], i as nat));
    }
}

/// Appends `n` in lower-case hexadecimal.
pub fn push_hex(out: &mut String, n: usize)
    ensures
        final(out)@ == old(out)@ + hex_digits(n as nat, false),
{
    append_hex(out, n, false);
}

/// Appends `n` in upper-case hexadecimal, with zeros in front up to `width`
/// digits.
pub fn push_hex_padded(out: &mut String, n: usize, width: usize)
    ensures
        final(out)@ == old(out)@ + zero_padded(hex_digits(n as nat, true), width as nat),
{
    let len = hex_len(n);
    let ghost before = out@;
    if len < width {
        proof {
            reveal_strlit("0");
        }
        append_repeat(out, "0", width - len);
    }
    append_hex(out, n, true);
    assert(out@ =~= before + zero_padded(hex_digits(n as nat, true), width as nat));
}


/// Each byte as two lower-case hexadecimal digits followed by a space.
pub open spec fn hex_spaced(b: Seq<u8>) -> Seq<char>
    decreases b.len(),
{
    if b.len() == 0 {
        Seq::empty()
    } else {
        hex_spaced(b.drop_last()) + seq![hex_char(b.last() / 16), hex_char(b.last() % 16), ' ']
    }
}

/// How many bytes fit, with the ellipsis, in `max_width` characters.
pub open spec fn bytes_shown(max_width: nat) -> nat {
    if max_width >= 3 {
        ((max_width - 3) / 3) as nat
    } else {
        0
    }
}

/// The byte string of at most `max_width` characters: the spaced encoding
/// when it fits, else as many whole bytes as leave room for "..." and then
/// "...". With `is_padded` it is filled with spaces up to `max_width`.
pub open spec fn hex_truncated(b: Seq<u8>, max_width: nat, is_padded: bool) -> Seq<char> {
    let body = if b.len() <= max_width / 3 {
        hex_spaced(b)
    } else {
        hex_spaced(b.take(bytes_shown(max_width) as int)) + "..."@
    };
    if is_padded && body.len() < max_width {
        body + repeat(' ', (max_width - body.len()) as nat)
    } else {
        body
    }
}

proof fn lemma_hex_spaced_len(b: Seq<u8>)
    ensures
        hex_spaced(b).len() == 3 * b.len(),
    decreases b.len(),
{
    if b.len() > 0 {
        lemma_hex_spaced_len(b.drop_last());
    }
}

/// Encodes `bytes` as spaced hexadecimal within `max_width` characters.
pub fn encode_hex_bytes_truncated(bytes: &[u8], max_width: usize, is_padded: bool) -> (r: String)
    ensures
        r@ == hex_truncated(bytes@, max_width as nat, is_padded),
{
    let fits = bytes.len() <= max_width / 3;
    let count: usize = if fits {
        bytes.len()
    } else if max_width >= 3 {
        (max_width - 3) / 3
    } else {
        0
    };
    let mut out = String::new();
    let mut i: usize = 0;
    while i < count
        invariant
            count <= bytes@.len(),
            i <= count,
            out@ == hex_spaced(bytes@.take(i as int)),
        decreases count - i,
    {
        let b = bytes[i];
        out.append(lower_digit(b / 16));
        out.append(lower_digit(b % 16));
        proof {
            reveal_strlit(" ");
        }
        out.append(" ");
        i += 1;
        proof {
            let t = bytes@.take(i as int);
            assert(t.drop_last() =~= bytes@.take(i - 1));
            assert(out@ =~= hex_spaced(t));
        }
    }
    proof {
        if fits {
            assert(bytes@.take(count as int) =~= bytes@);
        }
    }
    if !fits {
        proof {
            reveal_strlit("...");
        }
        out.append("...");
    }
    let ghost body = out@;
    proof {
        lemma_hex_spaced_len(bytes@.take(count as int));
    }
    let len: usize = if fits { 3 * count } else { 3 * count + 3 };
    assert(body.len() == len);
    if is_padded && len < max_width {
        proof {
            reveal_strlit(" ");
        }
        append_repeat(&mut out, " ", max_width - len);
    }
    out
}

} // verus!
