//! Identifiers of managed subprocesses.

use vstd::prelude::*;
use vstd::string::*;

use crate::text::chars_of;

verus! {

/// The lower case hexadecimal digit for a value below sixteen.
pub open spec fn hex_digit(n: nat) -> char {
    if n < 10 {
        (n + '0' as u32) as char
    } else {
        (n - 10 + 'a' as u32) as char
    }
}

/// Two hexadecimal digits per byte, the higher one first.
pub open spec fn hex_text(bytes: Seq<u8>) -> Seq<char>
    decreases bytes.len(),
{
    if bytes.len() == 0 {
        Seq::empty()
    } else {
        hex_text(bytes.drop_last()) + seq![
            hex_digit((bytes.last() / 16) as nat),
            hex_digit((bytes.last() % 16) as nat),
        ]
    }
}

/// The six low bytes of a number, the lowest first.
pub open spec fn low_bytes(n: u64) -> Seq<u8> {
    Seq::new(6, |i: int| ((n >> ((i * 8) as u64)) & 0xff) as u8)
}

/// The number that stands in for randomness where there is none: the clock
/// mixed with the process id.
pub open spec fn mixed(clock: Option<(u64, u32)>, pid: u32) -> u64 {
    let time = match clock {
        Some(c) => (c.1 as u64) ^ c.0,
        None => 0,
    };
    time ^ (pid as u64)
}

/// Whether a character may stand in an identifier.
pub open spec fn is_id_char(c: char) -> bool {
    'a' <= c <= 'z' || 'A' <= c <= 'Z' || '0' <= c <= '9' || c == '-' || c == '_'
}

/// Whether a text is an identifier: one to sixty-four letters, digits, hyphens
/// and underscores.
pub open spec fn valid_id(id: Seq<char>) -> bool {
    0 < id.len() <= 64 && forall|i: int| 0 <= i < id.len() ==> is_id_char(#[trigger] id[i])
}

/// The hexadecimal digit for a value below sixteen.
fn digit(n: u8) -> (c: char)
    requires
        n < 16,
    ensures
        c == hex_digit(n as nat),
{
    if n < 10 {
        (n + 48) as char
    } else {
        (n - 10 + 97) as char
    }
}

/// Two hexadecimal digits per byte.
pub fn hex(bytes: &[u8]) -> (r: String)
    ensures
        r@ == hex_text(bytes@),
{
    let mut out = String::new();
    let mut i: usize = 0;
    while i < bytes.len()
        invariant
            i <= bytes@.len(),
            out@ == hex_text(bytes@.take(i as int)),
        decreases bytes@.len() - i,
    {
        let b: u8 = bytes[i];
        let ghost before = out@;
        out.push(digit(b / 16));
        out.push(digit(b % 16));
        assert(bytes@.take(i + 1).drop_last() =~= bytes@.take(i as int));
        assert(out@ =~= before + seq![
            hex_digit((b / 16) as nat),
            hex_digit((b % 16) as nat),
        ]);
        i += 1;
    }
    assert(bytes@.take(bytes@.len() as int) =~= bytes@);
    out
}

/// A new identifier of twelve hexadecimal digits out of six random bytes. Where
/// there are none, the clock (seconds and nanoseconds) and the process id stand
/// in.
pub fn gen_id(random: Option<[u8; 6]>, clock: Option<(u64, u32)>, pid: u32) -> (r: String)
    ensures
        r@ == hex_text(
            match random {
                Some(bytes) => bytes@,
                None => low_bytes(mixed(clock, pid)),
            },
        ),
{
    match random {
        Some(bytes) => hex(bytes.as_slice()),
        None => {
            let time: u64 = match clock {
                Some((secs, nanos)) => (nanos as u64) ^ secs,
                None => 0,
            };
            let n: u64 = time ^ (pid as u64);
            let mut buf: Vec<u8> = Vec::new();
            let mut i: u64 = 0;
            while i < 6
                invariant
                    i <= 6,
                    buf@ =~= low_bytes(n).take(i as int),
                decreases 6 - i,
            {
                buf.push(((n >> (i * 8)) & 0xff) as u8);
                i += 1;
            }
            assert(low_bytes(n).take(6) =~= low_bytes(n));
            hex(buf.as_slice())
        },
    }
}

/// Whether a text is an identifier.
pub fn is_valid_id(id: &str) -> (r: bool)
    ensures
        r == valid_id(id@),
{
    let chars = chars_of(id);
    let n: usize = chars.len();
    if n == 0 || n > 64 {
        return false;
    }
    let mut i: usize = 0;
    while i < n
        invariant
            i <= n,
            n == chars.len(),
            n <= 64,
            chars@ == id@,
            forall|j: int| 0 <= j < i ==> is_id_char(#[trigger] id@[j]),
        decreases n - i,
    {
        let c = chars[i];
        if !(('a' <= c && c <= 'z') || ('A' <= c && c <= 'Z') || ('0' <= c && c <= '9') || c == '-'
            || c == '_') {
            assert(!is_id_char(id@[i as int]));
            return false;
        }
        i += 1;
    }
    true
}

/// Hexadecimal text has two characters per byte, all of them digits.
pub proof fn hex_text_is_digits(bytes: Seq<u8>)
    ensures
        hex_text(bytes).len() == 2 * bytes.len(),
        forall|i: int|
            0 <= i < hex_text(bytes).len() ==> ('0' <= #[trigger] hex_text(bytes)[i] <= '9' || 'a'
                <= hex_text(bytes)[i] <= 'f'),
    decreases bytes.len(),
{
    if bytes.len() > 0 {
        hex_text_is_digits(bytes.drop_last());
    }
}

/// Every new identifier is twelve lower case hexadecimal digits, and is
/// accepted as an identifier.
pub proof fn new_ids_are_valid(bytes: Seq<u8>)
    requires
        bytes.len() == 6,
    ensures
        hex_text(bytes).len() == 12,
        valid_id(hex_text(bytes)),
{
    hex_text_is_digits(bytes);
    assert forall|i: int| 0 <= i < hex_text(bytes).len() implies is_id_char(
        #[trigger] hex_text(bytes)[i],
    ) by {}
}

/// Different bytes give different identifiers.
pub proof fn hex_text_is_injective(a: Seq<u8>, b: Seq<u8>)
    requires
        hex_text(a) == hex_text(b),
    ensures
        a == b,
    decreases a.len(),
{
    hex_text_is_digits(a);
    hex_text_is_digits(b);
    if a.len() > 0 {
        let n = hex_text(a).len() as int;
        assert(hex_text(a).take(n - 2) =~= hex_text(a.drop_last()));
        assert(hex_text(b).take(n - 2) =~= hex_text(b.drop_last()));
        hex_text_is_injective(a.drop_last(), b.drop_last());
        assert(hex_text(a)[n - 2] == hex_digit((a.last() / 16) as nat));
        assert(hex_text(b)[n - 2] == hex_digit((b.last() / 16) as nat));
        assert(hex_text(a)[n - 1] == hex_digit((a.last() % 16) as nat));
        assert(hex_text(b)[n - 1] == hex_digit((b.last() % 16) as nat));
        assert(a.last() == b.last());
        assert(a =~= a.drop_last().push(a.last()));
        assert(b =~= b.drop_last().push(b.last()));
    } else {
        assert(a =~= b);
    }
}

/// An identifier holds no character that means anything in a path.
pub proof fn valid_ids_are_file_names(id: Seq<char>)
    requires
        valid_id(id),
    ensures
        !id.contains('/'),
        !id.contains('.'),
        !id.contains('\0'),
{
}

/// Every byte is written with two digits, the high one first, and the bytes follow
/// each other.
pub proof fn bytes_are_written_with_two_digits(a: Seq<u8>, b: Seq<u8>, x: u8)
    ensures
        hex_text(Seq::empty()).len() == 0,
        hex_text(a + b) == hex_text(a) + hex_text(b),
        hex_text(seq![x]) == seq![
            "0123456789abcdef"@[(x / 16) as int],
            "0123456789abcdef"@[(x % 16) as int],
        ],
    decreases b.len(),
{
    reveal_strlit("0123456789abcdef");
    assert(seq![x].drop_last() =~= Seq::<u8>::empty());
    assert(hex_text(seq![x].drop_last()) =~= Seq::<char>::empty());
    assert(seq![x].last() == x);
    assert(hex_text(seq![x]) =~= seq![hex_digit((x / 16) as nat), hex_digit((x % 16) as nat)]);
    assert forall|n: nat| n < 16 implies #[trigger] hex_digit(n) == "0123456789abcdef"@[n as int] by {
        assert("0123456789abcdef"@.len() == 16);
    }
    if b.len() == 0 {
        assert(a + b =~= a);
        assert(hex_text(a) + hex_text(b) =~= hex_text(a));
    } else {
        assert((a + b).drop_last() =~= a + b.drop_last());
        bytes_are_written_with_two_digits(a, b.drop_last(), x);
        assert(hex_text(a + b) =~= hex_text(a) + hex_text(b));
    }
}

/// An identifier is made of letters, digits, hyphens and underscores, at least one
/// and at most 64 of them.
pub proof fn identifiers_are_plain_words(a: Seq<char>, c: char, b: Seq<char>)
    ensures
        valid_id(seq![c]) <==> "abcdefghijklmnopqrstuvwxyzABCDEFGHIJKLMNOPQRSTUVWXYZ0123456789-_"@.contains(c),
        !valid_id(seq![c]) ==> !valid_id(a + seq![c] + b),
        !valid_id(Seq::empty()),
        a.len() > 64 ==> !valid_id(a),
        valid_id(a) && valid_id(b) && a.len() + b.len() <= 64 ==> valid_id(a + b),
{
    lemma_id_characters(c);
    assert(seq![c][0] == c);
    assert((a + seq![c] + b)[a.len() as int] == c);
    if valid_id(a) && valid_id(b) && a.len() + b.len() <= 64 {
        assert forall|i: int| 0 <= i < (a + b).len() implies is_id_char(#[trigger] (a + b)[i]) by {
            if i < a.len() {
                assert((a + b)[i] == a[i]);
            } else {
                assert((a + b)[i] == b[i - a.len()]);
            }
        }
    }
}

proof fn lemma_id_characters(c: char)
    ensures
        is_id_char(c) <==> "abcdefghijklmnopqrstuvwxyzABCDEFGHIJKLMNOPQRSTUVWXYZ0123456789-_"@.contains(c),
{
    reveal_strlit("abcdefghijklmnopqrstuvwxyzABCDEFGHIJKLMNOPQRSTUVWXYZ0123456789-_");
    let t = "abcdefghijklmnopqrstuvwxyzABCDEFGHIJKLMNOPQRSTUVWXYZ0123456789-_"@;
    if is_id_char(c) {
        let i: int = if 'a' <= c <= 'z' {
            c as int - 97
        } else if 'A' <= c <= 'Z' {
            c as int - 65 + 26
        } else if '0' <= c <= '9' {
            c as int - 48 + 52
        } else if c == '-' {
            62
        } else {
            63
        };
        assert(t[i] == c);
    }
}

/// The last six bytes of a number stand in it lowest first.
pub proof fn low_bytes_come_lowest_first(n: u64)
    ensures
        low_bytes(n).len() == 6,
        low_bytes(n)[0] == n % 256,
        low_bytes(n)[1] == n / 256 % 256,
        low_bytes(n)[2] == n / 65536 % 256,
        low_bytes(n)[3] == n / 16777216 % 256,
        low_bytes(n)[4] == n / 4294967296 % 256,
        low_bytes(n)[5] == n / 1099511627776 % 256,
{
    assert((n >> 0u64) & 0xff == n % 256) by (bit_vector);
    assert((n >> 8u64) & 0xff == n / 256 % 256) by (bit_vector);
    assert((n >> 16u64) & 0xff == n / 65536 % 256) by (bit_vector);
    assert((n >> 24u64) & 0xff == n / 16777216 % 256) by (bit_vector);
    assert((n >> 32u64) & 0xff == n / 4294967296 % 256) by (bit_vector);
    assert((n >> 40u64) & 0xff == n / 1099511627776 % 256) by (bit_vector);
}

/// What an identifier without chance rests on is every bit of the time and of the
/// process: another process, another number.
pub proof fn every_bit_is_mixed_in(secs: u64, nanos: u32, pid: u32, other: u32)
    ensures
        mixed(None, pid) == pid,
        mixed(Some((secs, nanos)), pid) ^ (pid as u64) ^ (nanos as u64) == secs,
        pid != other ==> mixed(Some((secs, nanos)), pid) != mixed(Some((secs, nanos)), other),
{
    assert(0u64 ^ (pid as u64) == pid as u64) by (bit_vector);
    assert((nanos as u64) ^ secs ^ (pid as u64) ^ (pid as u64) ^ (nanos as u64) == secs)
        by (bit_vector);
    assert(pid != other ==> (nanos as u64) ^ secs ^ (pid as u64) != (nanos as u64) ^ secs ^ (
    other as u64)) by (bit_vector);
}

} // verus!
