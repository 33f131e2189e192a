//! Content hashes of files.

use vstd::prelude::*;
use vstd::string::StringExecFns;

verus! {

/// The sixteen bytes that MD5 assigns to `data`.
pub uninterp spec fn md5_of(data: Seq<u8>) -> Seq<u8>;

/// Calls `md5::compute` on `data` and hands back the sixteen bytes of the
/// digest it returns. The digest depends on the bytes of `data` alone, which
/// is all the contract claims: the result is the value named [`md5_of`].
#[verifier::external_body]
fn md5_bytes(data: &[u8]) -> (bytes: [u8; 16])
    ensures
        bytes@ == md5_of(data@),
{
    md5::compute(data).0
}

/// The number whose big-endian digits, base 256, are `bytes`.
pub open spec fn be_value(bytes: Seq<u8>) -> nat
    decreases bytes.len(),
{
    if bytes.len() == 0 {
        0
    } else {
        be_value(bytes.drop_last()) * 256 + bytes.last() as nat
    }
}

/// 256 to the power `n`.
pub open spec fn pow256(n: nat) -> nat
    decreases n,
{
    if n == 0 {
        1
    } else {
        256 * pow256((n - 1) as nat)
    }
}

/// A number of `n` base-256 digits is below `256^n`.
pub proof fn lemma_be_value_bound(bytes: Seq<u8>)
    ensures
        be_value(bytes) < pow256(bytes.len()),
    decreases bytes.len(),
{
    if bytes.len() > 0 {
        lemma_be_value_bound(bytes.drop_last());
        let hi = be_value(bytes.drop_last());
        let p = pow256((bytes.len() - 1) as nat);
        assert(hi * 256 + 255 < 256 * p) by (nonlinear_arith)
            requires
                hi < p,
        ;
    }
}

/// The content hash of `data` as one number: its MD5 digest read big-endian.
pub open spec fn digest_of(data: Seq<u8>) -> u128 {
    be_value(md5_of(data)) as u128
}

/// Reads sixteen bytes as one big-endian number.
pub fn pack_digest(bytes: &[u8; 16]) -> (digest: u128)
    ensures
        digest == be_value(bytes@),
{
    let mut digest: u128 = 0;
    let mut i: usize = 0;
    while i < 16
        invariant
            i <= 16,
            digest == be_value(bytes@.take(i as int)),
        decreases 16 - i,
    {
        proof {
            let done = bytes@.take(i as int);
            let next = bytes@.take(i + 1);
            lemma_be_value_bound(done);
            lemma_pow256_grows(i as nat, 15);
            assert(pow256(15) == 0x1_00_0000_0000_0000_0000_0000_0000_0000) by {
                reveal_with_fuel(pow256, 16);
            }
            assert(next.drop_last() == done);
            assert(next.last() == bytes@[i as int]);
        }
        digest = digest * 256 + bytes[i] as u128;
        i = i + 1;
    }
    assert(bytes@.take(16) == bytes@);
    digest
}

/// `256^n` does not shrink as `n` grows.
pub proof fn lemma_pow256_grows(m: nat, n: nat)
    requires
        m <= n,
    ensures
        pow256(m) <= pow256(n),
    decreases n,
{
    if m < n {
        lemma_pow256_grows(m, (n - 1) as nat);
    }
}

/// Hashes the whole of `data`.
pub fn content_digest(data: &[u8]) -> (digest: u128)
    ensures
        digest == digest_of(data@),
{
    let bytes = md5_bytes(data);
    pack_digest(&bytes)
}

/// The lower-case hexadecimal digit that stands for `nibble`.
pub open spec fn hex_char(nibble: nat) -> char {
    if nibble == 0 {
        '0'
    } else if nibble == 1 {
        '1'
    } else if nibble == 2 {
        '2'
    } else if nibble == 3 {
        '3'
    } else if nibble == 4 {
        '4'
    } else if nibble == 5 {
        '5'
    } else if nibble == 6 {
        '6'
    } else if nibble == 7 {
        '7'
    } else if nibble == 8 {
        '8'
    } else if nibble == 9 {
        '9'
    } else if nibble == 10 {
        'a'
    } else if nibble == 11 {
        'b'
    } else if nibble == 12 {
        'c'
    } else if nibble == 13 {
        'd'
    } else if nibble == 14 {
        'e'
    } else {
        'f'
    }
}

/// The last `width` hexadecimal digits of `value`, most significant first.
pub open spec fn hex_digits(value: nat, width: nat) -> Seq<char>
    decreases width,
{
    if width == 0 {
        Seq::empty()
    } else {
        hex_digits(value / 16, (width - 1) as nat).push(hex_char(value % 16))
    }
}

/// The bytes `bytes` in hexadecimal, two digits for each byte.
pub open spec fn hex_pairs(bytes: Seq<u8>) -> Seq<char>
    decreases bytes.len(),
{
    if bytes.len() == 0 {
        Seq::empty()
    } else {
        hex_pairs(bytes.drop_last()).push(hex_char(bytes.last() as nat / 16)).push(
            hex_char(bytes.last() as nat % 16),
        )
    }
}

/// The hexadecimal digits of a number read from bytes are the digits of the
/// bytes: a digest prints as its sixteen bytes do, one after the other.
pub proof fn lemma_hex_of_bytes(bytes: Seq<u8>)
    ensures
        hex_digits(be_value(bytes), 2 * bytes.len()) == hex_pairs(bytes),
    decreases bytes.len(),
{
    if bytes.len() > 0 {
        let front = bytes.drop_last();
        let last = bytes.last() as nat;
        let value = be_value(bytes);
        let width = 2 * bytes.len();
        lemma_hex_of_bytes(front);
        assert(value == be_value(front) * 256 + last);
        assert(value % 16 == last % 16);
        assert(value / 16 == be_value(front) * 16 + last / 16);
        assert((value / 16) % 16 == last / 16);
        assert((value / 16) / 16 == be_value(front));
        assert(hex_digits(value, width) == hex_digits(value / 16, (width - 1) as nat).push(
            hex_char(value % 16),
        ));
        assert(hex_digits(value / 16, (width - 1) as nat) == hex_digits(
            (value / 16) / 16,
            (width - 2) as nat,
        ).push(hex_char((value / 16) % 16)));
    }
}

/// A digest as the 32 hexadecimal digits in which it is usually printed.
pub open spec fn digest_hex(digest: u128) -> Seq<char> {
    hex_digits(digest as nat, 32)
}

pub(crate) fn hex_str(nibble: u8) -> (digit: &'static str)
    requires
        nibble < 16,
    ensures
        digit@ == seq![hex_char(nibble as nat)],
{
    proof {
        reveal_strlit("0");
        reveal_strlit("1");
        reveal_strlit("2");
        reveal_strlit("3");
        reveal_strlit("4");
        reveal_strlit("5");
        reveal_strlit("6");
        reveal_strlit("7");
        reveal_strlit("8");
        reveal_strlit("9");
        reveal_strlit("a");
        reveal_strlit("b");
        reveal_strlit("c");
        reveal_strlit("d");
        reveal_strlit("e");
        reveal_strlit("f");
    }
    let digit = if nibble == 0 {
        "0"
    } else if nibble == 1 {
        "1"
    } else if nibble == 2 {
        "2"
    } else if nibble == 3 {
        "3"
    } else if nibble == 4 {
        "4"
    } else if nibble == 5 {
        "5"
    } else if nibble == 6 {
        "6"
    } else if nibble == 7 {
        "7"
    } else if nibble == 8 {
        "8"
    } else if nibble == 9 {
        "9"
    } else if nibble == 10 {
        "a"
    } else if nibble == 11 {
        "b"
    } else if nibble == 12 {
        "c"
    } else if nibble == 13 {
        "d"
    } else if nibble == 14 {
        "e"
    } else {
        "f"
    };
    assert(digit@ =~= seq![hex_char(nibble as nat)]);
    digit
}

fn write_hex(value: u128, width: usize) -> (text: String)
    ensures
        text@ == hex_digits(value as nat, width as nat),
    decreases width,
{
    if width == 0 {
        String::new()
    } else {
        let mut text = write_hex(value / 16, width - 1);
        let nibble: u8 = (value % 16) as u8;
        text.append(hex_str(nibble));
        assert(text@ =~= hex_digits(value as nat, width as nat));
        text
    }
}

/// Prints a digest as 32 lower-case hexadecimal digits.
pub fn format_digest(digest: u128) -> (text: String)
    ensures
        text@ == digest_hex(digest),
{
    write_hex(digest, 32)
}

} // verus!
