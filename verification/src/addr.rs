//! IPv4 addresses as plain 32-bit values.
//!
//! An address space is a network base address plus a prefix length; all
//! address arithmetic is done on `u32` values (no bit twiddling: the size of
//! a network is a power of two and masking is subtraction of a remainder).
//! The module also renders addresses in dotted-decimal form, which is the
//! shape the workload runtime expects in its network descriptions.

use vstd::arithmetic::div_mod::lemma_div_denominator;
use vstd::arithmetic::power2::lemma2_to64;
use vstd::arithmetic::power2::lemma_pow2_strictly_increases;
use vstd::arithmetic::power2::pow2;
use vstd::prelude::*;

verus! {

/// Number of addresses in a network with the given prefix length.
pub open spec fn net_size_spec(prefix: u8) -> nat
    recommends
        prefix <= 32,
{
    pow2((32 - prefix) as nat)
}

/// The network base address: `addr` with its host bits cleared.
pub open spec fn base_of(addr: u32, prefix: u8) -> u32
    recommends
        prefix <= 32,
{
    (addr as nat - (addr as nat % net_size_spec(prefix))) as u32
}

/// Number of addresses in a network with the given prefix length.
pub fn net_size(prefix: u8) -> (r: u64)
    requires
        prefix <= 32,
    ensures
        r as nat == net_size_spec(prefix),
        r >= 1,
{
    let k: u8 = 32 - prefix;
    let mut r: u64 = 1;
    let mut i: u8 = 0;
    proof {
        lemma2_to64();
    }
    while i < k
        invariant
            i <= k <= 32,
            r as nat == pow2(i as nat),
        decreases k - i,
    {
        proof {
            lemma2_to64();
            if ((i + 1) as nat) < 32 {
                lemma_pow2_strictly_increases((i + 1) as nat, 32);
            }
        }
        r = r * 2;
        i = i + 1;
    }
    r
}

/// The network base address: `addr` with its host bits cleared.
pub fn net_base(addr: u32, prefix: u8) -> (r: u32)
    requires
        prefix <= 32,
    ensures
        r == base_of(addr, prefix),
        r as nat % net_size_spec(prefix) == 0,
        r <= addr,
{
    let size: u64 = net_size(prefix);
    let rem: u64 = (addr as u64) % size;
    proof {
        vstd::arithmetic::div_mod::lemma_mod_decreases(addr as nat, size as nat);
        vstd::arithmetic::div_mod::lemma_fundamental_div_mod(addr as int, size as int);
        vstd::arithmetic::div_mod::lemma_mod_multiples_basic(
            addr as int / size as int,
            size as int,
        );
    }
    addr - (rem as u32)
}

/// The decimal digit `d` as a character.
pub open spec fn dec_digit(d: nat) -> char
    recommends
        d < 10,
{
    if d == 0 {
        '0'
    } else if d == 1 {
        '1'
    } else if d == 2 {
        '2'
    } else if d == 3 {
        '3'
    } else if d == 4 {
        '4'
    } else if d == 5 {
        '5'
    } else if d == 6 {
        '6'
    } else if d == 7 {
        '7'
    } else if d == 8 {
        '8'
    } else {
        '9'
    }
}

/// `n` written in decimal, most significant digit first, no leading zeros.
pub open spec fn dec_chars(n: nat) -> Seq<char>
    decreases n,
{
    if n < 10 {
        seq![dec_digit(n)]
    } else {
        dec_chars(n / 10) + seq![dec_digit(n % 10)]
    }
}

/// The four octets of `ip`, most significant first.
pub open spec fn octet(ip: u32, k: int) -> nat
    recommends
        0 <= k < 4,
{
    if k == 0 {
        (ip as nat) / 0x1000000
    } else if k == 1 {
        ((ip as nat) / 0x10000) % 256
    } else if k == 2 {
        ((ip as nat) / 0x100) % 256
    } else {
        (ip as nat) % 256
    }
}

/// `ip` in dotted-decimal form.
pub open spec fn ipv4_chars(ip: u32) -> Seq<char> {
    dec_chars(octet(ip, 0)) + seq!['.'] + dec_chars(octet(ip, 1)) + seq!['.'] + dec_chars(
        octet(ip, 2),
    ) + seq!['.'] + dec_chars(octet(ip, 3))
}

/// Appends the single decimal digit `d` to `s`.
fn append_digit(s: &mut String, d: u8)
    requires
        d < 10,
    ensures
        final(s)@ == old(s)@ + seq![dec_digit(d as nat)],
{
    proof {
        reveal_strlit("0");
        reveal_strlit("1");
        reveal_strlit("2");
        reveal_strlit("3");
        reveal_strlit("4");
        reveal_strlit("5");
        reveal_strlit("6");
        reveal_strlit("7");
        reveal_strlit("8");
        reveal_strlit("9");
    }
    if d == 0 {
        s.append("0");
    } else if d == 1 {
        s.append("1");
    } else if d == 2 {
        s.append("2");
    } else if d == 3 {
        s.append("3");
    } else if d == 4 {
        s.append("4");
    } else if d == 5 {
        s.append("5");
    } else if d == 6 {
        s.append("6");
    } else if d == 7 {
        s.append("7");
    } else if d == 8 {
        s.append("8");
    } else {
        s.append("9");
    }
}

/// Appends `n` in decimal to `s`.
fn append_octet(s: &mut String, n: u8)
    ensures
        final(s)@ == old(s)@ + dec_chars(n as nat),
{
    let ghost orig: Seq<char> = s@;
    if n >= 100 {
        append_digit(s, n / 100);
        append_digit(s, (n / 10) % 10);
        append_digit(s, n % 10);
        proof {
            lemma_div_denominator(n as int, 10, 10);
            assert((n as nat) / 10 / 10 == (n as nat) / 100);
            assert(dec_chars((n as nat) / 100) =~= seq![dec_digit((n / 100) as nat)]);
            assert(dec_chars((n as nat) / 10) =~= seq![
                dec_digit((n / 100) as nat),
                dec_digit(((n / 10) % 10) as nat),
            ]);
            assert(dec_chars(n as nat) =~= seq![
                dec_digit((n / 100) as nat),
                dec_digit(((n / 10) % 10) as nat),
                dec_digit((n % 10) as nat),
            ]);
            assert(final(s)@ =~= orig + dec_chars(n as nat));
        }
    } else if n >= 10 {
        append_digit(s, n / 10);
        append_digit(s, n % 10);
        proof {
            assert(dec_chars((n as nat) / 10) =~= seq![dec_digit((n / 10) as nat)]);
            assert(dec_chars(n as nat) =~= seq![
                dec_digit((n / 10) as nat),
                dec_digit((n % 10) as nat),
            ]);
            assert(final(s)@ =~= orig + dec_chars(n as nat));
        }
    } else {
        append_digit(s, n);
    }
}

/// Renders `ip` in dotted-decimal form.
pub fn ipv4_string(ip: u32) -> (r: String)
    ensures
        r@ == ipv4_chars(ip),
{
    let mut s = String::new();
    append_octet(&mut s, (ip / 0x1000000) as u8);
    append_dot(&mut s);
    append_octet(&mut s, ((ip / 0x10000) % 256) as u8);
    append_dot(&mut s);
    append_octet(&mut s, ((ip / 0x100) % 256) as u8);
    append_dot(&mut s);
    append_octet(&mut s, (ip % 256) as u8);
    assert(s@ =~= ipv4_chars(ip));
    s
}

/// Appends the octet separator to `s`.
fn append_dot(s: &mut String)
    ensures
        final(s)@ == old(s)@ + seq!['.'],
{
    proof {
        reveal_strlit(".");
    }
    s.append(".");
}

} // verus!
