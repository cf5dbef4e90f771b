use vstd::prelude::*;

verus! {

/// The ASCII decimal digits of a byte, without leading zeros.
pub open spec fn dec_u8(n: u8) -> Seq<u8> {
    if n < 10 {
        seq![(48 + n) as u8]
    } else if n < 100 {
        seq![(48 + n / 10) as u8, (48 + n % 10) as u8]
    } else {
        seq![(48 + n / 100) as u8, (48 + (n / 10) % 10) as u8, (48 + n % 10) as u8]
    }
}

/// Dotted-decimal text of an IPv4 address held in network order.
pub open spec fn ipv4_text(x: u32) -> Seq<u8> {
    dec_u8((x >> 24u32) as u8) + seq![46u8] + dec_u8((x >> 16u32) as u8) + seq![46u8] + dec_u8(
        (x >> 8u32) as u8,
    ) + seq![46u8] + dec_u8(x as u8)
}

/// The ASCII lower-case hexadecimal digit of a value below sixteen.
pub open spec fn hex_digit(n: u16) -> u8 {
    if n < 10 {
        (48 + n) as u8
    } else {
        (87 + n) as u8
    }
}

/// The lower-case hexadecimal digits of a 16-bit value, without leading zeros.
pub open spec fn hex_u16(n: u16) -> Seq<u8>
    decreases n,
{
    if n < 16 {
        seq![hex_digit(n)]
    } else {
        hex_u16(n / 16) + seq![hex_digit(n % 16)]
    }
}

/// The eight 16-bit groups of an IPv6 address, most significant first.
pub open spec fn ipv6_group(x: u128, i: int) -> u16 {
    (x >> ((112 - 16 * i) as u128)) as u16
}

/// Hexadecimal groups `from..to` of an address, joined by colons.
pub open spec fn join_groups(x: u128, from: int, to: int) -> Seq<u8>
    decreases to - from,
{
    if to <= from {
        Seq::empty()
    } else if to == from + 1 {
        hex_u16(ipv6_group(x, from))
    } else {
        join_groups(x, from, to - 1) + seq![58u8] + hex_u16(ipv6_group(x, to - 1))
    }
}

/// The number of zero groups that start at group `i`.
pub open spec fn zero_run(x: u128, i: int) -> int
    decreases 8 - i,
{
    if i >= 8 || i < 0 || ipv6_group(x, i) != 0 {
        0
    } else {
        1 + zero_run(x, i + 1)
    }
}

/// The start of the longest run of zero groups at or after group `i`, the
/// first one on ties; 8 when there is none.
pub open spec fn longest_zero_run(x: u128, i: int) -> int
    decreases 8 - i,
{
    if i >= 8 || i < 0 {
        8
    } else {
        let later = longest_zero_run(x, i + 1);
        if zero_run(x, i) > 0 && zero_run(x, i) >= zero_run(x, later) {
            i
        } else {
            later
        }
    }
}

/// The canonical text of an IPv6 address: groups in lower-case hex without
/// leading zeros, the first longest run of two or more zero groups shortened
/// to `::`, and an IPv4-mapped address written `::ffff:` then its IPv4 text.
pub open spec fn ipv6_text(x: u128) -> Seq<u8> {
    let start = longest_zero_run(x, 0);
    let len = zero_run(x, start);
    if x >> 32u128 == 0xffffu128 {
        seq![58u8, 58u8, 102u8, 102u8, 102u8, 102u8, 58u8] + ipv4_text(x as u32)
    } else if len >= 2 {
        join_groups(x, 0, start) + seq![58u8, 58u8] + join_groups(x, start + len, 8)
    } else {
        join_groups(x, 0, 8)
    }
}

proof fn lemma_zero_run_bound(x: u128, i: int)
    requires
        0 <= i <= 8,
    ensures
        i + zero_run(x, i) <= 8,
    decreases 8 - i,
{
    if i < 8 {
        lemma_zero_run_bound(x, i + 1);
    }
}

fn push_dec_u8(out: &mut Vec<u8>, n: u8)
    ensures
        final(out)@ == old(out)@ + dec_u8(n),
{
    if n < 10 {
        out.push(48 + n);
    } else if n < 100 {
        out.push(48 + n / 10);
        out.push(48 + n % 10);
    } else {
        out.push(48 + n / 100);
        out.push(48 + (n / 10) % 10);
        out.push(48 + n % 10);
    }
    assert(out@ =~= old(out)@ + dec_u8(n));
}

/// Dotted-decimal text of an IPv4 address.
pub fn ipv4_to_text(x: u32) -> (r: Vec<u8>)
    ensures
        r@ == ipv4_text(x),
{
    let mut out: Vec<u8> = Vec::new();
    push_dec_u8(&mut out, (x >> 24u32) as u8);
    out.push(46);
    push_dec_u8(&mut out, (x >> 16u32) as u8);
    out.push(46);
    push_dec_u8(&mut out, (x >> 8u32) as u8);
    out.push(46);
    push_dec_u8(&mut out, x as u8);
    assert(out@ =~= ipv4_text(x));
    out
}

fn push_hex_u16(out: &mut Vec<u8>, n: u16)
    ensures
        final(out)@ == old(out)@ + hex_u16(n),
    decreases n,
{
    if n < 16 {
        out.push(if n < 10 { 48 + n as u8 } else { 87 + n as u8 });
    } else {
        push_hex_u16(out, n / 16);
        let d = n % 16;
        out.push(if d < 10 { 48 + d as u8 } else { 87 + d as u8 });
    }
    assert(out@ =~= old(out)@ + hex_u16(n));
}

fn group_of(x: u128, i: u32) -> (r: u16)
    requires
        i < 8,
    ensures
        r == ipv6_group(x, i as int),
{
    (x >> (112 - 16 * i) as u128) as u16
}

fn push_groups(out: &mut Vec<u8>, x: u128, from: u32, to: u32)
    requires
        from <= to <= 8,
    ensures
        final(out)@ == old(out)@ + join_groups(x, from as int, to as int),
{
    let mut i: u32 = from;
    while i < to
        invariant
            from <= i <= to <= 8,
            out@ == old(out)@ + join_groups(x, from as int, i as int),
        decreases to - i,
    {
        if i > from {
            out.push(58);
        }
        push_hex_u16(out, group_of(x, i));
        i = i + 1;
        assert(out@ =~= old(out)@ + join_groups(x, from as int, i as int));
    }
}

/// The canonical text of an IPv6 address.
pub fn ipv6_to_text(x: u128) -> (r: Vec<u8>)
    ensures
        r@ == ipv6_text(x),
{
    let mut out: Vec<u8> = Vec::new();
    if x >> 32u128 == 0xffffu128 {
        out.push(58);
        out.push(58);
        out.push(102);
        out.push(102);
        out.push(102);
        out.push(102);
        out.push(58);
        let v4 = ipv4_to_text(x as u32);
        let mut k: usize = 0;
        let ghost head = out@;
        while k < v4.len()
            invariant
                k <= v4@.len(),
                out@ == head + v4@.subrange(0, k as int),
            decreases v4@.len() - k,
        {
            out.push(v4[k]);
            k = k + 1;
            assert(out@ =~= head + v4@.subrange(0, k as int));
        }
        assert(v4@.subrange(0, v4@.len() as int) =~= v4@);
        assert(out@ =~= ipv6_text(x));
        return out;
    }
    // Scan backwards, keeping the run of zeros that starts at each group
    // and the best run found so far.
    let mut run: u32 = 0;
    let mut best: u32 = 8;
    let mut best_len: u32 = 0;
    let mut i: u32 = 8;
    while i > 0
        invariant
            i <= 8,
            run == zero_run(x, i as int),
            best == longest_zero_run(x, i as int),
            best_len == zero_run(x, best as int),
            best <= 8,
            run <= 8 - i,
        decreases i,
    {
        i = i - 1;
        if group_of(x, i) == 0 {
            run = run + 1;
        } else {
            run = 0;
        }
        if run > 0 && run >= best_len {
            best = i;
            best_len = run;
        }
    }
    proof {
        lemma_zero_run_bound(x, best as int);
    }
    if best_len >= 2 {
        push_groups(&mut out, x, 0, best);
        out.push(58);
        out.push(58);
        push_groups(&mut out, x, best + best_len, 8);
    } else {
        push_groups(&mut out, x, 0, 8);
    }
    assert(out@ =~= ipv6_text(x));
    out
}

} // verus!
