//! The CRC-32 checksum (reflected, polynomial 0xEDB88320) that the
//! journal's end markers carry over the item encodings of a batch.
use vstd::prelude::*;

verus! {

/// One bit step of the reflected CRC-32.
pub open spec fn crc32_step(c: u32) -> u32 {
    if c & 1 == 1 {
        (c >> 1) ^ 0xEDB8_8320
    } else {
        c >> 1
    }
}

/// Folding one byte into the running CRC-32.
pub open spec fn crc32_byte(c: u32, b: u8) -> u32 {
    crc32_step(
        crc32_step(
            crc32_step(
                crc32_step(crc32_step(crc32_step(crc32_step(crc32_step(c ^ (b as u32)))))),
            ),
        ),
    )
}

/// Folding a byte string into a running CRC-32.
pub open spec fn crc32_acc(c: u32, s: Seq<u8>) -> u32
    decreases s.len(),
{
    if s.len() == 0 {
        c
    } else {
        crc32_acc(crc32_byte(c, s[0]), s.subrange(1, s.len() as int))
    }
}

/// The CRC-32 of a byte string.
pub open spec fn crc32_of(s: Seq<u8>) -> u32 {
    crc32_acc(0xFFFF_FFFF, s) ^ 0xFFFF_FFFF
}

fn crc32_byte_exec(c: u32, b: u8) -> (r: u32)
    ensures
        r == crc32_byte(c, b),
{
    let mut cur = c ^ (b as u32);
    let mut k: usize = 0;
    while k < 8
        invariant
            k <= 8,
            cur == iter_steps(c ^ (b as u32), k as nat),
        decreases 8 - k,
    {
        if cur & 1 == 1 {
            cur = (cur >> 1) ^ 0xEDB8_8320;
        } else {
            cur = cur >> 1;
        }
        k += 1;
    }
    proof {
        lemma_iter_steps_eight(c ^ (b as u32));
    }
    cur
}

/// `crc32_step` applied `k` times.
pub open spec fn iter_steps(c: u32, k: nat) -> u32
    decreases k,
{
    if k == 0 {
        c
    } else {
        crc32_step(iter_steps(c, (k - 1) as nat))
    }
}

proof fn lemma_iter_steps_eight(c: u32)
    ensures
        iter_steps(c, 8) == crc32_step(
            crc32_step(
                crc32_step(crc32_step(crc32_step(crc32_step(crc32_step(crc32_step(c)))))),
            ),
        ),
{
    assert(iter_steps(c, 0) == c);
    assert(iter_steps(c, 1) == crc32_step(iter_steps(c, 0)));
    assert(iter_steps(c, 2) == crc32_step(iter_steps(c, 1)));
    assert(iter_steps(c, 3) == crc32_step(iter_steps(c, 2)));
    assert(iter_steps(c, 4) == crc32_step(iter_steps(c, 3)));
    assert(iter_steps(c, 5) == crc32_step(iter_steps(c, 4)));
    assert(iter_steps(c, 6) == crc32_step(iter_steps(c, 5)));
    assert(iter_steps(c, 7) == crc32_step(iter_steps(c, 6)));
    assert(iter_steps(c, 8) == crc32_step(iter_steps(c, 7)));
}

/// The CRC-32 of `bytes[from..to]`.
pub fn crc32_range(bytes: &Vec<u8>, from: usize, to: usize) -> (r: u32)
    requires
        from <= to <= bytes@.len(),
    ensures
        r == crc32_of(bytes@.subrange(from as int, to as int)),
{
    let ghost s = bytes@.subrange(from as int, to as int);
    let mut cur: u32 = 0xFFFF_FFFF;
    let mut i: usize = from;
    assert(s.subrange(0, s.len() as int) =~= s);
    while i < to
        invariant
            from <= i <= to <= bytes@.len(),
            s == bytes@.subrange(from as int, to as int),
            crc32_acc(cur, s.subrange(i - from, s.len() as int)) == crc32_acc(0xFFFF_FFFF, s),
        decreases to - i,
    {
        let ghost rest = s.subrange(i - from, s.len() as int);
        let b = bytes[i];
        proof {
            assert(rest[0] == b);
            assert(rest.subrange(1, rest.len() as int) =~= s.subrange(
                i + 1 - from,
                s.len() as int,
            ));
            assert(crc32_acc(cur, rest) == crc32_acc(crc32_byte(cur, b), rest.subrange(1, rest.len() as int)));
        }
        cur = crc32_byte_exec(cur, b);
        i += 1;
    }
    proof {
        assert(s.subrange(to - from, s.len() as int) =~= Seq::<u8>::empty());
        assert(crc32_acc(cur, Seq::<u8>::empty()) == cur);
    }
    cur ^ 0xFFFF_FFFF
}

} // verus!
