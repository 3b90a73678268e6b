//! Facts about the bit layout of the state word.
use vstd::prelude::*;
use crate::cascade::{coin_pos, head_pos, has_coin, head_of, with_lever};

verus! {

/// Replacing the bits of lever `k` leaves every other lever and the four
/// low bits of the state word as they were.
pub proof fn lemma_with_lever(s: u64, k: u64, j: u64, c: bool, h: u64)
    requires
        k < 30,
        j < 30,
        h <= 1,
    ensures
        has_coin(with_lever(s, k, c, h), j) == (if j == k {
            c
        } else {
            has_coin(s, j)
        }),
        head_of(with_lever(s, k, c, h), j) == (if j == k {
            h
        } else {
            head_of(s, j)
        }),
        with_lever(s, k, c, h) & 15 == s & 15,
{
    let r = with_lever(s, k, c, h);
    assert(((r >> coin_pos(j)) & 1 == 1) == (if j == k {
        c
    } else {
        (s >> coin_pos(j)) & 1 == 1
    })) by (bit_vector)
        requires
            k < 30,
            j < 30,
            h <= 1,
            r == (s & !(3u64 << ((4 + 2 * k) as u64))) | (if c {
                1u64 << ((4 + 2 * k) as u64)
            } else {
                0u64
            }) | (h << ((5 + 2 * k) as u64)),
    ;
    assert(((r >> head_pos(j)) & 1) == (if j == k {
        h
    } else {
        (s >> head_pos(j)) & 1
    })) by (bit_vector)
        requires
            k < 30,
            j < 30,
            h <= 1,
            r == (s & !(3u64 << ((4 + 2 * k) as u64))) | (if c {
                1u64 << ((4 + 2 * k) as u64)
            } else {
                0u64
            }) | (h << ((5 + 2 * k) as u64)),
    ;
    assert(r & 15 == s & 15) by (bit_vector)
        requires
            k < 30,
            h <= 1,
            r == (s & !(3u64 << ((4 + 2 * k) as u64))) | (if c {
                1u64 << ((4 + 2 * k) as u64)
            } else {
                0u64
            }) | (h << ((5 + 2 * k) as u64)),
    ;
}

/// The sequence of bit operations a lever performs on the state word (take
/// up a coin, let one go, turn over) replaces its two bits.
pub proof fn lemma_lever_ops(s: u64, k: u64, cap: bool, rel: bool, fl: bool)
    requires
        k < 30,
    ensures
        ({
            let s1 = if cap {
                s | (8u64 << ((1 + 2 * k) as u64))
            } else {
                s
            };
            let s2 = if rel {
                s1 & !(8u64 << ((1 + 2 * k) as u64))
            } else {
                s1
            };
            let s3 = if fl {
                s2 ^ (8u64 << ((2 + 2 * k) as u64))
            } else {
                s2
            };
            s3 == with_lever(
                s,
                k,
                (has_coin(s, k) || cap) && !rel,
                if fl {
                    (1 - head_of(s, k)) as u64
                } else {
                    head_of(s, k)
                },
            )
        }),
{
    let c = (has_coin(s, k) || cap) && !rel;
    let h = head_of(s, k);
    let h2: u64 = if fl {
        (1 - h) as u64
    } else {
        h
    };
    let s1 = if cap {
        s | (8u64 << ((1 + 2 * k) as u64))
    } else {
        s
    };
    let s2 = if rel {
        s1 & !(8u64 << ((1 + 2 * k) as u64))
    } else {
        s1
    };
    let s3 = if fl {
        s2 ^ (8u64 << ((2 + 2 * k) as u64))
    } else {
        s2
    };
    assert(s3 == (s & !(3u64 << ((4 + 2 * k) as u64))) | (if c {
        1u64 << ((4 + 2 * k) as u64)
    } else {
        0u64
    }) | (h2 << ((5 + 2 * k) as u64))) by (bit_vector)
        requires
            k < 30,
            c == ((((s >> ((4 + 2 * k) as u64)) & 1 == 1) || cap) && !rel),
            h == (s >> ((5 + 2 * k) as u64)) & 1,
            h2 == if fl {
                (1 - h) as u64
            } else {
                h
            },
            s1 == if cap {
                s | (8u64 << ((1 + 2 * k) as u64))
            } else {
                s
            },
            s2 == if rel {
                s1 & !(8u64 << ((1 + 2 * k) as u64))
            } else {
                s1
            },
            s3 == if fl {
                s2 ^ (8u64 << ((2 + 2 * k) as u64))
            } else {
                s2
            },
    ;
}

} // verus!
