//! File-backed storage layout of the sparse containers: which byte regions of
//! a backing file hold the length cell, the two key buffers and the values,
//! and how many elements each region holds. Mapping the regions into memory
//! is left to the caller.
use core::marker::PhantomData;
use vstd::prelude::*;

use vstd::arithmetic::div_mod::{
    lemma_fundamental_div_mod,
    lemma_mod_bound,
    lemma_mod_multiples_basic,
    lemma_mod_self_0,
    lemma_small_mod,
};

use crate::map::SparMap;
use crate::set::{SparSet, MAX_K};

verus! {

/// How a region is mapped.
#[derive(Debug, Clone, Copy, PartialEq, Eq, Structural)]
pub enum Mode {
    /// Updates are shared with other mappings and carried through to the file.
    Shared,
    /// Updates stay in a private copy-on-write mapping.
    Private,
}

/// Greatest common divisor.
pub open spec fn gcd(a: nat, b: nat) -> nat
    decreases b,
{
    if b == 0 {
        a
    } else {
        gcd(b, a % b)
    }
}

proof fn lemma_gcd_divides(a: nat, b: nat)
    requires
        a > 0,
    ensures
        gcd(a, b) > 0,
        a % gcd(a, b) == 0,
        b % gcd(a, b) == 0,
    decreases b,
{
    if b == 0 {
        lemma_mod_self_0(a as int);
        assert(0int % (a as int) == 0);
    } else {
        lemma_mod_bound(a as int, b as int);
        lemma_gcd_divides(b, a % b);
        let g = gcd(b, a % b);
        assert(gcd(a, b) == g);
        lemma_fundamental_div_mod(b as int, g as int);
        lemma_fundamental_div_mod((a % b) as int, g as int);
        lemma_fundamental_div_mod(a as int, b as int);
        let k1 = b as int / g as int;
        let k2 = (a % b) as int / g as int;
        let q = a as int / b as int;
        let k = q * k1 + k2;
        assert(a as int == g * k) by (nonlinear_arith)
            requires
                b as int == g * k1,
                (a % b) as int == g * k2,
                a as int == b * q + (a % b) as int,
                k == q * k1 + k2,
        ;
        lemma_mod_multiples_basic(k, g as int);
        assert((k * g) % (g as int) == 0);
        assert(k * g == g * k) by (nonlinear_arith);
    }
}

fn gcd_exec(a: u64, b: u64) -> (r: u64)
    ensures
        r == gcd(a as nat, b as nat),
    decreases b,
{
    if b == 0 {
        a
    } else {
        gcd_exec(b, a % b)
    }
}

/// Number of whole `t`-byte values in `n` units of `u` bytes each.
pub open spec fn whole_values(n: nat, t: nat, u: nat) -> nat {
    n / (t / gcd(u, t)) * (u / gcd(u, t))
}

/// Number of whole `t`-byte values that `n` units of `u` bytes hold.
pub fn align_to_offsets(n: u64, t: u64, u: u64) -> (r: u64)
    requires
        t > 0,
        u > 0,
        whole_values(n as nat, t as nat, u as nat) <= u64::MAX,
    ensures
        r == whole_values(n as nat, t as nat, u as nat),
{
    let g = gcd_exec(u, t);
    proof {
        lemma_gcd_divides(u as nat, t as nat);
        assert(t / g > 0) by (nonlinear_arith)
            requires
                g > 0,
                t % g == 0,
                t > 0,
        ;
        assert(g <= u) by (nonlinear_arith)
            requires
                g > 0,
                u % g == 0,
                u > 0,
        ;
    }
    let ts = t / g;
    let us = u / g;
    proof {
        assert(ts > 0);
    }
    n / ts * us
}

/// A region of `len` bytes at `offset` in the backing file, read as values
/// of `T`.
pub struct BufMut<T> {
    pub mode: Mode,
    pub offset: u64,
    pub len: u64,
    pub marker: PhantomData<T>,
}

impl<T> BufMut<T> {
    /// The region of `len` bytes at `offset`.
    pub fn new(mode: Mode, offset: u64, len: u64) -> (r: BufMut<T>)
        ensures
            r.mode == mode,
            r.offset == offset,
            r.len == len,
    {
        BufMut { mode, offset, len, marker: PhantomData }
    }

    /// Number of whole values of `T` the region holds.
    pub fn elems(&self) -> (r: u64)
        requires
            vstd::layout::size_of::<T>() > 0,
        ensures
            r == self.len as nat / vstd::layout::size_of::<T>(),
    {
        let t = core::mem::size_of::<T>() as u64;
        proof {
            lemma_gcd_divides(1, t as nat);
            assert(gcd(1, t as nat) == 1) by (nonlinear_arith)
                requires
                    1nat % gcd(1, t as nat) == 0,
                    gcd(1, t as nat) > 0,
            ;
            assert(t as nat / gcd(1, t as nat) == t as nat);
            assert(1nat / gcd(1, t as nat) == 1);
            assert(whole_values(self.len as nat, t as nat, 1) == self.len as nat / (t as nat));
            assert(self.len as nat / (t as nat) <= self.len) by (nonlinear_arith)
                requires
                    t > 0,
            ;
        }
        align_to_offsets(self.len, t, 1)
    }
}

/// A region at `offset` in the backing file holding one value of `T`.
pub struct ValMut<T> {
    pub mode: Mode,
    pub offset: u64,
    pub marker: PhantomData<T>,
}

impl<T> ValMut<T> {
    /// The one-value region at `offset`.
    pub fn new(mode: Mode, offset: u64) -> (r: ValMut<T>)
        ensures
            r.mode == mode,
            r.offset == offset,
    {
        ValMut { mode, offset, marker: PhantomData }
    }

    /// Size of the region in bytes.
    pub fn len(&self) -> (r: usize)
        ensures
            r == vstd::layout::size_of::<T>(),
    {
        core::mem::size_of::<T>()
    }
}

/// A region of the backing file read as a buffer of `T`.
pub type MmapMutBuf<T> = BufMut<T>;

/// A region of the backing file holding one `T`.
pub type MmapMutVal<T> = ValMut<T>;

/// Byte size of a key buffer of a container of capacity `n`.
pub open spec fn key_buf_size(n: nat) -> nat {
    2 * (n + 1)
}

/// Byte size of the file behind a set of capacity `n`: the length cell and
/// the two key buffers.
pub open spec fn set_file_size(n: nat) -> nat {
    2 + 2 * key_buf_size(n)
}

/// Padding that brings `s` up to the next multiple of `v`.
pub open spec fn pad_to(s: nat, v: nat) -> nat {
    ((v - s % v) as nat) % v
}

/// Byte size of the file behind a map of capacity `n` with `v`-byte values:
/// the set's file, padding up to the next multiple of `v`, and the values.
pub open spec fn map_file_size(n: nat, v: nat) -> nat {
    set_file_size(n) + pad_to(set_file_size(n), v) + v * (n + 1)
}

impl SparSet {
    /// Byte size of the backing file for capacity `N`.
    #[allow(non_snake_case)]
    pub fn file_size(N: usize) -> (r: u64)
        requires
            N <= MAX_K,
        ensures
            r == set_file_size(N as nat),
    {
        2 + 2 * (2 * (N as u64 + 1))
    }

    /// The regions of the backing file: the length cell at offset 0, the
    /// sparse buffer after it, the dense buffer after that.
    #[allow(non_snake_case)]
    pub fn regions(N: usize, mode: Mode) -> (r: (ValMut<u16>, BufMut<u16>, BufMut<u16>))
        requires
            N <= MAX_K,
        ensures
            r.0.offset == 0,
            r.1.offset == 2,
            r.1.len == key_buf_size(N as nat),
            r.2.offset == 2 + key_buf_size(N as nat),
            r.2.len == key_buf_size(N as nat),
            r.2.offset + r.2.len == set_file_size(N as nat),
            r.0.mode == mode && r.1.mode == mode && r.2.mode == mode,
    {
        let l = 2 * (N as u64 + 1);
        (ValMut::new(mode, 0), BufMut::new(mode, 2, l), BufMut::new(mode, 2 + l, l))
    }
}

impl<V: Copy> SparMap<V> {
    /// Byte size of the backing file for capacity `N`.
    #[allow(non_snake_case)]
    pub fn file_size(N: usize) -> (r: u64)
        requires
            N <= MAX_K,
            0 < vstd::layout::size_of::<V>() <= u32::MAX,
        ensures
            r == map_file_size(N as nat, vstd::layout::size_of::<V>()),
    {
        let v = core::mem::size_of::<V>() as u64;
        let set = SparSet::file_size(N);
        proof {
            assert(set % v < v) by (nonlinear_arith)
                requires
                    v > 0,
            ;
            assert(v * (N as u64 + 1) <= u32::MAX * (MAX_K + 1)) by (nonlinear_arith)
                requires
                    v <= u32::MAX,
                    N <= MAX_K,
            ;
        }
        proof {
            assert(((v - set % v) as int) % (v as int) < v) by (nonlinear_arith)
                requires
                    v > 0,
            ;
        }
        set + (v - set % v) % v + v * (N as u64 + 1)
    }

    /// The region of the values buffer: after the key regions, padded to a
    /// multiple of the value size.
    #[allow(non_snake_case)]
    pub fn vals_region(N: usize, mode: Mode) -> (r: BufMut<V>)
        requires
            N <= MAX_K,
            0 < vstd::layout::size_of::<V>() <= u32::MAX,
        ensures
            r.offset == map_file_size(N as nat, vstd::layout::size_of::<V>())
                - vstd::layout::size_of::<V>() * (N + 1),
            r.offset as nat % vstd::layout::size_of::<V>() == 0,
            r.len == vstd::layout::size_of::<V>() * (N + 1),
            r.mode == mode,
    {
        let v = core::mem::size_of::<V>() as u64;
        let total = Self::file_size(N);
        proof {
            assert(v * (N + 1) <= u32::MAX * (MAX_K + 1)) by (nonlinear_arith)
                requires
                    v <= u32::MAX,
                    N <= MAX_K,
            ;
            let s = set_file_size(N as nat);
            let vv = v as nat;
            let r = s % vv;
            let q = s / vv;
            lemma_fundamental_div_mod(s as int, vv as int);
            if r == 0 {
                lemma_mod_self_0(vv as int);
                assert(pad_to(s, vv) == 0);
                assert(s == vv * q);
                lemma_mod_multiples_basic(q as int, vv as int);
                assert(((q * vv) as int) % (vv as int) == 0);
                assert(q * vv == vv * q) by (nonlinear_arith);
            } else {
                lemma_mod_bound(s as int, vv as int);
                assert(0 < vv - r < vv);
                lemma_small_mod((vv - r) as nat, vv);
                assert(pad_to(s, vv) == vv - r);
                assert(s + pad_to(s, vv) == vv * (q + 1)) by (nonlinear_arith)
                    requires
                        s == vv * q + r,
                        pad_to(s, vv) == vv - r,
                ;
                lemma_mod_multiples_basic((q + 1) as int, vv as int);
                assert((q + 1) * vv == vv * (q + 1)) by (nonlinear_arith);
            }
            assert((s + pad_to(s, vv)) % vv == 0);
        }
        let l = v * (N as u64 + 1);
        BufMut::new(mode, total - l, l)
    }
}

} // verus!
