//! Entry points that pick a [`Backend`] and run a generic [`Kernel`], the ILP unroll-factor
//! resolution around them, and the dispatch-tier policy: which instruction-set tier a
//! `(host capabilities, element-type combo)` pair canonicalizes to, with a resolve-once cache.

use vstd::prelude::*;

use crate::backend::{Backend, ScalarBackend, Unroll};
use crate::scalar::Scalar;
use crate::varying::Gang;

pub mod route;
pub mod tier;

verus! {

/// A unit of work generic over the execution backend. Implement it once; the library runs it on
/// the backend it selects, handing [`run`](Kernel::run) a [`Gang`] to build varying values
/// through.
pub trait Kernel<T: Scalar>: Sized {
    type Output;

    /// Ceiling on the unroll factor for this kernel, `min`'d against the factor resolved for the
    /// backend, so a register-heavy kernel is not unrolled past the point where it spills.
    const K_CAP: usize = crate::MAX_UNROLL;

    /// What the kernel needs of its own fields to run (bounds, shapes). Nothing, unless the
    /// kernel says otherwise.
    open spec fn ready(self) -> bool {
        true
    }

    /// The outputs the kernel may produce on a backend of `lanes` lanes stamped with unroll
    /// factor `unroll`. Any, unless the kernel says otherwise.
    open spec fn outcome(self, lanes: usize, unroll: nat, out: Self::Output) -> bool {
        true
    }

    fn run<S: Backend<T>>(self, simd: Gang<S>) -> (r: Self::Output)
        requires
            self.ready(),
        ensures
            self.outcome(simd.backend.lanes_spec() as usize, simd.backend.unroll_spec(), r),
    ;
}

/// Per-scalar dispatch policy: pick a backend for `Self` and run the kernel on it.
pub trait SimdDispatch: Scalar {
    fn dispatch<K: Kernel<Self>>(kernel: K) -> (r: K::Output)
        requires
            kernel.ready(),
        ensures
            exists|l: usize, u: nat| 1 <= l <= 32 && kernel.outcome(l, u, r),
    ;
}

/// The `Unroll<_, k>` wrapper picked for a resolved factor `u`: `u` itself where it is one of the
/// instantiated factors 2, 4, 8, 12, 16, else 1.
pub open spec fn unroll_pick(u: nat) -> nat {
    if u == 2 || u == 4 || u == 8 || u == 12 || u == 16 {
        u
    } else {
        1
    }
}

/// The factor a kernel capped at `cap` runs with on a backend whose resolved factor is `u`.
pub open spec fn unroll_for(u: nat, cap: nat) -> nat {
    unroll_pick(if u < cap { u } else { cap })
}

/// Runs the wrapped kernel on `Unroll<S, K>`, the dispatched backend re-stamped with the unroll
/// factor resolved for it, so `K` is a constant inside the kernel.
pub struct UnrollSelect<K>(pub K);

impl<T: Scalar, K: Kernel<T>> Kernel<T> for UnrollSelect<K> {
    type Output = K::Output;

    open spec fn ready(self) -> bool {
        self.0.ready()
    }

    open spec fn outcome(self, lanes: usize, unroll: nat, out: K::Output) -> bool {
        self.0.outcome(lanes, unroll_for(unroll, K::K_CAP as nat), out)
    }

    fn run<S: Backend<T>>(self, g: Gang<S>) -> (r: K::Output) {
        let b = g.backend();
        let u = g.unroll::<T>();
        let cap = K::K_CAP;
        let k = if u < cap {
            u
        } else {
            cap
        };
        proof {
            Unroll::<S, 2>(b).lemma_views::<T>();
            Unroll::<S, 4>(b).lemma_views::<T>();
            Unroll::<S, 8>(b).lemma_views::<T>();
            Unroll::<S, 12>(b).lemma_views::<T>();
            Unroll::<S, 16>(b).lemma_views::<T>();
            Unroll::<S, 1>(b).lemma_views::<T>();
        }
        match k {
            2 => self.0.run(Gang::new(Unroll::<S, 2>(b))),
            4 => self.0.run(Gang::new(Unroll::<S, 4>(b))),
            8 => self.0.run(Gang::new(Unroll::<S, 8>(b))),
            12 => self.0.run(Gang::new(Unroll::<S, 12>(b))),
            16 => self.0.run(Gang::new(Unroll::<S, 16>(b))),
            _ => self.0.run(Gang::new(Unroll::<S, 1>(b))),
        }
    }
}

/// Run `kernel` on the backend its element type's dispatch policy selects, with the unroll
/// factor resolved for that backend.
pub fn dispatch<T: SimdDispatch, K: Kernel<T>>(kernel: K) -> (r: K::Output)
    requires
        kernel.ready(),
    ensures
        exists|l: usize, u: nat| 1 <= l <= 32 && kernel.outcome(l, unroll_for(u, K::K_CAP as nat), r),
{
    T::dispatch(UnrollSelect(kernel))
}

/// Run `kernel` on the always-available scalar (1-lane) backend: the correctness oracle.
pub fn run_scalar<T: Scalar, K: Kernel<T>>(kernel: K) -> (r: K::Output)
    requires
        kernel.ready(),
    ensures
        kernel.outcome(1, 1, r),
{
    kernel.run(Gang::new(ScalarBackend))
}

/// Run a kernel on an explicit backend with the standard unroll-factor resolution: once, on
/// `Unroll<S, k>` with `k` the backend's factor capped at `K::K_CAP` when that is one of 2, 4, 8,
/// 12, 16, else 1.
pub fn run_kernel_on<T: Scalar, K: Kernel<T>, S: Backend<T>>(kernel: K, backend: S) -> (r: K::Output)
    requires
        kernel.ready(),
    ensures
        kernel.outcome(backend.lanes_spec() as usize, unroll_for(backend.unroll_spec(), K::K_CAP as nat), r),
{
    UnrollSelect(kernel).run(Gang::new(backend))
}

/// Dispatch agrees with the scalar oracle: a kernel whose outcome admits one output whatever the
/// lane count and unroll factor, given `dispatched` as [`dispatch`] promises and `scalar` as
/// [`run_scalar`] promises, has `dispatched == scalar`.
pub proof fn lemma_dispatch_agrees_with_scalar<T: Scalar, K: Kernel<T>>(
    kernel: K,
    dispatched: K::Output,
    scalar: K::Output,
)
    requires
        forall|l1: usize, u1: nat, o1: K::Output, l2: usize, u2: nat, o2: K::Output|
            #[trigger] kernel.outcome(l1, u1, o1) && #[trigger] kernel.outcome(l2, u2, o2) ==> o1 == o2,
        exists|l: usize, u: nat| 1 <= l <= 32 && kernel.outcome(l, unroll_for(u, K::K_CAP as nat), dispatched),
        kernel.outcome(1, 1, scalar),
    ensures
        dispatched == scalar,
{
    let (l, u) = choose|l: usize, u: nat| 1 <= l <= 32 && kernel.outcome(l, unroll_for(u, K::K_CAP as nat), dispatched);
    assert(kernel.outcome(l, unroll_for(u, K::K_CAP as nat), dispatched));
    assert(kernel.outcome(1, 1, scalar));
}

impl SimdDispatch for u32 {
    fn dispatch<K: Kernel<u32>>(kernel: K) -> (r: K::Output) {
        let r = kernel.run(Gang::new(ScalarBackend));
        assert(1 <= 1usize <= 32 && kernel.outcome(1, 1, r));
        r
    }
}

impl SimdDispatch for i32 {
    fn dispatch<K: Kernel<i32>>(kernel: K) -> (r: K::Output) {
        let r = kernel.run(Gang::new(ScalarBackend));
        assert(1 <= 1usize <= 32 && kernel.outcome(1, 1, r));
        r
    }
}

/// Element bits a kernel's type-combo bitmask is built from.
pub const F16_BIT: u8 = 4;

pub const BF16_BIT: u8 = 8;

pub const INT_BITS: u8 = 48;

/// What the host guarantees, as seen by [`canonical_tier`]. Pure data so the policy is
/// checkable off-target.
#[derive(Clone, Copy, Default)]
pub struct Caps {
    pub sse4: bool,
    pub avx1: bool,
    pub avx2: bool,
    pub avx512: bool,
    pub fp16: bool,
    pub bf16: bool,
    pub neon: bool,
    /// SVE vector length in bytes; `0` when absent (or policy-disabled).
    pub sve_vl: u16,
    pub simd128: bool,
    pub relaxed: bool,
}

/// The combo holds an `f16` element.
pub open spec fn has_f16(combo: u8) -> bool {
    combo & F16_BIT != 0
}

/// The combo holds a `bf16` element.
pub open spec fn has_bf16(combo: u8) -> bool {
    combo & BF16_BIT != 0
}

/// The combo holds an integer element.
pub open spec fn has_int(combo: u8) -> bool {
    combo & INT_BITS != 0
}

/// The tier a `(host, combo)` pair canonicalizes to, by priority: the AVX-512 family (its
/// fp16/bf16 towers only for combos holding that half type), AVX2, AVX1 (pure-float combos
/// only), SSE4, SVE by vector length (integer-free combos only), NEON, relaxed-SIMD, SIMD128,
/// scalar.
pub open spec fn canonical_tier_spec(caps: Caps, combo: u8) -> u8 {
    if caps.avx512 {
        if has_f16(combo) && caps.fp16 {
            tier::AVX512FP16
        } else if has_bf16(combo) && caps.bf16 {
            tier::AVX512BF16
        } else {
            tier::AVX512
        }
    } else if caps.avx2 {
        tier::AVX2
    } else if caps.avx1 && !has_int(combo) && !has_f16(combo) && !has_bf16(combo) {
        tier::AVX1
    } else if caps.sse4 {
        tier::SSE4
    } else if caps.sve_vl > 0 && !has_int(combo) {
        if caps.sve_vl >= 64 {
            tier::SVE64
        } else if caps.sve_vl >= 32 {
            tier::SVE32
        } else {
            tier::SVE16
        }
    } else if caps.neon {
        tier::NEON
    } else if caps.relaxed {
        tier::RELAXED
    } else if caps.simd128 {
        tier::SIMD128
    } else {
        tier::SCALAR
    }
}

/// The canonical tier for a `(host, type-combo)` pair. Kernels monomorphize only for tiers
/// distinct on the elements they use:
/// - fp16/bf16 towers only when the combo contains that half type (their other elements are
///   identical to plain AVX-512);
/// - AVX1 only for pure `f32`/`f64` combos (its integer/half lanes are emulated, SSE4's are
///   native);
/// - SVE only for integer-free combos (its integer lanes are emulated, NEON's are native).
pub fn canonical_tier(caps: &Caps, combo: u8) -> (t: u8)
    ensures
        t == canonical_tier_spec(*caps, combo),
{
    if caps.avx512 {
        if combo & F16_BIT != 0 && caps.fp16 {
            return tier::AVX512FP16;
        }
        if combo & BF16_BIT != 0 && caps.bf16 {
            return tier::AVX512BF16;
        }
        return tier::AVX512;
    }
    if caps.avx2 {
        return tier::AVX2;
    }
    if caps.avx1 && combo & (INT_BITS | F16_BIT | BF16_BIT) == 0 {
        assert(combo & (INT_BITS | F16_BIT | BF16_BIT) == 0 <==> (combo & INT_BITS == 0 && combo
            & F16_BIT == 0 && combo & BF16_BIT == 0)) by (bit_vector);
        return tier::AVX1;
    }
    assert(combo & (INT_BITS | F16_BIT | BF16_BIT) == 0 <==> (combo & INT_BITS == 0 && combo
        & F16_BIT == 0 && combo & BF16_BIT == 0)) by (bit_vector);
    if caps.sse4 {
        return tier::SSE4;
    }
    if caps.sve_vl > 0 && combo & INT_BITS == 0 {
        return if caps.sve_vl >= 64 {
            tier::SVE64
        } else if caps.sve_vl >= 32 {
            tier::SVE32
        } else {
            tier::SVE16
        };
    }
    if caps.neon {
        return tier::NEON;
    }
    if caps.relaxed {
        return tier::RELAXED;
    }
    if caps.simd128 {
        return tier::SIMD128;
    }
    tier::SCALAR
}

/// The resolve-once table of dispatch tiers for one host: slot `c` holds `0` until combo `c`
/// is first asked for, then its canonical tier for good.
pub struct TierCache {
    caps: Caps,
    slots: Vec<u8>,
}

impl TierCache {
    /// The host capabilities the table resolves against.
    pub closed spec fn caps_spec(&self) -> Caps {
        self.caps
    }

    /// What slot `c` holds: `0` while combo `c` is unresolved, its tier after.
    pub closed spec fn slot(&self, c: int) -> u8 {
        self.slots@[c]
    }

    /// Every slot is unresolved or holds the canonical tier of its combo.
    pub closed spec fn wf(&self) -> bool {
        &&& self.slots@.len() == 64
        &&& forall|c: int|
            0 <= c < 64 ==> #[trigger] self.slots@[c] == 0 || self.slots@[c] == canonical_tier_spec(
                self.caps,
                c as u8,
            )
    }

    /// An empty table for a host with these capabilities.
    pub fn new(caps: Caps) -> (r: Self)
        ensures
            r.wf(),
            r.caps_spec() == caps,
            forall|c: int| 0 <= c < 64 ==> #[trigger] r.slot(c) == 0,
    {
        let mut slots: Vec<u8> = Vec::new();
        let mut i: usize = 0;
        while i < 64
            invariant
                slots@.len() == i,
                i <= 64,
                forall|c: int| 0 <= c < i ==> #[trigger] slots@[c] == 0,
            decreases 64 - i,
        {
            slots.push(0);
            i += 1;
        }
        TierCache { caps, slots }
    }

    /// The tier for `combo` (its low six bits), resolved on first use and read back after: a
    /// resolved slot is returned as it is and kept; an unresolved one gets the tier.
    pub fn tier(&mut self, combo: u8) -> (t: u8)
        requires
            old(self).wf(),
        ensures
            final(self).wf(),
            final(self).caps_spec() == old(self).caps_spec(),
            t == canonical_tier_spec(old(self).caps_spec(), combo & 63),
            final(self).slot((combo & 63) as int) == t,
            old(self).slot((combo & 63) as int) != 0 ==> t == old(self).slot((combo & 63) as int),
            forall|c: int| 0 <= c < 64 && c != (combo & 63) ==> #[trigger] final(self).slot(c) == old(self).slot(c),
    {
        let c = combo & 63;
        assert(c < 64) by (bit_vector)
            requires
                c == combo & 63,
        ;
        let s = self.slots[c as usize];
        if s == 0 {
            let t = canonical_tier(&self.caps, c);
            proof {
                lemma_tier_nonzero(self.caps, c);
            }
            self.slots.set(c as usize, t);
            t
        } else {
            s
        }
    }
}

/// Every canonical tier is one of the thirteen named tiers, so never `0` (the unresolved mark).
pub proof fn lemma_tier_nonzero(caps: Caps, combo: u8)
    ensures
        1 <= canonical_tier_spec(caps, combo) <= 13,
{
}

/// The x86 ladder by host, whatever the combo's elements: an AVX-512 host runs the AVX-512
/// family (its FP16/BF16 towers exactly for combos holding that half type and a host offering
/// it); a host with AVX2 but no AVX-512 runs AVX2, integer and half combos included; below
/// that, AVX1 serves exactly the pure `f32`/`f64` combos and SSE4 the rest.
pub proof fn lemma_x86_ladder(caps: Caps, combo: u8)
    ensures
        caps.avx512 ==> (canonical_tier_spec(caps, combo) == tier::AVX512FP16 <==> (has_f16(combo)
            && caps.fp16)),
        caps.avx512 && !(has_f16(combo) && caps.fp16) ==> (canonical_tier_spec(caps, combo)
            == tier::AVX512BF16 <==> (has_bf16(combo) && caps.bf16)),
        caps.avx512 && !(has_f16(combo) && caps.fp16) && !(has_bf16(combo) && caps.bf16)
            ==> canonical_tier_spec(caps, combo) == tier::AVX512,
        !caps.avx512 && caps.avx2 ==> canonical_tier_spec(caps, combo) == tier::AVX2,
        !caps.avx512 && !caps.avx2 && caps.avx1 && !has_int(combo) && !has_f16(combo) && !has_bf16(
            combo,
        ) ==> canonical_tier_spec(caps, combo) == tier::AVX1,
        !caps.avx512 && !caps.avx2 && caps.sse4 && (!caps.avx1 || has_int(combo) || has_f16(combo)
            || has_bf16(combo)) ==> canonical_tier_spec(caps, combo) == tier::SSE4,
{
}

/// The dispatch tier for a kernel's type-combo, resolved once per `(table, combo)`.
pub fn combo_tier(cache: &mut TierCache, combo: u8) -> (t: u8)
    requires
        old(cache).wf(),
    ensures
        final(cache).wf(),
        final(cache).caps_spec() == old(cache).caps_spec(),
        t == canonical_tier_spec(old(cache).caps_spec(), combo & 63),
        final(cache).slot((combo & 63) as int) == t,
        old(cache).slot((combo & 63) as int) != 0 ==> t == old(cache).slot((combo & 63) as int),
        forall|c: int| 0 <= c < 64 && c != (combo & 63) ==> #[trigger] final(cache).slot(c) == old(cache).slot(c),
{
    cache.tier(combo)
}

/// The monomorphization policy `canonical_tier` promises: the fp16/bf16 towers only for combos
/// holding that half type, AVX1 only for pure `f32`/`f64` combos, SVE only for integer-free
/// combos, a half-free combo on an AVX-512 host lands on plain AVX-512, and a host with no
/// capability runs scalar.
pub proof fn lemma_tier_policy(caps: Caps, combo: u8)
    ensures
        canonical_tier_spec(caps, combo) == tier::AVX512FP16 ==> has_f16(combo),
        canonical_tier_spec(caps, combo) == tier::AVX512BF16 ==> has_bf16(combo),
        canonical_tier_spec(caps, combo) == tier::AVX1 ==> !has_int(combo) && !has_f16(combo) && !has_bf16(
            combo,
        ),
        (canonical_tier_spec(caps, combo) == tier::SVE16 || canonical_tier_spec(caps, combo) == tier::SVE32
            || canonical_tier_spec(caps, combo) == tier::SVE64) ==> !has_int(combo),
        caps.avx512 && !has_f16(combo) && !has_bf16(combo) ==> canonical_tier_spec(caps, combo)
            == tier::AVX512,
        !caps.sse4 && !caps.avx1 && !caps.avx2 && !caps.avx512 && !caps.neon && caps.sve_vl == 0
            && !caps.simd128 && !caps.relaxed ==> canonical_tier_spec(caps, combo) == tier::SCALAR,
{
}

} // verus!
