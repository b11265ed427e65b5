//! The integer-add kernels: a chain of dependent adds, whose speed is the
//! add latency, and four independent chains, whose speed is the throughput.

use vstd::prelude::*;
use vstd::wrapping::u64_specs::wrapping_add;

verus! {

/// One link of a Fibonacci-style chain: `x += y; y += x`, wrapping.
pub open spec fn fib_step(p: (u64, u64)) -> (u64, u64) {
    let x = wrapping_add(p.0, p.1);
    (x, wrapping_add(p.1, x))
}

/// `k` links of the chain, starting from `p`.
pub open spec fn fib_steps(p: (u64, u64), k: nat) -> (u64, u64)
    decreases k,
{
    if k == 0 {
        p
    } else {
        fib_step(fib_steps(p, (k - 1) as nat))
    }
}

/// The dependent chain: `iters` rounds of four links (eight adds), each add
/// needing the result of the one before.
pub fn dependent_add_chain(x: u64, y: u64, iters: u64) -> (r: (u64, u64))
    ensures
        r == fib_steps((x, y), 4 * iters as nat),
{
    let mut x = x;
    let mut y = y;
    let ghost start = (x, y);
    let mut i: u64 = 0;
    while i < iters
        invariant
            i <= iters,
            (x, y) == fib_steps(start, 4 * i as nat),
        decreases iters - i,
    {
        x = x.wrapping_add(y);
        y = y.wrapping_add(x);
        x = x.wrapping_add(y);
        y = y.wrapping_add(x);
        x = x.wrapping_add(y);
        y = y.wrapping_add(x);
        x = x.wrapping_add(y);
        y = y.wrapping_add(x);
        assert((x, y) == fib_steps(start, (4 * i + 4) as nat)) by {
            reveal_with_fuel(fib_steps, 5);
        }
        i = i + 1;
    }
    (x, y)
}

/// Four independent chains `(v[0], v[1])`, `(v[2], v[3])`, `(v[4], v[5])`,
/// `(v[6], v[7])`, each advanced by one link per round for `iters` rounds.
pub fn independent_add_chains(v: [u64; 8], iters: u64) -> (r: [u64; 8])
    ensures
        forall|c: int| 0 <= c < 4 ==> (#[trigger] r@[2 * c], r@[2 * c + 1]) == fib_steps(
            (v@[2 * c], v@[2 * c + 1]),
            iters as nat,
        ),
{
    let mut a = v[0];
    let mut b = v[1];
    let mut c = v[2];
    let mut d = v[3];
    let mut e = v[4];
    let mut f = v[5];
    let mut g = v[6];
    let mut h = v[7];
    let mut i: u64 = 0;
    while i < iters
        invariant
            i <= iters,
            (a, b) == fib_steps((v@[0], v@[1]), i as nat),
            (c, d) == fib_steps((v@[2], v@[3]), i as nat),
            (e, f) == fib_steps((v@[4], v@[5]), i as nat),
            (g, h) == fib_steps((v@[6], v@[7]), i as nat),
        decreases iters - i,
    {
        a = a.wrapping_add(b);
        b = b.wrapping_add(a);
        c = c.wrapping_add(d);
        d = d.wrapping_add(c);
        e = e.wrapping_add(f);
        f = f.wrapping_add(e);
        g = g.wrapping_add(h);
        h = h.wrapping_add(g);
        i = i + 1;
    }
    let r = [a, b, c, d, e, f, g, h];
    assert forall|k: int| 0 <= k < 4 implies (#[trigger] r@[2 * k], r@[2 * k + 1]) == fib_steps(
        (v@[2 * k], v@[2 * k + 1]),
        iters as nat,
    ) by {
        assert(k == 0 || k == 1 || k == 2 || k == 3);
    }
    r
}

} // verus!
