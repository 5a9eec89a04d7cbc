//! Golden set for the CPMM at zero fee: `|dk / k| <= 1e-9`, with Wad
//! inputs and the 256-bit intermediate only for `k`.

use credit_engine_core::amm::swap::get_amount_out;
use credit_engine_core::amm::guardrails::mul_u128_to_u256;
use credit_engine_core::amm::types::{U256, Wad, WAD};

fn w(n: &str) -> Wad {
    n.parse::<u128>().expect("u128") * WAD
}

fn k(x: Wad, y: Wad) -> U256 {
    mul_u128_to_u256(x, y)
}

fn check(name: &str, rx: Wad, ry: Wad, dx: Wad) {
    let k0 = k(rx, ry);
    let dy: Wad = get_amount_out(rx, ry, dx, 0u32).expect("swap ok");
    let k1 = k(rx + dx, ry - dy);
    let delta = if k1 >= k0 {
        k1.checked_sub(&k0).unwrap()
    } else {
        k0.checked_sub(&k1).unwrap()
    };
    let tol = k0.div_rem(&U256::from_u128(1_000_000_000)).0;
    assert!(
        delta <= tol,
        "{}: |dk| over tolerance (rx={}, ry={}, dx={}, dy={})",
        name,
        rx,
        ry,
        dx,
        dy
    );
}

#[test]
fn golden_cpmm_all() {
    // 1e18 scale (WAD)
    let rx = w("1000000");
    let ry = w("1000000");
    let dx = w("1000");
    check("sym:small", rx, ry, dx);

    check("sym:large", w("5000000000"), w("5000000000"), w("1000000"));

    // asymmetry
    check("asym:x>>y", w("1000000000"), w("1000000"), w("1000"));
    check("asym:y>>x", w("1000000"), w("1000000000"), w("1000"));

    // limits
    check("lim:min_dx", w("1000000"), w("1000000"), 1u128); // 1 wei
    check("lim:tiny_vs_big", w("1000"), w("1000000000"), w("1"));

    // add -> swap -> remove sequence (invariance validated at the swap)
    let s: Wad = 2u128; // scale factor (add)
    check("seq:add->swap->remove", w("2000000") * s, w("3000000") * s, w("500"));
}
