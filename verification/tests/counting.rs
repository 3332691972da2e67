use bdd::raw::{Bdd, Context};
use bumpalo::Bump;

#[test]
fn true_has_every_assignment_as_a_model() {
    let arena = Bump::new();
    let mut ctx: Context<u32> = Context::new(&arena);
    let t = ctx.true_();
    let mut vars: Vec<u32> = Vec::new();
    let mut expected: u64 = 1;
    for n in 0..64u32 {
        assert_eq!(t.nsat(&vars), expected);
        assert_eq!(t.checked_nsat(&vars), Some(expected));
        vars.push(n);
        expected = expected.wrapping_mul(2);
    }
}

#[test]
fn false_has_no_model() {
    let arena = Bump::new();
    let mut ctx: Context<u32> = Context::new(&arena);
    let f = ctx.false_();
    let mut vars: Vec<u32> = Vec::new();
    for n in 0..100u32 {
        assert_eq!(f.nsat(&vars), 0);
        vars.push(n);
    }
}

#[test]
fn counts_over_two_variables() {
    let arena = Bump::new();
    let mut ctx = Context::new(&arena);
    let x = ctx.var(0u16);
    let y = ctx.var(1u16);
    let vars = [0u16, 1u16];
    assert_eq!(x.nsat(&vars), 2);
    assert_eq!(ctx.and(x, y).nsat(&vars), 1);
    assert_eq!(ctx.or(x, y).nsat(&vars), 3);
    assert_eq!(ctx.xor(x, y).nsat(&vars), 2);
    assert_eq!(ctx.not(x).nsat(&vars), 2);
}

#[test]
fn variables_that_the_diagram_skips_double_the_count() {
    let arena = Bump::new();
    let mut ctx = Context::new(&arena);
    let x = ctx.var(10u8);
    let z = ctx.var(30u8);
    let xz = ctx.and(x, z);
    assert_eq!(xz.nsat(&[10, 30]), 1);
    assert_eq!(xz.nsat(&[10, 20, 30]), 2);
    assert_eq!(xz.nsat(&[5, 10, 20, 30]), 4);
    assert_eq!(xz.nsat(&[5, 10, 20, 30, 40]), 8);
    assert_eq!(x.nsat(&[10]), 1);
    assert_eq!(ctx.not(x).nsat(&[10]), 1);
}

#[test]
fn checked_count_agrees_with_the_count() {
    let arena = Bump::new();
    let mut ctx = Context::new(&arena);
    let x = ctx.var(0);
    let y = ctx.var(1);
    let z = ctx.var(2);
    let xy = ctx.or(x, y);
    let d = ctx.xor(xy, z);
    let vars = [0, 1, 2];
    assert_eq!(d.nsat(&vars), 4);
    assert_eq!(d.checked_nsat(&vars), Some(4));
    assert_eq!(ctx.true_().checked_nsat(&[]), Some(1));
    assert_eq!(ctx.false_().checked_nsat(&[]), Some(0));
}

#[test]
fn checked_count_refuses_a_list_out_of_order() {
    let arena = Bump::new();
    let mut ctx = Context::new(&arena);
    let x = ctx.var(0);
    let y = ctx.var(1);
    let xy = ctx.and(x, y);
    assert_eq!(xy.checked_nsat(&[1, 0]), None);
    assert_eq!(xy.checked_nsat(&[0, 1, 1]), None);
    assert_eq!(xy.checked_nsat(&[0, 0, 1]), None);
    assert_eq!(ctx.true_().checked_nsat(&[3, 2]), None);
    assert_eq!(xy.checked_nsat(&[0, 1]), Some(1));
}

#[test]
fn checked_count_refuses_a_list_that_leaves_a_variable_out() {
    let arena = Bump::new();
    let mut ctx = Context::new(&arena);
    let x = ctx.var(0);
    let y = ctx.var(1);
    let z = ctx.var(2);
    let xy = ctx.and(x, y);
    let xyz = ctx.or(xy, z);
    assert_eq!(xyz.checked_nsat(&[]), None);
    assert_eq!(xyz.checked_nsat(&[0]), None);
    assert_eq!(xyz.checked_nsat(&[0, 1]), None);
    assert_eq!(xyz.checked_nsat(&[1, 2]), None);
    assert_eq!(xyz.checked_nsat(&[0, 2]), None);
    assert_eq!(xyz.checked_nsat(&[0, 1, 3]), None);
    assert_eq!(xyz.checked_nsat(&[0, 1, 2]), Some(5));
    assert_eq!(xyz.checked_nsat(&[0, 1, 2, 3]), Some(10));
}

#[test]
fn checked_count_refuses_a_count_that_does_not_fit() {
    let arena = Bump::new();
    let mut ctx: Context<u32> = Context::new(&arena);
    let t = ctx.true_();
    let x = ctx.var(0);
    let nx = ctx.not(x);
    let vars63: Vec<u32> = (0..63).collect();
    let vars64: Vec<u32> = (0..64).collect();
    let vars65: Vec<u32> = (0..65).collect();
    assert_eq!(t.checked_nsat(&vars63), Some(1u64 << 63));
    assert_eq!(t.checked_nsat(&vars64), None);
    assert_eq!(t.checked_nsat(&vars65), None);
    assert_eq!(x.checked_nsat(&vars64), Some(1u64 << 63));
    assert_eq!(nx.checked_nsat(&vars64), Some(1u64 << 63));
    assert_eq!(x.nsat(&vars64), 1u64 << 63);
    assert_eq!(x.checked_nsat(&vars65), None);
    let y = ctx.var(1);
    let x_or_y = ctx.or(x, y);
    assert_eq!(x_or_y.checked_nsat(&vars64), Some(3u64 << 62));
    assert_eq!(x_or_y.checked_nsat(&vars65), None);
}

/// The diagram that is true when an odd number of the variables below
/// `n` is true.
fn parity<'a>(ctx: &mut Context<'a, u16>, n: u16) -> Bdd<'a, u16> {
    let mut out = ctx.false_();
    for v in 0..n {
        let x = ctx.var(v);
        out = ctx.xor(out, x);
    }
    out
}

#[test]
fn shared_nodes_are_counted_once() {
    let arena = Bump::new();
    let mut ctx = Context::new(&arena);
    let odd = parity(&mut ctx, 60);
    let vars: Vec<u16> = (0..60).collect();
    assert_eq!(odd.nsat(&vars), 1u64 << 59);
    let even = ctx.not(odd);
    assert_eq!(even.nsat(&vars), 1u64 << 59);
    assert_eq!(ctx.xor(odd, even), ctx.true_());
    assert_eq!(parity(&mut ctx, 60), odd);
}
