use bdd::raw::{Bdd, Context};
use bumpalo::Bump;

#[test]
fn test() {
    let allo = Bump::new();
    let mut ctx = Context::new(&allo);

    let x = ctx.var(0);
    let y = ctx.var(1);
    let z = ctx.var(2);
    let f = ctx.false_();
    let t = ctx.true_();
    let vars = [0, 1];

    assert!(x.nsat(&vars) == 2);
    assert!(y.nsat(&vars) == 2);
    let xay = ctx.and(x, y);
    assert!(xay.nsat(&vars) == 1);
    let xoy = ctx.or(x, y);
    assert!(xoy.nsat(&vars) == 3);
    let xxy = ctx.xor(x, y);
    assert!(xxy.nsat(&vars) == 2);

    let xax = ctx.and(x, x);
    assert!(xax == x);
    let yay = ctx.and(y, y);
    assert!(yay == y);
    let xay = ctx.and(x, y);
    let yax = ctx.and(y, x);
    assert!(xay == yax);
    let xaf = ctx.and(x, f);
    assert!(xaf == f);
    let xat = ctx.and(x, t);
    assert!(xat == x);
    let nx = ctx.not(x);
    let xanx = ctx.and(x, nx);
    assert!(xanx == f);

    let xox = ctx.or(x, x);
    assert!(xox == x);
    let xoy = ctx.or(x, y);
    let yox = ctx.or(y, x);
    assert!(xoy == yox);
    let xof = ctx.or(x, f);
    assert!(xof == x);
    let xot = ctx.or(x, t);
    assert!(xot == t);
    let xonx = ctx.or(x, nx);
    assert!(xonx == t);

    let yoz = ctx.or(y, z);
    let xayoz = ctx.and(x, yoz);
    let xaz = ctx.and(x, z);
    let xayoxaz = ctx.or(xay, xaz);
    assert!(xayoz == xayoxaz);
    let yaz = ctx.and(y, z);
    let xoyaz = ctx.or(x, yaz);
    let xoz = ctx.or(x, z);
    let xoyaxoz = ctx.and(xoy, xoz);
    assert!(xoyaz == xoyaxoz);
    let nyaz = ctx.not(yaz);
    let ny = ctx.not(y);
    let nz = ctx.not(z);
    let nyonz = ctx.or(ny, nz);
    assert!(nyaz == nyonz);
    let nyoz = ctx.not(yoz);
    let nyanz = ctx.and(ny, nz);
    assert!(nyoz == nyanz);

    let yxx = ctx.xor(y, x);
    assert!(xxy == yxx);
    let xxx = ctx.xor(x, x);
    assert!(xxx == f);
    let xxnx = ctx.xor(x, nx);
    assert!(xxnx == t);
    let xxt = ctx.xor(x, t);
    assert!(xxt == nx);
    let xxf = ctx.xor(x, f);
    assert!(xxf == x);
    let xany = ctx.and(x, ny);
    let nxay = ctx.and(nx, y);
    let xanyonxay = ctx.or(xany, nxay);
    assert!(xxy == xanyonxay);
}

/// Three diagrams that are no plain variables: `(v0 or v3) and not v1`,
/// `v1 xor v2`, `v2 or (v0 and v4)`.
fn samples<'a>(ctx: &mut Context<'a, u32>) -> [Bdd<'a, u32>; 3] {
    let v0 = ctx.var(0);
    let v1 = ctx.var(1);
    let v2 = ctx.var(2);
    let v3 = ctx.var(3);
    let v4 = ctx.var(4);
    let v0_or_v3 = ctx.or(v0, v3);
    let not_v1 = ctx.not(v1);
    let a = ctx.and(v0_or_v3, not_v1);
    let b = ctx.xor(v1, v2);
    let v0_and_v4 = ctx.and(v0, v4);
    let c = ctx.or(v2, v0_and_v4);
    [a, b, c]
}

#[test]
fn double_negation_gives_the_diagram_back() {
    let arena = Bump::new();
    let mut ctx = Context::new(&arena);
    for a in samples(&mut ctx) {
        let na = ctx.not(a);
        assert_ne!(na, a);
        assert_eq!(ctx.not(na), a);
    }
}

#[test]
fn building_twice_gives_the_same_handle() {
    let arena = Bump::new();
    let mut ctx = Context::new(&arena);
    let x = ctx.var(7u8);
    let y = ctx.var(9u8);
    let first = ctx.and(x, y);
    let second = ctx.and(x, y);
    assert_eq!(first, second);
    assert_eq!(ctx.var(7u8), x);
    let [a, b, c] = samples_u8(&mut ctx);
    let [a2, b2, c2] = samples_u8(&mut ctx);
    assert_eq!(a, a2);
    assert_eq!(b, b2);
    assert_eq!(c, c2);
}

fn samples_u8<'a>(ctx: &mut Context<'a, u8>) -> [Bdd<'a, u8>; 3] {
    let v0 = ctx.var(0);
    let v1 = ctx.var(1);
    let v2 = ctx.var(2);
    let a = ctx.or(v0, v1);
    let b = ctx.xor(v1, v2);
    let c = ctx.and(a, b);
    [a, b, c]
}

#[test]
fn constants_are_singletons() {
    let arena = Bump::new();
    let mut ctx: Context<u64> = Context::new(&arena);
    let t = ctx.true_();
    let f = ctx.false_();
    assert_eq!(ctx.true_(), t);
    assert_eq!(ctx.false_(), f);
    assert_ne!(t, f);
    assert_eq!(ctx.not(t), f);
    assert_eq!(ctx.not(f), t);
    let x = ctx.var(3);
    let nx = ctx.not(x);
    assert_eq!(ctx.or(x, nx), t);
    assert_eq!(ctx.and(x, nx), f);
}

#[test]
fn idempotence() {
    let arena = Bump::new();
    let mut ctx = Context::new(&arena);
    for a in samples(&mut ctx) {
        assert_eq!(ctx.and(a, a), a);
        assert_eq!(ctx.or(a, a), a);
    }
}

#[test]
fn commutativity() {
    let arena = Bump::new();
    let mut ctx = Context::new(&arena);
    let [a, b, c] = samples(&mut ctx);
    for (p, q) in [(a, b), (b, c), (a, c)] {
        assert_eq!(ctx.and(p, q), ctx.and(q, p));
        assert_eq!(ctx.or(p, q), ctx.or(q, p));
        assert_eq!(ctx.xor(p, q), ctx.xor(q, p));
    }
}

#[test]
fn associativity() {
    let arena = Bump::new();
    let mut ctx = Context::new(&arena);
    let [a, b, c] = samples(&mut ctx);
    let ab = ctx.and(a, b);
    let bc = ctx.and(b, c);
    assert_eq!(ctx.and(ab, c), ctx.and(a, bc));
    let ab = ctx.or(a, b);
    let bc = ctx.or(b, c);
    assert_eq!(ctx.or(ab, c), ctx.or(a, bc));
}

#[test]
fn absorption() {
    let arena = Bump::new();
    let mut ctx = Context::new(&arena);
    let t = ctx.true_();
    let f = ctx.false_();
    for a in samples(&mut ctx) {
        assert_eq!(ctx.and(a, f), f);
        assert_eq!(ctx.and(f, a), f);
        assert_eq!(ctx.and(a, t), a);
        assert_eq!(ctx.and(t, a), a);
        assert_eq!(ctx.or(a, f), a);
        assert_eq!(ctx.or(f, a), a);
        assert_eq!(ctx.or(a, t), t);
        assert_eq!(ctx.or(t, a), t);
    }
}

#[test]
fn complementation() {
    let arena = Bump::new();
    let mut ctx = Context::new(&arena);
    let t = ctx.true_();
    let f = ctx.false_();
    for a in samples(&mut ctx) {
        let na = ctx.not(a);
        assert_eq!(ctx.and(a, na), f);
        assert_eq!(ctx.or(a, na), t);
    }
}

#[test]
fn distributivity() {
    let arena = Bump::new();
    let mut ctx = Context::new(&arena);
    let [a, b, c] = samples(&mut ctx);
    let b_or_c = ctx.or(b, c);
    let a_and_b = ctx.and(a, b);
    let a_and_c = ctx.and(a, c);
    assert_eq!(ctx.and(a, b_or_c), ctx.or(a_and_b, a_and_c));
    let b_and_c = ctx.and(b, c);
    let a_or_b = ctx.or(a, b);
    let a_or_c = ctx.or(a, c);
    assert_eq!(ctx.or(a, b_and_c), ctx.and(a_or_b, a_or_c));
}

#[test]
fn de_morgan() {
    let arena = Bump::new();
    let mut ctx = Context::new(&arena);
    let [a, b, _] = samples(&mut ctx);
    let na = ctx.not(a);
    let nb = ctx.not(b);
    let a_and_b = ctx.and(a, b);
    assert_eq!(ctx.not(a_and_b), ctx.or(na, nb));
    let a_or_b = ctx.or(a, b);
    assert_eq!(ctx.not(a_or_b), ctx.and(na, nb));
}

#[test]
fn xor_identities() {
    let arena = Bump::new();
    let mut ctx = Context::new(&arena);
    let t = ctx.true_();
    let f = ctx.false_();
    let [a, b, _] = samples(&mut ctx);
    let na = ctx.not(a);
    let nb = ctx.not(b);
    assert_eq!(ctx.xor(a, b), ctx.xor(b, a));
    assert_eq!(ctx.xor(a, a), f);
    assert_eq!(ctx.xor(a, na), t);
    let a_only = ctx.and(a, nb);
    let b_only = ctx.and(na, b);
    assert_eq!(ctx.xor(a, b), ctx.or(a_only, b_only));
}

#[test]
fn variables_are_ordered_by_their_value() {
    let arena = Bump::new();
    let mut ctx: Context<i64> = Context::new(&arena);
    let low = ctx.var(-5);
    let high = ctx.var(i64::MAX);
    let both = ctx.and(high, low);
    assert_eq!(both, ctx.and(low, high));
    assert_eq!(both.nsat(&[-5, 0, i64::MAX]), 2);
    assert_eq!(low.nsat(&[i64::MIN, -5]), 2);
}

#[test]
fn sessions_are_independent() {
    let arena = Bump::new();
    let mut one: Context<u16> = Context::new(&arena);
    let mut two: Context<u16> = Context::new(&arena);
    let x1 = one.var(1);
    let y1 = one.var(2);
    let y2 = two.var(2);
    let x2 = two.var(1);
    assert_eq!(one.and(x1, y1).nsat(&[1, 2]), 1);
    assert_eq!(two.or(x2, y2).nsat(&[1, 2]), 3);
}

#[test]
fn equal_handles_hash_alike() {
    let arena = Bump::new();
    let mut ctx = Context::new(&arena);
    let x = ctx.var(1u8);
    let y = ctx.var(2u8);
    let mut seen = std::collections::HashSet::new();
    assert!(seen.insert(ctx.and(x, y)));
    assert!(!seen.insert(ctx.and(y, x)));
    assert!(seen.insert(ctx.or(x, y)));
    let nx = ctx.not(x);
    let ny = ctx.not(y);
    let both_false = ctx.and(nx, ny);
    assert!(!seen.insert(ctx.not(both_false)));
    assert_eq!(seen.len(), 2);
}
