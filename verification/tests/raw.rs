use bdd::raw::Context;

#[test]
fn test_new_ctx() {
    let allo = bumpalo::Bump::new();
    let mut _ctx : Context<u16> = Context::new(&allo);
}

#[test]
fn test_var_true_false() {
    let allo = bumpalo::Bump::new();
    let mut ctx = Context::new(&allo);
    let x = ctx.var(0);
    let y = ctx.var(1);
    let z = ctx.var(2);
    assert_ne!(x, y);
    assert_ne!(y, z);
    assert_ne!(x, z);
    assert_ne!(x, ctx.true_());
    assert_ne!(x, ctx.false_());
    assert_ne!(ctx.false_(), ctx.true_());
}

#[test]
fn test_not() {
    let allo = bumpalo::Bump::new();
    let mut ctx = Context::new(&allo);
    let x = ctx.var(0);
    let y = ctx.var(1);
    let f = ctx.false_();
    let t = ctx.true_();

    assert_ne!(x, ctx.not(x));
    assert_ne!(t, ctx.not(x));
    assert_ne!(f, ctx.not(x));
    assert_ne!(ctx.not(y), ctx.not(x));
    let nx = ctx.not(x);
    assert_eq!(ctx.not(nx), x);
}

#[test]
fn test_and() {
    let allo = bumpalo::Bump::new();
    let mut ctx = Context::new(&allo);
    let x = ctx.var(0);
    let y = ctx.var(1);
    let z = ctx.var(2);
    let t = ctx.true_();
    let f = ctx.false_();

    assert_eq!(ctx.and(t, t), t);
    assert_eq!(ctx.and(t, f), f);
    assert_eq!(ctx.and(f, t), f);
    assert_eq!(ctx.and(f, f), f);

    assert_eq!(ctx.and(x, x), ctx.and(x, x));
    assert_eq!(ctx.and(x, x), x);
    assert_eq!(ctx.and(y, y), y);
    assert_eq!(ctx.and(x, y), ctx.and(y, x));
    assert_eq!(ctx.and(x, f), f);
    assert_eq!(ctx.and(f, x), f);
    assert_eq!(ctx.and(t, y), y);
    assert_eq!(ctx.and(y, t), y);

    let nx = ctx.not(x);
    assert_eq!(ctx.and(x, nx), f);

    let xy = ctx.and(x, y);
    let yz = ctx.and(y, z);
    let xz = ctx.and(x, z);
    assert_eq!(ctx.and(xy, x), xy);
    assert_eq!(ctx.and(xy, y), xy);
    assert_eq!(ctx.and(xy, xy), xy);
    assert_eq!(ctx.and(xy, z), ctx.and(z, xy));
    assert_eq!(ctx.and(xz, y), ctx.and(z, xy));
    assert_eq!(ctx.and(yz, x), ctx.and(x, yz));
}

#[test]
fn test_or() {
    let allo = bumpalo::Bump::new();
    let mut ctx = Context::new(&allo);
    let x = ctx.var(0);
    let y = ctx.var(1);
    let z = ctx.var(2);
    let t = ctx.true_();
    let f = ctx.false_();

    assert_eq!(ctx.or(t, t), t);
    assert_eq!(ctx.or(t, f), t);
    assert_eq!(ctx.or(f, t), t);
    assert_eq!(ctx.or(f, f), f);

    assert_eq!(ctx.or(x, x), ctx.or(x, x));
    assert_eq!(ctx.or(x, x), x);
    assert_eq!(ctx.or(y, y), y);
    assert_eq!(ctx.or(x, y), ctx.or(y, x));
    assert_eq!(ctx.or(x, f), x);
    assert_eq!(ctx.or(f, x), x);
    assert_eq!(ctx.or(t, y), t);
    assert_eq!(ctx.or(y, t), t);

    let nx = ctx.not(x);
    assert_eq!(ctx.or(x, nx), t);

    let xy = ctx.or(x, y);
    let yz = ctx.or(y, z);
    let xz = ctx.or(x, z);
    assert_eq!(ctx.or(xy, x), xy);
    assert_eq!(ctx.or(xy, y), xy);
    assert_eq!(ctx.or(xy, xy), xy);
    assert_eq!(ctx.or(xy, z), ctx.or(z, xy));
    assert_eq!(ctx.or(xz, y), ctx.or(z, xy));
    assert_eq!(ctx.or(yz, x), ctx.or(x, yz));
}

#[test]
fn test_andor() {
    let allo = bumpalo::Bump::new();
    let mut ctx = Context::new(&allo);
    let x = ctx.var(0);
    let y = ctx.var(1);
    let z = ctx.var(2);

    let xay = ctx.and(x, y);
    let yoz = ctx.or(y, z);
    let xaz = ctx.and(x, z);
    assert_eq!(ctx.and(x, yoz), ctx.or(xay, xaz));

    let yox = ctx.or(y, x);
    let zax = ctx.and(z, x);
    let yoz = ctx.or(y, z);
    assert_eq!(ctx.or(y, zax), ctx.and(yoz, yox));

    let yaz = ctx.and(y, z);
    let ny = ctx.not(y);
    let nz = ctx.not(z);
    assert_eq!(ctx.not(yaz), ctx.or(ny, nz));

    let xoy = ctx.or(x, y);
    let nx = ctx.not(x);
    let ny = ctx.not(y);
    assert_eq!(ctx.not(xoy), ctx.and(nx, ny));
}

#[test]
fn test_xor() {
    let allo = bumpalo::Bump::new();
    let mut ctx = Context::new(&allo);
    let x = ctx.var(0);
    let y = ctx.var(1);
    let z = ctx.var(2);
    let t = ctx.true_();
    let f = ctx.false_();

    assert_eq!(ctx.xor(t, t), f);
    assert_eq!(ctx.xor(t, f), t);
    assert_eq!(ctx.xor(f, t), t);
    assert_eq!(ctx.xor(f, f), f);

    assert_eq!(ctx.xor(x, x), f);
    assert_eq!(ctx.xor(x, y), ctx.xor(y, x));
    assert_eq!(ctx.xor(x, f), x);
    assert_eq!(ctx.xor(f, x), x);
    assert_eq!(ctx.xor(t, y), ctx.not(y));
    assert_eq!(ctx.xor(y, t), ctx.not(y));

    let nx = ctx.not(x);
    assert_eq!(ctx.xor(x, nx), t);

    let xy = ctx.xor(x, y);
    let yz = ctx.xor(y, z);
    let xz = ctx.xor(x, z);
    assert_eq!(ctx.xor(xy, x), y);
    assert_eq!(ctx.xor(xy, y), x);
    assert_eq!(ctx.xor(xy, xy), f);
    assert_eq!(ctx.xor(xy, z), ctx.xor(z, xy));
    assert_eq!(ctx.xor(xz, y), ctx.xor(z, xy));
    assert_eq!(ctx.xor(yz, x), ctx.xor(x, yz));
}

#[test]
fn test_xor_and_or() {
    let allo = bumpalo::Bump::new();
    let mut ctx = Context::new(&allo);
    let x = ctx.var(0);
    let y = ctx.var(1);
    let z = ctx.var(2);

    let xay = ctx.and(x, y);
    let xaz = ctx.and(x, z);
    let yxz = ctx.xor(y, z);
    assert_eq!(ctx.xor(xay, xaz), ctx.and(x, yxz));

    let nx = ctx.not(x);
    let ny = ctx.not(y);
    let xany = ctx.and(x, ny);
    let nxay = ctx.and(nx, y);
    assert_eq!(ctx.xor(x, y), ctx.or(xany, nxay));
}

#[test]
fn test_nsat() {
    let allo = bumpalo::Bump::new();
    let mut ctx = Context::new(&allo);
    let x = ctx.var(0);
    let y = ctx.var(1);
    let z = ctx.var(2);
    let f = ctx.false_();
    let t = ctx.true_();
    let vars = [0, 1, 2];

    assert_eq!(t.nsat(&vars), 8);
    assert_eq!(f.nsat(&vars), 0);
    assert_eq!(x.nsat(&vars), 4);
    assert_eq!(ctx.not(x).nsat(&vars), 4);
    assert_eq!(y.nsat(&vars), 4);
    assert_eq!(z.nsat(&vars), 4);
    assert_eq!(ctx.and(x, y).nsat(&vars), 2);
    assert_eq!(ctx.or(x, y).nsat(&vars), 6);
    assert_eq!(ctx.xor(x, y).nsat(&vars), 4);
    assert_eq!(t.nsat(&[]), 1);
    assert_eq!(f.nsat(&[]), 0);
}
