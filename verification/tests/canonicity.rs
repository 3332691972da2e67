use bdd::raw::{Bdd, Context};
use bumpalo::Bump;

const VARS: [u8; 4] = [0, 1, 2, 3];

/// A formula over the four variables, kept beside its diagram as the list
/// of its values under the sixteen assignments: bit `v` of an assignment's
/// number is the value of variable `v`.
#[derive(Clone, Copy)]
struct Formula<'a> {
    diagram: Bdd<'a, u8>,
    table: u16,
}

fn variable<'a>(ctx: &mut Context<'a, u8>, v: u8) -> Formula<'a> {
    let mut table = 0u16;
    for assignment in 0..16u16 {
        if assignment & (1 << v) != 0 {
            table |= 1 << assignment;
        }
    }
    Formula { diagram: ctx.var(v), table }
}

/// A small generator of numbers that gives the same sequence at every run.
struct Sequence(u64);

impl Sequence {
    fn next(&mut self, below: usize) -> usize {
        self.0 = self.0.wrapping_mul(6364136223846793005).wrapping_add(1442695040888963407);
        ((self.0 >> 33) % below as u64) as usize
    }
}

/// Builds formulas by combining earlier ones, each with the diagram that the
/// session gives it and the table worked out by hand.
fn formulas<'a>(ctx: &mut Context<'a, u8>, count: usize) -> Vec<Formula<'a>> {
    let mut made = vec![
        Formula { diagram: ctx.false_(), table: 0 },
        Formula { diagram: ctx.true_(), table: 0xffff },
    ];
    for v in VARS {
        made.push(variable(ctx, v));
    }
    let mut sequence = Sequence(7);
    while made.len() < count {
        let a = made[sequence.next(made.len())];
        let b = made[sequence.next(made.len())];
        let next = match sequence.next(4) {
            0 => Formula { diagram: ctx.not(a.diagram), table: !a.table },
            1 => Formula { diagram: ctx.and(a.diagram, b.diagram), table: a.table & b.table },
            2 => Formula { diagram: ctx.or(a.diagram, b.diagram), table: a.table | b.table },
            _ => Formula { diagram: ctx.xor(a.diagram, b.diagram), table: a.table ^ b.table },
        };
        made.push(next);
    }
    made
}

#[test]
fn handles_are_equal_exactly_when_the_functions_are() {
    let arena = Bump::new();
    let mut ctx = Context::new(&arena);
    let made = formulas(&mut ctx, 300);
    let mut distinct = 0;
    for (i, a) in made.iter().enumerate() {
        if made[..i].iter().all(|b| b.table != a.table) {
            distinct += 1;
        }
        for b in &made[..i] {
            assert_eq!(a.diagram == b.diagram, a.table == b.table);
        }
    }
    assert!(distinct > 50);
}

#[test]
fn the_count_is_the_number_of_ones_in_the_table() {
    let arena = Bump::new();
    let mut ctx = Context::new(&arena);
    for formula in formulas(&mut ctx, 300) {
        assert_eq!(formula.diagram.nsat(&VARS), formula.table.count_ones() as u64);
        assert_eq!(formula.diagram.checked_nsat(&VARS), Some(formula.table.count_ones() as u64));
    }
}

#[test]
fn a_diagram_is_true_exactly_where_its_table_says() {
    let arena = Bump::new();
    let mut ctx = Context::new(&arena);
    let made = formulas(&mut ctx, 120);
    for assignment in 0..16u16 {
        // The diagram that is true under this assignment and no other.
        let mut only = ctx.true_();
        for v in VARS {
            let x = ctx.var(v);
            let literal = if assignment & (1 << v) != 0 { x } else { ctx.not(x) };
            only = ctx.and(only, literal);
        }
        assert_eq!(only.nsat(&VARS), 1);
        for formula in &made {
            let here = ctx.and(formula.diagram, only);
            let expected = (formula.table >> assignment) & 1;
            assert_eq!(here.nsat(&VARS), expected as u64);
        }
    }
}
