//! Natural numbers of any size, as far as products of weights need them.
use vstd::prelude::*;

verus! {

/// The base of a limb: 2 to the 64.
pub open spec fn base() -> nat {
    0x1_0000_0000_0000_0000
}

/// The number that `limbs`, least significant first, stand for when the
/// number `above` follows them as the part beyond the last limb.
pub open spec fn weigh(limbs: Seq<u64>, above: nat) -> nat
    decreases limbs.len(),
{
    if limbs.len() == 0 {
        above
    } else {
        limbs[0] as nat + base() * weigh(limbs.skip(1), above)
    }
}

/// The number that `limbs` stand for, least significant limb first.
pub open spec fn value(limbs: Seq<u64>) -> nat {
    weigh(limbs, 0)
}

/// How two numbers stand to each other.
#[derive(Clone, Copy, Debug, PartialEq, Eq, Structural)]
pub enum Relation {
    Below,
    Same,
    Above,
}

/// The relation of `a` to `b`.
pub open spec fn relation_of(a: nat, b: nat) -> Relation {
    if a < b {
        Relation::Below
    } else if a == b {
        Relation::Same
    } else {
        Relation::Above
    }
}

proof fn lemma_weigh_push(limbs: Seq<u64>, x: u64, above: nat)
    ensures
        weigh(limbs.push(x), above) == weigh(limbs, x as nat + base() * above),
    decreases limbs.len(),
{
    let pushed = limbs.push(x);
    if limbs.len() == 0 {
        assert(pushed.skip(1) =~= Seq::<u64>::empty());
        assert(weigh(pushed.skip(1), above) == above);
        assert(pushed[0] == x);
    } else {
        assert(pushed.skip(1) =~= limbs.skip(1).push(x));
        assert(pushed[0] == limbs[0]);
        lemma_weigh_push(limbs.skip(1), x, above);
    }
}

proof fn lemma_limb_step(limb: u64, factor: u64, carry: u64, rest: nat)
    ensures
        limb * factor + carry <= u128::MAX,
        (limb * factor + carry) % base() as int + base() * ((limb * factor + carry) / base()
            as int + factor * rest) == carry + factor * (limb + base() * rest),
        (limb * factor + carry) / base() as int <= u64::MAX,
{
    let t = limb * factor + carry;
    let b = base() as int;
    assert(limb * factor <= 0xFFFF_FFFF_FFFF_FFFF * 0xFFFF_FFFF_FFFF_FFFF) by (nonlinear_arith)
        requires
            0 <= limb <= 0xFFFF_FFFF_FFFF_FFFF,
            0 <= factor <= 0xFFFF_FFFF_FFFF_FFFF,
    ;
    assert(t == b * (t / b) + t % b) by (nonlinear_arith)
        requires
            b > 0,
    ;
    assert(t / b <= 0xFFFF_FFFF_FFFF_FFFF) by (nonlinear_arith)
        requires
            0 <= t <= 0xFFFF_FFFF_FFFF_FFFF * 0xFFFF_FFFF_FFFF_FFFF + 0xFFFF_FFFF_FFFF_FFFF,
            b == 0x1_0000_0000_0000_0000,
    ;
    assert(b * (t / b + factor * rest) == b * (t / b) + factor * (b * rest))
        by (nonlinear_arith);
    assert(factor * (limb + b * rest) == limb * factor + factor * (b * rest))
        by (nonlinear_arith);
}

/// Multiplies a number by a factor. The result has one limb more than the number.
pub fn times(limbs: &Vec<u64>, factor: u64) -> (product: Vec<u64>)
    ensures
        value(product@) == value(limbs@) * factor,
        product@.len() == limbs@.len() + 1,
{
    let mut product: Vec<u64> = Vec::new();
    let mut carry: u64 = 0;
    let mut i: usize = 0;
    proof {
        assert(limbs@.skip(0) =~= limbs@);
        assert(value(limbs@) * factor == factor * value(limbs@)) by (nonlinear_arith);
    }
    while i < limbs.len()
        invariant
            i <= limbs.len(),
            product@.len() == i,
            weigh(product@, carry as nat + factor as nat * weigh(limbs@.skip(i as int), 0))
                == factor * value(limbs@),
        decreases limbs.len() - i,
    {
        let ghost rest = weigh(limbs@.skip(i + 1), 0);
        proof {
            lemma_limb_step(limbs[i as int], factor, carry, rest);
            assert(limbs@.skip(i as int).skip(1) =~= limbs@.skip(i + 1));
            assert(limbs@.skip(i as int)[0] == limbs[i as int]);
        }
        let t: u128 = (limbs[i] as u128) * (factor as u128) + (carry as u128);
        let low: u64 = (t % 0x1_0000_0000_0000_0000u128) as u64;
        let high: u64 = (t / 0x1_0000_0000_0000_0000u128) as u64;
        proof {
            lemma_weigh_push(product@, low, high as nat + factor as nat * rest);
        }
        product.push(low);
        carry = high;
        i += 1;
    }
    proof {
        lemma_weigh_push(product@, carry, 0);
        assert(limbs@.skip(i as int) =~= Seq::<u64>::empty());
        assert(factor as nat * 0 == 0);
        assert(base() * 0 == 0);
        assert(value(limbs@) * factor == factor * value(limbs@)) by (nonlinear_arith);
    }
    product.push(carry);
    product
}

/// Relates two numbers of equally many limbs.
pub fn relate(a: &Vec<u64>, b: &Vec<u64>) -> (relation: Relation)
    requires
        a@.len() == b@.len(),
    ensures
        relation == relation_of(value(a@), value(b@)),
{
    let mut relation = Relation::Same;
    let mut i: usize = a.len();
    while i > 0
        invariant
            a@.len() == b@.len(),
            i <= a@.len(),
            relation == relation_of(value(a@.skip(i as int)), value(b@.skip(i as int))),
        decreases i,
    {
        i -= 1;
        proof {
            let x = value(a@.skip(i + 1));
            let y = value(b@.skip(i + 1));
            assert(a@.skip(i as int).skip(1) =~= a@.skip(i + 1));
            assert(b@.skip(i as int).skip(1) =~= b@.skip(i + 1));
            let p = a[i as int] as int;
            let q = b[i as int] as int;
            let m = base() as int;
            assert(x < y ==> p + m * x < q + m * y) by (nonlinear_arith)
                requires
                    0 <= p < m,
                    0 <= q < m,
            ;
            assert(y < x ==> q + m * y < p + m * x) by (nonlinear_arith)
                requires
                    0 <= p < m,
                    0 <= q < m,
            ;
        }
        relation =
        match relation {
            Relation::Same => {
                if a[i] < b[i] {
                    Relation::Below
                } else if a[i] == b[i] {
                    Relation::Same
                } else {
                    Relation::Above
                }
            },
            Relation::Below => Relation::Below,
            Relation::Above => Relation::Above,
        };
    }
    proof {
        assert(a@.skip(0) =~= a@);
        assert(b@.skip(0) =~= b@);
    }
    relation
}

/// The number one, in one limb.
pub fn one() -> (limbs: Vec<u64>)
    ensures
        value(limbs@) == 1,
        limbs@.len() == 1,
{
    let mut limbs: Vec<u64> = Vec::new();
    limbs.push(1);
    proof {
        assert(limbs@.skip(1) =~= Seq::<u64>::empty());
        assert(weigh(limbs@.skip(1), 0) == 0);
        assert(base() * 0 == 0);
    }
    limbs
}

} // verus!
