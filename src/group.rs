use vstd::prelude::*;

verus! {

/// Attack kinds, each one bit of a kind mask.
pub const COLD: u32 = 1;
pub const RADIATION: u32 = 2;
pub const SLASHING: u32 = 4;
pub const FIRE: u32 = 8;
pub const BLUDGEONING: u32 = 16;

/// One of the two opposing armies.
#[derive(Clone, Copy, Debug, PartialEq, Eq, Structural)]
pub enum Army {
    Immune,
    Infection,
}

impl Army {
    pub open spec fn opponent(self) -> Army {
        match self {
            Army::Immune => Army::Infection,
            Army::Infection => Army::Immune,
        }
    }
}

/// A group of identical units. `weak` and `immune` are kind masks.
#[derive(Clone, Copy, Debug, PartialEq, Eq, Structural)]
pub struct Group {
    pub units: u32,
    pub hit_points: u32,
    pub attack_damage: u32,
    pub attack_kind: u32,
    pub weak: u32,
    pub immune: u32,
    pub initiative: u32,
}

/// Units times attack damage.
pub open spec fn power(g: Group) -> int {
    g.units * g.attack_damage
}

/// The damage `a` would deal to `d`: none when `d` is immune to the attack
/// kind, double when it is weak to it (immunity wins when both hold).
pub open spec fn damage(a: Group, d: Group) -> int {
    if a.attack_kind & d.immune != 0 {
        0
    } else if a.attack_kind & d.weak != 0 {
        2 * power(a)
    } else {
        power(a)
    }
}

/// The units of `d` that are left after `a` attacks it.
pub open spec fn units_after_attack(a: Group, d: Group) -> int
    recommends
        d.hit_points > 0,
{
    let lost = damage(a, d) / (d.hit_points as int);
    if lost >= d.units {
        0
    } else {
        d.units - lost
    }
}

/// `d` after `a` has attacked it: only the unit count changes.
pub open spec fn attacked(a: Group, d: Group) -> Group {
    Group { units: units_after_attack(a, d) as u32, ..d }
}

impl Group {
    pub open spec fn wf(self) -> bool {
        self.hit_points > 0
    }

    pub fn effective_power(&self) -> (r: u64)
        ensures
            r == power(*self),
    {
        let u = self.units as u64;
        let d = self.attack_damage as u64;
        proof {
            assert(u * d <= 0xffff_ffffu64 * 0xffff_ffffu64) by (nonlinear_arith)
                requires
                    u <= 0xffff_ffffu64,
                    d <= 0xffff_ffffu64,
            ;
        }
        u * d
    }

    pub fn calculate_damage(&self, other: &Group) -> (r: u128)
        ensures
            r == damage(*self, *other),
    {
        let base = self.effective_power() as u128;
        if self.attack_kind & other.immune != 0 {
            0
        } else if self.attack_kind & other.weak != 0 {
            base * 2
        } else {
            base
        }
    }

    /// Deals this group's damage to `other`, which loses one unit for each
    /// whole multiple of its hit points, down to zero.
    pub fn attack(&self, other: &mut Group)
        requires
            old(other).wf(),
        ensures
            *final(other) == attacked(*self, *old(other)),
            final(other).units <= old(other).units,
    {
        let dmg = self.calculate_damage(other);
        let lost = dmg / (other.hit_points as u128);
        if lost >= other.units as u128 {
            other.units = 0;
        } else {
            other.units = other.units - lost as u32;
        }
    }
}

/// Damage is nothing against an immune defender, whatever its weaknesses;
/// double the effective power against a weak one; else the effective power.
pub proof fn lemma_damage_cases(a: Group, d: Group)
    ensures
        a.attack_kind & d.immune != 0 ==> damage(a, d) == 0,
        a.attack_kind & d.immune == 0 && a.attack_kind & d.weak != 0 ==> damage(a, d) == 2 * power(a),
        a.attack_kind & d.immune == 0 && a.attack_kind & d.weak == 0 ==> damage(a, d) == power(a),
        damage(a, d) >= 0,
{
    assert(power(a) >= 0) by (nonlinear_arith)
        requires
            power(a) == a.units * a.attack_damage,
            a.units >= 0,
            a.attack_damage >= 0,
    ;
}

/// An attack lowers the defender's unit count by the whole multiples of its
/// hit points in the damage dealt, never below zero, and changes nothing else.
pub proof fn lemma_attack_never_gains(a: Group, d: Group)
    requires
        d.wf(),
    ensures
        0 <= attacked(a, d).units <= d.units,
        attacked(a, d).units == if damage(a, d) / (d.hit_points as int) >= d.units {
            0
        } else {
            d.units - damage(a, d) / (d.hit_points as int)
        },
{
    lemma_damage_cases(a, d);
    assert(damage(a, d) / (d.hit_points as int) >= 0) by (nonlinear_arith)
        requires
            damage(a, d) >= 0,
            d.hit_points > 0,
    ;
}

} // verus!
