use vstd::prelude::*;
use crate::group::{Army, Group, attacked, damage, lemma_attack_never_gains, power};

verus! {

/// Names a group: its army and its stable position in that army.
#[derive(Clone, Copy, Debug, PartialEq, Eq, Structural)]
pub struct GroupRef {
    pub army: Army,
    pub index: usize,
}

/// The state of a battle: both armies, each an ordered list of groups whose
/// positions never change.
pub struct Battle {
    pub immune: Vec<Group>,
    pub infection: Vec<Group>,
}

/// The targets picked in one round: `immune_targets[i]` is the position in
/// the infection army that immune group `i` will attack, and the other way
/// round for `infection_targets`.
pub struct Selections {
    pub immune_targets: Vec<Option<usize>>,
    pub infection_targets: Vec<Option<usize>>,
}

pub open spec fn all_wf(s: Seq<Group>) -> bool {
    forall|i: int| 0 <= i < s.len() ==> (#[trigger] s[i]).wf()
}

pub open spec fn side(im: Seq<Group>, inf: Seq<Group>, a: Army) -> Seq<Group> {
    match a {
        Army::Immune => im,
        Army::Infection => inf,
    }
}

impl Battle {
    pub open spec fn wf(&self) -> bool {
        all_wf(self.immune@) && all_wf(self.infection@)
    }

    pub open spec fn army(&self, a: Army) -> Seq<Group> {
        side(self.immune@, self.infection@, a)
    }

    pub open spec fn valid_ref(&self, r: GroupRef) -> bool {
        r.index < self.army(r.army).len()
    }

    pub open spec fn group(&self, r: GroupRef) -> Group {
        self.army(r.army)[r.index as int]
    }
}

pub open spec fn names(ord: Seq<GroupRef>, r: GroupRef) -> bool {
    exists|p: int| 0 <= p < ord.len() && ord[p] == r
}

/// `ord` names every group of the battle exactly once.
pub open spec fn covers_all(b: &Battle, ord: Seq<GroupRef>) -> bool {
    &&& ord.len() == b.immune.len() + b.infection.len()
    &&& forall|p: int| 0 <= p < ord.len() ==> b.valid_ref(#[trigger] ord[p])
    &&& forall|p: int, q: int| 0 <= p < q < ord.len() ==> ord[p] != ord[q]
    &&& forall|r: GroupRef| b.valid_ref(r) ==> #[trigger] names(ord, r)
}

pub open spec fn pair_ge(x: (int, int), y: (int, int)) -> bool {
    x.0 > y.0 || (x.0 == y.0 && x.1 >= y.1)
}

pub open spec fn selection_key(g: Group) -> (int, int) {
    (power(g), g.initiative as int)
}

/// Target selection goes by effective power, then initiative, both descending.
pub open spec fn is_selection_order(b: &Battle, ord: Seq<GroupRef>) -> bool {
    &&& covers_all(b, ord)
    &&& forall|p: int, q: int|
        0 <= p < q < ord.len() ==> pair_ge(
            selection_key(b.group(ord[p])),
            selection_key(b.group(ord[q])),
        )
}

/// Attacks go by initiative alone, descending, over both armies together.
pub open spec fn is_attack_order(b: &Battle, ord: Seq<GroupRef>) -> bool {
    &&& covers_all(b, ord)
    &&& forall|p: int, q: int|
        0 <= p < q < ord.len() ==> b.group(ord[p]).initiative >= b.group(ord[q]).initiative
}

/// `keys` indexed by the positions in `ord`, and `ord` is a permutation of
/// those positions with the keys descending.
pub open spec fn is_descending(keys: Seq<(u64, u64)>, ord: Seq<usize>) -> bool {
    &&& ord.len() == keys.len()
    &&& forall|p: int| 0 <= p < ord.len() ==> #[trigger] ord[p] < keys.len()
    &&& forall|p: int, q: int| 0 <= p < q < ord.len() ==> ord[p] != ord[q]
    &&& forall|c: int| 0 <= c < keys.len() ==> #[trigger] appears(ord, c)
    &&& forall|p: int, q: int|
        0 <= p < q < ord.len() ==> pair_ge(
            (keys[ord[p] as int].0 as int, keys[ord[p] as int].1 as int),
            (keys[ord[q] as int].0 as int, keys[ord[q] as int].1 as int),
        )
}

pub open spec fn appears(ord: Seq<usize>, c: int) -> bool {
    exists|p: int| 0 <= p < ord.len() && ord[p] == c
}

pub open spec fn unused_count(used: Seq<bool>, n: int) -> int
    decreases n,
{
    if n <= 0 {
        0
    } else {
        unused_count(used, n - 1) + if used[n - 1] {
            0int
        } else {
            1int
        }
    }
}

proof fn lemma_unused_count(used: Seq<bool>, n: int)
    requires
        0 <= n <= used.len(),
    ensures
        unused_count(used, n) >= 0,
        unused_count(used, n) == 0 <==> forall|i: int| 0 <= i < n ==> used[i],
    decreases n,
{
    if n > 0 {
        lemma_unused_count(used, n - 1);
    }
}

proof fn lemma_unused_count_mark(used: Seq<bool>, n: int, j: int)
    requires
        0 <= j < n <= used.len(),
        !used[j],
    ensures
        unused_count(used.update(j, true), n) == unused_count(used, n) - 1,
    decreases n,
{
    if n - 1 != j {
        lemma_unused_count_mark(used, n - 1, j);
    } else {
        assert forall|i: int| 0 <= i < n - 1 implies used.update(j, true)[i] == used[i] by {}
        lemma_unused_count_same(used, used.update(j, true), n - 1);
    }
}

proof fn lemma_unused_count_same(a: Seq<bool>, b: Seq<bool>, n: int)
    requires
        0 <= n <= a.len(),
        n <= b.len(),
        forall|i: int| 0 <= i < n ==> a[i] == b[i],
    ensures
        unused_count(a, n) == unused_count(b, n),
    decreases n,
{
    if n > 0 {
        lemma_unused_count_same(a, b, n - 1);
    }
}

/// Orders the positions of `keys` so that the keys descend.
pub fn descending_order(keys: &Vec<(u64, u64)>) -> (ord: Vec<usize>)
    ensures
        is_descending(keys@, ord@),
{
    let n = keys.len();
    let mut used: Vec<bool> = Vec::new();
    let mut c: usize = 0;
    while c < n
        invariant
            c <= n,
            n == keys.len(),
            used.len() == c,
            forall|i: int| 0 <= i < c ==> !used[i],
        decreases n - c,
    {
        used.push(false);
        c += 1;
    }
    proof {
        lemma_unused_count_same(used@, Seq::new(n as nat, |i: int| false), n as int);
        assert(unused_count(used@, n as int) == n) by {
            lemma_all_unused(n as int);
        }
    }
    let mut ord: Vec<usize> = Vec::new();
    while ord.len() < n
        invariant
            n == keys.len(),
            used.len() == n,
            unused_count(used@, n as int) + ord.len() == n,
            forall|p: int| 0 <= p < ord.len() ==> #[trigger] ord[p] < n,
            forall|p: int, q: int| 0 <= p < q < ord.len() ==> ord[p] != ord[q],
            forall|c: int| 0 <= c < n ==> (used[c] <==> #[trigger] appears(ord@, c)),
            forall|p: int, q: int|
                0 <= p < q < ord.len() ==> pair_ge(
                    (keys[ord[p] as int].0 as int, keys[ord[p] as int].1 as int),
                    (keys[ord[q] as int].0 as int, keys[ord[q] as int].1 as int),
                ),
            forall|p: int, m: int|
                0 <= p < ord.len() && 0 <= m < n && !used[m] ==> pair_ge(
                    (keys[ord[p] as int].0 as int, keys[ord[p] as int].1 as int),
                    (keys[m].0 as int, keys[m].1 as int),
                ),
        decreases n - ord.len(),
    {
        proof {
            lemma_unused_count(used@, n as int);
        }
        let mut best: Option<usize> = None;
        let mut k: usize = 0;
        while k < n
            invariant
                k <= n,
                n == keys.len(),
                used.len() == n,
                match best {
                    Some(j) => j < k && !used[j as int] && forall|m: int|
                        0 <= m < k && !used[m] ==> pair_ge(
                            (keys[j as int].0 as int, keys[j as int].1 as int),
                            (keys[m].0 as int, keys[m].1 as int),
                        ),
                    None => forall|m: int| 0 <= m < k ==> used[m],
                },
            decreases n - k,
        {
            if !used[k] {
                match best {
                    None => {
                        best = Some(k);
                    },
                    Some(j) => {
                        if keys[k].0 > keys[j].0 || (keys[k].0 == keys[j].0 && keys[k].1 > keys[j].1) {
                            best = Some(k);
                        }
                    },
                }
            }
            k += 1;
        }
        match best {
            Some(j) => {
                let ghost old_used = used@;
                let ghost old_ord = ord@;
                proof {
                    lemma_unused_count_mark(used@, n as int, j as int);
                    assert(!appears(old_ord, j as int));
                    assert forall|p: int| 0 <= p < old_ord.len() implies old_ord[p] != j by {
                        if old_ord[p] == j {
                            assert(appears(old_ord, j as int));
                        }
                    }
                }
                used.set(j, true);
                ord.push(j);
                assert forall|c: int| 0 <= c < n implies (used[c] <==> #[trigger] appears(ord@, c)) by {
                    if c == j {
                        assert(ord[old_ord.len() as int] == c);
                    } else if old_used[c] {
                        assert(appears(old_ord, c));
                        let p = choose|p: int| 0 <= p < old_ord.len() && old_ord[p] == c;
                        assert(ord[p] == c);
                    } else {
                        assert(!appears(old_ord, c));
                        if exists|p: int| 0 <= p < ord.len() && ord[p] == c {
                            let p = choose|p: int| 0 <= p < ord.len() && ord[p] == c;
                            assert(p < old_ord.len());
                            assert(old_ord[p] == c);
                        }
                    }
                }
            },
            None => {
                proof {
                    assert(false);
                }
            },
        }
    }
    proof {
        lemma_unused_count(used@, n as int);
    }
    ord
}

proof fn lemma_all_unused(n: int)
    requires
        n >= 0,
    ensures
        unused_count(Seq::new(n as nat, |i: int| false), n) == n,
    decreases n,
{
    if n > 0 {
        lemma_all_unused(n - 1);
        lemma_unused_count_same(
            Seq::new(n as nat, |i: int| false),
            Seq::new((n - 1) as nat, |i: int| false),
            n - 1,
        );
    }
}

/// Position of a group when both armies are laid end to end, immune first.
pub open spec fn combined(b: &Battle, r: GroupRef) -> int {
    match r.army {
        Army::Immune => r.index as int,
        Army::Infection => b.immune.len() + r.index,
    }
}

pub open spec fn ref_of(b: &Battle, c: int) -> GroupRef {
    if c < b.immune.len() {
        GroupRef { army: Army::Immune, index: c as usize }
    } else {
        GroupRef { army: Army::Infection, index: (c - b.immune.len()) as usize }
    }
}

pub open spec fn key_at(keys: Seq<(u64, u64)>, c: int) -> (int, int) {
    (keys[c].0 as int, keys[c].1 as int)
}

/// Every group, ordered so that `keys` (indexed by combined position)
/// descends.
fn refs_in_order(b: &Battle, keys: &Vec<(u64, u64)>) -> (out: Vec<GroupRef>)
    requires
        keys.len() == b.immune.len() + b.infection.len(),
    ensures
        covers_all(b, out@),
        forall|p: int, q: int|
            0 <= p < q < out.len() ==> pair_ge(
                key_at(keys@, combined(b, out[p])),
                key_at(keys@, combined(b, out[q])),
            ),
{
    let ord = descending_order(keys);
    let ni = b.immune.len();
    let mut out: Vec<GroupRef> = Vec::new();
    let mut p: usize = 0;
    while p < ord.len()
        invariant
            ni == b.immune.len(),
            is_descending(keys@, ord@),
            keys.len() == b.immune.len() + b.infection.len(),
            p <= ord.len(),
            out.len() == p,
            forall|q: int| 0 <= q < p ==> #[trigger] out[q] == ref_of(b, ord[q] as int),
        decreases ord.len() - p,
    {
        let c = ord[p];
        let r = if c < ni {
            GroupRef { army: Army::Immune, index: c }
        } else {
            GroupRef { army: Army::Infection, index: c - ni }
        };
        out.push(r);
        p += 1;
    }
    proof {
        assert forall|q: int| 0 <= q < out.len() implies b.valid_ref(#[trigger] out[q]) by {
            assert(ord[q] < keys.len());
        }
        assert forall|q: int| 0 <= q < out.len() implies combined(b, #[trigger] out[q]) == ord[q] by {
            assert(ord[q] < keys.len());
        }
        assert forall|q1: int, q2: int| 0 <= q1 < q2 < out.len() implies out[q1] != out[q2] by {
            assert(combined(b, out[q1]) == ord[q1]);
            assert(combined(b, out[q2]) == ord[q2]);
        }
        assert forall|r: GroupRef| b.valid_ref(r) implies #[trigger] names(out@, r) by {
            let c = combined(b, r);
            assert(appears(ord@, c));
            let q = choose|q: int| 0 <= q < ord.len() && ord[q] == c;
            assert(out[q] == r);
        }
        assert forall|q1: int, q2: int| 0 <= q1 < q2 < out.len() implies pair_ge(
            key_at(keys@, combined(b, out[q1])),
            key_at(keys@, combined(b, out[q2])),
        ) by {
            assert(combined(b, out[q1]) == ord[q1]);
            assert(combined(b, out[q2]) == ord[q2]);
        }
    }
    out
}

/// The order in which groups pick their targets: effective power, then
/// initiative, both descending; groups equal in both come in no set order.
pub fn selection_order(b: &Battle) -> (ord: Vec<GroupRef>)
    ensures
        is_selection_order(b, ord@),
{
    let mut keys: Vec<(u64, u64)> = Vec::new();
    let mut i: usize = 0;
    while i < b.immune.len()
        invariant
            i <= b.immune.len(),
            keys.len() == i,
            forall|c: int| 0 <= c < i ==> key_at(keys@, c) == selection_key(#[trigger] b.immune[c]),
        decreases b.immune.len() - i,
    {
        keys.push((b.immune[i].effective_power(), b.immune[i].initiative as u64));
        i += 1;
    }
    let mut j: usize = 0;
    while j < b.infection.len()
        invariant
            j <= b.infection.len(),
            keys.len() == b.immune.len() + j,
            forall|c: int| 0 <= c < b.immune.len() ==> key_at(keys@, c) == selection_key(#[trigger] b.immune[c]),
            forall|c: int| 0 <= c < j ==> key_at(keys@, b.immune.len() + c) == selection_key(#[trigger] b.infection[c]),
        decreases b.infection.len() - j,
    {
        keys.push((b.infection[j].effective_power(), b.infection[j].initiative as u64));
        j += 1;
    }
    let ord = refs_in_order(b, &keys);
    proof {
        assert forall|p: int| 0 <= p < ord.len() implies key_at(keys@, combined(b, #[trigger] ord[p]))
            == selection_key(b.group(ord[p])) by {
            assert(b.valid_ref(ord[p]));
        }
        assert forall|p: int, q: int| 0 <= p < q < ord.len() implies pair_ge(
            selection_key(b.group(ord[p])),
            selection_key(b.group(ord[q])),
        ) by {
            assert(key_at(keys@, combined(b, ord[p])) == selection_key(b.group(ord[p])));
            assert(key_at(keys@, combined(b, ord[q])) == selection_key(b.group(ord[q])));
        }
    }
    ord
}

/// The order in which groups attack: initiative descending over both armies;
/// groups of equal initiative come in no set order.
pub fn attack_order(b: &Battle) -> (ord: Vec<GroupRef>)
    ensures
        is_attack_order(b, ord@),
{
    let mut keys: Vec<(u64, u64)> = Vec::new();
    let mut i: usize = 0;
    while i < b.immune.len()
        invariant
            i <= b.immune.len(),
            keys.len() == i,
            forall|c: int| 0 <= c < i ==> key_at(keys@, c) == ((#[trigger] b.immune[c]).initiative as int, 0int),
        decreases b.immune.len() - i,
    {
        keys.push((b.immune[i].initiative as u64, 0));
        i += 1;
    }
    let mut j: usize = 0;
    while j < b.infection.len()
        invariant
            j <= b.infection.len(),
            keys.len() == b.immune.len() + j,
            forall|c: int| 0 <= c < b.immune.len() ==> key_at(keys@, c) == ((#[trigger] b.immune[c]).initiative as int, 0int),
            forall|c: int| 0 <= c < j ==> key_at(keys@, b.immune.len() + c) == ((#[trigger] b.infection[c]).initiative as int, 0int),
        decreases b.infection.len() - j,
    {
        keys.push((b.infection[j].initiative as u64, 0));
        j += 1;
    }
    let ord = refs_in_order(b, &keys);
    proof {
        assert forall|p: int| 0 <= p < ord.len() implies key_at(keys@, combined(b, #[trigger] ord[p]))
            == (b.group(ord[p]).initiative as int, 0int) by {
            assert(b.valid_ref(ord[p]));
        }
        assert forall|p: int, q: int| 0 <= p < q < ord.len() implies b.group(ord[p]).initiative
            >= b.group(ord[q]).initiative by {
            assert(key_at(keys@, combined(b, ord[p])) == (b.group(ord[p]).initiative as int, 0int));
            assert(key_at(keys@, combined(b, ord[q])) == (b.group(ord[q]).initiative as int, 0int));
            assert(pair_ge(key_at(keys@, combined(b, ord[p])), key_at(keys@, combined(b, ord[q]))));
        }
    }
    ord
}

pub open spec fn key_gt(x: (int, int, int), y: (int, int, int)) -> bool {
    x.0 > y.0 || (x.0 == y.0 && (x.1 > y.1 || (x.1 == y.1 && x.2 > y.2)))
}

/// What a selector weighs about a candidate target: the damage it would
/// deal, then the target's effective power, then its initiative.
pub open spec fn target_key(a: Group, d: Group) -> (int, int, int) {
    (damage(a, d), power(d), d.initiative as int)
}

/// `a` prefers `ds[j]` to `ds[k]`: a greater key, or an equal key and an
/// earlier position.
pub open spec fn preferred(a: Group, ds: Seq<Group>, j: int, k: int) -> bool {
    key_gt(target_key(a, ds[j]), target_key(a, ds[k])) || (target_key(a, ds[j]) == target_key(
        a,
        ds[k],
    ) && j < k)
}

pub open spec fn eligible(ds: Seq<Group>, claimed: Seq<bool>, k: int) -> bool {
    0 <= k < ds.len() && ds[k].units > 0 && !claimed[k]
}

/// `r` is the target that `a` picks among the living, unclaimed groups of
/// `ds`: the one it prefers to all others, unless it would deal no damage to
/// any of them.
pub open spec fn is_best_target(a: Group, ds: Seq<Group>, claimed: Seq<bool>, r: Option<usize>) -> bool {
    match r {
        Some(j) => {
            &&& eligible(ds, claimed, j as int)
            &&& damage(a, ds[j as int]) > 0
            &&& forall|k: int| #[trigger] eligible(ds, claimed, k) && k != j ==> preferred(a, ds, j as int, k)
        },
        None => forall|k: int| #[trigger] eligible(ds, claimed, k) ==> damage(a, ds[k]) == 0,
    }
}

/// Picks the target of `attacker` among `defenders`, skipping dead groups and
/// those whose `claimed` flag is set.
pub fn choose_target(attacker: &Group, defenders: &Vec<Group>, claimed: &Vec<bool>) -> (r: Option<usize>)
    requires
        claimed.len() == defenders.len(),
    ensures
        is_best_target(*attacker, defenders@, claimed@, r),
{
    let ghost a = *attacker;
    let ghost ds = defenders@;
    let ghost cl = claimed@;
    let mut best: Option<usize> = None;
    let mut best_key: (u128, u64, u32) = (0, 0, 0);
    let mut k: usize = 0;
    while k < defenders.len()
        invariant
            k <= defenders.len(),
            claimed.len() == defenders.len(),
            ds == defenders@,
            cl == claimed@,
            a == *attacker,
            match best {
                Some(j) => {
                    &&& j < k
                    &&& eligible(ds, cl, j as int)
                    &&& damage(a, ds[j as int]) > 0
                    &&& target_key(a, ds[j as int]) == (best_key.0 as int, best_key.1 as int, best_key.2 as int)
                    &&& forall|m: int| 0 <= m < k && #[trigger] eligible(ds, cl, m) && m != j ==> preferred(a, ds, j as int, m)
                },
                None => forall|m: int| 0 <= m < k && #[trigger] eligible(ds, cl, m) ==> damage(a, ds[m]) == 0,
            },
        decreases defenders.len() - k,
    {
        let d = &defenders[k];
        if d.units > 0 && !claimed[k] {
            let dmg = attacker.calculate_damage(d);
            if dmg > 0 {
                let key = (dmg, d.effective_power(), d.initiative);
                let better = match best {
                    None => true,
                    Some(_) => key.0 > best_key.0 || (key.0 == best_key.0 && (key.1 > best_key.1 || (
                    key.1 == best_key.1 && key.2 > best_key.2))),
                };
                if better {
                    best = Some(k);
                    best_key = key;
                }
            }
        }
        k += 1;
    }
    best
}

/// Somebody has picked position `k` of the opposing army.
pub open spec fn claimed(targets: Seq<Option<usize>>, k: int) -> bool {
    exists|i: int| 0 <= i < targets.len() && targets[i] == Some(k as usize)
}

/// Selector `i2` of the same army, coming before selector `i` in the
/// selection order (`rank` gives each selector's place in it), picked
/// position `k`.
pub open spec fn picked_before(targets: Seq<Option<usize>>, k: int, rank: Seq<int>, i: int) -> bool {
    exists|i2: int| 0 <= i2 < targets.len() && targets[i2] == Some(k as usize) && rank[i2] < rank[i]
}

/// What holds of the pick of selector `i` of `atk` against `def`: a living
/// target that takes damage from it and that no other selector picked, and
/// every group it prefers was picked by a selector before it; with no pick,
/// every living group that it could damage was picked by a selector before it.
pub open spec fn selector_ok(
    atk: Seq<Group>,
    def: Seq<Group>,
    targets: Seq<Option<usize>>,
    rank: Seq<int>,
    i: int,
) -> bool {
    match targets[i] {
        Some(j) => {
            &&& j < def.len()
            &&& def[j as int].units > 0
            &&& damage(atk[i], def[j as int]) > 0
            &&& forall|i2: int| 0 <= i2 < targets.len() && i2 != i ==> #[trigger] targets[i2] != Some(j)
            &&& forall|k: int|
                0 <= k < def.len() && k != j && (#[trigger] def[k]).units > 0 && !preferred(atk[i], def, j as int, k)
                    ==> picked_before(targets, k, rank, i)
        },
        None => forall|k: int|
            0 <= k < def.len() && (#[trigger] def[k]).units > 0 && damage(atk[i], def[k]) > 0 ==> picked_before(
                targets,
                k,
                rank,
                i,
            ),
    }
}

pub open spec fn side_ok(atk: Seq<Group>, def: Seq<Group>, targets: Seq<Option<usize>>, rank: Seq<int>) -> bool {
    &&& targets.len() == atk.len()
    &&& forall|i: int| 0 <= i < atk.len() ==> #[trigger] selector_ok(atk, def, targets, rank, i)
}

/// The place of `r` in `ord`.
pub open spec fn position(ord: Seq<GroupRef>, r: GroupRef) -> int {
    choose|p: int| 0 <= p < ord.len() && ord[p] == r
}

/// The places in `ord` of the groups of army `a`.
pub open spec fn ranks(b: &Battle, ord: Seq<GroupRef>, a: Army) -> Seq<int> {
    Seq::new(b.army(a).len(), |i: int| position(ord, GroupRef { army: a, index: i as usize }))
}

/// The picks of one round, as target selection makes them: selectors take
/// turns in a selection order, each picking its preferred living target among
/// those not yet picked, and none where it would deal no damage.
pub open spec fn selections_ok(b: &Battle, sel: &Selections) -> bool {
    exists|ord: Seq<GroupRef>|
        {
            &&& is_selection_order(b, ord)
            &&& side_ok(b.immune@, b.infection@, sel.immune_targets@, ranks(b, ord, Army::Immune))
            &&& side_ok(b.infection@, b.immune@, sel.infection_targets@, ranks(b, ord, Army::Infection))
        }
}

/// Selection part-way through a round, for one army: `done` marks the
/// selectors that have picked, all of them ranked before `p`; `flags` mirrors
/// which targets are claimed.
pub open spec fn side_partial(
    atk: Seq<Group>,
    def: Seq<Group>,
    t: Seq<Option<usize>>,
    flags: Seq<bool>,
    done: Seq<bool>,
    rank: Seq<int>,
    p: int,
) -> bool {
    &&& t.len() == atk.len()
    &&& flags.len() == def.len()
    &&& def.len() <= usize::MAX
    &&& done.len() == atk.len()
    &&& rank.len() == atk.len()
    &&& forall|k: int| 0 <= k < def.len() ==> (flags[k] <==> #[trigger] claimed(t, k))
    &&& forall|i: int| 0 <= i < atk.len() && !done[i] ==> #[trigger] t[i] == None::<usize>
    &&& forall|i: int| 0 <= i < atk.len() && #[trigger] done[i] ==> rank[i] < p
    &&& forall|i: int| 0 <= i < atk.len() && #[trigger] done[i] ==> selector_ok(atk, def, t, rank, i)
}

pub open spec fn flags_after(flags: Seq<bool>, r: Option<usize>) -> Seq<bool> {
    match r {
        Some(j) => flags.update(j as int, true),
        None => flags,
    }
}

proof fn lemma_pick_step(
    atk: Seq<Group>,
    def: Seq<Group>,
    t: Seq<Option<usize>>,
    flags: Seq<bool>,
    done: Seq<bool>,
    rank: Seq<int>,
    p: int,
    s: int,
    r: Option<usize>,
)
    requires
        side_partial(atk, def, t, flags, done, rank, p),
        0 <= s < atk.len(),
        !done[s],
        rank[s] == p,
        is_best_target(atk[s], def, flags, r),
    ensures
        side_partial(atk, def, t.update(s, r), flags_after(flags, r), done.update(s, true), rank, p + 1),
{
    let t2 = t.update(s, r);
    let f2 = flags_after(flags, r);
    let d2 = done.update(s, true);
    assert(t[s] == None::<usize>);
    // a pick made earlier stays made, by a selector other than `s`
    assert forall|k: int, i: int|
        0 <= k < def.len() && 0 <= i < atk.len() && #[trigger] picked_before(t, k, rank, i) implies picked_before(
        t2,
        k,
        rank,
        i,
    ) by {
        let i2 = choose|i2: int| 0 <= i2 < t.len() && t[i2] == Some(k as usize) && rank[i2] < rank[i];
        assert(i2 != s);
        assert(t2[i2] == Some(k as usize));
    }
    // what is claimed when `s` picks was picked by a selector before it
    assert forall|k: int| 0 <= k < def.len() && #[trigger] claimed(t, k) implies picked_before(t2, k, rank, s) by {
        let i2 = choose|i2: int| 0 <= i2 < t.len() && t[i2] == Some(k as usize);
        assert(i2 != s);
        assert(done[i2]);
        assert(t2[i2] == Some(k as usize));
    }
    assert forall|k: int| 0 <= k < def.len() && #[trigger] claimed(t, k) implies claimed(t2, k) by {
        let i2 = choose|i2: int| 0 <= i2 < t.len() && t[i2] == Some(k as usize);
        assert(t2[i2] == Some(k as usize));
    }
    match r {
        None => {
            assert(t2 =~= t);
            assert forall|k: int|
                0 <= k < def.len() && (#[trigger] def[k]).units > 0 && damage(atk[s], def[k]) > 0 implies picked_before(
                t2,
                k,
                rank,
                s,
            ) by {
                assert(!eligible(def, flags, k));
                assert(claimed(t, k));
            }
            assert forall|i: int| 0 <= i < atk.len() && #[trigger] d2[i] implies selector_ok(atk, def, t2, rank, i) by {
                if i != s {
                    assert(done[i]);
                }
            }
        },
        Some(j) => {
            assert(!claimed(t, j as int));
            assert forall|k: int| 0 <= k < def.len() implies (f2[k] <==> #[trigger] claimed(t2, k)) by {
                if k == j {
                    assert(t2[s] == Some(k as usize));
                } else if claimed(t2, k) {
                    let i = choose|i: int| 0 <= i < t2.len() && t2[i] == Some(k as usize);
                    assert(i != s);
                    assert(t[i] == Some(k as usize));
                    assert(claimed(t, k));
                } else {
                    if claimed(t, k) {
                        assert(claimed(t2, k));
                    }
                }
            }
            assert forall|i: int| 0 <= i < atk.len() && #[trigger] d2[i] implies selector_ok(atk, def, t2, rank, i) by {
                if i == s {
                    assert forall|i2: int| 0 <= i2 < t2.len() && i2 != i implies #[trigger] t2[i2] != Some(j) by {
                        if t[i2] == Some(j) {
                            assert(claimed(t, j as int));
                        }
                    }
                    assert forall|k: int|
                        0 <= k < def.len() && k != j && (#[trigger] def[k]).units > 0 && !preferred(
                            atk[i],
                            def,
                            j as int,
                            k,
                        ) implies picked_before(t2, k, rank, i) by {
                        assert(!eligible(def, flags, k));
                        assert(claimed(t, k));
                    }
                } else {
                    assert(done[i]);
                    assert(selector_ok(atk, def, t, rank, i));
                    match t[i] {
                        Some(j2) => {
                            assert(claimed(t, j2 as int));
                            assert forall|i2: int| 0 <= i2 < t2.len() && i2 != i implies #[trigger] t2[i2]
                                != Some(j2) by {
                                if i2 != s {
                                    assert(t[i2] != Some(j2));
                                }
                            }
                            assert forall|k: int|
                                0 <= k < def.len() && k != j2 && (#[trigger] def[k]).units > 0 && !preferred(
                                    atk[i],
                                    def,
                                    j2 as int,
                                    k,
                                ) implies picked_before(t2, k, rank, i) by {
                                assert(picked_before(t, k, rank, i));
                            }
                        },
                        None => {
                            assert forall|k: int|
                                0 <= k < def.len() && (#[trigger] def[k]).units > 0 && damage(atk[i], def[k]) > 0
                                    implies picked_before(t2, k, rank, i) by {
                                assert(picked_before(t, k, rank, i));
                            }
                        },
                    }
                }
            }
        },
    }
}

pub open spec fn is_done(done_im: Seq<bool>, done_inf: Seq<bool>, r: GroupRef) -> bool {
    match r.army {
        Army::Immune => done_im[r.index as int],
        Army::Infection => done_inf[r.index as int],
    }
}

fn no_picks(n: usize) -> (t: Vec<Option<usize>>)
    ensures
        t.len() == n,
        forall|i: int| 0 <= i < n ==> #[trigger] t[i] == None::<usize>,
{
    let mut t: Vec<Option<usize>> = Vec::new();
    while t.len() < n
        invariant
            t.len() <= n,
            forall|i: int| 0 <= i < t.len() ==> #[trigger] t[i] == None::<usize>,
        decreases n - t.len(),
    {
        t.push(None);
    }
    t
}

fn no_flags(n: usize) -> (f: Vec<bool>)
    ensures
        f.len() == n,
        forall|i: int| 0 <= i < n ==> !#[trigger] f[i],
{
    let mut f: Vec<bool> = Vec::new();
    while f.len() < n
        invariant
            f.len() <= n,
            forall|i: int| 0 <= i < f.len() ==> !#[trigger] f[i],
        decreases n - f.len(),
    {
        f.push(false);
    }
    f
}

/// The target selection phase: every group, in selection order, picks its
/// preferred living target in the other army among those not yet picked, and
/// picks none where it would deal no damage.
pub fn target_selection_phase(b: &Battle) -> (sel: Selections)
    ensures
        selections_ok(b, &sel),
{
    let ord = selection_order(b);
    let ni = b.immune.len();
    let nf = b.infection.len();
    let mut imm_t = no_picks(ni);
    let mut inf_t = no_picks(nf);
    let mut imm_flags = no_flags(ni);
    let mut inf_flags = no_flags(nf);
    let ghost mut done_im: Seq<bool> = Seq::new(ni as nat, |i: int| false);
    let ghost mut done_inf: Seq<bool> = Seq::new(nf as nat, |i: int| false);
    let ghost rank_im = ranks(b, ord@, Army::Immune);
    let ghost rank_inf = ranks(b, ord@, Army::Infection);
    let mut p: usize = 0;
    while p < ord.len()
        invariant
            is_selection_order(b, ord@),
            rank_im == ranks(b, ord@, Army::Immune),
            rank_inf == ranks(b, ord@, Army::Infection),
            side_partial(b.immune@, b.infection@, imm_t@, inf_flags@, done_im, rank_im, p as int),
            side_partial(b.infection@, b.immune@, inf_t@, imm_flags@, done_inf, rank_inf, p as int),
            p <= ord.len(),
            forall|q: int| 0 <= q < ord.len() ==> (is_done(done_im, done_inf, #[trigger] ord[q]) <==> q < p),
        decreases ord.len() - p,
    {
        let r = ord[p];
        assert(b.valid_ref(ord[p as int]));
        let ghost old_im = done_im;
        let ghost old_inf = done_inf;
        proof {
            let q = position(ord@, r);
            assert(names(ord@, r));
            assert(0 <= q < ord.len() && ord[q] == r);
            assert(q == p);
        }
        match r.army {
            Army::Immune => {
                let c = choose_target(&b.immune[r.index], &b.infection, &inf_flags);
                proof {
                    lemma_pick_step(
                        b.immune@,
                        b.infection@,
                        imm_t@,
                        inf_flags@,
                        done_im,
                        rank_im,
                        p as int,
                        r.index as int,
                        c,
                    );
                }
                imm_t.set(r.index, c);
                match c {
                    Some(j) => {
                        inf_flags.set(j, true);
                    },
                    None => {},
                }
                proof {
                    done_im = done_im.update(r.index as int, true);
                }
            },
            Army::Infection => {
                let c = choose_target(&b.infection[r.index], &b.immune, &imm_flags);
                proof {
                    lemma_pick_step(
                        b.infection@,
                        b.immune@,
                        inf_t@,
                        imm_flags@,
                        done_inf,
                        rank_inf,
                        p as int,
                        r.index as int,
                        c,
                    );
                }
                inf_t.set(r.index, c);
                match c {
                    Some(j) => {
                        imm_flags.set(j, true);
                    },
                    None => {},
                }
                proof {
                    done_inf = done_inf.update(r.index as int, true);
                }
            },
        }
        proof {
            assert forall|q: int| 0 <= q < ord.len() implies (is_done(done_im, done_inf, #[trigger] ord[q]) <==> q
                < p + 1) by {
                if q != p {
                    assert(ord[q] != ord[p as int]);
                    assert(is_done(done_im, done_inf, ord[q]) == is_done(old_im, old_inf, ord[q]));
                }
            }
        }
        p += 1;
    }
    proof {
        assert forall|i: int| 0 <= i < ni implies #[trigger] selector_ok(b.immune@, b.infection@, imm_t@, rank_im, i) by {
            let r = GroupRef { army: Army::Immune, index: i as usize };
            assert(b.valid_ref(r));
            assert(names(ord@, r));
            let q = choose|q: int| 0 <= q < ord.len() && ord[q] == r;
            assert(is_done(done_im, done_inf, ord[q]));
        }
        assert forall|i: int| 0 <= i < nf implies #[trigger] selector_ok(b.infection@, b.immune@, inf_t@, rank_inf, i) by {
            let r = GroupRef { army: Army::Infection, index: i as usize };
            assert(b.valid_ref(r));
            assert(names(ord@, r));
            let q = choose|q: int| 0 <= q < ord.len() && ord[q] == r;
            assert(is_done(done_im, done_inf, ord[q]));
        }
    }
    let sel = Selections { immune_targets: imm_t, infection_targets: inf_t };
    assert(is_selection_order(b, ord@) && side_ok(
        b.immune@,
        b.infection@,
        sel.immune_targets@,
        ranks(b, ord@, Army::Immune),
    ) && side_ok(b.infection@, b.immune@, sel.infection_targets@, ranks(b, ord@, Army::Infection)));
    sel
}

/// The armies after group `r` carries out its attack, if it picked a target.
pub open spec fn attack_step(im: Seq<Group>, inf: Seq<Group>, sel: &Selections, r: GroupRef) -> (
    Seq<Group>,
    Seq<Group>,
) {
    match r.army {
        Army::Immune => if r.index < sel.immune_targets.len() && r.index < im.len() {
            match sel.immune_targets@[r.index as int] {
                Some(t) => if t < inf.len() {
                    (im, inf.update(t as int, attacked(im[r.index as int], inf[t as int])))
                } else {
                    (im, inf)
                },
                None => (im, inf),
            }
        } else {
            (im, inf)
        },
        Army::Infection => if r.index < sel.infection_targets.len() && r.index < inf.len() {
            match sel.infection_targets@[r.index as int] {
                Some(t) => if t < im.len() {
                    (im.update(t as int, attacked(inf[r.index as int], im[t as int])), inf)
                } else {
                    (im, inf)
                },
                None => (im, inf),
            }
        } else {
            (im, inf)
        },
    }
}

/// The armies after the groups of `ord` attack, one after another.
pub open spec fn attacks_applied(im: Seq<Group>, inf: Seq<Group>, sel: &Selections, ord: Seq<GroupRef>) -> (
    Seq<Group>,
    Seq<Group>,
)
    decreases ord.len(),
{
    if ord.len() == 0 {
        (im, inf)
    } else {
        let prev = attacks_applied(im, inf, sel, ord.drop_last());
        attack_step(prev.0, prev.1, sel, ord.last())
    }
}

/// `new` is `old` with some unit counts lowered and nothing else changed.
pub open spec fn no_gain(old: Seq<Group>, new: Seq<Group>) -> bool {
    &&& new.len() == old.len()
    &&& forall|i: int|
        0 <= i < old.len() ==> (#[trigger] new[i]).units <= old[i].units && new[i] == Group {
            units: new[i].units,
            ..old[i]
        }
}

/// Group `group_index` of `army` attacks group `target_group_index` of the
/// other army.
pub fn execute_attack(
    army: Army,
    group_index: usize,
    target_group_index: usize,
    immune_groups: &mut Vec<Group>,
    infection_groups: &mut Vec<Group>,
)
    requires
        all_wf(old(immune_groups)@),
        all_wf(old(infection_groups)@),
        group_index < side(old(immune_groups)@, old(infection_groups)@, army).len(),
        target_group_index < side(old(immune_groups)@, old(infection_groups)@, army.opponent()).len(),
    ensures
        army == Army::Immune ==> final(immune_groups)@ == old(immune_groups)@ && final(infection_groups)@
            == old(infection_groups)@.update(
            target_group_index as int,
            attacked(old(immune_groups)@[group_index as int], old(infection_groups)@[target_group_index as int]),
        ),
        army == Army::Infection ==> final(infection_groups)@ == old(infection_groups)@ && final(immune_groups)@
            == old(immune_groups)@.update(
            target_group_index as int,
            attacked(old(infection_groups)@[group_index as int], old(immune_groups)@[target_group_index as int]),
        ),
{
    match army {
        Army::Immune => {
            let a = immune_groups[group_index];
            let mut d = infection_groups[target_group_index];
            a.attack(&mut d);
            infection_groups.set(target_group_index, d);
        },
        Army::Infection => {
            let a = infection_groups[group_index];
            let mut d = immune_groups[target_group_index];
            a.attack(&mut d);
            immune_groups.set(target_group_index, d);
        },
    }
}

/// Group `r` attacks the target it picked, if any.
fn attack_if_picked(b: &mut Battle, sel: &Selections, r: GroupRef)
    requires
        old(b).wf(),
    ensures
        final(b).wf(),
        (final(b).immune@, final(b).infection@) == attack_step(old(b).immune@, old(b).infection@, sel, r),
        no_gain(old(b).immune@, final(b).immune@),
        no_gain(old(b).infection@, final(b).infection@),
{
    let target = match r.army {
        Army::Immune => if r.index < sel.immune_targets.len() && r.index < b.immune.len() {
            match sel.immune_targets[r.index] {
                Some(t) => if t < b.infection.len() {
                    Some(t)
                } else {
                    None
                },
                None => None,
            }
        } else {
            None
        },
        Army::Infection => if r.index < sel.infection_targets.len() && r.index < b.infection.len() {
            match sel.infection_targets[r.index] {
                Some(t) => if t < b.immune.len() {
                    Some(t)
                } else {
                    None
                },
                None => None,
            }
        } else {
            None
        },
    };
    match target {
        Some(t) => {
            proof {
                lemma_attack_never_gains(b.group(r), b.group(GroupRef { army: r.army.opponent(), index: t }));
            }
            execute_attack(r.army, r.index, t, &mut b.immune, &mut b.infection);
        },
        None => {},
    }
}

/// The attack phase: every group that picked a target attacks it, in
/// initiative order, with its unit count as it stands at its turn.
pub fn attack_phase(b: &mut Battle, sel: &Selections)
    requires
        old(b).wf(),
    ensures
        final(b).wf(),
        no_gain(old(b).immune@, final(b).immune@),
        no_gain(old(b).infection@, final(b).infection@),
        exists|ord: Seq<GroupRef>|
            is_attack_order(old(b), ord) && (final(b).immune@, final(b).infection@) == attacks_applied(
                old(b).immune@,
                old(b).infection@,
                sel,
                ord,
            ),
{
    let ord = attack_order(b);
    let ghost im0 = b.immune@;
    let ghost inf0 = b.infection@;
    let mut p: usize = 0;
    while p < ord.len()
        invariant
            b.wf(),
            p <= ord.len(),
            no_gain(im0, b.immune@),
            no_gain(inf0, b.infection@),
            (b.immune@, b.infection@) == attacks_applied(im0, inf0, sel, ord@.take(p as int)),
        decreases ord.len() - p,
    {
        let ghost before_im = b.immune@;
        let ghost before_inf = b.infection@;
        attack_if_picked(b, sel, ord[p]);
        proof {
            assert(ord@.take(p + 1).drop_last() =~= ord@.take(p as int));
            assert(no_gain(im0, b.immune@)) by {
                assert forall|i: int| 0 <= i < im0.len() implies (#[trigger] b.immune@[i]).units <= im0[i].units
                    && b.immune@[i] == Group { units: b.immune@[i].units, ..im0[i] } by {
                    assert(before_im[i] == Group { units: before_im[i].units, ..im0[i] });
                }
            }
            assert(no_gain(inf0, b.infection@)) by {
                assert forall|i: int| 0 <= i < inf0.len() implies (#[trigger] b.infection@[i]).units
                    <= inf0[i].units && b.infection@[i] == Group { units: b.infection@[i].units, ..inf0[i] } by {
                    assert(before_inf[i] == Group { units: before_inf[i].units, ..inf0[i] });
                }
            }
        }
        p += 1;
    }
    proof {
        assert(ord@.take(ord.len() as int) =~= ord@);
    }
}

pub open spec fn has_living(s: Seq<Group>) -> bool {
    exists|i: int| 0 <= i < s.len() && (#[trigger] s[i]).units > 0
}

/// The battle is over when one army has no living group.
pub open spec fn is_over(b: &Battle) -> bool {
    !has_living(b.immune@) || !has_living(b.infection@)
}

pub open spec fn sum_units(s: Seq<Group>) -> int
    decreases s.len(),
{
    if s.len() == 0 {
        0
    } else {
        sum_units(s.drop_last()) + s.last().units
    }
}

pub open spec fn total_units(b: &Battle) -> int {
    sum_units(b.immune@) + sum_units(b.infection@)
}

/// What the battle reports: the units of the infection army when the immune
/// army has no living group, else those of the immune army.
pub open spec fn report(b: &Battle) -> int {
    if !has_living(b.immune@) {
        sum_units(b.infection@)
    } else {
        sum_units(b.immune@)
    }
}

pub proof fn lemma_sum_units_nonneg(s: Seq<Group>)
    ensures
        sum_units(s) >= 0,
    decreases s.len(),
{
    if s.len() > 0 {
        lemma_sum_units_nonneg(s.drop_last());
    }
}

/// Lowering unit counts lowers the sum; keeping the sum keeps every count.
pub proof fn lemma_sum_units_no_gain(old: Seq<Group>, new: Seq<Group>)
    requires
        no_gain(old, new),
    ensures
        sum_units(new) <= sum_units(old),
        sum_units(new) == sum_units(old) ==> new == old,
    decreases old.len(),
{
    if old.len() > 0 {
        let o = old.drop_last();
        let n = new.drop_last();
        assert(no_gain(o, n)) by {
            assert forall|i: int| 0 <= i < o.len() implies (#[trigger] n[i]).units <= o[i].units && n[i] == Group {
                units: n[i].units,
                ..o[i]
            } by {
                assert(new[i] == Group { units: new[i].units, ..old[i] });
            }
        }
        lemma_sum_units_no_gain(o, n);
        if sum_units(new) == sum_units(old) {
            assert(new.last() == Group { units: new.last().units, ..old.last() });
            assert(new =~= n.push(new.last()));
            assert(old =~= o.push(old.last()));
        }
    }
}

/// Sum of the unit counts of `v`.
pub fn army_units(v: &Vec<Group>) -> (r: u128)
    ensures
        r == sum_units(v@),
        r <= v.len() as int * 0xffff_ffff,
{
    let mut sum: u128 = 0;
    let mut k: usize = 0;
    while k < v.len()
        invariant
            k <= v.len(),
            sum == sum_units(v@.take(k as int)),
            sum <= k as int * 0xffff_ffff,
        decreases v.len() - k,
    {
        assert(v@.take(k + 1).drop_last() =~= v@.take(k as int));
        sum = sum + v[k].units as u128;
        k += 1;
    }
    assert(v@.take(v.len() as int) =~= v@);
    sum
}

fn any_living(v: &Vec<Group>) -> (r: bool)
    ensures
        r == has_living(v@),
{
    let mut k: usize = 0;
    while k < v.len()
        invariant
            k <= v.len(),
            forall|i: int| 0 <= i < k ==> (#[trigger] v@[i]).units == 0,
        decreases v.len() - k,
    {
        if v[k].units > 0 {
            return true;
        }
        k += 1;
    }
    false
}

/// One round leads from the armies `(im1, inf1)` to `(im2, inf2)`: the
/// picks of a target selection on the first, then the attacks in an attack
/// order.
pub open spec fn is_round(im1: Seq<Group>, inf1: Seq<Group>, im2: Seq<Group>, inf2: Seq<Group>) -> bool {
    exists|b: Battle, sel: Selections, ord: Seq<GroupRef>|
        {
            &&& b.immune@ == im1
            &&& b.infection@ == inf1
            &&& selections_ok(&b, &sel)
            &&& is_attack_order(&b, ord)
            &&& (im2, inf2) == attacks_applied(im1, inf1, &sel, ord)
        }
}

pub open spec fn armies_over(st: (Seq<Group>, Seq<Group>)) -> bool {
    !has_living(st.0) || !has_living(st.1)
}

pub open spec fn round_at(tr: Seq<(Seq<Group>, Seq<Group>)>, i: int) -> bool {
    is_round(tr[i].0, tr[i].1, tr[i + 1].0, tr[i + 1].1)
}

/// `tr` is the run of a fight from `(im0, inf0)`: at least one round, each
/// state reached from the one before by a round, and no state between the
/// first and the last with an army out of living groups.
pub open spec fn is_fight(tr: Seq<(Seq<Group>, Seq<Group>)>, im0: Seq<Group>, inf0: Seq<Group>) -> bool {
    &&& tr.len() >= 2
    &&& tr[0] == (im0, inf0)
    &&& forall|i: int| 0 <= i < tr.len() - 1 ==> #[trigger] round_at(tr, i)
    &&& forall|i: int| 0 < i < tr.len() - 1 ==> !armies_over(#[trigger] tr[i])
}

fn all_positive_hit_points(v: &Vec<Group>) -> (r: bool)
    ensures
        r == all_wf(v@),
{
    let mut k: usize = 0;
    while k < v.len()
        invariant
            k <= v.len(),
            forall|i: int| 0 <= i < k ==> (#[trigger] v@[i]).wf(),
        decreases v.len() - k,
    {
        if v[k].hit_points == 0 {
            assert(!v@[k as int].wf());
            return false;
        }
        k += 1;
    }
    true
}

/// True when either army has no living group left.
pub fn end_condition(immune: &Vec<Group>, infection: &Vec<Group>) -> (r: bool)
    ensures
        r == (!has_living(immune@) || !has_living(infection@)),
{
    !any_living(immune) || !any_living(infection)
}

impl Battle {
    pub fn new(immune: Vec<Group>, infection: Vec<Group>) -> (b: Battle)
        ensures
            b.immune@ == immune@,
            b.infection@ == infection@,
    {
        Battle { immune, infection }
    }

    /// True when every group has positive hit points, as a battle needs.
    pub fn is_valid(&self) -> (r: bool)
        ensures
            r == self.wf(),
    {
        all_positive_hit_points(&self.immune) && all_positive_hit_points(&self.infection)
    }

    /// The units left on the winning side: the infection army's total when the
    /// immune army has no living group, else the immune army's total.
    pub fn remaining_units(&self) -> (r: u128)
        ensures
            r == report(self),
    {
        if !any_living(&self.immune) {
            army_units(&self.infection)
        } else {
            army_units(&self.immune)
        }
    }

    fn total(&self) -> (r: u128)
        ensures
            r == total_units(self),
    {
        let a = army_units(&self.immune);
        let c = army_units(&self.infection);
        assert(self.immune.len() <= usize::MAX);
        assert(self.infection.len() <= usize::MAX);
        assert(a <= 0xffff_ffff_ffff_ffffu128 * 0xffff_ffffu128) by (nonlinear_arith)
            requires
                a <= self.immune.len() as int * 0xffff_ffff,
                self.immune.len() <= 0xffff_ffff_ffff_ffff,
        ;
        assert(c <= 0xffff_ffff_ffff_ffffu128 * 0xffff_ffffu128) by (nonlinear_arith)
            requires
                c <= self.infection.len() as int * 0xffff_ffff,
                self.infection.len() <= 0xffff_ffff_ffff_ffff,
        ;
        a + c
    }

    /// One round: target selection, then the attack phase.
    pub fn fight_round(&mut self)
        requires
            old(self).wf(),
        ensures
            final(self).wf(),
            no_gain(old(self).immune@, final(self).immune@),
            no_gain(old(self).infection@, final(self).infection@),
            is_round(old(self).immune@, old(self).infection@, final(self).immune@, final(self).infection@),
    {
        let ghost b0: Battle = *self;
        let sel = target_selection_phase(self);
        attack_phase(self, &sel);
        proof {
            let ord = choose|ord: Seq<GroupRef>|
                is_attack_order(&b0, ord) && (self.immune@, self.infection@) == attacks_applied(
                    b0.immune@,
                    b0.infection@,
                    &sel,
                    ord,
                );
            assert(b0.immune@ == b0.immune@ && b0.infection@ == b0.infection@ && selections_ok(&b0, &sel)
                && is_attack_order(&b0, ord) && (self.immune@, self.infection@) == attacks_applied(
                b0.immune@,
                b0.infection@,
                &sel,
                ord,
            ));
        }
    }

    /// Fights rounds until one army has no living group, and returns true; or
    /// stops at the first round in which no unit is lost, and returns false:
    /// every later round would repeat it. At least one round is fought.
    pub fn simulate(&mut self) -> (ended: bool)
        requires
            old(self).wf(),
        ensures
            final(self).wf(),
            no_gain(old(self).immune@, final(self).immune@),
            no_gain(old(self).infection@, final(self).infection@),
            exists|tr: Seq<(Seq<Group>, Seq<Group>)>|
                {
                    &&& is_fight(tr, old(self).immune@, old(self).infection@)
                    &&& tr.last() == (final(self).immune@, final(self).infection@)
                    &&& ended ==> is_over(final(self))
                    &&& !ended ==> !is_over(final(self)) && tr[tr.len() - 2] == tr.last()
                },
    {
        let ghost im0 = self.immune@;
        let ghost inf0 = self.infection@;
        let ghost mut tr: Seq<(Seq<Group>, Seq<Group>)> = seq![(im0, inf0)];
        loop
            invariant
                self.wf(),
                im0 == old(self).immune@,
                inf0 == old(self).infection@,
                no_gain(im0, self.immune@),
                no_gain(inf0, self.infection@),
                tr.len() >= 1,
                tr[0] == (im0, inf0),
                tr.last() == (self.immune@, self.infection@),
                forall|i: int| 0 <= i < tr.len() - 1 ==> #[trigger] round_at(tr, i),
                forall|i: int| 0 < i < tr.len() ==> !armies_over(#[trigger] tr[i]),
            decreases total_units(self),
        {
            let ghost im1 = self.immune@;
            let ghost inf1 = self.infection@;
            let before = self.total();
            self.fight_round();
            proof {
                let old_tr = tr;
                tr = tr.push((self.immune@, self.infection@));
                assert(tr[tr.len() - 2] == (im1, inf1));
                assert forall|i: int| 0 <= i < tr.len() - 1 implies #[trigger] round_at(tr, i) by {
                    if i < old_tr.len() - 1 {
                        assert(round_at(old_tr, i));
                    }
                }
                lemma_sum_units_no_gain(im1, self.immune@);
                lemma_sum_units_no_gain(inf1, self.infection@);
                lemma_sum_units_nonneg(self.immune@);
                lemma_sum_units_nonneg(self.infection@);
                assert(no_gain(im0, self.immune@)) by {
                    assert forall|i: int| 0 <= i < im0.len() implies (#[trigger] self.immune@[i]).units
                        <= im0[i].units && self.immune@[i] == Group { units: self.immune@[i].units, ..im0[i] } by {
                        assert(im1[i] == Group { units: im1[i].units, ..im0[i] });
                    }
                }
                assert(no_gain(inf0, self.infection@)) by {
                    assert forall|i: int| 0 <= i < inf0.len() implies (#[trigger] self.infection@[i]).units
                        <= inf0[i].units && self.infection@[i] == Group {
                        units: self.infection@[i].units,
                        ..inf0[i]
                    } by {
                        assert(inf1[i] == Group { units: inf1[i].units, ..inf0[i] });
                    }
                }
            }
            if end_condition(&self.immune, &self.infection) {
                proof {
                    assert(is_fight(tr, im0, inf0));
                    assert(is_fight(tr, im0, inf0) && tr.last() == (self.immune@, self.infection@) && is_over(self));
                }
                return true;
            }
            let after = self.total();
            if after == before {
                proof {
                    assert(self.immune@ == im1);
                    assert(self.infection@ == inf1);
                    assert(is_fight(tr, im0, inf0));
                    assert(tr[tr.len() - 2] == tr.last());
                    assert(is_fight(tr, im0, inf0) && tr.last() == (self.immune@, self.infection@) && !is_over(self)
                        && tr[tr.len() - 2] == tr.last());
                }
                return false;
            }
        }
    }
}

} // verus!
