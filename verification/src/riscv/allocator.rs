use vstd::prelude::*;
use crate::riscv::{RegLocation, RegName};

verus! {

broadcast use vstd::std_specs::vec::group_vec_axioms;

/// Where value `v` is kept: the latest binding of `v`, an unbinding
/// standing for none.
pub open spec fn loc_of(mapping: Seq<(u64, Option<RegLocation>)>, v: u64) -> Option<RegLocation>
    decreases mapping.len(),
{
    if mapping.len() == 0 {
        None
    } else if mapping.last().0 == v {
        mapping.last().1
    } else {
        loc_of(mapping.drop_last(), v)
    }
}

/// The first free register of the pool, in the pool's order.
pub open spec fn first_free_reg(regs: Seq<(RegName, bool)>) -> Option<int> {
    if exists|i: int| 0 <= i < regs.len() && !(#[trigger] regs[i]).1 {
        Some(choose|i: int| 0 <= i < regs.len() && !(#[trigger] regs[i]).1
            && forall|j: int| 0 <= j < i ==> (#[trigger] regs[j]).1)
    } else {
        None
    }
}

/// The first free stack slot.
pub open spec fn first_free_slot(stack: Seq<bool>) -> Option<int> {
    if exists|i: int| 0 <= i < stack.len() && !(#[trigger] stack[i]) {
        Some(choose|i: int| 0 <= i < stack.len() && !(#[trigger] stack[i]) && forall|j: int| 0 <= j < i ==> #[trigger] stack[j])
    } else {
        None
    }
}

/// The registers values are placed in, in the order they are handed out:
/// `t1` to `t5`, then `s2` to `s11`.
pub open spec fn pool_regs() -> Seq<RegName> {
    Seq::new(5, |i: int| RegName::TempT((i + 1) as usize)) + Seq::new(10, |i: int| RegName::TempS((i + 2) as usize))
}


/// The places are kept apart: no two values share a place, every place held
/// by a value is marked in use, and the pool names each register once.
pub open spec fn places_apart(ra: RegisterAllocator) -> bool {
    let m = ra.mapping@;
    let regs = ra.regs@;
    let special = ra.special_regs@;
    &&& forall|i: int, j: int| 0 <= i < j < regs.len() ==> (#[trigger] regs[i]).0 != (#[trigger] regs[j]).0
    &&& forall|i: int, j: int| 0 <= i < regs.len() && 0 <= j < special.len() ==> (#[trigger] regs[i]).0 != (#[trigger] special[j]).0
    &&& forall|v: u64, w: u64| v != w && (#[trigger] loc_of(m, v)) is Some ==> #[trigger] loc_of(m, w) != loc_of(m, v)
    &&& forall|v: u64, i: int| 0 <= i < regs.len() && #[trigger] loc_of(m, v) == Some(RegLocation::Reg((#[trigger] regs[i]).0)) ==> regs[i].1
    &&& forall|v: u64| (#[trigger] loc_of(m, v)) matches Some(RegLocation::Stack(i)) ==> i < ra.stack@.len() && ra.stack@[i as int]
}


proof fn lemma_loc_push(m: Seq<(u64, Option<RegLocation>)>, v: u64, x: Option<RegLocation>, w: u64)
    ensures
        loc_of(m.push((v, x)), w) == if w == v { x } else { loc_of(m, w) },
{
    assert(m.push((v, x)).drop_last() =~= m);
}

/// Placing `value`, which had no place, in free pool register `i` keeps the places apart.
proof fn lemma_apart_after_reg(a: RegisterAllocator, b: RegisterAllocator, value: u64, i: int)
    requires
        places_apart(a),
        loc_of(a.mapping@, value) is None,
        0 <= i < a.regs@.len(),
        !a.regs@[i].1,
        b.regs@ == a.regs@.update(i, (a.regs@[i].0, true)),
        b.special_regs == a.special_regs,
        b.stack == a.stack,
        b.mapping@ == a.mapping@.push((value, Some(RegLocation::Reg(a.regs@[i].0)))),
    ensures
        places_apart(b),
{
    let name = a.regs@[i].0;
    assert forall|v: u64| #[trigger] loc_of(b.mapping@, v) == if v == value { Some(RegLocation::Reg(name)) } else { loc_of(a.mapping@, v) } by {
        lemma_loc_push(a.mapping@, value, Some(RegLocation::Reg(name)), v);
    }
    assert forall|v: u64, j: int| 0 <= j < b.regs@.len() && #[trigger] loc_of(b.mapping@, v) == Some(RegLocation::Reg((#[trigger] b.regs@[j]).0)) implies b.regs@[j].1 by {
        if v == value {
            assert(b.regs@[j].0 == a.regs@[j].0);
            if j != i {
                assert(a.regs@[i].0 != a.regs@[j].0);
            }
        } else {
            assert(b.regs@[j].0 == a.regs@[j].0);
            assert(loc_of(a.mapping@, v) == Some(RegLocation::Reg(a.regs@[j].0)));
            assert(a.regs@[j].1);
        }
    }
    assert forall|v: u64, w: u64| v != w && (#[trigger] loc_of(b.mapping@, v)) is Some implies #[trigger] loc_of(b.mapping@, w) != loc_of(b.mapping@, v) by {
        if v == value {
            if loc_of(a.mapping@, w) == Some(RegLocation::Reg(name)) {
                assert(a.regs@[i].1);
            }
        } else if w == value {
            if loc_of(a.mapping@, v) == Some(RegLocation::Reg(name)) {
                assert(a.regs@[i].1);
            }
        }
    }
    assert forall|v: u64| ((#[trigger] loc_of(b.mapping@, v)) matches Some(RegLocation::Stack(k)) ==> k < b.stack@.len() && b.stack@[k as int]) by {
        if v != value {
            assert(loc_of(a.mapping@, v) == loc_of(b.mapping@, v));
        }
    }
    assert forall|x: int, y: int| 0 <= x < y < b.regs@.len() implies (#[trigger] b.regs@[x]).0 != (#[trigger] b.regs@[y]).0 by {
        assert(b.regs@[x].0 == a.regs@[x].0 && b.regs@[y].0 == a.regs@[y].0);
    }
    assert forall|x: int, y: int| 0 <= x < b.regs@.len() && 0 <= y < b.special_regs@.len() implies (#[trigger] b.regs@[x]).0 != (#[trigger] b.special_regs@[y]).0 by {
        assert(b.regs@[x].0 == a.regs@[x].0);
    }
}

/// Placing `value`, which had no place, in stack slot `k`, free or new, keeps the places apart.
proof fn lemma_apart_after_stack(a: RegisterAllocator, b: RegisterAllocator, value: u64, k: usize)
    requires
        places_apart(a),
        loc_of(a.mapping@, value) is None,
        0 <= k <= a.stack@.len(),
        k < a.stack@.len() ==> !a.stack@[k as int] && b.stack@ == a.stack@.update(k as int, true),
        k == a.stack@.len() ==> b.stack@ == a.stack@.push(true),
        b.regs == a.regs,
        b.special_regs == a.special_regs,
        b.mapping@ == a.mapping@.push((value, Some(RegLocation::Stack(k)))),
    ensures
        places_apart(b),
{
    assert forall|v: u64| #[trigger] loc_of(b.mapping@, v) == if v == value { Some(RegLocation::Stack(k)) } else { loc_of(a.mapping@, v) } by {
        lemma_loc_push(a.mapping@, value, Some(RegLocation::Stack(k)), v);
    }
    assert forall|v: u64, w: u64| v != w && (#[trigger] loc_of(b.mapping@, v)) is Some implies #[trigger] loc_of(b.mapping@, w) != loc_of(b.mapping@, v) by {
        if v == value {
            if loc_of(a.mapping@, w) == Some(RegLocation::Stack(k)) {
                assert(loc_of(a.mapping@, w) matches Some(RegLocation::Stack(j)) ==> j < a.stack@.len() && a.stack@[j as int]);
            }
        } else if w == value {
            if loc_of(a.mapping@, v) == Some(RegLocation::Stack(k)) {
                assert(loc_of(a.mapping@, v) matches Some(RegLocation::Stack(j)) ==> j < a.stack@.len() && a.stack@[j as int]);
            }
        }
    }
    assert forall|v: u64| ((#[trigger] loc_of(b.mapping@, v)) matches Some(RegLocation::Stack(j)) ==> j < b.stack@.len() && b.stack@[j as int]) by {
        if v != value {
            assert(loc_of(a.mapping@, v) == loc_of(b.mapping@, v));
        }
    }
    assert forall|v: u64, j: int| 0 <= j < b.regs@.len() && #[trigger] loc_of(b.mapping@, v) == Some(RegLocation::Reg((#[trigger] b.regs@[j]).0)) implies b.regs@[j].1 by {
        if v != value {
            assert(loc_of(a.mapping@, v) == loc_of(b.mapping@, v));
        }
    }
}


/// Unbinding `value` and freeing its place, and no other, keeps the places apart.
proof fn lemma_apart_after_free(a: RegisterAllocator, b: RegisterAllocator, value: u64, loc: RegLocation)
    requires
        places_apart(a),
        loc_of(a.mapping@, value) == Some(loc),
        b.mapping@ == a.mapping@.push((value, None::<RegLocation>)),
        b.regs@.len() == a.regs@.len(),
        b.special_regs@.len() == a.special_regs@.len(),
        b.stack@.len() == a.stack@.len(),
        forall|j: int| 0 <= j < a.regs@.len() ==> (#[trigger] b.regs@[j]).0 == a.regs@[j].0
            && (b.regs@[j].1 == a.regs@[j].1 || loc == RegLocation::Reg(a.regs@[j].0)),
        forall|j: int| 0 <= j < a.special_regs@.len() ==> (#[trigger] b.special_regs@[j]).0 == a.special_regs@[j].0,
        forall|j: int| 0 <= j < a.stack@.len() ==> #[trigger] b.stack@[j] == a.stack@[j] || loc == RegLocation::Stack(j as usize),
    ensures
        places_apart(b),
{
    assert forall|v: u64| #[trigger] loc_of(b.mapping@, v) == if v == value { None } else { loc_of(a.mapping@, v) } by {
        lemma_loc_push(a.mapping@, value, None, v);
    }
    assert forall|x: int, y: int| 0 <= x < y < b.regs@.len() implies (#[trigger] b.regs@[x]).0 != (#[trigger] b.regs@[y]).0 by {
        assert(b.regs@[x].0 == a.regs@[x].0 && b.regs@[y].0 == a.regs@[y].0);
        assert(a.regs@[x].0 != a.regs@[y].0);
    }
    assert forall|x: int, y: int| 0 <= x < b.regs@.len() && 0 <= y < b.special_regs@.len() implies (#[trigger] b.regs@[x]).0 != (#[trigger] b.special_regs@[y]).0 by {
        assert(b.regs@[x].0 == a.regs@[x].0 && b.special_regs@[y].0 == a.special_regs@[y].0);
        assert(a.regs@[x].0 != a.special_regs@[y].0);
    }
    assert forall|v: u64, w: u64| v != w && (#[trigger] loc_of(b.mapping@, v)) is Some implies #[trigger] loc_of(b.mapping@, w) != loc_of(b.mapping@, v) by {
        if w != value {
            assert(loc_of(a.mapping@, w) != loc_of(a.mapping@, v));
        }
    }
    assert forall|v: u64, j: int| 0 <= j < b.regs@.len() && #[trigger] loc_of(b.mapping@, v) == Some(RegLocation::Reg((#[trigger] b.regs@[j]).0)) implies b.regs@[j].1 by {
        assert(v != value);
        assert(loc_of(a.mapping@, v) == Some(RegLocation::Reg(a.regs@[j].0)));
        assert(a.regs@[j].1);
        if b.regs@[j].1 != a.regs@[j].1 {
            assert(loc_of(a.mapping@, value) != loc_of(a.mapping@, v));
        }
    }
    assert forall|v: u64| ((#[trigger] loc_of(b.mapping@, v)) matches Some(RegLocation::Stack(j)) ==> j < b.stack@.len() && b.stack@[j as int]) by {
        if v != value {
            match loc_of(a.mapping@, v) {
                Some(RegLocation::Stack(j)) => {
                    assert(j < a.stack@.len() && a.stack@[j as int]);
                    if b.stack@[j as int] != a.stack@[j as int] {
                        assert(loc_of(a.mapping@, value) != loc_of(a.mapping@, v));
                    }
                },
                _ => {},
            }
        }
    }
}

/// What freeing `location` as the place of `value` does: where it is that
/// value's place, the value is unbound and the place marked free; otherwise
/// nothing changes.
pub open spec fn frees(a: RegisterAllocator, b: RegisterAllocator, value: u64, location: RegLocation) -> bool {
    &&& loc_of(a.mapping@, value) != Some(location) ==> b == a
    &&& loc_of(a.mapping@, value) == Some(location) ==> {
        &&& loc_of(b.mapping@, value) is None
        &&& b.mapping@ == a.mapping@.push((value, None))
        &&& match location {
            RegLocation::Reg(reg) => b.stack == a.stack && if exists|i: int| 0 <= i < a.regs@.len() && (#[trigger] a.regs@[i]).0 == reg {
                let i = choose|i: int| 0 <= i < a.regs@.len() && (#[trigger] a.regs@[i]).0 == reg
                    && forall|j: int| 0 <= j < i ==> (#[trigger] a.regs@[j]).0 != reg;
                b.regs@ == a.regs@.update(i, (reg, false)) && b.special_regs == a.special_regs
            } else {
                let i = choose|i: int| 0 <= i < a.special_regs@.len() && (#[trigger] a.special_regs@[i]).0 == reg
                    && forall|j: int| 0 <= j < i ==> (#[trigger] a.special_regs@[j]).0 != reg;
                b.special_regs@ == a.special_regs@.update(i, (reg, false)) && b.regs == a.regs
            },
            RegLocation::Stack(index) => b.regs == a.regs && b.special_regs == a.special_regs
                && b.stack@ == if index < a.stack@.len() { a.stack@.update(index as int, false) } else { a.stack@ },
        }
    }
}

/// A value's place as handed out: owned where this hand-out made it, so
/// that releasing it frees the place.
#[derive(Debug)]
pub struct RegAddress {
    pub value: u64,
    pub location: RegLocation,
    pub owned: bool,
}

/// Hands out registers, then stack slots, to values named by number, and
/// takes them back.
#[derive(Debug)]
pub struct RegisterAllocator {
    pub regs: Vec<(RegName, bool)>,
    pub special_regs: Vec<(RegName, bool)>,
    pub stack: Vec<bool>,
    pub mapping: Vec<(u64, Option<RegLocation>)>,
}

fn copy_loc(l: &RegLocation) -> (r: RegLocation)
    ensures
        r == *l,
{
    match l {
        RegLocation::Reg(n) => RegLocation::Reg(*n),
        RegLocation::Stack(i) => RegLocation::Stack(*i),
    }
}

fn same_loc(a: &RegLocation, b: &RegLocation) -> (r: bool)
    ensures
        r == (*a == *b),
{
    match (a, b) {
        (RegLocation::Reg(x), RegLocation::Reg(y)) => *x == *y,
        (RegLocation::Stack(x), RegLocation::Stack(y)) => *x == *y,
        _ => false,
    }
}

impl RegisterAllocator {
    pub fn new() -> (r: Self)
        ensures
            r.regs@.len() == 15,
            forall|i: int| 0 <= i < 15 ==> (#[trigger] r.regs@[i]) == (pool_regs()[i], false),
            r.special_regs@.len() == 8,
            forall|i: int| 0 <= i < 8 ==> (#[trigger] r.special_regs@[i]) == (RegName::Param(i as usize), false),
            r.stack@.len() == 0,
            forall|v: u64| #[trigger] loc_of(r.mapping@, v) is None,
            places_apart(r),
    {
        let mut regs: Vec<(RegName, bool)> = Vec::new();
        let mut i: usize = 1;
        while i < 6
            invariant
                1 <= i <= 6,
                regs@.len() == i - 1,
                forall|k: int| 0 <= k < i - 1 ==> (#[trigger] regs@[k]) == (RegName::TempT((k + 1) as usize), false),
            decreases 6 - i,
        {
            regs.push((RegName::TempT(i), false));
            i = i + 1;
        }
        let mut i: usize = 2;
        while i < 12
            invariant
                2 <= i <= 12,
                regs@.len() == 5 + i - 2,
                forall|k: int| 0 <= k < 5 ==> (#[trigger] regs@[k]) == (RegName::TempT((k + 1) as usize), false),
                forall|k: int| 5 <= k < 5 + i - 2 ==> (#[trigger] regs@[k]) == (RegName::TempS((k - 3) as usize), false),
            decreases 12 - i,
        {
            regs.push((RegName::TempS(i), false));
            i = i + 1;
        }
        let mut special_regs: Vec<(RegName, bool)> = Vec::new();
        let mut i: usize = 0;
        while i < 8
            invariant
                i <= 8,
                special_regs@.len() == i,
                forall|k: int| 0 <= k < i ==> (#[trigger] special_regs@[k]) == (RegName::Param(k as usize), false),
            decreases 8 - i,
        {
            special_regs.push((RegName::Param(i), false));
            i = i + 1;
        }
        proof {
            assert forall|k: int| 0 <= k < 15 implies (#[trigger] regs@[k]) == (pool_regs()[k], false) by {
                if k < 5 {
                    assert(pool_regs()[k] == RegName::TempT((k + 1) as usize));
                } else {
                    assert(pool_regs()[k] == RegName::TempS((k - 5 + 2) as usize));
                }
            }
        }
        RegisterAllocator { regs, special_regs, stack: Vec::new(), mapping: Vec::new() }
    }

    fn lookup(&self, value: u64) -> (r: Option<RegLocation>)
        ensures
            r == loc_of(self.mapping@, value),
    {
        let mut i = self.mapping.len();
        proof {
            assert(self.mapping@.take(i as int) =~= self.mapping@);
        }
        while i > 0
            invariant
                i <= self.mapping@.len(),
                loc_of(self.mapping@, value) == loc_of(self.mapping@.take(i as int), value),
            decreases i,
        {
            proof {
                assert(self.mapping@.take(i as int).drop_last() =~= self.mapping@.take(i - 1));
            }
            if self.mapping[i - 1].0 == value {
                return match &self.mapping[i - 1].1 {
                    Some(l) => Some(copy_loc(l)),
                    None => None,
                };
            }
            i = i - 1;
        }
        None
    }

    /// The place of a value that has one, handed out without ownership.
    pub fn find(&self, value: &u64) -> (r: Option<RegAddress>)
        ensures
            match loc_of(self.mapping@, *value) {
                Some(l) => r matches Some(a) && a.value == *value && a.location == l && !a.owned,
                None => r is None,
            },
    {
        match self.lookup(*value) {
            Some(location) => Some(RegAddress { value: *value, location, owned: false }),
            None => None,
        }
    }

    fn alloc_stack_slot(&mut self) -> (index: usize)
        requires
            old(self).stack@.len() < usize::MAX,
        ensures
            final(self).regs == old(self).regs,
            final(self).special_regs == old(self).special_regs,
            final(self).mapping == old(self).mapping,
            index <= old(self).stack@.len(),
            index < old(self).stack@.len() ==> !old(self).stack@[index as int]
                && final(self).stack@ == old(self).stack@.update(index as int, true),
            index == old(self).stack@.len() ==> final(self).stack@ == old(self).stack@.push(true),
            match first_free_slot(old(self).stack@) {
                Some(i) => index == i && final(self).stack@ == old(self).stack@.update(i, true),
                None => index == old(self).stack@.len() && final(self).stack@ == old(self).stack@.push(true),
            },
    {
        let mut i: usize = 0;
        while i < self.stack.len()
            invariant
                i <= self.stack@.len(),
                self.stack@ == old(self).stack@,
                self.regs == old(self).regs,
                self.special_regs == old(self).special_regs,
                self.mapping == old(self).mapping,
                forall|j: int| 0 <= j < i ==> #[trigger] self.stack@[j],
            decreases self.stack.len() - i,
        {
            if !self.stack[i] {
                self.stack.set(i, true);
                proof {
                    assert(forall|j: int| 0 <= j < i ==> #[trigger] old(self).stack@[j]);
                    let c = choose|k: int| 0 <= k < old(self).stack@.len() && !(#[trigger] old(self).stack@[k])
                        && forall|j: int| 0 <= j < k ==> #[trigger] old(self).stack@[j];
                    assert(c == i) by {
                        if c < i {
                            assert(old(self).stack@[c]);
                        } else if c > i {
                            assert(old(self).stack@[i as int]);
                        }
                    }
                }
                return i;
            }
            i = i + 1;
        }
        self.stack.push(true);
        self.stack.len() - 1
    }

    /// Hands out a place for `value`: the one it has, or else the first free
    /// register, or else the first free stack slot, or else a new one.
    pub fn register(&mut self, value: u64) -> (r: RegAddress)
        requires
            old(self).stack@.len() < usize::MAX,
        ensures
            final(self).special_regs == old(self).special_regs,
            r.value == value,
            loc_of(final(self).mapping@, value) == Some(r.location),
            forall|other: u64| other != value ==> #[trigger] loc_of(final(self).mapping@, other) == loc_of(old(self).mapping@, other),
            places_apart(*old(self)) ==> places_apart(*final(self)),
            match loc_of(old(self).mapping@, value) {
                Some(l) => r.location == l && !r.owned && final(self).regs == old(self).regs
                    && final(self).stack == old(self).stack && final(self).mapping == old(self).mapping,
                None => {
                    &&& r.owned
                    &&& final(self).mapping@ == old(self).mapping@.push((value, Some(r.location)))
                    &&& match first_free_reg(old(self).regs@) {
                        Some(i) => r.location == RegLocation::Reg(old(self).regs@[i].0)
                            && final(self).regs@ == old(self).regs@.update(i, (old(self).regs@[i].0, true))
                            && final(self).stack == old(self).stack,
                        None => final(self).regs == old(self).regs && match first_free_slot(old(self).stack@) {
                            Some(i) => r.location == RegLocation::Stack(i as usize) && final(self).stack@ == old(self).stack@.update(i, true),
                            None => r.location == RegLocation::Stack(old(self).stack@.len() as usize)
                                && final(self).stack@ == old(self).stack@.push(true),
                        },
                    }
                },
            },
    {
        if let Some(location) = self.lookup(value) {
            return RegAddress { value, location, owned: false };
        }
        let mut i: usize = 0;
        while i < self.regs.len()
            invariant
                i <= self.regs@.len(),
                self.regs == old(self).regs,
                self.stack == old(self).stack,
                self.special_regs == old(self).special_regs,
                self.mapping == old(self).mapping,
                forall|j: int| 0 <= j < i ==> (#[trigger] self.regs@[j]).1,
            decreases self.regs.len() - i,
        {
            if !self.regs[i].1 {
                let reg = self.regs[i].0;
                self.regs.set(i, (reg, true));
                let location = RegLocation::Reg(reg);
                self.mapping.push((value, Some(copy_loc(&location))));
                proof {
                    assert(self.mapping@.drop_last() =~= old(self).mapping@);
                    if places_apart(*old(self)) {
                        lemma_apart_after_reg(*old(self), *self, value, i as int);
                    }
                    let rs = old(self).regs@;
                    let c = choose|k: int| 0 <= k < rs.len() && !(#[trigger] rs[k]).1 && forall|j: int| 0 <= j < k ==> (#[trigger] rs[j]).1;
                    assert(c == i) by {
                        if c < i {
                            assert(rs[c].1);
                        } else if c > i {
                            assert(rs[i as int].1);
                        }
                    }
                }
                return RegAddress { value, location, owned: true };
            }
            i = i + 1;
        }
        proof {
            assert(!exists|k: int| 0 <= k < old(self).regs@.len() && !(#[trigger] old(self).regs@[k]).1);
        }
        let index = self.alloc_stack_slot();
        let location = RegLocation::Stack(index);
        self.mapping.push((value, Some(copy_loc(&location))));
        proof {
            assert(self.mapping@.drop_last() =~= old(self).mapping@);
            if places_apart(*old(self)) {
                lemma_apart_after_stack(*old(self), *self, value, index);
            }
        }
        RegAddress { value, location, owned: true }
    }

    /// Places `value` in parameter register `index`, which must not be in use.
    pub fn register_param(&mut self, value: u64, index: usize) -> (r: RegAddress)
        requires
            index < 8,
            old(self).special_regs@.len() == 8,
            forall|i: int| 0 <= i < 8 ==> (#[trigger] old(self).special_regs@[i]).0 == RegName::Param(i as usize),
            !old(self).special_regs@[index as int].1,
        ensures
            final(self).regs == old(self).regs,
            final(self).special_regs == old(self).special_regs,
            final(self).stack == old(self).stack,
            final(self).mapping@ == old(self).mapping@.push((value, Some(RegLocation::Reg(RegName::Param(index))))),
            r.value == value && r.location == RegLocation::Reg(RegName::Param(index)) && r.owned,
    {
        let location = RegLocation::Reg(RegName::Param(index));
        self.mapping.push((value, Some(copy_loc(&location))));
        RegAddress { value, location, owned: true }
    }

    /// Frees `location` where it is the place of `value`, unbinding the value.
    pub fn free_location(&mut self, value: u64, location: RegLocation)
        requires
            loc_of(old(self).mapping@, value) == Some(location) ==> match location {
                RegLocation::Reg(reg) => exists|i: int| 0 <= i < old(self).regs@.len() + old(self).special_regs@.len()
                    && (if i < old(self).regs@.len() { (#[trigger] old(self).regs@[i]).0 == reg } else {
                        old(self).special_regs@[i - old(self).regs@.len()].0 == reg }),
                RegLocation::Stack(_) => true,
            },
        ensures
            places_apart(*old(self)) ==> places_apart(*final(self)),
            frees(*old(self), *final(self), value, location),
    {
        let current = self.lookup(value);
        let matches = match &current {
            Some(l) => same_loc(l, &location),
            None => false,
        };
        if !matches {
            return;
        }
        let ghost freed = location;
        self.mapping.push((value, None));
        proof {
            assert(self.mapping@.drop_last() =~= old(self).mapping@);
        }
        match location {
            RegLocation::Reg(reg) => {
                let mut i: usize = 0;
                while i < self.regs.len()
                    invariant
                        i <= self.regs@.len(),
                        self.regs == old(self).regs,
                        self.special_regs == old(self).special_regs,
                        self.stack == old(self).stack,
                        self.mapping@ == old(self).mapping@.push((value, None)),
                        forall|j: int| 0 <= j < i ==> (#[trigger] self.regs@[j]).0 != reg,
                    decreases self.regs.len() - i,
                {
                    if self.regs[i].0 == reg {
                        self.regs.set(i, (reg, false));
                        proof {
                            let rs = old(self).regs@;
                            let c = choose|k: int| 0 <= k < rs.len() && (#[trigger] rs[k]).0 == reg && forall|j: int| 0 <= j < k ==> (#[trigger] rs[j]).0 != reg;
                            assert(c == i) by {
                                if c < i {
                                    assert(rs[c].0 != reg);
                                } else if c > i {
                                    assert(rs[i as int].0 == reg);
                                }
                            }
                            if places_apart(*old(self)) {
                                lemma_apart_after_free(*old(self), *self, value, freed);
                            }
                        }
                        return;
                    }
                    i = i + 1;
                }
                let mut k: usize = 0;
                while k < self.special_regs.len()
                    invariant
                        k <= self.special_regs@.len(),
                        self.special_regs == old(self).special_regs,
                        self.regs == old(self).regs,
                        self.stack == old(self).stack,
                        self.mapping@ == old(self).mapping@.push((value, None)),
                        forall|j: int| 0 <= j < old(self).regs@.len() ==> (#[trigger] old(self).regs@[j]).0 != reg,
                        forall|j: int| 0 <= j < k ==> (#[trigger] self.special_regs@[j]).0 != reg,
                    decreases self.special_regs.len() - k,
                {
                    if self.special_regs[k].0 == reg {
                        self.special_regs.set(k, (reg, false));
                        proof {
                            let rs = old(self).special_regs@;
                            let c = choose|m: int| 0 <= m < rs.len() && (#[trigger] rs[m]).0 == reg && forall|j: int| 0 <= j < m ==> (#[trigger] rs[j]).0 != reg;
                            assert(c == k) by {
                                if c < k {
                                    assert(rs[c].0 != reg);
                                } else if c > k {
                                    assert(rs[k as int].0 == reg);
                                }
                            }
                            if places_apart(*old(self)) {
                                lemma_apart_after_free(*old(self), *self, value, freed);
                            }
                        }
                        return;
                    }
                    k = k + 1;
                }
                proof {
                    let n = old(self).regs@.len();
                    let w = choose|i: int| 0 <= i < n + old(self).special_regs@.len()
                        && (if i < n { (#[trigger] old(self).regs@[i]).0 == reg } else {
                            old(self).special_regs@[i - n].0 == reg });
                    if w < n {
                        assert(old(self).regs@[w].0 != reg);
                    } else {
                        assert(self.special_regs@[w - n].0 != reg);
                    }
                }
            }
            RegLocation::Stack(index) => {
                if index < self.stack.len() {
                    self.stack.set(index, false);
                }
                proof {
                    if places_apart(*old(self)) {
                        lemma_apart_after_free(*old(self), *self, value, freed);
                    }
                }
            }
        }
    }

    /// Gives back a place handed out with ownership.
    pub fn release(&mut self, addr: RegAddress)
        requires
            addr.owned && loc_of(old(self).mapping@, addr.value) == Some(addr.location) ==> match addr.location {
                RegLocation::Reg(reg) => exists|i: int| 0 <= i < old(self).regs@.len() + old(self).special_regs@.len()
                    && (if i < old(self).regs@.len() { (#[trigger] old(self).regs@[i]).0 == reg } else {
                        old(self).special_regs@[i - old(self).regs@.len()].0 == reg }),
                RegLocation::Stack(_) => true,
            },
        ensures
            !addr.owned ==> *final(self) == *old(self),
            addr.owned ==> frees(*old(self), *final(self), addr.value, addr.location),
            places_apart(*old(self)) ==> places_apart(*final(self)),
    {
        if addr.owned {
            self.free_location(addr.value, addr.location);
        }
    }

    /// The number of stack slots handed out at most at once.
    pub fn max_stack_size(&self) -> (n: usize)
        ensures
            n == self.stack@.len(),
    {
        self.stack.len()
    }
}

} // verus!
