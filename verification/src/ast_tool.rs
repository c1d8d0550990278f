use vstd::prelude::*;
use crate::lalr::{binary_const, eval_binary_checked, BType, BinaryOp, SBType, Type, UnaryOp};
use crate::table::{assoc, Table};

pub mod background;
pub mod layouts;
pub mod symbols;
pub use background::Background;
pub use symbols::{flatten_var_decl, gen_unary_koopa_ir, resolve_decl_value_type, static_functions};

verus! {

broadcast use vstd::std_specs::vec::group_vec_axioms;

// ---------------------------------------------------------------------------
// Value types of the Koopa back end.

/// The shape of a stored value.
#[derive(Debug)]
pub enum ValueType {
    Int,
    Struct(String),
    Pointer(Box<ValueType>),
    Array(usize, Box<ValueType>),
}

/// The view of a value type.
pub enum SValueType {
    Int,
    Struct(Seq<char>),
    Pointer(Box<SValueType>),
    Array(usize, Box<SValueType>),
}

impl View for ValueType {
    type V = SValueType;

    open spec fn view(&self) -> SValueType
        decreases self,
    {
        match self {
            ValueType::Int => SValueType::Int,
            ValueType::Struct(n) => SValueType::Struct(n@),
            ValueType::Pointer(b) => SValueType::Pointer(Box::new((**b).view())),
            ValueType::Array(n, b) => SValueType::Array(*n, Box::new((**b).view())),
        }
    }
}

/// A type holds `void` somewhere.
pub open spec fn mentions_void(t: SBType) -> bool
    decreases t,
{
    match t {
        SBType::Void => true,
        SBType::Promise(inner) => mentions_void(*inner),
        SBType::Ptr(inner) => mentions_void(*inner),
        SBType::Array(_, inner) => mentions_void(*inner),
        _ => false,
    }
}

/// The value type of a source type; a promise is stored as its result.
pub open spec fn spec_value_type(t: SBType) -> SValueType
    decreases t,
{
    match t {
        SBType::I32 => SValueType::Int,
        SBType::Struct(n) => SValueType::Struct(n),
        SBType::Promise(inner) => spec_value_type(*inner),
        SBType::Ptr(inner) => SValueType::Pointer(Box::new(spec_value_type(*inner))),
        SBType::Array(n, inner) => SValueType::Array(n, Box::new(spec_value_type(*inner))),
        SBType::Void => SValueType::Int,
    }
}

/// Nested arrays of `int` with the given lengths, outermost first.
pub open spec fn spec_from_dims(dims: Seq<usize>) -> SValueType
    decreases dims.len(),
{
    if dims.len() == 0 {
        SValueType::Int
    } else {
        SValueType::Array(dims[0], Box::new(spec_from_dims(dims.drop_first())))
    }
}

impl ValueType {
    /// The value type of `btype`; `void` is no storable value.
    pub fn from_btype(btype: &BType) -> (t: Self)
        requires
            !mentions_void(btype@),
        ensures
            t@ == spec_value_type(btype@),
        decreases btype,
    {
        match btype {
            BType::I32 => ValueType::Int,
            BType::Struct(name) => ValueType::Struct(name.clone()),
            BType::Promise(inner) => ValueType::from_btype(inner),
            BType::Ptr(inner) => ValueType::Pointer(Box::new(ValueType::from_btype(inner))),
            BType::Array(len, inner) => ValueType::Array(*len, Box::new(ValueType::from_btype(inner))),
            BType::Void => ValueType::Int,
        }
    }

    pub fn copy(&self) -> (t: Self)
        ensures
            t@ == self@,
        decreases self,
    {
        match self {
            ValueType::Int => ValueType::Int,
            ValueType::Struct(n) => ValueType::Struct(n.clone()),
            ValueType::Pointer(b) => ValueType::Pointer(Box::new((**b).copy())),
            ValueType::Array(n, b) => ValueType::Array(*n, Box::new((**b).copy())),
        }
    }

    pub fn from_dims(dims: &[usize]) -> (t: Self)
        ensures
            t@ == spec_from_dims(dims@),
    {
        let mut ty = ValueType::Int;
        let mut i = dims.len();
        proof {
            assert(dims@.skip(i as int) =~= Seq::<usize>::empty());
        }
        while i > 0
            invariant
                i <= dims@.len(),
                ty@ == spec_from_dims(dims@.skip(i as int)),
            decreases i,
        {
            i = i - 1;
            proof {
                assert(dims@.skip(i as int).drop_first() =~= dims@.skip(i + 1));
            }
            ty = ValueType::Array(dims[i], Box::new(ty));
        }
        proof {
            assert(dims@.skip(0) =~= dims@);
        }
        ty
    }
}

#[derive(Debug)]
pub struct StructFieldLayout {
    pub name: String,
    pub ty: ValueType,
    pub offset: usize,
}

#[derive(Debug)]
pub struct StructLayout {
    pub name: String,
    pub fields: Vec<StructFieldLayout>,
    pub size: usize,
    pub align: usize,
}

// ---------------------------------------------------------------------------
// Renaming variables apart by scope.

/// Hands out numbered names per variable and forgets the ones declared after
/// a point in time when a scope is left.
#[derive(Debug)]
pub struct RenameManager {
    timestamp: usize,
    rename_count: Table<usize>,
    rename_record: Table<Vec<(usize, usize)>>,
}

/// `records` with the entries made after time `t` removed from its end.
pub open spec fn trim_after(records: Seq<(usize, usize)>, t: usize) -> Seq<(usize, usize)>
    decreases records.len(),
{
    if records.len() > 0 && records.last().0 > t {
        trim_after(records.drop_last(), t)
    } else {
        records
    }
}

impl RenameManager {
    /// How many times `name` has been declared.
    pub closed spec fn count_of(&self, name: Seq<char>) -> nat {
        match assoc(self.rename_count.entries@, name) {
            Some(c) => c as nat,
            None => 0,
        }
    }

    /// The declarations of `name` still visible: time of declaration and number.
    pub closed spec fn records_of(&self, name: Seq<char>) -> Seq<(usize, usize)> {
        match assoc(self.rename_record.entries@, name) {
            Some(v) => v@,
            None => Seq::empty(),
        }
    }

    pub closed spec fn now(&self) -> usize {
        self.timestamp
    }

    /// Records are in order of time, never from the future, and numbered
    /// upwards up to the count of their name.
    pub closed spec fn wf(&self) -> bool {
        forall|name: Seq<char>| {
            let r = #[trigger] self.records_of(name);
            &&& forall|i: int, j: int| 0 <= i < j < r.len() ==> r[i].0 <= r[j].0 && r[i].1 < r[j].1
            &&& forall|i: int| 0 <= i < r.len() ==> r[i].0 <= self.timestamp && 1 <= r[i].1 <= self.count_of(name)
        }
    }

    pub fn new() -> (m: Self)
        ensures
            m.wf(),
            m.now() == 0,
            forall|name: Seq<char>| #[trigger] m.count_of(name) == 0 && m.records_of(name) == Seq::<(usize, usize)>::empty(),
    {
        RenameManager { timestamp: 0, rename_count: Table::new(), rename_record: Table::new() }
    }

    /// Declares `name` at the current time: its count goes up, and unless it
    /// was already declared at this very time, the new number is recorded
    /// and returned.
    pub fn new_variable(&mut self, name: String) -> (r: Option<usize>)
        requires
            old(self).wf(),
            old(self).count_of(name@) < usize::MAX,
        ensures
            final(self).wf(),
            final(self).now() == old(self).now(),
            final(self).count_of(name@) == old(self).count_of(name@) + 1,
            forall|other: Seq<char>| other != name@ ==> #[trigger] final(self).count_of(other) == old(self).count_of(other)
                && final(self).records_of(other) == old(self).records_of(other),
            ({
                let rec = old(self).records_of(name@);
                if rec.len() > 0 && rec.last().0 == old(self).now() {
                    &&& r is None
                    &&& final(self).records_of(name@) == rec
                } else {
                    &&& r == Some((old(self).count_of(name@) + 1) as usize)
                    &&& final(self).records_of(name@) == rec.push((old(self).now(), (old(self).count_of(name@) + 1) as usize))
                }
            }),
    {
        let count: usize = match self.rename_count.get(name.as_str()) {
            Some(c) => *c + 1,
            None => 1,
        };
        self.rename_count.insert(name.clone(), count);
        let ghost c1 = self.rename_count;
        proof {
            assert(forall|k: Seq<char>| k != name@ ==> #[trigger] c1.get_spec(k) == old(self).rename_count.get_spec(k));
            assert(c1.get_spec(name@) == Some(count));
        }
        let mut times: Vec<(usize, usize)> = Vec::new();
        match self.rename_record.get(name.as_str()) {
            Some(v) => {
                let mut i: usize = 0;
                while i < v.len()
                    invariant
                        i <= v@.len(),
                        times@ == v@.take(i as int),
                    decreases v.len() - i,
                {
                    times.push(v[i]);
                    proof {
                        assert(v@.take(i + 1) =~= v@.take(i as int).push(v@[i as int]));
                    }
                    i = i + 1;
                }
                proof {
                    assert(v@.take(v@.len() as int) =~= v@);
                }
            }
            None => {}
        }
        proof {
            assert(times@ == old(self).records_of(name@));
            assert(self.count_of(name@) == old(self).count_of(name@) + 1);
            assert forall|other: Seq<char>| other != name@ implies #[trigger] self.count_of(other) == old(self).count_of(other) by {
                assert(self.rename_count.get_spec(other) == old(self).rename_count.get_spec(other));
            }
        }
        let n = times.len();
        if n > 0 && times[n - 1].0 == self.timestamp {
            proof {
                assert forall|nm: Seq<char>| {
                    let r = #[trigger] self.records_of(nm);
                    &&& forall|i: int, j: int| 0 <= i < j < r.len() ==> r[i].0 <= r[j].0 && r[i].1 < r[j].1
                    &&& forall|i: int| 0 <= i < r.len() ==> r[i].0 <= self.timestamp && 1 <= r[i].1 <= self.count_of(nm)
                } by {
                    assert(self.records_of(nm) == old(self).records_of(nm));
                    assert(self.rename_count == c1);
                    if nm == name@ {
                        assert(c1.get_spec(nm) == Some(count));
                    } else {
                        assert(c1.get_spec(nm) == old(self).rename_count.get_spec(nm));
                    }
                    assert(old(self).count_of(nm) <= self.count_of(nm));
                }
            }
            return None;
        }
        let ghost nv = name@;
        let ghost rec = times@;
        times.push((self.timestamp, count));
        let ghost pushed = times@;
        let ghost rr = self.rename_record;
        self.rename_record.insert(name, times);
        proof {
            assert(pushed == rec.push((self.timestamp, count)));
            assert(self.records_of(nv) == pushed);
            assert forall|other: Seq<char>| other != nv implies #[trigger] self.records_of(other) == old(self).records_of(other) by {
                assert(self.rename_record.get_spec(other) == rr.get_spec(other));
            }
            assert forall|nm: Seq<char>| {
                let r = #[trigger] self.records_of(nm);
                &&& forall|i: int, j: int| 0 <= i < j < r.len() ==> r[i].0 <= r[j].0 && r[i].1 < r[j].1
                &&& forall|i: int| 0 <= i < r.len() ==> r[i].0 <= self.timestamp && 1 <= r[i].1 <= self.count_of(nm)
            } by {
                if nm == nv {
                    assert(self.rename_count == c1);
                    let r = self.records_of(nm);
                    assert(rec == old(self).records_of(nm));
                    assert(self.count_of(nm) == old(self).count_of(nm) + 1);
                    assert forall|i: int, j: int| 0 <= i < j < r.len() implies r[i].0 <= r[j].0 && r[i].1 < r[j].1 by {
                        if j == r.len() - 1 {
                            assert(r[i] == rec[i]);
                        } else {
                            assert(r[i] == rec[i] && r[j] == rec[j]);
                        }
                    }
                    assert forall|i: int| 0 <= i < r.len() implies r[i].0 <= self.timestamp && 1 <= r[i].1 <= self.count_of(nm) by {
                        if i < r.len() - 1 {
                            assert(r[i] == rec[i]);
                        }
                    }
                } else {
                    assert(self.records_of(nm) == old(self).records_of(nm));
                    assert(self.rename_count == c1);
                    assert(c1.get_spec(nm) == old(self).rename_count.get_spec(nm));
                }
            }
            assert(rr == old(self).rename_record);
            assert(self.rename_count == c1);
            assert forall|other: Seq<char>| other != nv implies #[trigger] self.count_of(other) == old(self).count_of(other)
                && self.records_of(other) == old(self).records_of(other) by {
                assert(self.rename_record.get_spec(other) == rr.get_spec(other));
                assert(c1.get_spec(other) == old(self).rename_count.get_spec(other));
            }
        }
        Some(count)
    }

    /// The number of the visible declaration of `name`, if any.
    pub fn get_current_name(&self, name: &String) -> (r: Option<usize>)
        ensures
            r == ({
                let rec = self.records_of(name@);
                if rec.len() == 0 {
                    None
                } else if rec.last().0 <= self.now() {
                    Some(rec.last().1)
                } else {
                    None
                }
            }),
    {
        match self.rename_record.get(name.as_str()) {
            Some(times) => {
                let n = times.len();
                if n == 0 {
                    None
                } else {
                    let (ts, count) = times[n - 1];
                    if ts <= self.timestamp {
                        Some(count)
                    } else {
                        None
                    }
                }
            }
            None => None,
        }
    }

    /// Forgets every declaration made after time `timestamp`.
    pub fn rollback(&mut self, timestamp: usize)
        requires
            old(self).wf(),
        ensures
            final(self).wf(),
            final(self).now() == old(self).now(),
            forall|name: Seq<char>| #[trigger] final(self).count_of(name) == old(self).count_of(name)
                && final(self).records_of(name) == trim_after(old(self).records_of(name), timestamp),
    {
        let ghost before = self.rename_record.entries@;
        let mut entries: Vec<(String, Vec<(usize, usize)>)> = Vec::new();
        let mut k: usize = 0;
        while k < self.rename_record.entries.len()
            invariant
                k <= before.len(),
                self.rename_record.entries@ == before,
                entries@.len() == k,
                forall|j: int| 0 <= j < k ==> (#[trigger] entries@[j]).0 == before[j].0
                    && entries@[j].1@ == trim_after(before[j].1@, timestamp),
            decreases before.len() - k,
        {
            let v = &self.rename_record.entries[k].1;
            let mut n = v.len();
            proof {
                assert(v@.take(n as int) =~= v@);
            }
            while n > 0 && v[n - 1].0 > timestamp
                invariant
                    n <= v@.len(),
                    trim_after(v@.take(n as int), timestamp) == trim_after(v@, timestamp),
                decreases n,
            {
                proof {
                    assert(v@.take(n as int).drop_last() =~= v@.take(n - 1));
                }
                n = n - 1;
            }
            let mut times: Vec<(usize, usize)> = Vec::new();
            let mut i: usize = 0;
            while i < n
                invariant
                    n <= v@.len(),
                    i <= n,
                    times@ == v@.take(i as int),
                decreases n - i,
            {
                times.push(v[i]);
                proof {
                    assert(v@.take(i + 1) =~= v@.take(i as int).push(v@[i as int]));
                }
                i = i + 1;
            }
            proof {
                if n > 0 {
                    assert(v@.take(n as int).last() == v@[n - 1]);
                }
                assert(trim_after(v@.take(n as int), timestamp) == v@.take(n as int));
            }
            entries.push((self.rename_record.entries[k].0.clone(), times));
            k = k + 1;
        }
        self.rename_record = Table { entries };
        proof {
            assert forall|name: Seq<char>| #[trigger] self.records_of(name) == trim_after(old(self).records_of(name), timestamp) by {
                lemma_assoc_trim(before, self.rename_record.entries@, name, timestamp);
            }
            assert forall|name: Seq<char>| {
                let r = #[trigger] self.records_of(name);
                &&& forall|i: int, j: int| 0 <= i < j < r.len() ==> r[i].0 <= r[j].0 && r[i].1 < r[j].1
                &&& forall|i: int| 0 <= i < r.len() ==> r[i].0 <= self.timestamp && 1 <= r[i].1 <= self.count_of(name)
            } by {
                lemma_trim_prefix(old(self).records_of(name), timestamp);
                let r0 = old(self).records_of(name);
                assert(self.count_of(name) == old(self).count_of(name));
            }
        }
    }

    pub fn increment(&mut self)
        requires
            old(self).wf(),
            old(self).now() < usize::MAX,
        ensures
            final(self).wf(),
            final(self).now() == old(self).now() + 1,
            forall|name: Seq<char>| #[trigger] final(self).count_of(name) == old(self).count_of(name)
                && final(self).records_of(name) == old(self).records_of(name),
    {
        self.timestamp = self.timestamp + 1;
        proof {
            assert forall|nm: Seq<char>| {
                let r = #[trigger] self.records_of(nm);
                &&& forall|i: int, j: int| 0 <= i < j < r.len() ==> r[i].0 <= r[j].0 && r[i].1 < r[j].1
                &&& forall|i: int| 0 <= i < r.len() ==> r[i].0 <= self.timestamp && 1 <= r[i].1 <= self.count_of(nm)
            } by {
                assert(self.records_of(nm) == old(self).records_of(nm));
            }
        }
    }

    pub fn record(&self) -> (t: usize)
        ensures
            t == self.now(),
    {
        self.timestamp
    }
}

/// Trimming keeps a prefix.
pub proof fn lemma_trim_prefix(records: Seq<(usize, usize)>, t: usize)
    ensures
        trim_after(records, t).len() <= records.len(),
        forall|i: int| 0 <= i < trim_after(records, t).len() ==> #[trigger] trim_after(records, t)[i] == records[i],
    decreases records.len(),
{
    if records.len() > 0 && records.last().0 > t {
        lemma_trim_prefix(records.drop_last(), t);
    }
}

/// Rolling back to time `t` forgets exactly the declarations made after `t`:
/// the records are in order of time, so those kept come first and were made
/// at or before `t`, and all those dropped were made later.
pub proof fn lemma_rollback_forgets_exactly_later(m: RenameManager, name: Seq<char>, t: usize)
    requires
        m.wf(),
    ensures
        ({
            let r = m.records_of(name);
            let k = trim_after(r, t).len();
            &&& k <= r.len()
            &&& forall|i: int| 0 <= i < k ==> #[trigger] r[i].0 <= t && trim_after(r, t)[i] == r[i]
            &&& forall|i: int| k <= i < r.len() ==> #[trigger] r[i].0 > t
        }),
{
    let r = m.records_of(name);
    lemma_trim_sorted(r, t);
}

/// The name visible through `records` at time `now`: the latest declaration,
/// if it was made by then.
pub open spec fn current_of(records: Seq<(usize, usize)>, now: usize) -> Option<usize> {
    if records.len() == 0 {
        None
    } else if records.last().0 <= now {
        Some(records.last().1)
    } else {
        None
    }
}

/// Rolling back to a moment restores what every name meant then: if `m1`
/// holds the records of `m0` and, after them, only declarations made after
/// `m0`'s time, then trimming `m1` to that time gives back `m0`'s records,
/// and with them every name visible in `m0`.
pub proof fn lemma_rollback_restores(m0: RenameManager, m1: RenameManager, name: Seq<char>)
    requires
        m0.wf(),
        m0.records_of(name).len() <= m1.records_of(name).len(),
        m1.records_of(name).take(m0.records_of(name).len() as int) == m0.records_of(name),
        forall|i: int| m0.records_of(name).len() <= i < m1.records_of(name).len() ==> #[trigger] m1.records_of(name)[i].0 > m0.now(),
    ensures
        trim_after(m1.records_of(name), m0.now()) == m0.records_of(name),
        current_of(trim_after(m1.records_of(name), m0.now()), m0.now()) == current_of(m0.records_of(name), m0.now()),
{
    let r0 = m0.records_of(name);
    let r1 = m1.records_of(name);
    lemma_trim_extension(r0, r1, m0.now());
}

proof fn lemma_trim_extension(r0: Seq<(usize, usize)>, r1: Seq<(usize, usize)>, t: usize)
    requires
        r0.len() <= r1.len(),
        r1.take(r0.len() as int) == r0,
        forall|i: int| r0.len() <= i < r1.len() ==> #[trigger] r1[i].0 > t,
        forall|i: int| 0 <= i < r0.len() ==> #[trigger] r0[i].0 <= t,
    ensures
        trim_after(r1, t) == r0,
    decreases r1.len(),
{
    if r1.len() > r0.len() {
        assert(r1.last().0 > t);
        let p = r1.drop_last();
        assert(p.take(r0.len() as int) =~= r1.take(r0.len() as int));
        assert forall|i: int| r0.len() <= i < p.len() implies #[trigger] p[i].0 > t by {
            assert(p[i] == r1[i]);
        }
        lemma_trim_extension(r0, p, t);
    } else {
        assert(r1 =~= r0) by {
            assert(r1.take(r0.len() as int) =~= r1);
        }
        if r1.len() > 0 {
            assert(r0[r0.len() - 1].0 <= t);
        }
    }
}

proof fn lemma_trim_sorted(r: Seq<(usize, usize)>, t: usize)
    requires
        forall|i: int, j: int| 0 <= i < j < r.len() ==> r[i].0 <= r[j].0,
    ensures
        ({
            let k = trim_after(r, t).len();
            &&& k <= r.len()
            &&& forall|i: int| 0 <= i < k ==> #[trigger] r[i].0 <= t && trim_after(r, t)[i] == r[i]
            &&& forall|i: int| k <= i < r.len() ==> #[trigger] r[i].0 > t
        }),
    decreases r.len(),
{
    lemma_trim_prefix(r, t);
    if r.len() > 0 && r.last().0 > t {
        let p = r.drop_last();
        lemma_trim_sorted(p, t);
        assert forall|i: int| trim_after(r, t).len() <= i < r.len() implies #[trigger] r[i].0 > t by {
            if i < r.len() - 1 {
                assert(p[i] == r[i]);
            }
        }
        assert forall|i: int| 0 <= i < trim_after(r, t).len() implies #[trigger] r[i].0 <= t && trim_after(r, t)[i] == r[i] by {
            assert(p[i] == r[i]);
        }
    } else if r.len() > 0 {
        assert forall|i: int| 0 <= i < r.len() implies #[trigger] r[i].0 <= t by {
            if i < r.len() - 1 {
                assert(r[i].0 <= r[r.len() - 1].0);
            }
        }
    }
}

proof fn lemma_assoc_trim(
    before: Seq<(String, Vec<(usize, usize)>)>,
    after: Seq<(String, Vec<(usize, usize)>)>,
    name: Seq<char>,
    t: usize,
)
    requires
        before.len() == after.len(),
        forall|j: int| 0 <= j < before.len() ==> (#[trigger] after[j]).0 == before[j].0
            && after[j].1@ == trim_after(before[j].1@, t),
    ensures
        (match assoc(after, name) { Some(v) => v@, None => Seq::empty() })
            == trim_after(match assoc(before, name) { Some(v) => v@, None => Seq::empty() }, t),
    decreases before.len(),
{
    if before.len() > 0 {
        let n = before.len() - 1;
        assert(after[n].0 == before[n].0);
        if before.last().0@ != name {
            lemma_assoc_trim(before.drop_last(), after.drop_last(), name, t);
        }
    }
}

// ---------------------------------------------------------------------------
// Symbols and constant folding.

#[derive(Debug)]
pub struct GlobalSymbols {
    pub global_variable: Table<ValueType>,
    pub global_function: Table<(Type, Vec<BType>)>,
    pub static_function: Table<(Type, Vec<BType>)>,
    pub async_function: Table<bool>,
}

impl GlobalSymbols {
    pub fn new() -> (g: Self)
        ensures
            g.global_variable.entries@.len() == 0,
            g.global_function.entries@.len() == 0,
            g.static_function.entries@.len() == 0,
            g.async_function.entries@.len() == 0,
    {
        GlobalSymbols {
            global_variable: Table::new(),
            global_function: Table::new(),
            static_function: Table::new(),
            async_function: Table::new(),
        }
    }
}

/// The value of a constant unary expression; `&` and `*` have none.
pub fn eval_unary_const(op: &UnaryOp, value: i32) -> (r: i32)
    requires
        *op is Pos || *op is Neg || *op is Not,
        *op is Neg ==> value != i32::MIN,
    ensures
        r == (match *op {
            UnaryOp::Pos => value as int,
            UnaryOp::Neg => -value,
            _ => if value == 0 { 1int } else { 0int },
        }),
{
    match op {
        UnaryOp::Pos => value,
        UnaryOp::Neg => -value,
        UnaryOp::Not => if value == 0 { 1 } else { 0 },
        UnaryOp::Addr | UnaryOp::Deref => 0,
    }
}

/// The value of a constant binary expression; it must not overflow nor
/// divide by zero.
pub fn eval_binary_const(op: &BinaryOp, lhs: i32, rhs: i32) -> (r: i32)
    requires
        binary_const(*op, lhs, rhs) matches Some(Some(_)),
    ensures
        Some(Some(r)) == binary_const(*op, lhs, rhs),
{
    match eval_binary_checked(*op, lhs, rhs) {
        Some(Some(v)) => v,
        _ => 0,
    }
}

} // verus!
