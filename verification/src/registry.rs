//! The schema registry: the persisted mapping from table name to inferred
//! schema that bridges the inference pass and the extraction pass.
//!
//! Entries are kept strictly ascending by table name, so the registry always
//! renders in one deterministic key order. Inserting an already-present name
//! replaces its schema.

use vstd::prelude::*;

use crate::schema::{SchemaModel, TableSchema};

verus! {

/// Strict lexicographic order on character sequences, by Unicode scalar
/// value.
pub open spec fn str_lt(a: Seq<char>, b: Seq<char>) -> bool
    decreases a.len(),
{
    if b.len() == 0 {
        false
    } else if a.len() == 0 {
        true
    } else if a.first() != b.first() {
        (a.first() as u32) < (b.first() as u32)
    } else {
        str_lt(a.drop_first(), b.drop_first())
    }
}

/// The order is irreflexive and asymmetric, and two sequences neither of
/// which precedes the other are equal.
pub proof fn lemma_str_lt_trichotomy(a: Seq<char>, b: Seq<char>)
    ensures
        !(str_lt(a, b) && str_lt(b, a)),
        !str_lt(a, b) && !str_lt(b, a) ==> a == b,
    decreases a.len(),
{
    if a.len() == 0 && b.len() == 0 {
        assert(a =~= b);
    } else if a.len() > 0 && b.len() > 0 && a.first() == b.first() {
        lemma_str_lt_trichotomy(a.drop_first(), b.drop_first());
        if !str_lt(a, b) && !str_lt(b, a) {
            assert(a.drop_first() == b.drop_first());
            assert(a =~= seq![a.first()].add(a.drop_first()));
            assert(b =~= seq![b.first()].add(b.drop_first()));
        }
    } else if a.len() > 0 && b.len() > 0 {
        if !str_lt(a, b) && !str_lt(b, a) {
            assert((a.first() as u32) == (b.first() as u32));
            vstd::utf8::char_u32_cast(a.first(), a.first() as u32);
            vstd::utf8::char_u32_cast(b.first(), b.first() as u32);
        }
    }
}

/// The order is transitive.
pub proof fn lemma_str_lt_trans(a: Seq<char>, b: Seq<char>, c: Seq<char>)
    requires
        str_lt(a, b),
        str_lt(b, c),
    ensures
        str_lt(a, c),
    decreases a.len(),
{
    if b.len() == 0 || c.len() == 0 {
    } else if a.len() == 0 {
    } else {
        if a.first() == b.first() {
            if b.first() == c.first() {
                lemma_str_lt_trans(a.drop_first(), b.drop_first(), c.drop_first());
            }
        } else {
            if b.first() == c.first() {
            } else {
            }
        }
    }
}

/// One registry entry: a table name and its schema.
pub struct RegEntry {
    pub name: String,
    pub schema: TableSchema,
}

/// Mathematical image of a registry entry.
pub struct RegEntryModel {
    pub name: Seq<char>,
    pub schema: SchemaModel,
}

impl View for RegEntry {
    type V = RegEntryModel;

    open spec fn view(&self) -> RegEntryModel {
        RegEntryModel { name: self.name@, schema: self.schema@ }
    }
}

/// The models of a sequence of entries.
pub open spec fn entry_models(es: Seq<RegEntry>) -> Seq<RegEntryModel> {
    es.map(|i: int, e: RegEntry| e@)
}

/// Whether entries are strictly ascending by name.
pub open spec fn entries_sorted(es: Seq<RegEntryModel>) -> bool {
    forall|i: int, j: int| 0 <= i < j < es.len() ==> str_lt(#[trigger] es[i].name,
        #[trigger] es[j].name)
}

/// Where a new name lands among sorted entries: behind every smaller name,
/// replacing an equal one.
pub open spec fn spec_insert_entry(es: Seq<RegEntryModel>, e: RegEntryModel) -> Seq<
    RegEntryModel,
>
    decreases es.len(),
{
    if es.len() == 0 {
        seq![e]
    } else if str_lt(es.last().name, e.name) {
        es.push(e)
    } else if es.last().name == e.name {
        es.drop_last().push(e)
    } else {
        spec_insert_entry(es.drop_last(), e).push(es.last())
    }
}

/// The first schema recorded under a name, if any.
pub open spec fn spec_lookup(es: Seq<RegEntryModel>, name: Seq<char>) -> Option<SchemaModel>
    decreases es.len(),
{
    if es.len() == 0 {
        None
    } else if es.first().name == name {
        Some(es.first().schema)
    } else {
        spec_lookup(es.drop_first(), name)
    }
}

/// The persisted mapping from table name to schema, strictly ascending by
/// name.
pub struct SchemaRegistry {
    pub entries: Vec<RegEntry>,
}

impl View for SchemaRegistry {
    type V = Seq<RegEntryModel>;

    open spec fn view(&self) -> Seq<RegEntryModel> {
        entry_models(self.entries@)
    }
}

impl SchemaRegistry {
    /// The registry's invariant: names strictly ascending.
    pub open spec fn wf(&self) -> bool {
        entries_sorted(self@)
    }

    /// An empty registry.
    pub fn new() -> (r: SchemaRegistry)
        ensures
            r.wf(),
            r@ == Seq::<RegEntryModel>::empty(),
    {
        let r = SchemaRegistry { entries: Vec::new() };
        proof {
            assert(r@ =~= Seq::<RegEntryModel>::empty());
        }
        r
    }

    /// How many tables the registry holds.
    pub fn len(&self) -> (n: usize)
        ensures
            n == self@.len(),
    {
        self.entries.len()
    }

    /// Records a schema under a table name, keeping the name order and
    /// replacing any schema already recorded under that name.
    pub fn insert(&mut self, name: String, schema: TableSchema)
        requires
            old(self).wf(),
        ensures
            final(self).wf(),
            final(self)@ == spec_insert_entry(old(self)@, RegEntryModel { name: name@,
                schema: schema@ }),
    {
        let ghost es = self@;
        let ghost em = RegEntryModel { name: name@, schema: schema@ };
        let mut i: usize = 0;
        while i < self.entries.len() && str_less(&self.entries[i].name, &name)
            invariant
                i <= self@.len(),
                self@ == es,
                forall|k: int| 0 <= k < i ==> str_lt((#[trigger] es[k]).name, name@),
            decreases self@.len() - i,
        {
            i += 1;
        }
        let n = self.entries.len();
        if i < n && string_eq(&self.entries[i].name, &name) {
            self.entries.remove(i);
            self.entries.insert(i, RegEntry { name, schema });
            proof {
                assert(self@ =~= es.subrange(0, i as int).push(em).add(es.subrange(
                    i + 1, es.len() as int)));
                lemma_insert_entry_replace(es, em, i as int);
                lemma_insert_entry_keeps_sorted(es, em, i as int, true);
            }
        } else {
            proof {
                if i < n {
                    lemma_str_lt_trichotomy(es[i as int].name, name@);
                }
            }
            self.entries.insert(i, RegEntry { name, schema });
            proof {
                assert(self@ =~= es.subrange(0, i as int).push(em).add(es.subrange(
                    i as int, es.len() as int)));
                lemma_insert_entry_fresh(es, em, i as int);
                lemma_insert_entry_keeps_sorted(es, em, i as int, false);
            }
        }
    }

    /// The schema recorded under a name, if any.
    pub fn get(&self, name: &str) -> (r: Option<&TableSchema>)
        ensures
            match r {
                Some(s) => spec_lookup(self@, name@) == Some(s@),
                None => spec_lookup(self@, name@) is None,
            },
    {
        let ghost es = self@;
        proof {
            assert(es.skip(0) =~= es);
        }
        let mut i: usize = 0;
        while i < self.entries.len()
            invariant
                i <= self@.len(),
                self@ == es,
                spec_lookup(es, name@) == spec_lookup(es.skip(i as int), name@),
            decreases self@.len() - i,
        {
            proof {
                lemma_lookup_unfold(es, i as int, name@);
            }
            if str_eq(self.entries[i].name.as_str(), name) {
                return Some(&self.entries[i].schema);
            }
            i += 1;
        }
        proof {
            assert(es.skip(es.len() as int) =~= Seq::<RegEntryModel>::empty());
        }
        None
    }
}

/// A schema recorded under a name is what a later lookup of that name
/// finds: recording never loses or changes it.
pub proof fn lemma_lookup_after_insert(es: Seq<RegEntryModel>, e: RegEntryModel)
    requires
        entries_sorted(es),
    ensures
        spec_lookup(spec_insert_entry(es, e), e.name) == Some(e.schema),
    decreases es.len(),
{
    if es.len() == 0 {
        let r = spec_insert_entry(es, e);
        assert(r.first() == e);
    } else if str_lt(es.last().name, e.name) {
        assert forall|k: int| 0 <= k < es.len() implies (#[trigger] es[k]).name != e.name by {
            if k < es.len() - 1 {
                lemma_str_lt_trans(es[k].name, es.last().name, e.name);
            }
            lemma_str_lt_trichotomy(es[k].name, e.name);
        }
        lemma_lookup_at_end(es, e);
    } else if es.last().name == e.name {
        assert forall|k: int| 0 <= k < es.drop_last().len() implies (
            #[trigger] es.drop_last()[k]).name != e.name by {
            assert(str_lt(es[k].name, es.last().name));
            lemma_str_lt_trichotomy(es[k].name, e.name);
        }
        lemma_lookup_at_end(es.drop_last(), e);
    } else {
        assert(entries_sorted(es.drop_last()));
        lemma_lookup_after_insert(es.drop_last(), e);
        lemma_lookup_keeps_prefix(spec_insert_entry(es.drop_last(), e), es.last(), e.name);
    }
}

proof fn lemma_lookup_at_end(es: Seq<RegEntryModel>, e: RegEntryModel)
    requires
        forall|k: int| 0 <= k < es.len() ==> (#[trigger] es[k]).name != e.name,
    ensures
        spec_lookup(es.push(e), e.name) == Some(e.schema),
    decreases es.len(),
{
    if es.len() > 0 {
        assert(es.push(e).first() == es.first());
        assert(es.push(e).drop_first() =~= es.drop_first().push(e));
        assert forall|k: int| 0 <= k < es.drop_first().len() implies (
            #[trigger] es.drop_first()[k]).name != e.name by {
            assert(es.drop_first()[k] == es[k + 1]);
        }
        lemma_lookup_at_end(es.drop_first(), e);
    } else {
        assert(es.push(e).first() == e);
    }
}

proof fn lemma_lookup_keeps_prefix(es: Seq<RegEntryModel>, last: RegEntryModel,
    name: Seq<char>)
    requires
        spec_lookup(es, name) is Some,
    ensures
        spec_lookup(es.push(last), name) == spec_lookup(es, name),
    decreases es.len(),
{
    assert(es.len() > 0);
    assert(es.push(last).first() == es.first());
    assert(es.push(last).drop_first() =~= es.drop_first().push(last));
    if es.first().name != name {
        lemma_lookup_keeps_prefix(es.drop_first(), last, name);
    }
}

proof fn lemma_lookup_unfold(es: Seq<RegEntryModel>, i: int, name: Seq<char>)
    requires
        0 <= i < es.len(),
    ensures
        es.skip(i).first() == es[i],
        es[i].name == name ==> spec_lookup(es.skip(i), name) == Some(es[i].schema),
        es[i].name != name ==> spec_lookup(es.skip(i), name) == spec_lookup(es.skip(i + 1),
            name),
{
    assert(es.skip(i).first() == es[i]);
    assert(es.skip(i).drop_first() =~= es.skip(i + 1));
}

proof fn lemma_insert_entry_replace(es: Seq<RegEntryModel>, e: RegEntryModel, i: int)
    requires
        entries_sorted(es),
        0 <= i < es.len(),
        es[i].name == e.name,
    ensures
        spec_insert_entry(es, e) == es.subrange(0, i).push(e).add(es.subrange(i + 1,
            es.len() as int)),
    decreases es.len(),
{
    if i == es.len() - 1 {
        assert(!str_lt(es.last().name, e.name)) by {
            lemma_str_lt_trichotomy(es.last().name, e.name);
        }
        assert(es.drop_last().push(e) =~= es.subrange(0, i).push(e).add(es.subrange(i + 1,
            es.len() as int)));
    } else {
        assert(str_lt(e.name, es.last().name)) by {
            assert(str_lt(es[i].name, es.last().name));
        }
        assert(!str_lt(es.last().name, e.name) && es.last().name != e.name) by {
            lemma_str_lt_trichotomy(es.last().name, e.name);
        }
        assert(entries_sorted(es.drop_last()));
        assert(es.drop_last()[i] == es[i]);
        lemma_insert_entry_replace(es.drop_last(), e, i);
        assert(es.drop_last().subrange(0, i) =~= es.subrange(0, i));
        assert(es.drop_last().subrange(i + 1, es.len() - 1) =~= es.subrange(i + 1, es.len()
            - 1));
        assert(spec_insert_entry(es.drop_last(), e).push(es.last()) =~= es.subrange(0,
            i).push(e).add(es.subrange(i + 1, es.len() as int)));
    }
}

proof fn lemma_insert_entry_fresh(es: Seq<RegEntryModel>, e: RegEntryModel, i: int)
    requires
        entries_sorted(es),
        0 <= i <= es.len(),
        forall|k: int| 0 <= k < i ==> str_lt((#[trigger] es[k]).name, e.name),
        i < es.len() ==> str_lt(e.name, es[i].name),
    ensures
        spec_insert_entry(es, e) == es.subrange(0, i).push(e).add(es.subrange(i,
            es.len() as int)),
    decreases es.len(),
{
    if es.len() == 0 {
        assert(spec_insert_entry(es, e) =~= es.subrange(0, 0).push(e).add(es.subrange(0, 0)));
    } else if i == es.len() {
        assert(str_lt(es.last().name, e.name));
        assert(es.push(e) =~= es.subrange(0, i).push(e).add(es.subrange(i, es.len() as int)));
    } else {
        assert(str_lt(e.name, es.last().name)) by {
            if i == es.len() - 1 {
            } else {
                assert(str_lt(e.name, es[i].name));
                assert(str_lt(es[i].name, es.last().name));
                lemma_str_lt_trans(e.name, es[i].name, es.last().name);
            }
        }
        assert(!str_lt(es.last().name, e.name) && es.last().name != e.name) by {
            lemma_str_lt_trichotomy(es.last().name, e.name);
        }
        assert(entries_sorted(es.drop_last()));
        lemma_insert_entry_fresh(es.drop_last(), e, i);
        assert(es.drop_last().subrange(0, i) =~= es.subrange(0, i));
        assert(es.drop_last().subrange(i, es.len() - 1) =~= es.subrange(i, es.len() - 1));
        assert(spec_insert_entry(es.drop_last(), e).push(es.last()) =~= es.subrange(0,
            i).push(e).add(es.subrange(i, es.len() as int)));
    }
}

proof fn lemma_insert_entry_keeps_sorted(es: Seq<RegEntryModel>, e: RegEntryModel, i: int,
    replace: bool)
    requires
        entries_sorted(es),
        0 <= i <= es.len(),
        forall|k: int| 0 <= k < i ==> str_lt((#[trigger] es[k]).name, e.name),
        replace ==> i < es.len() && es[i].name == e.name,
        !replace && i < es.len() ==> str_lt(e.name, es[i].name),
    ensures
        entries_sorted(spec_insert_entry(es, e)),
{
    if replace {
        lemma_insert_entry_replace(es, e, i);
        let r = es.subrange(0, i).push(e).add(es.subrange(i + 1, es.len() as int));
        assert forall|p: int, q: int| 0 <= p < q < r.len() implies str_lt(
            (#[trigger] r[p]).name, (#[trigger] r[q]).name) by {
            let pe = if p < i { es[p] } else if p == i { e } else { es[p] };
            let qe = if q < i { es[q] } else if q == i { e } else { es[q] };
            assert(r[p] == pe);
            assert(r[q] == qe);
            if p == i {
                assert(str_lt(es[i].name, es[q].name));
            } else if q == i {
                assert(str_lt(es[p].name, es[i].name));
            }
        }
    } else {
        lemma_insert_entry_fresh(es, e, i);
        let r = es.subrange(0, i).push(e).add(es.subrange(i, es.len() as int));
        assert forall|p: int, q: int| 0 <= p < q < r.len() implies str_lt(
            (#[trigger] r[p]).name, (#[trigger] r[q]).name) by {
            let pe = if p < i { es[p] } else if p == i { e } else { es[p - 1] };
            let qe = if q < i { es[q] } else if q == i { e } else { es[q - 1] };
            assert(r[p] == pe);
            assert(r[q] == qe);
            if p == i && q > i {
                if q - 1 > i {
                    lemma_str_lt_trans(e.name, es[i].name, es[q - 1].name);
                }
            } else if q == i {
            } else if p < i && q > i {
                if q - 1 == i {
                } else {
                }
            }
        }
    }
}

/// Whether one string precedes another in the registry's name order.
fn str_less(a: &String, b: &String) -> (r: bool)
    ensures
        r == str_lt(a@, b@),
{
    let an = a.as_str().unicode_len();
    let bn = b.as_str().unicode_len();
    proof {
        assert(a@.skip(0) =~= a@);
        assert(b@.skip(0) =~= b@);
    }
    let mut i: usize = 0;
    loop
        invariant
            an == a@.len(),
            bn == b@.len(),
            i <= an,
            i <= bn,
            str_lt(a@, b@) == str_lt(a@.skip(i as int), b@.skip(i as int)),
        decreases an - i,
    {
        proof {
            lemma_str_skip_unfold(a@, b@, i as int);
        }
        if i >= bn {
            proof {
                assert(b@.skip(i as int) =~= Seq::<char>::empty());
            }
            return false;
        }
        if i >= an {
            proof {
                assert(a@.skip(i as int) =~= Seq::<char>::empty());
                assert(b@.skip(i as int).len() > 0);
            }
            return true;
        }
        let ac = a.as_str().get_char(i);
        let bc = b.as_str().get_char(i);
        if ac != bc {
            return (ac as u32) < (bc as u32);
        }
        i += 1;
    }
}

proof fn lemma_str_skip_unfold(a: Seq<char>, b: Seq<char>, i: int)
    requires
        0 <= i <= a.len(),
        0 <= i <= b.len(),
    ensures
        i < b.len() ==> b.skip(i).len() > 0 && b.skip(i).first() == b[i],
        i < a.len() ==> a.skip(i).len() > 0 && a.skip(i).first() == a[i],
        i < a.len() && i < b.len() ==> a.skip(i).drop_first() == a.skip(i + 1) && b.skip(
            i).drop_first() == b.skip(i + 1),
{
    if i < a.len() {
        assert(a.skip(i).first() == a[i]);
        assert(a.skip(i).drop_first() =~= a.skip(i + 1));
    }
    if i < b.len() {
        assert(b.skip(i).first() == b[i]);
        assert(b.skip(i).drop_first() =~= b.skip(i + 1));
    }
}

/// Whether two strings hold the same characters.
fn string_eq(a: &String, b: &String) -> (r: bool)
    ensures
        r == (a@ == b@),
{
    str_eq(a.as_str(), b.as_str())
}

/// Whether two string slices hold the same characters.
pub fn str_eq(a: &str, b: &str) -> (r: bool)
    ensures
        r == (a@ == b@),
{
    let an = a.unicode_len();
    let bn = b.unicode_len();
    if an != bn {
        proof {
            assert(a@.len() != b@.len());
        }
        return false;
    }
    let mut i: usize = 0;
    while i < an
        invariant
            an == a@.len(),
            bn == b@.len(),
            an == bn,
            i <= an,
            forall|j: int| 0 <= j < i ==> a@[j] == b@[j],
        decreases an - i,
    {
        if a.get_char(i) != b.get_char(i) {
            return false;
        }
        i += 1;
    }
    proof {
        assert(a@ =~= b@);
    }
    true
}

} // verus!
