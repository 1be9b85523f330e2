//! Canonical signature merging: folding every category's signatures into
//! one merged signature per distinct name. The first category to define a
//! name fixes the field key set (base-key-set semantics); later categories
//! may only fill missing attributes of already-declared fields.

use vstd::prelude::*;

use crate::fieldmap::{
    field_entries, fm_entries, fm_get, fm_insert, fm_new, lemma_has_key_exists,
    lemma_lookup_unique, map_keys, map_lookup, unique_keys, Entries, FieldMap,
};
use crate::schema::{lemma_merge_value_self, spec_merge_value};
use crate::schema::FieldSchema;

verus! {

/// A capability signature: optional ordered argument fields and optional
/// ordered return fields.
pub struct Signature {
    pub args: Option<FieldMap>,
    pub returns: Option<FieldMap>,
}

/// View of a signature: the entries of each mapping, where present.
pub type SigV = (Option<Entries>, Option<Entries>);

/// View of a sequence of named signatures, in order.
pub type SigEntries = Seq<(Seq<char>, SigV)>;

impl View for Signature {
    type V = SigV;

    open spec fn view(&self) -> SigV {
        (
            match self.args {
                Option::Some(m) => Option::Some(field_entries(m)),
                Option::None => Option::None,
            },
            match self.returns {
                Option::Some(m) => Option::Some(field_entries(m)),
                Option::None => Option::None,
            },
        )
    }
}

/// A named group of signatures, as one category defines them.
pub struct Category {
    pub name: String,
    pub signatures: Vec<(String, Signature)>,
}

impl View for Category {
    type V = (Seq<char>, SigEntries);

    open spec fn view(&self) -> (Seq<char>, SigEntries) {
        (self.name@, self.signatures@.map_values(|p: (String, Signature)| (p.0@, p.1@)))
    }
}

/// The entries of an optional mapping; an absent mapping has none.
pub open spec fn or_empty(o: Option<Entries>) -> Entries {
    match o {
        Option::Some(e) => e,
        Option::None => Seq::empty(),
    }
}

/// Base-key-set merge of two field mappings: the result's keys are exactly
/// the base's keys, in the base's order; a field also present in the newer
/// mapping becomes the newer value enriched with the base attributes it
/// lacked; a field absent from the newer mapping keeps its base value.
pub open spec fn spec_merge_map(base: Entries, newer: Entries) -> Entries {
    Seq::new(
        base.len(),
        |i: int|
            (
                base[i].0,
                match map_lookup(newer, base[i].0) {
                    Option::Some(v) => spec_merge_value(v, base[i].1),
                    Option::None => base[i].1,
                },
            ),
    )
}

/// One merge step for a signature name already accumulated: each mapping
/// of the accumulator, where present, absorbs the incoming mapping under
/// base-key-set semantics; an accumulator mapping still absent is taken
/// verbatim from the incoming signature.
pub open spec fn spec_merge_sig(existing: SigV, newer: SigV) -> SigV {
    (
        Option::Some(
            match existing.0 {
                Option::Some(b) => spec_merge_map(b, or_empty(newer.0)),
                Option::None => or_empty(newer.0),
            },
        ),
        Option::Some(
            match existing.1 {
                Option::Some(b) => spec_merge_map(b, or_empty(newer.1)),
                Option::None => or_empty(newer.1),
            },
        ),
    )
}

/// The signature stored under `n`, if any (first entry with that name).
pub open spec fn sig_lookup(ss: SigEntries, n: Seq<char>) -> Option<SigV>
    decreases ss.len(),
{
    if ss.len() == 0 {
        None
    } else if ss[0].0 == n {
        Some(ss[0].1)
    } else {
        sig_lookup(ss.drop_first(), n)
    }
}

/// Whether some entry is named `n`.
pub open spec fn sig_has(ss: SigEntries, n: Seq<char>) -> bool {
    sig_lookup(ss, n) is Some
}

/// The first index of an entry named `n`; the length if there is none.
pub open spec fn sig_index(ss: SigEntries, n: Seq<char>) -> int
    decreases ss.len(),
{
    if ss.len() == 0 {
        0
    } else if ss[0].0 == n {
        0
    } else {
        1 + sig_index(ss.drop_first(), n)
    }
}

/// Folding one named signature into the accumulator: a known name is
/// merged in place (keeping its position), a new name is appended.
pub open spec fn spec_fold_one(acc: SigEntries, n: Seq<char>, sv: SigV) -> SigEntries {
    if sig_has(acc, n) {
        acc.update(sig_index(acc, n), (n, spec_merge_sig(acc[sig_index(acc, n)].1, sv)))
    } else {
        acc.push((n, sv))
    }
}

/// Folding a sequence of named signatures into an accumulator, in order.
pub open spec fn spec_accumulate_from(acc: SigEntries, ss: SigEntries) -> SigEntries
    decreases ss.len(),
{
    if ss.len() == 0 {
        acc
    } else {
        spec_accumulate_from(spec_fold_one(acc, ss[0].0, ss[0].1), ss.drop_first())
    }
}

/// The canonical accumulator for a whole sequence of named signatures.
pub open spec fn spec_accumulate(ss: SigEntries) -> SigEntries {
    spec_accumulate_from(Seq::empty(), ss)
}

/// All signatures of all categories, flattened in category order.
pub open spec fn cat_sigs(cats: Seq<(Seq<char>, SigEntries)>) -> SigEntries {
    cats.map_values(|c: (Seq<char>, SigEntries)| c.1).flatten()
}

/// Both mappings of a signature, where present, have distinct keys.
pub open spec fn sig_wf(sv: SigV) -> bool {
    unique_keys(or_empty(sv.0)) && unique_keys(or_empty(sv.1))
}

/// Every signature of the sequence is well formed.
pub open spec fn sigs_wf(ss: SigEntries) -> bool {
    forall|i: int| 0 <= i < ss.len() ==> sig_wf(#[trigger] ss[i].1)
}

/// The merged mapping keeps the base's keys, in order, and stays free of
/// duplicate keys when the base is.
pub proof fn lemma_merge_map_keys(base: Entries, newer: Entries)
    ensures
        spec_merge_map(base, newer).len() == base.len(),
        map_keys(spec_merge_map(base, newer)) =~= map_keys(base),
        unique_keys(base) ==> unique_keys(spec_merge_map(base, newer)),
{
    let r = spec_merge_map(base, newer);
    assert(forall|i: int| 0 <= i < base.len() ==> r[i].0 == base[i].0);
}

/// Base-key-set merge of two field mappings; see `spec_merge_map`.
pub fn merge_map(base: &FieldMap, newer: &FieldMap) -> (r: FieldMap)
    requires
        unique_keys(field_entries(*base)),
    ensures
        field_entries(r) == spec_merge_map(field_entries(*base), field_entries(*newer)),
        unique_keys(field_entries(r)),
{
    let ghost bes = field_entries(*base);
    let ghost nes = field_entries(*newer);
    let ghost goal = spec_merge_map(bes, nes);
    let mut out = fm_new();
    let mut rest = fm_entries(base);
    let ghost mut i: int = 0;
    proof {
        assert(field_entries(out) =~= goal.take(0));
    }
    while rest.len() > 0
        invariant
            unique_keys(bes),
            nes == field_entries(*newer),
            goal == spec_merge_map(bes, nes),
            i + rest.len() == bes.len(),
            0 <= i <= bes.len(),
            forall|j: int|
                0 <= j < rest@.len() ==> (#[trigger] rest@[j].0@, rest@[j].1@) == bes[i + j],
            field_entries(out) == goal.take(i),
        decreases rest.len(),
    {
        let ghost prev = rest@;
        let (k, schema) = rest.remove(0);
        proof {
            assert(rest@ =~= prev.drop_first());
            assert(forall|j: int| 0 <= j < rest@.len() ==> rest@[j] == prev[j + 1]);
            assert((k@, schema@) == bes[i]);
            lemma_has_key_exists(field_entries(out), k@);
            assert(forall|a: int| 0 <= a < i ==> goal.take(i)[a] == goal[a]);
            assert(forall|a: int| 0 <= a < i ==> goal[a].0 == bes[a].0);
            assert(!map_has(field_entries(out), k@)) by {
                if exists|a: int| 0 <= a < i && field_entries(out)[a].0 == k@ {
                    let a = choose|a: int| 0 <= a < i && field_entries(out)[a].0 == k@;
                    assert(bes[a].0 == bes[i].0);
                }
            }
        }
        let merged = match fm_get(newer, &k) {
            Some(nv) => {
                let mut nv = nv;
                crate::schema::merge_value(&mut nv, &schema);
                nv
            },
            None => schema,
        };
        proof {
            assert((k@, merged@) == goal[i]);
        }
        fm_insert(&mut out, k, merged);
        proof {
            i = i + 1;
            assert(field_entries(out) =~= goal.take(i));
        }
    }
    proof {
        assert(goal.take(i) =~= goal);
        lemma_merge_map_keys(bes, nes);
        assert(forall|a: int, b: int| 0 <= a < b < goal.len() ==> goal[a].0 != goal[b].0);
    }
    out
}

spec fn map_has(es: Entries, k: Seq<char>) -> bool {
    exists|a: int| 0 <= a < es.len() && es[a].0 == k
}

/// The first accumulator position named `name`, if any.
fn find_sig(acc: &Vec<(String, Signature)>, name: &String) -> (r: Option<usize>)
    ensures
        match r {
            Some(j) => {
                &&& 0 <= j < acc@.len()
                &&& acc@[j as int].0@ == name@
                &&& forall|jj: int| 0 <= jj < j ==> acc@[jj].0@ != name@
            },
            None => forall|jj: int| 0 <= jj < acc@.len() ==> acc@[jj].0@ != name@,
        },
{
    let mut j: usize = 0;
    while j < acc.len()
        invariant
            0 <= j <= acc@.len(),
            forall|jj: int| 0 <= jj < j ==> acc@[jj].0@ != name@,
        decreases acc.len() - j,
    {
        if acc[j].0 == *name {
            return Some(j);
        }
        j += 1;
    }
    None
}

/// A name is stored exactly when some entry carries it.
pub proof fn lemma_sig_has_exists(ss: SigEntries, n: Seq<char>)
    ensures
        sig_has(ss, n) <==> exists|i: int| 0 <= i < ss.len() && ss[i].0 == n,
    decreases ss.len(),
{
    if ss.len() > 0 {
        lemma_sig_has_exists(ss.drop_first(), n);
        if ss[0].0 == n {
        } else if exists|i: int| 0 <= i < ss.drop_first().len() && ss.drop_first()[i].0 == n {
            let i = choose|i: int| 0 <= i < ss.drop_first().len() && ss.drop_first()[i].0 == n;
            assert(ss[i + 1].0 == n);
        } else {
            assert(forall|i: int| 0 < i < ss.len() ==> ss[i].0 == ss.drop_first()[i - 1].0);
        }
    }
}

/// The first index carrying `n` characterizes `sig_index`.
pub proof fn lemma_sig_index_unique(ss: SigEntries, n: Seq<char>, i: int)
    requires
        0 <= i < ss.len(),
        ss[i].0 == n,
        forall|j: int| 0 <= j < i ==> ss[j].0 != n,
    ensures
        sig_has(ss, n),
        sig_index(ss, n) == i,
        sig_lookup(ss, n) == Some(ss[i].1),
    decreases i,
{
    if i > 0 {
        assert(ss.drop_first()[i - 1] == ss[i]);
        assert(forall|j: int| 0 <= j < i - 1 ==> ss.drop_first()[j] == ss[j + 1]);
        lemma_sig_index_unique(ss.drop_first(), n, i - 1);
    }
}

/// View of a vector of named signatures.
pub open spec fn pairs_view(v: Seq<(String, Signature)>) -> SigEntries {
    v.map_values(|p: (String, Signature)| (p.0@, p.1@))
}

/// Folds every category's signatures, in category order then declaration
/// order, into one merged signature per distinct name. A name's first
/// definition is taken verbatim; each later definition of the same name is
/// absorbed under base-key-set semantics (`spec_merge_sig`), keeping the
/// name's position in the accumulator.
pub fn merge_signatures(categories: Vec<Category>) -> (r: Vec<(String, Signature)>)
    requires
        sigs_wf(cat_sigs(categories@.map_values(|c: Category| c@))),
    ensures
        r@.map_values(|p: (String, Signature)| (p.0@, p.1@))
            == spec_accumulate(cat_sigs(categories@.map_values(|c: Category| c@))),
{
    let ghost all = cat_sigs(categories@.map_values(|c: Category| c@));
    let mut flat: Vec<(String, Signature)> = Vec::new();
    let mut cats = categories;
    proof {
        assert(pairs_view(flat@) + all =~= all);
    }
    while cats.len() > 0
        invariant
            pairs_view(flat@) + cat_sigs(cats@.map_values(|c: Category| c@)) == all,
        decreases cats.len(),
    {
        let ghost catsv = cats@.map_values(|c: Category| c@);
        let ghost sseq = catsv.map_values(|c: (Seq<char>, SigEntries)| c.1);
        let mut c = cats.remove(0);
        let mut s = c.signatures;
        proof {
            assert(sseq.len() > 0);
            assert(sseq.flatten() == sseq.first() + sseq.drop_first().flatten());
            assert(sseq.first() == pairs_view(s@));
            assert(cats@.map_values(|c: Category| c@).map_values(
                |c: (Seq<char>, SigEntries)| c.1) =~= sseq.drop_first());
        }
        let ghost flat_before = pairs_view(flat@);
        flat.append(&mut s);
        proof {
            assert(pairs_view(flat@) =~= flat_before + sseq.first());
            assert((flat_before + sseq.first()) + sseq.drop_first().flatten()
                =~= flat_before + (sseq.first() + sseq.drop_first().flatten()));
        }
    }
    proof {
        assert(cats@.map_values(|c: Category| c@).map_values(
            |c: (Seq<char>, SigEntries)| c.1) =~= Seq::<SigEntries>::empty());
        assert(Seq::<SigEntries>::empty().flatten() =~= Seq::<(Seq<char>, SigV)>::empty());
        assert(pairs_view(flat@) =~= all);
    }
    let mut acc: Vec<(String, Signature)> = Vec::new();
    let mut rest = flat;
    proof {
        assert(pairs_view(acc@) =~= Seq::<(Seq<char>, SigV)>::empty());
    }
    while rest.len() > 0
        invariant
            spec_accumulate_from(pairs_view(acc@), pairs_view(rest@)) == spec_accumulate(all),
            sigs_wf(pairs_view(rest@)),
            sigs_wf(pairs_view(acc@)),
        decreases rest.len(),
    {
        let ghost accv = pairs_view(acc@);
        let ghost remv = pairs_view(rest@);
        let (name, sign) = rest.remove(0);
        proof {
            assert(remv[0] == (name@, sign@));
            assert(pairs_view(rest@) =~= remv.drop_first());
            assert(sig_wf(sign@)) by {
                assert(remv[0].1 == sign@);
            }
        }
        match find_sig(&acc, &name) {
            None => {
                proof {
                    lemma_sig_has_exists(accv, name@);
                    assert(!sig_has(accv, name@));
                    assert(spec_fold_one(accv, name@, sign@) == accv.push((name@, sign@)));
                }
                acc.push((name, sign));
                proof {
                    assert(pairs_view(acc@) =~= accv.push((name@, sign@)));
                }
            },
            Some(j) => {
                proof {
                    assert(accv[j as int].0 == name@);
                    assert(forall|jj: int| 0 <= jj < j ==> accv[jj].0 != name@);
                    lemma_sig_index_unique(accv, name@, j as int);
                }
                let (nm, existing) = acc.remove(j);
                let ghost exv = existing@;
                proof {
                    assert(exv == accv[j as int].1);
                    assert(sig_wf(exv));
                }
                let merged_args = match (existing.args, sign.args) {
                    (Some(b), Some(n2)) => merge_map(&b, &n2),
                    (Some(b), None) => {
                        let e = fm_new();
                        merge_map(&b, &e)
                    },
                    (None, Some(n2)) => n2,
                    (None, None) => fm_new(),
                };
                let merged_returns = match (existing.returns, sign.returns) {
                    (Some(b), Some(n2)) => merge_map(&b, &n2),
                    (Some(b), None) => {
                        let e = fm_new();
                        merge_map(&b, &e)
                    },
                    (None, Some(n2)) => n2,
                    (None, None) => fm_new(),
                };
                let gs = Signature { args: Some(merged_args), returns: Some(merged_returns) };
                proof {
                    assert(gs@ == spec_merge_sig(exv, sign@));
                    assert(sig_wf(gs@)) by {
                        match exv.0 {
                            Option::Some(b) => {
                                lemma_merge_map_keys(b, or_empty(sign@.0));
                            },
                            Option::None => {},
                        }
                        match exv.1 {
                            Option::Some(b) => {
                                lemma_merge_map_keys(b, or_empty(sign@.1));
                            },
                            Option::None => {},
                        }
                    }
                }
                acc.insert(j, (nm, gs));
                proof {
                    let pair = (name@, spec_merge_sig(exv, sign@));
                    assert(spec_fold_one(accv, name@, sign@) == accv.update(j as int, pair));
                    assert(pairs_view(acc@) =~= accv.update(j as int, pair));
                }
            },
        }
    }
    proof {
        assert(pairs_view(rest@).len() == 0);
    }
    acc
}

/// Merging a well-formed mapping with itself leaves it unchanged.
pub proof fn lemma_merge_map_self(b: Entries)
    requires
        unique_keys(b),
    ensures
        spec_merge_map(b, b) == b,
{
    assert forall|i: int| 0 <= i < b.len() implies spec_merge_map(b, b)[i] == b[i] by {
        lemma_lookup_unique(b, i);
        lemma_merge_value_self(b[i].1);
    }
    assert(spec_merge_map(b, b) =~= b);
}

/// Law: merging a signature with itself is idempotent. Re-merging
/// identical input produces unchanged field mappings for both the
/// arguments and the returns.
pub proof fn lemma_merge_sig_self(sv: SigV)
    requires
        sig_wf(sv),
    ensures
        spec_merge_sig(sv, sv).0 == Some(or_empty(sv.0)),
        spec_merge_sig(sv, sv).1 == Some(or_empty(sv.1)),
{
    match sv.0 {
        Option::Some(b) => {
            lemma_merge_map_self(b);
        },
        Option::None => {},
    }
    match sv.1 {
        Option::Some(b) => {
            lemma_merge_map_self(b);
        },
        Option::None => {},
    }
}

/// Law: re-merging identical input leaves the accumulated signature
/// unchanged. Folding a well-formed signature and then folding the very
/// same definition again yields one entry whose field mappings are those
/// of the single definition.
pub proof fn lemma_remerge_idempotent(n: Seq<char>, sv: SigV)
    requires
        sig_wf(sv),
    ensures
        ({
            let twice = spec_accumulate(seq![(n, sv), (n, sv)]);
            &&& twice.len() == 1
            &&& twice[0].0 == n
            &&& or_empty(twice[0].1.0) == or_empty(sv.0)
            &&& or_empty(twice[0].1.1) == or_empty(sv.1)
        }),
{
    let ss = seq![(n, sv), (n, sv)];
    let empty = Seq::<(Seq<char>, SigV)>::empty();
    assert(!sig_has(empty, n));
    let acc1 = spec_fold_one(empty, n, sv);
    assert(acc1 == empty.push((n, sv)));
    assert(acc1.len() == 1 && acc1[0] == (n, sv));
    assert(sig_has(acc1, n) && sig_index(acc1, n) == 0);
    let acc2 = spec_fold_one(acc1, n, sv);
    assert(acc2 == acc1.update(0, (n, spec_merge_sig(sv, sv))));
    lemma_merge_sig_self(sv);
    assert(ss[0].0 == n && ss[0].1 == sv);
    assert(ss.drop_first() =~= seq![(n, sv)]);
    assert(ss.drop_first().drop_first() =~= empty);
    assert(spec_accumulate_from(empty, ss)
        == spec_accumulate_from(acc1, ss.drop_first()));
    assert(ss.drop_first()[0] == (n, sv));
    assert(spec_accumulate_from(acc1, ss.drop_first())
        == spec_accumulate_from(acc2, ss.drop_first().drop_first()));
    assert(spec_accumulate_from(acc2, ss.drop_first().drop_first()) == acc2);
    assert(spec_accumulate(ss) == acc2);
}

/// The first entry named `n` characterizes `sig_index` and `sig_lookup`.
pub proof fn lemma_sig_index_char(ss: SigEntries, n: Seq<char>)
    requires
        sig_has(ss, n),
    ensures
        0 <= sig_index(ss, n) < ss.len(),
        ss[sig_index(ss, n)].0 == n,
        forall|j: int| 0 <= j < sig_index(ss, n) ==> ss[j].0 != n,
        sig_lookup(ss, n) == Some(ss[sig_index(ss, n)].1),
    decreases ss.len(),
{
    if ss[0].0 == n {
    } else {
        lemma_sig_index_char(ss.drop_first(), n);
        assert(forall|j: int| 0 < j < ss.len() ==> ss[j] == ss.drop_first()[j - 1]);
    }
}

/// Folding distributes over concatenation of the folded sequence.
proof fn lemma_acc_append(acc: SigEntries, a: SigEntries, b: SigEntries)
    ensures
        spec_accumulate_from(acc, a + b)
            == spec_accumulate_from(spec_accumulate_from(acc, a), b),
    decreases a.len(),
{
    if a.len() == 0 {
        assert(a + b =~= b);
    } else {
        assert((a + b)[0] == a[0]);
        assert((a + b).drop_first() =~= a.drop_first() + b);
        lemma_acc_append(spec_fold_one(acc, a[0].0, a[0].1), a.drop_first(), b);
    }
}

/// Folding signatures none of which is named `n` never introduces `n`.
proof fn lemma_acc_no_name(acc: SigEntries, ss: SigEntries, n: Seq<char>)
    requires
        !sig_has(acc, n),
        forall|k: int| 0 <= k < ss.len() ==> ss[k].0 != n,
    ensures
        !sig_has(spec_accumulate_from(acc, ss), n),
    decreases ss.len(),
{
    if ss.len() > 0 {
        let m = ss[0].0;
        let acc2 = spec_fold_one(acc, m, ss[0].1);
        lemma_sig_has_exists(acc, n);
        lemma_sig_has_exists(acc2, n);
        if sig_has(acc, m) {
            lemma_sig_index_char(acc, m);
        }
        assert(!sig_has(acc2, n));
        assert(forall|k: int| 0 <= k < ss.drop_first().len() ==> ss.drop_first()[k].0 != n);
        lemma_acc_no_name(acc2, ss.drop_first(), n);
    }
}

/// Once an accumulator entry for `n` has both mappings present, folding
/// any further signatures keeps the entry first at its position with the
/// same key sets.
proof fn lemma_acc_keeps(acc: SigEntries, ss: SigEntries, n: Seq<char>, i: int)
    requires
        0 <= i < acc.len(),
        acc[i].0 == n,
        forall|j: int| 0 <= j < i ==> acc[j].0 != n,
        acc[i].1.0 is Some,
        acc[i].1.1 is Some,
    ensures
        ({
            let res = spec_accumulate_from(acc, ss);
            &&& 0 <= i < res.len()
            &&& res[i].0 == n
            &&& forall|j: int| 0 <= j < i ==> res[j].0 != n
            &&& res[i].1.0 is Some
            &&& res[i].1.1 is Some
            &&& map_keys(res[i].1.0->Some_0) == map_keys(acc[i].1.0->Some_0)
            &&& map_keys(res[i].1.1->Some_0) == map_keys(acc[i].1.1->Some_0)
        }),
    decreases ss.len(),
{
    if ss.len() > 0 {
        let m = ss[0].0;
        let sv = ss[0].1;
        let acc2 = spec_fold_one(acc, m, sv);
        lemma_sig_index_unique(acc, n, i);
        if m == n {
            let merged = spec_merge_sig(acc[i].1, sv);
            assert(acc2 == acc.update(i, (n, merged)));
            lemma_merge_map_keys(acc[i].1.0->Some_0, or_empty(sv.0));
            lemma_merge_map_keys(acc[i].1.1->Some_0, or_empty(sv.1));
            lemma_acc_keeps(acc2, ss.drop_first(), n, i);
        } else {
            if sig_has(acc, m) {
                lemma_sig_index_char(acc, m);
                let k = sig_index(acc, m);
                assert(k != i);
                assert(acc2 == acc.update(k, (m, spec_merge_sig(acc[k].1, sv))));
                assert(acc2[i] == acc[i]);
                assert(forall|j: int| 0 <= j < i ==> acc2[j].0 == acc[j].0);
            } else {
                assert(acc2 == acc.push((m, sv)));
                assert(acc2[i] == acc[i]);
            }
            lemma_acc_keeps(acc2, ss.drop_first(), n, i);
        }
    }
}

/// Law: the merged mappings' key sets for a name are exactly the key sets
/// of the first definition of that name, regardless of how many later
/// definitions the folded sequence holds — keys from later definitions
/// never appear. Stated for names whose first definition carries both
/// mappings.
pub proof fn lemma_first_seen_fixes_keys(ss: SigEntries, n: Seq<char>)
    requires
        sig_has(ss, n),
        ss[sig_index(ss, n)].1.0 is Some,
        ss[sig_index(ss, n)].1.1 is Some,
    ensures
        sig_has(spec_accumulate(ss), n),
        ({
            let first = ss[sig_index(ss, n)].1;
            let merged = sig_lookup(spec_accumulate(ss), n)->Some_0;
            &&& merged.0 is Some
            &&& merged.1 is Some
            &&& map_keys(merged.0->Some_0) == map_keys(first.0->Some_0)
            &&& map_keys(merged.1->Some_0) == map_keys(first.1->Some_0)
        }),
{
    let f = sig_index(ss, n);
    lemma_sig_index_char(ss, n);
    let pre = ss.take(f);
    let post = ss.skip(f);
    assert(ss =~= pre + post);
    lemma_acc_append(Seq::empty(), pre, post);
    let acc1 = spec_accumulate_from(Seq::empty(), pre);
    assert(forall|k: int| 0 <= k < pre.len() ==> pre[k].0 != n);
    assert(!sig_has(Seq::<(Seq<char>, SigV)>::empty(), n));
    lemma_acc_no_name(Seq::empty(), pre, n);
    assert(post[0] == ss[f]);
    let acc2 = spec_fold_one(acc1, n, ss[f].1);
    assert(acc2 == acc1.push((n, ss[f].1)));
    let i = acc1.len() as int;
    lemma_sig_has_exists(acc1, n);
    assert(forall|j: int| 0 <= j < i ==> acc2[j].0 == acc1[j].0);
    assert(spec_accumulate_from(acc1, post)
        == spec_accumulate_from(acc2, post.drop_first()));
    lemma_acc_keeps(acc2, post.drop_first(), n, i);
    let res = spec_accumulate(ss);
    assert(res == spec_accumulate_from(acc2, post.drop_first()));
    lemma_sig_index_unique(res, n, i);
}

} // verus!
