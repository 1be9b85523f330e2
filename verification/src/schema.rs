//! Field schemas: the typed description of one argument, return field or
//! configuration key, as an ordered list of named attributes (`type`,
//! bounds, defaults, ...), and the fill-missing-only attribute merge.

use vstd::prelude::*;

verus! {

/// One attribute of a field schema: a name and a textual value whose shape
/// this library does not interpret further.
#[derive(Clone)]
pub struct Attr {
    pub name: String,
    pub value: String,
}

impl View for Attr {
    type V = (Seq<char>, Seq<char>);

    open spec fn view(&self) -> (Seq<char>, Seq<char>) {
        (self.name@, self.value@)
    }
}

/// View of a field schema: its attributes, in insertion order.
pub type SchemaV = Seq<(Seq<char>, Seq<char>)>;

/// A field schema: the ordered attributes describing one field.
#[derive(Clone)]
pub struct FieldSchema {
    pub attrs: Vec<Attr>,
}

impl View for FieldSchema {
    type V = SchemaV;

    open spec fn view(&self) -> SchemaV {
        self.attrs@.map_values(|a: Attr| a@)
    }
}

/// The value of the first attribute called `name`, if any.
pub open spec fn attr_lookup(s: SchemaV, name: Seq<char>) -> Option<Seq<char>>
    decreases s.len(),
{
    if s.len() == 0 {
        None
    } else if s[0].0 == name {
        Some(s[0].1)
    } else {
        attr_lookup(s.drop_first(), name)
    }
}

/// Whether some attribute called `name` is present.
pub open spec fn has_attr(s: SchemaV, name: Seq<char>) -> bool {
    attr_lookup(s, name) is Some
}

/// Attribute-level fill-missing-only merge: every attribute of `s` whose
/// name is absent from the accumulated target is appended, in order;
/// attributes already present are left untouched.
pub open spec fn spec_merge_value(t: SchemaV, s: SchemaV) -> SchemaV
    decreases s.len(),
{
    if s.len() == 0 {
        t
    } else if has_attr(t, s[0].0) {
        spec_merge_value(t, s.drop_first())
    } else {
        spec_merge_value(t.push(s[0]), s.drop_first())
    }
}

proof fn lemma_attr_lookup_skip(s: SchemaV, name: Seq<char>, i: int)
    requires
        0 <= i <= s.len(),
        forall|j: int| 0 <= j < i ==> s[j].0 != name,
    ensures
        attr_lookup(s, name) == attr_lookup(s.skip(i), name),
    decreases i,
{
    if i > 0 {
        assert(s.drop_first().skip(i - 1) =~= s.skip(i));
        lemma_attr_lookup_skip(s.drop_first(), name, i - 1);
    } else {
        assert(s.skip(0) =~= s);
    }
}

impl FieldSchema {
    /// A schema with no attributes yet.
    pub fn new() -> (r: FieldSchema)
        ensures
            r@ == Seq::<(Seq<char>, Seq<char>)>::empty(),
    {
        let r = FieldSchema { attrs: Vec::new() };
        proof {
            assert(r@ =~= Seq::<(Seq<char>, Seq<char>)>::empty());
        }
        r
    }

    /// Appends one attribute.
    pub fn push_attr(&mut self, name: String, value: String)
        ensures
            final(self)@ == old(self)@.push((name@, value@)),
    {
        let ghost before = self@;
        self.attrs.push(Attr { name, value });
        proof {
            assert(self@ =~= before.push((self.attrs@[self.attrs@.len() - 1].name@,
                self.attrs@[self.attrs@.len() - 1].value@)));
        }
    }

    /// The value of the first attribute called `name`, if any.
    pub fn get_attr(&self, name: &String) -> (r: Option<String>)
        ensures
            match r {
                Some(v) => attr_lookup(self@, name@) == Some(v@),
                None => attr_lookup(self@, name@) is None,
            },
    {
        let mut i: usize = 0;
        while i < self.attrs.len()
            invariant
                0 <= i <= self.attrs.len(),
                forall|j: int| 0 <= j < i ==> self@[j].0 != name@,
            decreases self.attrs.len() - i,
        {
            if self.attrs[i].name == *name {
                proof {
                    lemma_attr_lookup_skip(self@, name@, i as int);
                    assert(self@.skip(i as int)[0] == self@[i as int]);
                }
                return Some(self.attrs[i].value.clone());
            }
            i += 1;
        }
        proof {
            lemma_attr_lookup_skip(self@, name@, i as int);
        }
        None
    }
}

/// Fill-missing-only merge of `source` into `target`: copies every
/// attribute of `source` whose name `target` lacks; attributes already
/// set on `target` are never overwritten.
pub fn merge_value(target: &mut FieldSchema, source: &FieldSchema)
    ensures
        final(target)@ == spec_merge_value(old(target)@, source@),
{
    let mut i: usize = 0;
    proof {
        assert(source@.skip(0) =~= source@);
    }
    while i < source.attrs.len()
        invariant
            0 <= i <= source.attrs.len(),
            spec_merge_value(old(target)@, source@)
                == spec_merge_value(target@, source@.skip(i as int)),
        decreases source.attrs.len() - i,
    {
        let ghost before = target@;
        let a = &source.attrs[i];
        match target.get_attr(&a.name) {
            Some(_) => {
                proof {
                    assert(source@.skip(i as int)[0] == source@[i as int]);
                    assert(source@.skip(i as int).drop_first() =~= source@.skip(i as int + 1));
                }
            },
            None => {
                let name = a.name.clone();
                let value = a.value.clone();
                target.push_attr(name, value);
                proof {
                    assert(source@.skip(i as int)[0] == source@[i as int]);
                    assert(target@ == before.push(source@[i as int]));
                    assert(source@.skip(i as int).drop_first() =~= source@.skip(i as int + 1));
                }
            },
        }
        i += 1;
    }
    proof {
        assert(source@.skip(i as int) =~= Seq::<(Seq<char>, Seq<char>)>::empty());
        assert(source@.skip(i as int).len() == 0);
    }
}

/// Law: the merge never overwrites an attribute already present on the
/// target. Every attribute of the target keeps its position and value, and
/// everything appended is an attribute of the source whose name the target
/// lacked.
pub proof fn lemma_merge_value_no_overwrite(t: SchemaV, s: SchemaV)
    ensures
        spec_merge_value(t, s).len() >= t.len(),
        forall|i: int| 0 <= i < t.len() ==> spec_merge_value(t, s)[i] == t[i],
        forall|i: int|
            t.len() <= i < spec_merge_value(t, s).len()
                ==> !has_attr(t, spec_merge_value(t, s)[i].0)
                    && s.contains(spec_merge_value(t, s)[i]),
    decreases s.len(),
{
    if s.len() == 0 {
    } else if has_attr(t, s[0].0) {
        lemma_merge_value_no_overwrite(t, s.drop_first());
        assert(forall|x: (Seq<char>, Seq<char>)| s.drop_first().contains(x) ==> s.contains(x));
    } else {
        lemma_merge_value_no_overwrite(t.push(s[0]), s.drop_first());
        let r = spec_merge_value(t, s);
        assert(r == spec_merge_value(t.push(s[0]), s.drop_first()));
        assert(forall|i: int| 0 <= i < t.len() ==> t.push(s[0])[i] == t[i]);
        assert(t.push(s[0])[t.len() as int] == s[0]);
        assert(s.contains(s[0])) by {
            assert(s[0] == s[0]);
        }
        assert(forall|x: (Seq<char>, Seq<char>)| s.drop_first().contains(x) ==> s.contains(x));
        assert forall|i: int|
            t.len() <= i < r.len()
                implies !has_attr(t, r[i].0) && s.contains(r[i]) by {
            if i == t.len() {
                assert(r[i] == s[0]);
            } else {
                assert(!has_attr(t.push(s[0]), r[i].0));
                lemma_has_attr_prefix(t, s[0], r[i].0);
            }
        }
    }
}

proof fn lemma_has_attr_prefix(t: SchemaV, a: (Seq<char>, Seq<char>), name: Seq<char>)
    ensures
        has_attr(t, name) ==> has_attr(t.push(a), name),
    decreases t.len(),
{
    if t.len() > 0 {
        if t[0].0 == name {
            assert(t.push(a)[0] == t[0]);
        } else {
            lemma_has_attr_prefix(t.drop_first(), a, name);
            assert(t.push(a).drop_first() =~= t.drop_first().push(a));
        }
    }
}

/// If every attribute name of `s` is already present on `t`, the merge
/// leaves `t` unchanged.
pub proof fn lemma_merge_value_all_present(t: SchemaV, s: SchemaV)
    requires
        forall|k: int| 0 <= k < s.len() ==> has_attr(t, #[trigger] s[k].0),
    ensures
        spec_merge_value(t, s) == t,
    decreases s.len(),
{
    if s.len() > 0 {
        assert(has_attr(t, s[0].0));
        assert(forall|k: int|
            0 <= k < s.drop_first().len() ==> s.drop_first()[k] == s[k + 1]);
        lemma_merge_value_all_present(t, s.drop_first());
    }
}

/// Every attribute name occurring in `t` is found by the lookup.
pub proof fn lemma_own_attrs_present(t: SchemaV, k: int)
    requires
        0 <= k < t.len(),
    ensures
        has_attr(t, t[k].0),
    decreases k,
{
    if t[0].0 == t[k].0 {
    } else {
        lemma_own_attrs_present(t.drop_first(), k - 1);
    }
}

/// Law: merging a schema's attributes with themselves changes nothing.
pub proof fn lemma_merge_value_self(t: SchemaV)
    ensures
        spec_merge_value(t, t) == t,
{
    assert forall|k: int| 0 <= k < t.len() implies has_attr(t, #[trigger] t[k].0) by {
        lemma_own_attrs_present(t, k);
    }
    lemma_merge_value_all_present(t, t);
}

} // verus!
