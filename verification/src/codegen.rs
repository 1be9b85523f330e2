//! Native header generation: one packed struct for the global
//! configuration, then, per merged signature, a packed args struct, a
//! packed returns struct and the function prototype a driver library must
//! export. An unsupported or missing `type` tag is a fatal generation
//! error: no partial header is ever produced.

use vstd::prelude::*;

use crate::fieldmap::{field_entries, fm_entries, Entries, FieldMap};
use crate::merge::{or_empty, pairs_view, SigEntries, SigV, Signature};
use crate::schema::attr_lookup;
use crate::schema::SchemaV;

verus! {

/// A fatal generation error: the input schema cannot be rendered.
#[derive(Debug)]
pub enum CodegenError {
    /// A field's `type` tag has no native mapping.
    UnsupportedFieldType { type_tag: String },
    /// A field's schema has no `type` tag at all.
    MissingFieldType { key: String },
}

/// View of a generation error.
pub enum CodegenErrV {
    UnsupportedFieldType(Seq<char>),
    MissingFieldType(Seq<char>),
}

impl View for CodegenError {
    type V = CodegenErrV;

    open spec fn view(&self) -> CodegenErrV {
        match self {
            CodegenError::UnsupportedFieldType { type_tag } =>
                CodegenErrV::UnsupportedFieldType(type_tag@),
            CodegenError::MissingFieldType { key } => CodegenErrV::MissingFieldType(key@),
        }
    }
}

/// The native representation of a schema type tag: `number` is an 8-byte
/// floating-point field, `integer` a 64-bit signed integer, `string` a
/// pointer to an immutable byte sequence. Every other tag is unmapped.
pub open spec fn spec_ctype(t: Seq<char>) -> Option<Seq<char>> {
    if t == "number"@ {
        Some("double"@)
    } else if t == "integer"@ {
        Some("long"@)
    } else if t == "string"@ {
        Some("const char*"@)
    } else {
        None
    }
}

/// Maps a schema type tag to its native type. Total over the three
/// supported tags; any other tag is an `UnsupportedFieldType` error, never
/// a silent default.
pub fn ctype(type_str: &str) -> (r: Result<String, CodegenError>)
    ensures
        match r {
            Ok(s) => spec_ctype(type_str@) == Some(s@),
            Err(e) => spec_ctype(type_str@) is None
                && e@ == CodegenErrV::UnsupportedFieldType(type_str@),
        },
{
    let t = type_str.to_owned();
    if t == String::from_str("number") {
        Ok(String::from_str("double"))
    } else if t == String::from_str("integer") {
        Ok(String::from_str("long"))
    } else if t == String::from_str("string") {
        Ok(String::from_str("const char*"))
    } else {
        Err(CodegenError::UnsupportedFieldType { type_tag: t })
    }
}

/// A field key as a native identifier: every `.` becomes `_`.
pub open spec fn spec_sanitize(k: Seq<char>) -> Seq<char> {
    k.map_values(|c: char| if c == '.' { '_' } else { c })
}

/// Relies on `str::replace`: every `.` character is replaced by `_`; all
/// other characters are kept unchanged, in order.
#[verifier::external_body]
fn replace_dots(s: &String) -> (r: String)
    ensures
        r@ == spec_sanitize(s@),
{
    s.replace('.', "_")
}

/// One struct field line.
pub open spec fn spec_field_line(k: Seq<char>, ct: Seq<char>) -> Seq<char> {
    "  "@ + ct + " "@ + spec_sanitize(k) + ";\n"@
}

/// The native type of one field, or the fatal error it raises.
pub open spec fn spec_field_ctype(k: Seq<char>, sv: SchemaV) -> Result<Seq<char>, CodegenErrV> {
    match attr_lookup(sv, "type"@) {
        Option::None => Err(CodegenErrV::MissingFieldType(k)),
        Option::Some(t) => match spec_ctype(t) {
            Option::None => Err(CodegenErrV::UnsupportedFieldType(t)),
            Option::Some(c) => Ok(c),
        },
    }
}

/// The field lines of a mapping, in entry order, or the first fatal error.
pub open spec fn spec_field_lines(es: Entries) -> Result<Seq<Seq<char>>, CodegenErrV>
    decreases es.len(),
{
    if es.len() == 0 {
        Ok(Seq::empty())
    } else {
        match spec_field_ctype(es[0].0, es[0].1) {
            Err(e) => Err(e),
            Ok(c) => match spec_field_lines(es.drop_first()) {
                Err(e) => Err(e),
                Ok(rest) => Ok(seq![spec_field_line(es[0].0, c)] + rest),
            },
        }
    }
}

/// Law: a generated struct has exactly one field line per mapping entry,
/// so its field count equals the mapping's key count.
pub proof fn lemma_field_count(es: Entries)
    ensures
        spec_field_lines(es) matches Ok(ls) ==> ls.len() == es.len(),
    decreases es.len(),
{
    if es.len() > 0 {
        lemma_field_count(es.drop_first());
    }
}

/// All lines joined.
pub open spec fn concat_lines(ls: Seq<Seq<char>>) -> Seq<char>
    decreases ls.len(),
{
    if ls.len() == 0 {
        Seq::empty()
    } else {
        ls[0] + concat_lines(ls.drop_first())
    }
}

/// One packed struct.
pub open spec fn spec_struct_text(name: Seq<char>, ls: Seq<Seq<char>>) -> Seq<char> {
    "typedef struct "@ + name + "_ {\n"@ + concat_lines(ls)
        + "} __attribute__((__packed__)) "@ + name + ";\n"@
}

/// The native entry-point prototype of one capability.
pub open spec fn spec_proto(name: Seq<char>) -> Seq<char> {
    name + "_returns* "@ + name + "("@ + name + "_args* args, Config* conf);\n"@
}

/// The header text of one merged signature: args struct, returns struct,
/// prototype; or the first fatal error among its fields.
pub open spec fn spec_sig_text(name: Seq<char>, sv: SigV) -> Result<Seq<char>, CodegenErrV> {
    match spec_field_lines(or_empty(sv.0)) {
        Err(e) => Err(e),
        Ok(la) => match spec_field_lines(or_empty(sv.1)) {
            Err(e) => Err(e),
            Ok(lr) => Ok(
                spec_struct_text(name + "_args"@, la) + spec_struct_text(name + "_returns"@, lr)
                    + spec_proto(name),
            ),
        },
    }
}

/// The header text of a sequence of merged signatures, in order, or the
/// first fatal error.
pub open spec fn spec_sigs_text(ss: SigEntries) -> Result<Seq<char>, CodegenErrV>
    decreases ss.len(),
{
    if ss.len() == 0 {
        Ok(Seq::empty())
    } else {
        match spec_sig_text(ss[0].0, ss[0].1) {
            Err(e) => Err(e),
            Ok(t) => match spec_sigs_text(ss.drop_first()) {
                Err(e) => Err(e),
                Ok(rest) => Ok(t + rest),
            },
        }
    }
}

/// The whole header: the Config struct, then every signature's structs
/// and prototype; or the first fatal error.
pub open spec fn spec_header(config: Entries, ss: SigEntries) -> Result<Seq<char>, CodegenErrV> {
    match spec_field_lines(config) {
        Err(e) => Err(e),
        Ok(lc) => match spec_sigs_text(ss) {
            Err(e) => Err(e),
            Ok(t) => Ok(spec_struct_text("Config"@, lc) + t),
        },
    }
}

/// The field lines of one mapping, or the first fatal error among them.
pub fn field_lines(m: &FieldMap) -> (r: Result<Vec<String>, CodegenError>)
    ensures
        match r {
            Ok(v) => spec_field_lines(field_entries(*m)) == Ok::<Seq<Seq<char>>, CodegenErrV>(
                v@.map_values(|s: String| s@),
            ),
            Err(e) => spec_field_lines(field_entries(*m)) == Err::<Seq<Seq<char>>, CodegenErrV>(
                e@,
            ),
        },
{
    let ghost es = field_entries(*m);
    let mut rest = fm_entries(m);
    let mut out: Vec<String> = Vec::new();
    let ghost mut i: int = 0;
    proof {
        assert(es.skip(0) =~= es);
        assert(out@.map_values(|s: String| s@) =~= Seq::<Seq<char>>::empty());
    }
    while rest.len() > 0
        invariant
            es == field_entries(*m),
            i + rest.len() == es.len(),
            0 <= i <= es.len(),
            forall|j: int|
                0 <= j < rest@.len() ==> (#[trigger] rest@[j].0@, rest@[j].1@) == es[i + j],
            match spec_field_lines(es.skip(i)) {
                Ok(restl) => spec_field_lines(es)
                    == Ok::<Seq<Seq<char>>, CodegenErrV>(
                    out@.map_values(|s: String| s@) + restl,
                ),
                Err(e) => spec_field_lines(es) == Err::<Seq<Seq<char>>, CodegenErrV>(e),
            },
        decreases rest.len(),
    {
        let ghost prev = rest@;
        let (k, schema) = rest.remove(0);
        proof {
            assert(rest@ =~= prev.drop_first());
            assert(forall|j: int| 0 <= j < rest@.len() ==> rest@[j] == prev[j + 1]);
            assert((k@, schema@) == es[i]);
            assert(es.skip(i)[0] == es[i]);
            assert(es.skip(i).drop_first() =~= es.skip(i + 1));
        }
        let tkey = String::from_str("type");
        match schema.get_attr(&tkey) {
            None => {
                return Err(CodegenError::MissingFieldType { key: k });
            },
            Some(t) => {
                match ctype(t.as_str()) {
                    Err(e) => {
                        return Err(e);
                    },
                    Ok(ct) => {
                        let mut line = String::from_str("  ");
                        line.append(ct.as_str());
                        line.append(" ");
                        let sk = replace_dots(&k);
                        line.append(sk.as_str());
                        line.append(";\n");
                        proof {
                            assert(line@ =~= spec_field_line(es[i].0, ct@));
                        }
                        let ghost outv = out@.map_values(|s: String| s@);
                        out.push(line);
                        proof {
                            assert(out@.map_values(|s: String| s@)
                                =~= outv.push(spec_field_line(es[i].0, ct@)));
                            i = i + 1;
                            if spec_field_lines(es.skip(i)) is Ok {
                                let restl = spec_field_lines(es.skip(i))->Ok_0;
                                assert(outv + (seq![spec_field_line(es[i - 1].0, ct@)] + restl)
                                    =~= outv.push(spec_field_line(es[i - 1].0, ct@)) + restl);
                            }
                        }
                    },
                }
            },
        }
    }
    proof {
        assert(es.skip(i) =~= Seq::<(Seq<char>, SchemaV)>::empty());
        assert(out@.map_values(|s: String| s@) + Seq::<Seq<char>>::empty()
            =~= out@.map_values(|s: String| s@));
    }
    Ok(out)
}

/// One packed struct block.
fn struct_block(name: &str, lines: &Vec<String>) -> (r: String)
    ensures
        r@ == spec_struct_text(name@, lines@.map_values(|s: String| s@)),
{
    let ghost lv = lines@.map_values(|s: String| s@);
    let mut s = String::from_str("typedef struct ");
    s.append(name);
    s.append("_ {\n");
    let ghost head = s@;
    let mut i: usize = 0;
    proof {
        assert(concat_lines(lv.take(0)) =~= Seq::<char>::empty());
        assert(s@ =~= head + concat_lines(lv.take(0)));
    }
    while i < lines.len()
        invariant
            0 <= i <= lines.len(),
            lv == lines@.map_values(|s: String| s@),
            s@ == head + concat_lines(lv.take(i as int)),
        decreases lines.len() - i,
    {
        s.append(lines[i].as_str());
        proof {
            lemma_concat_take_succ(lv, i as int);
            assert((head + concat_lines(lv.take(i as int))) + lv[i as int]
                =~= head + (concat_lines(lv.take(i as int)) + lv[i as int]));
        }
        i += 1;
    }
    proof {
        assert(lv.take(i as int) =~= lv);
    }
    s.append("} __attribute__((__packed__)) ");
    s.append(name);
    s.append(";\n");
    proof {
        assert(s@ =~= spec_struct_text(name@, lv));
    }
    s
}

proof fn lemma_concat_take_succ(ls: Seq<Seq<char>>, i: int)
    requires
        0 <= i < ls.len(),
    ensures
        concat_lines(ls.take(i + 1)) == concat_lines(ls.take(i)) + ls[i],
    decreases i,
{
    if i == 0 {
        assert(ls.take(1) =~= seq![ls[0]]);
        assert(ls.take(1).drop_first() =~= Seq::<Seq<char>>::empty());
        assert(ls.take(0) =~= Seq::<Seq<char>>::empty());
        assert(ls.take(1).len() == 1);
        assert(ls.take(1)[0] == ls[0]);
        assert(concat_lines(Seq::<Seq<char>>::empty()) == Seq::<char>::empty());
        assert(concat_lines(ls.take(1))
            == ls.take(1)[0] + concat_lines(ls.take(1).drop_first()));
        assert(concat_lines(ls.take(1)) =~= ls[0] + Seq::<char>::empty());
        assert(ls[0] + Seq::<char>::empty() =~= ls[0]);
        assert(concat_lines(ls.take(0)) + ls[0] =~= ls[0]);
    } else {
        let d = ls.drop_first();
        lemma_concat_take_succ(d, i - 1);
        assert(ls.take(i + 1)[0] == ls[0]);
        assert(ls.take(i + 1).drop_first() =~= d.take(i));
        assert(ls.take(i)[0] == ls[0]);
        assert(ls.take(i).drop_first() =~= d.take(i - 1));
        assert(d[i - 1] == ls[i]);
        assert(ls[0] + (concat_lines(d.take(i - 1)) + ls[i])
            =~= (ls[0] + concat_lines(d.take(i - 1))) + ls[i]);
    }
}

/// The header text of one merged signature: packed args struct, packed
/// returns struct, then the entry-point prototype.
pub fn signature_block(name: &String, sign: &Signature) -> (r: Result<String, CodegenError>)
    ensures
        match r {
            Ok(s) => spec_sig_text(name@, sign@) == Ok::<Seq<char>, CodegenErrV>(s@),
            Err(e) => spec_sig_text(name@, sign@) == Err::<Seq<char>, CodegenErrV>(e@),
        },
{
    let args_lines = match &sign.args {
        Some(m) => match field_lines(m) {
            Ok(v) => v,
            Err(e) => {
                return Err(e);
            },
        },
        None => Vec::new(),
    };
    proof {
        if sign.args is None {
            assert(or_empty(sign@.0) =~= Seq::<(Seq<char>, SchemaV)>::empty());
            assert(args_lines@.map_values(|s: String| s@) =~= Seq::<Seq<char>>::empty());
        }
    }
    let ret_lines = match &sign.returns {
        Some(m) => match field_lines(m) {
            Ok(v) => v,
            Err(e) => {
                return Err(e);
            },
        },
        None => Vec::new(),
    };
    proof {
        if sign.returns is None {
            assert(or_empty(sign@.1) =~= Seq::<(Seq<char>, SchemaV)>::empty());
            assert(ret_lines@.map_values(|s: String| s@) =~= Seq::<Seq<char>>::empty());
        }
    }
    let an = name.clone().concat("_args");
    let rn = name.clone().concat("_returns");
    let ab = struct_block(an.as_str(), &args_lines);
    let rb = struct_block(rn.as_str(), &ret_lines);
    let mut p = name.clone();
    p.append("_returns* ");
    p.append(name.as_str());
    p.append("(");
    p.append(name.as_str());
    p.append("_args* args, Config* conf);\n");
    proof {
        assert(p@ =~= spec_proto(name@));
    }
    let mut s = ab;
    s.append(rb.as_str());
    s.append(p.as_str());
    proof {
        assert(s@ =~= spec_struct_text(name@ + "_args"@, args_lines@.map_values(|s: String| s@))
            + spec_struct_text(name@ + "_returns"@, ret_lines@.map_values(|s: String| s@))
            + spec_proto(name@));
    }
    Ok(s)
}

/// Renders the whole native header for the configuration mapping and the
/// merged signatures: succeeds exactly when every field of every mapping
/// carries a supported `type` tag, and then yields the exact header text;
/// otherwise reports the first fatal error and emits nothing.
pub fn generate_header(config: &FieldMap, merged: &Vec<(String, Signature)>) -> (r: Result<
    String,
    CodegenError,
>)
    ensures
        match r {
            Ok(s) => spec_header(field_entries(*config), pairs_view(merged@))
                == Ok::<Seq<char>, CodegenErrV>(s@),
            Err(e) => spec_header(field_entries(*config), pairs_view(merged@))
                == Err::<Seq<char>, CodegenErrV>(e@),
        },
{
    let ghost ces = field_entries(*config);
    let ghost msv = pairs_view(merged@);
    let config_lines = match field_lines(config) {
        Ok(v) => v,
        Err(e) => {
            return Err(e);
        },
    };
    let mut out = struct_block("Config", &config_lines);
    let mut i: usize = 0;
    proof {
        assert(msv.skip(0) =~= msv);
    }
    while i < merged.len()
        invariant
            0 <= i <= merged.len(),
            ces == field_entries(*config),
            msv == pairs_view(merged@),
            spec_field_lines(ces) == Ok::<Seq<Seq<char>>, CodegenErrV>(
                config_lines@.map_values(|s: String| s@),
            ),
            match spec_sigs_text(msv.skip(i as int)) {
                Ok(t) => spec_header(ces, msv) == Ok::<Seq<char>, CodegenErrV>(out@ + t),
                Err(e) => spec_header(ces, msv) == Err::<Seq<char>, CodegenErrV>(e),
            },
        decreases merged.len() - i,
    {
        proof {
            assert(msv.skip(i as int)[0] == msv[i as int]);
            assert(msv.skip(i as int).drop_first() =~= msv.skip(i as int + 1));
        }
        let pair = &merged[i];
        match signature_block(&pair.0, &pair.1) {
            Ok(sb) => {
                let ghost before = out@;
                out.append(sb.as_str());
                proof {
                    if spec_sigs_text(msv.skip(i as int + 1)) is Ok {
                        let t = spec_sigs_text(msv.skip(i as int + 1))->Ok_0;
                        assert(before + (sb@ + t) =~= (before + sb@) + t);
                    }
                }
            },
            Err(e) => {
                return Err(e);
            },
        }
        i += 1;
    }
    proof {
        assert(msv.skip(i as int) =~= Seq::<(Seq<char>, SigV)>::empty());
        assert(out@ + Seq::<char>::empty() =~= out@);
    }
    Ok(out)
}

} // verus!
