//! The schema language and the validator. A schema is one declaration per
//! line, `identifier -> bool|string`; parsing is strict and fails on the
//! first malformed line. Validation checks each declared field, in order,
//! against the top level of a document and stops at the first failure.
use crate::parser::spec_lines;
use crate::text::find_first;
use crate::text::lemma_find_first;
use crate::text::str_eq;
use crate::value::table_wf;
use crate::value::ConfigTable;
use crate::value::ConfigValue;
use crate::value::SpecValue;
use vstd::prelude::*;

verus! {

broadcast use {vstd::std_specs::vec::group_vec_axioms, vstd::seq::group_seq_axioms};

/// The two field types of the schema language.
#[derive(Debug, Clone, PartialEq)]
pub enum SchemeType {
    Bool,
    String,
}

/// One declared field: a name and its required type.
#[derive(Debug, Clone, PartialEq)]
pub struct SchemeField {
    pub name: String,
    pub field_type: SchemeType,
}

/// An identifier character: ASCII alphanumeric or underscore.
pub open spec fn is_ident(c: char) -> bool {
    ('a' <= c && c <= 'z') || ('A' <= c && c <= 'Z') || ('0' <= c && c <= '9') || c == '_'
}

/// Executable mirror of [`is_ident`].
pub fn is_ident_char(c: char) -> (r: bool)
    ensures
        r == is_ident(c),
{
    ('a' <= c && c <= 'z') || ('A' <= c && c <= 'Z') || ('0' <= c && c <= '9') || c == '_'
}

/// Horizontal whitespace, as allowed around the arrow.
pub open spec fn is_hws(c: char) -> bool {
    c == ' ' || c == '\t'
}

/// Executable mirror of [`is_hws`].
pub fn is_hws_char(c: char) -> (r: bool)
    ensures
        r == is_hws(c),
{
    c == ' ' || c == '\t'
}

/// Length of the identifier prefix of a line.
pub open spec fn ident_end(l: Seq<char>) -> int {
    let d = find_first(l, |c: char| !is_ident(c));
    if d < 0 {
        l.len() as int
    } else {
        d
    }
}

/// Length of the horizontal-whitespace prefix of a sequence.
pub open spec fn ws_run(l: Seq<char>) -> int {
    let d = find_first(l, |c: char| !is_hws(c));
    if d < 0 {
        l.len() as int
    } else {
        d
    }
}

/// What follows the identifier and the whitespace after it.
pub open spec fn schema_line_tail(l: Seq<char>) -> Seq<char> {
    let r1 = l.subrange(ident_end(l), l.len() as int);
    r1.subrange(ws_run(r1), r1.len() as int)
}

/// The type token: what follows the arrow and the whitespace after it.
pub open spec fn schema_line_type_tok(l: Seq<char>) -> Seq<char>
    recommends
        schema_line_tail(l).len() >= 2,
{
    let r2 = schema_line_tail(l);
    let r3 = r2.subrange(2, r2.len() as int);
    r3.subrange(ws_run(r3), r3.len() as int)
}

/// Whether one line is a well-formed declaration: a nonempty identifier,
/// an arrow with optional horizontal whitespace around it, and exactly the
/// token `bool` or `string` up to the end of the line.
pub open spec fn schema_line_ok(l: Seq<char>) -> bool {
    ident_end(l) > 0 && schema_line_tail(l).len() >= 2 && schema_line_tail(l)[0] == '-'
        && schema_line_tail(l)[1] == '>' && (schema_line_type_tok(l) == "bool"@
        || schema_line_type_tok(l) == "string"@)
}

/// The declared name of a well-formed line.
pub open spec fn schema_line_name(l: Seq<char>) -> Seq<char> {
    l.subrange(0, ident_end(l))
}

/// The declared type of a well-formed line.
pub open spec fn schema_line_type(l: Seq<char>) -> SchemeType {
    if schema_line_type_tok(l) == "bool"@ {
        SchemeType::Bool
    } else {
        SchemeType::String
    }
}

/// The error text for a malformed line.
pub open spec fn malformed_msg(l: Seq<char>) -> Seq<char> {
    "Malformed schema line: '"@ + l + "'"@
}

/// The lines of a schema document: split like the config format, with a
/// single trailing terminator consumed.
pub open spec fn schema_lines(s: Seq<char>) -> Seq<Seq<char>> {
    let ls = spec_lines(s);
    if ls.len() > 0 && ls.last().len() == 0 {
        ls.drop_last()
    } else {
        ls
    }
}

/// Index of the first malformed line, or `-1` if every line is well-formed.
pub open spec fn first_bad(ls: Seq<Seq<char>>) -> int
    decreases ls.len(),
{
    if ls.len() == 0 {
        -1
    } else if !schema_line_ok(ls[0]) {
        0
    } else {
        let r = first_bad(ls.drop_first());
        if r < 0 {
            -1
        } else {
            r + 1
        }
    }
}

/// `first_bad` returns the position a left-to-right scan stops at.
pub proof fn lemma_first_bad(ls: Seq<Seq<char>>, i: int)
    requires
        0 <= i <= ls.len(),
        forall|j: int| 0 <= j < i ==> schema_line_ok(#[trigger] ls[j]),
        i < ls.len() ==> !schema_line_ok(ls[i]),
    ensures
        first_bad(ls) == if i == ls.len() { -1int } else { i },
    decreases ls.len(),
{
    if ls.len() > 0 {
        if i == 0 {
        } else {
            assert(schema_line_ok(ls[0]));
            lemma_first_bad(ls.drop_first(), i - 1);
        }
    }
}

/// Builds the malformed-line error text.
fn malformed(line: &str) -> (e: String)
    ensures
        e@ == malformed_msg(line@),
{
    let mut e = String::from_str("Malformed schema line: '");
    e.append(line);
    e.append("'");
    e
}

/// Parses one declaration line.
pub fn parse_line(input: &str) -> (r: Result<SchemeField, String>)
    ensures
        r is Ok <==> schema_line_ok(input@),
        (match r {
            Ok(f) => f.name@ == schema_line_name(input@) && f.field_type == schema_line_type(
                input@,
            ),
            Err(e) => e@ == malformed_msg(input@),
        }),
{
    let n = input.unicode_len();
    let mut i: usize = 0;
    while i < n && is_ident_char(input.get_char(i))
        invariant
            n == input@.len(),
            0 <= i <= n,
            forall|j: int| 0 <= j < i ==> is_ident(input@[j]),
        decreases n - i,
    {
        i = i + 1;
    }
    proof {
        lemma_find_first(input@, |c: char| !is_ident(c), i as int);
        assert(ident_end(input@) == i);
    }
    if i == 0 {
        return Err(malformed(input));
    }
    let mut j: usize = i;
    while j < n && is_hws_char(input.get_char(j))
        invariant
            n == input@.len(),
            i <= j <= n,
            forall|m: int| i <= m < j ==> is_hws(input@[m]),
        decreases n - j,
    {
        j = j + 1;
    }
    let ghost r1 = input@.subrange(i as int, n as int);
    proof {
        assert(forall|m: int| 0 <= m < j - i ==> is_hws(r1[m]));
        lemma_find_first(r1, |c: char| !is_hws(c), j - i);
        assert(ws_run(r1) == j - i);
        assert(schema_line_tail(input@) =~= input@.subrange(j as int, n as int));
    }
    if n - j < 2 || input.get_char(j) != '-' || input.get_char(j + 1) != '>' {
        return Err(malformed(input));
    }
    let mut k: usize = j + 2;
    while k < n && is_hws_char(input.get_char(k))
        invariant
            n == input@.len(),
            j + 2 <= k <= n,
            forall|m: int| j + 2 <= m < k ==> is_hws(input@[m]),
        decreases n - k,
    {
        k = k + 1;
    }
    let ghost r3 = input@.subrange(j as int + 2, n as int);
    proof {
        assert(forall|m: int| 0 <= m < k - j - 2 ==> is_hws(r3[m]));
        lemma_find_first(r3, |c: char| !is_hws(c), k - j - 2);
        assert(ws_run(r3) == k - j - 2);
        assert(schema_line_tail(input@).subrange(2, schema_line_tail(input@).len() as int)
            =~= r3);
        assert(schema_line_type_tok(input@) =~= input@.subrange(k as int, n as int));
    }
    let tok = input.substring_char(k, n);
    let field_type = if str_eq(tok, "bool") {
        SchemeType::Bool
    } else if str_eq(tok, "string") {
        SchemeType::String
    } else {
        return Err(malformed(input));
    };
    let name = String::from_str(input.substring_char(0, i));
    proof {
        if schema_line_type_tok(input@) == "bool"@ {
        }
    }
    Ok(SchemeField { name, field_type })
}

/// Splits the schema text into lines, consuming a single trailing
/// terminator.
fn split_schema_lines(input: &str) -> (lines: Vec<String>)
    ensures
        lines@.map_values(|l: String| l@) == schema_lines(input@),
{
    let n = input.unicode_len();
    let mut lines: Vec<String> = Vec::new();
    let mut pos: usize = 0;
    proof {
        assert(input@.subrange(0, n as int) =~= input@);
        assert(lines@.map_values(|l: String| l@) =~= Seq::<Seq<char>>::empty());
        assert(lines@.map_values(|l: String| l@) + spec_lines(input@) =~= spec_lines(input@));
    }
    loop
        invariant_except_break
            spec_lines(input@) == lines@.map_values(|l: String| l@) + spec_lines(
                input@.subrange(pos as int, n as int),
            ),
        invariant
            n == input@.len(),
            0 <= pos <= n,
        ensures
            spec_lines(input@) == lines@.map_values(|l: String| l@),
        decreases n - pos,
    {
        let ghost suffix = input@.subrange(pos as int, n as int);
        let mut j: usize = pos;
        let mut found = false;
        while j < n && !found
            invariant
                n == input@.len(),
                pos <= j <= n,
                forall|m: int| pos <= m < j ==> !crate::parser::is_brk(input@[m]),
                found ==> j < n && crate::parser::is_brk(input@[j as int]),
            decreases n - j + (if found { 0int } else { 1int }),
        {
            let c = input.get_char(j);
            if c == '\n' || c == '\r' {
                found = true;
            } else {
                j = j + 1;
            }
        }
        proof {
            assert(forall|m: int| 0 <= m < j - pos ==> !crate::parser::is_brk(suffix[m]));
            lemma_find_first(suffix, |c: char| crate::parser::is_brk(c), j - pos);
        }
        let line = String::from_str(input.substring_char(pos, j));
        let ghost lines0 = lines@;
        lines.push(line);
        proof {
            assert(suffix.subrange(0, j - pos) =~= line@);
            assert(lines@.map_values(|l: String| l@) =~= lines0.map_values(|l: String| l@).push(
                line@,
            ));
        }
        if j == n {
            proof {
                assert(spec_lines(suffix) == seq![line@]);
                assert(lines0.map_values(|l: String| l@) + spec_lines(suffix)
                    =~= lines@.map_values(|l: String| l@));
            }
            break;
        }
        let c = input.get_char(j);
        if c == '\n' {
            proof {
                assert(suffix.subrange(j - pos + 1, suffix.len() as int) =~= input@.subrange(
                    j as int + 1,
                    n as int,
                ));
                assert(spec_lines(suffix) == seq![line@] + spec_lines(
                    input@.subrange(j as int + 1, n as int),
                ));
                assert(lines0.map_values(|l: String| l@) + spec_lines(suffix)
                    =~= lines@.map_values(|l: String| l@) + spec_lines(
                    input@.subrange(j as int + 1, n as int),
                ));
            }
            pos = j + 1;
        } else {
            if j + 1 < n && input.get_char(j + 1) == '\n' {
                proof {
                    assert(suffix.subrange(j - pos + 2, suffix.len() as int) =~= input@.subrange(
                        j as int + 2,
                        n as int,
                    ));
                    assert(spec_lines(suffix) == seq![line@] + spec_lines(
                        input@.subrange(j as int + 2, n as int),
                    ));
                    assert(lines0.map_values(|l: String| l@) + spec_lines(suffix)
                        =~= lines@.map_values(|l: String| l@) + spec_lines(
                        input@.subrange(j as int + 2, n as int),
                    ));
                }
                pos = j + 2;
            } else {
                proof {
                    assert(spec_lines(suffix) == seq![line@]);
                    assert(lines0.map_values(|l: String| l@) + spec_lines(suffix)
                        =~= lines@.map_values(|l: String| l@));
                }
                break;
            }
        }
    }
    let drop_last = if lines.len() > 0 {
        let last = &lines[lines.len() - 1];
        last.as_str().unicode_len() == 0
    } else {
        false
    };
    if drop_last {
        let _ = lines.pop();
        proof {
            assert(lines@.map_values(|l: String| l@) =~= schema_lines(input@));
        }
    } else {
        proof {
            assert(lines@.map_values(|l: String| l@) =~= schema_lines(input@));
        }
    }
    lines
}

/// Parses a whole schema document: all or nothing, failing at the first
/// malformed line.
pub fn parse_scheme(input: &str) -> (r: Result<Vec<SchemeField>, String>)
    ensures
        ({
            let ls = schema_lines(input@);
            match r {
                Ok(fields) => first_bad(ls) == -1 && fields@.len() == ls.len() && (forall|i: int|
                    0 <= i < ls.len() ==> (#[trigger] fields@[i]).name@ == schema_line_name(ls[i])
                        && fields@[i].field_type == schema_line_type(ls[i])),
                Err(e) => first_bad(ls) >= 0 && e@ == malformed_msg(ls[first_bad(ls)]),
            }
        }),
{
    let ghost ls = schema_lines(input@);
    let lines = split_schema_lines(input);
    let mut fields: Vec<SchemeField> = Vec::new();
    let mut i: usize = 0;
    while i < lines.len()
        invariant
            ls == schema_lines(input@),
            ls == lines@.map_values(|l: String| l@),
            0 <= i <= lines@.len(),
            fields@.len() == i,
            forall|j: int| 0 <= j < i ==> schema_line_ok(#[trigger] ls[j]),
            forall|j: int|
                0 <= j < i ==> (#[trigger] fields@[j]).name@ == schema_line_name(ls[j])
                    && fields@[j].field_type == schema_line_type(ls[j]),
        decreases lines@.len() - i,
    {
        match parse_line(lines[i].as_str()) {
            Ok(f) => {
                fields.push(f);
            },
            Err(e) => {
                proof {
                    lemma_first_bad(ls, i as int);
                }
                return Err(e);
            },
        }
        i = i + 1;
    }
    proof {
        lemma_first_bad(ls, ls.len() as int);
    }
    Ok(fields)
}

/// Parses a schema document that is known to be well-formed.
pub fn parse(input: &str) -> (fields: Vec<SchemeField>)
    requires
        first_bad(schema_lines(input@)) == -1,
    ensures
        ({
            let ls = schema_lines(input@);
            fields@.len() == ls.len() && (forall|i: int|
                0 <= i < ls.len() ==> (#[trigger] fields@[i]).name@ == schema_line_name(ls[i])
                    && fields@[i].field_type == schema_line_type(ls[i]))
        }),
{
    match parse_scheme(input) {
        Ok(fields) => fields,
        Err(_) => vstd::pervasive::unreached(),
    }
}

/// Whether a document satisfies one declared field: the name is present at
/// the top level, bound to a leaf, and a `bool` field's leaf is exactly
/// `true` or `false`.
pub open spec fn field_ok(doc: Map<Seq<char>, SpecValue>, f: SchemeField) -> bool {
    doc.contains_key(f.name@) && (match doc[f.name@] {
        SpecValue::Leaf(s) => f.field_type is Bool ==> (s == "true"@ || s == "false"@),
        SpecValue::Table(_) => false,
    })
}

/// Index of the first declared field the document fails, or `-1`.
pub open spec fn first_bad_field(fields: Seq<SchemeField>, doc: Map<Seq<char>, SpecValue>) -> int
    decreases fields.len(),
{
    if fields.len() == 0 {
        -1
    } else if !field_ok(doc, fields[0]) {
        0
    } else {
        let r = first_bad_field(fields.drop_first(), doc);
        if r < 0 {
            -1
        } else {
            r + 1
        }
    }
}

/// `first_bad_field` returns the position a left-to-right scan stops at.
pub proof fn lemma_first_bad_field(fields: Seq<SchemeField>, doc: Map<Seq<char>, SpecValue>, i: int)
    requires
        0 <= i <= fields.len(),
        forall|j: int| 0 <= j < i ==> field_ok(doc, #[trigger] fields[j]),
        i < fields.len() ==> !field_ok(doc, fields[i]),
    ensures
        first_bad_field(fields, doc) == if i == fields.len() { -1int } else { i },
    decreases fields.len(),
{
    if fields.len() > 0 {
        if i == 0 {
        } else {
            assert(field_ok(doc, fields[0]));
            lemma_first_bad_field(fields.drop_first(), doc, i - 1);
        }
    }
}

/// The error text reported for a failing field.
pub open spec fn validation_msg(doc: Map<Seq<char>, SpecValue>, f: SchemeField) -> Seq<char> {
    if !doc.contains_key(f.name@) {
        "Missing required field: '"@ + f.name@ + "'"@
    } else {
        match doc[f.name@] {
            SpecValue::Leaf(s) => "Field '"@ + f.name@
                + "' must be a bool ('true'/'false'), got: '"@ + s + "'"@,
            SpecValue::Table(_) => if f.field_type is Bool {
                "Field '"@ + f.name@ + "' must be a bool, but found a nested table."@
            } else {
                "Field '"@ + f.name@ + "' must be a string, but found a nested table."@
            },
        }
    }
}

/// Validates a document against a schema: each field in declaration order,
/// stopping at the first failure with its error text.
pub fn validate_config(schema: &Vec<SchemeField>, config: &ConfigTable) -> (r: Result<
    (),
    String,
>)
    requires
        table_wf(*config),
    ensures
        ({
            let bad = first_bad_field(schema@, config@);
            match r {
                Ok(u) => bad == -1,
                Err(e) => bad >= 0 && e@ == validation_msg(config@, schema@[bad]),
            }
        }),
{
    let mut i: usize = 0;
    while i < schema.len()
        invariant
            table_wf(*config),
            0 <= i <= schema@.len(),
            forall|j: int| 0 <= j < i ==> field_ok(config@, #[trigger] schema@[j]),
        decreases schema@.len() - i,
    {
        let field = &schema[i];
        match config.get(field.name.as_str()) {
            None => {
                proof {
                    lemma_first_bad_field(schema@, config@, i as int);
                }
                let mut e = String::from_str("Missing required field: '");
                e.append(field.name.as_str());
                e.append("'");
                return Err(e);
            },
            Some(v) => {
                match v {
                    ConfigValue::Str(s) => {
                        let is_bool_field = match field.field_type {
                            SchemeType::Bool => true,
                            SchemeType::String => false,
                        };
                        if is_bool_field && !str_eq(s.as_str(), "true") && !str_eq(
                            s.as_str(),
                            "false",
                        ) {
                            proof {
                                lemma_first_bad_field(schema@, config@, i as int);
                            }
                            let mut e = String::from_str("Field '");
                            e.append(field.name.as_str());
                            e.append("' must be a bool ('true'/'false'), got: '");
                            e.append(s.as_str());
                            e.append("'");
                            return Err(e);
                        }
                    },
                    ConfigValue::Table(_) => {
                        proof {
                            lemma_first_bad_field(schema@, config@, i as int);
                        }
                        let mut e = String::from_str("Field '");
                        e.append(field.name.as_str());
                        let is_bool_field = match field.field_type {
                            SchemeType::Bool => true,
                            SchemeType::String => false,
                        };
                        if is_bool_field {
                            e.append("' must be a bool, but found a nested table.");
                        } else {
                            e.append("' must be a string, but found a nested table.");
                        }
                        return Err(e);
                    },
                }
            },
        }
        i = i + 1;
    }
    proof {
        lemma_first_bad_field(schema@, config@, schema@.len() as int);
    }
    Ok(())
}

} // verus!
