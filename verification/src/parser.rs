//! The line classifier and the document assembler. A physical line is
//! classified as a comment, a `key = value` setting, or nothing; the input
//! is split on `\n` / `\r\n`, the settings are kept in input order, and each
//! dotted key is folded into the document with override semantics.
use crate::text::find_first;
use crate::text::is_ws;
use crate::text::is_ws_char;
use crate::text::lemma_find_first;
use crate::text::lemma_find_first_bounds;
use crate::text::lemma_trim_back_index;
use crate::text::lemma_trim_front_index;
use crate::text::trim;
use crate::text::trim_front;
use crate::value::insert_nested_key;
use crate::value::insert_path;
use crate::value::path_of;
use crate::value::table_wf;
use crate::value::ConfigTable;
use vstd::prelude::*;

verus! {

broadcast use {vstd::std_specs::vec::group_vec_axioms, vstd::seq::group_seq_axioms};

/// Model of one classified line.
pub enum SpecLine {
    Comment(Seq<char>),
    Setting(Seq<char>, Seq<char>),
    Empty,
}

/// One classified physical line.
#[derive(Debug, PartialEq)]
pub enum ParsedLine {
    /// Comment line (ignored later)
    Comment(String),
    /// Setting "key = value"
    Setting(String, String),
    /// Empty, whitespace-only, or unrecognized line
    Empty,
}

impl View for ParsedLine {
    type V = SpecLine;

    open spec fn view(&self) -> SpecLine {
        match self {
            ParsedLine::Comment(s) => SpecLine::Comment(s@),
            ParsedLine::Setting(k, v) => SpecLine::Setting(k@, v@),
            ParsedLine::Empty => SpecLine::Empty,
        }
    }
}

/// Classification of one physical line: leading whitespace is dropped; an
/// empty remainder is nothing; a `#` starts a comment; otherwise the first
/// `=` splits trimmed key from trimmed value; a line with no `=` is nothing.
pub open spec fn classify(line: Seq<char>) -> SpecLine {
    let t = trim_front(line);
    if t.len() == 0 {
        SpecLine::Empty
    } else if t[0] == '#' {
        SpecLine::Comment(trim(t.drop_first()))
    } else {
        let e = find_first(t, |c: char| c == '=');
        if e >= 0 {
            SpecLine::Setting(trim(t.subrange(0, e)), trim(t.subrange(e + 1, t.len() as int)))
        } else {
            SpecLine::Empty
        }
    }
}

/// A line terminator character.
pub open spec fn is_brk(c: char) -> bool {
    c == '\n' || c == '\r'
}

/// The physical lines of the input, split on `\n` or `\r\n`. A carriage
/// return not followed by a newline ends the split: the text after it is
/// dropped, as the grammar takes only `\n` and `\r\n` as terminators.
pub open spec fn spec_lines(s: Seq<char>) -> Seq<Seq<char>>
    decreases s.len(),
    via spec_lines_decreases
{
    let d = find_first(s, |c: char| is_brk(c));
    if d < 0 {
        seq![s]
    } else if s[d] == '\n' {
        seq![s.subrange(0, d)] + spec_lines(s.subrange(d + 1, s.len() as int))
    } else if d + 1 < s.len() && s[d + 1] == '\n' {
        seq![s.subrange(0, d)] + spec_lines(s.subrange(d + 2, s.len() as int))
    } else {
        seq![s.subrange(0, d)]
    }
}

#[via_fn]
proof fn spec_lines_decreases(s: Seq<char>) {
    lemma_find_first_bounds(s, |c: char| is_brk(c));
}

/// Whether a line classifies as a setting.
pub open spec fn is_setting_line(l: Seq<char>) -> bool {
    classify(l) is Setting
}

/// The key/value pair of a setting line.
pub open spec fn setting_of(l: Seq<char>) -> (Seq<char>, Seq<char>)
    recommends
        is_setting_line(l),
{
    (classify(l)->Setting_0, classify(l)->Setting_1)
}

/// The settings of a line sequence, in input order.
pub open spec fn settings_of(lines: Seq<Seq<char>>) -> Seq<(Seq<char>, Seq<char>)> {
    lines.filter(|l: Seq<char>| is_setting_line(l)).map_values(|l: Seq<char>| setting_of(l))
}

/// The document built by folding the settings, in order, into an empty
/// root table.
pub open spec fn doc_of_settings(ss: Seq<(Seq<char>, Seq<char>)>) -> Map<
    Seq<char>,
    crate::value::SpecValue,
>
    decreases ss.len(),
{
    if ss.len() == 0 {
        Map::empty()
    } else {
        insert_path(doc_of_settings(ss.drop_last()), path_of(ss.last().0), ss.last().1)
    }
}

/// The document denoted by the whole input text.
pub open spec fn spec_doc(input: Seq<char>) -> Map<Seq<char>, crate::value::SpecValue> {
    doc_of_settings(settings_of(spec_lines(input)))
}

/// Appending a line appends its setting, if it is one.
pub proof fn lemma_settings_push(lines: Seq<Seq<char>>, l: Seq<char>)
    ensures
        settings_of(lines.push(l)) == if is_setting_line(l) {
            settings_of(lines).push(setting_of(l))
        } else {
            settings_of(lines)
        },
{
    reveal(Seq::filter);
    let pred = |l: Seq<char>| is_setting_line(l);
    let f = |l: Seq<char>| setting_of(l);
    assert(lines.push(l).drop_last() =~= lines);
    assert(lines.push(l).last() == l);
    if pred(l) {
        assert(lines.push(l).filter(pred) == lines.filter(pred).push(l));
        assert(lines.filter(pred).push(l).map_values(f) =~= lines.filter(pred).map_values(f).push(
            f(l),
        ));
    }
}

/// Computes the bounds of `trim(s[lo..hi])` within `s`.
fn trim_range(s: &str, lo: usize, hi: usize) -> (r: (usize, usize))
    requires
        lo <= hi <= s@.len(),
    ensures
        ({
            let (a, b) = r;
            lo <= a <= b <= hi && trim(s@.subrange(lo as int, hi as int)) == s@.subrange(
                a as int,
                b as int,
            )
        }),
{
    let mut a: usize = lo;
    while a < hi && is_ws_char(s.get_char(a))
        invariant
            lo <= a <= hi <= s@.len(),
            forall|j: int| lo <= j < a ==> is_ws(s@[j]),
        decreases hi - a,
    {
        a = a + 1;
    }
    let mut b: usize = hi;
    while b > a && is_ws_char(s.get_char(b - 1))
        invariant
            lo <= a <= b <= hi <= s@.len(),
            forall|j: int| b <= j < hi ==> is_ws(s@[j]),
        decreases b,
    {
        b = b - 1;
    }
    proof {
        let sub = s@.subrange(lo as int, hi as int);
        lemma_trim_front_index(sub, a - lo);
        let tf = trim_front(sub);
        assert(tf =~= s@.subrange(a as int, hi as int));
        lemma_trim_back_index(tf, b - a);
        assert(tf.subrange(0, b - a) =~= s@.subrange(a as int, b as int));
    }
    (a, b)
}

/// Classifies one physical line.
pub fn parse_line_content(input: &str) -> (p: ParsedLine)
    ensures
        p@ == classify(input@),
{
    let n = input.unicode_len();
    let mut i: usize = 0;
    while i < n && is_ws_char(input.get_char(i))
        invariant
            n == input@.len(),
            0 <= i <= n,
            forall|j: int| 0 <= j < i ==> is_ws(input@[j]),
        decreases n - i,
    {
        i = i + 1;
    }
    proof {
        lemma_trim_front_index(input@, i as int);
    }
    let ghost t = trim_front(input@);
    if i == n {
        return ParsedLine::Empty;
    }
    let c = input.get_char(i);
    if c == '#' {
        let (a, b) = trim_range(input, i + 1, n);
        let comment = String::from_str(input.substring_char(a, b));
        proof {
            assert(t.drop_first() =~= input@.subrange(i + 1, n as int));
        }
        return ParsedLine::Comment(comment);
    }
    let mut j: usize = i;
    let mut found = false;
    while j < n && !found
        invariant
            n == input@.len(),
            i <= j <= n,
            forall|m: int| i <= m < j ==> input@[m] != '=',
            found ==> j < n && input@[j as int] == '=',
        decreases n - j + (if found { 0int } else { 1int }),
    {
        if input.get_char(j) == '=' {
            found = true;
        } else {
            j = j + 1;
        }
    }
    proof {
        assert(t =~= input@.subrange(i as int, n as int));
        assert(forall|m: int| 0 <= m < j - i ==> t[m] != '=');
        lemma_find_first(t, |c: char| c == '=', j - i);
    }
    if !found {
        return ParsedLine::Empty;
    }
    let (ka, kb) = trim_range(input, i, j);
    let (va, vb) = trim_range(input, j + 1, n);
    let key = String::from_str(input.substring_char(ka, kb));
    let value = String::from_str(input.substring_char(va, vb));
    proof {
        assert(t.subrange(0, j - i) =~= input@.subrange(i as int, j as int));
        assert(t.subrange(j - i + 1, t.len() as int) =~= input@.subrange(j as int + 1, n as int));
    }
    ParsedLine::Setting(key, value)
}

/// Splits the input into physical lines, classifies each, and keeps the
/// settings in input order.
pub fn parse_config_lines(input: &str) -> (settings: Vec<(String, String)>)
    ensures
        settings@.map_values(|p: (String, String)| (p.0@, p.1@)) == settings_of(
            spec_lines(input@),
        ),
{
    let n = input.unicode_len();
    let mut settings: Vec<(String, String)> = Vec::new();
    let mut pos: usize = 0;
    let ghost mut done: Seq<Seq<char>> = Seq::empty();
    proof {
        assert(input@.subrange(0, n as int) =~= input@);
        assert(settings@.map_values((|p: (String, String)| (p.0@, p.1@))) =~= Seq::<(Seq<char>, Seq<char>)>::empty());
        assert(done + spec_lines(input@) =~= spec_lines(input@));
        assert(settings_of(done) =~= Seq::<(Seq<char>, Seq<char>)>::empty()) by {
            reveal(Seq::filter);
        }
    }
    loop
        invariant
            n == input@.len(),
            0 <= pos <= n,
            spec_lines(input@) == done + spec_lines(input@.subrange(pos as int, n as int)),
            settings@.map_values((|p: (String, String)| (p.0@, p.1@))) == settings_of(done),
        decreases n - pos,
    {
        let ghost suffix = input@.subrange(pos as int, n as int);
        let mut j: usize = pos;
        let mut found = false;
        while j < n && !found
            invariant
                n == input@.len(),
                pos <= j <= n,
                forall|m: int| pos <= m < j ==> !is_brk(input@[m]),
                found ==> j < n && is_brk(input@[j as int]),
            decreases n - j + (if found { 0int } else { 1int }),
        {
            let c = input.get_char(j);
            if c == '\n' || c == '\r' {
                found = true;
            } else {
                j = j + 1;
            }
        }
        proof {
            assert(forall|m: int| 0 <= m < j - pos ==> !is_brk(suffix[m]));
            lemma_find_first(suffix, |c: char| is_brk(c), j - pos);
        }
        let line = input.substring_char(pos, j);
        let p = parse_line_content(line);
        match p {
            ParsedLine::Setting(k, v) => {
                let ghost old_settings = settings@;
                settings.push((k, v));
                proof {
                    assert(settings@.map_values((|p: (String, String)| (p.0@, p.1@))) =~= old_settings.map_values((|p: (String, String)| (p.0@, p.1@))).push(
                        (k@, v@),
                    ));
                }
            },
            _ => {},
        }
        let ghost done0 = done;
        proof {
            lemma_settings_push(done, line@);
            done = done.push(line@);
            assert(suffix.subrange(0, j - pos) =~= line@);
        }
        if j == n {
            proof {
                assert(spec_lines(suffix) == seq![line@]);
                assert(done0 + spec_lines(suffix) =~= done);
            }
            return settings;
        }
        let c = input.get_char(j);
        if c == '\n' {
            proof {
                assert(suffix.subrange(j - pos + 1, suffix.len() as int) =~= input@.subrange(
                    j as int + 1,
                    n as int,
                ));
                assert(spec_lines(suffix) == seq![line@] + spec_lines(
                    input@.subrange(j as int + 1, n as int),
                ));
                assert(done0 + spec_lines(suffix) =~= done + spec_lines(
                    input@.subrange(j as int + 1, n as int),
                ));
            }
            pos = j + 1;
        } else {
            if j + 1 < n && input.get_char(j + 1) == '\n' {
                proof {
                    assert(suffix.subrange(j - pos + 2, suffix.len() as int) =~= input@.subrange(
                        j as int + 2,
                        n as int,
                    ));
                    assert(spec_lines(suffix) == seq![line@] + spec_lines(
                        input@.subrange(j as int + 2, n as int),
                    ));
                    assert(done0 + spec_lines(suffix) =~= done + spec_lines(
                        input@.subrange(j as int + 2, n as int),
                    ));
                }
                pos = j + 2;
            } else {
                proof {
                    assert(spec_lines(suffix) == seq![line@]);
                    assert(done0 + spec_lines(suffix) =~= done);
                }
                return settings;
            }
        }
    }
}

/// Parses the whole input into the nested document. The grammar is total:
/// the result is always `Ok`; the error channel is kept for compatibility.
pub fn parse_sysctl_conf_to_nested(input: &str) -> (r: Result<ConfigTable, String>)
    ensures
        r is Ok,
        (match r {
            Ok(t) => table_wf(t) && t@ == spec_doc(input@),
            Err(_) => false,
        }),
{
    let settings = parse_config_lines(input);
    let ghost ss = settings@.map_values((|p: (String, String)| (p.0@, p.1@)));
    let mut root = ConfigTable::new();
    let mut idx: usize = 0;
    proof {
        assert(ss.subrange(0, 0) =~= Seq::<(Seq<char>, Seq<char>)>::empty());
    }
    while idx < settings.len()
        invariant
            ss == settings@.map_values((|p: (String, String)| (p.0@, p.1@))),
            ss == settings_of(spec_lines(input@)),
            0 <= idx <= settings@.len(),
            table_wf(root),
            root@ == doc_of_settings(ss.subrange(0, idx as int)),
        decreases settings@.len() - idx,
    {
        insert_nested_key(&mut root, settings[idx].0.as_str(), settings[idx].1.as_str());
        proof {
            assert(ss.subrange(0, idx as int + 1).drop_last() =~= ss.subrange(0, idx as int));
            assert(ss.subrange(0, idx as int + 1).last() == ss[idx as int]);
        }
        idx = idx + 1;
    }
    proof {
        assert(ss.subrange(0, ss.len() as int) =~= ss);
    }
    Ok(root)
}

/// Parses the input, handing the document back directly: the grammar never
/// rejects, so no failure is possible.
pub fn parse_to_map(input: &str) -> (t: ConfigTable)
    ensures
        table_wf(t),
        t@ == spec_doc(input@),
{
    match parse_sysctl_conf_to_nested(input) {
        Ok(t) => t,
        Err(_) => vstd::pervasive::unreached(),
    }
}

} // verus!
