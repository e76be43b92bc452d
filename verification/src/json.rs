//! A JSON rendering of the document model and a parser for the canonical
//! text the renderer emits. Every leaf becomes a JSON string (quotes and
//! backslashes escaped), every table a JSON object, keys in entry order.
//! The parser accepts exactly the canonical renderings: it succeeds on a
//! text precisely when some well-formed document renders to it, and the
//! tree it hands back renders to the input verbatim. Together with
//! [`lemma_render_lossless`] this makes re-rendering idempotent and
//! lossless, which [`reparse`] states as a contract.
use crate::value::table_wf;
use crate::value::value_wf;
use crate::value::ConfigTable;
use crate::value::ConfigValue;
use crate::value::Entry;
use vstd::prelude::*;

verus! {

broadcast use {vstd::std_specs::vec::group_vec_axioms, vstd::seq::group_seq_axioms};

/// Characters that must be escaped inside a JSON string.
pub open spec fn needs_escape(c: char) -> bool {
    c == '"' || c == '\\'
}

/// JSON string escaping: a backslash before every quote and backslash.
pub open spec fn escape(s: Seq<char>) -> Seq<char>
    decreases s.len(),
{
    if s.len() == 0 {
        Seq::empty()
    } else {
        (if needs_escape(s[0]) {
            seq!['\\', s[0]]
        } else {
            seq![s[0]]
        }) + escape(s.drop_first())
    }
}

/// A rendered JSON string literal.
pub open spec fn render_string(s: Seq<char>) -> Seq<char> {
    seq!['"'] + escape(s) + seq!['"']
}

/// The JSON text of a value.
pub open spec fn render_value(v: ConfigValue) -> Seq<char>
    decreases v, 1int,
{
    match v {
        ConfigValue::Str(s) => render_string(s@),
        ConfigValue::Table(t) => render_table(t),
    }
}

/// The JSON text of a table: an object with its entries in order.
pub open spec fn render_table(t: ConfigTable) -> Seq<char>
    decreases t, 1int,
{
    seq!['{'] + render_entries(t.entries@, t.entries@.len() as int) + seq!['}']
}

/// The JSON text of one entry.
pub open spec fn render_entry(e: Entry) -> Seq<char>
    decreases e, 2int,
{
    render_string(e.key@) + seq![':'] + render_value(e.value)
}

/// The JSON text of the first `n` entries, comma-separated.
pub open spec fn render_entries(es: Seq<Entry>, n: int) -> Seq<char>
    decreases es, n,
    when n <= es.len()
{
    if n <= 0 {
        Seq::empty()
    } else if n == 1 {
        render_entry(es[0])
    } else {
        render_entries(es, n - 1) + seq![','] + render_entry(es[n - 1])
    }
}

/// Escaping distributes over concatenation.
pub proof fn lemma_escape_concat(a: Seq<char>, b: Seq<char>)
    ensures
        escape(a + b) == escape(a) + escape(b),
    decreases a.len(),
{
    if a.len() == 0 {
        assert(a + b =~= b);
        assert(escape(a) + escape(b) =~= escape(b));
    } else {
        assert((a + b).drop_first() =~= a.drop_first() + b);
        lemma_escape_concat(a.drop_first(), b);
        assert(escape(a + b) =~= escape(a) + escape(b));
    }
}

/// A sequence with nothing to escape is its own escaping.
pub proof fn lemma_escape_clean(s: Seq<char>)
    requires
        forall|i: int| 0 <= i < s.len() ==> !needs_escape(s[i]),
    ensures
        escape(s) == s,
    decreases s.len(),
{
    if s.len() > 0 {
        lemma_escape_clean(s.drop_first());
        assert(escape(s) =~= s);
    }
}

/// Appends the escaped form of `s` to `out`.
fn append_escaped(out: &mut String, s: &str)
    ensures
        final(out)@ == old(out)@ + escape(s@),
{
    let n = s.unicode_len();
    let mut i: usize = 0;
    let ghost base = out@;
    proof {
        assert(s@.subrange(0, 0) =~= Seq::<char>::empty());
        assert(base + escape(s@.subrange(0, 0)) =~= base);
    }
    while i < n
        invariant
            n == s@.len(),
            0 <= i <= n,
            base == old(out)@,
            out@ == base + escape(s@.subrange(0, i as int)),
        decreases n - i,
    {
        let ghost done = s@.subrange(0, i as int);
        let mut j: usize = i;
        let mut found = false;
        while j < n && !found
            invariant
                n == s@.len(),
                i <= j <= n,
                forall|m: int| i <= m < j ==> !needs_escape(s@[m]),
                found ==> j < n && needs_escape(s@[j as int]),
            decreases n - j + (if found { 0int } else { 1int }),
        {
            let c = s.get_char(j);
            if c == '"' || c == '\\' {
                found = true;
            } else {
                j = j + 1;
            }
        }
        let ghost run = s@.subrange(i as int, j as int);
        if j > i {
            out.append(s.substring_char(i, j));
        }
        proof {
            lemma_escape_clean(run);
            lemma_escape_concat(done, run);
            assert(done + run =~= s@.subrange(0, j as int));
            assert(out@ == base + escape(s@.subrange(0, j as int)));
        }
        if found {
            let c = s.get_char(j);
            if c == '"' {
                out.append("\\\"");
                proof {
                    reveal_strlit("\\\"");
                }
            } else {
                out.append("\\\\");
                proof {
                    reveal_strlit("\\\\");
                }
            }
            proof {
                let upto = s@.subrange(0, j as int);
                let one = s@.subrange(j as int, j as int + 1);
                lemma_escape_concat(upto, one);
                assert(one =~= seq![s@[j as int]]);
                assert(one.drop_first() =~= Seq::<char>::empty());
                assert(escape(Seq::<char>::empty()) =~= Seq::<char>::empty());
                assert(escape(one) =~= seq!['\\', s@[j as int]]);
                assert(upto + one =~= s@.subrange(0, j as int + 1));
                assert(out@ == base + escape(s@.subrange(0, j as int + 1)));
            }
            i = j + 1;
        } else {
            i = j;
            proof {
                assert(s@.subrange(0, n as int) =~= s@);
            }
            return ;
        }
    }
    proof {
        assert(s@.subrange(0, n as int) =~= s@);
    }
}

/// Appends the JSON text of a value to `out`.
fn render_value_into(out: &mut String, v: &ConfigValue)
    ensures
        final(out)@ == old(out)@ + render_value(*v),
    decreases *v, 1int,
{
    match v {
        ConfigValue::Str(s) => {
            out.append("\"");
            append_escaped(out, s.as_str());
            out.append("\"");
            proof {
                reveal_strlit("\"");
                assert(out@ =~= old(out)@ + render_string(s@));
            }
        },
        ConfigValue::Table(t) => {
            render_table_into(out, t);
        },
    }
}

/// Appends the JSON text of a table to `out`.
fn render_table_into(out: &mut String, t: &ConfigTable)
    ensures
        final(out)@ == old(out)@ + render_table(*t),
    decreases *t, 1int,
{
    let ghost base = out@;
    out.append("{");
    proof {
        reveal_strlit("{");
        reveal_strlit("}");
    }
    let mut i: usize = 0;
    while i < t.entries.len()
        invariant
            0 <= i <= t.entries@.len(),
            base == old(out)@,
            out@ == base + seq!['{'] + render_entries(t.entries@, i as int),
        decreases t.entries@.len() - i,
    {
        let ghost sofar = out@;
        if i > 0 {
            out.append(",");
            proof {
                reveal_strlit(",");
            }
        }
        out.append("\"");
        append_escaped(out, t.entries[i].key.as_str());
        out.append("\":");
        render_value_into(out, &t.entries[i].value);
        proof {
            reveal_strlit("\"");
            reveal_strlit("\":");
            let e = t.entries@[i as int];
            assert(out@ =~= sofar + (if i == 0 {
                Seq::<char>::empty()
            } else {
                seq![',']
            }) + render_entry(e));
            assert(out@ =~= base + seq!['{'] + render_entries(t.entries@, i as int + 1));
        }
        i = i + 1;
    }
    out.append("}");
    proof {
        assert(out@ =~= base + render_table(*t));
    }
}

/// Renders a document as canonical JSON text.
pub fn to_json(t: &ConfigTable) -> (r: String)
    ensures
        r@ == render_table(*t),
{
    let mut out = String::new();
    render_table_into(&mut out, t);
    proof {
        assert(Seq::<char>::empty() + render_table(*t) =~= render_table(*t));
    }
    out
}

/// Escaping one more character appends its escaped form.
pub proof fn lemma_escape_push(a: Seq<char>, c: char)
    ensures
        escape(a.push(c)) == escape(a) + (if needs_escape(c) {
            seq!['\\', c]
        } else {
            seq![c]
        }),
{
    lemma_escape_concat(a, seq![c]);
    assert(a + seq![c] =~= a.push(c));
    assert(seq![c].drop_first() =~= Seq::<char>::empty());
    assert(escape(Seq::<char>::empty()) =~= Seq::<char>::empty());
    assert(escape(seq![c]) =~= (if needs_escape(c) {
        seq!['\\', c]
    } else {
        seq![c]
    }));
}

/// From a scanner dead end, no rendered string literal lies at `pos`.
proof fn lemma_no_string_here(s: Seq<char>, pos: int, cur: int, j: int, kacc: Seq<char>)
    requires
        0 <= pos < cur <= j <= s.len(),
        escape(kacc) == s.subrange(pos + 1, cur),
        forall|m: int| cur <= m < j ==> !needs_escape(s[m]),
        j == s.len() || (s[j] == '\\' && (j + 1 == s.len() || !needs_escape(s[j + 1]))),
    ensures
        no_string_at(s, pos),
{
    let c_run = s.subrange(cur, j);
    let t = s.subrange(j, s.len() as int);
    assert(clean_run(c_run));
    assert forall|k2: Seq<char>, end: int|
        !(pos < end <= s.len() && #[trigger] render_string(k2) == #[trigger] s.subrange(
            pos,
            end,
        )) by {
        if pos < end <= s.len() && render_string(k2) == s.subrange(pos, end) {
            assert(render_string(k2).len() == end - pos);
            assert(escape(k2).len() == end - pos - 2);
            assert forall|m: int| 0 <= m < escape(k2).len() implies escape(k2)[m] == s[pos + 1
                + m] by {
                assert(render_string(k2)[m + 1] == escape(k2)[m]);
                assert(s.subrange(pos, end)[m + 1] == s[pos + 1 + m]);
            }
            assert(s[end - 1] == '"') by {
                assert(render_string(k2)[end - pos - 1] == '"');
                assert(s.subrange(pos, end)[end - pos - 1] == s[end - 1]);
            }
            assert(escape(k2) + seq!['"'] + s.subrange(end, s.len() as int) =~= s.subrange(
                pos + 1,
                s.len() as int,
            ));
            assert(escape(kacc) + c_run + t =~= s.subrange(pos + 1, s.len() as int));
            lemma_scan_dead_end(kacc, c_run, t, k2, s.subrange(end, s.len() as int));
        }
    }
}

/// Parses a JSON string literal at `pos`: a quote, characters with quotes
/// and backslashes escaped, a quote. A successful parse hands back content
/// that renders to exactly the consumed text.
fn parse_json_string(s: &str, pos: usize) -> (r: Option<(String, usize)>)
    requires
        pos <= s@.len(),
    ensures
        (match r {
            Some(p) => pos < p.1 <= s@.len() && render_string(p.0@) == s@.subrange(
                pos as int,
                p.1 as int,
            ),
            None => no_string_at(s@, pos as int),
        }),
{
    let n = s.unicode_len();
    if pos >= n || s.get_char(pos) != '"' {
        proof {
            assert forall|k2: Seq<char>, end: int|
                !(pos < end <= s@.len() && #[trigger] render_string(k2) == #[trigger] s@.subrange(
                    pos as int,
                    end,
                )) by {
                if pos < end <= s@.len() && render_string(k2) == s@.subrange(pos as int, end) {
                    assert(s@.subrange(pos as int, end)[0] == s@[pos as int]);
                    assert(render_string(k2)[0] == '"');
                }
            }
        }
        return None;
    }
    let mut k = String::new();
    let mut cur: usize = pos + 1;
    proof {
        assert(escape(k@) =~= s@.subrange(pos as int + 1, cur as int));
    }
    loop
        invariant
            n == s@.len(),
            pos + 1 <= cur <= n,
            s@[pos as int] == '"',
            escape(k@) == s@.subrange(pos as int + 1, cur as int),
        decreases n - cur,
    {
        let ghost k0 = k@;
        let mut j: usize = cur;
        let mut stop = false;
        while j < n && !stop
            invariant
                n == s@.len(),
                cur <= j <= n,
                forall|m: int| cur <= m < j ==> !needs_escape(s@[m]),
                stop ==> j < n && needs_escape(s@[j as int]),
            decreases n - j + (if stop { 0int } else { 1int }),
        {
            let c = s.get_char(j);
            if c == '"' || c == '\\' {
                stop = true;
            } else {
                j = j + 1;
            }
        }
        if j > cur {
            k.append(s.substring_char(cur, j));
        }
        proof {
            let run = s@.subrange(cur as int, j as int);
            lemma_escape_clean(run);
            lemma_escape_concat(k0, run);
            assert(k0 + run =~= k@);
            assert(s@.subrange(pos as int + 1, cur as int) + run =~= s@.subrange(
                pos as int + 1,
                j as int,
            ));
        }
        if !stop {
            proof {
                lemma_no_string_here(s@, pos as int, j as int, j as int, k@);
            }
            return None;
        }
        let c = s.get_char(j);
        if c == '"' {
            proof {
                assert(render_string(k@) =~= s@.subrange(pos as int, j as int + 1));
            }
            return Some((k, j + 1));
        }
        if n - j < 2 {
            proof {
                lemma_no_string_here(s@, pos as int, j as int, j as int, k@);
            }
            return None;
        }
        let ghost k1 = k@;
        let c2 = s.get_char(j + 1);
        if c2 == '"' {
            k.append("\"");
            proof {
                reveal_strlit("\"");
            }
        } else if c2 == '\\' {
            k.append("\\");
            proof {
                reveal_strlit("\\");
            }
        } else {
            proof {
                lemma_no_string_here(s@, pos as int, j as int, j as int, k@);
            }
            return None;
        }
        proof {
            assert(k@ =~= k1.push(c2));
            lemma_escape_push(k1, c2);
            assert(escape(k@) =~= s@.subrange(pos as int + 1, j as int + 2));
        }
        cur = j + 2;
    }
}

/// Parses `string ':' value (',' string ':' value)* '}'` at `pos`: the
/// members of a non-empty object together with its closing brace. A
/// successful parse hands back entries with well-formed values rendering,
/// brace included, to exactly the consumed text; a failure means no such
/// run of members lies at `pos`.
#[verifier::rlimit(100)]
fn parse_members(s: &str, pos: usize) -> (r: Option<(Vec<Entry>, usize)>)
    requires
        pos <= s@.len(),
    ensures
        (match r {
            Some(p) => pos < p.1 <= s@.len() && p.0@.len() >= 1 && members_ok(p.0@)
                && render_tail(p.0@, 0, p.0@.len() as int) + seq!['}'] == s@.subrange(
                pos as int,
                p.1 as int,
            ),
            None => no_members_at(s@, pos as int),
        }),
    decreases s@.len() - pos, 0int,
{
    let n = s.unicode_len();
    let kr = parse_json_string(s, pos);
    let (key, kend) = match kr {
        Some(p) => p,
        None => {
            proof {
                assert forall|es: Seq<Entry>, end: int|
                    !(members_ok(es) && es.len() >= 1 && pos < end <= s@.len()
                        && #[trigger] render_tail(es, 0, es.len() as int) + seq!['}']
                        == #[trigger] s@.subrange(pos as int, end)) by {
                    if members_ok(es) && es.len() >= 1 && pos < end <= s@.len() && render_tail(
                        es,
                        0,
                        es.len() as int,
                    ) + seq!['}'] == s@.subrange(pos as int, end) {
                        lemma_members_head(s@, pos as int, es, end);
                        let kend0 = pos + render_string(es[0].key@).len();
                        assert(render_string(es[0].key@) == s@.subrange(pos as int, kend0));
                    }
                }
            }
            return None;
        },
    };
    if kend >= n || s.get_char(kend) != ':' {
        proof {
            assert forall|es: Seq<Entry>, end: int|
                !(members_ok(es) && es.len() >= 1 && pos < end <= s@.len()
                    && #[trigger] render_tail(es, 0, es.len() as int) + seq!['}']
                    == #[trigger] s@.subrange(pos as int, end)) by {
                if members_ok(es) && es.len() >= 1 && pos < end <= s@.len() && render_tail(
                    es,
                    0,
                    es.len() as int,
                ) + seq!['}'] == s@.subrange(pos as int, end) {
                    lemma_members_head(s@, pos as int, es, end);
                    let kend0 = pos + render_string(es[0].key@).len();
                    lemma_string_align(s@, pos as int, key@, kend as int, es[0].key@, kend0);
                }
            }
        }
        return None;
    }
    let vr = parse_json_value(s, kend + 1);
    let (value, vend) = match vr {
        Some(p) => p,
        None => {
            proof {
                assert forall|es: Seq<Entry>, end: int|
                    !(members_ok(es) && es.len() >= 1 && pos < end <= s@.len()
                        && #[trigger] render_tail(es, 0, es.len() as int) + seq!['}']
                        == #[trigger] s@.subrange(pos as int, end)) by {
                    if members_ok(es) && es.len() >= 1 && pos < end <= s@.len() && render_tail(
                        es,
                        0,
                        es.len() as int,
                    ) + seq!['}'] == s@.subrange(pos as int, end) {
                        lemma_members_head(s@, pos as int, es, end);
                        let kend0 = pos + render_string(es[0].key@).len();
                        lemma_string_align(s@, pos as int, key@, kend as int, es[0].key@, kend0);
                        let vend0 = kend0 + 1 + render_value(es[0].value).len();
                        assert(value_wf(es[0].value));
                        assert(render_value(es[0].value) == s@.subrange(kend as int + 1, vend0));
                    }
                }
            }
            return None;
        },
    };
    if vend >= n {
        proof {
            assert forall|es: Seq<Entry>, end: int|
                !(members_ok(es) && es.len() >= 1 && pos < end <= s@.len()
                    && #[trigger] render_tail(es, 0, es.len() as int) + seq!['}']
                    == #[trigger] s@.subrange(pos as int, end)) by {
                if members_ok(es) && es.len() >= 1 && pos < end <= s@.len() && render_tail(
                    es,
                    0,
                    es.len() as int,
                ) + seq!['}'] == s@.subrange(pos as int, end) {
                    lemma_members_head(s@, pos as int, es, end);
                    let kend0 = pos + render_string(es[0].key@).len();
                    lemma_string_align(s@, pos as int, key@, kend as int, es[0].key@, kend0);
                    let vend0 = kend0 + 1 + render_value(es[0].value).len();
                    lemma_value_align(s@, kend as int + 1, value, vend as int, es[0].value, vend0);
                }
            }
        }
        return None;
    }
    let c2 = s.get_char(vend);
    if c2 == ',' {
        match parse_members(s, vend + 1) {
            Some(p) => {
                let (mut es_vec, end2) = p;
                let ghost rq = es_vec@;
                let e = Entry { key, value };
                let ghost ge = e;
                es_vec.insert(0, e);
                proof {
                    let esq = es_vec@;
                    let m = esq.len() as int;
                    assert(esq[0] == ge);
                    assert(esq.drop_first() =~= rq);
                    lemma_render_tail_shift(esq, 1, m);
                    assert(render_tail(esq.drop_first(), 0, m - 1) == render_tail(
                        rq,
                        0,
                        rq.len() as int,
                    ));
                    assert(render_entry(ge) =~= s@.subrange(pos as int, vend as int));
                    assert(m >= 2);
                    assert(render_tail(esq, 0, m) == render_entry(esq[0]) + seq![',']
                        + render_tail(esq, 1, m));
                    assert(s@[vend as int] == ',');
                    assert(render_tail(rq, 0, rq.len() as int) + seq!['}'] == s@.subrange(
                        vend as int + 1,
                        end2 as int,
                    ));
                    let tail_part = render_tail(rq, 0, rq.len() as int) + seq!['}'];
                    assert(seq![','] =~= s@.subrange(vend as int, vend as int + 1));
                    assert(render_tail(esq, 0, m) + seq!['}'] =~= render_entry(ge) + seq![',']
                        + tail_part);
                    assert(s@.subrange(pos as int, vend as int) + s@.subrange(
                        vend as int,
                        vend as int + 1,
                    ) + s@.subrange(vend as int + 1, end2 as int) =~= s@.subrange(
                        pos as int,
                        end2 as int,
                    ));
                    assert(render_entry(ge) + seq![','] + tail_part =~= s@.subrange(
                        pos as int,
                        end2 as int,
                    ));
                    assert forall|q: int| 0 <= q < m implies value_wf(
                        (#[trigger] esq[q]).value,
                    ) by {
                        if q >= 1 {
                            assert(esq[q] == rq[q - 1]);
                        }
                    }
                }
                Some((es_vec, end2))
            },
            None => {
                proof {
                    assert forall|es: Seq<Entry>, end: int|
                        !(members_ok(es) && es.len() >= 1 && pos < end <= s@.len()
                            && #[trigger] render_tail(es, 0, es.len() as int) + seq!['}']
                            == #[trigger] s@.subrange(pos as int, end)) by {
                        if members_ok(es) && es.len() >= 1 && pos < end <= s@.len() && render_tail(
                            es,
                            0,
                            es.len() as int,
                        ) + seq!['}'] == s@.subrange(pos as int, end) {
                            lemma_members_head(s@, pos as int, es, end);
                            let kend0 = pos + render_string(es[0].key@).len();
                            lemma_string_align(
                                s@,
                                pos as int,
                                key@,
                                kend as int,
                                es[0].key@,
                                kend0,
                            );
                            let vend0 = kend0 + 1 + render_value(es[0].value).len();
                            lemma_value_align(
                                s@,
                                kend as int + 1,
                                value,
                                vend as int,
                                es[0].value,
                                vend0,
                            );
                            assert(es.len() > 1);
                            lemma_render_tail_shift(es, 1, es.len() as int);
                            let es1 = es.drop_first();
                            assert(render_tail(es1, 0, es1.len() as int) + seq!['}']
                                == s@.subrange(vend as int + 1, end));
                            assert forall|q: int| 0 <= q < es1.len() implies value_wf(
                                (#[trigger] es1[q]).value,
                            ) by {
                                assert(es1[q] == es[q + 1]);
                            }
                            assert(members_ok(es1));
                        }
                    }
                }
                None
            },
        }
    } else if c2 == '}' {
        let e = Entry { key, value };
        let ghost ge = e;
        let mut es_vec: Vec<Entry> = Vec::new();
        es_vec.push(e);
        proof {
            assert(es_vec@[0] == ge);
            assert(render_tail(es_vec@, 0, 1) == render_entry(ge));
            assert(render_entry(ge) =~= s@.subrange(pos as int, vend as int));
            assert(render_tail(es_vec@, 0, 1) + seq!['}'] =~= s@.subrange(
                pos as int,
                vend as int + 1,
            ));
        }
        Some((es_vec, vend + 1))
    } else {
        proof {
            assert forall|es: Seq<Entry>, end: int|
                !(members_ok(es) && es.len() >= 1 && pos < end <= s@.len()
                    && #[trigger] render_tail(es, 0, es.len() as int) + seq!['}']
                    == #[trigger] s@.subrange(pos as int, end)) by {
                if members_ok(es) && es.len() >= 1 && pos < end <= s@.len() && render_tail(
                    es,
                    0,
                    es.len() as int,
                ) + seq!['}'] == s@.subrange(pos as int, end) {
                    lemma_members_head(s@, pos as int, es, end);
                    let kend0 = pos + render_string(es[0].key@).len();
                    lemma_string_align(s@, pos as int, key@, kend as int, es[0].key@, kend0);
                    let vend0 = kend0 + 1 + render_value(es[0].value).len();
                    lemma_value_align(s@, kend as int + 1, value, vend as int, es[0].value, vend0);
                }
            }
        }
        None
    }
}

/// Parses a JSON value at `pos`: a string or an object of the canonical
/// form the renderer emits. A successful parse hands back a well-formed
/// value that renders to exactly the consumed text; a failure means no
/// well-formed value renders to any stretch of text starting at `pos`.
pub fn parse_json_value(s: &str, pos: usize) -> (r: Option<(ConfigValue, usize)>)
    requires
        pos <= s@.len(),
    ensures
        (match r {
            Some(p) => pos < p.1 <= s@.len() && value_wf(p.0) && render_value(p.0) == s@.subrange(
                pos as int,
                p.1 as int,
            ),
            None => no_value_at(s@, pos as int),
        }),
    decreases s@.len() - pos, 1int,
{
    let n = s.unicode_len();
    if pos >= n {
        proof {
            assert forall|v: ConfigValue, end: int|
                !(value_wf(v) && pos < end <= s@.len() && #[trigger] render_value(v)
                    == #[trigger] s@.subrange(pos as int, end)) by {}
        }
        return None;
    }
    let c = s.get_char(pos);
    if c == '"' {
        match parse_json_string(s, pos) {
            Some((k, end)) => {
                return Some((ConfigValue::Str(k), end));
            },
            None => {
                proof {
                    assert forall|v: ConfigValue, end: int|
                        !(value_wf(v) && pos < end <= s@.len() && #[trigger] render_value(v)
                            == #[trigger] s@.subrange(pos as int, end)) by {
                        if value_wf(v) && pos < end <= s@.len() && render_value(v) == s@.subrange(
                            pos as int,
                            end,
                        ) {
                            lemma_render_value_shape(v);
                            assert(s@.subrange(pos as int, end)[0] == s@[pos as int]);
                            match v {
                                ConfigValue::Str(sv) => {
                                    assert(render_string(sv@) == s@.subrange(pos as int, end));
                                },
                                ConfigValue::Table(_) => {
                                    assert(render_value(v)[0] == '{');
                                },
                            }
                        }
                    }
                }
                return None;
            },
        }
    }
    if c != '{' {
        proof {
            assert forall|v: ConfigValue, end: int|
                !(value_wf(v) && pos < end <= s@.len() && #[trigger] render_value(v)
                    == #[trigger] s@.subrange(pos as int, end)) by {
                if value_wf(v) && pos < end <= s@.len() && render_value(v) == s@.subrange(
                    pos as int,
                    end,
                ) {
                    lemma_render_value_shape(v);
                    assert(s@.subrange(pos as int, end)[0] == s@[pos as int]);
                }
            }
        }
        return None;
    }
    if pos + 1 < n && s.get_char(pos + 1) == '}' {
        let entries: Vec<Entry> = Vec::new();
        let t = ConfigTable { entries };
        proof {
            assert(render_entries(t.entries@, 0) =~= Seq::<char>::empty());
            assert(render_table(t) =~= s@.subrange(pos as int, pos as int + 2));
        }
        return Some((ConfigValue::Table(t), pos + 2));
    }
    // an object that is not `{}`: members must follow the brace
    match parse_members(s, pos + 1) {
        None => {
            proof {
                assert forall|v: ConfigValue, end: int|
                    !(value_wf(v) && pos < end <= s@.len() && #[trigger] render_value(v)
                        == #[trigger] s@.subrange(pos as int, end)) by {
                    if value_wf(v) && pos < end <= s@.len() && render_value(v) == s@.subrange(
                        pos as int,
                        end,
                    ) {
                        lemma_render_value_shape(v);
                        assert(s@.subrange(pos as int, end)[0] == s@[pos as int]);
                        match v {
                            ConfigValue::Str(sv) => {
                                assert(render_value(v)[0] == '"');
                            },
                            ConfigValue::Table(t) => {
                                let es = t.entries@;
                                let nn = es.len() as int;
                                if nn == 0 {
                                    assert(render_table(t) =~= seq!['{', '}']);
                                    assert(s@.subrange(pos as int, end)[1] == s@[pos as int + 1]);
                                    assert(render_value(v)[1] == '}');
                                } else {
                                    lemma_render_entries_front(es, nn);
                                    let mid = render_tail(es, 0, nn) + seq!['}'];
                                    assert forall|m: int| 0 <= m < mid.len() implies mid[m]
                                        == s@[pos as int + 1 + m] by {
                                        assert(render_value(v)[m + 1] == mid[m]);
                                        assert(s@.subrange(pos as int, end)[m + 1] == s@[
                                            pos as int + 1 + m]);
                                    }
                                    assert(mid =~= s@.subrange(pos as int + 1, end));
                                    crate::value::lemma_entries_wf_distinct(es, nn);
                                    assert(members_ok(es));
                                    assert(render_tail(es, 0, es.len() as int) + seq!['}']
                                        == s@.subrange(pos as int + 1, end));
                                }
                            },
                        }
                    }
                }
            }
            return None;
        },
        Some((es_vec, end2)) => {
            // reject duplicate keys: a well-formed table never renders them
            let mut i: usize = 1;
            while i < es_vec.len()
                invariant
                    pos < n == s@.len(),
                    s@[pos as int] == '{',
                    pos + 1 < end2 <= n,
                    !(pos + 1 < n && s@[pos as int + 1] == '}'),
                    es_vec@.len() >= 1,
                    members_ok(es_vec@),
                    render_tail(es_vec@, 0, es_vec@.len() as int) + seq!['}'] == s@.subrange(
                        pos as int + 1,
                        end2 as int,
                    ),
                    1 <= i <= es_vec@.len(),
                    forall|a: int, b: int|
                        0 <= a < b < i ==> (#[trigger] es_vec@[a]).key@ != (
                        #[trigger] es_vec@[b]).key@,
                decreases es_vec@.len() - i,
            {
                let mut x: usize = 0;
                while x < i
                    invariant
                        pos < n == s@.len(),
                        s@[pos as int] == '{',
                        pos + 1 < end2 <= n,
                        !(pos + 1 < n && s@[pos as int + 1] == '}'),
                        es_vec@.len() >= 1,
                        members_ok(es_vec@),
                        render_tail(es_vec@, 0, es_vec@.len() as int) + seq!['}'] == s@.subrange(
                            pos as int + 1,
                            end2 as int,
                        ),
                        i < es_vec@.len(),
                        0 <= x <= i,
                        forall|a: int| 0 <= a < x ==> (#[trigger] es_vec@[a]).key@ != es_vec@[
                            i as int].key@,
                    decreases i - x,
                {
                    if crate::text::str_eq(es_vec[x].key.as_str(), es_vec[i].key.as_str()) {
                        proof {
                            lemma_no_wf_table_with_dup(
                                s@,
                                pos as int,
                                es_vec@,
                                end2 as int,
                                x as int,
                                i as int,
                            );
                        }
                        return None;
                    }
                    x = x + 1;
                }
                i = i + 1;
            }
            let t = ConfigTable { entries: es_vec };
            proof {
                crate::value::lemma_entries_wf_build(t.entries@, t.entries@.len() as int);
                lemma_render_entries_front(t.entries@, t.entries@.len() as int);
                assert(render_entries(t.entries@, t.entries@.len() as int) + seq!['}']
                    == s@.subrange(pos as int + 1, end2 as int));
                assert(seq!['{'] =~= s@.subrange(pos as int, pos as int + 1));
                assert(s@.subrange(pos as int, pos as int + 1) + s@.subrange(
                    pos as int + 1,
                    end2 as int,
                ) =~= s@.subrange(pos as int, end2 as int));
                assert(render_table(t) =~= seq!['{'] + (render_entries(
                    t.entries@,
                    t.entries@.len() as int,
                ) + seq!['}']));
                assert(render_table(t) =~= s@.subrange(pos as int, end2 as int));
            }
            return Some((ConfigValue::Table(t), end2));
        },
    }
}

/// When members with a repeated key occupy the inside of a braced object,
/// no well-formed value renders to any stretch of text starting at the
/// brace.
#[verifier::rlimit(100)]
proof fn lemma_no_wf_table_with_dup(
    s: Seq<char>,
    pos: int,
    es: Seq<Entry>,
    end2: int,
    x: int,
    i: int,
)
    requires
        0 <= pos < s.len(),
        s[pos] == '{',
        pos + 1 < end2 <= s.len(),
        !(pos + 1 < s.len() && s[pos + 1] == '}'),
        es.len() >= 1,
        render_tail(es, 0, es.len() as int) + seq!['}'] == s.subrange(pos + 1, end2),
        0 <= x < i < es.len(),
        es[x].key@ == es[i].key@,
    ensures
        no_value_at(s, pos),
{
    assert forall|v: ConfigValue, end: int|
        !(value_wf(v) && pos < end <= s.len() && #[trigger] render_value(v)
            == #[trigger] s.subrange(pos, end)) by {
        if value_wf(v) && pos < end <= s.len() && render_value(v) == s.subrange(pos, end) {
            lemma_render_value_shape(v);
            assert(s.subrange(pos, end)[0] == s[pos]);
            match v {
                ConfigValue::Str(sv) => {
                    assert(render_value(v)[0] == '"');
                },
                ConfigValue::Table(t) => {
                    let ts = t.entries@;
                    let nn = ts.len() as int;
                    if nn == 0 {
                        assert(render_table(t) =~= seq!['{', '}']);
                        assert(s.subrange(pos, end)[1] == s[pos + 1]);
                        assert(render_value(v)[1] == '}');
                    } else {
                        lemma_render_entries_front(ts, nn);
                        let mid = render_tail(ts, 0, nn) + seq!['}'];
                        assert forall|m: int| 0 <= m < mid.len() implies mid[m] == s[pos + 1
                            + m] by {
                            assert(render_value(v)[m + 1] == mid[m]);
                            assert(s.subrange(pos, end)[m + 1] == s[pos + 1 + m]);
                        }
                        assert(mid =~= s.subrange(pos + 1, end));
                        lemma_subrange_glue(s, pos + 1, end, mid);
                        lemma_subrange_glue(s, pos + 1, end2, render_tail(es, 0, es.len() as int)
                            + seq!['}']);
                        assert(render_tail(ts, 0, nn) + seq!['}'] + s.subrange(end, s.len() as int)
                            =~= (mid) + s.subrange(end, s.len() as int));
                        assert(render_tail(es, 0, es.len() as int) + seq!['}'] + s.subrange(
                            end2,
                            s.len() as int,
                        ) =~= (render_tail(es, 0, es.len() as int) + seq!['}']) + s.subrange(
                            end2,
                            s.len() as int,
                        ));
                        lemma_render_tail_inj(
                            ts,
                            0,
                            nn,
                            es,
                            0,
                            es.len() as int,
                            s.subrange(end, s.len() as int),
                            s.subrange(end2, s.len() as int),
                        );
                        assert(ts[0 + x].key@ == es[0 + x].key@);
                        assert(ts[0 + i].key@ == es[0 + i].key@);
                        crate::value::lemma_entries_wf_distinct(ts, nn);
                        assert(ts[x].key@ != ts[i].key@);
                    }
                },
            }
        }
    }
}


/// Parses a whole canonical JSON document: one object covering the entire
/// text. A successful parse hands back a well-formed table whose rendering
/// is exactly the input, so re-rendering a parsed document reproduces the
/// parsed text without loss; a failure means no well-formed document
/// renders to the input.
pub fn from_json(s: &str) -> (r: Option<ConfigTable>)
    ensures
        (match r {
            Some(t) => table_wf(t) && render_table(t) == s@,
            None => forall|t: ConfigTable| !(table_wf(t) && #[trigger] render_table(t) == s@),
        }),
{
    let n = s.unicode_len();
    proof {
        assert(s@.subrange(0, n as int) =~= s@);
    }
    match parse_json_value(s, 0) {
        Some((v, end)) => {
            if end == n {
                match v {
                    ConfigValue::Table(t) => {
                        Some(t)
                    },
                    ConfigValue::Str(sv) => {
                        proof {
                            assert forall|t: ConfigTable|
                                !(table_wf(t) && #[trigger] render_table(t) == s@) by {
                                if table_wf(t) && render_table(t) == s@ {
                                    lemma_render_value_shape(ConfigValue::Table(t));
                                    assert(render_value(ConfigValue::Table(t)) == s@.subrange(
                                        0,
                                        n as int,
                                    ));
                                    lemma_value_align(
                                        s@,
                                        0,
                                        ConfigValue::Str(sv),
                                        end as int,
                                        ConfigValue::Table(t),
                                        n as int,
                                    );
                                }
                            }
                        }
                        None
                    },
                }
            } else {
                proof {
                    assert forall|t: ConfigTable|
                        !(table_wf(t) && #[trigger] render_table(t) == s@) by {
                        if table_wf(t) && render_table(t) == s@ {
                            lemma_render_value_shape(ConfigValue::Table(t));
                            assert(render_value(ConfigValue::Table(t)) == s@.subrange(
                                0,
                                n as int,
                            ));
                            lemma_value_align(
                                s@,
                                0,
                                v,
                                end as int,
                                ConfigValue::Table(t),
                                n as int,
                            );
                        }
                    }
                }
                None
            }
        },
        None => {
            proof {
                assert forall|t: ConfigTable| !(table_wf(t) && #[trigger] render_table(t) == s@)
                    by {
                    if table_wf(t) && render_table(t) == s@ {
                        lemma_render_value_shape(ConfigValue::Table(t));
                        assert(value_wf(ConfigValue::Table(t)));
                        assert(render_value(ConfigValue::Table(t)) == s@.subrange(0, n as int));
                    }
                }
            }
            None
        },
    }
}

/// Re-rendering is idempotent, and nothing is lost: rendering a document,
/// parsing the text back, and re-rendering reproduces the same text, and
/// the parsed document has the same model as the one rendered.
pub fn reparse(t: &ConfigTable) -> (r: ConfigTable)
    requires
        table_wf(*t),
    ensures
        table_wf(r),
        r@ == t@,
        render_table(r) == render_table(*t),
{
    let text = to_json(t);
    match from_json(text.as_str()) {
        Some(t2) => {
            proof {
                lemma_render_lossless(t2, *t);
            }
            t2
        },
        None => {
            proof {
                assert(table_wf(*t) && render_table(*t) == text@);
            }
            vstd::pervasive::unreached()
        },
    }
}

/// Front-to-back rendering of entries `i` through `n - 1`.
pub open spec fn render_tail(es: Seq<Entry>, i: int, n: int) -> Seq<char>
    decreases es, n - i,
    when 0 <= i < n <= es.len()
{
    if i + 1 < n {
        render_entry(es[i]) + seq![','] + render_tail(es, i + 1, n)
    } else {
        render_entry(es[i])
    }
}

/// The back-to-front and front-to-back renderings agree.
pub proof fn lemma_render_entries_is_tail(es: Seq<Entry>, i: int, n: int)
    requires
        0 <= i < n <= es.len(),
    ensures
        render_tail(es, i, n) == render_tail(es, i, n - 1) + seq![','] + render_entry(
            es[n - 1],
        ) || (i == n - 1 && render_tail(es, i, n) == render_entry(es[i])),
    decreases n - i,
{
    if i + 1 < n {
        lemma_render_entries_is_tail(es, i + 1, n);
        if i + 1 < n - 1 || i + 1 == n - 1 {
        }
        if i < n - 1 && i + 1 == n - 1 {
            assert(render_tail(es, i, n) =~= render_tail(es, i, n - 1) + seq![','] + render_entry(
                es[n - 1],
            ));
        } else {
            assert(render_tail(es, i, n) =~= render_tail(es, i, n - 1) + seq![','] + render_entry(
                es[n - 1],
            ));
        }
    }
}

/// `render_entries` renders front to back.
pub proof fn lemma_render_entries_front(es: Seq<Entry>, n: int)
    requires
        1 <= n <= es.len(),
    ensures
        render_entries(es, n) == render_tail(es, 0, n),
    decreases n,
{
    if n == 1 {
    } else {
        lemma_render_entries_front(es, n - 1);
        lemma_render_entries_is_tail(es, 0, n);
    }
}

/// A rendered value is at least two characters and starts with a quote
/// exactly when it is a leaf, else with an opening brace.
pub proof fn lemma_render_value_shape(v: ConfigValue)
    ensures
        render_value(v).len() >= 2,
        (v is Str) ==> render_value(v)[0] == '"',
        (v is Table) ==> render_value(v)[0] == '{',
{
}

/// Unique decomposition of an escaped string before its closing quote:
/// equal texts split at the first unescaped quote in only one way.
pub proof fn lemma_escape_quote_decomp(a: Seq<char>, b: Seq<char>, x: Seq<char>, y: Seq<char>)
    requires
        escape(a) + seq!['"'] + x == escape(b) + seq!['"'] + y,
    ensures
        a == b,
        x == y,
    decreases a.len(),
{
    let w = escape(a) + seq!['"'] + x;
    if a.len() == 0 {
        if b.len() == 0 {
            assert(w[0] == '"');
            assert(forall|m: int| 0 <= m < x.len() ==> x[m] == w[m + 1]);
            assert(x =~= y);
        } else {
            assert(w[0] == '"');
            if needs_escape(b[0]) {
                assert(w[0] == '\\');
            } else {
                assert(w[0] == b[0]);
            }
        }
    } else if b.len() == 0 {
        assert(w[0] == '"');
        if needs_escape(a[0]) {
            assert(w[0] == '\\');
        } else {
            assert(w[0] == a[0]);
        }
    } else {
        if needs_escape(a[0]) && needs_escape(b[0]) {
            assert(w[0] == '\\');
            assert(w[1] == a[0]);
            assert(w[1] == b[0]);
            assert(w.skip(2) =~= escape(a.drop_first()) + seq!['"'] + x);
            assert(w.skip(2) =~= escape(b.drop_first()) + seq!['"'] + y);
            lemma_escape_quote_decomp(a.drop_first(), b.drop_first(), x, y);
            assert forall|m: int| 0 <= m < a.len() implies a[m] == b[m] by {
                if m >= 1 {
                    assert(a[m] == a.drop_first()[m - 1]);
                    assert(b.drop_first()[m - 1] == b[m]);
                }
            }
            assert(a =~= b);
        } else if needs_escape(a[0]) {
            assert(w[0] == '\\');
            assert(w[0] == b[0]);
        } else if needs_escape(b[0]) {
            assert(w[0] == '\\');
            assert(w[0] == a[0]);
        } else {
            assert(w[0] == a[0]);
            assert(w[0] == b[0]);
            assert(w.skip(1) =~= escape(a.drop_first()) + seq!['"'] + x);
            assert(w.skip(1) =~= escape(b.drop_first()) + seq!['"'] + y);
            lemma_escape_quote_decomp(a.drop_first(), b.drop_first(), x, y);
            assert forall|m: int| 0 <= m < a.len() implies a[m] == b[m] by {
                if m >= 1 {
                    assert(a[m] == a.drop_first()[m - 1]);
                    assert(b.drop_first()[m - 1] == b[m]);
                }
            }
            assert(a =~= b);
        }
    }
}

/// Entry sequences whose keys and value models agree have equal models.
pub proof fn lemma_entries_model_congruent(es1: Seq<Entry>, es2: Seq<Entry>, n: int)
    requires
        n <= es1.len(),
        n <= es2.len(),
        forall|i: int|
            0 <= i < n ==> (#[trigger] es1[i]).key@ == es2[i].key@ && crate::value::value_model(
                es1[i].value,
            ) == crate::value::value_model(es2[i].value),
    ensures
        crate::value::entries_model(es1, n) == crate::value::entries_model(es2, n),
    decreases n,
{
    if n > 0 {
        lemma_entries_model_congruent(es1, es2, n - 1);
    }
}

/// Two values that render to the same text, whatever follows each, have
/// the same model, and the same text follows both.
pub proof fn lemma_render_value_inj(v1: ConfigValue, v2: ConfigValue, r1: Seq<char>, r2: Seq<char>)
    requires
        render_value(v1) + r1 == render_value(v2) + r2,
    ensures
        crate::value::value_model(v1) == crate::value::value_model(v2),
        r1 == r2,
    decreases v1, 3int,
{
    let w = render_value(v1) + r1;
    lemma_render_value_shape(v1);
    lemma_render_value_shape(v2);
    assert(w[0] == render_value(v1)[0]);
    assert(w[0] == render_value(v2)[0]);
    match (v1, v2) {
        (ConfigValue::Str(s1), ConfigValue::Str(s2)) => {
            assert(w.skip(1) =~= escape(s1@) + seq!['"'] + r1);
            assert(w.skip(1) =~= escape(s2@) + seq!['"'] + r2);
            lemma_escape_quote_decomp(s1@, s2@, r1, r2);
        },
        (ConfigValue::Table(t1), ConfigValue::Table(t2)) => {
            let es1 = t1.entries@;
            let es2 = t2.entries@;
            let n1 = es1.len() as int;
            let n2 = es2.len() as int;
            assert(w.skip(1) =~= render_entries(es1, n1) + seq!['}'] + r1);
            assert(w.skip(1) =~= render_entries(es2, n2) + seq!['}'] + r2);
            if n1 == 0 && n2 == 0 {
                assert(render_entries(es1, 0) =~= Seq::<char>::empty());
                assert(r1.len() == r2.len());
                assert forall|m: int| 0 <= m < r1.len() implies r1[m] == r2[m] by {
                    assert(r1[m] == w.skip(1)[m + 1]);
                    assert(r2[m] == w.skip(1)[m + 1]);
                }
                assert(r1 =~= r2);
                lemma_entries_model_congruent(es1, es2, 0);
            } else if n1 == 0 {
                lemma_render_entries_front(es2, n2);
                lemma_render_tail_starts_quote(es2, 0, n2);
                assert(w.skip(1)[0] == '}');
                assert(w.skip(1)[0] == '"');
            } else if n2 == 0 {
                lemma_render_entries_front(es1, n1);
                lemma_render_tail_starts_quote(es1, 0, n1);
                assert(w.skip(1)[0] == '}');
                assert(w.skip(1)[0] == '"');
            } else {
                lemma_render_entries_front(es1, n1);
                lemma_render_entries_front(es2, n2);
                lemma_render_tail_inj(es1, 0, n1, es2, 0, n2, r1, r2);
                assert forall|i: int|
                    0 <= i < n1 implies (#[trigger] es1[i]).key@ == es2[i].key@
                        && crate::value::value_model(es1[i].value) == crate::value::value_model(
                        es2[i].value,
                    ) by {
                    assert((es1[0 + i]).key@ == es2[0 + i].key@ && crate::value::value_model(
                        es1[0 + i].value,
                    ) == crate::value::value_model(es2[0 + i].value));
                }
                lemma_entries_model_congruent(es1, es2, n1);
            }
        },
        (ConfigValue::Str(_), ConfigValue::Table(_)) => {
            assert(false);
        },
        (ConfigValue::Table(_), ConfigValue::Str(_)) => {
            assert(false);
        },
    }
}

/// A front-to-back rendering of entries starts with a quote.
pub proof fn lemma_render_tail_starts_quote(es: Seq<Entry>, i: int, n: int)
    requires
        0 <= i < n <= es.len(),
    ensures
        render_tail(es, i, n).len() >= 1,
        render_tail(es, i, n)[0] == '"',
{
}

/// Entry runs that render to the same text, each followed by a closing
/// brace and a remainder, pair up key for key and value for value.
#[verifier::rlimit(100)]
pub proof fn lemma_render_tail_inj(
    es1: Seq<Entry>,
    i1: int,
    n1: int,
    es2: Seq<Entry>,
    i2: int,
    n2: int,
    r1: Seq<char>,
    r2: Seq<char>,
)
    requires
        0 <= i1 < n1 <= es1.len(),
        0 <= i2 < n2 <= es2.len(),
        render_tail(es1, i1, n1) + seq!['}'] + r1 == render_tail(es2, i2, n2) + seq!['}'] + r2,
    ensures
        n1 - i1 == n2 - i2,
        forall|d: int|
            0 <= d < n1 - i1 ==> (#[trigger] es1[i1 + d]).key@ == es2[i2 + d].key@
                && crate::value::value_model(es1[i1 + d].value) == crate::value::value_model(
                es2[i2 + d].value,
            ),
        r1 == r2,
    decreases es1, n1 - i1,
{
    let e1 = es1[i1];
    let e2 = es2[i2];
    let rest1: Seq<char> = if i1 + 1 < n1 {
        seq![','] + render_tail(es1, i1 + 1, n1)
    } else {
        Seq::<char>::empty()
    };
    let rest2: Seq<char> = if i2 + 1 < n2 {
        seq![','] + render_tail(es2, i2 + 1, n2)
    } else {
        Seq::<char>::empty()
    };
    let w = render_tail(es1, i1, n1) + seq!['}'] + r1;
    assert(w =~= seq!['"'] + (escape(e1.key@) + seq!['"'] + (seq![':'] + render_value(e1.value)
        + (rest1 + seq!['}'] + r1))));
    assert(w =~= seq!['"'] + (escape(e2.key@) + seq!['"'] + (seq![':'] + render_value(e2.value)
        + (rest2 + seq!['}'] + r2))));
    assert(w.skip(1) =~= escape(e1.key@) + seq!['"'] + (seq![':'] + render_value(e1.value) + (
    rest1 + seq!['}'] + r1)));
    assert(w.skip(1) =~= escape(e2.key@) + seq!['"'] + (seq![':'] + render_value(e2.value) + (
    rest2 + seq!['}'] + r2)));
    lemma_escape_quote_decomp(
        e1.key@,
        e2.key@,
        seq![':'] + render_value(e1.value) + (rest1 + seq!['}'] + r1),
        seq![':'] + render_value(e2.value) + (rest2 + seq!['}'] + r2),
    );
    let u = seq![':'] + render_value(e1.value) + (rest1 + seq!['}'] + r1);
    assert(u.skip(1) =~= render_value(e1.value) + (rest1 + seq!['}'] + r1));
    assert(u.skip(1) =~= render_value(e2.value) + (rest2 + seq!['}'] + r2));
    lemma_render_value_inj(e1.value, e2.value, rest1 + seq!['}'] + r1, rest2 + seq!['}'] + r2);
    let q = rest1 + seq!['}'] + r1;
    if i1 + 1 < n1 && i2 + 1 < n2 {
        assert(q[0] == ',');
        assert(q.skip(1) =~= render_tail(es1, i1 + 1, n1) + seq!['}'] + r1);
        assert(q.skip(1) =~= render_tail(es2, i2 + 1, n2) + seq!['}'] + r2);
        lemma_render_tail_inj(es1, i1 + 1, n1, es2, i2 + 1, n2, r1, r2);
        assert forall|d: int|
            0 <= d < n1 - i1 implies (#[trigger] es1[i1 + d]).key@ == es2[i2 + d].key@
                && crate::value::value_model(es1[i1 + d].value) == crate::value::value_model(
                es2[i2 + d].value,
            ) by {
            if d >= 1 {
                let dd = d - 1;
                assert((es1[(i1 + 1) + dd]).key@ == es2[(i2 + 1) + dd].key@
                    && crate::value::value_model(es1[(i1 + 1) + dd].value)
                    == crate::value::value_model(es2[(i2 + 1) + dd].value));
                assert(i1 + d == (i1 + 1) + dd);
                assert(i2 + d == (i2 + 1) + dd);
            }
        }
    } else if i1 + 1 < n1 {
        assert(q[0] == ',');
        assert(q[0] == '}');
    } else if i2 + 1 < n2 {
        assert(q[0] == '}');
        assert(q[0] == ',');
    } else {
        assert(q =~= seq!['}'] + r1);
        assert(q =~= seq!['}'] + r2);
        assert(r1.len() == r2.len());
        assert forall|m: int| 0 <= m < r1.len() implies r1[m] == r2[m] by {
            assert(r1[m] == q[m + 1]);
            assert(r2[m] == q[m + 1]);
        }
        assert(r1 =~= r2);
    }
}

/// No information loss: two documents with the same JSON rendering have
/// the same model. With the parser's own contract this makes re-rendering
/// idempotent: a document parsed back from rendered text has the model of
/// every document that rendered to that text.
pub proof fn lemma_render_lossless(t1: ConfigTable, t2: ConfigTable)
    requires
        render_table(t1) == render_table(t2),
    ensures
        crate::value::table_model(t1) == crate::value::table_model(t2),
{
    let v1 = ConfigValue::Table(t1);
    let v2 = ConfigValue::Table(t2);
    assert(render_value(v1) + Seq::<char>::empty() =~= render_value(v2) + Seq::<char>::empty());
    lemma_render_value_inj(v1, v2, Seq::<char>::empty(), Seq::<char>::empty());
}

/// A run of characters containing no quote and no backslash.
pub open spec fn clean_run(c: Seq<char>) -> bool {
    forall|i: int| 0 <= i < c.len() ==> !needs_escape(c[i])
}

/// No rendered string literal lies at `pos`.
pub open spec fn no_string_at(s: Seq<char>, pos: int) -> bool {
    forall|k: Seq<char>, end: int|
        !(pos < end <= s.len() && #[trigger] render_string(k) == #[trigger] s.subrange(pos, end))
}

/// A dead end of the string scanner: text consisting of escaped content,
/// then a clean run, then either nothing or an invalid escape, is not an
/// escaped string followed by a closing quote.
proof fn lemma_scan_dead_end(k1: Seq<char>, c: Seq<char>, t: Seq<char>, k: Seq<char>, r: Seq<char>)
    requires
        clean_run(c),
        t.len() == 0 || (t[0] == '\\' && (t.len() == 1 || !needs_escape(t[1]))),
    ensures
        escape(k1) + c + t != escape(k) + seq!['"'] + r,
    decreases k1.len(), c.len(),
{
    if escape(k1) + c + t == escape(k) + seq!['"'] + r {
        let w = escape(k1) + c + t;
        if k1.len() > 0 && k.len() > 0 {
            if needs_escape(k1[0]) && needs_escape(k[0]) {
                assert(w[0] == '\\');
                assert(w.skip(2) =~= escape(k1.drop_first()) + c + t);
                assert(w.skip(2) =~= escape(k.drop_first()) + seq!['"'] + r);
                lemma_scan_dead_end(k1.drop_first(), c, t, k.drop_first(), r);
            } else if needs_escape(k1[0]) {
                assert(w[0] == '\\');
                assert(w[0] == k[0]);
            } else if needs_escape(k[0]) {
                assert(w[0] == k1[0]);
                assert(w[0] == '\\');
            } else {
                assert(w[0] == k1[0]);
                assert(w[0] == k[0]);
                assert(w.skip(1) =~= escape(k1.drop_first()) + c + t);
                assert(w.skip(1) =~= escape(k.drop_first()) + seq!['"'] + r);
                lemma_scan_dead_end(k1.drop_first(), c, t, k.drop_first(), r);
            }
        } else if k1.len() > 0 {
            assert(w[0] == '"');
            if needs_escape(k1[0]) {
                assert(w[0] == '\\');
            } else {
                assert(w[0] == k1[0]);
            }
        } else {
            assert(w =~= c + t);
            if k.len() == 0 {
                assert(w[0] == '"');
                if c.len() > 0 {
                    assert(w[0] == c[0]);
                } else {
                    assert(w[0] == t[0]);
                }
            } else if needs_escape(k[0]) {
                if c.len() > 0 {
                    assert(w[0] == '\\');
                    assert(w[0] == c[0]);
                } else {
                    assert(w =~= t);
                    assert(w.len() >= 2 + 1);
                    assert(w[1] == k[0]);
                    assert(w[1] == t[1]);
                }
            } else {
                if c.len() > 0 {
                    assert(w[0] == k[0]);
                    assert(w[0] == c[0]);
                    assert(w.skip(1) =~= c.drop_first() + t);
                    assert(escape(Seq::<char>::empty()) =~= Seq::<char>::empty());
                    assert(escape(Seq::<char>::empty()) + c.drop_first() + t =~= w.skip(1));
                    assert(w.skip(1) =~= escape(k.drop_first()) + seq!['"'] + r);
                    lemma_scan_dead_end(Seq::<char>::empty(), c.drop_first(), t, k.drop_first(), r);
                } else if t.len() == 0 {
                    assert(w.len() == 0);
                } else {
                    assert(w[0] == t[0]);
                    assert(w[0] == k[0]);
                }
            }
        }
    }
}

/// A piece known to be a subrange extends to the end of the text.
proof fn lemma_subrange_glue(s: Seq<char>, pos: int, e: int, x: Seq<char>)
    requires
        0 <= pos <= e <= s.len(),
        x == s.subrange(pos, e),
    ensures
        x + s.subrange(e, s.len() as int) == s.subrange(pos, s.len() as int),
{
    assert(x + s.subrange(e, s.len() as int) =~= s.subrange(pos, s.len() as int));
}

/// Peels a rendered string literal into its parts within the text.
proof fn lemma_string_peel(s: Seq<char>, pos: int, a: Seq<char>, e: int)
    requires
        0 <= pos < e <= s.len(),
        render_string(a) == s.subrange(pos, e),
    ensures
        e - pos >= 2,
        s[pos] == '"',
        s[e - 1] == '"',
        escape(a) == s.subrange(pos + 1, e - 1),
        escape(a) + seq!['"'] == s.subrange(pos + 1, e),
{
    assert(render_string(a).len() == e - pos);
    assert(s.subrange(pos, e)[0] == s[pos]);
    assert(render_string(a)[0] == '"');
    assert(render_string(a)[e - pos - 1] == '"');
    assert(s.subrange(pos, e)[e - pos - 1] == s[e - 1]);
    assert forall|m: int| 0 <= m < escape(a).len() implies escape(a)[m] == s[pos + 1 + m] by {
        assert(render_string(a)[m + 1] == escape(a)[m]);
        assert(s.subrange(pos, e)[m + 1] == s[pos + 1 + m]);
    }
    assert(escape(a) =~= s.subrange(pos + 1, e - 1));
    assert(escape(a) + seq!['"'] =~= s.subrange(pos + 1, e));
}

/// Two string literals rendered at the same position coincide.
proof fn lemma_string_align(s: Seq<char>, pos: int, a: Seq<char>, e1: int, b: Seq<char>, e2: int)
    requires
        0 <= pos < e1 <= s.len(),
        0 <= pos < e2 <= s.len(),
        render_string(a) == s.subrange(pos, e1),
        render_string(b) == s.subrange(pos, e2),
    ensures
        a == b,
        e1 == e2,
{
    lemma_string_peel(s, pos, a, e1);
    lemma_string_peel(s, pos, b, e2);
    lemma_subrange_glue(s, pos + 1, e1, escape(a) + seq!['"']);
    lemma_subrange_glue(s, pos + 1, e2, escape(b) + seq!['"']);
    let r1 = s.subrange(e1, s.len() as int);
    let r2 = s.subrange(e2, s.len() as int);
    assert(escape(a) + seq!['"'] + r1 =~= (escape(a) + seq!['"']) + r1);
    assert(escape(b) + seq!['"'] + r2 =~= (escape(b) + seq!['"']) + r2);
    lemma_escape_quote_decomp(a, b, r1, r2);
}

/// Two values rendered at the same position have the same model and the
/// same extent.
proof fn lemma_value_align(
    s: Seq<char>,
    pos: int,
    v1: ConfigValue,
    e1: int,
    v2: ConfigValue,
    e2: int,
)
    requires
        0 <= pos < e1 <= s.len(),
        0 <= pos < e2 <= s.len(),
        render_value(v1) == s.subrange(pos, e1),
        render_value(v2) == s.subrange(pos, e2),
    ensures
        crate::value::value_model(v1) == crate::value::value_model(v2),
        e1 == e2,
{
    lemma_subrange_glue(s, pos, e1, render_value(v1));
    lemma_subrange_glue(s, pos, e2, render_value(v2));
    lemma_render_value_inj(v1, v2, s.subrange(e1, s.len() as int), s.subrange(e2, s.len() as int));
}

/// Rendering a run of entries is invariant under dropping the head of the
/// sequence, indices shifted.
proof fn lemma_render_tail_shift(es: Seq<Entry>, i: int, n: int)
    requires
        1 <= i < n <= es.len(),
    ensures
        render_tail(es, i, n) == render_tail(es.drop_first(), i - 1, n - 1),
    decreases n - i,
{
    assert(es.drop_first()[i - 1] == es[i]);
    if i + 1 < n {
        lemma_render_tail_shift(es, i + 1, n);
    }
}

/// Entry sequences whose members all hold well-formed values.
pub open spec fn members_ok(es: Seq<Entry>) -> bool {
    forall|i: int| 0 <= i < es.len() ==> value_wf((#[trigger] es[i]).value)
}

/// No well-formed value renders at `pos`.
pub open spec fn no_value_at(s: Seq<char>, pos: int) -> bool {
    forall|v: ConfigValue, end: int|
        !(value_wf(v) && pos < end <= s.len() && #[trigger] render_value(v)
            == #[trigger] s.subrange(pos, end))
}

/// No well-formed run of members followed by a closing brace renders at
/// `pos`.
pub open spec fn no_members_at(s: Seq<char>, pos: int) -> bool {
    forall|es: Seq<Entry>, end: int|
        !(members_ok(es) && es.len() >= 1 && pos < end <= s.len() && #[trigger] render_tail(
            es,
            0,
            es.len() as int,
        ) + seq!['}'] == #[trigger] s.subrange(pos, end))
}

/// Dissects a rendered run of members at `pos`: where the first key ends,
/// that a colon follows it, where the first value ends, and that a comma
/// with the remaining members or the closing brace follows.
#[verifier::rlimit(100)]
proof fn lemma_members_head(s: Seq<char>, pos: int, es: Seq<Entry>, end: int)
    requires
        0 <= pos < end <= s.len(),
        es.len() >= 1,
        render_tail(es, 0, es.len() as int) + seq!['}'] == s.subrange(pos, end),
    ensures
        ({
            let kend = pos + render_string(es[0].key@).len();
            let vend = kend + 1 + render_value(es[0].value).len();
            &&& pos < kend < end
            &&& render_string(es[0].key@) == s.subrange(pos, kend)
            &&& s[kend] == ':'
            &&& kend + 1 < vend < end
            &&& render_value(es[0].value) == s.subrange(kend + 1, vend)
            &&& (es.len() == 1 ==> s[vend] == '}' && end == vend + 1)
            &&& (es.len() > 1 ==> s[vend] == ',' && render_tail(es, 1, es.len() as int)
                + seq!['}'] == s.subrange(vend + 1, end))
        }),
{
    let n = es.len() as int;
    let ks = render_string(es[0].key@);
    let vs = render_value(es[0].value);
    let rest: Seq<char> = if n > 1 {
        seq![','] + render_tail(es, 1, n)
    } else {
        Seq::<char>::empty()
    };
    lemma_render_value_shape(es[0].value);
    assert(ks.len() >= 2);
    let w = s.subrange(pos, end);
    assert(w =~= ks + (seq![':'] + (vs + (rest + seq!['}']))));
    let kend = pos + ks.len();
    let vend = kend + 1 + vs.len();
    assert(w.len() == end - pos);
    assert(end - pos == ks.len() + 1 + vs.len() + rest.len() + 1);
    assert forall|m: int| 0 <= m < ks.len() implies ks[m] == s[pos + m] by {
        assert(w[m] == ks[m]);
        assert(w[m] == s[pos + m]);
    }
    assert(ks =~= s.subrange(pos, kend));
    assert(w[ks.len() as int] == ':');
    assert(s[kend] == ':');
    assert forall|m: int| 0 <= m < vs.len() implies vs[m] == s[kend + 1 + m] by {
        assert(w[ks.len() + 1 + m] == vs[m]);
        assert(w[ks.len() + 1 + m] == s[pos + ks.len() + 1 + m]);
    }
    assert(vs =~= s.subrange(kend + 1, vend));
    if n == 1 {
        assert(w[w.len() - 1] == '}');
        assert(s[vend] == '}');
        assert(end == vend + 1);
    } else {
        assert(w[ks.len() as int + 1 + vs.len() as int] == ',');
        assert(s[vend] == ',');
        let tl = render_tail(es, 1, n);
        assert forall|m: int| 0 <= m < tl.len() + 1 implies (tl + seq!['}'])[m] == s[vend + 1
            + m] by {
            assert(w[ks.len() as int + 1 + vs.len() as int + 1 + m] == (tl + seq!['}'])[m]);
            assert(w[ks.len() as int + 1 + vs.len() as int + 1 + m] == s[pos + ks.len() as int
                + 1 + vs.len() as int + 1 + m]);
        }
        assert(tl + seq!['}'] =~= s.subrange(vend + 1, end));
    }
}

} // verus!
