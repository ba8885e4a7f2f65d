//! Properties that relate the operations of the library to one another.
use crate::parser::{
    add_pair, add_section, all_sections, any_has_key, apply_line, apply_lines, classify,
    empty_ini, first_value, ini_wf, has_key, ini_get, lookup, merged_entries, sections_named,
    distinct_names, invalid_line_message, lookup_last, spec_parse, split_lines, strip_comment, values_of, IniModel, LineKind,
};
use crate::text::{
    find, lemma_find, lemma_trim_commute, lemma_trim_end_concat, lemma_trim_end_idempotent,
    lemma_trim_solid_ends, lemma_trim_start_chars, lemma_trim_start_concat,
    lemma_trim_start_idempotent, trim, trim_end,
    trim_start,
};
use vstd::prelude::*;

verus! {

/// A section contains a key exactly when looking the key up finds a value, and
/// that value is the first of all the key's values.
pub proof fn law_contains_iff_get(entries: Seq<(Seq<char>, Seq<char>)>, key: Seq<char>)
    ensures
        has_key(entries, key) <==> lookup(entries, key) is Some,
        has_key(entries, key) <==> values_of(entries, key).len() > 0,
        lookup(entries, key) matches Some(v) ==> v == values_of(entries, key)[0],
{
}

/// Pushing `key=value` adds `value` as the last value of `key` and leaves
/// every other key as it was; a lookup of `key` finds the new value only if
/// the key was absent before.
pub proof fn law_push(
    entries: Seq<(Seq<char>, Seq<char>)>,
    key: Seq<char>,
    value: Seq<char>,
    other: Seq<char>,
)
    ensures
        values_of(entries.push((key, value)), key) == values_of(entries, key).push(value),
        other != key ==> values_of(entries.push((key, value)), other) == values_of(entries, other),
        lookup(entries.push((key, value)), key) == if has_key(entries, key) {
            lookup(entries, key)
        } else {
            Some(value)
        },
        has_key(entries.push((key, value)), key),
        values_of(Seq::<(Seq<char>, Seq<char>)>::empty(), key).len() == 0,
{
    assert(entries.push((key, value)).drop_last() =~= entries);
    if !has_key(entries, key) {
        assert(values_of(entries, key).push(value)[0] == value);
    }
}

/// Extending a section by another gives each key the values it had in the
/// first, then those it had in the second.
pub proof fn law_extend(
    a: Seq<(Seq<char>, Seq<char>)>,
    b: Seq<(Seq<char>, Seq<char>)>,
    key: Seq<char>,
)
    ensures
        values_of(a + b, key) == values_of(a, key) + values_of(b, key),
        lookup(a + b, key) == if has_key(a, key) {
            lookup(a, key)
        } else {
            lookup(b, key)
        },
        has_key(a + b, key) == (has_key(a, key) || has_key(b, key)),
{
    crate::parser::lemma_values_of_concat(a, b, key);
    if !has_key(a, key) {
        assert(values_of(a, key) + values_of(b, key) =~= values_of(b, key));
    }
}

/// A lookup in the merged entries of several sections finds what a search of
/// the sections one after the other finds: `extended_section(name).get(key)`
/// agrees with the search that `Ini::get` makes among the sections named
/// `name`.
pub proof fn law_merged_lookup(ss: Seq<crate::parser::SectionModel>, key: Seq<char>)
    ensures
        lookup(merged_entries(ss), key) == first_value(ss, key),
        has_key(merged_entries(ss), key) == any_has_key(ss, key),
        (first_value(ss, key) is Some) == any_has_key(ss, key),
    decreases ss.len(),
{
    if ss.len() > 0 {
        law_merged_lookup(ss.drop_first(), key);
        law_extend(ss[0].entries, merged_entries(ss.drop_first()), key);
    }
}

/// `Ini::get` falls back on the root section exactly when no section of the
/// requested name has the key (that is, when `Ini::contains` is false).
pub proof fn law_get_falls_back_to_root(m: IniModel, section: Seq<char>, key: Seq<char>)
    ensures
        !any_has_key(sections_named(m.sections, section), key) ==> ini_get(m, section, key)
            == lookup(m.root.entries, key),
        any_has_key(sections_named(m.sections, section), key) ==> ini_get(m, section, key)
            == first_value(sections_named(m.sections, section), key) && ini_get(
            m,
            section,
            key,
        ) is Some,
{
    law_merged_lookup(sections_named(m.sections, section), key);
}

/// A key found in a section of some name is found by `contains_key` too.
pub proof fn law_contains_implies_contains_key(
    secs: Seq<(Seq<char>, crate::parser::SectionModel)>,
    section: Seq<char>,
    key: Seq<char>,
)
    ensures
        any_has_key(sections_named(secs, section), key) ==> any_has_key(all_sections(secs), key),
    decreases secs.len(),
{
    if secs.len() > 0 {
        law_contains_implies_contains_key(secs.drop_first(), section, key);
        assert(all_sections(secs).drop_first() =~= all_sections(secs.drop_first()));
        let rest = sections_named(secs.drop_first(), section);
        if secs[0].0 == section {
            assert((seq![secs[0].1] + rest).drop_first() =~= rest);
        }
    }
}

proof fn lemma_apply_lines_wf(m: IniModel, lines: Seq<Seq<char>>)
    requires
        ini_wf(m),
    ensures
        apply_lines(m, lines) matches Ok(r) ==> ini_wf(r),
    decreases lines.len(),
{
    if lines.len() > 0 {
        match apply_line(m, lines[0]) {
            Ok(next) => {
                match classify(lines[0]) {
                    LineKind::Pair(k, v) => {
                        let n = add_pair(m, k, v);
                        assert forall|i: int| 0 <= i < n.sections.len() implies #[trigger] n.sections[i].1.name
                            == Some(n.sections[i].0) by {
                            if i < m.sections.len() - 1 {
                                assert(n.sections[i] == m.sections[i]);
                            } else {
                                assert(m.sections[m.sections.len() - 1].1.name == Some(m.sections[m.sections.len() - 1].0));
                            }
                        }
                    },
                    LineKind::Header(name) => {
                        let n = add_section(m, name);
                        assert forall|i: int| 0 <= i < n.sections.len() implies #[trigger] n.sections[i].1.name
                            == Some(n.sections[i].0) by {
                            if i < m.sections.len() {
                                assert(n.sections[i] == m.sections[i]);
                            }
                        }
                    },
                    _ => {},
                }
                lemma_apply_lines_wf(next, lines.drop_first());
            },
            Err(_) => {},
        }
    }
}

/// Every document that parsing produces is well formed.
pub proof fn law_parse_wf(text: Seq<char>)
    ensures
        spec_parse(text) matches Ok(m) ==> ini_wf(m),
{
    lemma_apply_lines_wf(empty_ini(), split_lines(text));
}

proof fn lemma_split_lines_concat(a: Seq<char>, b: Seq<char>)
    ensures
        split_lines(a + seq!['\n'] + b) == split_lines(a) + split_lines(b),
    decreases a.len(),
{
    let s = a + seq!['\n'] + b;
    lemma_find(a, '\n');
    lemma_find(s, '\n');
    match find(a, '\n') {
        Some(i) => {
            assert(s[i] == '\n');
            assert(find(s, '\n') == Some(i)) by {
                match find(s, '\n') {
                    Some(j) => {
                        if j < i {
                            assert(s[j] == a[j]);
                        }
                        if j > i {
                            assert(s[i] == a[i]);
                        }
                    },
                    None => {},
                }
            }
            assert(s.take(i) =~= a.take(i));
            assert(s.skip(i + 1) =~= a.skip(i + 1) + seq!['\n'] + b);
            lemma_split_lines_concat(a.skip(i + 1), b);
            assert(seq![a.take(i)] + (split_lines(a.skip(i + 1)) + split_lines(b)) =~= (seq![a.take(i)]
                + split_lines(a.skip(i + 1))) + split_lines(b));
        },
        None => {
            let i = a.len() as int;
            assert(s[i] == '\n');
            assert(find(s, '\n') == Some(i)) by {
                match find(s, '\n') {
                    Some(j) => {
                        if j < i {
                            assert(s[j] == a[j]);
                        }
                    },
                    None => {},
                }
            }
            assert(s.take(i) =~= a);
            assert(s.skip(i + 1) =~= b);
        },
    }
}

proof fn lemma_apply_lines_concat(m: IniModel, xs: Seq<Seq<char>>, ys: Seq<Seq<char>>)
    ensures
        apply_lines(m, xs + ys) == match apply_lines(m, xs) {
            Ok(next) => apply_lines(next, ys),
            Err(l) => Err(l),
        },
    decreases xs.len(),
{
    if xs.len() == 0 {
        assert(xs + ys =~= ys);
    } else {
        assert((xs + ys)[0] == xs[0]);
        assert((xs + ys).drop_first() =~= xs.drop_first() + ys);
        match apply_line(m, xs[0]) {
            Ok(next) => lemma_apply_lines_concat(next, xs.drop_first(), ys),
            Err(_) => {},
        }
    }
}

/// Text is read line by line: the text after a line feed does not change how
/// the text before it was read, and is read starting from that document.
pub proof fn law_parse_incremental(a: Seq<char>, b: Seq<char>)
    ensures
        spec_parse(a + seq!['\n'] + b) == match spec_parse(a) {
            Ok(m) => apply_lines(m, split_lines(b)),
            Err(l) => Err(l),
        },
{
    lemma_split_lines_concat(a, b);
    lemma_apply_lines_concat(empty_ini(), split_lines(a), split_lines(b));
}

/// A comment (from `;` to the end of the line) does not change what a line
/// means: appending `;` and any text to a line leaves its kind as it was.
pub proof fn law_comment_ignored(line: Seq<char>, comment: Seq<char>)
    ensures
        classify(line + seq![';'] + comment) == classify(line),
{
    let s = line + seq![';'] + comment;
    lemma_find(line, ';');
    lemma_find(s, ';');
    let k = match find(line, ';') {
        Some(k) => k,
        None => line.len() as int,
    };
    assert(s[k] == ';');
    assert(find(s, ';') == Some(k)) by {
        match find(s, ';') {
            Some(j) => {
                if j < k {
                    assert(s[j] == line[j]);
                }
            },
            None => {},
        }
    }
    assert(strip_comment(s) =~= strip_comment(line));
}

/// The lines before a line that starts at the end of `p`.
pub open spec fn lines_before(p: Seq<char>) -> Seq<Seq<char>> {
    if p.len() == 0 {
        Seq::empty()
    } else {
        split_lines(p.drop_last())
    }
}

/// The lines after a line that ends where `q` starts.
pub open spec fn lines_after(q: Seq<char>) -> Seq<Seq<char>> {
    if q.len() == 0 {
        Seq::empty()
    } else {
        split_lines(q.drop_first())
    }
}

/// A whole line `x`, between a prefix that ends a line and a suffix that
/// starts with a line feed, is one of the lines of the text.
proof fn lemma_split_around(p: Seq<char>, x: Seq<char>, q: Seq<char>)
    requires
        !x.contains('\n'),
        p.len() == 0 || p.last() == '\n',
        q.len() == 0 || q[0] == '\n',
    ensures
        split_lines(p + x + q) == lines_before(p) + seq![x] + lines_after(q),
{
    lemma_find(x, '\n');
    assert(find(x, '\n') is None) by {
        if find(x, '\n') is Some {
            let j = find(x, '\n')->0;
            assert(x[j] == '\n');
        }
    }
    assert(split_lines(x) == seq![x]);
    if q.len() == 0 {
        assert(x + q =~= x);
    } else {
        assert(x + q =~= x + seq!['\n'] + q.drop_first());
        lemma_split_lines_concat(x, q.drop_first());
    }
    assert(split_lines(x + q) == seq![x] + lines_after(q));
    if p.len() == 0 {
        assert(p + x + q =~= x + q);
        assert(lines_before(p) + seq![x] + lines_after(q) =~= seq![x] + lines_after(q));
    } else {
        assert(p + x + q =~= p.drop_last() + seq!['\n'] + (x + q));
        lemma_split_lines_concat(p.drop_last(), x + q);
        assert(split_lines(p.drop_last()) + (seq![x] + lines_after(q)) =~= split_lines(
            p.drop_last(),
        ) + seq![x] + lines_after(q));
    }
}

proof fn lemma_apply_lines_replace(
    m: IniModel,
    xs: Seq<Seq<char>>,
    a: Seq<char>,
    b: Seq<char>,
    ys: Seq<Seq<char>>,
)
    requires
        classify(a) == classify(b),
    ensures
        apply_lines(m, xs + seq![a] + ys) == apply_lines(m, xs + seq![b] + ys),
    decreases xs.len(),
{
    if xs.len() == 0 {
        assert(xs + seq![a] + ys =~= seq![a] + ys);
        assert(xs + seq![b] + ys =~= seq![b] + ys);
        assert((seq![a] + ys).drop_first() =~= ys);
        assert((seq![b] + ys).drop_first() =~= ys);
        assert((seq![a] + ys)[0] == a);
        assert((seq![b] + ys)[0] == b);
    } else {
        assert((xs + seq![a] + ys)[0] == xs[0]);
        assert((xs + seq![b] + ys)[0] == xs[0]);
        assert((xs + seq![a] + ys).drop_first() =~= xs.drop_first() + seq![a] + ys);
        assert((xs + seq![b] + ys).drop_first() =~= xs.drop_first() + seq![b] + ys);
        match apply_line(m, xs[0]) {
            Ok(next) => lemma_apply_lines_replace(next, xs.drop_first(), a, b, ys),
            Err(_) => {},
        }
    }
}

proof fn lemma_apply_lines_skip_blank(m: IniModel, xs: Seq<Seq<char>>, b: Seq<char>, ys: Seq<Seq<char>>)
    requires
        classify(b) is Blank,
    ensures
        apply_lines(m, xs + seq![b] + ys) == apply_lines(m, xs + ys),
    decreases xs.len(),
{
    if xs.len() == 0 {
        assert(xs + seq![b] + ys =~= seq![b] + ys);
        assert(xs + ys =~= ys);
        assert((seq![b] + ys).drop_first() =~= ys);
        assert((seq![b] + ys)[0] == b);
    } else {
        assert((xs + seq![b] + ys)[0] == xs[0]);
        assert((xs + ys)[0] == xs[0]);
        assert((xs + seq![b] + ys).drop_first() =~= xs.drop_first() + seq![b] + ys);
        assert((xs + ys).drop_first() =~= xs.drop_first() + ys);
        match apply_line(m, xs[0]) {
            Ok(next) => lemma_apply_lines_skip_blank(next, xs.drop_first(), b, ys),
            Err(_) => {},
        }
    }
}

/// Anywhere in a document, a comment appended to a line (a `;` and any text
/// up to the end of the line) leaves the parse as it was: the same document,
/// or the same failure.
pub proof fn law_comment_ignored_in_text(p: Seq<char>, line: Seq<char>, comment: Seq<char>, q: Seq<char>)
    requires
        p.len() == 0 || p.last() == '\n',
        !line.contains('\n'),
        !comment.contains('\n'),
        q.len() == 0 || q[0] == '\n',
    ensures
        spec_parse(p + (line + seq![';'] + comment) + q) == spec_parse(p + line + q),
{
    let x = line + seq![';'] + comment;
    assert(!x.contains('\n')) by {
        if x.contains('\n') {
            let j = choose|j: int| 0 <= j < x.len() && x[j] == '\n';
            if j < line.len() {
                assert(line[j] == '\n');
            } else if j > line.len() {
                assert(comment[j - line.len() - 1] == '\n');
            }
        }
    }
    lemma_split_around(p, x, q);
    lemma_split_around(p, line, q);
    law_comment_ignored(line, comment);
    lemma_apply_lines_replace(empty_ini(), lines_before(p), x, line, lines_after(q));
}

/// A blank or comment-only line inserted at the start of any line leaves the
/// parse as it was.
pub proof fn law_blank_line_ignored(p: Seq<char>, blank: Seq<char>, q: Seq<char>)
    requires
        p.len() == 0 || p.last() == '\n',
        !blank.contains('\n'),
        classify(blank) is Blank,
    ensures
        spec_parse(p + blank + seq!['\n'] + q) == spec_parse(p + q),
{
    let nq = seq!['\n'] + q;
    assert(p + blank + seq!['\n'] + q =~= p + blank + nq);
    lemma_split_around(p, blank, nq);
    assert(nq.drop_first() =~= q);
    if p.len() == 0 {
        assert(p + q =~= q);
        assert(lines_before(p) + split_lines(q) =~= split_lines(q));
    } else {
        assert(p + q =~= p.drop_last() + seq!['\n'] + q);
        lemma_split_lines_concat(p.drop_last(), q);
    }
    lemma_apply_lines_skip_blank(empty_ini(), lines_before(p), blank, split_lines(q));
}

/// A blank or comment-only line added after the last line leaves the parse as
/// it was.
pub proof fn law_blank_line_at_end(text: Seq<char>, blank: Seq<char>)
    requires
        !blank.contains('\n'),
        classify(blank) is Blank,
    ensures
        spec_parse(text + seq!['\n'] + blank) == spec_parse(text),
{
    law_parse_incremental(text, blank);
    lemma_find(blank, '\n');
    assert(find(blank, '\n') is None) by {
        if find(blank, '\n') is Some {
            let j = find(blank, '\n')->0;
            assert(blank[j] == '\n');
        }
    }
    assert(split_lines(blank) == seq![blank]);
    assert(seq![blank].drop_first() =~= Seq::<Seq<char>>::empty());
    match spec_parse(text) {
        Ok(m) => {
            assert(apply_lines(m, Seq::<Seq<char>>::empty()) == Ok::<IniModel, Seq<char>>(m));
        },
        Err(_) => {},
    }
}

/// A document with no named sections and no root entries.
pub open spec fn model_is_empty(m: IniModel) -> bool {
    m.sections.len() == 0 && m.root.entries.len() == 0
}

proof fn lemma_apply_lines_empty(m: IniModel, lines: Seq<Seq<char>>)
    ensures
        apply_lines(m, lines) matches Ok(r) ==> (model_is_empty(r) <==> (model_is_empty(m)
            && forall|i: int| 0 <= i < lines.len() ==> #[trigger] classify(lines[i]) is Blank)),
    decreases lines.len(),
{
    if lines.len() > 0 {
        let rest = lines.drop_first();
        match apply_line(m, lines[0]) {
            Ok(next) => {
                lemma_apply_lines_empty(next, rest);
                assert forall|i: int| 0 <= i < rest.len() implies rest[i] == lines[i + 1] by {}
                if classify(lines[0]) is Blank {
                    assert((forall|i: int| 0 <= i < lines.len() ==> #[trigger] classify(lines[i]) is Blank)
                        <==> (forall|i: int| 0 <= i < rest.len() ==> #[trigger] classify(rest[i]) is Blank)) by {
                        if forall|i: int| 0 <= i < rest.len() ==> #[trigger] classify(rest[i]) is Blank {
                            assert forall|i: int| 0 <= i < lines.len() implies #[trigger] classify(lines[i]) is Blank by {
                                if i > 0 {
                                    assert(rest[i - 1] == lines[i]);
                                }
                            }
                        }
                    }
                } else {
                    assert(!model_is_empty(next));
                    lemma_apply_lines_nonempty(next, rest);
                }
            },
            Err(_) => {},
        }
    }
}

proof fn lemma_apply_lines_nonempty(m: IniModel, lines: Seq<Seq<char>>)
    requires
        !model_is_empty(m),
    ensures
        apply_lines(m, lines) matches Ok(r) ==> !model_is_empty(r),
    decreases lines.len(),
{
    if lines.len() > 0 {
        match apply_line(m, lines[0]) {
            Ok(next) => {
                assert(!model_is_empty(next));
                lemma_apply_lines_nonempty(next, lines.drop_first());
            },
            Err(_) => {},
        }
    }
}

/// A parsed document is empty (`Ini::is_empty`) exactly when every line of the
/// text is blank or only a comment.
pub proof fn law_parse_empty(text: Seq<char>)
    ensures
        spec_parse(text) matches Ok(m) ==> (model_is_empty(m) <==> forall|i: int|
            0 <= i < split_lines(text).len() ==> #[trigger] classify(split_lines(text)[i]) is Blank),
{
    lemma_apply_lines_empty(empty_ini(), split_lines(text));
}

/// The entries after pushing `pairs` one after the other.
pub open spec fn push_all(
    entries: Seq<(Seq<char>, Seq<char>)>,
    pairs: Seq<(Seq<char>, Seq<char>)>,
) -> Seq<(Seq<char>, Seq<char>)>
    decreases pairs.len(),
{
    if pairs.len() == 0 {
        entries
    } else {
        push_all(entries.push(pairs[0]), pairs.drop_first())
    }
}

/// After any number of pushes a section holds every pushed pair, in the order
/// of the pushes, repeated keys included.
pub proof fn law_push_sequence(
    entries: Seq<(Seq<char>, Seq<char>)>,
    pairs: Seq<(Seq<char>, Seq<char>)>,
)
    ensures
        push_all(entries, pairs) == entries + pairs,
    decreases pairs.len(),
{
    if pairs.len() == 0 {
        assert(entries + pairs =~= entries);
    } else {
        law_push_sequence(entries.push(pairs[0]), pairs.drop_first());
        assert(entries.push(pairs[0]) + pairs.drop_first() =~= entries + pairs);
    }
}

/// The last value recorded for a key is the one pushed last: after pushing
/// `key=value`, the last value of `key` is `value` and the last value of
/// every other key is unchanged; an empty section has no last values.
pub proof fn law_last_value_wins(
    entries: Seq<(Seq<char>, Seq<char>)>,
    key: Seq<char>,
    value: Seq<char>,
    other: Seq<char>,
)
    ensures
        lookup_last(entries.push((key, value)), key) == Some(value),
        other != key ==> lookup_last(entries.push((key, value)), other) == lookup_last(
            entries,
            other,
        ),
        lookup_last(Seq::<(Seq<char>, Seq<char>)>::empty(), key) is None,
{
    law_push(entries, key, value, other);
}

/// A line `key=value` (the key free of `=`, neither part holding a `;`) is the
/// pair of the trimmed key and the trimmed value: everything between the first
/// `=` and the end of the line is the value, and no key is refused.
pub proof fn law_pair_line(key: Seq<char>, value: Seq<char>)
    requires
        !key.contains('='),
        !key.contains(';'),
        !value.contains(';'),
    ensures
        classify(key + seq!['='] + value) == LineKind::Pair(trim(key), trim(value)),
{
    let line = key + seq!['='] + value;
    let n = key.len() as int;
    assert(line[n] == '=');
    lemma_find(line, ';');
    assert(find(line, ';') is None) by {
        if find(line, ';') is Some {
            let j = find(line, ';')->0;
            if j < n {
                assert(key[j] == ';');
            } else if j > n {
                assert(value[j - n - 1] == ';');
            }
        }
    }
    assert(strip_comment(line) == line);
    let x = trim_start(key);
    let ev = seq!['='] + value;
    assert(line =~= key + ev);
    lemma_trim_start_concat(key, ev);
    assert(ev[0] == '=');
    assert(trim_start(ev) == ev);
    assert(trim_start(line) =~= x + seq!['='] + value);
    let xe = x + seq!['='];
    assert(x + seq!['='] + value =~= xe + value);
    lemma_trim_end_concat(xe, value);
    assert(xe.last() == '=');
    assert(trim_end(xe) == xe);
    let w = trim_end(value);
    let l = x + seq!['='] + w;
    assert(trim(line) =~= l);
    lemma_trim_start_chars(key, '=');
    lemma_find(l, '=');
    assert(l[x.len() as int] == '=');
    assert(find(l, '=') == Some(x.len() as int)) by {
        match find(l, '=') {
            Some(j) => {
                if j < x.len() {
                    assert(x[j] == '=');
                    assert(x.contains('='));
                }
            },
            None => {},
        }
    }
    assert(l.take(x.len() as int) =~= x);
    assert(l.skip(x.len() as int + 1) =~= w);
    lemma_trim_start_idempotent(key);
    lemma_trim_end_idempotent(value);
    lemma_trim_commute(w);
    lemma_trim_commute(value);
}

/// A line `[name]` (the name free of `=` and `;`) is a header with the
/// trimmed name.
pub proof fn law_header_line(name: Seq<char>)
    requires
        !name.contains('='),
        !name.contains(';'),
    ensures
        classify(seq!['['] + name + seq![']']) == LineKind::Header(trim(name)),
{
    let line = seq!['['] + name + seq![']'];
    let n = name.len() as int;
    assert(line[0] == '[');
    assert(line[n + 1] == ']');
    lemma_find(line, ';');
    assert(find(line, ';') is None) by {
        if find(line, ';') is Some {
            let j = find(line, ';')->0;
            assert(name[j - 1] == ';');
        }
    }
    lemma_trim_solid_ends(line);
    lemma_find(line, '=');
    assert(find(line, '=') is None) by {
        if find(line, '=') is Some {
            let j = find(line, '=')->0;
            assert(name[j - 1] == '=');
        }
    }
    assert(line.subrange(1, line.len() - 1) =~= name);
}

/// A text without line feeds is a single line.
pub proof fn law_single_line(x: Seq<char>)
    requires
        !x.contains('\n'),
    ensures
        split_lines(x) == seq![x],
{
    lemma_find(x, '\n');
    assert(find(x, '\n') is None) by {
        if find(x, '\n') is Some {
            let j = find(x, '\n')->0;
            assert(x[j] == '\n');
        }
    }
}

/// The lines of two texts joined by a line feed are the lines of the first,
/// then the lines of the second.
pub proof fn law_split_lines_join(a: Seq<char>, b: Seq<char>)
    ensures
        split_lines(a + seq!['\n'] + b) == split_lines(a) + split_lines(b),
{
    lemma_split_lines_concat(a, b);
}

/// A text that is one `key=value` line is a document whose root holds that
/// one trimmed pair and that has no sections.
pub proof fn law_parse_one_pair(key: Seq<char>, value: Seq<char>)
    requires
        !key.contains('='),
        !key.contains(';'),
        !key.contains('\n'),
        !value.contains(';'),
        !value.contains('\n'),
    ensures
        spec_parse(key + seq!['='] + value) matches Ok(m) && m.root.name is None
            && m.root.entries == seq![(trim(key), trim(value))] && m.sections.len() == 0,
{
    let line = key + seq!['='] + value;
    assert(!line.contains('\n')) by {
        if line.contains('\n') {
            let j = choose|j: int| 0 <= j < line.len() && line[j] == '\n';
            if j < key.len() {
                assert(key[j] == '\n');
            } else if j > key.len() {
                assert(value[j - key.len() - 1] == '\n');
            }
        }
    }
    law_single_line(line);
    law_pair_line(key, value);
    assert(seq![line][0] == line);
    assert(seq![line].drop_first() =~= Seq::<Seq<char>>::empty());
    let m = add_pair(empty_ini(), trim(key), trim(value));
    assert(apply_lines(m, Seq::<Seq<char>>::empty()) == Ok::<IniModel, Seq<char>>(m));
    assert(m.root.entries =~= seq![(trim(key), trim(value))]);
}

/// A header line followed by a `key=value` line is a document with an empty
/// root and one section of the trimmed name, holding the trimmed pair.
pub proof fn law_parse_section_with_pair(name: Seq<char>, key: Seq<char>, value: Seq<char>)
    requires
        !name.contains('='),
        !name.contains(';'),
        !name.contains('\n'),
        !key.contains('='),
        !key.contains(';'),
        !key.contains('\n'),
        !value.contains(';'),
        !value.contains('\n'),
    ensures
        ({
            let r = spec_parse(seq!['['] + name + seq![']'] + seq!['\n'] + (key + seq!['='] + value));
            &&& r matches Ok(m)
            &&& m.root.entries.len() == 0
            &&& m.sections.len() == 1
            &&& m.sections[0].0 == trim(name)
            &&& m.sections[0].1.name == Some(trim(name))
            &&& m.sections[0].1.entries == seq![(trim(key), trim(value))]
        }),
{
    let h = seq!['['] + name + seq![']'];
    let line = key + seq!['='] + value;
    assert(!h.contains('\n')) by {
        if h.contains('\n') {
            let j = choose|j: int| 0 <= j < h.len() && h[j] == '\n';
            assert(name[j - 1] == '\n');
        }
    }
    assert(!line.contains('\n')) by {
        if line.contains('\n') {
            let j = choose|j: int| 0 <= j < line.len() && line[j] == '\n';
            if j < key.len() {
                assert(key[j] == '\n');
            } else if j > key.len() {
                assert(value[j - key.len() - 1] == '\n');
            }
        }
    }
    law_parse_incremental(h, line);
    law_single_line(h);
    law_single_line(line);
    law_header_line(name);
    law_pair_line(key, value);
    assert(seq![h][0] == h);
    assert(seq![h].drop_first() =~= Seq::<Seq<char>>::empty());
    assert(seq![line][0] == line);
    assert(seq![line].drop_first() =~= Seq::<Seq<char>>::empty());
    let m1 = add_section(empty_ini(), trim(name));
    assert(apply_lines(m1, Seq::<Seq<char>>::empty()) == Ok::<IniModel, Seq<char>>(m1));
    let m2 = add_pair(m1, trim(key), trim(value));
    assert(apply_lines(m2, Seq::<Seq<char>>::empty()) == Ok::<IniModel, Seq<char>>(m2));
    assert(m2.sections.len() == 1);
    assert(m2.sections[0].1.entries =~= seq![(trim(key), trim(value))]);
}

proof fn lemma_no_newline_pair(key: Seq<char>, value: Seq<char>)
    requires
        !key.contains('\n'),
        !value.contains('\n'),
    ensures
        !(key + seq!['='] + value).contains('\n'),
{
    let line = key + seq!['='] + value;
    if line.contains('\n') {
        let j = choose|j: int| 0 <= j < line.len() && line[j] == '\n';
        if j < key.len() {
            assert(key[j] == '\n');
        } else if j > key.len() {
            assert(value[j - key.len() - 1] == '\n');
        } else {
            assert(line[j] == '=');
        }
    }
}

proof fn lemma_no_newline_header(name: Seq<char>)
    requires
        !name.contains('\n'),
    ensures
        !(seq!['['] + name + seq![']']).contains('\n'),
{
    let h = seq!['['] + name + seq![']'];
    if h.contains('\n') {
        let j = choose|j: int| 0 <= j < h.len() && h[j] == '\n';
        if 0 < j < h.len() - 1 {
            assert(name[j - 1] == '\n');
        }
    }
}

/// Reading one more line after a text: a failure before it stays; otherwise
/// the line acts on the document read so far.
proof fn lemma_append_line(text: Seq<char>, line: Seq<char>)
    requires
        !line.contains('\n'),
    ensures
        spec_parse(text + seq!['\n'] + line) == match spec_parse(text) {
            Ok(m) => apply_line(m, line),
            Err(e) => Err(e),
        },
{
    law_parse_incremental(text, line);
    law_single_line(line);
    assert(seq![line][0] == line);
    assert(seq![line].drop_first() =~= Seq::<Seq<char>>::empty());
    match spec_parse(text) {
        Ok(m) => {
            match apply_line(m, line) {
                Ok(n) => {
                    assert(apply_lines(n, Seq::<Seq<char>>::empty()) == Ok::<IniModel, Seq<char>>(n));
                },
                Err(_) => {},
            }
        },
        Err(_) => {},
    }
}

/// Once a line is invalid, nothing after it changes the outcome: the first
/// invalid line is the one reported.
pub proof fn law_first_error_stays(text: Seq<char>, more: Seq<char>)
    ensures
        spec_parse(text) is Err ==> spec_parse(text + seq!['\n'] + more) == spec_parse(text),
{
    law_parse_incremental(text, more);
}

/// A `key=value` line added at the end goes, trimmed, to the last section, or
/// to the root while there is no section; nothing else changes.
pub proof fn law_append_pair(text: Seq<char>, key: Seq<char>, value: Seq<char>)
    requires
        !key.contains('='),
        !key.contains(';'),
        !key.contains('\n'),
        !value.contains(';'),
        !value.contains('\n'),
    ensures
        spec_parse(text) matches Ok(m) ==> {
            &&& spec_parse(text + seq!['\n'] + (key + seq!['='] + value)) matches Ok(n)
            &&& m.sections.len() == 0 ==> {
                &&& n.root.name == m.root.name
                &&& n.root.entries == m.root.entries.push((trim(key), trim(value)))
                &&& n.sections == m.sections
            }
            &&& m.sections.len() > 0 ==> {
                &&& n.root == m.root
                &&& n.sections.len() == m.sections.len()
                &&& forall|i: int| 0 <= i < m.sections.len() - 1 ==> #[trigger] n.sections[i] == m.sections[i]
                &&& n.sections.last().0 == m.sections.last().0
                &&& n.sections.last().1.name == m.sections.last().1.name
                &&& n.sections.last().1.entries == m.sections.last().1.entries.push(
                    (trim(key), trim(value)),
                )
            }
        },
{
    lemma_no_newline_pair(key, value);
    lemma_append_line(text, key + seq!['='] + value);
    law_pair_line(key, value);
    match spec_parse(text) {
        Ok(m) => {
            let n = add_pair(m, trim(key), trim(value));
            if m.sections.len() > 0 {
                assert forall|i: int| 0 <= i < m.sections.len() - 1 implies #[trigger] n.sections[i]
                    == m.sections[i] by {
                    assert(n.sections[i] == m.sections.drop_last()[i]);
                }
            }
        },
        Err(_) => {},
    }
}

/// A `[name]` line added at the end opens a new, empty section with the
/// trimmed name after all the others; nothing else changes.
pub proof fn law_append_header(text: Seq<char>, name: Seq<char>)
    requires
        !name.contains('='),
        !name.contains(';'),
        !name.contains('\n'),
    ensures
        spec_parse(text) matches Ok(m) ==> {
            &&& spec_parse(text + seq!['\n'] + (seq!['['] + name + seq![']'])) matches Ok(n)
            &&& n.root == m.root
            &&& n.sections == m.sections.push(
                (
                    trim(name),
                    crate::parser::SectionModel {
                        name: Some(trim(name)),
                        entries: Seq::<(Seq<char>, Seq<char>)>::empty(),
                    },
                ),
            )
        },
{
    lemma_no_newline_header(name);
    lemma_append_line(text, seq!['['] + name + seq![']']);
    law_header_line(name);
}

/// A line with neither `=` nor `;` that is not blank and not of the form
/// `[...]` is invalid, and is reported trimmed.
pub proof fn law_invalid_line(line: Seq<char>)
    requires
        !line.contains('='),
        !line.contains(';'),
        trim(line).len() > 0,
        !(trim(line).len() >= 2 && trim(line)[0] == '[' && trim(line).last() == ']'),
    ensures
        classify(line) == LineKind::Invalid(trim(line)),
{
    lemma_find(line, ';');
    assert(find(line, ';') is None) by {
        if find(line, ';') is Some {
            let j = find(line, ';')->0;
            assert(line[j] == ';');
        }
    }
    crate::text::lemma_trim_chars(line, '=');
    lemma_find(trim(line), '=');
    assert(find(trim(line), '=') is None) by {
        if find(trim(line), '=') is Some {
            let j = find(trim(line), '=')->0;
            assert(trim(line)[j] == '=');
            assert(trim(line).contains('='));
        }
    }
}

/// Such a line added at the end of a text that parses makes the parse fail,
/// naming that line trimmed.
pub proof fn law_append_invalid(text: Seq<char>, line: Seq<char>)
    requires
        !line.contains('\n'),
        !line.contains('='),
        !line.contains(';'),
        trim(line).len() > 0,
        !(trim(line).len() >= 2 && trim(line)[0] == '[' && trim(line).last() == ']'),
    ensures
        spec_parse(text) is Ok ==> spec_parse(text + seq!['\n'] + line) == Err::<IniModel, Seq<
            char,
        >>(trim(line)),
{
    lemma_append_line(text, line);
    law_invalid_line(line);
}

/// The error message for an invalid line is `Invalid line: ` followed by the line.
pub proof fn law_invalid_line_message(l: Seq<char>)
    ensures
        invalid_line_message(l) == seq![
            'I', 'n', 'v', 'a', 'l', 'i', 'd', ' ', 'l', 'i', 'n', 'e', ':', ' ',
        ] + l,
{
    reveal_strlit("Invalid line: ");
    assert("Invalid line: "@ =~= seq![
        'I', 'n', 'v', 'a', 'l', 'i', 'd', ' ', 'l', 'i', 'n', 'e', ':', ' ',
    ]);
}

/// Listing one more section `name` adds it at the end of the sections named
/// `name` and leaves the sections of every other name as they were; no
/// section has a name in an empty list.
pub proof fn law_sections_named_push(
    secs: Seq<(Seq<char>, crate::parser::SectionModel)>,
    name: Seq<char>,
    section: crate::parser::SectionModel,
    other: Seq<char>,
)
    ensures
        sections_named(secs.push((name, section)), name) == sections_named(secs, name).push(section),
        other != name ==> sections_named(secs.push((name, section)), other) == sections_named(
            secs,
            other,
        ),
        sections_named(Seq::<(Seq<char>, crate::parser::SectionModel)>::empty(), name).len() == 0,
    decreases secs.len(),
{
    let p = secs.push((name, section));
    let none = Seq::<(Seq<char>, crate::parser::SectionModel)>::empty();
    assert(sections_named(none, name) =~= Seq::<crate::parser::SectionModel>::empty());
    assert(sections_named(none, other) =~= Seq::<crate::parser::SectionModel>::empty());
    if secs.len() == 0 {
        assert(secs =~= none);
        assert(p[0] == (name, section));
        assert(p.drop_first() =~= Seq::<(Seq<char>, crate::parser::SectionModel)>::empty());
        assert(seq![section] + Seq::<crate::parser::SectionModel>::empty() =~= seq![section]);
        assert(Seq::<crate::parser::SectionModel>::empty().push(section) =~= seq![section]);
    } else {
        law_sections_named_push(secs.drop_first(), name, section, other);
        assert(p.drop_first() =~= secs.drop_first().push((name, section)));
        assert(p[0] == secs[0]);
        let r1 = sections_named(secs.drop_first(), name);
        let r2 = sections_named(secs.drop_first(), other);
        assert(seq![secs[0].1] + r1.push(section) =~= (seq![secs[0].1] + r1).push(section));
    }
}

/// The merged entries of one more section are the merged entries so far
/// followed by that section's entries.
pub proof fn law_merged_entries_push(
    ss: Seq<crate::parser::SectionModel>,
    section: crate::parser::SectionModel,
)
    ensures
        merged_entries(ss.push(section)) == merged_entries(ss) + section.entries,
        merged_entries(Seq::<crate::parser::SectionModel>::empty()).len() == 0,
    decreases ss.len(),
{
    let p = ss.push(section);
    assert(merged_entries(Seq::<crate::parser::SectionModel>::empty()) =~= Seq::<(Seq<char>, Seq<char>)>::empty());
    if ss.len() == 0 {
        assert(ss =~= Seq::<crate::parser::SectionModel>::empty());
        assert(p[0] == section);
        assert(p.drop_first() =~= Seq::<crate::parser::SectionModel>::empty());
        assert(section.entries + Seq::<(Seq<char>, Seq<char>)>::empty() =~= section.entries);
        assert(Seq::<(Seq<char>, Seq<char>)>::empty() + section.entries =~= section.entries);
    } else {
        law_merged_entries_push(ss.drop_first(), section);
        assert(p.drop_first() =~= ss.drop_first().push(section));
        assert(p[0] == ss[0]);
        assert(ss[0].entries + (merged_entries(ss.drop_first()) + section.entries) =~= (ss[0].entries
            + merged_entries(ss.drop_first())) + section.entries);
    }
}

/// The distinct names hold each listed name exactly once, and nothing else.
pub proof fn law_distinct_names(secs: Seq<(Seq<char>, crate::parser::SectionModel)>)
    ensures
        forall|i: int, j: int|
            0 <= i < j < distinct_names(secs).len() ==> #[trigger] distinct_names(secs)[i]
                != #[trigger] distinct_names(secs)[j],
        forall|n: Seq<char>|
            #[trigger] distinct_names(secs).contains(n) <==> exists|i: int|
                0 <= i < secs.len() && #[trigger] secs[i].0 == n,
    decreases secs.len(),
{
    if secs.len() > 0 {
        let rest = secs.drop_last();
        law_distinct_names(rest);
        let d = distinct_names(rest);
        let last = secs.last().0;
        assert forall|n: Seq<char>| #[trigger] distinct_names(secs).contains(n) <==> exists|i: int|
            0 <= i < secs.len() && #[trigger] secs[i].0 == n by {
            if distinct_names(secs).contains(n) {
                if d.contains(n) {
                    let i = choose|i: int| 0 <= i < rest.len() && #[trigger] rest[i].0 == n;
                    assert(secs[i].0 == n);
                } else {
                    let k = choose|k: int| 0 <= k < distinct_names(secs).len() && distinct_names(secs)[k] == n;
                    assert(distinct_names(secs) == d.push(last));
                    assert(k == d.len());
                    assert(secs[secs.len() - 1].0 == n);
                }
            }
            if exists|i: int| 0 <= i < secs.len() && #[trigger] secs[i].0 == n {
                let i = choose|i: int| 0 <= i < secs.len() && #[trigger] secs[i].0 == n;
                if i < rest.len() {
                    assert(rest[i].0 == n);
                    assert(d.contains(n));
                    let k = choose|k: int| 0 <= k < d.len() && d[k] == n;
                    if !d.contains(last) {
                        assert(distinct_names(secs)[k] == n);
                    }
                } else {
                    if !d.contains(last) {
                        assert(distinct_names(secs)[d.len() as int] == n);
                    }
                }
            }
        }
        if !d.contains(last) {
            assert forall|i: int, j: int|
                0 <= i < j < distinct_names(secs).len() implies #[trigger] distinct_names(secs)[i]
                != #[trigger] distinct_names(secs)[j] by {
                if j == d.len() {
                    assert(distinct_names(secs)[i] == d[i]);
                }
            }
        }
    }
}

/// Names keep the order of their first appearance: one more section adds its
/// name at the end unless the name was listed before.
pub proof fn law_distinct_names_push(
    secs: Seq<(Seq<char>, crate::parser::SectionModel)>,
    name: Seq<char>,
    section: crate::parser::SectionModel,
)
    ensures
        distinct_names(secs.push((name, section))) == if exists|i: int|
            0 <= i < secs.len() && #[trigger] secs[i].0 == name {
            distinct_names(secs)
        } else {
            distinct_names(secs).push(name)
        },
        distinct_names(Seq::<(Seq<char>, crate::parser::SectionModel)>::empty()).len() == 0,
{
    let p = secs.push((name, section));
    assert(p.drop_last() =~= secs);
    law_distinct_names(secs);
    if exists|i: int| 0 <= i < secs.len() && #[trigger] secs[i].0 == name {
        assert(distinct_names(secs).contains(name));
    } else {
        assert(!distinct_names(secs).contains(name));
    }
}

} // verus!
