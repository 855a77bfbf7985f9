//! The table-level guarantees of the library: parsing inverts
//! serialization, and the editor places aliases idempotently.

use vstd::prelude::*;
use crate::addr::HostAddr;
use crate::line::{
    LineModel, DataModel, FormatError, parse_line_spec, line_text, line_is_empty, line_wf,
    data_text, lemma_line_round_trip, lemma_parse_line_wf,
};
use crate::hosts::{
    parse_table_spec, table_text, parse_lines, split_lines, trim_trailing_empty, strip_cr,
    add_data_spec, dedup_host, with_region, sentinel_idx, insert_idx, first_host_line,
    remove_first_host, line_has_host, is_sentinel, sentinel, empty_line, sentinel_line, data_line,
    lemma_sentinel_idx_props, lemma_sentinel_idx_is, lemma_first_host_line_props,
    lemma_first_host_line_is, lemma_insert_idx_is,
};
use crate::text::{
    split_on, join, lemma_join_split, lemma_join_push, lemma_first_index_of_props,
    lemma_first_nonspace_props, first_nonspace, trim_start,
};

verus! {

/// A comment that survives serialization unchanged: free of newlines and
/// not ending in a carriage return.
pub open spec fn comment_stable(c: Seq<char>) -> bool {
    &&& forall|j: int| 0 <= j < c.len() ==> #[trigger] c[j] != '\n'
    &&& (c.len() > 0 ==> c.last() != '\r')
}

/// A table on which serialization is inverted by parsing: every line is
/// well formed with a stable comment, and no blank line ends the table.
pub open spec fn table_wf(t: Seq<LineModel>) -> bool {
    &&& forall|i: int| 0 <= i < t.len() ==> line_wf(#[trigger] t[i])
    &&& forall|i: int|
        0 <= i < t.len() ==> match #[trigger] t[i].comment {
            Some(c) => comment_stable(c),
            None => true,
        }
    &&& (t.len() > 0 ==> !line_is_empty(t.last()))
}

/// The texts of the lines, in order.
pub open spec fn line_texts(t: Seq<LineModel>) -> Seq<Seq<char>>
    decreases t.len(),
{
    if t.len() == 0 {
        seq![]
    } else {
        line_texts(t.drop_last()).push(line_text(t.last()))
    }
}

proof fn lemma_line_texts_props(t: Seq<LineModel>)
    ensures
        line_texts(t).len() == t.len(),
        forall|i: int| 0 <= i < t.len() ==> #[trigger] line_texts(t)[i] == line_text(t[i]),
    decreases t.len(),
{
    if t.len() > 0 {
        lemma_line_texts_props(t.drop_last());
    }
}

/// The serialized table is the lines' texts joined by newlines, with one
/// final empty piece for the trailing newline.
proof fn lemma_table_text_join(t: Seq<LineModel>)
    ensures
        table_text(t) == join(line_texts(t).push(Seq::empty()), '\n'),
    decreases t.len(),
{
    let e = Seq::<char>::empty();
    if t.len() == 0 {
        assert(line_texts(t).push(e).len() == 1);
        assert(line_texts(t).push(e)[0] == e);
        assert(join(line_texts(t).push(e), '\n') == e);
    } else {
        lemma_table_text_join(t.drop_last());
        let a = line_texts(t.drop_last());
        let lt = line_text(t.last());
        assert(line_texts(t) == a.push(lt));
        lemma_join_push(a, e, '\n');
        lemma_join_push(a.push(lt), e, '\n');
        lemma_join_push(a, lt, '\n');
        if a.len() == 0 {
            assert(table_text(t.drop_last()) == e);
            assert(table_text(t) =~= lt + seq!['\n']);
            assert(join(a.push(lt).push(e), '\n') =~= lt + seq!['\n'] + e);
            assert(lt + seq!['\n'] + e =~= lt + seq!['\n']);
        } else {
            assert(table_text(t) == (join(a, '\n') + seq!['\n'] + e) + lt + seq!['\n']);
            assert(join(a.push(lt).push(e), '\n') == (join(a, '\n') + seq!['\n'] + lt)
                + seq!['\n'] + e);
            assert((join(a, '\n') + seq!['\n'] + e) + lt + seq!['\n'] =~= (join(a, '\n')
                + seq!['\n'] + lt) + seq!['\n'] + e);
        }
    }
}

/// Character facts about a single well-formed line's text: no newline, and
/// no trailing carriage return.
proof fn lemma_line_text_chars(l: LineModel)
    requires
        line_wf(l),
        match l.comment {
            Some(c) => comment_stable(c),
            None => true,
        },
    ensures
        forall|k: int| 0 <= k < line_text(l).len() ==> #[trigger] line_text(l)[k] != '\n',
        line_text(l).len() > 0 ==> line_text(l).last() != '\r',
{
    let s = line_text(l);
    match l.data {
        Some(d) => {
            let dt = data_text(d);
            crate::line::lemma_data_text_chars(d);
            match l.comment {
                Some(c) => {
                    assert(s == dt + seq![' ', ' '] + seq!['#', ' '] + c);
                    assert forall|k: int| 0 <= k < s.len() implies #[trigger] s[k] != '\n' by {
                        if k < dt.len() {
                            assert(s[k] == dt[k]);
                        } else if k < dt.len() + 2 {
                            assert(s[k] == ' ');
                        } else if k == dt.len() + 2 {
                            assert(s[k] == '#');
                        } else if k == dt.len() + 3 {
                            assert(s[k] == ' ');
                        } else {
                            assert(s[k] == c[k - dt.len() - 4]);
                        }
                    }
                    if c.len() > 0 {
                        assert(s.last() == c.last());
                    } else {
                        assert(s.last() == ' ');
                    }
                },
                None => {
                    assert(s == dt);
                    assert(s.last() == dt.last());
                },
            }
        },
        None => {
            match l.comment {
                Some(c) => {
                    assert(s =~= seq!['#', ' '] + c);
                    assert forall|k: int| 0 <= k < s.len() implies #[trigger] s[k] != '\n' by {
                        if k == 0 {
                            assert(s[k] == '#');
                        } else if k == 1 {
                            assert(s[k] == ' ');
                        } else {
                            assert(s[k] == c[k - 2]);
                        }
                    }
                    if c.len() > 0 {
                        assert(s.last() == c.last());
                    } else {
                        assert(s.last() == ' ');
                    }
                },
                None => {
                    assert(s =~= Seq::<char>::empty());
                },
            }
        },
    }
}

/// Parsing the lines' texts yields the lines back.
proof fn lemma_parse_lines_of_texts(t: Seq<LineModel>)
    requires
        forall|i: int| 0 <= i < t.len() ==> line_wf(#[trigger] t[i]),
    ensures
        parse_lines(line_texts(t)) == Ok::<Seq<LineModel>, FormatError>(t),
    decreases t.len(),
{
    lemma_line_texts_props(t);
    if t.len() == 0 {
        assert(line_texts(t) =~~= Seq::<Seq<char>>::empty());
        assert(t =~= Seq::<LineModel>::empty());
    } else {
        let parts = line_texts(t);
        lemma_line_round_trip(t[0]);
        assert(parts[0] == line_text(t[0]));
        assert forall|i: int| 0 <= i < t.drop_first().len() implies line_wf(
            #[trigger] t.drop_first()[i],
        ) by {
            assert(t.drop_first()[i] == t[i + 1]);
        }
        lemma_parse_lines_of_texts(t.drop_first());
        lemma_line_texts_props(t.drop_first());
        assert(parts.drop_first() =~~= line_texts(t.drop_first()));
        assert(parse_lines(parts) == Ok::<Seq<LineModel>, FormatError>(
            seq![t[0]] + t.drop_first(),
        ));
        assert(seq![t[0]] + t.drop_first() =~= t);
    }
}

/// Serialization inverted: parsing the text of a well-formed table yields
/// the table back.
pub proof fn lemma_table_text_parses_back(t: Seq<LineModel>)
    requires
        table_wf(t),
    ensures
        parse_table_spec(table_text(t)) == Ok::<Seq<LineModel>, FormatError>(t),
{
    let text = table_text(t);
    lemma_line_texts_props(t);
    lemma_table_text_join(t);
    let e = Seq::<char>::empty();
    let parts = line_texts(t).push(e);
    if t.len() == 0 {
        assert(parts.len() == 1);
        assert(parts[0] == e);
        assert(text == e);
        assert(split_lines(text) =~~= Seq::<Seq<char>>::empty());
        assert(trim_trailing_empty(Seq::<LineModel>::empty()) =~= t);
    } else {
        assert forall|i: int| 0 <= i < t.len() implies (forall|k: int|
            0 <= k < line_texts(t)[i].len() ==> #[trigger] line_texts(t)[i][k] != '\n')
            && (line_texts(t)[i].len() > 0 ==> line_texts(t)[i].last() != '\r') by {
            assert(line_texts(t)[i] == line_text(t[i]));
            lemma_line_text_chars(t[i]);
        }
        assert forall|i: int, j: int|
            0 <= i < parts.len() && 0 <= j < parts[i].len() implies #[trigger] parts[i][j]
            != '\n' by {
            if i < line_texts(t).len() {
                assert(parts[i] == line_texts(t)[i]);
            } else {
                assert(parts[i] == e);
            }
        }
        lemma_join_split(parts, '\n');
        assert(split_on(text, '\n') == parts);
        assert(text.len() > 0) by {
            assert(text == table_text(t.drop_last()) + line_text(t.last()) + seq!['\n']);
        }
        assert(parts.last() == e);
        assert(parts.drop_last() =~~= line_texts(t));
        let q = line_texts(t);
        assert(split_lines(text) == q.map(|i: int, x: Seq<char>| strip_cr(x)));
        assert(split_lines(text) =~~= q) by {
            assert(split_lines(text).len() == q.len());
            assert forall|i: int| 0 <= i < q.len() implies split_lines(text)[i] == q[i] by {
                assert(split_lines(text)[i] == strip_cr(q[i]));
                if q[i].len() > 0 {
                    assert(q[i].last() != '\r');
                }
            }
        }
        lemma_parse_lines_of_texts(t);
        assert(parse_lines(split_lines(text)) == Ok::<Seq<LineModel>, FormatError>(t));
        assert(!line_is_empty(t.last()));
        assert(trim_trailing_empty(t) == t);
    }
}

/// What parsing guarantees of its output: a well-formed table whose
/// comments hold no newline.
pub proof fn lemma_parse_table_wf(s: Seq<char>, t: Seq<LineModel>)
    requires
        parse_table_spec(s) == Ok::<Seq<LineModel>, FormatError>(t),
    ensures
        forall|i: int| 0 <= i < t.len() ==> line_wf(#[trigger] t[i]),
        t.len() > 0 ==> !line_is_empty(t.last()),
{
    let ls = split_lines(s);
    let parsed = match parse_lines(ls) {
        Ok(p) => p,
        Err(_) => arbitrary(),
    };
    lemma_parse_lines_wf(ls, parsed);
    lemma_trim_trailing_props(parsed);
    assert(t == trim_trailing_empty(parsed));
    assert forall|i: int| 0 <= i < t.len() implies line_wf(#[trigger] t[i]) by {
        assert(t[i] == parsed[i]);
    }
}

/// Every line that `parse_lines` yields is well formed.
proof fn lemma_parse_lines_wf(ls: Seq<Seq<char>>, parsed: Seq<LineModel>)
    requires
        parse_lines(ls) == Ok::<Seq<LineModel>, FormatError>(parsed),
    ensures
        parsed.len() == ls.len(),
        forall|i: int| 0 <= i < parsed.len() ==> line_wf(#[trigger] parsed[i]),
    decreases ls.len(),
{
    if ls.len() > 0 {
        match parse_line_spec(ls[0]) {
            Ok(l) => {
                lemma_parse_line_wf(ls[0], l);
                match parse_lines(ls.drop_first()) {
                    Ok(r) => {
                        lemma_parse_lines_wf(ls.drop_first(), r);
                        assert(parsed == seq![l] + r);
                        assert forall|i: int| 0 <= i < parsed.len() implies line_wf(
                            #[trigger] parsed[i],
                        ) by {
                            if i > 0 {
                                assert(parsed[i] == r[i - 1]);
                            }
                        }
                    },
                    Err(_) => {},
                }
            },
            Err(_) => {},
        }
    }
}

/// Trimming trailing blank lines keeps a prefix and leaves no trailing
/// blank line.
proof fn lemma_trim_trailing_props(ls: Seq<LineModel>)
    ensures
        trim_trailing_empty(ls).len() <= ls.len(),
        forall|i: int|
            0 <= i < trim_trailing_empty(ls).len() ==> #[trigger] trim_trailing_empty(ls)[i]
                == ls[i],
        trim_trailing_empty(ls).len() > 0 ==> !line_is_empty(trim_trailing_empty(ls).last()),
    decreases ls.len(),
{
    if ls.len() > 0 && line_is_empty(ls.last()) {
        lemma_trim_trailing_props(ls.drop_last());
        assert forall|i: int|
            0 <= i < trim_trailing_empty(ls).len() implies #[trigger] trim_trailing_empty(
            ls,
        )[i] == ls[i] by {
            assert(trim_trailing_empty(ls)[i] == ls.drop_last()[i]);
        }
    }
}

/// Round trip: a table read back from its own serialization serializes to
/// the same text, provided no comment ends in a carriage return (one that
/// does loses that final character on the next read).
pub proof fn lemma_table_round_trip(text: Seq<char>, t: Seq<LineModel>)
    requires
        parse_table_spec(text) == Ok::<Seq<LineModel>, FormatError>(t),
        forall|i: int|
            0 <= i < t.len() ==> match #[trigger] t[i].comment {
                Some(c) => c.len() > 0 ==> c.last() != '\r',
                None => true,
            },
    ensures
        parse_table_spec(table_text(t)) == Ok::<Seq<LineModel>, FormatError>(t),
{
    lemma_parse_table_wf(text, t);
    assert forall|i: int|
        0 <= i < t.len() implies match #[trigger] t[i].comment {
        Some(c) => comment_stable(c),
        None => true,
    } by {
        lemma_parsed_comment_no_newline(text, t, i);
    }
    lemma_table_text_parses_back(t);
}

/// A comment produced by parsing holds no newline: it came from a single
/// physical line.
proof fn lemma_parsed_comment_no_newline(text: Seq<char>, t: Seq<LineModel>, i: int)
    requires
        parse_table_spec(text) == Ok::<Seq<LineModel>, FormatError>(t),
        0 <= i < t.len(),
    ensures
        match t[i].comment {
            Some(c) => forall|j: int| 0 <= j < c.len() ==> #[trigger] c[j] != '\n',
            None => true,
        },
{
    let ls = split_lines(text);
    let parsed = match parse_lines(split_lines(text)) {
        Ok(p) => p,
        Err(_) => arbitrary(),
    };
    lemma_parse_lines_wf(ls, parsed);
    lemma_trim_trailing_props(parsed);
    assert(t[i] == parsed[i]);
    lemma_parse_lines_index(ls, parsed, i);
    assert(parse_line_spec(ls[i]) == Ok::<LineModel, FormatError>(parsed[i]));
    lemma_split_lines_no_newline(text, i);
    lemma_parse_line_comment_chars(ls[i], parsed[i]);
}

/// `parse_lines` parses elementwise.
proof fn lemma_parse_lines_index(ls: Seq<Seq<char>>, parsed: Seq<LineModel>, i: int)
    requires
        parse_lines(ls) == Ok::<Seq<LineModel>, FormatError>(parsed),
        0 <= i < ls.len(),
        parsed.len() == ls.len(),
    ensures
        parse_line_spec(ls[i]) == Ok::<LineModel, FormatError>(parsed[i]),
    decreases ls.len(),
{
    match parse_line_spec(ls[0]) {
        Ok(l) => {
            match parse_lines(ls.drop_first()) {
                Ok(r) => {
                    assert(parsed == seq![l] + r);
                    if i > 0 {
                        lemma_parse_lines_wf(ls.drop_first(), r);
                        lemma_parse_lines_index(ls.drop_first(), r, i - 1);
                        assert(ls.drop_first()[i - 1] == ls[i]);
                        assert(parsed[i] == r[i - 1]);
                    }
                },
                Err(_) => {},
            }
        },
        Err(_) => {},
    }
}

/// A raw line of a split text holds no newline.
proof fn lemma_split_lines_no_newline(text: Seq<char>, i: int)
    requires
        0 <= i < split_lines(text).len(),
    ensures
        forall|j: int|
            0 <= j < split_lines(text)[i].len() ==> #[trigger] split_lines(text)[i][j] != '\n',
{
    let p = split_on(text, '\n');
    crate::text::lemma_split_on_props(text, '\n');
    let q = if p.last().len() == 0 {
        p.drop_last()
    } else {
        p
    };
    assert(split_lines(text)[i] == strip_cr(q[i]));
    assert(q[i] == p[i]);
    assert forall|j: int| 0 <= j < split_lines(text)[i].len() implies #[trigger] split_lines(
        text,
    )[i][j] != '\n' by {
        assert(split_lines(text)[i][j] == p[i][j]);
    }
}

/// Number of occurrences of `h` among the alias tokens `hs`.
pub open spec fn count_occ(hs: Seq<Seq<char>>, h: Seq<char>) -> nat
    decreases hs.len(),
{
    if hs.len() == 0 {
        0
    } else {
        (if hs[0] == h {
            1nat
        } else {
            0nat
        }) + count_occ(hs.drop_first(), h)
    }
}

/// Occurrences of `h` among one line's aliases.
pub open spec fn line_occ(l: LineModel, h: Seq<char>) -> nat {
    match l.data {
        Some(d) => count_occ(d.hosts, h),
        None => 0,
    }
}

/// Occurrences of `h` in the whole table.
pub open spec fn table_occ(ls: Seq<LineModel>, h: Seq<char>) -> nat
    decreases ls.len(),
{
    if ls.len() == 0 {
        0
    } else {
        line_occ(ls[0], h) + table_occ(ls.drop_first(), h)
    }
}

proof fn lemma_count_occ_zero(hs: Seq<Seq<char>>, h: Seq<char>)
    ensures
        (count_occ(hs, h) == 0) <==> !hs.contains(h),
    decreases hs.len(),
{
    if hs.len() > 0 {
        lemma_count_occ_zero(hs.drop_first(), h);
        if hs[0] == h {
            assert(hs.contains(h));
        } else {
            if hs.contains(h) {
                let w = choose|w: int| 0 <= w < hs.len() && hs[w] == h;
                assert(hs.drop_first()[w - 1] == h);
                assert(hs.drop_first().contains(h));
            }
            if hs.drop_first().contains(h) {
                let w = choose|w: int|
                    0 <= w < hs.drop_first().len() && hs.drop_first()[w] == h;
                assert(hs[w + 1] == h);
                assert(hs.contains(h));
            }
        }
    }
}

proof fn lemma_remove_first_count(hs: Seq<Seq<char>>, h: Seq<char>)
    requires
        hs.contains(h),
    ensures
        count_occ(remove_first_host(hs, h), h) == count_occ(hs, h) - 1,
        remove_first_host(hs, h).len() == hs.len() - 1,
    decreases hs.len(),
{
    if hs[0] == h {
    } else {
        let w = choose|w: int| 0 <= w < hs.len() && hs[w] == h;
        assert(hs.drop_first()[w - 1] == h);
        assert(hs.drop_first().contains(h));
        lemma_remove_first_count(hs.drop_first(), h);
        let r = seq![hs[0]] + remove_first_host(hs.drop_first(), h);
        assert(r[0] == hs[0]);
        assert(r.drop_first() =~~= remove_first_host(hs.drop_first(), h));
    }
}

proof fn lemma_table_occ_concat(a: Seq<LineModel>, b: Seq<LineModel>, h: Seq<char>)
    ensures
        table_occ(a + b, h) == table_occ(a, h) + table_occ(b, h),
    decreases a.len(),
{
    if a.len() == 0 {
        assert(a + b =~= b);
    } else {
        assert((a + b)[0] == a[0]);
        assert((a + b).drop_first() =~= a.drop_first() + b);
        lemma_table_occ_concat(a.drop_first(), b, h);
    }
}

proof fn lemma_table_occ_zero(ls: Seq<LineModel>, h: Seq<char>)
    ensures
        (table_occ(ls, h) == 0) <==> (forall|i: int|
            0 <= i < ls.len() ==> !line_has_host(#[trigger] ls[i], h)),
    decreases ls.len(),
{
    if ls.len() > 0 {
        lemma_table_occ_zero(ls.drop_first(), h);
        match ls[0].data {
            Some(d) => {
                lemma_count_occ_zero(d.hosts, h);
            },
            None => {},
        }
        if table_occ(ls, h) == 0 {
            assert forall|i: int| 0 <= i < ls.len() implies !line_has_host(
                #[trigger] ls[i],
                h,
            ) by {
                if i > 0 {
                    assert(ls[i] == ls.drop_first()[i - 1]);
                }
            }
        }
        if forall|i: int| 0 <= i < ls.len() ==> !line_has_host(#[trigger] ls[i], h) {
            assert forall|i: int|
                0 <= i < ls.drop_first().len() implies !line_has_host(
                #[trigger] ls.drop_first()[i],
                h,
            ) by {
                assert(ls.drop_first()[i] == ls[i + 1]);
            }
            assert(line_occ(ls[0], h) == 0);
        }
    }
}

/// Occurrences decompose around any index.
proof fn lemma_table_occ_split(ls: Seq<LineModel>, h: Seq<char>, i: int)
    requires
        0 <= i < ls.len(),
    ensures
        table_occ(ls, h) == table_occ(ls.take(i), h) + line_occ(ls[i], h) + table_occ(
            ls.skip(i + 1),
            h,
        ),
{
    assert(ls =~= ls.take(i) + (seq![ls[i]] + ls.skip(i + 1)));
    lemma_table_occ_concat(ls.take(i), seq![ls[i]] + ls.skip(i + 1), h);
    lemma_table_occ_concat(seq![ls[i]], ls.skip(i + 1), h);
    assert(table_occ(seq![ls[i]], h) == line_occ(ls[i], h)) by {
        assert(seq![ls[i]][0] == ls[i]);
        assert(seq![ls[i]].drop_first() =~= Seq::<LineModel>::empty());
        assert(table_occ(Seq::<LineModel>::empty(), h) == 0);
    }
}

/// The dedup step removes every occurrence there was, when there was at
/// most one.
proof fn lemma_dedup_occ(ls: Seq<LineModel>, h: Seq<char>)
    requires
        table_occ(ls, h) <= 1,
    ensures
        table_occ(dedup_host(ls, h), h) == 0,
        table_occ(ls, h) == 0 ==> dedup_host(ls, h) == ls,
{
    let i = first_host_line(ls, h);
    lemma_first_host_line_props(ls, h);
    lemma_table_occ_zero(ls, h);
    if i == ls.len() {
        assert(table_occ(ls, h) == 0);
    } else {
        let d0 = ls[i].data->Some_0;
        lemma_count_occ_zero(d0.hosts, h);
        assert(count_occ(d0.hosts, h) >= 1);
        lemma_table_occ_split(ls, h, i);
        assert(line_occ(ls[i], h) == count_occ(d0.hosts, h));
        assert(table_occ(ls.take(i), h) == 0);
        assert(table_occ(ls.skip(i + 1), h) == 0);
        assert(count_occ(d0.hosts, h) == 1);
        lemma_remove_first_count(d0.hosts, h);
        let hs2 = remove_first_host(d0.hosts, h);
        lemma_count_occ_zero(hs2, h);
        let d = dedup_host(ls, h);
        if hs2.len() == 0 {
            assert(d =~= ls.take(i) + ls.skip(i + 1));
            lemma_table_occ_concat(ls.take(i), ls.skip(i + 1), h);
        } else {
            let nl = LineModel {
                data: Some(DataModel { ip: d0.ip, hosts: hs2 }),
                comment: ls[i].comment,
            };
            assert(d == ls.update(i, nl));
            assert(d =~= ls.take(i) + (seq![nl] + ls.skip(i + 1)));
            lemma_table_occ_concat(ls.take(i), seq![nl] + ls.skip(i + 1), h);
            lemma_table_occ_concat(seq![nl], ls.skip(i + 1), h);
            assert(table_occ(seq![nl], h) == line_occ(nl, h)) by {
                assert(seq![nl][0] == nl);
                assert(seq![nl].drop_first() =~= Seq::<LineModel>::empty());
                assert(table_occ(Seq::<LineModel>::empty(), h) == 0);
            }
        }
    }
}

/// Creating the managed region neither adds nor removes aliases, and it
/// always leaves a sentinel line present.
proof fn lemma_with_region_facts(d: Seq<LineModel>, h: Seq<char>)
    ensures
        table_occ(with_region(d), h) == table_occ(d, h),
        sentinel_idx(with_region(d)) < with_region(d).len(),
{
    let r = with_region(d);
    lemma_sentinel_idx_props(d);
    if sentinel_idx(d) < d.len() {
    } else {
        let base = if d.len() > 0 && !line_is_empty(d.last()) {
            d + seq![empty_line()]
        } else {
            d
        };
        assert(r == base + seq![sentinel_line()]);
        lemma_table_occ_concat(base, seq![sentinel_line()], h);
        assert(table_occ(seq![sentinel_line()], h) == 0) by {
            assert(seq![sentinel_line()][0] == sentinel_line());
            assert(seq![sentinel_line()].drop_first() =~= Seq::<LineModel>::empty());
            assert(table_occ(Seq::<LineModel>::empty(), h) == 0);
        }
        if d.len() > 0 && !line_is_empty(d.last()) {
            lemma_table_occ_concat(d, seq![empty_line()], h);
            assert(table_occ(seq![empty_line()], h) == 0) by {
                assert(seq![empty_line()][0] == empty_line());
                assert(seq![empty_line()].drop_first() =~= Seq::<LineModel>::empty());
                assert(table_occ(Seq::<LineModel>::empty(), h) == 0);
            }
        }
        assert(r[r.len() - 1] == sentinel_line());
        assert(is_sentinel(r[r.len() - 1]));
        lemma_sentinel_idx_props(r);
        if sentinel_idx(r) == r.len() {
            assert(!is_sentinel(r[r.len() - 1]));
        }
    }
}

proof fn lemma_insert_idx_props(ls: Seq<LineModel>, i: int)
    requires
        0 <= i <= ls.len(),
    ensures
        i <= insert_idx(ls, i) <= ls.len(),
        forall|m: int| i <= m < insert_idx(ls, i) ==> !line_is_empty(#[trigger] ls[m]),
        insert_idx(ls, i) < ls.len() ==> line_is_empty(ls[insert_idx(ls, i)]),
    decreases ls.len() - i,
{
    if i < ls.len() && !line_is_empty(ls[i]) {
        lemma_insert_idx_props(ls, i + 1);
    }
}

/// Idempotent alias placement: after one upsert the alias occurs exactly
/// once in the table, and a second identical upsert changes nothing.
pub proof fn lemma_add_data_idempotent(ls: Seq<LineModel>, ip: HostAddr, h: Seq<char>)
    requires
        table_occ(ls, h) <= 1,
    ensures
        table_occ(add_data_spec(ls, ip, h), h) == 1,
        add_data_spec(add_data_spec(ls, ip, h), ip, h) == add_data_spec(ls, ip, h),
{
    let d = dedup_host(ls, h);
    lemma_dedup_occ(ls, h);
    let r = with_region(d);
    lemma_with_region_facts(d, h);
    let s = sentinel_idx(r);
    lemma_sentinel_idx_props(r);
    let j = insert_idx(r, s);
    lemma_insert_idx_props(r, s);
    let nl = data_line(ip, h);
    let t1 = r.insert(j, nl);
    assert(add_data_spec(ls, ip, h) == t1);
    assert(line_occ(nl, h) == 1) by {
        assert(nl.data->Some_0.hosts == seq![h]);
        assert(seq![h][0] == h);
        assert(seq![h].drop_first() =~= Seq::<Seq<char>>::empty());
        assert(count_occ(Seq::<Seq<char>>::empty(), h) == 0);
        assert(count_occ(seq![h], h) == 1);
    }
    assert(t1 =~= r.take(j) + (seq![nl] + r.skip(j)));
    assert(r =~= r.take(j) + r.skip(j));
    lemma_table_occ_concat(r.take(j), r.skip(j), h);
    lemma_table_occ_concat(r.take(j), seq![nl] + r.skip(j), h);
    lemma_table_occ_concat(seq![nl], r.skip(j), h);
    assert(table_occ(seq![nl], h) == 1) by {
        assert(seq![nl][0] == nl);
        assert(seq![nl].drop_first() =~= Seq::<LineModel>::empty());
        assert(table_occ(Seq::<LineModel>::empty(), h) == 0);
    }
    assert(table_occ(t1, h) == 1);
    // the second call
    lemma_table_occ_zero(r, h);
    assert forall|m: int| 0 <= m < j implies !line_has_host(#[trigger] t1[m], h) by {
        assert(t1[m] == r[m]);
    }
    assert(t1[j] == nl);
    assert(line_has_host(nl, h)) by {
        assert(nl.data->Some_0.hosts[0] == h);
        assert(nl.data->Some_0.hosts.contains(h));
    }
    lemma_first_host_line_is(t1, h, j);
    let hs1 = t1[j].data->Some_0.hosts;
    assert(hs1 == seq![h]);
    assert(remove_first_host(hs1, h) =~~= Seq::<Seq<char>>::empty()) by {
        assert(hs1[0] == h);
        assert(hs1.drop_first() =~~= Seq::<Seq<char>>::empty());
    }
    let d2 = dedup_host(t1, h);
    assert(d2 == t1.remove(j));
    assert(t1.remove(j) =~~= r);
    assert(d2 == r);
    assert(with_region(r) == r) by {
        lemma_sentinel_idx_props(r);
    }
    assert(add_data_spec(t1, ip, h) == r.insert(insert_idx(r, sentinel_idx(r)), nl));
    assert(add_data_spec(t1, ip, h) == t1);
}

/// Dedup across an arbitrary prior location: when the alias occurs exactly
/// once, on line `k`, the upsert leaves the alias only on the one new line
/// in the managed region; line `k` keeps its other aliases, or disappears
/// when the alias was its only one.
pub proof fn lemma_dedup_any_location(ls: Seq<LineModel>, ip: HostAddr, h: Seq<char>, k: int)
    requires
        0 <= k < ls.len(),
        line_has_host(ls[k], h),
        forall|m: int| 0 <= m < ls.len() && m != k ==> !line_has_host(#[trigger] ls[m], h),
        count_occ(ls[k].data->Some_0.hosts, h) == 1,
    ensures
        ({
            let d = dedup_host(ls, h);
            let r = with_region(d);
            let s = sentinel_idx(r);
            let j = insert_idx(r, s);
            let out = add_data_spec(ls, ip, h);
            &&& out == r.insert(j, data_line(ip, h))
            &&& 0 <= s < j <= r.len()
            &&& out[j] == data_line(ip, h)
            &&& is_sentinel(out[s])
            &&& forall|m: int| s < m <= j ==> !line_is_empty(#[trigger] out[m])
            &&& forall|m: int|
                0 <= m < out.len() && m != j ==> !line_has_host(#[trigger] out[m], h)
            &&& (ls[k].data->Some_0.hosts.len() > 1 ==> d == ls.update(
                k,
                LineModel {
                    data: Some(
                        DataModel {
                            ip: ls[k].data->Some_0.ip,
                            hosts: remove_first_host(ls[k].data->Some_0.hosts, h),
                        },
                    ),
                    comment: ls[k].comment,
                },
            ))
            &&& (ls[k].data->Some_0.hosts.len() == 1 ==> d == ls.remove(k))
        }),
{
    let d = dedup_host(ls, h);
    let r = with_region(d);
    let s = sentinel_idx(r);
    let j = insert_idx(r, s);
    let nl = data_line(ip, h);
    let out = add_data_spec(ls, ip, h);
    lemma_first_host_line_is(ls, h, k);
    let hs = ls[k].data->Some_0.hosts;
    lemma_count_occ_zero(hs, h);
    lemma_remove_first_count(hs, h);
    let hs2 = remove_first_host(hs, h);
    lemma_count_occ_zero(hs2, h);
    if hs.len() == 1 {
        assert(hs2.len() == 0);
        assert(d == ls.remove(k));
    } else {
        assert(hs2.len() > 0);
    }
    // the alias count is one overall
    lemma_table_occ_split(ls, h, k);
    lemma_table_occ_zero(ls.take(k), h);
    lemma_table_occ_zero(ls.skip(k + 1), h);
    assert forall|m: int| 0 <= m < ls.take(k).len() implies !line_has_host(
        #[trigger] ls.take(k)[m],
        h,
    ) by {
        assert(ls.take(k)[m] == ls[m]);
    }
    assert forall|m: int| 0 <= m < ls.skip(k + 1).len() implies !line_has_host(
        #[trigger] ls.skip(k + 1)[m],
        h,
    ) by {
        assert(ls.skip(k + 1)[m] == ls[m + k + 1]);
    }
    assert(table_occ(ls, h) == 1);
    lemma_dedup_occ(ls, h);
    lemma_with_region_facts(d, h);
    lemma_sentinel_idx_props(r);
    lemma_insert_idx_props(r, s);
    assert(out == r.insert(j, nl));
    assert(!line_is_empty(r[s]));
    assert(s < j);
    assert(out[j] == nl);
    assert(out[s] == r[s]);
    assert forall|m: int| s < m <= j implies !line_is_empty(#[trigger] out[m]) by {
        if m < j {
            assert(out[m] == r[m]);
        }
    }
    lemma_table_occ_zero(r, h);
    assert forall|m: int| 0 <= m < out.len() && m != j implies !line_has_host(
        #[trigger] out[m],
        h,
    ) by {
        if m < j {
            assert(out[m] == r[m]);
        } else {
            assert(out[m] == r[m - 1]);
        }
    }
}

/// Managed region creation: on a table without the sentinel comment, the
/// upsert appends the sentinel line and the new data line, preceded by one
/// blank separator exactly when the table (after dedup) ends in a
/// non-blank line.
pub proof fn lemma_region_created(ls: Seq<LineModel>, ip: HostAddr, h: Seq<char>)
    requires
        forall|i: int| 0 <= i < ls.len() ==> !is_sentinel(#[trigger] ls[i]),
    ensures
        ({
            let d = dedup_host(ls, h);
            let out = add_data_spec(ls, ip, h);
            &&& (d.len() > 0 && !line_is_empty(d.last()) ==> out == d + seq![
                empty_line(),
                sentinel_line(),
                data_line(ip, h),
            ])
            &&& (!(d.len() > 0 && !line_is_empty(d.last())) ==> out == d + seq![
                sentinel_line(),
                data_line(ip, h),
            ])
        }),
{
    let d = dedup_host(ls, h);
    // dedup does not introduce a sentinel line
    assert forall|i: int| 0 <= i < d.len() implies !is_sentinel(#[trigger] d[i]) by {
        let fh = first_host_line(ls, h);
        lemma_first_host_line_props(ls, h);
        if fh == ls.len() {
            assert(d[i] == ls[i]);
        } else {
            let d0 = ls[fh].data->Some_0;
            let hs2 = remove_first_host(d0.hosts, h);
            if hs2.len() == 0 {
                assert(d == ls.remove(fh));
                if i < fh {
                    assert(d[i] == ls[i]);
                } else {
                    assert(d[i] == ls[i + 1]);
                }
            } else {
                assert(d == ls.update(
                    fh,
                    LineModel {
                        data: Some(DataModel { ip: d0.ip, hosts: hs2 }),
                        comment: ls[fh].comment,
                    },
                ));
                if i != fh {
                    assert(d[i] == ls[i]);
                } else {
                    assert(d[i].comment == ls[fh].comment);
                }
            }
        }
    }
    lemma_sentinel_idx_is(d, d.len() as int);
    let base = if d.len() > 0 && !line_is_empty(d.last()) {
        d + seq![empty_line()]
    } else {
        d
    };
    let r = with_region(d);
    assert(r == base + seq![sentinel_line()]);
    assert forall|i: int| 0 <= i < r.len() - 1 implies !is_sentinel(#[trigger] r[i]) by {
        if i < d.len() {
            assert(r[i] == d[i]);
        } else {
            assert(r[i] == empty_line());
        }
    }
    assert(r[r.len() - 1] == sentinel_line());
    assert(is_sentinel(r[r.len() - 1]));
    lemma_sentinel_idx_is(r, r.len() - 1);
    let s = sentinel_idx(r);
    assert(s == r.len() - 1);
    assert(!line_is_empty(r[s]));
    lemma_insert_idx_is(r, s, r.len() as int);
    let j = insert_idx(r, s);
    assert(j == r.len());
    let out = add_data_spec(ls, ip, h);
    assert(out == r.insert(j, data_line(ip, h)));
    assert(out =~= r + seq![data_line(ip, h)]);
    if d.len() > 0 && !line_is_empty(d.last()) {
        assert(out =~= d + seq![empty_line(), sentinel_line(), data_line(ip, h)]);
    } else {
        assert(out =~= d + seq![sentinel_line(), data_line(ip, h)]);
    }
}

/// The comment of a parsed line is drawn from the line's characters.
proof fn lemma_parse_line_comment_chars(s: Seq<char>, l: LineModel)
    requires
        parse_line_spec(s) == Ok::<LineModel, FormatError>(l),
        forall|j: int| 0 <= j < s.len() ==> #[trigger] s[j] != '\n',
    ensures
        match l.comment {
            Some(c) => forall|j: int| 0 <= j < c.len() ==> #[trigger] c[j] != '\n',
            None => true,
        },
{
    let h = crate::text::first_index_of(s, '#');
    lemma_first_index_of_props(s, '#');
    if h < s.len() {
        let rest = s.skip(h + 1);
        let c = trim_start(rest);
        lemma_first_nonspace_props(rest);
        assert(c == rest.skip(first_nonspace(rest)));
        assert forall|j: int| 0 <= j < c.len() implies #[trigger] c[j] != '\n' by {
            assert(c[j] == rest[first_nonspace(rest) + j]);
            assert(rest[first_nonspace(rest) + j] == s[h + 1 + first_nonspace(rest) + j]);
        }
    }
}

} // verus!
