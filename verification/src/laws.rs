//! Laws of the document model: what parsing guarantees, what rendering and
//! reading back preserve, what each edit does to lookups, and the
//! consistency between lines and tools that parsing establishes and every
//! edit keeps.
use std::collections::{BTreeMap, HashMap};

use vstd::prelude::*;

use crate::conversions::{lemma_map_of_pairs_holds, map_of_pairs};
use crate::model::{
    entry_pairs, entry_text, extend_model, index_of_tool, index_of_tool_line, is_tool_line_named, is_writable_entry, is_writable_line, join_words,
    lemma_index_of_tool, lemma_index_of_tool_is, lemma_index_of_tool_line, lemma_index_of_tool_none,
    lemma_index_of_tool_line_is,
    line_text, parse_line, without_tool_lines,
    parse_lines, parse_text, render_entries, render_lines, reread_line, tools_of, EntryModel,
    is_writable_comment, tool_comment, tool_line_text, canonical_line, canonical_text, merge_tools,
    apply_edits, is_writable_but_entry, EditModel,
    LineModel, ToolVersionsModel, pairs_view, primary_pairs, single_pairs_view, strings_view,
};
use crate::text::{
    ended_lines, hash_pos, is_name_char, is_plain_word, is_valid_tool_name, is_ws,
    lemma_hash_pos, lemma_hash_pos_none, lemma_lines_no_newline, lemma_split_terminated_append,
    lemma_split_words_append, lemma_trim_chars, lemma_trim_last, lemma_trim_strip_cr, lemma_trim_unchanged, lemma_words_chars, lines,
    split_terminated, split_words, strip_cr, trim, words,
};

verus! {

/// A character of a tool name is neither whitespace nor `#`.
proof fn lemma_name_char_plain(c: char)
    requires
        is_name_char(c),
    ensures
        !is_ws(c),
        c != '#',
        c != '\n',
{
}

/// A valid tool name is a plain word.
proof fn lemma_valid_name_plain(n: Seq<char>)
    requires
        is_valid_tool_name(n),
    ensures
        is_plain_word(n),
{
    assert forall|i: int| 0 <= i < n.len() implies !is_ws(#[trigger] n[i]) && n[i] != '#' by {
        lemma_name_char_plain(n[i]);
    }
}

/// Plain words joined by spaces: the text starts with the first word's
/// first character, ends with the last word's last character, holds no `#`
/// and no `\n`, and splits back into the same words.
proof fn lemma_join_plain(ws: Seq<Seq<char>>)
    requires
        ws.len() > 0,
        forall|k: int| 0 <= k < ws.len() ==> #[trigger] is_plain_word(ws[k]),
    ensures
        join_words(ws).len() > 0,
        join_words(ws)[0] == ws[0][0],
        join_words(ws).last() == ws.last().last(),
        forall|i: int|
            0 <= i < join_words(ws).len() ==> #[trigger] join_words(ws)[i] != '#' && join_words(
                ws,
            )[i] != '\n',
        words(join_words(ws)) == ws,
    decreases ws.len(),
{
    let w = ws.last();
    assert(is_plain_word(ws[ws.len() - 1]));
    if ws.len() == 1 {
        lemma_split_words_append(Seq::<char>::empty(), w);
        assert(Seq::<char>::empty() + w =~= w);
        assert(Seq::<Seq<char>>::empty().push(w) =~= ws);
        assert forall|i: int| 0 <= i < w.len() implies #[trigger] w[i] != '#' && w[i] != '\n' by {
            assert(!is_ws(w[i]));
        }
    } else {
        let p = ws.drop_last();
        assert forall|k: int| 0 <= k < p.len() implies #[trigger] is_plain_word(p[k]) by {
            assert(p[k] == ws[k]);
        }
        lemma_join_plain(p);
        let jp = join_words(p);
        let j = join_words(ws);
        assert(j == jp + seq![' '] + w);
        let sp = jp + seq![' '];
        assert(sp.drop_last() =~= jp);
        assert(split_words(sp) == (words(jp), Seq::<char>::empty()));
        assert forall|i: int| 0 <= i < w.len() implies !is_ws(#[trigger] w[i]) by {}
        lemma_split_words_append(sp, w);
        assert(Seq::<char>::empty() + w =~= w);
        assert(p.push(w) =~= ws);
        assert forall|i: int| 0 <= i < j.len() implies #[trigger] j[i] != '#' && j[i] != '\n' by {
            if i < jp.len() {
                assert(j[i] == jp[i]);
            } else if i == jp.len() {
                assert(j[i] == ' ');
            } else {
                assert(j[i] == w[i - jp.len() - 1]);
                assert(!is_ws(w[i - jp.len() - 1]));
            }
        }
        assert(j[0] == jp[0]);
        assert(p[0] == ws[0]);
    }
}

/// The text of an entry with versions is its name and versions joined by
/// spaces.
proof fn lemma_entry_text_join(e: EntryModel)
    requires
        e.versions.len() > 0,
    ensures
        entry_text(e) == join_words(seq![e.name] + e.versions),
    decreases e.versions.len(),
{
    let vs = e.versions;
    let all = seq![e.name] + vs;
    if vs.len() == 1 {
        assert(all.drop_last() =~= seq![e.name]);
        assert(join_words(all.drop_last()) == e.name);
        assert(join_words(vs) == vs[0]);
        assert(all.last() == vs[0]);
        assert(entry_text(e) =~= join_words(all));
    } else {
        let shorter = EntryModel { name: e.name, versions: vs.drop_last() };
        lemma_entry_text_join(shorter);
        assert(all.drop_last() =~= seq![e.name] + vs.drop_last());
        assert(all.last() == vs.last());
        assert(join_words(all) == join_words(all.drop_last()) + seq![' '] + all.last());
        assert(join_words(vs) == join_words(vs.drop_last()) + seq![' '] + vs.last());
        assert(entry_text(e) =~= entry_text(shorter) + seq![' '] + vs.last());
    }
}

/// A writable entry's text reads back as that entry; its text starts and
/// ends with non-whitespace, holds no `#` and splits into the name and the
/// versions.
proof fn lemma_entry_reads_back(e: EntryModel, num: nat)
    requires
        is_writable_entry(e),
    ensures
        entry_text(e).len() > 0,
        !is_ws(entry_text(e)[0]),
        !is_ws(entry_text(e).last()),
        forall|i: int| 0 <= i < entry_text(e).len() ==> #[trigger] entry_text(e)[i] != '#',
        words(entry_text(e)) == seq![e.name] + e.versions,
        strip_cr(entry_text(e)) == entry_text(e),
        forall|i: int| 0 <= i < entry_text(e).len() ==> #[trigger] entry_text(e)[i] != '\n',
        parse_line(entry_text(e), num) == Ok::<LineModel, crate::model::ParseFailure>(
            LineModel::Tool(e, seq![]),
        ),
{
    let all = seq![e.name] + e.versions;
    lemma_valid_name_plain(e.name);
    assert forall|k: int| 0 <= k < all.len() implies #[trigger] is_plain_word(all[k]) by {
        if k > 0 {
            assert(all[k] == e.versions[k - 1]);
        }
    }
    lemma_join_plain(all);
    lemma_entry_text_join(e);
    let t = entry_text(e);
    assert(is_plain_word(all[0]));
    assert(is_plain_word(all[all.len() - 1]));
    assert(!is_ws(t[0]));
    assert(!is_ws(t.last()));
    lemma_trim_unchanged(t);
    lemma_hash_pos_none(t);
    assert(t.take(hash_pos(t)) =~= t);
    assert(t.skip(hash_pos(t)) =~= Seq::<char>::empty());
    assert(all[0] == e.name);
    assert(all.drop_first() =~= e.versions);
}

/// A writable entry with a writable, non-empty comment: the text of its
/// tool line reads back as that line.
proof fn lemma_tool_line_reads_back(e: EntryModel, c: Seq<char>, num: nat)
    requires
        is_writable_entry(e),
        is_writable_comment(c),
        c.len() > 0,
    ensures
        strip_cr(tool_line_text(e, c)) == tool_line_text(e, c),
        forall|i: int| 0 <= i < tool_line_text(e, c).len() ==> #[trigger] tool_line_text(e, c)[i] != '\n',
        parse_line(tool_line_text(e, c), num) == Ok::<LineModel, crate::model::ParseFailure>(
            LineModel::Tool(e, c),
        ),
{
    lemma_entry_reads_back(e, num);
    let a = entry_text(e);
    let x = a.push(' ');
    let text = tool_line_text(e, c);
    assert(text =~= x + c);
    assert(text[0] == a[0]);
    assert(text.last() == c.last());
    lemma_trim_unchanged(text);
    let h = a.len() as int + 1;
    lemma_hash_pos(text);
    assert(text[h] == c[0]);
    if hash_pos(text) < h {
        let k = hash_pos(text);
        if k < a.len() {
            assert(text[k] == a[k]);
        } else {
            assert(text[k] == ' ');
        }
    }
    assert(hash_pos(text) == h);
    assert(text.take(h) =~= x);
    assert(text.skip(h) =~= c);
    assert(x.drop_last() =~= a);
    assert(is_ws(x.last()));
    assert(words(x) == words(a));
    let all = seq![e.name] + e.versions;
    assert(all[0] == e.name);
    assert(all.drop_first() =~= e.versions);
    assert forall|i: int| 0 <= i < text.len() implies #[trigger] text[i] != '\n' by {
        if i < a.len() {
            assert(text[i] == a[i]);
        } else if i == a.len() {
            assert(text[i] == ' ');
        } else {
            assert(text[i] == c[i - h]);
        }
    }
}

/// A writable line's text, as read back after a `\n`, parses to the line
/// as `reread_line` gives it.
proof fn lemma_line_reads_back(l: LineModel, num: nat)
    requires
        is_writable_line(l),
    ensures
        forall|i: int| 0 <= i < line_text(l).len() ==> #[trigger] line_text(l)[i] != '\n',
        parse_line(strip_cr(line_text(l)), num) == Ok::<LineModel, crate::model::ParseFailure>(
            reread_line(l),
        ),
{
    match l {
        LineModel::Tool(e, c) => {
            assert(line_text(l) == tool_line_text(e, c));
            assert(reread_line(l) == l);
            if c.len() == 0 {
                lemma_entry_reads_back(e, num);
                assert(tool_line_text(e, c) == entry_text(e));
                assert(c =~= Seq::<char>::empty());
            } else {
                lemma_tool_line_reads_back(e, c, num);
            }
        },
        LineModel::Comment(c) => {
            lemma_trim_strip_cr(c);
        },
        LineModel::Empty => {
            assert(strip_cr(Seq::<char>::empty()) =~= Seq::<char>::empty());
            assert(trim(Seq::<char>::empty()) =~= Seq::<char>::empty());
        },
    }
}

/// Rendered lines split back into their texts.
proof fn lemma_split_render_lines(ls: Seq<LineModel>)
    requires
        forall|k: int, i: int|
            0 <= k < ls.len() && 0 <= i < line_text(ls[k]).len() ==> line_text(ls[k])[i] != '\n',
    ensures
        split_terminated(render_lines(ls)) == (
            ls.map_values(|l: LineModel| line_text(l)),
            Seq::<char>::empty(),
        ),
    decreases ls.len(),
{
    if ls.len() > 0 {
        let p = ls.drop_last();
        assert forall|k: int, i: int|
            0 <= k < p.len() && 0 <= i < line_text(p[k]).len() implies line_text(p[k])[i]
            != '\n' by {
            assert(p[k] == ls[k]);
        }
        lemma_split_render_lines(p);
        let r = render_lines(p);
        let t = line_text(ls.last());
        assert forall|i: int| 0 <= i < t.len() implies t[i] != '\n' by {
            assert(ls.last() == ls[ls.len() - 1]);
        }
        lemma_split_terminated_append(r, t);
        assert((r + t).push('\n').drop_last() =~= r + t);
        assert(render_lines(ls) == (r + t).push('\n'));
        assert(Seq::<char>::empty() + t =~= t);
        assert(p.map_values(|l: LineModel| line_text(l)).push(t) =~= ls.map_values(
            |l: LineModel| line_text(l),
        ));
    }
}

/// Writable lines, rendered and read back, parse to their reread forms.
proof fn lemma_parse_rendered_lines(ls: Seq<LineModel>)
    requires
        forall|k: int| 0 <= k < ls.len() ==> #[trigger] is_writable_line(ls[k]),
    ensures
        parse_lines(ls.map_values(|l: LineModel| strip_cr(line_text(l)))) == Ok::<
            Seq<LineModel>,
            crate::model::ParseFailure,
        >(ls.map_values(|l: LineModel| reread_line(l))),
    decreases ls.len(),
{
    if ls.len() > 0 {
        let p = ls.drop_last();
        assert forall|k: int| 0 <= k < p.len() implies #[trigger] is_writable_line(p[k]) by {
            assert(p[k] == ls[k]);
        }
        lemma_parse_rendered_lines(p);
        let texts = ls.map_values(|l: LineModel| strip_cr(line_text(l)));
        assert(texts.drop_last() =~= p.map_values(|l: LineModel| strip_cr(line_text(l))));
        assert(texts.last() == strip_cr(line_text(ls.last())));
        assert(is_writable_line(ls[ls.len() - 1]));
        lemma_line_reads_back(ls.last(), ls.len() as nat);
        assert(parse_lines(texts.drop_last()) == Ok::<Seq<LineModel>, crate::model::ParseFailure>(
            p.map_values(|l: LineModel| reread_line(l)),
        ));
        assert(parse_line(texts.last(), texts.len() as nat) == Ok::<
            LineModel,
            crate::model::ParseFailure,
        >(reread_line(ls.last())));
        assert(p.map_values(|l: LineModel| reread_line(l)).push(reread_line(ls.last()))
            =~= ls.map_values(|l: LineModel| reread_line(l)));
    } else {
        assert(ls.map_values(|l: LineModel| reread_line(l)) =~= Seq::<LineModel>::empty());
        assert(ls.map_values(|l: LineModel| strip_cr(line_text(l))) =~= Seq::<
            Seq<char>,
        >::empty());
    }
}

/// Rereading comments does not change the tools of the lines.
proof fn lemma_tools_of_reread(ls: Seq<LineModel>)
    ensures
        tools_of(ls.map_values(|l: LineModel| reread_line(l))) == tools_of(ls),
    decreases ls.len(),
{
    if ls.len() > 0 {
        let p = ls.drop_last();
        lemma_tools_of_reread(p);
        assert(ls.map_values(|l: LineModel| reread_line(l)).drop_last() =~= p.map_values(
            |l: LineModel| reread_line(l),
        ));
    }
}

/// The tools of one tool line per entry are the entries, when their names
/// are distinct.
proof fn lemma_tools_of_entries(ts: Seq<EntryModel>)
    requires
        forall|i: int, j: int| 0 <= i < j < ts.len() ==> ts[i].name != ts[j].name,
    ensures
        tools_of(ts.map_values(|e: EntryModel| LineModel::Tool(e, seq![]))) == ts,
    decreases ts.len(),
{
    if ts.len() > 0 {
        let p = ts.drop_last();
        lemma_tools_of_entries(p);
        let ls = ts.map_values(|e: EntryModel| LineModel::Tool(e, seq![]));
        assert(ls.drop_last() =~= p.map_values(|e: EntryModel| LineModel::Tool(e, seq![])));
        assert forall|j: int| 0 <= j < p.len() implies p[j].name != ts.last().name by {
            assert(p[j] == ts[j]);
        }
        lemma_index_of_tool_none(p, ts.last().name);
        assert(p.push(ts.last()) =~= ts);
    }
}

/// Rendering entries is rendering one tool line per entry.
proof fn lemma_render_entries_as_lines(ts: Seq<EntryModel>)
    ensures
        render_entries(ts) == render_lines(ts.map_values(|e: EntryModel| LineModel::Tool(e, seq![]))),
    decreases ts.len(),
{
    if ts.len() > 0 {
        let p = ts.drop_last();
        lemma_render_entries_as_lines(p);
        assert(ts.map_values(|e: EntryModel| LineModel::Tool(e, seq![])).drop_last() =~= p.map_values(
            |e: EntryModel| LineModel::Tool(e, seq![]),
        ));
    }
}

/// Writable lines render to a text whose lines parse back.
proof fn lemma_render_lines_parse(ls: Seq<LineModel>)
    requires
        forall|k: int| 0 <= k < ls.len() ==> #[trigger] is_writable_line(ls[k]),
    ensures
        parse_lines(lines(render_lines(ls))) == Ok::<
            Seq<LineModel>,
            crate::model::ParseFailure,
        >(ls.map_values(|l: LineModel| reread_line(l))),
{
    assert forall|k: int, i: int|
        0 <= k < ls.len() && 0 <= i < line_text(ls[k]).len() implies line_text(ls[k])[i]
        != '\n' by {
        lemma_line_reads_back(ls[k], 0);
    }
    lemma_split_render_lines(ls);
    assert(lines(render_lines(ls)) =~= ls.map_values(|l: LineModel| strip_cr(line_text(l))));
    lemma_parse_rendered_lines(ls);
}

/// Round trip: the text of a writable document parses back to the same
/// tools, with the same lines (comments lose a final `\r`, and a document
/// without lines gains one tool line per entry).
pub proof fn law_render_parse(m: ToolVersionsModel)
    requires
        m.is_writable(),
    ensures
        parse_text(m.render()) == Ok::<ToolVersionsModel, crate::model::ParseFailure>(m.reread()),
{
    if m.lines.len() == 0 {
        let ls = m.tools.map_values(|e: EntryModel| LineModel::Tool(e, seq![]));
        assert forall|k: int| 0 <= k < ls.len() implies #[trigger] is_writable_line(ls[k]) by {
            assert(is_writable_entry(m.tools[k]));
        }
        lemma_render_entries_as_lines(m.tools);
        lemma_render_lines_parse(ls);
        assert(ls.map_values(|l: LineModel| reread_line(l)) =~= ls);
        lemma_tools_of_entries(m.tools);
    } else {
        lemma_render_lines_parse(m.lines);
        lemma_tools_of_reread(m.lines);
    }
}

/// Write, read, write: the text of a writable document, read back, gives
/// the same tools and writes out as the same text, when no comment line
/// ends with `\r`.
pub proof fn law_render_parse_render(m: ToolVersionsModel)
    requires
        m.is_writable(),
        forall|k: int|
            0 <= k < m.lines.len() && #[trigger] m.lines[k] is Comment ==> m.lines[k]->Comment_0.last()
                != '\r',
    ensures
        parse_text(m.render()) is Ok,
        parse_text(m.render())->Ok_0.tools == m.tools,
        parse_text(m.render())->Ok_0.render() == m.render(),
{
    law_render_parse(m);
    let r = m.reread();
    if m.lines.len() == 0 {
        let ls = m.tools.map_values(|e: EntryModel| LineModel::Tool(e, seq![]));
        lemma_render_entries_as_lines(m.tools);
        if m.tools.len() == 0 {
            assert(ls =~= Seq::<LineModel>::empty());
        }
    } else {
        assert forall|k: int| 0 <= k < m.lines.len() implies #[trigger] reread_line(m.lines[k])
            == m.lines[k] by {
            if m.lines[k] is Comment {
                assert(m.lines[k]->Comment_0.last() != '\r');
            }
        }
        assert(r.lines =~= m.lines);
    }
}

/// A line that reads as a line model is written back as its canonical
/// text.
proof fn lemma_line_text_canonical(l: Seq<char>, num: nat)
    requires
        parse_line(l, num) is Ok,
    ensures
        line_text(parse_line(l, num)->Ok_0) == canonical_line(l),
{
    let t = trim(l);
    if t.len() > 0 && t[0] != '#' {
        let h = hash_pos(t);
        let ws = words(t.take(h));
        let e = EntryModel { name: ws[0], versions: ws.drop_first() };
        lemma_entry_text_join(e);
        assert(seq![ws[0]] + ws.drop_first() =~= ws);
    }
}

/// Lines that read as line models are written back as their canonical
/// texts.
proof fn lemma_render_parsed_lines(ls: Seq<Seq<char>>)
    requires
        parse_lines(ls) is Ok,
    ensures
        render_lines(parse_lines(ls)->Ok_0) == canonical_text(ls),
    decreases ls.len(),
{
    if ls.len() > 0 {
        let p = ls.drop_last();
        lemma_render_parsed_lines(p);
        lemma_line_text_canonical(ls.last(), ls.len() as nat);
        let ms = parse_lines(p)->Ok_0;
        let m = parse_line(ls.last(), ls.len() as nat)->Ok_0;
        assert(ms.push(m).drop_last() =~= ms);
    }
}

/// Normalised output: a document read from text writes out every line of
/// the text in its canonical form, each ended by `\n`, and nothing else.
pub proof fn law_parse_render_canonical(content: Seq<char>)
    requires
        parse_text(content) is Ok,
    ensures
        parse_text(content)->Ok_0.render() == canonical_text(lines(content)),
{
    lemma_render_parsed_lines(lines(content));
}

/// Lines read one after another: the numbers of the lines do not change
/// whether they read, nor what they read as.
proof fn lemma_parse_lines_concat(a: Seq<Seq<char>>, b: Seq<Seq<char>>)
    ensures
        (parse_lines(a + b) is Ok) == (parse_lines(a) is Ok && parse_lines(b) is Ok),
        parse_lines(a + b) is Ok ==> parse_lines(a + b)->Ok_0 == parse_lines(a)->Ok_0 + parse_lines(
            b,
        )->Ok_0,
    decreases b.len(),
{
    if b.len() == 0 {
        assert(a + b =~= a);
        if parse_lines(a) is Ok {
            assert(parse_lines(a)->Ok_0 + Seq::<LineModel>::empty() =~= parse_lines(a)->Ok_0);
        }
    } else {
        let q = b.drop_last();
        let x = b.last();
        lemma_parse_lines_concat(a, q);
        assert((a + b).drop_last() =~= a + q);
        assert((a + b).last() == x);
        let n1 = (a + b).len() as nat;
        let n2 = b.len() as nat;
        assert((parse_line(x, n1) is Ok) == (parse_line(x, n2) is Ok));
        if parse_line(x, n1) is Ok {
            assert(parse_line(x, n1)->Ok_0 == parse_line(x, n2)->Ok_0);
        }
        if parse_lines(a + b) is Ok {
            let ma = parse_lines(a)->Ok_0;
            let mq = parse_lines(q)->Ok_0;
            let l = parse_line(x, n2)->Ok_0;
            assert((ma + mq).push(l) =~= ma + mq.push(l));
        }
    }
}

/// Rendering lines one after another.
proof fn lemma_render_lines_concat(a: Seq<LineModel>, b: Seq<LineModel>)
    ensures
        render_lines(a + b) == render_lines(a) + render_lines(b),
    decreases b.len(),
{
    if b.len() == 0 {
        assert(a + b =~= a);
        assert(render_lines(a) + Seq::<char>::empty() =~= render_lines(a));
    } else {
        let q = b.drop_last();
        lemma_render_lines_concat(a, q);
        assert((a + b).drop_last() =~= a + q);
        assert((a + b).last() == b.last());
        assert(render_lines(a) + render_lines(q) + line_text(b.last()) + seq!['\n'] =~= render_lines(
            a,
        ) + (render_lines(q) + line_text(b.last()) + seq!['\n']));
    }
}

/// A name is among merged tools exactly when it is among either part.
proof fn lemma_merge_tools_has(t1: Seq<EntryModel>, t2: Seq<EntryModel>, name: Seq<char>)
    ensures
        (index_of_tool(merge_tools(t1, t2), name) is Some) == (index_of_tool(t1, name) is Some
            || index_of_tool(t2, name) is Some),
    decreases t2.len(),
{
    if t2.len() > 0 {
        let q = t2.drop_last();
        let e = t2.last();
        lemma_merge_tools_has(t1, q, name);
        let r = merge_tools(t1, q);
        assert(r.push(e).drop_last() =~= r);
        assert(q.push(e) =~= t2);
    }
}

/// The tools of lines that follow other lines: the tools of the first
/// lines, then those of the second that the first do not set.
proof fn lemma_tools_of_concat(a: Seq<LineModel>, b: Seq<LineModel>)
    ensures
        tools_of(a + b) == merge_tools(tools_of(a), tools_of(b)),
    decreases b.len(),
{
    if b.len() == 0 {
        assert(a + b =~= a);
    } else {
        let q = b.drop_last();
        let x = b.last();
        lemma_tools_of_concat(a, q);
        assert((a + b).drop_last() =~= a + q);
        assert((a + b).last() == x);
        let t1 = tools_of(a);
        let tq = tools_of(q);
        let r = merge_tools(t1, tq);
        match x {
            LineModel::Tool(e, _) => {
                lemma_merge_tools_has(t1, tq, e.name);
                if index_of_tool(tq, e.name) is None {
                    assert(tq.push(e).drop_last() =~= tq);
                    assert(tools_of(b) == tq.push(e));
                }
            },
            _ => {},
        }
    }
}

/// Reading a text made of two texts, the first empty or ended by `\n`: it
/// reads exactly when both do, its lines are theirs one after the other,
/// its tools are those of the first followed by those of the second that
/// the first does not set, and it writes out as the two written out one
/// after the other.
pub proof fn law_parse_concat(first: Seq<char>, second: Seq<char>)
    requires
        first.len() == 0 || first.last() == '\n',
    ensures
        (parse_text(first + second) is Ok) == (parse_text(first) is Ok && parse_text(second) is Ok),
        parse_text(first + second) is Ok ==> {
            let m = parse_text(first + second)->Ok_0;
            let m1 = parse_text(first)->Ok_0;
            let m2 = parse_text(second)->Ok_0;
            &&& m.lines == m1.lines + m2.lines
            &&& m.tools == merge_tools(m1.tools, m2.tools)
            &&& m.render() == m1.render() + m2.render()
        },
{
    crate::text::lemma_lines_concat(first, second);
    lemma_parse_lines_concat(lines(first), lines(second));
    if parse_text(first + second) is Ok {
        let m = parse_text(first + second)->Ok_0;
        let m1 = parse_text(first)->Ok_0;
        let m2 = parse_text(second)->Ok_0;
        lemma_tools_of_concat(m1.lines, m2.lines);
        lemma_render_lines_concat(m1.lines, m2.lines);
        law_consistent_render(m);
        law_consistent_render(m1);
        law_consistent_render(m2);
    }
}

/// A parsed line of text without `\n` is writable.
proof fn lemma_parsed_line_writable(line: Seq<char>, num: nat)
    requires
        parse_line(line, num) is Ok,
        forall|i: int| 0 <= i < line.len() ==> line[i] != '\n',
    ensures
        is_writable_line(parse_line(line, num)->Ok_0),
{
    let t = trim(line);
    if t.len() > 0 && t[0] != '#' {
        let x = t.take(hash_pos(t));
        lemma_hash_pos(t);
        let no_hash = |c: char| c != '#';
        assert forall|i: int| 0 <= i < x.len() && !is_ws(x[i]) implies no_hash(x[i]) by {
            assert(x[i] == t[i]);
        }
        lemma_words_chars(x, no_hash);
        let ws = words(x);
        let vs = ws.drop_first();
        assert forall|k: int| 0 <= k < vs.len() implies #[trigger] is_plain_word(vs[k]) by {
            assert(vs[k] == ws[k + 1]);
            assert forall|i: int| 0 <= i < vs[k].len() implies !is_ws(#[trigger] vs[k][i])
                && vs[k][i] != '#' by {
                assert(no_hash(ws[k + 1][i]));
            }
        }
        let h = hash_pos(t);
        let c = t.skip(h);
        let no_newline = |ch: char| ch != '\n';
        lemma_trim_chars(line, no_newline);
        lemma_trim_last(line);
        if c.len() > 0 {
            assert(c[0] == t[h]);
            assert(c.last() == t.last());
            assert forall|i: int| 0 <= i < c.len() implies c[i] != '\n' by {
                assert(c[i] == t[i + h]);
                assert(no_newline(t[i + h]));
            }
        }
        assert(is_writable_comment(c));
    }
}

/// Parsed lines of text without `\n` are writable.
proof fn lemma_parsed_lines_writable(ls: Seq<Seq<char>>)
    requires
        parse_lines(ls) is Ok,
        forall|k: int, i: int| 0 <= k < ls.len() && 0 <= i < ls[k].len() ==> ls[k][i] != '\n',
    ensures
        forall|k: int|
            0 <= k < parse_lines(ls)->Ok_0.len() ==> #[trigger] is_writable_line(
                parse_lines(ls)->Ok_0[k],
            ),
    decreases ls.len(),
{
    if ls.len() > 0 {
        let p = ls.drop_last();
        assert forall|k: int, i: int| 0 <= k < p.len() && 0 <= i < p[k].len() implies p[k][i]
            != '\n' by {
            assert(p[k] == ls[k]);
        }
        lemma_parsed_lines_writable(p);
        let l = ls.last();
        assert forall|i: int| 0 <= i < l.len() implies l[i] != '\n' by {
            assert(l == ls[ls.len() - 1]);
        }
        lemma_parsed_line_writable(l, ls.len() as nat);
        let ms = parse_lines(p)->Ok_0;
        let all = parse_lines(ls)->Ok_0;
        assert forall|k: int| 0 <= k < all.len() implies #[trigger] is_writable_line(all[k]) by {
            if k < ms.len() {
                assert(all[k] == ms[k]);
            }
        }
    }
}

/// Every document read from text is writable.
pub proof fn law_parsed_is_writable(content: Seq<char>)
    requires
        parse_text(content) is Ok,
    ensures
        parse_text(content)->Ok_0.is_writable(),
{
    lemma_lines_no_newline(content);
    lemma_parsed_lines_writable(lines(content));
}

/// Replacing an entry by one of the same name does not move any name.
proof fn lemma_index_after_update(ts: Seq<EntryModel>, i: int, e: EntryModel, name: Seq<char>)
    requires
        0 <= i < ts.len(),
        ts[i].name == e.name,
    ensures
        index_of_tool(ts.update(i, e), name) == index_of_tool(ts, name),
{
    let u = ts.update(i, e);
    lemma_index_of_tool(ts, name);
    lemma_index_of_tool(u, name);
    assert forall|j: int| 0 <= j < ts.len() implies #[trigger] u[j].name == ts[j].name by {}
    match index_of_tool(ts, name) {
        Some(k) => {
            lemma_index_of_tool_is(u, name, k);
        },
        None => {
            lemma_index_of_tool_none(u, name);
        },
    }
}

/// Removing an entry of another name keeps whether a name is present.
proof fn lemma_index_after_remove(ts: Seq<EntryModel>, i: int, name: Seq<char>)
    requires
        0 <= i < ts.len(),
        ts[i].name != name,
    ensures
        (index_of_tool(ts.remove(i), name) is Some) == (index_of_tool(ts, name) is Some),
{
    let r = ts.remove(i);
    lemma_index_of_tool(ts, name);
    lemma_index_of_tool(r, name);
    match index_of_tool(ts, name) {
        Some(k) => {
            if k < i {
                assert(r[k] == ts[k]);
            } else {
                assert(r[k - 1] == ts[k]);
            }
        },
        None => {
            assert forall|j: int| 0 <= j < r.len() implies r[j].name != name by {
                if j < i {
                    assert(r[j] == ts[j]);
                } else {
                    assert(r[j] == ts[j + 1]);
                }
            }
        },
    }
}

/// A name is among the tools of some lines exactly when one of the lines is
/// a tool line for it.
proof fn lemma_tools_of_has(ls: Seq<LineModel>, name: Seq<char>)
    ensures
        (index_of_tool(tools_of(ls), name) is Some) == (index_of_tool_line(ls, name) is Some),
    decreases ls.len(),
{
    if ls.len() > 0 {
        let p = ls.drop_last();
        lemma_tools_of_has(p, name);
        let t = tools_of(p);
        match ls.last() {
            LineModel::Tool(e, _) => {
                if index_of_tool(t, e.name) is None {
                    lemma_index_of_tool(t, name);
                    lemma_index_of_tool(t.push(e), name);
                    if index_of_tool(t, name) is Some {
                        let k = index_of_tool(t, name)->Some_0;
                        assert(t.push(e)[k] == t[k]);
                    } else if e.name == name {
                        lemma_index_of_tool_is(t.push(e), name, t.len() as int);
                    } else {
                        assert forall|j: int| 0 <= j < t.push(e).len() implies t.push(e)[j].name
                            != name by {
                            if j < t.len() {
                                assert(t.push(e)[j] == t[j]);
                            }
                        }
                        lemma_index_of_tool_none(t.push(e), name);
                    }
                } else {
                    if e.name == name {
                        assert(index_of_tool(t, name) is Some);
                    }
                }
            },
            _ => {},
        }
    }
}

/// The tools of some lines are named once each.
proof fn lemma_tools_of_distinct(ls: Seq<LineModel>)
    ensures
        forall|i: int, j: int|
            0 <= i < j < tools_of(ls).len() ==> tools_of(ls)[i].name != tools_of(ls)[j].name,
    decreases ls.len(),
{
    if ls.len() > 0 {
        let p = ls.drop_last();
        lemma_tools_of_distinct(p);
        let t = tools_of(p);
        match ls.last() {
            LineModel::Tool(e, _) => {
                if index_of_tool(t, e.name) is None {
                    lemma_index_of_tool(t, e.name);
                    let u = t.push(e);
                    assert forall|i: int, j: int| 0 <= i < j < u.len() implies u[i].name
                        != u[j].name by {
                        assert(u[i] == t[i]);
                        if j < t.len() {
                            assert(u[j] == t[j]);
                        }
                    }
                }
            },
            _ => {},
        }
    }
}

/// Without tool lines for a name, dropping them changes nothing.
proof fn lemma_without_absent(ls: Seq<LineModel>, name: Seq<char>)
    requires
        index_of_tool_line(ls, name) is None,
    ensures
        without_tool_lines(ls, name) == ls,
    decreases ls.len(),
{
    if ls.len() > 0 {
        let p = ls.drop_last();
        lemma_index_of_tool_line(ls, name);
        lemma_index_of_tool_line(p, name);
        assert forall|j: int| 0 <= j < p.len() implies !is_tool_line_named(p[j], name) by {
            assert(p[j] == ls[j]);
        }
        lemma_index_of_tool_line(p, name);
        if index_of_tool_line(p, name) is Some {
            let k = index_of_tool_line(p, name)->Some_0;
            assert(!is_tool_line_named(p[k], name));
        }
        lemma_without_absent(p, name);
        assert(!is_tool_line_named(ls[ls.len() - 1], name));
        assert(p.push(ls.last()) =~= ls);
    }
}

/// Every line kept by `without_tool_lines` is one of the lines.
proof fn lemma_without_subset(ls: Seq<LineModel>, name: Seq<char>)
    ensures
        forall|k: int|
            0 <= k < without_tool_lines(ls, name).len() ==> exists|j: int|
                0 <= j < ls.len() && ls[j] == #[trigger] without_tool_lines(ls, name)[k],
    decreases ls.len(),
{
    if ls.len() > 0 {
        let p = ls.drop_last();
        lemma_without_subset(p, name);
        let w = without_tool_lines(p, name);
        let all = without_tool_lines(ls, name);
        assert forall|k: int| 0 <= k < all.len() implies exists|j: int|
            0 <= j < ls.len() && ls[j] == #[trigger] all[k] by {
            if k < w.len() {
                assert(all[k] == w[k]);
                let j = choose|j: int| 0 <= j < p.len() && p[j] == w[k];
                assert(ls[j] == p[j]);
            } else {
                assert(ls[ls.len() - 1] == all[k]);
            }
        }
    }
}

/// The tools of the lines left by removing a name's tool lines are the
/// tools of all the lines less that name's entry.
proof fn lemma_tools_of_without(ls: Seq<LineModel>, name: Seq<char>)
    requires
        index_of_tool(tools_of(ls), name) is Some,
    ensures
        tools_of(without_tool_lines(ls, name)) == tools_of(ls).remove(
            index_of_tool(tools_of(ls), name)->Some_0,
        ),
    decreases ls.len(),
{
    let p = ls.drop_last();
    let t = tools_of(p);
    let l = ls.last();
    let w = without_tool_lines(p, name);
    assert(w.push(l).drop_last() =~= w);
    lemma_index_of_tool(tools_of(ls), name);
    if index_of_tool(t, name) is Some {
        lemma_tools_of_without(p, name);
        let i = index_of_tool(t, name)->Some_0;
        lemma_index_of_tool(t, name);
        assert(index_of_tool(tools_of(ls), name) == Some(i)) by {
            assert(tools_of(ls)[i] == t[i]);
            assert forall|j: int| 0 <= j < i implies tools_of(ls)[j].name != name by {
                assert(tools_of(ls)[j] == t[j]);
            }
            lemma_index_of_tool_is(tools_of(ls), name, i);
        }
        match l {
            LineModel::Tool(e, _) => {
                if e.name == name {
                    assert(tools_of(ls) == t);
                } else {
                    lemma_index_after_remove(t, i, e.name);
                    if index_of_tool(t, e.name) is None {
                        let u = t.push(e);
                        assert(u[i] == t[i]);
                        lemma_index_of_tool_is(u, name, i);
                        assert(t.remove(i).push(e) =~= u.remove(i));
                    }
                }
            },
            _ => {},
        }
    } else {
        lemma_tools_of_has(p, name);
        lemma_without_absent(p, name);
        match l {
            LineModel::Tool(e, _) => {
                if e.name == name {
                    let u = t.push(e);
                    lemma_index_of_tool(t, name);
                    lemma_index_of_tool_is(u, name, t.len() as int);
                    assert(u.remove(t.len() as int) =~= t);
                } else {
                    lemma_index_of_tool(t, name);
                    if index_of_tool(t, e.name) is None {
                        assert forall|j: int| 0 <= j < t.push(e).len() implies t.push(e)[j].name
                            != name by {
                            if j < t.len() {
                                assert(t.push(e)[j] == t[j]);
                            }
                        }
                        lemma_index_of_tool_none(t.push(e), name);
                    }
                }
            },
            _ => {},
        }
    }
}

/// Replacing the first tool line for a name replaces that name's entry.
proof fn lemma_tools_of_update(ls: Seq<LineModel>, name: Seq<char>, e: EntryModel, c: Seq<char>)
    requires
        e.name == name,
        index_of_tool_line(ls, name) is Some,
    ensures
        index_of_tool(tools_of(ls), name) is Some,
        tools_of(ls.update(index_of_tool_line(ls, name)->Some_0, LineModel::Tool(e, c))) == tools_of(
            ls,
        ).update(index_of_tool(tools_of(ls), name)->Some_0, e),
    decreases ls.len(),
{
    lemma_tools_of_has(ls, name);
    let p = ls.drop_last();
    let j = index_of_tool_line(ls, name)->Some_0;
    let u = ls.update(j, LineModel::Tool(e, c));
    let t = tools_of(p);
    lemma_index_of_tool_line(ls, name);
    if j == ls.len() - 1 {
        assert(u.drop_last() =~= p);
        assert forall|k: int| 0 <= k < p.len() implies !is_tool_line_named(p[k], name) by {
            assert(p[k] == ls[k]);
        }
        lemma_index_of_tool_line(p, name);
        if index_of_tool_line(p, name) is Some {
            let k = index_of_tool_line(p, name)->Some_0;
            assert(!is_tool_line_named(p[k], name));
        }
        lemma_tools_of_has(p, name);
        let old_e = ls.last()->Tool_0;
        lemma_index_of_tool(t, name);
        lemma_index_of_tool_is(t.push(old_e), name, t.len() as int);
        assert(t.push(e) =~= t.push(old_e).update(t.len() as int, e));
    } else {
        assert(index_of_tool_line(p, name) == Some(j)) by {
            assert(is_tool_line_named(p[j], name));
            lemma_index_of_tool_line(p, name);
            match index_of_tool_line(p, name) {
                Some(k) => {
                    if k < j {
                        assert(p[k] == ls[k]);
                    } else if k > j {
                        assert(p[j] == ls[j]);
                    }
                },
                None => {
                    assert(p[j] == ls[j]);
                },
            }
        }
        lemma_tools_of_update(p, name, e, c);
        assert(u.drop_last() =~= p.update(j, LineModel::Tool(e, c)));
        assert(u.last() == ls.last());
        let i = index_of_tool(t, name)->Some_0;
        lemma_index_of_tool(t, name);
        let tu = t.update(i, e);
        match ls.last() {
            LineModel::Tool(e2, _) => {
                lemma_index_after_update(t, i, e, e2.name);
                if index_of_tool(t, e2.name) is None {
                    assert(t.push(e2)[i] == t[i]);
                    lemma_index_of_tool(t.push(e2), name);
                    lemma_index_of_tool_is(t.push(e2), name, i);
                    assert(tu.push(e2) =~= t.push(e2).update(i, e));
                } else {
                    lemma_index_of_tool_is(t, name, i);
                }
            },
            _ => {
                lemma_index_of_tool_is(t, name, i);
            },
        }
    }
}

/// Setting a tool's versions and looking it up gives those versions.
pub proof fn law_set_then_entry(m: ToolVersionsModel, name: Seq<char>, versions: Seq<Seq<char>>)
    ensures
        m.set_versions(name, versions).entry(name) == Some(EntryModel { name, versions }),
{
    let e = EntryModel { name, versions };
    lemma_index_of_tool(m.tools, name);
    match index_of_tool(m.tools, name) {
        Some(i) => {
            lemma_index_of_tool_is(m.tools.update(i, e), name, i);
        },
        None => {
            lemma_index_of_tool_is(m.tools.push(e), name, m.tools.len() as int);
        },
    }
}

/// Setting a tool's versions leaves every other tool as it was.
pub proof fn law_set_keeps_others(
    m: ToolVersionsModel,
    name: Seq<char>,
    versions: Seq<Seq<char>>,
    other: Seq<char>,
)
    requires
        other != name,
    ensures
        m.set_versions(name, versions).entry(other) == m.entry(other),
{
    let e = EntryModel { name, versions };
    let n = m.set_versions(name, versions);
    lemma_index_of_tool(m.tools, name);
    lemma_index_of_tool(m.tools, other);
    lemma_index_of_tool(n.tools, other);
    match index_of_tool(m.tools, other) {
        Some(k) => {
            assert(n.tools[k] == m.tools[k]);
            lemma_index_of_tool_is(n.tools, other, k);
        },
        None => {
            lemma_index_of_tool_none(n.tools, other);
        },
    }
}

/// Setting a tool adds one entry when the tool was not set, and none when
/// it was.
pub proof fn law_set_len(m: ToolVersionsModel, name: Seq<char>, versions: Seq<Seq<char>>)
    ensures
        m.set_versions(name, versions).tools.len() == m.tools.len() + if m.entry(name) is Some {
            0int
        } else {
            1int
        },
{
    lemma_index_of_tool(m.tools, name);
}

/// Setting a tool keeps the tools named once each.
pub proof fn law_set_keeps_names_distinct(
    m: ToolVersionsModel,
    name: Seq<char>,
    versions: Seq<Seq<char>>,
)
    requires
        m.names_distinct(),
    ensures
        m.set_versions(name, versions).names_distinct(),
{
    lemma_index_of_tool(m.tools, name);
}

/// Removing a tool and looking it up gives nothing.
pub proof fn law_remove_then_entry(m: ToolVersionsModel, name: Seq<char>)
    requires
        m.names_distinct(),
    ensures
        m.remove(name).entry(name) is None,
{
    lemma_index_of_tool(m.tools, name);
    match index_of_tool(m.tools, name) {
        Some(i) => {
            let r = m.tools.remove(i);
            assert forall|j: int| 0 <= j < r.len() implies r[j].name != name by {
                if j < i {
                    assert(r[j] == m.tools[j]);
                } else {
                    assert(r[j] == m.tools[j + 1]);
                }
            }
            lemma_index_of_tool_none(r, name);
        },
        None => {},
    }
}

/// Removing a tool leaves every other tool as it was.
pub proof fn law_remove_keeps_others(m: ToolVersionsModel, name: Seq<char>, other: Seq<char>)
    requires
        other != name,
    ensures
        m.remove(name).entry(other) == m.entry(other),
{
    lemma_index_of_tool(m.tools, name);
    lemma_index_of_tool(m.tools, other);
    match index_of_tool(m.tools, name) {
        Some(i) => {
            let r = m.tools.remove(i);
            match index_of_tool(m.tools, other) {
                Some(k) => {
                    let k2 = if k < i {
                        k
                    } else {
                        k - 1
                    };
                    assert(r[k2] == m.tools[k]);
                    assert forall|j: int| 0 <= j < k2 implies r[j].name != other by {
                        if j < i {
                            assert(r[j] == m.tools[j]);
                        } else {
                            assert(r[j] == m.tools[j + 1]);
                        }
                    }
                    lemma_index_of_tool_is(r, other, k2);
                },
                None => {
                    assert forall|j: int| 0 <= j < r.len() implies r[j].name != other by {
                        if j < i {
                            assert(r[j] == m.tools[j]);
                        } else {
                            assert(r[j] == m.tools[j + 1]);
                        }
                    }
                    lemma_index_of_tool_none(r, other);
                },
            }
        },
        None => {},
    }
}

/// Removing a tool keeps the tools named once each.
pub proof fn law_remove_keeps_names_distinct(m: ToolVersionsModel, name: Seq<char>)
    requires
        m.names_distinct(),
    ensures
        m.remove(name).names_distinct(),
{
    match index_of_tool(m.tools, name) {
        Some(i) => {
            lemma_index_of_tool(m.tools, name);
            let r = m.tools.remove(i);
            assert forall|a: int, b: int| 0 <= a < b < r.len() implies r[a].name != r[b].name by {
                let a0 = if a < i {
                    a
                } else {
                    a + 1
                };
                let b0 = if b < i {
                    b
                } else {
                    b + 1
                };
                assert(r[a] == m.tools[a0]);
                assert(r[b] == m.tools[b0]);
            }
        },
        None => {},
    }
}

/// A document read from text names each tool once.
pub proof fn law_parsed_names_distinct(content: Seq<char>)
    requires
        parse_text(content) is Ok,
    ensures
        parse_text(content)->Ok_0.names_distinct(),
{
    let ms = parse_lines(lines(content))->Ok_0;
    lemma_tools_of_distinct(ms);
}

/// Setting a tool to a writable entry keeps a writable document writable,
/// unless the document has no lines but some tools and the tool is new:
/// its text is then the new tool line alone.
pub proof fn law_set_keeps_writable(
    m: ToolVersionsModel,
    name: Seq<char>,
    versions: Seq<Seq<char>>,
)
    requires
        m.is_writable(),
        is_writable_entry(EntryModel { name, versions }),
        m.lines.len() > 0 || m.tools.len() == 0 || m.entry(name) is Some,
    ensures
        m.set_versions(name, versions).is_writable(),
{
    let e = EntryModel { name, versions };
    let n = m.set_versions(name, versions);
    lemma_index_of_tool(m.tools, name);
    if m.lines.len() > 0 {
        match index_of_tool(m.tools, name) {
            Some(i) => {
                lemma_tools_of_has(m.lines, name);
                let j = index_of_tool_line(m.lines, name)->Some_0;
                let c = tool_comment(m.lines[j]);
                lemma_tools_of_update(m.lines, name, e, c);
                lemma_index_of_tool_line(m.lines, name);
                assert(n.lines == m.lines.update(j, LineModel::Tool(e, c)));
                assert(is_writable_line(m.lines[j]));
                assert(is_writable_comment(c));
                assert forall|k: int| 0 <= k < n.lines.len() implies #[trigger] is_writable_line(
                    n.lines[k],
                ) by {
                    if k != j {
                        assert(n.lines[k] == m.lines[k]);
                    }
                }
                assert(index_of_tool(tools_of(m.lines), name) == Some(i));
                assert(n.tools == tools_of(n.lines));
            },
            None => {
                let ls = m.lines.push(LineModel::Tool(e, seq![]));
                assert(ls.drop_last() =~= m.lines);
                assert forall|k: int| 0 <= k < n.lines.len() implies #[trigger] is_writable_line(
                    n.lines[k],
                ) by {
                    if k < m.lines.len() {
                        assert(n.lines[k] == m.lines[k]);
                    }
                }
                assert(n.tools == tools_of(n.lines));
            },
        }
    } else if m.tools.len() == 0 {
        assert(n.lines.drop_last() =~= m.lines);
        assert(is_writable_line(n.lines[0]));
        assert(m.tools.push(e) =~= seq![e]);
        assert(n.tools == tools_of(n.lines));
    } else {
        let i = index_of_tool(m.tools, name)->Some_0;
        assert(index_of_tool_line(m.lines, name) is None);
        assert forall|k: int| 0 <= k < n.tools.len() implies #[trigger] is_writable_entry(
            n.tools[k],
        ) by {
            if k != i {
                assert(n.tools[k] == m.tools[k]);
            }
        }
        law_set_keeps_names_distinct(m, name, versions);
        assert(n.lines.len() == 0);
    }
}

/// Removing a tool keeps a writable document writable.
pub proof fn law_remove_keeps_writable(m: ToolVersionsModel, name: Seq<char>)
    requires
        m.is_writable(),
    ensures
        m.remove(name).is_writable(),
{
    let n = m.remove(name);
    match index_of_tool(m.tools, name) {
        Some(i) => {
            lemma_index_of_tool(m.tools, name);
            if m.lines.len() > 0 {
                lemma_tools_of_without(m.lines, name);
                lemma_without_subset(m.lines, name);
                assert forall|k: int| 0 <= k < n.lines.len() implies #[trigger] is_writable_line(
                    n.lines[k],
                ) by {
                    let j = choose|j: int| 0 <= j < m.lines.len() && m.lines[j] == n.lines[k];
                    assert(is_writable_line(m.lines[j]));
                }
                if n.lines.len() == 0 {
                    assert(n.tools == tools_of(Seq::<LineModel>::empty()));
                }
            } else {
                law_remove_keeps_names_distinct(m, name);
                assert forall|k: int| 0 <= k < n.tools.len() implies #[trigger] is_writable_entry(
                    n.tools[k],
                ) by {
                    if k < i {
                        assert(n.tools[k] == m.tools[k]);
                    } else {
                        assert(n.tools[k] == m.tools[k + 1]);
                    }
                }
            }
        },
        None => {},
    }
}

/// The first tool line for a name holds the entry that the tools of the
/// lines give for that name.
proof fn lemma_tools_of_first(ls: Seq<LineModel>, name: Seq<char>)
    requires
        index_of_tool_line(ls, name) is Some,
    ensures
        index_of_tool(tools_of(ls), name) is Some,
        ls[index_of_tool_line(ls, name)->Some_0]->Tool_0 == tools_of(ls)[index_of_tool(
            tools_of(ls),
            name,
        )->Some_0],
    decreases ls.len(),
{
    let p = ls.drop_last();
    let t = tools_of(p);
    lemma_index_of_tool_line(ls, name);
    lemma_index_of_tool_line(p, name);
    lemma_index_of_tool(t, name);
    if index_of_tool_line(p, name) is Some {
        let k = index_of_tool_line(p, name)->Some_0;
        assert(p[k] == ls[k]);
        assert forall|j: int| 0 <= j < k implies !is_tool_line_named(ls[j], name) by {
            assert(p[j] == ls[j]);
        }
        lemma_index_of_tool_line_is(ls, name, k);
        lemma_tools_of_first(p, name);
        let i = index_of_tool(t, name)->Some_0;
        let all = tools_of(ls);
        assert(all == t || exists|e: EntryModel| all == t.push(e));
        assert forall|j: int| 0 <= j <= i implies #[trigger] all[j] == t[j] by {
            if all != t {
                let e = choose|e: EntryModel| all == t.push(e);
                assert(t.push(e)[j] == t[j]);
            }
        }
        lemma_index_of_tool_is(all, name, i);
    } else {
        let k = ls.len() - 1;
        if index_of_tool_line(ls, name)->Some_0 < k {
            let j = index_of_tool_line(ls, name)->Some_0;
            assert(p[j] == ls[j]);
        }
        lemma_tools_of_has(p, name);
        let e = ls.last()->Tool_0;
        lemma_index_of_tool_is(t.push(e), name, t.len() as int);
    }
}

/// The empty document is consistent, and writable but for entries.
pub proof fn law_empty_consistent()
    ensures
        ToolVersionsModel::empty().is_consistent(),
        ToolVersionsModel::empty().writable_but_entries(),
{
}

/// A document read from text is consistent.
pub proof fn law_parsed_consistent(content: Seq<char>)
    requires
        parse_text(content) is Ok,
    ensures
        parse_text(content)->Ok_0.is_consistent(),
{
}

/// A consistent document names each tool once.
pub proof fn law_consistent_names_distinct(m: ToolVersionsModel)
    requires
        m.is_consistent(),
    ensures
        m.names_distinct(),
{
    lemma_tools_of_distinct(m.lines);
}

/// In a consistent document a tool is set exactly when a tool line names
/// it, and its entry is that of its first tool line.
pub proof fn law_consistent_tool_lines(m: ToolVersionsModel, name: Seq<char>)
    requires
        m.is_consistent(),
    ensures
        (m.entry(name) is Some) == (index_of_tool_line(m.lines, name) is Some),
        index_of_tool_line(m.lines, name) is Some ==> m.entry(name) == Some(
            m.lines[index_of_tool_line(m.lines, name)->Some_0]->Tool_0,
        ),
{
    lemma_tools_of_has(m.lines, name);
    if index_of_tool_line(m.lines, name) is Some {
        lemma_tools_of_first(m.lines, name);
    }
}

/// A consistent document writes out its lines, and every tool's entry is
/// the entry of one of its tool lines.
pub proof fn law_consistent_render(m: ToolVersionsModel)
    requires
        m.is_consistent(),
    ensures
        m.render() == render_lines(m.lines),
        forall|i: int|
            0 <= i < m.tools.len() ==> exists|k: int|
                0 <= k < m.lines.len() && m.lines[k] is Tool && #[trigger] m.tools[i]
                    == m.lines[k]->Tool_0,
{
    assert forall|i: int| 0 <= i < m.tools.len() implies exists|k: int|
        0 <= k < m.lines.len() && m.lines[k] is Tool && #[trigger] m.tools[i]
            == m.lines[k]->Tool_0 by {
        let name = m.tools[i].name;
        lemma_tools_of_distinct(m.lines);
        lemma_index_of_tool_is(m.tools, name, i);
        law_consistent_tool_lines(m, name);
        let k = index_of_tool_line(m.lines, name)->Some_0;
        lemma_index_of_tool_line(m.lines, name);
        assert(m.lines[k] is Tool);
    }
}

/// Setting a tool keeps a consistent document consistent.
pub proof fn law_set_keeps_consistent(m: ToolVersionsModel, name: Seq<char>, versions: Seq<Seq<char>>)
    requires
        m.is_consistent(),
    ensures
        m.set_versions(name, versions).is_consistent(),
{
    let e = EntryModel { name, versions };
    let n = m.set_versions(name, versions);
    lemma_tools_of_has(m.lines, name);
    lemma_index_of_tool(m.tools, name);
    match index_of_tool(m.tools, name) {
        Some(i) => {
            let j = index_of_tool_line(m.lines, name)->Some_0;
            lemma_tools_of_update(m.lines, name, e, tool_comment(m.lines[j]));
        },
        None => {
            let ls = m.lines.push(LineModel::Tool(e, seq![]));
            assert(ls.drop_last() =~= m.lines);
        },
    }
}

/// Removing a tool keeps a consistent document consistent.
pub proof fn law_remove_keeps_consistent(m: ToolVersionsModel, name: Seq<char>)
    requires
        m.is_consistent(),
    ensures
        m.remove(name).is_consistent(),
{
    if index_of_tool(m.tools, name) is Some {
        lemma_tools_of_without(m.lines, name);
    }
}

/// Setting pairs in turn keeps a consistent document consistent.
pub proof fn law_extend_keeps_consistent(m: ToolVersionsModel, ps: Seq<(Seq<char>, Seq<Seq<char>>)>)
    requires
        m.is_consistent(),
    ensures
        extend_model(m, ps).is_consistent(),
    decreases ps.len(),
{
    if ps.len() > 0 {
        law_extend_keeps_consistent(m, ps.drop_last());
        law_set_keeps_consistent(extend_model(m, ps.drop_last()), ps.last().0, ps.last().1);
    }
}

/// Last write wins: in a document whose tool lines all name tools (every
/// consistent document, and every document without lines), setting a tool
/// twice is setting it once to the second versions.
pub proof fn law_set_twice(
    m: ToolVersionsModel,
    name: Seq<char>,
    first: Seq<Seq<char>>,
    second: Seq<Seq<char>>,
)
    requires
        m.tool_lines_named(),
    ensures
        m.set_versions(name, first).set_versions(name, second) == m.set_versions(name, second),
{
    let e1 = EntryModel { name, versions: first };
    let e2 = EntryModel { name, versions: second };
    let a = m.set_versions(name, first);
    assert(index_of_tool_line(m.lines, name) is Some ==> index_of_tool(m.tools, name) is Some);
    lemma_index_of_tool(m.tools, name);
    lemma_index_of_tool_line(m.lines, name);
    match index_of_tool(m.tools, name) {
        Some(i) if index_of_tool_line(m.lines, name) is None => {
            lemma_index_after_update(m.tools, i, e1, name);
            assert(a.tools.update(i, e2) =~= m.tools.update(i, e2));
        },
        Some(i) => {
            lemma_index_after_update(m.tools, i, e1, name);
            let j = index_of_tool_line(m.lines, name)->Some_0;
            let c = tool_comment(m.lines[j]);
            assert(a.lines == m.lines.update(j, LineModel::Tool(e1, c)));
            assert forall|k: int| 0 <= k < j implies !is_tool_line_named(a.lines[k], name) by {
                assert(a.lines[k] == m.lines[k]);
            }
            lemma_index_of_tool_line_is(a.lines, name, j);
            assert(a.tools.update(i, e2) =~= m.tools.update(i, e2));
            assert(a.lines.update(j, LineModel::Tool(e2, c)) =~= m.lines.update(
                j,
                LineModel::Tool(e2, c),
            ));
        },
        None => {
            assert forall|k: int| 0 <= k < m.tools.len() implies a.tools[k].name != name by {
                assert(a.tools[k] == m.tools[k]);
            }
            lemma_index_of_tool_is(a.tools, name, m.tools.len() as int);
            assert forall|k: int| 0 <= k < m.lines.len() implies !is_tool_line_named(
                a.lines[k],
                name,
            ) by {
                assert(a.lines[k] == m.lines[k]);
            }
            lemma_index_of_tool_line_is(a.lines, name, m.lines.len() as int);
            assert(a.tools.update(m.tools.len() as int, e2) =~= m.tools.push(e2));
            assert(a.lines.update(m.lines.len() as int, LineModel::Tool(e2, seq![])) =~= m.lines.push(
                LineModel::Tool(e2, seq![]),
            ));
        },
    }
}

/// Removing a tool that was just added gives the document back, in a
/// document whose tool lines all name tools (every consistent document, and
/// every document without lines).
pub proof fn law_remove_undoes_set(m: ToolVersionsModel, name: Seq<char>, versions: Seq<Seq<char>>)
    requires
        m.tool_lines_named(),
        m.entry(name) is None,
    ensures
        m.set_versions(name, versions).remove(name) == m,
{
    let e = EntryModel { name, versions };
    let a = m.set_versions(name, versions);
    assert(index_of_tool_line(m.lines, name) is Some ==> index_of_tool(m.tools, name) is Some);
    lemma_index_of_tool(m.tools, name);
    assert forall|k: int| 0 <= k < m.tools.len() implies a.tools[k].name != name by {
        assert(a.tools[k] == m.tools[k]);
    }
    lemma_index_of_tool_is(a.tools, name, m.tools.len() as int);
    assert(a.tools.remove(m.tools.len() as int) =~= m.tools);
    assert(a.lines.drop_last() =~= m.lines);
    lemma_without_absent(m.lines, name);
}

/// Whether some line is a tool line for a name.
proof fn lemma_tool_line_exists(ls: Seq<LineModel>, name: Seq<char>, k: int)
    requires
        0 <= k < ls.len(),
        is_tool_line_named(ls[k], name),
    ensures
        index_of_tool_line(ls, name) is Some,
{
    lemma_index_of_tool_line(ls, name);
}

/// No line left by `without_tool_lines` is a tool line for that name.
proof fn lemma_without_not_named(ls: Seq<LineModel>, name: Seq<char>)
    ensures
        forall|k: int|
            0 <= k < without_tool_lines(ls, name).len() ==> !is_tool_line_named(
                #[trigger] without_tool_lines(ls, name)[k],
                name,
            ),
    decreases ls.len(),
{
    if ls.len() > 0 {
        let p = ls.drop_last();
        lemma_without_not_named(p, name);
        let w = without_tool_lines(p, name);
        assert forall|k: int| 0 <= k < without_tool_lines(ls, name).len() implies !is_tool_line_named(
            #[trigger] without_tool_lines(ls, name)[k],
            name,
        ) by {
            if k < w.len() {
                assert(without_tool_lines(ls, name)[k] == w[k]);
            }
        }
    }
}

/// A consistent document's tool lines all name tools.
pub proof fn law_consistent_tool_lines_named(m: ToolVersionsModel)
    requires
        m.is_consistent(),
    ensures
        m.tool_lines_named(),
{
    assert forall|name: Seq<char>| #[trigger] index_of_tool_line(m.lines, name) is Some implies index_of_tool(
        m.tools,
        name,
    ) is Some by {
        lemma_tools_of_has(m.lines, name);
    }
}

/// A document without lines has no tool line that names no tool.
pub proof fn law_no_lines_tool_lines_named(m: ToolVersionsModel)
    requires
        m.lines.len() == 0,
    ensures
        m.tool_lines_named(),
{
}

/// Setting a tool keeps every tool line naming a tool.
pub proof fn law_set_keeps_tool_lines_named(
    m: ToolVersionsModel,
    name: Seq<char>,
    versions: Seq<Seq<char>>,
)
    requires
        m.tool_lines_named(),
    ensures
        m.set_versions(name, versions).tool_lines_named(),
{
    let n = m.set_versions(name, versions);
    assert forall|x: Seq<char>| #[trigger] index_of_tool_line(n.lines, x) is Some implies index_of_tool(
        n.tools,
        x,
    ) is Some by {
        if x == name {
            law_set_then_entry(m, name, versions);
        } else {
            lemma_index_of_tool_line(n.lines, x);
            let k = index_of_tool_line(n.lines, x)->Some_0;
            assert(k < m.lines.len() && n.lines[k] == m.lines[k]) by {
                lemma_index_of_tool_line(m.lines, name);
            }
            lemma_tool_line_exists(m.lines, x, k);
            assert(index_of_tool_line(m.lines, x) is Some);
            law_set_keeps_others(m, name, versions, x);
        }
    }
}

/// Removing a tool keeps every tool line naming a tool.
pub proof fn law_remove_keeps_tool_lines_named(m: ToolVersionsModel, name: Seq<char>)
    requires
        m.tool_lines_named(),
    ensures
        m.remove(name).tool_lines_named(),
{
    let n = m.remove(name);
    if index_of_tool(m.tools, name) is Some {
        assert forall|x: Seq<char>| #[trigger] index_of_tool_line(n.lines, x) is Some implies index_of_tool(
            n.tools,
            x,
        ) is Some by {
            lemma_index_of_tool_line(n.lines, x);
            let k = index_of_tool_line(n.lines, x)->Some_0;
            lemma_without_not_named(m.lines, name);
            lemma_without_subset(m.lines, name);
            let j = choose|j: int| 0 <= j < m.lines.len() && m.lines[j] == without_tool_lines(m.lines, name)[k];
            lemma_tool_line_exists(m.lines, x, j);
            assert(index_of_tool_line(m.lines, x) is Some);
            assert(x != name);
            law_remove_keeps_others(m, name, x);
        }
    }
}

/// Dropping a name's tool lines keeps every remaining line writable but
/// for its entry.
proof fn lemma_without_writable_but_entries(ls: Seq<LineModel>, name: Seq<char>)
    requires
        forall|k: int| 0 <= k < ls.len() ==> #[trigger] is_writable_but_entry(ls, k),
    ensures
        forall|k: int|
            0 <= k < without_tool_lines(ls, name).len() ==> #[trigger] is_writable_but_entry(
                without_tool_lines(ls, name),
                k,
            ),
    decreases ls.len(),
{
    if ls.len() > 0 {
        let p = ls.drop_last();
        let l = ls.last();
        assert forall|k: int| 0 <= k < p.len() implies #[trigger] is_writable_but_entry(p, k) by {
            assert(p[k] == ls[k]);
            assert(is_writable_but_entry(ls, k));
            if !is_writable_line(ls[k]) {
                assert forall|j: int| 0 <= j < k implies !is_tool_line_named(p[j], p[k]->Tool_0.name) by {
                    assert(p[j] == ls[j]);
                }
            }
        }
        lemma_without_writable_but_entries(p, name);
        let w = without_tool_lines(p, name);
        if !is_tool_line_named(l, name) {
            let u = w.push(l);
            assert(without_tool_lines(ls, name) == u);
            assert forall|k: int| 0 <= k < u.len() implies #[trigger] is_writable_but_entry(u, k) by {
                if k < w.len() {
                    assert(u[k] == w[k]);
                    assert(is_writable_but_entry(w, k));
                    if !is_writable_line(w[k]) {
                        assert forall|j: int| 0 <= j < k implies !is_tool_line_named(
                            u[j],
                            u[k]->Tool_0.name,
                        ) by {
                            assert(u[j] == w[j]);
                        }
                    }
                } else {
                    assert(u[k] == l);
                    assert(is_writable_but_entry(ls, ls.len() - 1));
                    if !is_writable_line(l) {
                        lemma_without_subset(p, name);
                        assert forall|j: int| 0 <= j < k implies !is_tool_line_named(
                            u[j],
                            l->Tool_0.name,
                        ) by {
                            assert(u[j] == w[j]);
                            let i = choose|i: int| 0 <= i < p.len() && p[i] == w[j];
                            assert(p[i] == ls[i]);
                        }
                    }
                }
            }
        }
    }
}

/// A document read from text is writable but for entries.
pub proof fn law_parsed_writable_but_entries(content: Seq<char>)
    requires
        parse_text(content) is Ok,
    ensures
        parse_text(content)->Ok_0.writable_but_entries(),
{
    law_parsed_is_writable(content);
    let m = parse_text(content)->Ok_0;
    assert forall|k: int| 0 <= k < m.lines.len() implies #[trigger] is_writable_but_entry(m.lines, k) by {}
}

/// Setting a tool keeps a consistent document writable but for entries.
pub proof fn law_set_keeps_writable_but_entries(
    m: ToolVersionsModel,
    name: Seq<char>,
    versions: Seq<Seq<char>>,
)
    requires
        m.is_consistent(),
        m.writable_but_entries(),
    ensures
        m.set_versions(name, versions).writable_but_entries(),
{
    let e = EntryModel { name, versions };
    let n = m.set_versions(name, versions);
    lemma_tools_of_has(m.lines, name);
    lemma_index_of_tool(m.tools, name);
    lemma_index_of_tool_line(m.lines, name);
    match index_of_tool(m.tools, name) {
        Some(i) => {
            let j = index_of_tool_line(m.lines, name)->Some_0;
            let c = tool_comment(m.lines[j]);
            assert(n.lines == m.lines.update(j, LineModel::Tool(e, c)));
            assert(is_writable_but_entry(m.lines, j));
            assert(is_writable_comment(c));
            assert forall|k: int| 0 <= k < n.lines.len() implies #[trigger] is_writable_but_entry(
                n.lines,
                k,
            ) by {
                if k == j {
                    assert forall|jj: int| 0 <= jj < j implies !is_tool_line_named(
                        n.lines[jj],
                        name,
                    ) by {
                        assert(n.lines[jj] == m.lines[jj]);
                    }
                    assert(tool_comment(n.lines[j]) == c);
                } else {
                    assert(n.lines[k] == m.lines[k]);
                    assert(is_writable_but_entry(m.lines, k));
                    if !is_writable_line(m.lines[k]) {
                        let x = m.lines[k]->Tool_0.name;
                        if x == name {
                            if k < j {
                                assert(is_tool_line_named(m.lines[k], name));
                            } else {
                                assert(is_tool_line_named(m.lines[j], x));
                            }
                        }
                        assert forall|jj: int| 0 <= jj < k implies !is_tool_line_named(
                            n.lines[jj],
                            x,
                        ) by {
                            if jj != j {
                                assert(n.lines[jj] == m.lines[jj]);
                            }
                        }
                    }
                }
            }
        },
        None => {
            let l = LineModel::Tool(e, seq![]);
            assert(n.lines == m.lines.push(l));
            assert forall|k: int| 0 <= k < n.lines.len() implies #[trigger] is_writable_but_entry(
                n.lines,
                k,
            ) by {
                if k < m.lines.len() {
                    assert(n.lines[k] == m.lines[k]);
                    assert(is_writable_but_entry(m.lines, k));
                    if !is_writable_line(m.lines[k]) {
                        assert forall|jj: int| 0 <= jj < k implies !is_tool_line_named(
                            n.lines[jj],
                            m.lines[k]->Tool_0.name,
                        ) by {
                            assert(n.lines[jj] == m.lines[jj]);
                        }
                    }
                } else {
                    assert forall|jj: int| 0 <= jj < k implies !is_tool_line_named(n.lines[jj], name) by {
                        assert(n.lines[jj] == m.lines[jj]);
                    }
                    assert(is_writable_comment(tool_comment(l)));
                }
            }
        },
    }
}

/// Removing a tool keeps a document writable but for entries.
pub proof fn law_remove_keeps_writable_but_entries(m: ToolVersionsModel, name: Seq<char>)
    requires
        m.writable_but_entries(),
    ensures
        m.remove(name).writable_but_entries(),
{
    if index_of_tool(m.tools, name) is Some {
        lemma_without_writable_but_entries(m.lines, name);
    }
}

/// A consistent document that is writable but for entries is writable when
/// all its tools are writable entries.
pub proof fn law_writable_when_tools_are(m: ToolVersionsModel)
    requires
        m.is_consistent(),
        m.writable_but_entries(),
        forall|i: int| 0 <= i < m.tools.len() ==> #[trigger] is_writable_entry(m.tools[i]),
    ensures
        m.is_writable(),
{
    if m.lines.len() > 0 {
        assert forall|k: int| 0 <= k < m.lines.len() implies #[trigger] is_writable_line(m.lines[k]) by {
            assert(is_writable_but_entry(m.lines, k));
            if !is_writable_line(m.lines[k]) {
                let x = m.lines[k]->Tool_0.name;
                lemma_index_of_tool_line_is(m.lines, x, k);
                law_consistent_tool_lines(m, x);
                lemma_index_of_tool(m.tools, x);
                let i = index_of_tool(m.tools, x)->Some_0;
                assert(is_writable_entry(m.tools[i]));
            }
        }
    }
}

/// The edits keep a consistent document, writable but for entries,
/// consistent (so with each tool named once and every tool line naming a
/// tool) and writable but for entries.
pub proof fn law_edits_keep_invariants(m: ToolVersionsModel, edits: Seq<EditModel>)
    requires
        m.is_consistent(),
        m.writable_but_entries(),
    ensures
        apply_edits(m, edits).is_consistent(),
        apply_edits(m, edits).names_distinct(),
        apply_edits(m, edits).tool_lines_named(),
        apply_edits(m, edits).writable_but_entries(),
    decreases edits.len(),
{
    if edits.len() > 0 {
        law_edits_keep_invariants(m, edits.drop_last());
        let b = apply_edits(m, edits.drop_last());
        match edits.last() {
            EditModel::SetVersions(name, versions) => {
                law_set_keeps_consistent(b, name, versions);
                law_set_keeps_writable_but_entries(b, name, versions);
            },
            EditModel::Remove(name) => {
                law_remove_keeps_consistent(b, name);
                law_remove_keeps_writable_but_entries(b, name);
            },
        }
    }
    law_consistent_names_distinct(apply_edits(m, edits));
    law_consistent_tool_lines_named(apply_edits(m, edits));
}

/// A character missing from a text of lines is missing from each line.
proof fn lemma_render_lines_chars(ls: Seq<LineModel>, ch: char)
    requires
        forall|i: int| 0 <= i < render_lines(ls).len() ==> render_lines(ls)[i] != ch,
    ensures
        forall|k: int, i: int|
            0 <= k < ls.len() && 0 <= i < line_text(ls[k]).len() ==> line_text(ls[k])[i] != ch,
    decreases ls.len(),
{
    if ls.len() > 0 {
        let p = ls.drop_last();
        let r = render_lines(p);
        let t = line_text(ls.last());
        assert(render_lines(ls) == r + t + seq!['\n']);
        assert forall|i: int| 0 <= i < r.len() implies r[i] != ch by {
            assert(render_lines(ls)[i] == r[i]);
        }
        lemma_render_lines_chars(p, ch);
        assert forall|k: int, i: int|
            0 <= k < ls.len() && 0 <= i < line_text(ls[k]).len() implies line_text(ls[k])[i] != ch by {
            if k < p.len() {
                assert(ls[k] == p[k]);
            } else {
                assert(render_lines(ls)[r.len() + i] == t[i]);
            }
        }
    }
}

/// Round trip after any edits: a document read from text (or the empty
/// one), edited in any way, whose tools end up writable entries and whose
/// text holds no `\r`, writes a text that reads back with the same tools
/// and writes out as the same text.
pub proof fn law_edited_roundtrip(m: ToolVersionsModel, edits: Seq<EditModel>)
    requires
        m.is_consistent(),
        m.writable_but_entries(),
        forall|i: int|
            0 <= i < apply_edits(m, edits).tools.len() ==> #[trigger] is_writable_entry(
                apply_edits(m, edits).tools[i],
            ),
        forall|i: int|
            0 <= i < apply_edits(m, edits).render().len() ==> apply_edits(m, edits).render()[i]
                != '\r',
    ensures
        parse_text(apply_edits(m, edits).render()) is Ok,
        parse_text(apply_edits(m, edits).render())->Ok_0.tools == apply_edits(m, edits).tools,
        parse_text(apply_edits(m, edits).render())->Ok_0.render() == apply_edits(m, edits).render(),
{
    let n = apply_edits(m, edits);
    law_edits_keep_invariants(m, edits);
    law_writable_when_tools_are(n);
    law_consistent_render(n);
    lemma_render_lines_chars(n.lines, '\r');
    assert forall|k: int|
        0 <= k < n.lines.len() && #[trigger] n.lines[k] is Comment implies n.lines[k]->Comment_0.last()
            != '\r' by {
        assert(is_writable_line(n.lines[k]));
        let c = n.lines[k]->Comment_0;
        assert(line_text(n.lines[k]) == c);
        assert(c.len() > 0);
        assert(line_text(n.lines[k])[c.len() - 1] != '\r');
    }
    law_render_parse_render(n);
}

/// Tool names: a line made of a name, a space and a version (any text
/// without whitespace or `#`) reads as a tool line for that name with that
/// single version whenever the name is
/// non-empty and made only of ASCII letters, ASCII digits, `-`, `_` and
/// `.`; no other condition is put on the name, its first character
/// included. Such a line, ended by `\n`, is a whole text that reads as a
/// document setting that tool to that version.
pub proof fn law_valid_name_line(name: Seq<char>, version: Seq<char>, num: nat)
    requires
        name.len() > 0,
        forall|i: int|
            0 <= i < name.len() ==> ('a' <= name[i] <= 'z') || ('A' <= name[i] <= 'Z') || ('0'
                <= name[i] <= '9') || name[i] == '-' || name[i] == '_' || name[i] == '.',
        version.len() > 0,
        forall|i: int| 0 <= i < version.len() ==> !is_ws(#[trigger] version[i]) && version[i] != '#',
    ensures
        parse_line(name + seq![' '] + version, num) == Ok::<LineModel, crate::model::ParseFailure>(
            LineModel::Tool(EntryModel { name, versions: seq![version] }, seq![]),
        ),
        parse_text(name + seq![' '] + version + seq!['\n']) is Ok,
        parse_text(name + seq![' '] + version + seq!['\n'])->Ok_0.tools == seq![
            EntryModel { name, versions: seq![version] },
        ],
        parse_text(name + seq![' '] + version + seq!['\n'])->Ok_0.version(name) == Some(version),
{
    let e = EntryModel { name, versions: seq![version] };
    assert forall|i: int| 0 <= i < name.len() implies #[trigger] is_name_char(name[i]) by {}
    assert(is_valid_tool_name(name));
    assert forall|i: int| 0 <= i < version.len() implies !is_ws(#[trigger] version[i]) && version[i]
        != '#' by {}
    assert(is_plain_word(version));
    assert(is_plain_word(e.versions[0]));
    assert(is_writable_entry(e));
    assert(join_words(e.versions) == version);
    assert(entry_text(e) =~= name + seq![' '] + version);
    lemma_entry_reads_back(e, num);
    let l = LineModel::Tool(e, seq![]);
    let m = ToolVersionsModel { lines: seq![l], tools: seq![e] };
    assert(m.lines.drop_last() =~= Seq::<LineModel>::empty());
    assert(tools_of(m.lines.drop_last()) == Seq::<EntryModel>::empty());
    assert(index_of_tool(Seq::<EntryModel>::empty(), name) is None);
    assert(Seq::<EntryModel>::empty().push(e) =~= seq![e]);
    assert(tools_of(m.lines) =~= seq![e]);
    assert(is_writable_line(m.lines[0]));
    assert(m.is_writable());
    law_render_parse(m);
    assert(line_text(l) == entry_text(e));
    assert(render_lines(m.lines.drop_last()) == Seq::<char>::empty());
    assert(m.render() == render_lines(m.lines.drop_last()) + line_text(l) + seq!['\n']);
    assert(m.render() =~= name + seq![' '] + version + seq!['\n']);
    assert(m.reread().lines =~= m.lines);
    lemma_index_of_tool_is(m.tools, name, 0);
}

/// A tool line with two versions keeps both, in order, whatever the name
/// (made only of ASCII letters, digits, `-`, `_` and `.`) and the versions
/// (without whitespace or `#`).
pub proof fn law_two_versions_line(name: Seq<char>, first: Seq<char>, second: Seq<char>, num: nat)
    requires
        name.len() > 0,
        forall|i: int|
            0 <= i < name.len() ==> ('a' <= name[i] <= 'z') || ('A' <= name[i] <= 'Z') || ('0'
                <= name[i] <= '9') || name[i] == '-' || name[i] == '_' || name[i] == '.',
        first.len() > 0,
        forall|i: int| 0 <= i < first.len() ==> !is_ws(#[trigger] first[i]) && first[i] != '#',
        second.len() > 0,
        forall|i: int| 0 <= i < second.len() ==> !is_ws(#[trigger] second[i]) && second[i] != '#',
    ensures
        parse_line(name + seq![' '] + first + seq![' '] + second, num) == Ok::<
            LineModel,
            crate::model::ParseFailure,
        >(LineModel::Tool(EntryModel { name, versions: seq![first, second] }, seq![])),
{
    let e = EntryModel { name, versions: seq![first, second] };
    assert forall|i: int| 0 <= i < name.len() implies #[trigger] is_name_char(name[i]) by {}
    assert(is_valid_tool_name(name));
    assert(is_plain_word(e.versions[0]));
    assert(is_plain_word(e.versions[1]));
    assert forall|k: int| 0 <= k < e.versions.len() implies #[trigger] is_plain_word(e.versions[k]) by {}
    assert(is_writable_entry(e));
    assert(e.versions.drop_last() =~= seq![first]);
    assert(join_words(e.versions.drop_last()) == first);
    assert(join_words(e.versions) =~= first + seq![' '] + second);
    assert(entry_text(e) =~= name + seq![' '] + first + seq![' '] + second);
    lemma_entry_reads_back(e, num);
}

/// Tool names: a line made of a name, a space and a version, where the
/// name holds a character that is not an ASCII letter, an ASCII digit,
/// `-`, `_` or `.` (and no whitespace or `#`), fails with the message
/// `invalid tool name: {name}`.
pub proof fn law_invalid_name_line(name: Seq<char>, version: Seq<char>, num: nat)
    requires
        name.len() > 0,
        forall|i: int| 0 <= i < name.len() ==> !is_ws(#[trigger] name[i]) && name[i] != '#',
        exists|i: int|
            0 <= i < name.len() && !(('a' <= #[trigger] name[i] <= 'z') || ('A' <= name[i] <= 'Z')
                || ('0' <= name[i] <= '9') || name[i] == '-' || name[i] == '_' || name[i] == '.'),
        version.len() > 0,
        forall|i: int| 0 <= i < version.len() ==> !is_ws(#[trigger] version[i]) && version[i] != '#',
    ensures
        parse_line(name + seq![' '] + version, num) == Err::<LineModel, crate::model::ParseFailure>(
            crate::model::ParseFailure { line: num, message: "invalid tool name: "@ + name },
        ),
{
    let ws = seq![name, version];
    assert(is_plain_word(ws[0]));
    assert(is_plain_word(ws[1]));
    assert forall|k: int| 0 <= k < ws.len() implies #[trigger] is_plain_word(ws[k]) by {}
    lemma_join_plain(ws);
    assert(ws.drop_last() =~= seq![name]);
    assert(join_words(ws.drop_last()) == name);
    assert(join_words(ws) =~= name + seq![' '] + version);
    let text = name + seq![' '] + version;
    assert(text[0] == name[0]);
    assert(text.last() == version.last());
    lemma_trim_unchanged(text);
    lemma_hash_pos_none(text);
    assert(text.take(hash_pos(text)) =~= text);
    let i = choose|i: int|
        0 <= i < name.len() && !(('a' <= #[trigger] name[i] <= 'z') || ('A' <= name[i] <= 'Z') || (
        '0' <= name[i] <= '9') || name[i] == '-' || name[i] == '_' || name[i] == '.');
    assert(!is_name_char(name[i]));
    assert(!is_valid_tool_name(name));
}

/// Extending with a vector of (name, version) pairs hands the edit exactly
/// the vector's pairs, in the vector's order, each with its version as the
/// only one.
pub proof fn law_single_pairs_given(v: Vec<(String, String)>, ps: Seq<(Seq<char>, Seq<Seq<char>>)>)
    requires
        crate::conversions::IntoToolPairs::gives_pairs(&v, ps),
    ensures
        ps.len() == v@.len(),
        forall|k: int| 0 <= k < ps.len() ==> #[trigger] ps[k] == (v@[k].0@, seq![v@[k].1@]),
{
}

/// Extending with a vector of (name, versions) pairs hands the edit exactly
/// the vector's pairs, in the vector's order, with all their versions.
pub proof fn law_pairs_given(v: Vec<(String, Vec<String>)>, ps: Seq<(Seq<char>, Seq<Seq<char>>)>)
    requires
        crate::conversions::IntoToolPairs::gives_pairs(&v, ps),
    ensures
        ps.len() == v@.len(),
        forall|k: int|
            0 <= k < ps.len() ==> #[trigger] ps[k].0 == v@[k].0@ && ps[k].1.len() == v@[k].1@.len()
                && forall|j: int| 0 <= j < ps[k].1.len() ==> ps[k].1[j] == v@[k].1@[j]@,
{
}

/// The entries listed once each from a finite map are all of its entries.
proof fn lemma_lists_map_covers<V>(q: Seq<(String, V)>, mm: Map<String, V>)
    requires
        crate::conversions::lists_map(q, mm),
        mm.dom().finite(),
    ensures
        forall|key: String|
            #[trigger] mm.contains_key(key) ==> exists|k: int| 0 <= k < q.len() && q[k].0 == key,
{
    broadcast use vstd::set::group_set_axioms;
    broadcast use vstd::seq_lib::seq_to_set_is_finite;

    let keys = q.map_values(|p: (String, V)| p.0);
    assert forall|i: int, j: int|
        0 <= i < keys.len() && 0 <= j < keys.len() && i != j implies keys[i] != keys[j] by {
        if i < j {
            assert(q[i].0 != q[j].0);
        } else {
            assert(q[j].0 != q[i].0);
        }
    }
    assert(keys.no_duplicates());
    keys.unique_seq_to_set();
    let st = keys.to_set();
    assert forall|x: String| st.contains(x) implies mm.dom().contains(x) by {
        let k = choose|k: int| 0 <= k < keys.len() && keys[k] == x;
        assert(mm.contains_key(q[k].0));
    }
    vstd::set_lib::lemma_subset_equality(st, mm.dom());
    assert forall|key: String| #[trigger] mm.contains_key(key) implies exists|k: int|
        0 <= k < q.len() && q[k].0 == key by {
        assert(st.contains(key));
        let k = choose|k: int| 0 <= k < keys.len() && keys[k] == key;
        assert(q[k].0 == key);
    }
}

/// Some entry of the map has the pair's name as its key's text and the
/// pair's versions as its versions.
pub open spec fn map_has_versions_pair(
    mm: Map<String, Vec<String>>,
    p: (Seq<char>, Seq<Seq<char>>),
) -> bool {
    exists|key: String| #![trigger mm[key]] mm.contains_key(key) && key@ == p.0 && strings_view(mm[key]@) == p.1
}

/// Some entry of the map has the pair's name as its key's text and its
/// value as the pair's only version.
pub open spec fn map_has_version_pair(mm: Map<String, String>, p: (Seq<char>, Seq<Seq<char>>)) -> bool {
    exists|key: String| #![trigger mm[key]] mm.contains_key(key) && key@ == p.0 && seq![mm[key]@] == p.1
}

/// The pairs that a map with all its versions hands to an edit: one per
/// entry of the map, each the entry's key and versions, and every entry
/// among them (where `String` obeys vstd's key model for hashing).
pub proof fn law_hash_map_pairs_given(m: HashMap<String, Vec<String>>, ps: Seq<(Seq<char>, Seq<Seq<char>>)>)
    requires
        vstd::std_specs::hash::obeys_key_model::<String>(),
        crate::conversions::IntoToolPairs::gives_pairs(&m, ps),
    ensures
        ps.len() == m@.len(),
        forall|k: int| 0 <= k < ps.len() ==> #[trigger] map_has_versions_pair(m@, ps[k]),
        forall|key: String|
            #[trigger] m@.contains_key(key) ==> exists|k: int|
                0 <= k < ps.len() && ps[k].0 == key@ && ps[k].1 == strings_view(m@[key]@),
{
    broadcast use vstd::std_specs::hash::group_hash_axioms;

    assert(exists|q: Seq<(String, Vec<String>)>| crate::conversions::lists_map(q, m@) && ps == pairs_view(q));
    let q = choose|q: Seq<(String, Vec<String>)>| crate::conversions::lists_map(q, m@) && ps == pairs_view(q);
    assert(crate::conversions::lists_map(q, m@));
    assert(ps == pairs_view(q));
    assert(ps.len() == q.len());
    assert(m@.dom().finite());
    lemma_lists_map_covers(q, m@);
    assert forall|k: int| 0 <= k < ps.len() implies #[trigger] map_has_versions_pair(m@, ps[k]) by {
        assert(ps[k] == (q[k].0@, strings_view(q[k].1@)));
        assert(m@.contains_key(q[k].0) && m@[q[k].0] == q[k].1);
    }
    assert forall|key: String| #[trigger] m@.contains_key(key) implies exists|k: int|
        0 <= k < ps.len() && ps[k].0 == key@ && ps[k].1 == strings_view(m@[key]@) by {
        let k = choose|k: int| 0 <= k < q.len() && q[k].0 == key;
        assert(ps[k] == (q[k].0@, strings_view(q[k].1@)));
        assert(m@[q[k].0] == q[k].1);
    }
}

/// The pairs that a map with one version per tool hands to an edit: one
/// per entry of the map, each the entry's key and its version as the only
/// one, and every entry among them (where `String` obeys vstd's key model
/// for hashing).
pub proof fn law_hash_map_single_pairs_given(m: HashMap<String, String>, ps: Seq<(Seq<char>, Seq<Seq<char>>)>)
    requires
        vstd::std_specs::hash::obeys_key_model::<String>(),
        crate::conversions::IntoToolPairs::gives_pairs(&m, ps),
    ensures
        ps.len() == m@.len(),
        forall|k: int| 0 <= k < ps.len() ==> #[trigger] map_has_version_pair(m@, ps[k]),
        forall|key: String|
            #[trigger] m@.contains_key(key) ==> exists|k: int|
                0 <= k < ps.len() && ps[k].0 == key@ && ps[k].1 == seq![m@[key]@],
{
    broadcast use vstd::std_specs::hash::group_hash_axioms;

    assert(exists|q: Seq<(String, String)>| crate::conversions::lists_map(q, m@) && ps == single_pairs_view(q));
    let q = choose|q: Seq<(String, String)>| crate::conversions::lists_map(q, m@) && ps == single_pairs_view(q);
    assert(crate::conversions::lists_map(q, m@));
    assert(forall|i: int| 0 <= i < q.len() ==> #[trigger] m@.contains_key(q[i].0) && m@[q[i].0] == q[i].1);
    assert(ps == single_pairs_view(q));
    assert(ps.len() == q.len());
    assert(m@.dom().finite());
    lemma_lists_map_covers(q, m@);
    assert forall|k: int| 0 <= k < ps.len() implies #[trigger] map_has_version_pair(m@, ps[k]) by {
        assert(ps[k] == (q[k].0@, seq![q[k].1@]));
        assert(m@.contains_key(q[k].0) && m@[q[k].0] == q[k].1);
    }
    assert forall|key: String| #[trigger] m@.contains_key(key) implies exists|k: int|
        0 <= k < ps.len() && ps[k].0 == key@ && ps[k].1 == seq![m@[key]@] by {
        let k = choose|k: int| 0 <= k < q.len() && q[k].0 == key;
        assert(ps[k] == (q[k].0@, seq![q[k].1@]));
        assert(m@[q[k].0] == q[k].1);
    }
}

/// The pairs that a sorted map with all its versions hands to an edit: one
/// per entry of the map, each the entry's key and versions, and every entry
/// among them (where `String` obeys vstd's ordering laws).
pub proof fn law_btree_map_pairs_given(m: BTreeMap<String, Vec<String>>, ps: Seq<(Seq<char>, Seq<Seq<char>>)>)
    requires
        vstd::laws_cmp::obeys_cmp::<String>(),
        crate::conversions::IntoToolPairs::gives_pairs(&m, ps),
    ensures
        ps.len() == m@.len(),
        forall|k: int| 0 <= k < ps.len() ==> #[trigger] map_has_versions_pair(m@, ps[k]),
        forall|key: String|
            #[trigger] m@.contains_key(key) ==> exists|k: int|
                0 <= k < ps.len() && ps[k].0 == key@ && ps[k].1 == strings_view(m@[key]@),
{
    broadcast use vstd::std_specs::btree::group_btree_axioms;

    assert(exists|q: Seq<(String, Vec<String>)>| crate::conversions::lists_map(q, m@) && crate::conversions::sorted_by_key(q) && ps == pairs_view(q));
    let q = choose|q: Seq<(String, Vec<String>)>| crate::conversions::lists_map(q, m@) && crate::conversions::sorted_by_key(q) && ps == pairs_view(q);
    assert(crate::conversions::lists_map(q, m@));
    assert(ps == pairs_view(q));
    assert(ps.len() == q.len());
    assert(m@.dom().finite());
    lemma_lists_map_covers(q, m@);
    assert forall|k: int| 0 <= k < ps.len() implies #[trigger] map_has_versions_pair(m@, ps[k]) by {
        assert(ps[k] == (q[k].0@, strings_view(q[k].1@)));
        assert(m@.contains_key(q[k].0) && m@[q[k].0] == q[k].1);
    }
    assert forall|key: String| #[trigger] m@.contains_key(key) implies exists|k: int|
        0 <= k < ps.len() && ps[k].0 == key@ && ps[k].1 == strings_view(m@[key]@) by {
        let k = choose|k: int| 0 <= k < q.len() && q[k].0 == key;
        assert(ps[k] == (q[k].0@, strings_view(q[k].1@)));
        assert(m@[q[k].0] == q[k].1);
    }
}

/// The pairs that a sorted map with one version per tool hands to an edit:
/// one per entry of the map, each the entry's key and its version as the
/// only one, and every entry among them (where `String` obeys vstd's
/// ordering laws).
pub proof fn law_btree_map_single_pairs_given(m: BTreeMap<String, String>, ps: Seq<(Seq<char>, Seq<Seq<char>>)>)
    requires
        vstd::laws_cmp::obeys_cmp::<String>(),
        crate::conversions::IntoToolPairs::gives_pairs(&m, ps),
    ensures
        ps.len() == m@.len(),
        forall|k: int| 0 <= k < ps.len() ==> #[trigger] map_has_version_pair(m@, ps[k]),
        forall|key: String|
            #[trigger] m@.contains_key(key) ==> exists|k: int|
                0 <= k < ps.len() && ps[k].0 == key@ && ps[k].1 == seq![m@[key]@],
{
    broadcast use vstd::std_specs::btree::group_btree_axioms;

    assert(exists|q: Seq<(String, String)>| crate::conversions::lists_map(q, m@) && crate::conversions::sorted_by_key(q) && ps == single_pairs_view(q));
    let q = choose|q: Seq<(String, String)>| crate::conversions::lists_map(q, m@) && crate::conversions::sorted_by_key(q) && ps == single_pairs_view(q);
    assert(crate::conversions::lists_map(q, m@));
    assert(forall|i: int| 0 <= i < q.len() ==> #[trigger] m@.contains_key(q[i].0) && m@[q[i].0] == q[i].1);
    assert(ps == single_pairs_view(q));
    assert(ps.len() == q.len());
    assert(m@.dom().finite());
    lemma_lists_map_covers(q, m@);
    assert forall|k: int| 0 <= k < ps.len() implies #[trigger] map_has_version_pair(m@, ps[k]) by {
        assert(0 <= k < q.len());
        assert(m@.contains_key(q[k].0));
        assert(m@[q[k].0] == q[k].1);
        assert(ps[k] == (q[k].0@, seq![q[k].1@]));
        assert(seq![m@[q[k].0]@] == ps[k].1);
    }
    assert forall|key: String| #[trigger] m@.contains_key(key) implies exists|k: int|
        0 <= k < ps.len() && ps[k].0 == key@ && ps[k].1 == seq![m@[key]@] by {
        let k = choose|k: int| 0 <= k < q.len() && q[k].0 == key;
        assert(ps[k] == (q[k].0@, seq![q[k].1@]));
        assert(m@[q[k].0] == q[k].1);
    }
}

/// Looking a tool up finds its first entry: the entry with that name that
/// no earlier entry shares, or nothing when no entry has that name.
pub proof fn law_entry_is_first(m: ToolVersionsModel, name: Seq<char>)
    ensures
        match m.entry(name) {
            Some(e) => exists|i: int|
                0 <= i < m.tools.len() && #[trigger] m.tools[i] == e && e.name == name && forall|j: int|
                    0 <= j < i ==> m.tools[j].name != name,
            None => forall|j: int| 0 <= j < m.tools.len() ==> m.tools[j].name != name,
        },
{
    lemma_index_of_tool(m.tools, name);
}

/// Setting pairs in turn leaves alone every tool that no pair names.
pub proof fn law_extend_untouched(m: ToolVersionsModel, ps: Seq<(Seq<char>, Seq<Seq<char>>)>, name: Seq<char>)
    requires
        forall|j: int| 0 <= j < ps.len() ==> ps[j].0 != name,
    ensures
        extend_model(m, ps).entry(name) == m.entry(name),
    decreases ps.len(),
{
    if ps.len() > 0 {
        let p = ps.drop_last();
        assert forall|j: int| 0 <= j < p.len() implies p[j].0 != name by {
            assert(p[j] == ps[j]);
        }
        law_extend_untouched(m, p, name);
        assert(ps[ps.len() - 1].0 != name);
        law_set_keeps_others(extend_model(m, p), ps.last().0, ps.last().1, name);
    }
}

/// Later pairs win: setting pairs in turn, a pair's name ends up with that
/// pair's versions when no later pair has the same name.
pub proof fn law_extend_last_wins(m: ToolVersionsModel, ps: Seq<(Seq<char>, Seq<Seq<char>>)>, i: int)
    requires
        0 <= i < ps.len(),
        forall|j: int| i < j < ps.len() ==> ps[j].0 != ps[i].0,
    ensures
        extend_model(m, ps).entry(ps[i].0) == Some(EntryModel { name: ps[i].0, versions: ps[i].1 }),
    decreases ps.len(),
{
    let p = ps.drop_last();
    let before = extend_model(m, p);
    if i == ps.len() - 1 {
        law_set_then_entry(before, ps.last().0, ps.last().1);
    } else {
        assert forall|j: int| i < j < p.len() implies p[j].0 != p[i].0 by {
            assert(p[j] == ps[j]);
        }
        law_extend_last_wins(m, p, i);
        assert(p[i] == ps[i]);
        assert(ps[ps.len() - 1].0 != ps[i].0);
        law_set_keeps_others(before, ps.last().0, ps.last().1, ps[i].0);
    }
}

/// Setting the versions of pairs with distinct names, in turn, sets each of
/// them: looking up a pair's name gives its versions.
pub proof fn law_extend_sets_each(m: ToolVersionsModel, ps: Seq<(Seq<char>, Seq<Seq<char>>)>)
    requires
        forall|i: int, j: int| 0 <= i < j < ps.len() ==> ps[i].0 != ps[j].0,
    ensures
        forall|i: int|
            0 <= i < ps.len() ==> #[trigger] extend_model(m, ps).entry(ps[i].0) == Some(
                EntryModel { name: ps[i].0, versions: ps[i].1 },
            ),
    decreases ps.len(),
{
    if ps.len() > 0 {
        let p = ps.drop_last();
        let last = ps.last();
        law_extend_sets_each(m, p);
        let before = extend_model(m, p);
        law_set_then_entry(before, last.0, last.1);
        assert forall|i: int| 0 <= i < ps.len() implies #[trigger] extend_model(m, ps).entry(
            ps[i].0,
        ) == Some(EntryModel { name: ps[i].0, versions: ps[i].1 }) by {
            if i < p.len() {
                assert(p[i] == ps[i]);
                assert(ps[i].0 != last.0);
                law_set_keeps_others(before, last.0, last.1, ps[i].0);
            }
        }
    }
}

/// A document's entries, set one after another into an empty document,
/// give back the same entries in the same order, when their names are
/// distinct.
pub proof fn law_entries_roundtrip(ts: Seq<EntryModel>)
    requires
        forall|i: int, j: int| 0 <= i < j < ts.len() ==> ts[i].name != ts[j].name,
    ensures
        extend_model(ToolVersionsModel::empty(), entry_pairs(ts)).tools == ts,
    decreases ts.len(),
{
    if ts.len() > 0 {
        let p = ts.drop_last();
        law_entries_roundtrip(p);
        assert(entry_pairs(ts).drop_last() =~= entry_pairs(p));
        let before = extend_model(ToolVersionsModel::empty(), entry_pairs(p));
        assert forall|j: int| 0 <= j < p.len() implies p[j].name != ts.last().name by {
            assert(p[j] == ts[j]);
        }
        lemma_index_of_tool_none(p, ts.last().name);
        assert(p.push(EntryModel { name: ts.last().name, versions: ts.last().versions }) =~= ts);
    } else {
        assert(entry_pairs(ts) =~= Seq::<(Seq<char>, Seq<Seq<char>>)>::empty());
    }
}

/// Pairs with distinct names, set one after another into an empty
/// document, come back as the document's pairs, in the same order.
pub proof fn law_pairs_roundtrip(ps: Seq<(Seq<char>, Seq<Seq<char>>)>)
    requires
        forall|i: int, j: int| 0 <= i < j < ps.len() ==> ps[i].0 != ps[j].0,
    ensures
        entry_pairs(extend_model(ToolVersionsModel::empty(), ps).tools) == ps,
{
    let ts = ps.map_values(|p: (Seq<char>, Seq<Seq<char>>)| EntryModel { name: p.0, versions: p.1 });
    assert(entry_pairs(ts) =~= ps);
    assert forall|i: int, j: int| 0 <= i < j < ts.len() implies ts[i].name != ts[j].name by {
        assert(ts[i].name == ps[i].0 && ts[j].name == ps[j].0);
    }
    law_entries_roundtrip(ts);
}

/// Map round trip: pairs whose names are distinct as text (such as the
/// entries of a map), made into a document whose pairs are then put in a
/// map, come back: the map has a key with each name, holding that name's
/// versions.
pub proof fn law_map_roundtrip(
    q: Seq<(String, Vec<String>)>,
    ps: Seq<(String, Vec<String>)>,
    m: Map<String, Vec<String>>,
)
    requires
        forall|i: int, j: int| 0 <= i < j < q.len() ==> q[i].0@ != q[j].0@,
        pairs_view(ps) == entry_pairs(extend_model(ToolVersionsModel::empty(), pairs_view(q)).tools),
        m == map_of_pairs(ps),
    ensures
        forall|i: int|
            #![trigger q[i]]
            0 <= i < q.len() ==> exists|k: String|
                #![trigger m[k]]
                m.contains_key(k) && k@ == q[i].0@ && strings_view(m[k]@) == strings_view(q[i].1@),
{
    lemma_map_of_pairs_holds(ps);
    let v = pairs_view(q);
    assert forall|i: int, j: int| 0 <= i < j < v.len() implies v[i].0 != v[j].0 by {
        assert(v[i].0 == q[i].0@ && v[j].0 == q[j].0@);
    }
    law_pairs_roundtrip(v);
    assert(pairs_view(ps) == v);
    assert(ps.len() == q.len()) by {
        assert(pairs_view(ps).len() == ps.len());
    }
    assert forall|i: int| #![trigger q[i]] 0 <= i < q.len() implies exists|k: String|
        #![trigger m[k]]
        m.contains_key(k) && k@ == q[i].0@ && strings_view(m[k]@) == strings_view(q[i].1@) by {
        let k = ps[i].0;
        assert(pairs_view(ps)[i] == v[i]);
        assert(m.contains_key(k));
        let j = choose|j: int| 0 <= j < ps.len() && ps[j].0 == k && ps[j].1 == m[k];
        assert(pairs_view(ps)[j] == v[j]);
        if j != i {
            if j < i {
                assert(v[j].0 != v[i].0);
            } else {
                assert(v[i].0 != v[j].0);
            }
        }
        assert(m[k] == ps[i].1);
    }
}

/// The version in use of each entry that has exactly one version.
proof fn lemma_primary_pairs_single(ts: Seq<EntryModel>)
    requires
        forall|i: int| 0 <= i < ts.len() ==> #[trigger] ts[i].versions.len() == 1,
    ensures
        primary_pairs(ts) == ts.map_values(|e: EntryModel| (e.name, e.versions[0])),
    decreases ts.len(),
{
    if ts.len() > 0 {
        let p = ts.drop_last();
        assert forall|i: int| 0 <= i < p.len() implies #[trigger] p[i].versions.len() == 1 by {
            assert(p[i] == ts[i]);
        }
        lemma_primary_pairs_single(p);
        assert(ts[ts.len() - 1].versions.len() == 1);
        assert(ts.map_values(|e: EntryModel| (e.name, e.versions[0])) =~= p.map_values(
            |e: EntryModel| (e.name, e.versions[0]),
        ).push((ts.last().name, ts.last().versions[0])));
    } else {
        assert(ts.map_values(|e: EntryModel| (e.name, e.versions[0])) =~= seq![]);
    }
}

/// Map round trip with one version per tool: (name, version) pairs whose
/// names are distinct as text, made into a document whose versions in use
/// are then put in a map, come back: the map has a key with each name,
/// holding that name's version.
pub proof fn law_primary_map_roundtrip(
    q: Seq<(String, String)>,
    ps: Seq<(String, String)>,
    m: Map<String, String>,
)
    requires
        forall|i: int, j: int| 0 <= i < j < q.len() ==> q[i].0@ != q[j].0@,
        ps.map_values(|p: (String, String)| (p.0@, p.1@)) == primary_pairs(
            extend_model(ToolVersionsModel::empty(), single_pairs_view(q)).tools,
        ),
        m == map_of_pairs(ps),
    ensures
        forall|i: int|
            #![trigger q[i]]
            0 <= i < q.len() ==> exists|k: String|
                #![trigger m[k]]
                m.contains_key(k) && k@ == q[i].0@ && m[k]@ == q[i].1@,
{
    lemma_map_of_pairs_holds(ps);
    let v = single_pairs_view(q);
    let ts = v.map_values(|p: (Seq<char>, Seq<Seq<char>>)| EntryModel { name: p.0, versions: p.1 });
    assert(entry_pairs(ts) =~= v);
    assert forall|i: int, j: int| 0 <= i < j < ts.len() implies ts[i].name != ts[j].name by {
        assert(ts[i].name == q[i].0@ && ts[j].name == q[j].0@);
    }
    law_entries_roundtrip(ts);
    assert forall|i: int| 0 <= i < ts.len() implies #[trigger] ts[i].versions.len() == 1 by {
        assert(ts[i].versions == seq![q[i].1@]);
    }
    lemma_primary_pairs_single(ts);
    let w = ps.map_values(|p: (String, String)| (p.0@, p.1@));
    assert(w.len() == ps.len());
    assert(ps.len() == q.len());
    assert forall|i: int| 0 <= i < q.len() implies #[trigger] w[i] == (q[i].0@, q[i].1@) by {
        assert(ts[i].name == q[i].0@);
        assert(ts[i].versions[0] == q[i].1@);
    }
    assert forall|i: int| #![trigger q[i]] 0 <= i < q.len() implies exists|k: String|
        #![trigger m[k]]
        m.contains_key(k) && k@ == q[i].0@ && m[k]@ == q[i].1@ by {
        let k = ps[i].0;
        assert(w[i] == (q[i].0@, q[i].1@));
        assert(m.contains_key(k));
        let j = choose|j: int| 0 <= j < ps.len() && ps[j].0 == k && ps[j].1 == m[k];
        assert(w[j] == (q[j].0@, q[j].1@));
        if j != i {
            if j < i {
                assert(q[j].0@ != q[i].0@);
            } else {
                assert(q[i].0@ != q[j].0@);
            }
        }
        assert(m[k] == ps[i].1);
    }
}

/// Reading a text, writing the document out and reading that again gives
/// the same tools and the same lines (up to a `\r` ending a comment on the
/// last line).
pub proof fn law_parse_render_parse(content: Seq<char>)
    requires
        parse_text(content) is Ok,
    ensures
        parse_text(parse_text(content)->Ok_0.render()) == Ok::<
            ToolVersionsModel,
            crate::model::ParseFailure,
        >(parse_text(content)->Ok_0.reread()),
        parse_text(content)->Ok_0.reread().tools == parse_text(content)->Ok_0.tools,
{
    law_parsed_is_writable(content);
    law_render_parse(parse_text(content)->Ok_0);
}

} // verus!
