//! `ToolEntry` and `ToolVersions`: parsing, lookup, editing and rendering.
use vstd::prelude::*;

use crate::errors::Error;
use crate::model::{
    entry_text, index_of_tool, line_text, render_entries, render_lines, without_tool_lines, index_of_tool_line, is_tool_line_named, join_words,
    lemma_index_of_tool_is, lemma_index_of_tool_line, lemma_index_of_tool_line_is,
    entry_pairs, extend_model, pair_view, primary_pairs, lemma_index_of_tool_none, lemma_parse_lines_prefix_err, pairs_view, parse_lines, parse_text, strings_view,
    tools_of, EntryModel, LineModel, ToolVersionsModel,
};
use crate::model;
use crate::text::{
    chars_of, ended_lines, find_hash, hash_pos, is_valid_name_range, lemma_lines_prefix, lines,
    push_char, split_terminated, string_of, strip_cr, trim_range, words, word_ranges,
};

verus! {

/// A tool and its versions; the first version is the one in use.
#[derive(Debug, Clone, PartialEq, Eq)]
pub struct ToolEntry {
    pub name: String,
    pub versions: Vec<String>,
}

impl View for ToolEntry {
    type V = EntryModel;

    open spec fn view(&self) -> EntryModel {
        EntryModel { name: self.name@, versions: strings_view(self.versions@) }
    }
}

/// The views of a sequence of entries.
pub open spec fn entries_view(v: Seq<ToolEntry>) -> Seq<EntryModel> {
    v.map_values(|e: ToolEntry| e@)
}

/// A copy of a list of strings.
fn copy_strings(v: &Vec<String>) -> (r: Vec<String>)
    ensures
        strings_view(r@) == strings_view(v@),
{
    let mut r: Vec<String> = Vec::new();
    let mut i: usize = 0;
    while i < v.len()
        invariant
            i <= v@.len(),
            r@.len() == i,
            forall|k: int| 0 <= k < i ==> r@[k]@ == v@[k]@,
        decreases v@.len() - i,
    {
        let c = v[i].clone();
        r.push(c);
        i = i + 1;
    }
    assert(strings_view(r@) =~= strings_view(v@));
    r
}

impl ToolEntry {
    /// An entry for `name` with the single version `version`.
    pub fn new(name: &str, version: &str) -> (r: Self)
        ensures
            r@ == (EntryModel { name: name@, versions: seq![version@] }),
    {
        let mut versions: Vec<String> = Vec::new();
        versions.push(version.to_owned());
        let r = ToolEntry { name: name.to_owned(), versions };
        assert(r@.versions =~= seq![version@]);
        r
    }

    /// An entry for `name` with the given versions.
    pub fn with_versions(name: &str, versions: Vec<String>) -> (r: Self)
        ensures
            r.name@ == name@,
            r.versions == versions,
    {
        ToolEntry { name: name.to_owned(), versions }
    }

    /// The version in use: the first one, if there is any.
    pub fn primary_version(&self) -> (r: Option<&str>)
        ensures
            match r {
                Some(v) => self.versions@.len() > 0 && v@ == self.versions@[0]@,
                None => self.versions@.len() == 0,
            },
    {
        if self.versions.len() > 0 {
            Some(self.versions[0].as_str())
        } else {
            None
        }
    }

    /// A copy of this entry.
    pub(crate) fn copy(&self) -> (r: Self)
        ensures
            r@ == self@,
    {
        ToolEntry { name: self.name.clone(), versions: copy_strings(&self.versions) }
    }

    /// Appends the text of this entry to `s`.
    pub(crate) fn append_to(&self, s: &mut String)
        ensures
            final(s)@ == old(s)@ + entry_text(self@),
    {
        let ghost start = s@;
        s.append(self.name.as_str());
        push_char(s, ' ');
        let ghost vs = self@.versions;
        let mut i: usize = 0;
        while i < self.versions.len()
            invariant
                i <= self.versions@.len(),
                vs == strings_view(self.versions@),
                s@ == start + self.name@ + seq![' '] + join_words(vs.take(i as int)),
            decreases self.versions@.len() - i,
        {
            if i > 0 {
                push_char(s, ' ');
            }
            s.append(self.versions[i].as_str());
            assert(vs.take(i + 1).drop_last() =~= vs.take(i as int));
            i = i + 1;
            assert(s@ =~= start + self.name@ + seq![' '] + join_words(vs.take(i as int)));
        }
        assert(vs.take(i as int) =~= vs);
        assert(s@ =~= start + entry_text(self@));
    }

    /// The text of this entry: its name, a space, and its versions joined
    /// by spaces.
    pub fn to_string(&self) -> (r: String)
        ensures
            r@ == entry_text(self@),
    {
        let mut s = String::new();
        self.append_to(&mut s);
        assert(s@ =~= entry_text(self@));
        s
    }
}

/// One line of a document.
#[derive(Debug, Clone, PartialEq, Eq)]
enum Line {
    /// A tool line and the comment after its versions (empty when none).
    Tool(ToolEntry, String),
    Comment(String),
    Empty,
}

impl View for Line {
    type V = LineModel;

    closed spec fn view(&self) -> LineModel {
        match self {
            Line::Tool(e, c) => LineModel::Tool(e@, c@),
            Line::Comment(c) => LineModel::Comment(c@),
            Line::Empty => LineModel::Empty,
        }
    }
}

/// The views of a sequence of lines.
spec fn lines_view(v: Seq<Line>) -> Seq<LineModel> {
    v.map_values(|l: Line| l@)
}

impl Line {
    /// Whether this is a tool line for `name`.
    fn is_tool_named(&self, name: &String) -> (r: bool)
        ensures
            r == is_tool_line_named(self@, name@),
    {
        match self {
            Line::Tool(e, _) => e.name.eq(name),
            _ => false,
        }
    }
}

/// The index of the first entry named `name`.
fn find_tool(tools: &Vec<ToolEntry>, name: &String) -> (r: Option<usize>)
    ensures
        match r {
            Some(i) => i < tools@.len() && index_of_tool(entries_view(tools@), name@) == Some(
                i as int,
            ),
            None => index_of_tool(entries_view(tools@), name@) is None,
        },
{
    let ghost ts = entries_view(tools@);
    let mut i: usize = 0;
    while i < tools.len()
        invariant
            i <= tools@.len(),
            ts == entries_view(tools@),
            forall|j: int| 0 <= j < i ==> ts[j].name != name@,
        decreases tools@.len() - i,
    {
        if tools[i].name.eq(name) {
            proof {
                lemma_index_of_tool_is(ts, name@, i as int);
            }
            return Some(i);
        }
        i = i + 1;
    }
    proof {
        lemma_index_of_tool_none(ts, name@);
    }
    None
}

/// The index of the first tool line for `name`.
fn find_tool_line(lines: &Vec<Line>, name: &String) -> (r: Option<usize>)
    ensures
        match r {
            Some(i) => i < lines@.len() && index_of_tool_line(lines_view(lines@), name@) == Some(
                i as int,
            ),
            None => index_of_tool_line(lines_view(lines@), name@) is None,
        },
{
    let ghost ls = lines_view(lines@);
    let mut i: usize = 0;
    while i < lines.len()
        invariant
            i <= lines@.len(),
            ls == lines_view(lines@),
            forall|j: int| 0 <= j < i ==> !is_tool_line_named(ls[j], name@),
        decreases lines@.len() - i,
    {
        if lines[i].is_tool_named(name) {
            proof {
                lemma_index_of_tool_line_is(ls, name@, i as int);
            }
            return Some(i);
        }
        i = i + 1;
    }
    proof {
        lemma_index_of_tool_line(ls, name@);
    }
    None
}

/// Reads one line, `cs[start..end]`, numbered `num`.
fn parse_line(cs: &Vec<char>, start: usize, end: usize, num: usize) -> (r: Result<Line, Error>)
    requires
        start <= end <= cs@.len(),
    ensures
        match model::parse_line(cs@.subrange(start as int, end as int), num as nat) {
            Ok(m) => r matches Ok(l) && l@ == m,
            Err(f) => r matches Err(Error::ParseError { line, message }) && line == num && f.line
                == num as nat && message@ == f.message,
        },
{
    let (ts, te) = trim_range(cs, start, end);
    let ghost t = cs@.subrange(ts as int, te as int);
    if ts == te {
        return Ok(Line::Empty);
    }
    if cs[ts] == '#' {
        return Ok(Line::Comment(string_of(cs, start, end)));
    }
    let hp = find_hash(cs, ts, te);
    assert(t.take(hash_pos(t)) =~= cs@.subrange(ts as int, hp as int));
    let ranges = word_ranges(cs, ts, hp);
    let ghost ws = words(cs@.subrange(ts as int, hp as int));
    if ranges.len() == 0 {
        return Err(Error::ParseError { line: num, message: String::from_str("empty tool name") });
    }
    let (ns, ne) = ranges[0];
    let name = string_of(cs, ns, ne);
    if !is_valid_name_range(cs, ns, ne) {
        let mut message = String::from_str("invalid tool name: ");
        message.append(name.as_str());
        return Err(Error::ParseError { line: num, message });
    }
    if ranges.len() == 1 {
        let mut message = String::from_str("no version specified for tool: ");
        message.append(name.as_str());
        return Err(Error::ParseError { line: num, message });
    }
    let mut versions: Vec<String> = Vec::new();
    let mut k: usize = 1;
    while k < ranges.len()
        invariant
            1 <= k <= ranges@.len(),
            ranges@.len() == ws.len(),
            start <= ts <= hp <= end <= cs@.len(),
            forall|j: int|
                0 <= j < ranges@.len() ==> {
                    &&& ts <= #[trigger] ranges@[j].0 < ranges@[j].1 <= hp
                    &&& cs@.subrange(ranges@[j].0 as int, ranges@[j].1 as int) == ws[j]
                },
            versions@.len() == k - 1,
            forall|j: int| 0 <= j < k - 1 ==> versions@[j]@ == ws[j + 1],
        decreases ranges@.len() - k,
    {
        let (a, b) = ranges[k];
        versions.push(string_of(cs, a, b));
        k = k + 1;
    }
    assert(strings_view(versions@) =~= ws.drop_first());
    let comment = string_of(cs, hp, te);
    assert(comment@ =~= t.skip(hash_pos(t)));
    Ok(Line::Tool(ToolEntry { name, versions }, comment))
}

/// A `.tool-versions` document: its lines, kept for rewriting the file
/// with its comments and blank lines, and the tools it sets.
#[derive(Debug, Clone)]
pub struct ToolVersions {
    lines: Vec<Line>,
    tools: Vec<ToolEntry>,
}

impl View for ToolVersions {
    type V = ToolVersionsModel;

    closed spec fn view(&self) -> ToolVersionsModel {
        ToolVersionsModel { lines: lines_view(self.lines@), tools: entries_view(self.tools@) }
    }
}

impl ToolVersions {
    /// An empty document.
    pub fn new() -> (r: Self)
        ensures
            r@ == ToolVersionsModel::empty(),
    {
        let r = ToolVersions { lines: Vec::new(), tools: Vec::new() };
        assert(r@.lines =~= seq![]);
        assert(r@.tools =~= seq![]);
        r
    }

    /// A document that sets `tools` and has no lines of its own; it renders
    /// as its entries.
    pub fn from_tools(tools: Vec<ToolEntry>) -> (r: Self)
        ensures
            r@ == (ToolVersionsModel { lines: seq![], tools: entries_view(tools@) }),
    {
        let r = ToolVersions { lines: Vec::new(), tools };
        assert(r@.lines =~= seq![]);
        r
    }

    /// Parses the text of a `.tool-versions` file.
    ///
    /// Each line is blank, a comment (its first non-blank character is `#`),
    /// or a tool name followed by one or more versions, separated by
    /// whitespace and optionally followed by a `#` comment, which the line
    /// keeps. The first line that is none of these makes the whole text
    /// fail, with its number. A tool named twice keeps the versions of its
    /// first line.
    pub fn parse(content: &str) -> (r: crate::Result<Self>)
        ensures
            match parse_text(content@) {
                Ok(m) => r matches Ok(tv) && tv@ == m,
                Err(f) => r matches Err(Error::ParseError { line, message }) && line as nat
                    == f.line && message@ == f.message,
            },
    {
        let cs = chars_of(content);
        let mut doc = ToolVersions::new();
        assert(doc@.lines =~= seq![]);
        let mut start: usize = 0;
        let mut count: usize = 0;
        let mut i: usize = 0;
        assert(cs@.take(0) =~= seq![]);
        assert(ended_lines(seq![]) =~= seq![]);
        while i < cs.len()
            invariant
                start <= i <= cs@.len(),
                cs@ == content@,
                count <= start,
                split_terminated(cs@.take(i as int)).0.len() == count,
                split_terminated(cs@.take(i as int)).1 == cs@.subrange(start as int, i as int),
                parse_lines(ended_lines(split_terminated(cs@.take(i as int)).0)) == Ok::<
                    Seq<LineModel>,
                    model::ParseFailure,
                >(doc@.lines),
                doc@.tools == tools_of(doc@.lines),
            decreases cs@.len() - i,
        {
            let ghost prev = split_terminated(cs@.take(i as int));
            assert(cs@.take(i + 1).drop_last() =~= cs@.take(i as int));
            if cs[i] == '\n' {
                let end = if start < i && cs[i - 1] == '\r' {
                    i - 1
                } else {
                    i
                };
                assert(cs@.subrange(start as int, end as int) =~= strip_cr(prev.1));
                let ghost ended = ended_lines(prev.0.push(prev.1));
                assert(ended =~= ended_lines(prev.0).push(strip_cr(prev.1)));
                assert(ended.drop_last() =~= ended_lines(prev.0));
                match parse_line(&cs, start, end, count + 1) {
                    Ok(line) => {
                        doc.push_line(line);
                    },
                    Err(e) => {
                        proof {
                            lemma_lines_prefix(cs@, i + 1);
                            lemma_parse_lines_prefix_err(lines(cs@), ended.len() as int);
                        }
                        return Err(e);
                    },
                }
                count = count + 1;
                start = i + 1;
                assert(cs@.subrange(start as int, i + 1) =~= seq![]);
            } else {
                assert(prev.1.push(cs@[i as int]) =~= cs@.subrange(start as int, i + 1));
            }
            i = i + 1;
        }
        assert(cs@.take(i as int) =~= cs@);
        if start < cs.len() {
            let ghost all = lines(cs@);
            assert(all.drop_last() =~= ended_lines(split_terminated(cs@).0));
            match parse_line(&cs, start, cs.len(), count + 1) {
                Ok(line) => {
                    doc.push_line(line);
                },
                Err(e) => {
                    return Err(e);
                },
            }
        }
        Ok(doc)
    }

    /// Appends a parsed line; its entry becomes a tool unless that tool is
    /// already set.
    fn push_line(&mut self, line: Line)
        requires
            old(self)@.tools == tools_of(old(self)@.lines),
        ensures
            final(self)@.lines == old(self)@.lines.push(line@),
            final(self)@.tools == tools_of(final(self)@.lines),
    {
        let ghost ls = old(self)@.lines.push(line@);
        assert(ls.drop_last() =~= old(self)@.lines);
        match &line {
            Line::Tool(e, _) => {
                if find_tool(&self.tools, &e.name).is_none() {
                    self.tools.push(e.copy());
                }
            },
            _ => {},
        }
        self.lines.push(line);
        assert(self@.lines =~= ls);
        assert(self@.tools =~= tools_of(ls));
    }

    /// The entry for `tool_name`, if the document sets that tool.
    pub fn get(&self, tool_name: &str) -> (r: Option<&ToolEntry>)
        ensures
            match r {
                Some(e) => self@.entry(tool_name@) == Some(e@),
                None => self@.entry(tool_name@) is None,
            },
    {
        let name = tool_name.to_owned();
        match find_tool(&self.tools, &name) {
            Some(i) => Some(&self.tools[i]),
            None => None,
        }
    }

    /// The version in use for `tool_name`.
    pub fn get_version(&self, tool_name: &str) -> (r: Option<&str>)
        ensures
            match r {
                Some(v) => self@.version(tool_name@) == Some(v@),
                None => self@.version(tool_name@) is None,
            },
    {
        match self.get(tool_name) {
            Some(e) => e.primary_version(),
            None => None,
        }
    }

    /// Whether the document sets `tool_name`.
    pub fn contains(&self, tool_name: &str) -> (r: bool)
        ensures
            r == self@.entry(tool_name@) is Some,
    {
        let name = tool_name.to_owned();
        find_tool(&self.tools, &name).is_some()
    }

    /// The number of tools the document sets.
    pub fn len(&self) -> (r: usize)
        ensures
            r == self@.tools.len(),
    {
        self.tools.len()
    }

    /// Whether the document sets no tool.
    pub fn is_empty(&self) -> (r: bool)
        ensures
            r == (self@.tools.len() == 0),
    {
        self.tools.len() == 0
    }

    /// Sets the versions of `tool_name`: an existing entry and its first
    /// tool line are replaced in place, the line keeping its comment; a new
    /// tool is appended.
    pub fn set_versions(&mut self, tool_name: &str, versions: Vec<String>)
        ensures
            final(self)@ == old(self)@.set_versions(tool_name@, strings_view(versions@)),
    {
        let entry = ToolEntry::with_versions(tool_name, versions);
        match find_tool(&self.tools, &entry.name) {
            Some(idx) => {
                self.tools.set(idx, entry.copy());
                match find_tool_line(&self.lines, &entry.name) {
                    Some(j) => {
                        let comment = match &self.lines[j] {
                            Line::Tool(_, c) => c.clone(),
                            _ => String::new(),
                        };
                        self.lines.set(j, Line::Tool(entry, comment));
                    },
                    None => {},
                }
            },
            None => {
                self.tools.push(entry.copy());
                self.lines.push(Line::Tool(entry, String::new()));
            },
        }
        assert(self@.tools =~= old(self)@.set_versions(tool_name@, strings_view(versions@)).tools);
        assert(self@.lines =~= old(self)@.set_versions(tool_name@, strings_view(versions@)).lines);
    }

    /// Sets `tool_name` to the single version `version`.
    pub fn set(&mut self, tool_name: &str, version: &str)
        ensures
            final(self)@ == old(self)@.set_versions(tool_name@, seq![version@]),
    {
        let mut versions: Vec<String> = Vec::new();
        versions.push(version.to_owned());
        assert(strings_view(versions@) =~= seq![version@]);
        self.set_versions(tool_name, versions);
    }

    /// Removes `tool_name`: its entry and every tool line for it. Returns
    /// whether the document set that tool.
    pub fn remove(&mut self, tool_name: &str) -> (removed: bool)
        ensures
            removed == old(self)@.entry(tool_name@) is Some,
            final(self)@ == old(self)@.remove(tool_name@),
    {
        let name = tool_name.to_owned();
        match find_tool(&self.tools, &name) {
            Some(idx) => {
                self.tools.remove(idx);
                self.drop_tool_lines(&name);
                assert(self@.tools =~= old(self)@.remove(tool_name@).tools);
                true
            },
            None => false,
        }
    }

    /// Drops every tool line for `name`, keeping the other lines in order.
    fn drop_tool_lines(&mut self, name: &String)
        ensures
            final(self).tools == old(self).tools,
            lines_view(final(self).lines@) == without_tool_lines(lines_view(old(self).lines@), name@),
    {
        broadcast use vstd::std_specs::vec::group_vec_axioms;

        let mut old_lines: Vec<Line> = Vec::new();
        std::mem::swap(&mut old_lines, &mut self.lines);
        let ghost ls = lines_view(old_lines@);
        let mut kept: Vec<Line> = Vec::new();
        for line in it: old_lines.into_iter()
            invariant
                ls == lines_view(it.seq()),
                lines_view(kept@) == without_tool_lines(ls.take(it.index() as int), name@),
        {
            let ghost i = it.index();
            assert(ls.take(i + 1).drop_last() =~= ls.take(i as int));
            if !line.is_tool_named(name) {
                kept.push(line);
            }
            assert(lines_view(kept@) =~= without_tool_lines(ls.take(i + 1), name@));
        }
        assert(ls.take(ls.len() as int) =~= ls);
        self.lines = kept;
    }

    /// The text of the document: every line followed by `\n` (a tool line
    /// as its name and versions joined by spaces, then a space and its
    /// comment if it has one), or, for a document without lines, every entry
    /// followed by `\n`.
    pub fn to_string(&self) -> (r: String)
        ensures
            r@ == self@.render(),
    {
        let mut s = String::new();
        if self.lines.len() == 0 {
            let ghost ts = entries_view(self.tools@);
            let mut i: usize = 0;
            while i < self.tools.len()
                invariant
                    i <= self.tools@.len(),
                    ts == entries_view(self.tools@),
                    s@ == render_entries(ts.take(i as int)),
                decreases self.tools@.len() - i,
            {
                self.tools[i].append_to(&mut s);
                push_char(&mut s, '\n');
                assert(ts.take(i + 1).drop_last() =~= ts.take(i as int));
                i = i + 1;
                assert(s@ =~= render_entries(ts.take(i as int)));
            }
            assert(ts.take(i as int) =~= ts);
        } else {
            let ghost ls = lines_view(self.lines@);
            let mut i: usize = 0;
            while i < self.lines.len()
                invariant
                    i <= self.lines@.len(),
                    ls == lines_view(self.lines@),
                    s@ == render_lines(ls.take(i as int)),
                decreases self.lines@.len() - i,
            {
                let ghost before = s@;
                match &self.lines[i] {
                    Line::Tool(e, c) => {
                        e.append_to(&mut s);
                        if !c.as_str().is_empty() {
                            push_char(&mut s, ' ');
                            s.append(c.as_str());
                        }
                    },
                    Line::Comment(c) => s.append(c.as_str()),
                    Line::Empty => {},
                }
                assert(s@ =~= before + line_text(ls[i as int]));
                push_char(&mut s, '\n');
                assert(ls.take(i + 1).drop_last() =~= ls.take(i as int));
                i = i + 1;
                assert(s@ =~= render_lines(ls.take(i as int)));
            }
            assert(ls.take(i as int) =~= ls);
        }
        s
    }

    /// The entries, in order.
    pub fn tools(&self) -> (r: std::slice::Iter<'_, ToolEntry>)
        ensures
            entries_view(vstd::std_specs::iter::IteratorSpec::remaining(&r).unref()) == self@.tools,
    {
        broadcast use vstd::std_specs::slice::group_slice_axioms;

        self.tools.as_slice().iter()
    }

    /// The tool names, in order.
    pub fn tool_names(&self) -> (r: std::vec::IntoIter<&str>)
        ensures
            vstd::std_specs::iter::IteratorSpec::remaining(&r).map_values(|s: &str| s@) == self@.tools.map_values(
                |e: EntryModel| e.name,
            ),
    {
        broadcast use vstd::std_specs::vec::group_vec_axioms;

        let mut names: Vec<&str> = Vec::new();
        let mut i: usize = 0;
        while i < self.tools.len()
            invariant
                i <= self.tools@.len(),
                names@.len() == i,
                forall|j: int| 0 <= j < i ==> names@[j]@ == self.tools@[j].name@,
            decreases self.tools@.len() - i,
        {
            names.push(self.tools[i].name.as_str());
            i = i + 1;
        }
        assert(names@.map_values(|s: &str| s@) =~= self@.tools.map_values(|e: EntryModel| e.name));
        names.into_iter()
    }

    /// The (name, versions) pairs of the entries, in order.
    pub fn into_pairs(self) -> (r: Vec<(String, Vec<String>)>)
        ensures
            pairs_view(r@) == entry_pairs(self@.tools),
    {
        broadcast use vstd::std_specs::vec::group_vec_axioms;

        let ghost ts = entries_view(self.tools@);
        let mut r: Vec<(String, Vec<String>)> = Vec::new();
        for e in it: self.tools.into_iter()
            invariant
                ts == entries_view(it.seq()),
                r@.len() == it.index(),
                pairs_view(r@) == entry_pairs(ts.take(it.index() as int)),
        {
            let ghost i = it.index();
            let ghost ev = e@;
            assert(ts[i as int] == ev);
            let ghost before = r@;
            r.push((e.name, e.versions));
            assert(r@ == before.push(r@[i as int]));
            assert(pair_view(r@[i as int]) == (ev.name, ev.versions));
            assert forall|k: int| 0 <= k < i + 1 implies #[trigger] pairs_view(r@)[k]
                == entry_pairs(ts.take(i + 1))[k] by {
                if k < i {
                    assert(r@[k] == before[k]);
                    assert(pairs_view(before)[k] == entry_pairs(ts.take(i as int))[k]);
                }
            }
            assert(pairs_view(r@) =~= entry_pairs(ts.take(i + 1)));
        }
        assert(ts.take(ts.len() as int) =~= ts);
        r
    }

    /// Sets each pair's versions in turn, as `set_versions` does.
    pub fn extend_pairs(&mut self, pairs: Vec<(String, Vec<String>)>)
        ensures
            final(self)@ == extend_model(old(self)@, pairs_view(pairs@)),
    {
        broadcast use vstd::std_specs::vec::group_vec_axioms;

        let ghost ps = pairs_view(pairs@);
        let ghost start = self@;
        for p in it: pairs.into_iter()
            invariant
                ps == pairs_view(it.seq()),
                self@ == extend_model(start, ps.take(it.index() as int)),
        {
            let ghost i = it.index();
            assert(ps.take(i + 1).drop_last() =~= ps.take(i as int));
            let (name, versions) = p;
            self.set_versions(name.as_str(), versions);
        }
        assert(ps.take(ps.len() as int) =~= ps);
    }

    /// The (name, versions) pairs of the entries, in order, as copies.
    pub fn to_pairs(&self) -> (r: Vec<(String, Vec<String>)>)
        ensures
            pairs_view(r@) == entry_pairs(self@.tools),
    {
        let ghost ts = self@.tools;
        let mut r: Vec<(String, Vec<String>)> = Vec::new();
        let mut i: usize = 0;
        while i < self.tools.len()
            invariant
                i <= self.tools@.len(),
                ts == entries_view(self.tools@),
                r@.len() == i,
                forall|k: int| 0 <= k < i ==> #[trigger] pair_view(r@[k]) == (ts[k].name, ts[k].versions),
            decreases self.tools@.len() - i,
        {
            let e = self.tools[i].copy();
            r.push((e.name, e.versions));
            i = i + 1;
        }
        assert forall|k: int| 0 <= k < r@.len() implies #[trigger] pairs_view(r@)[k]
            == entry_pairs(ts)[k] by {}
        assert(pairs_view(r@) =~= entry_pairs(ts));
        r
    }

    /// The (name, version in use) pairs of the entries that have a version,
    /// in order.
    pub fn to_primary_pairs(&self) -> (r: Vec<(String, String)>)
        ensures
            r@.map_values(|p: (String, String)| (p.0@, p.1@)) == primary_pairs(self@.tools),
    {
        let ghost ts = self@.tools;
        let mut r: Vec<(String, String)> = Vec::new();
        let mut i: usize = 0;
        while i < self.tools.len()
            invariant
                i <= self.tools@.len(),
                ts == entries_view(self.tools@),
                r@.map_values(|p: (String, String)| (p.0@, p.1@)) == primary_pairs(
                    ts.take(i as int),
                ),
            decreases self.tools@.len() - i,
        {
            let ghost before = r@;
            assert(ts.take(i + 1).drop_last() =~= ts.take(i as int));
            let e = &self.tools[i];
            if e.versions.len() > 0 {
                r.push((e.name.clone(), e.versions[0].clone()));
                assert(r@.map_values(|p: (String, String)| (p.0@, p.1@)) =~= before.map_values(
                    |p: (String, String)| (p.0@, p.1@),
                ).push((ts[i as int].name, ts[i as int].versions[0])));
            }
            i = i + 1;
        }
        assert(ts.take(i as int) =~= ts);
        r
    }
}

impl<'a> IntoIterator for &'a ToolVersions {
    type Item = (&'a str, &'a [String]);
    type IntoIter = std::vec::IntoIter<(&'a str, &'a [String])>;

    /// The (name, versions) pairs of the entries, borrowed, in order.
    fn into_iter(self) -> (r: std::vec::IntoIter<(&'a str, &'a [String])>)
        ensures
            vstd::std_specs::iter::IteratorSpec::remaining(&r).map_values(
                |p: (&'a str, &'a [String])| (p.0@, strings_view(p.1@)),
            ) == entry_pairs(self@.tools),
    {
        broadcast use vstd::std_specs::vec::group_vec_axioms;

        let ghost ts = self@.tools;
        let mut v: Vec<(&'a str, &'a [String])> = Vec::new();
        let mut i: usize = 0;
        while i < self.tools.len()
            invariant
                i <= self.tools@.len(),
                ts == entries_view(self.tools@),
                v@.len() == i,
                forall|k: int|
                    0 <= k < i ==> #[trigger] v@[k].0@ == ts[k].name && strings_view(v@[k].1@)
                        == ts[k].versions,
            decreases self.tools@.len() - i,
        {
            let e = &self.tools[i];
            v.push((e.name.as_str(), e.versions.as_slice()));
            i = i + 1;
        }
        assert(v@.map_values(|p: (&'a str, &'a [String])| (p.0@, strings_view(p.1@))) =~= entry_pairs(
            ts,
        ));
        v.into_iter()
    }
}

impl Default for ToolVersions {
    fn default() -> (r: Self)
        ensures
            r@ == ToolVersionsModel::empty(),
    {
        ToolVersions::new()
    }
}

} // verus!
