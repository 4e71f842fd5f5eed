//! The mathematical model of a `.tool-versions` document: what a text
//! parses to, what each edit does to it, and what text it renders to.
use vstd::prelude::*;

use crate::text::{hash_pos, is_plain_word, is_valid_tool_name, is_ws, lines, strip_cr, trim, words};

verus! {

/// A tool and its versions, the first of which is the one in use.
pub struct EntryModel {
    pub name: Seq<char>,
    pub versions: Seq<Seq<char>>,
}

/// One line of a document.
pub enum LineModel {
    /// A tool line: its entry, and the comment after its versions (from
    /// the first `#` to the end of the line, without trailing whitespace),
    /// empty when the line has none.
    Tool(EntryModel, Seq<char>),
    /// A line whose first non-blank character is `#`, kept as written.
    Comment(Seq<char>),
    /// A line of whitespace only.
    Empty,
}

/// A document: its lines as read (or edited), and the tools it sets, in
/// the order they first appear. A document read from text names each tool
/// once, and the edits keep it so.
pub struct ToolVersionsModel {
    pub lines: Seq<LineModel>,
    pub tools: Seq<EntryModel>,
}

/// Why a text failed to parse: the line (counted from 1) and a message.
pub struct ParseFailure {
    pub line: nat,
    pub message: Seq<char>,
}

/// The views of a sequence of strings.
pub open spec fn strings_view(v: Seq<String>) -> Seq<Seq<char>> {
    v.map_values(|s: String| s@)
}

/// The index of the first entry named `name`, if any.
pub open spec fn index_of_tool(ts: Seq<EntryModel>, name: Seq<char>) -> Option<int>
    decreases ts.len(),
{
    if ts.len() == 0 {
        None
    } else {
        match index_of_tool(ts.drop_last(), name) {
            Some(i) => Some(i),
            None => if ts.last().name == name {
                Some(ts.len() - 1)
            } else {
                None
            },
        }
    }
}

/// Whether `l` is a tool line for `name`.
pub open spec fn is_tool_line_named(l: LineModel, name: Seq<char>) -> bool {
    l matches LineModel::Tool(e, _) && e.name == name
}

/// The index of the first tool line for `name`, if any.
pub open spec fn index_of_tool_line(ls: Seq<LineModel>, name: Seq<char>) -> Option<int>
    decreases ls.len(),
{
    if ls.len() == 0 {
        None
    } else {
        match index_of_tool_line(ls.drop_last(), name) {
            Some(i) => Some(i),
            None => if is_tool_line_named(ls.last(), name) {
                Some(ls.len() - 1)
            } else {
                None
            },
        }
    }
}

/// The lines that are not tool lines for `name`, in order.
pub open spec fn without_tool_lines(ls: Seq<LineModel>, name: Seq<char>) -> Seq<LineModel>
    decreases ls.len(),
{
    if ls.len() == 0 {
        seq![]
    } else {
        let rest = without_tool_lines(ls.drop_last(), name);
        if is_tool_line_named(ls.last(), name) {
            rest
        } else {
            rest.push(ls.last())
        }
    }
}

/// The entries of the tool lines of `ms`, each name kept at its first
/// occurrence only.
pub open spec fn tools_of(ms: Seq<LineModel>) -> Seq<EntryModel>
    decreases ms.len(),
{
    if ms.len() == 0 {
        seq![]
    } else {
        let ts = tools_of(ms.drop_last());
        match ms.last() {
            LineModel::Tool(e, _) => if index_of_tool(ts, e.name) is Some {
                ts
            } else {
                ts.push(e)
            },
            _ => ts,
        }
    }
}

/// The entries of `t1`, followed by those of `t2` whose names `t1` does not
/// set, in order.
pub open spec fn merge_tools(t1: Seq<EntryModel>, t2: Seq<EntryModel>) -> Seq<EntryModel>
    decreases t2.len(),
{
    if t2.len() == 0 {
        t1
    } else {
        let r = merge_tools(t1, t2.drop_last());
        if index_of_tool(t1, t2.last().name) is Some {
            r
        } else {
            r.push(t2.last())
        }
    }
}

/// The line at `k` is a tool line, and no line before it is a tool line
/// for the same name.
pub open spec fn is_first_tool_line(ls: Seq<LineModel>, k: int) -> bool {
    &&& ls[k] is Tool
    &&& forall|j: int| 0 <= j < k ==> !is_tool_line_named(ls[j], ls[k]->Tool_0.name)
}

/// The line at `k` is writable, or it is the first tool line for its name
/// and has a writable comment (its entry may not be writable).
pub open spec fn is_writable_but_entry(ls: Seq<LineModel>, k: int) -> bool {
    ||| is_writable_line(ls[k])
    ||| is_first_tool_line(ls, k) && is_writable_comment(tool_comment(ls[k]))
}

/// An edit of a document: setting a tool's versions, or removing a tool.
pub enum EditModel {
    SetVersions(Seq<char>, Seq<Seq<char>>),
    Remove(Seq<char>),
}

/// The document after the edits, one after another.
pub open spec fn apply_edits(m: ToolVersionsModel, edits: Seq<EditModel>) -> ToolVersionsModel
    decreases edits.len(),
{
    if edits.len() == 0 {
        m
    } else {
        apply_edits(m, edits.drop_last()).apply(edits.last())
    }
}

/// What one line parses to, `num` being its number.
///
/// A blank line is `Empty`; a line whose first non-blank character is `#` is
/// a comment; otherwise the text before the first `#` is split into words,
/// the first being the tool name and the rest its versions, and the text
/// from the first `#` on is the line's comment.
pub open spec fn parse_line(line: Seq<char>, num: nat) -> Result<LineModel, ParseFailure> {
    let t = trim(line);
    if t.len() == 0 {
        Ok(LineModel::Empty)
    } else if t[0] == '#' {
        Ok(LineModel::Comment(line))
    } else {
        let h = hash_pos(t);
        let ws = words(t.take(h));
        if ws.len() == 0 {
            Err(ParseFailure { line: num, message: "empty tool name"@ })
        } else if !is_valid_tool_name(ws[0]) {
            Err(ParseFailure { line: num, message: "invalid tool name: "@ + ws[0] })
        } else if ws.len() == 1 {
            Err(ParseFailure { line: num, message: "no version specified for tool: "@ + ws[0] })
        } else {
            Ok(LineModel::Tool(EntryModel { name: ws[0], versions: ws.drop_first() }, t.skip(h)))
        }
    }
}

/// What a sequence of lines parses to: the first failure, by line number,
/// or every line's result.
pub open spec fn parse_lines(ls: Seq<Seq<char>>) -> Result<Seq<LineModel>, ParseFailure>
    decreases ls.len(),
{
    if ls.len() == 0 {
        Ok(seq![])
    } else {
        match parse_lines(ls.drop_last()) {
            Err(f) => Err(f),
            Ok(ms) => match parse_line(ls.last(), ls.len()) {
                Ok(m) => Ok(ms.push(m)),
                Err(f) => Err(f),
            },
        }
    }
}

/// What a whole text parses to.
pub open spec fn parse_text(content: Seq<char>) -> Result<ToolVersionsModel, ParseFailure> {
    match parse_lines(lines(content)) {
        Ok(ms) => Ok(ToolVersionsModel { lines: ms, tools: tools_of(ms) }),
        Err(f) => Err(f),
    }
}

/// Words joined by single spaces.
pub open spec fn join_words(vs: Seq<Seq<char>>) -> Seq<char>
    decreases vs.len(),
{
    if vs.len() == 0 {
        seq![]
    } else if vs.len() == 1 {
        vs[0]
    } else {
        join_words(vs.drop_last()) + seq![' '] + vs.last()
    }
}

/// The text of an entry: its name, a space, and its versions joined by
/// spaces.
pub open spec fn entry_text(e: EntryModel) -> Seq<char> {
    e.name + seq![' '] + join_words(e.versions)
}

/// The text of a tool line: its entry's text, then, if it has a comment,
/// a space and the comment.
pub open spec fn tool_line_text(e: EntryModel, c: Seq<char>) -> Seq<char> {
    if c.len() == 0 {
        entry_text(e)
    } else {
        entry_text(e) + seq![' '] + c
    }
}

/// The comment of a tool line; empty for other lines.
pub open spec fn tool_comment(l: LineModel) -> Seq<char> {
    match l {
        LineModel::Tool(_, c) => c,
        _ => seq![],
    }
}

/// The text of a line, without its line ending.
pub open spec fn line_text(l: LineModel) -> Seq<char> {
    match l {
        LineModel::Tool(e, c) => tool_line_text(e, c),
        LineModel::Comment(c) => c,
        LineModel::Empty => seq![],
    }
}

/// Lines rendered one after another, each ended by `\n`.
pub open spec fn render_lines(ls: Seq<LineModel>) -> Seq<char>
    decreases ls.len(),
{
    if ls.len() == 0 {
        seq![]
    } else {
        render_lines(ls.drop_last()) + line_text(ls.last()) + seq!['\n']
    }
}

/// Entries rendered one after another, each ended by `\n`.
pub open spec fn render_entries(ts: Seq<EntryModel>) -> Seq<char>
    decreases ts.len(),
{
    if ts.len() == 0 {
        seq![]
    } else {
        render_entries(ts.drop_last()) + entry_text(ts.last()) + seq!['\n']
    }
}

/// The text a line of a file is written back as: a blank line becomes
/// empty, a comment line stays as it is, and a tool line becomes its words
/// before the first `#` joined by single spaces, followed, if it has a `#`,
/// by a space and the rest of the line from that `#`, without trailing
/// whitespace.
pub open spec fn canonical_line(l: Seq<char>) -> Seq<char> {
    let t = trim(l);
    if t.len() == 0 {
        seq![]
    } else if t[0] == '#' {
        l
    } else {
        let h = hash_pos(t);
        let c = t.skip(h);
        if c.len() == 0 {
            join_words(words(t.take(h)))
        } else {
            join_words(words(t.take(h))) + seq![' '] + c
        }
    }
}

/// Lines written back one after another, each ended by `\n`.
pub open spec fn canonical_text(ls: Seq<Seq<char>>) -> Seq<char>
    decreases ls.len(),
{
    if ls.len() == 0 {
        seq![]
    } else {
        canonical_text(ls.drop_last()) + canonical_line(ls.last()) + seq!['\n']
    }
}

impl ToolVersionsModel {
    /// The document with no lines and no tools.
    pub open spec fn empty() -> Self {
        ToolVersionsModel { lines: seq![], tools: seq![] }
    }

    /// The entry for `name`, if the document sets that tool.
    pub open spec fn entry(self, name: Seq<char>) -> Option<EntryModel> {
        match index_of_tool(self.tools, name) {
            Some(i) => Some(self.tools[i]),
            None => None,
        }
    }

    /// The version in use for `name`: the first of its versions.
    pub open spec fn version(self, name: Seq<char>) -> Option<Seq<char>> {
        match self.entry(name) {
            Some(e) => if e.versions.len() > 0 {
                Some(e.versions[0])
            } else {
                None
            },
            None => None,
        }
    }

    /// The tools are the tools of the lines: every tool line names a tool
    /// of the document, each tool has the entry of its first tool line, and
    /// the tools come in the order of their first lines. Every document read
    /// from text, or built from the empty one by edits, is consistent.
    pub open spec fn is_consistent(self) -> bool {
        self.tools == tools_of(self.lines)
    }

    /// Every tool line names a tool of the document. Consistent documents
    /// have this, and so do documents without lines.
    pub open spec fn tool_lines_named(self) -> bool {
        forall|name: Seq<char>|
            #[trigger] index_of_tool_line(self.lines, name) is Some ==> index_of_tool(
                self.tools,
                name,
            ) is Some
    }

    /// Every line is writable, except that the first tool line for a name
    /// may hold an entry that is not, as long as its comment is writable.
    /// Documents read from text have this, and edits keep it; such a
    /// document is writable once all its tools are.
    pub open spec fn writable_but_entries(self) -> bool {
        forall|k: int| 0 <= k < self.lines.len() ==> #[trigger] is_writable_but_entry(self.lines, k)
    }

    /// The document after an edit.
    pub open spec fn apply(self, edit: EditModel) -> Self {
        match edit {
            EditModel::SetVersions(name, versions) => self.set_versions(name, versions),
            EditModel::Remove(name) => self.remove(name),
        }
    }

    /// Each tool is named once.
    pub open spec fn names_distinct(self) -> bool {
        forall|i: int, j: int|
            0 <= i < j < self.tools.len() ==> self.tools[i].name != self.tools[j].name
    }

    /// The document after setting the versions of `name`: an existing entry
    /// is replaced in place, together with the first tool line for it (which
    /// keeps its comment); a new one is appended, with a new tool line at the
    /// end.
    pub open spec fn set_versions(self, name: Seq<char>, versions: Seq<Seq<char>>) -> Self {
        let e = EntryModel { name, versions };
        match index_of_tool(self.tools, name) {
            Some(i) => ToolVersionsModel {
                lines: match index_of_tool_line(self.lines, name) {
                    Some(j) => self.lines.update(j, LineModel::Tool(e, tool_comment(self.lines[j]))),
                    None => self.lines,
                },
                tools: self.tools.update(i, e),
            },
            None => ToolVersionsModel {
                lines: self.lines.push(LineModel::Tool(e, seq![])),
                tools: self.tools.push(e),
            },
        }
    }

    /// The document after removing `name`: its first entry and every tool
    /// line for it go; comments and blank lines stay.
    pub open spec fn remove(self, name: Seq<char>) -> Self {
        match index_of_tool(self.tools, name) {
            Some(i) => ToolVersionsModel {
                lines: without_tool_lines(self.lines, name),
                tools: self.tools.remove(i),
            },
            None => self,
        }
    }

    /// The text of the document: its lines, or, when it has none, its
    /// entries.
    pub open spec fn render(self) -> Seq<char> {
        if self.lines.len() == 0 {
            render_entries(self.tools)
        } else {
            render_lines(self.lines)
        }
    }
}

/// A failure in a prefix of the lines is the failure of all of them.
pub proof fn lemma_parse_lines_prefix_err(ls: Seq<Seq<char>>, k: int)
    requires
        0 <= k <= ls.len(),
        parse_lines(ls.take(k)) is Err,
    ensures
        parse_lines(ls) == parse_lines(ls.take(k)),
    decreases ls.len(),
{
    if k == ls.len() {
        assert(ls.take(k) =~= ls);
    } else {
        let p = ls.drop_last();
        assert(p.take(k) =~= ls.take(k));
        lemma_parse_lines_prefix_err(p, k);
    }
}

/// An entry that reads back as itself from its text: a valid name and one
/// or more plain words as versions.
pub open spec fn is_writable_entry(e: EntryModel) -> bool {
    &&& is_valid_tool_name(e.name)
    &&& e.versions.len() > 0
    &&& forall|k: int| 0 <= k < e.versions.len() ==> #[trigger] is_plain_word(e.versions[k])
}

/// A tool line's comment that reads back as itself: empty, or starting
/// with `#`, ending with a non-blank character and holding no `\n`.
pub open spec fn is_writable_comment(c: Seq<char>) -> bool {
    c.len() == 0 || {
        &&& c[0] == '#'
        &&& !is_ws(c.last())
        &&& forall|i: int| 0 <= i < c.len() ==> c[i] != '\n'
    }
}

/// A line that reads back from its text: a writable entry with a writable
/// comment, a comment line whose first non-blank character is `#` and that
/// holds no `\n`, or a blank line.
pub open spec fn is_writable_line(l: LineModel) -> bool {
    match l {
        LineModel::Tool(e, c) => is_writable_entry(e) && is_writable_comment(c),
        LineModel::Comment(c) => {
            &&& trim(c).len() > 0
            &&& trim(c)[0] == '#'
            &&& forall|i: int| 0 <= i < c.len() ==> c[i] != '\n'
        },
        LineModel::Empty => true,
    }
}

/// What a line reads back as from its text: a comment loses a final `\r`,
/// since the text ends it with `\n`.
pub open spec fn reread_line(l: LineModel) -> LineModel {
    match l {
        LineModel::Comment(c) => LineModel::Comment(strip_cr(c)),
        _ => l,
    }
}

impl ToolVersionsModel {
    /// A document whose text reads back: with lines, every line is
    /// writable and the tools are those of the lines; without lines, the
    /// tools are writable and named once each.
    pub open spec fn is_writable(self) -> bool {
        if self.lines.len() == 0 {
            &&& self.names_distinct()
            &&& forall|k: int| 0 <= k < self.tools.len() ==> #[trigger] is_writable_entry(self.tools[k])
        } else {
            &&& forall|k: int| 0 <= k < self.lines.len() ==> #[trigger] is_writable_line(self.lines[k])
            &&& self.tools == tools_of(self.lines)
        }
    }

    /// The document that the text of a writable document reads back as:
    /// the same tools, and the same lines (a document without lines gains
    /// one tool line per entry).
    pub open spec fn reread(self) -> Self {
        if self.lines.len() == 0 {
            ToolVersionsModel {
                lines: self.tools.map_values(|e: EntryModel| LineModel::Tool(e, seq![])),
                tools: self.tools,
            }
        } else {
            ToolVersionsModel {
                lines: self.lines.map_values(|l: LineModel| reread_line(l)),
                tools: self.tools,
            }
        }
    }
}

/// A tool name and its versions, as plain sequences.
pub open spec fn pair_view(p: (String, Vec<String>)) -> (Seq<char>, Seq<Seq<char>>) {
    (p.0@, strings_view(p.1@))
}

/// The views of a sequence of (name, versions) pairs.
pub open spec fn pairs_view(ps: Seq<(String, Vec<String>)>) -> Seq<(Seq<char>, Seq<Seq<char>>)> {
    ps.map_values(|p: (String, Vec<String>)| pair_view(p))
}

/// The views of a sequence of (name, version) pairs, each version taken as
/// the only one of its tool.
pub open spec fn single_pairs_view(ps: Seq<(String, String)>) -> Seq<(Seq<char>, Seq<Seq<char>>)> {
    ps.map_values(|p: (String, String)| (p.0@, seq![p.1@]))
}

/// The entries as (name, versions) pairs.
pub open spec fn entry_pairs(ts: Seq<EntryModel>) -> Seq<(Seq<char>, Seq<Seq<char>>)> {
    ts.map_values(|e: EntryModel| (e.name, e.versions))
}

/// The entries that have a version, as (name, version in use) pairs.
pub open spec fn primary_pairs(ts: Seq<EntryModel>) -> Seq<(Seq<char>, Seq<char>)>
    decreases ts.len(),
{
    if ts.len() == 0 {
        seq![]
    } else {
        let rest = primary_pairs(ts.drop_last());
        if ts.last().versions.len() > 0 {
            rest.push((ts.last().name, ts.last().versions[0]))
        } else {
            rest
        }
    }
}

/// The document after setting each pair's versions in turn.
pub open spec fn extend_model(
    m: ToolVersionsModel,
    ps: Seq<(Seq<char>, Seq<Seq<char>>)>,
) -> ToolVersionsModel
    decreases ps.len(),
{
    if ps.len() == 0 {
        m
    } else {
        extend_model(m, ps.drop_last()).set_versions(ps.last().0, ps.last().1)
    }
}

/// Characterizes `index_of_tool` as the least index with that name.
pub proof fn lemma_index_of_tool(ts: Seq<EntryModel>, name: Seq<char>)
    ensures
        match index_of_tool(ts, name) {
            Some(i) => {
                &&& 0 <= i < ts.len()
                &&& ts[i].name == name
                &&& forall|j: int| 0 <= j < i ==> ts[j].name != name
            },
            None => forall|j: int| 0 <= j < ts.len() ==> ts[j].name != name,
        },
    decreases ts.len(),
{
    if ts.len() > 0 {
        let p = ts.drop_last();
        lemma_index_of_tool(p, name);
        assert(forall|j: int| 0 <= j < p.len() ==> p[j] == ts[j]);
    }
}

/// Characterizes `index_of_tool_line` as the least index of a tool line for
/// that name.
pub proof fn lemma_index_of_tool_line(ls: Seq<LineModel>, name: Seq<char>)
    ensures
        match index_of_tool_line(ls, name) {
            Some(i) => {
                &&& 0 <= i < ls.len()
                &&& is_tool_line_named(ls[i], name)
                &&& forall|j: int| 0 <= j < i ==> !is_tool_line_named(ls[j], name)
            },
            None => forall|j: int| 0 <= j < ls.len() ==> !is_tool_line_named(ls[j], name),
        },
    decreases ls.len(),
{
    if ls.len() > 0 {
        let p = ls.drop_last();
        lemma_index_of_tool_line(p, name);
        assert(forall|j: int| 0 <= j < p.len() ==> p[j] == ls[j]);
    }
}

/// `index_of_tool` is fixed by the least-index property.
pub proof fn lemma_index_of_tool_is(ts: Seq<EntryModel>, name: Seq<char>, i: int)
    requires
        0 <= i < ts.len(),
        ts[i].name == name,
        forall|j: int| 0 <= j < i ==> ts[j].name != name,
    ensures
        index_of_tool(ts, name) == Some(i),
{
    lemma_index_of_tool(ts, name);
    match index_of_tool(ts, name) {
        Some(k) => {
            if k < i {
                assert(ts[k].name != name);
            } else if k > i {
                assert(ts[i].name != name);
            }
        },
        None => {
            assert(ts[i].name != name);
        },
    }
}

/// `index_of_tool` is `None` exactly when no entry has that name.
pub proof fn lemma_index_of_tool_none(ts: Seq<EntryModel>, name: Seq<char>)
    requires
        forall|j: int| 0 <= j < ts.len() ==> ts[j].name != name,
    ensures
        index_of_tool(ts, name) is None,
{
    lemma_index_of_tool(ts, name);
}

/// `index_of_tool_line` is fixed by the least-index property.
pub proof fn lemma_index_of_tool_line_is(ls: Seq<LineModel>, name: Seq<char>, i: int)
    requires
        0 <= i < ls.len(),
        is_tool_line_named(ls[i], name),
        forall|j: int| 0 <= j < i ==> !is_tool_line_named(ls[j], name),
    ensures
        index_of_tool_line(ls, name) == Some(i),
{
    lemma_index_of_tool_line(ls, name);
    match index_of_tool_line(ls, name) {
        Some(k) => {
            if k < i {
                assert(!is_tool_line_named(ls[k], name));
            } else if k > i {
                assert(!is_tool_line_named(ls[i], name));
            }
        },
        None => {
            assert(!is_tool_line_named(ls[i], name));
        },
    }
}

} // verus!
