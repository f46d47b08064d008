//! The text renderer: one line per listed entry, with connectors, an
//! indentation prefix, icons and "(empty)" marks, followed by the contents
//! of the listed files.

use vstd::prelude::*;
use vstd::string::*;
use crate::config::{ConfigView, TraversalConfig};
use crate::filter::{effectively_empty, is_effectively_empty, shown_children, sorted_children};
use crate::snapshot::{EntryKind, Snapshot, SnapshotView};

verus! {

/// The connector in front of an entry: a corner for the last sibling, a tee
/// otherwise.
pub open spec fn connector(last: bool) -> Seq<char> {
    if last {
        "\u{2514}\u{2500}\u{2500}"@
    } else {
        "\u{251c}\u{2500}\u{2500}"@
    }
}

/// What the children of an entry add to the prefix: blanks below the last
/// sibling, a vertical bar otherwise.
pub open spec fn continuation(last: bool) -> Seq<char> {
    if last {
        "   "@
    } else {
        "\u{2502}  "@
    }
}

/// A folder for directories, a page for files.
pub open spec fn icon(is_dir: bool) -> Seq<char> {
    if is_dir {
        "\u{1F4C1}"@
    } else {
        "\u{1F4C4}"@
    }
}

/// The connector glyphs for an entry.
pub fn connector_str(last: bool) -> (r: &'static str)
    ensures
        r@ == connector(last),
{
    if last {
        "\u{2514}\u{2500}\u{2500}"
    } else {
        "\u{251c}\u{2500}\u{2500}"
    }
}

/// The icon for an entry.
pub fn icon_str(is_dir: bool) -> (r: &'static str)
    ensures
        r@ == icon(is_dir),
{
    if is_dir {
        "\u{1F4C1}"
    } else {
        "\u{1F4C4}"
    }
}

/// One rendered line, as values.
pub struct LineView {
    pub prefix: Seq<char>,
    pub last: bool,
    pub is_dir: bool,
    pub empty: bool,
    pub name: Seq<char>,
    pub path: Seq<char>,
}

/// One line of the tree: the entry it shows and how it is drawn.
#[derive(Debug)]
pub struct TreeLine {
    /// Continuation segments of the ancestors.
    pub prefix: String,
    /// Whether the entry is the last of its siblings.
    pub last: bool,
    pub is_dir: bool,
    /// Whether the directory is marked "(empty)".
    pub empty: bool,
    pub name: String,
    pub path: String,
}

impl View for TreeLine {
    type V = LineView;

    open spec fn view(&self) -> LineView {
        LineView {
            prefix: self.prefix@,
            last: self.last,
            is_dir: self.is_dir,
            empty: self.empty,
            name: self.name@,
            path: self.path@,
        }
    }
}

pub open spec fn views(v: Seq<TreeLine>) -> Seq<LineView> {
    v.map_values(|l: TreeLine| l@)
}

/// Whether shown child `c` gets a line: all do, except an effectively
/// empty directory while a file pattern is set.
pub open spec fn drawn(s: SnapshotView, c: int, cfg: ConfigView) -> bool {
    !(s.entry(c).kind == EntryKind::Dir && effectively_empty(s, c, cfg) && cfg.pattern is Some)
}

/// Whether no shown child of `d` after the `j`-th gets a line.
pub open spec fn last_drawn(s: SnapshotView, d: int, j: int, cfg: ConfigView) -> bool {
    forall|m: int|
        j < m < shown_children(s, d, cfg).len() ==> !drawn(
            s,
            #[trigger] shown_children(s, d, cfg)[m] as int,
            cfg,
        )
}

/// The lines for the shown children of `d` from the `j`-th on, each followed
/// by the lines of its own subtree; nothing once `depth` reaches the limit.
pub open spec fn lines_from(
    s: SnapshotView,
    d: int,
    j: int,
    prefix: Seq<char>,
    depth: int,
    cfg: ConfigView,
) -> Seq<LineView>
    decreases s.len() - d, shown_children(s, d, cfg).len() - j,
    when s.wf() && 0 <= d < s.len() && 0 <= j
{
    let kids = shown_children(s, d, cfg);
    if cfg.depth_reached(depth) || j >= kids.len() {
        seq![]
    } else {
        let c = kids[j] as int;
        let last = last_drawn(s, d, j, cfg);
        let is_dir = s.entry(c).kind == EntryKind::Dir;
        let empty = is_dir && effectively_empty(s, c, cfg);
        let rest = lines_from(s, d, j + 1, prefix, depth, cfg);
        if !drawn(s, c, cfg) {
            rest
        } else {
            let line = LineView {
                prefix,
                last,
                is_dir,
                empty,
                name: s.entry(c).name,
                path: s.entry(c).path,
            };
            let below = if is_dir && d < c < s.len() {
                lines_from(s, c, 0, prefix + continuation(last), depth + 1, cfg)
            } else {
                seq![]
            };
            seq![line] + below + rest
        }
    }
}

/// All lines of the tree below the root.
pub open spec fn tree_lines(s: SnapshotView, cfg: ConfigView) -> Seq<LineView> {
    lines_from(s, 0, 0, seq![], 0, cfg)
}

/// Appends the lines of the shown children of `d` (and of their subtrees)
/// to `out`; appends nothing once `depth` reaches the limit.
fn collect_tree_output(
    s: &Snapshot,
    d: usize,
    prefix: &str,
    depth: usize,
    cfg: &TraversalConfig,
    out: &mut Vec<TreeLine>,
)
    requires
        s.wf(),
        d < s@.len(),
        depth + (s@.len() - d) <= usize::MAX,
    ensures
        views(final(out)@) == views(old(out)@) + lines_from(s@, d as int, 0, prefix@, depth as int, cfg@),
    decreases s@.len() - d,
{
    let ghost start = views(out@);
    if let Some(m) = cfg.max_depth {
        if depth >= m {
            assert(views(out@) =~= start + lines_from(s@, d as int, 0, prefix@, depth as int, cfg@));
            return;
        }
    }
    let kids = sorted_children(s, d, cfg);
    let n = kids.len();
    let mut empties: Vec<bool> = Vec::new();
    let mut last_idx: usize = n;
    let mut k: usize = 0;
    while k < n
        invariant
            s.wf(),
            d < s@.len(),
            n == kids@.len(),
            kids@ == shown_children(s@, d as int, cfg@),
            forall|i: int| 0 <= i < kids@.len() ==> d < #[trigger] kids@[i] < s@.len(),
            k <= n,
            empties@.len() == k,
            forall|i: int|
                0 <= i < k ==> #[trigger] empties@[i] == (s@.entry(kids@[i] as int).kind
                    == EntryKind::Dir && effectively_empty(s@, kids@[i] as int, cfg@)),
            last_idx == n || (last_idx < k && drawn(s@, kids@[last_idx as int] as int, cfg@)),
            forall|i: int|
                (if last_idx == n { 0 } else { last_idx + 1 }) <= i < k ==> !drawn(
                    s@,
                    #[trigger] kids@[i] as int,
                    cfg@,
                ),
        decreases n - k,
    {
        let c = kids[k];
        let e = s.entries[c].kind == EntryKind::Dir && is_effectively_empty(s, c, cfg);
        empties.push(e);
        if !(e && cfg.file_glob.is_some()) {
            last_idx = k;
        }
        k = k + 1;
    }
    let mut j: usize = 0;
    while j < n
        invariant
            s.wf(),
            d < s@.len(),
            depth + (s@.len() - d) <= usize::MAX,
            !cfg@.depth_reached(depth as int),
            n == kids@.len(),
            kids@ == shown_children(s@, d as int, cfg@),
            forall|i: int| 0 <= i < kids@.len() ==> d < #[trigger] kids@[i] < s@.len(),
            empties@.len() == n,
            forall|i: int|
                0 <= i < n ==> #[trigger] empties@[i] == (s@.entry(kids@[i] as int).kind
                    == EntryKind::Dir && effectively_empty(s@, kids@[i] as int, cfg@)),
            last_idx == n || (last_idx < n && drawn(s@, kids@[last_idx as int] as int, cfg@)),
            forall|i: int|
                (if last_idx == n { 0 } else { last_idx + 1 }) <= i < n ==> !drawn(
                    s@,
                    #[trigger] kids@[i] as int,
                    cfg@,
                ),
            j <= n,
            start + lines_from(s@, d as int, 0, prefix@, depth as int, cfg@) == views(out@)
                + lines_from(s@, d as int, j as int, prefix@, depth as int, cfg@),
        decreases n - j,
    {
        let c = kids[j];
        let is_dir = s.entries[c].kind == EntryKind::Dir;
        let empty = empties[j];
        let ghost before = views(out@);
        let ghost rest = lines_from(s@, d as int, j + 1, prefix@, depth as int, cfg@);
        if !(empty && cfg.file_glob.is_some()) {
            let last = j == last_idx;
            proof {
                if last {
                    assert(last_drawn(s@, d as int, j as int, cfg@));
                } else {
                    assert(last_idx != n);
                    assert(!drawn(s@, kids@[last_idx as int] as int, cfg@) || j < last_idx);
                    assert(drawn(s@, kids@[last_idx as int] as int, cfg@));
                    assert(!last_drawn(s@, d as int, j as int, cfg@));
                }
            }
            let line = TreeLine {
                prefix: String::from_str(prefix),
                last,
                is_dir,
                empty,
                name: s.entries[c].name.clone(),
                path: s.entries[c].path.clone(),
            };
            out.push(line);
            assert(views(out@) =~= before.push(line@));
            if is_dir {
                let mut next = String::from_str(prefix);
                if last {
                    next.append("   ");
                } else {
                    next.append("\u{2502}  ");
                }
                collect_tree_output(s, c, next.as_str(), depth + 1, cfg, out);
            }
            assert(start + lines_from(s@, d as int, 0, prefix@, depth as int, cfg@) =~= views(out@)
                + rest);
        }
        j = j + 1;
    }
    assert(views(out@) =~= start + lines_from(s@, d as int, 0, prefix@, depth as int, cfg@));
}

/// The lines of the whole tree under the configuration.
pub fn tree_lines_exec(s: &Snapshot, cfg: &TraversalConfig) -> (r: Vec<TreeLine>)
    requires
        s.wf(),
    ensures
        views(r@) == tree_lines(s@, cfg@),
{
    let mut out: Vec<TreeLine> = Vec::new();
    proof {
        reveal_strlit("");
        assert(views(out@) =~= Seq::<LineView>::empty());
        assert(""@ =~= Seq::<char>::empty());
    }
    let len = s.entries.len();
    assert(s@.len() == len);
    collect_tree_output(s, 0, "", 0, cfg, &mut out);
    assert(views(out@) =~= tree_lines(s@, cfg@));
    out
}

/// The plain text of one line.
pub open spec fn line_text(l: LineView) -> Seq<char> {
    l.prefix + connector(l.last) + " "@ + icon(l.is_dir) + " "@ + l.name + (if l.empty {
        " (empty)"@
    } else {
        Seq::empty()
    }) + "\n"@
}

/// The plain text of a sequence of lines, one after the other.
pub open spec fn lines_text(ls: Seq<LineView>) -> Seq<char>
    decreases ls.len(),
{
    if ls.len() == 0 {
        Seq::empty()
    } else {
        lines_text(ls.drop_last()) + line_text(ls.last())
    }
}

/// The heading above a tree.
pub open spec fn heading_text(name: Seq<char>) -> Seq<char> {
    "# Tree structure for `"@ + name + "`"@
}

/// The line that shows the root of a tree.
pub open spec fn root_text(path: Seq<char>) -> Seq<char> {
    icon(true) + " "@ + path
}

/// Whether a path names the current directory through `.` components only
/// (`.`, `./`, `././`, `.//.` and the like).
pub open spec fn is_current_dir(p: Seq<char>) -> bool {
    &&& p.len() > 0 && p[0] == '.'
    &&& forall|i: int| 0 <= i < p.len() ==> #[trigger] p[i] == '.' || p[i] == '/'
    &&& forall|i: int| 0 <= i < p.len() - 1 && #[trigger] p[i] == '.' ==> p[i + 1] == '/'
}

/// The name a tree is headed by: for the current directory the name of the
/// working directory when it has one, otherwise the root's own name.
pub open spec fn dir_name(s: SnapshotView, cwd_name: Option<Seq<char>>) -> Seq<char> {
    if is_current_dir(s.entry(0).path) {
        match cwd_name {
            Some(n) => n,
            None => "."@,
        }
    } else {
        s.entry(0).name
    }
}

/// The plain text of a whole tree: heading, root line and entry lines.
pub open spec fn tree_text(s: SnapshotView, cfg: ConfigView, name: Seq<char>) -> Seq<char> {
    heading_text(name) + "\n"@ + root_text(s.entry(0).path) + "\n"@ + lines_text(
        tree_lines(s, cfg),
    )
}

/// The paths of the files among the lines, in order.
pub open spec fn listed_files(ls: Seq<LineView>) -> Seq<Seq<char>>
    decreases ls.len(),
{
    if ls.len() == 0 {
        seq![]
    } else if ls.last().is_dir {
        listed_files(ls.drop_last())
    } else {
        listed_files(ls.drop_last()).push(ls.last().path)
    }
}

/// A text with a final newline added where it lacks one.
pub open spec fn with_newline(c: Seq<char>) -> Seq<char> {
    if c.len() > 0 && c.last() == '\n' {
        c
    } else {
        c + "\n"@
    }
}

/// One file's block after the tree: a path heading, then the content.
pub open spec fn content_block(path: Seq<char>, content: Seq<char>) -> Seq<char> {
    "# "@ + path + "\n"@ + with_newline(content)
}

pub open spec fn blocks_text(fs: Seq<(Seq<char>, Seq<char>)>) -> Seq<char>
    decreases fs.len(),
{
    if fs.len() == 0 {
        Seq::empty()
    } else {
        blocks_text(fs.drop_last()) + content_block(fs.last().0, fs.last().1)
    }
}

/// The contents section: nothing when no file was read, otherwise a
/// heading and one block per file.
pub open spec fn contents_text(fs: Seq<(Seq<char>, Seq<char>)>) -> Seq<char> {
    if fs.len() == 0 {
        Seq::empty()
    } else {
        "\n# File Contents\n"@ + blocks_text(fs)
    }
}

pub open spec fn pair_views(v: Seq<(String, String)>) -> Seq<(Seq<char>, Seq<char>)> {
    v.map_values(|f: (String, String)| (f.0@, f.1@))
}

pub open spec fn opt_view(o: Option<&str>) -> Option<Seq<char>> {
    match o {
        Some(n) => Some(n@),
        None => None,
    }
}

pub open spec fn string_views(v: Seq<String>) -> Seq<Seq<char>> {
    v.map_values(|p: String| p@)
}

/// The plain text of one line.
pub fn line_string(l: &TreeLine) -> (r: String)
    ensures
        r@ == line_text(l@),
{
    let mut r = String::from_str(l.prefix.as_str());
    if l.last {
        r.append("\u{2514}\u{2500}\u{2500}");
    } else {
        r.append("\u{251c}\u{2500}\u{2500}");
    }
    r.append(" ");
    if l.is_dir {
        r.append("\u{1F4C1}");
    } else {
        r.append("\u{1F4C4}");
    }
    r.append(" ");
    r.append(l.name.as_str());
    if l.empty {
        r.append(" (empty)");
    }
    r.append("\n");
    r
}

/// Whether a text ends with a newline.
fn ends_with_newline(c: &str) -> (r: bool)
    ensures
        r == (c@.len() > 0 && c@.last() == '\n'),
{
    let n = c.unicode_len();
    n > 0 && c.get_char(n - 1) == '\n'
}

/// Whether the path names the current directory through `.` components only.
pub fn names_current_dir(p: &str) -> (r: bool)
    ensures
        r == is_current_dir(p@),
{
    let n = p.unicode_len();
    if n == 0 || p.get_char(0) != '.' {
        return false;
    }
    let mut i: usize = 0;
    while i < n
        invariant
            n == p@.len(),
            i <= n,
            p@[0] == '.',
            forall|k: int| 0 <= k < i ==> #[trigger] p@[k] == '.' || p@[k] == '/',
            forall|k: int| 0 <= k < i && k < n - 1 && #[trigger] p@[k] == '.' ==> p@[k + 1] == '/',
        decreases n - i,
    {
        let c = p.get_char(i);
        if c != '.' && c != '/' {
            return false;
        }
        if c == '.' && i + 1 < n && p.get_char(i + 1) != '/' {
            return false;
        }
        i = i + 1;
    }
    true
}

/// The name a tree is headed by; `cwd_name` is the base name of the
/// working directory, if it has one.
pub fn get_dir_name(s: &Snapshot, cwd_name: Option<&str>) -> (r: String)
    requires
        s.wf(),
    ensures
        r@ == dir_name(s@, opt_view(cwd_name)),
{
    if names_current_dir(s.entries[0].path.as_str()) {
        match cwd_name {
            Some(n) => String::from_str(n),
            None => {
                proof {
                    reveal_strlit(".");
                }
                String::from_str(".")
            },
        }
    } else {
        s.entries[0].name.clone()
    }
}

/// The file paths listed among the lines, in order.
pub fn files_of(lines: &Vec<TreeLine>) -> (r: Vec<String>)
    ensures
        string_views(r@) == listed_files(views(lines@)),
{
    let mut r: Vec<String> = Vec::new();
    let mut i: usize = 0;
    while i < lines.len()
        invariant
            i <= lines@.len(),
            string_views(r@) == listed_files(views(lines@.take(i as int))),
        decreases lines@.len() - i,
    {
        let ghost prev = views(lines@.take(i as int));
        assert(views(lines@.take(i + 1)).drop_last() =~= prev);
        if !lines[i].is_dir {
            r.push(lines[i].path.clone());
        }
        assert(string_views(r@) =~= listed_files(views(lines@.take(i + 1))));
        i = i + 1;
    }
    assert(lines@.take(lines@.len() as int) =~= lines@);
    r
}

/// The contents section for the files that could be read, in order.
pub fn render_file_contents(files: &Vec<(String, String)>) -> (r: String)
    ensures
        r@ == contents_text(pair_views(files@)),
{
    let mut r = String::new();
    if files.len() == 0 {
        return r;
    }
    r.append("\n# File Contents\n");
    let ghost head = r@;
    let mut i: usize = 0;
    while i < files.len()
        invariant
            i <= files@.len(),
            r@ == head + blocks_text(pair_views(files@.take(i as int))),
        decreases files@.len() - i,
    {
        let ghost prev = pair_views(files@.take(i as int));
        assert(pair_views(files@.take(i + 1)).drop_last() =~= prev);
        r.append("# ");
        r.append(files[i].0.as_str());
        r.append("\n");
        r.append(files[i].1.as_str());
        if !ends_with_newline(files[i].1.as_str()) {
            r.append("\n");
        }
        assert(r@ =~= head + blocks_text(pair_views(files@.take(i + 1))));
        i = i + 1;
    }
    assert(files@.take(files@.len() as int) =~= files@);
    r
}

/// A tree rendered as text, with the parts a colored terminal view needs.
pub struct TextReport {
    /// The heading line, without its newline.
    pub heading: String,
    /// The root line, without its newline.
    pub root_line: String,
    pub lines: Vec<TreeLine>,
    /// The listed files, in order, whose contents follow the tree.
    pub files: Vec<String>,
    /// The plain text of heading, root line and entry lines.
    pub text: String,
}

/// Renders the tree of `s` as text. `cwd_name` is the base name of the
/// working directory, used to head a tree rooted at `.`.
pub fn render_text_tree(s: &Snapshot, cfg: &TraversalConfig, cwd_name: Option<&str>) -> (r:
    TextReport)
    requires
        s.wf(),
    ensures
        r.heading@ == heading_text(dir_name(s@, opt_view(cwd_name))),
        r.root_line@ == root_text(s@.entry(0).path),
        views(r.lines@) == tree_lines(s@, cfg@),
        string_views(r.files@) == listed_files(tree_lines(s@, cfg@)),
        r.text@ == tree_text(s@, cfg@, dir_name(s@, opt_view(cwd_name))),
{
    let name = get_dir_name(s, cwd_name);
    let mut heading = String::from_str("# Tree structure for `");
    heading.append(name.as_str());
    heading.append("`");
    let mut root_line = String::from_str("\u{1F4C1}");
    root_line.append(" ");
    root_line.append(s.entries[0].path.as_str());
    let lines = tree_lines_exec(s, cfg);
    let files = files_of(&lines);
    let mut text = String::from_str(heading.as_str());
    text.append("\n");
    text.append(root_line.as_str());
    text.append("\n");
    let ghost head = text@;
    let mut i: usize = 0;
    while i < lines.len()
        invariant
            i <= lines@.len(),
            text@ == head + lines_text(views(lines@.take(i as int))),
        decreases lines@.len() - i,
    {
        assert(views(lines@.take(i + 1)).drop_last() =~= views(lines@.take(i as int)));
        let t = line_string(&lines[i]);
        text.append(t.as_str());
        assert(text@ =~= head + lines_text(views(lines@.take(i + 1))));
        i = i + 1;
    }
    assert(lines@.take(lines@.len() as int) =~= lines@);
    proof {
        assert(text@ =~= tree_text(s@, cfg@, dir_name(s@, opt_view(cwd_name))));
    }
    TextReport { heading, root_line, lines, files, text }
}

/// The path a single file is shown under: `./` and the path relative to
/// the working directory when there is one, otherwise the path as given.
pub fn display_path(given: &str, relative: Option<&str>) -> (r: String)
    ensures
        r@ == match relative {
            Some(rel) => "./"@ + rel@,
            None => given@,
        },
{
    match relative {
        Some(rel) => String::from_str("./").concat(rel),
        None => String::from_str(given),
    }
}

/// A single file's output: its display path on one line, then its content,
/// ending with a newline.
pub fn process_file(display: &str, content: &str) -> (r: String)
    ensures
        r@ == display@ + "\n"@ + with_newline(content@),
{
    let mut r = String::from_str(display);
    r.append("\n");
    r.append(content);
    if !ends_with_newline(content) {
        r.append("\n");
    }
    r
}

/// The width of the rule between the outputs of several paths.
pub const SEPARATOR_WIDTH: usize = 80;

/// The text between the outputs of two consecutive paths: a rule of `#`
/// on a line of its own, with a blank line before it.
pub fn input_separator() -> (r: String)
    ensures
        r@ == "\n"@ + Seq::new(SEPARATOR_WIDTH as nat, |i: int| '#') + "\n"@,
{
    let mut r = String::from_str("\n");
    let ghost head = r@;
    let mut i: usize = 0;
    while i < SEPARATOR_WIDTH
        invariant
            i <= SEPARATOR_WIDTH,
            r@ == head + Seq::new(i as nat, |k: int| '#'),
        decreases SEPARATOR_WIDTH - i,
    {
        proof {
            reveal_strlit("#");
        }
        r.append("#");
        assert(r@ =~= head + Seq::new((i + 1) as nat, |k: int| '#'));
        i = i + 1;
    }
    r.append("\n");
    r
}

} // verus!
