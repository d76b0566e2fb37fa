//! Multi-file profile model: groups of files, files, and their entries.
use vstd::prelude::*;

use std::collections::HashSet;
use std::path::PathBuf;

use crate::config::path_resolver::{
    collapse_home, derive_file_display_in_group, group_file_label, home_dir_text, opt_text,
    resolved_files, tilde_collapse_with, ResolvedPattern,
};
use crate::model::entry::{code_name, comment_name, Entry, EntryType, ParseResult};
use crate::model::shell::ShellType;
use crate::parser::{shell_parse_ok, Parser, ShellParser};
use crate::parser::layout::{
    entry_covers, lemma_tiles_push, lemma_tiles_stable, lemma_tiles_text, span_text, tiles,
    values_text,
};
use crate::text::{
    copy_string, count_char_chars, join_with, lemma_join_split, lemma_split_on_nonempty, split_on, str_chars,
};

verus! {

broadcast use vstd::std_specs::hash::group_hash_axioms;

#[verifier::external_type_specification]
#[verifier::external_body]
pub struct ExPathBuf(std::path::PathBuf);

/// `Path::to_string_lossy` of a path, as a `String`. The text depends on the
/// platform's path encoding; nothing is stated of it here.
#[verifier::external_body]
pub(crate) fn path_text(p: &PathBuf) -> String {
    p.to_string_lossy().to_string()
}

/// `Path::file_name` of a path, as text (`OsStr::to_string_lossy`); `None`
/// when the path ends in `..` or is a root. Nothing more is stated of it.
#[verifier::external_body]
pub(crate) fn path_file_name_text(p: &PathBuf) -> Option<String> {
    match p.file_name() {
        Some(n) => Some(n.to_string_lossy().into_owned()),
        None => None,
    }
}

/// Item in the flat visible list for navigation.
#[derive(Debug, Clone, Copy, PartialEq, Eq, Structural)]
pub enum ListItem {
    /// Index into `ShellProfile::tree` (a group).
    DirHeader(usize),
    /// Index into `ShellProfile::files`.
    FileHeader(usize),
    /// File index and entry index.
    Entry(usize, usize),
}

/// A single configuration file with its parsed entries.
pub struct ProfileFile {
    pub path: PathBuf,
    pub entries: Vec<Entry>,
    pub content: String,
    pub expanded: bool,
    pub dirty: bool,
    pub exists: bool,
    pub writable: bool,
    /// Display string (may carry a "(varname)" suffix).
    pub display_label: String,
}

/// Top-level tree node: a group of files, or a standalone file.
pub enum TreeNode {
    Dir(DirGroup),
    /// Index into `ShellProfile::files`.
    File(usize),
}

/// A group bundling the files of one pattern (glob, directory or variable).
pub struct DirGroup {
    pub source_pattern: String,
    pub display_label: String,
    pub file_indices: Vec<usize>,
    pub expanded: bool,
}

/// The files of one shell, arranged as a tree.
pub struct ShellProfile {
    pub shell_type: ShellType,
    pub files: Vec<ProfileFile>,
    pub tree: Vec<TreeNode>,
}

// ---------------------------------------------------------------------------
// Line numbers of a file's entries
// ---------------------------------------------------------------------------

/// The lines of the text the entries write, one entry after the other.
pub open spec fn flat_lines(es: Seq<Entry>) -> Seq<Seq<char>>
    decreases es.len(),
{
    if es.len() == 0 {
        Seq::empty()
    } else {
        flat_lines(es.drop_last()) + split_on(es.last().value@, '\n')
    }
}

/// `e` spans the lines `s ..= t`.
pub open spec fn spans(e: Entry, s: nat, t: nat) -> bool {
    &&& e.line_number is Some
    &&& e.line_number->0 == s
    &&& e.end_line is Some
    &&& e.end_line->0 == t
}

/// Each entry spans the lines its value takes in the written text.
pub open spec fn renumbered(es: Seq<Entry>) -> bool {
    forall|i: int|
        0 <= i < es.len() ==> spans(
            #[trigger] es[i],
            flat_lines(es.take(i)).len() + 1,
            flat_lines(es.take(i + 1)).len(),
        )
}

/// The name an entry gets when renumbered to the lines `s ..= t`.
pub open spec fn renumbered_name(e: Entry, s: nat, t: nat) -> Seq<char> {
    match e.entry_type {
        EntryType::Comment => comment_name(s, t),
        EntryType::Code => code_name(s, t),
        _ => e.name@,
    }
}

/// The values of two lists of entries are the same.
pub open spec fn same_values(a: Seq<Entry>, b: Seq<Entry>) -> bool {
    a.len() == b.len() && forall|i: int| 0 <= i < a.len() ==> (#[trigger] a[i]).value@ == b[i].value@
}

pub proof fn lemma_flat_lines_values(a: Seq<Entry>, b: Seq<Entry>)
    requires
        same_values(a, b),
    ensures
        flat_lines(a) == flat_lines(b),
    decreases a.len(),
{
    if a.len() > 0 {
        lemma_flat_lines_values(a.drop_last(), b.drop_last());
    }
}

pub proof fn lemma_flat_lines_step(es: Seq<Entry>, i: int)
    requires
        0 <= i < es.len(),
    ensures
        flat_lines(es.take(i + 1)) == flat_lines(es.take(i)) + split_on(es[i].value@, '\n'),
        flat_lines(es.take(i + 1)).len() == flat_lines(es.take(i)).len() + split_on(
            es[i].value@,
            '\n',
        ).len(),
{
    assert(es.take(i + 1).drop_last() =~= es.take(i));
}

/// Tilings stay valid when lines are appended after them.
pub proof fn lemma_tiles_append(es: Seq<Entry>, pieces: Seq<Seq<char>>, more: Seq<Seq<char>>, k: int)
    requires
        tiles(es, pieces, k),
        k <= pieces.len(),
    ensures
        tiles(es, pieces + more, k),
    decreases more.len(),
{
    if more.len() == 0 {
        assert(pieces + more =~= pieces);
    } else {
        lemma_tiles_append(es, pieces, more.drop_last(), k);
        lemma_tiles_stable(es, pieces + more.drop_last(), more.last(), k);
        assert((pieces + more.drop_last()).push(more.last()) =~= pieces + more);
    }
}

/// Renumbered entries cover the lines of the text they write, one after
/// the other, each holding its lines; so their line numbers are the lines
/// where they stand in the file that formatting them writes.
pub proof fn law_renumbered_entries_tile(es: Seq<Entry>)
    requires
        renumbered(es),
    ensures
        tiles(es, flat_lines(es), flat_lines(es).len() as int),
        values_text(es) == join_with(flat_lines(es), '\n'),
    decreases es.len(),
{
    if es.len() > 0 {
        let n = es.len() - 1;
        let d = es.drop_last();
        assert(renumbered(d)) by {
            assert forall|i: int| 0 <= i < d.len() implies spans(
                #[trigger] d[i],
                flat_lines(d.take(i)).len() + 1,
                flat_lines(d.take(i + 1)).len(),
            ) by {
                assert(d.take(i) =~= es.take(i));
                assert(d.take(i + 1) =~= es.take(i + 1));
                assert(es[i] == d[i]);
            }
        }
        law_renumbered_entries_tile(d);
        let e = es.last();
        let sp = split_on(e.value@, '\n');
        let lo = flat_lines(d).len() as int;
        assert(es.take(n) =~= d);
        assert(es.take(n + 1) =~= es);
        assert(spans(es[n], (lo + 1) as nat, flat_lines(es).len()));
        lemma_split_on_nonempty(e.value@, '\n');
        lemma_tiles_append(d, flat_lines(d), sp, lo);
        assert(flat_lines(es) == flat_lines(d) + sp);
        assert(flat_lines(es).subrange(lo, flat_lines(es).len() as int) =~= sp);
        lemma_join_split(e.value@, '\n');
        assert(entry_covers(e, flat_lines(es), lo, flat_lines(es).len() as int));
        lemma_tiles_push(d, e, flat_lines(es), lo, flat_lines(es).len() as int);
        assert(d.push(e) =~= es);
    }
    lemma_tiles_text(es, flat_lines(es), flat_lines(es).len() as int);
    assert(flat_lines(es).take(flat_lines(es).len() as int) =~= flat_lines(es));
}

impl ProfileFile {
    pub fn new(path: PathBuf, exists: bool, display_label: String) -> (r: Self)
        ensures
            r.path == path,
            r.entries@.len() == 0,
            r.content@.len() == 0,
            !r.expanded,
            !r.dirty,
            r.exists == exists,
            r.writable,
            r.display_label == display_label,
    {
        ProfileFile {
            path,
            entries: Vec::new(),
            content: String::new(),
            expanded: false,
            dirty: false,
            exists,
            writable: true,
            display_label,
        }
    }

    /// A file that exists, holding the given entries; its label is the path.
    pub fn new_with_entries(path: PathBuf, entries: Vec<Entry>, expanded: bool) -> (r: Self)
        ensures
            r.path == path,
            r.entries == entries,
            r.content@.len() == 0,
            r.expanded == expanded,
            !r.dirty,
            r.exists,
            r.writable,
    {
        let display_label = path_text(&path);
        ProfileFile {
            path,
            entries,
            content: String::new(),
            expanded,
            dirty: false,
            exists: true,
            writable: true,
            display_label,
        }
    }

    /// The name shown for the file: its display label when it has one, else
    /// its path with the user's home directory written as `~`.
    pub fn display_name(&self) -> (r: String)
        ensures
            self.display_label@.len() > 0 ==> r@ == self.display_label@,
            self.display_label@.len() == 0 ==> exists|text: Seq<char>, home: Option<Seq<char>>|
                r@ == collapse_home(text, home),
    {
        let label = str_chars(self.display_label.as_str());
        if label.len() > 0 {
            return copy_string(&self.display_label);
        }
        let text = path_text(&self.path);
        let home = home_dir_text();
        let r = match &home {
            Some(h) => tilde_collapse_with(text.as_str(), Some(h.as_str())),
            None => tilde_collapse_with(text.as_str(), None),
        };
        assert(r@ == collapse_home(text@, opt_text(home)));
        r
    }

    pub fn entry_count(&self) -> (r: usize)
        ensures
            r == self.entries@.len(),
    {
        self.entries.len()
    }

    /// Recalculate the line numbers, end lines, and (for comments and code)
    /// the names of all entries, as they stand one after the other in the
    /// written file.
    pub fn recalculate_line_numbers(&mut self)
        requires
            flat_lines(old(self).entries@).len() + 1 < usize::MAX,
        ensures
            renumbered(final(self).entries@),
            final(self).entries@.len() == old(self).entries@.len(),
            forall|i: int|
                0 <= i < final(self).entries@.len() ==> {
                    let e = #[trigger] final(self).entries@[i];
                    let o = old(self).entries@[i];
                    &&& e.entry_type == o.entry_type
                    &&& e.value == o.value
                    &&& e.name@ == renumbered_name(
                        o,
                        e.line_number->0 as nat,
                        e.end_line->0 as nat,
                    )
                },
            final(self).path == old(self).path,
            final(self).content == old(self).content,
            final(self).expanded == old(self).expanded,
            final(self).dirty == old(self).dirty,
            final(self).exists == old(self).exists,
            final(self).writable == old(self).writable,
            final(self).display_label == old(self).display_label,
    {
        let ghost old_es = self.entries@;
        let n = self.entries.len();
        let mut current_line: usize = 1;
        let mut i: usize = 0;
        while i < n
            invariant
                n == old_es.len(),
                self.entries@.len() == n,
                i <= n,
                flat_lines(old_es).len() + 1 < usize::MAX,
                current_line == flat_lines(old_es.take(i as int)).len() + 1,
                forall|k: int|
                    0 <= k < n ==> (#[trigger] self.entries@[k]).value == old_es[k].value
                        && self.entries@[k].entry_type == old_es[k].entry_type,
                forall|k: int| i <= k < n ==> #[trigger] self.entries@[k] == old_es[k],
                forall|k: int|
                    0 <= k < i ==> spans(
                        #[trigger] self.entries@[k],
                        flat_lines(old_es.take(k)).len() + 1,
                        flat_lines(old_es.take(k + 1)).len(),
                    ) && self.entries@[k].name@ == renumbered_name(
                        old_es[k],
                        self.entries@[k].line_number->0 as nat,
                        self.entries@[k].end_line->0 as nat,
                    ),
                self.path == old(self).path,
                self.content == old(self).content,
                self.expanded == old(self).expanded,
                self.dirty == old(self).dirty,
                self.exists == old(self).exists,
                self.writable == old(self).writable,
                self.display_label == old(self).display_label,
            decreases n - i,
        {
            let mut entry = self.entries.remove(i);
            let ghost oe = entry;
            proof {
                lemma_flat_lines_step(old_es, i as int);
                lemma_split_on_nonempty(oe.value@, '\n');
                crate::parser::layout::lemma_flat_prefix_len(old_es, i + 1);
            }
            let v = str_chars(entry.value.as_str());
            let line_count = count_char_chars(v.as_slice(), '\n') + 1;
            entry.line_number = Some(current_line);
            let end = current_line + line_count - 1;
            entry.end_line = if end > current_line {
                Some(end)
            } else {
                entry.line_number
            };
            proof {
                reveal_strlit("#L");
                reveal_strlit("L");
            }
            match entry.entry_type {
                EntryType::Comment => {
                    entry.name = crate::model::entry::make_range_name("#L", current_line, end);
                },
                EntryType::Code => {
                    entry.name = crate::model::entry::make_range_name("L", current_line, end);
                },
                _ => {},
            }
            self.entries.insert(i, entry);
            current_line = end + 1;
            i = i + 1;
        }
        proof {
            let es = self.entries@;
            assert(same_values(es, old_es));
            assert forall|i: int| 0 <= i < es.len() implies spans(
                #[trigger] es[i],
                flat_lines(es.take(i)).len() + 1,
                flat_lines(es.take(i + 1)).len(),
            ) by {
                assert(same_values(es.take(i), old_es.take(i)));
                assert(same_values(es.take(i + 1), old_es.take(i + 1)));
                lemma_flat_lines_values(es.take(i), old_es.take(i));
                lemma_flat_lines_values(es.take(i + 1), old_es.take(i + 1));
            }
        }
    }
}

// ---------------------------------------------------------------------------
// The visible list
// ---------------------------------------------------------------------------

/// Items concatenated.
pub open spec fn concat_items(parts: Seq<Seq<ListItem>>) -> Seq<ListItem>
    decreases parts.len(),
{
    if parts.len() == 0 {
        Seq::empty()
    } else {
        concat_items(parts.drop_last()) + parts.last()
    }
}

/// A file's header, then its entries when it is expanded.
pub open spec fn file_items(files: Seq<ProfileFile>, fi: usize) -> Seq<ListItem> {
    seq![ListItem::FileHeader(fi)] + if files[fi as int].expanded {
        Seq::new(files[fi as int].entries@.len(), |ei: int| ListItem::Entry(fi, ei as usize))
    } else {
        Seq::empty()
    }
}

/// The files of a group that are kept, with their items.
pub open spec fn group_items(files: Seq<ProfileFile>, fis: Seq<usize>, keep: spec_fn(usize) -> bool) -> Seq<ListItem>
    decreases fis.len(),
{
    if fis.len() == 0 {
        Seq::empty()
    } else {
        group_items(files, fis.drop_last(), keep) + if keep(fis.last()) {
            file_items(files, fis.last())
        } else {
            Seq::empty()
        }
    }
}

/// The items of tree node `ti`, keeping the files `keep` accepts; when
/// `filtered`, a group without a kept file is left out.
pub open spec fn node_items(p: ShellProfile, ti: int, keep: spec_fn(usize) -> bool, filtered: bool) -> Seq<ListItem> {
    match p.tree@[ti] {
        TreeNode::Dir(g) => if !filtered || exists|k: int| 0 <= k < g.file_indices@.len() && keep(g.file_indices@[k]) {
            seq![ListItem::DirHeader(ti as usize)] + if g.expanded {
                group_items(p.files@, g.file_indices@, keep)
            } else {
                Seq::empty()
            }
        } else {
            Seq::empty()
        },
        TreeNode::File(fi) => if keep(fi) {
            file_items(p.files@, fi)
        } else {
            Seq::empty()
        },
    }
}

/// The visible items of the first `m` tree nodes.
pub open spec fn visible_items(p: ShellProfile, m: int, keep: spec_fn(usize) -> bool, filtered: bool) -> Seq<ListItem>
    decreases m,
{
    if m <= 0 {
        Seq::empty()
    } else {
        visible_items(p, m - 1, keep, filtered) + node_items(p, m - 1, keep, filtered)
    }
}

/// Whether an item of the full visible list stays in the list filtered to
/// the files `m`: a file's header and entries stay when the file is in `m`;
/// a group's header stays when one of the group's files is.
pub open spec fn shown_in(p: ShellProfile, m: Set<usize>, item: ListItem) -> bool {
    match item {
        ListItem::DirHeader(ti) => match p.tree@[ti as int] {
            TreeNode::Dir(g) => exists|k: int| 0 <= k < g.file_indices@.len() && m.contains(g.file_indices@[k]),
            TreeNode::File(_) => false,
        },
        ListItem::FileHeader(fi) => m.contains(fi),
        ListItem::Entry(fi, _) => m.contains(fi),
    }
}

/// Filtering a list whose items all pass, or all fail, keeps all or none.
proof fn lemma_filter_uniform(s: Seq<ListItem>, pred: spec_fn(ListItem) -> bool, b: bool)
    requires
        forall|i: int| 0 <= i < s.len() ==> pred(#[trigger] s[i]) == b,
    ensures
        s.filter(pred) == (if b {
            s
        } else {
            Seq::<ListItem>::empty()
        }),
    decreases s.len(),
{
    reveal(Seq::filter);
    if s.len() > 0 {
        assert forall|i: int| 0 <= i < s.drop_last().len() implies pred(#[trigger] s.drop_last()[i]) == b by {
            assert(s.drop_last()[i] == s[i]);
        }
        lemma_filter_uniform(s.drop_last(), pred, b);
        assert(pred(s.last()) == b);
        if b {
            assert(s.drop_last().push(s.last()) =~= s);
        }
    }
}

/// A group's items, all files kept, filtered to the files `m`, are its
/// items keeping the files in `m`.
proof fn lemma_group_filter(p: ShellProfile, m: Set<usize>, fis: Seq<usize>)
    ensures
        group_items(p.files@, fis, |fi: usize| true).filter(|it: ListItem| shown_in(p, m, it)) == group_items(
            p.files@,
            fis,
            |fi: usize| m.contains(fi),
        ),
    decreases fis.len(),
{
    let pred = |it: ListItem| shown_in(p, m, it);
    if fis.len() == 0 {
        reveal(Seq::filter);
    } else {
        lemma_group_filter(p, m, fis.drop_last());
        let a = group_items(p.files@, fis.drop_last(), |fi: usize| true);
        let b = file_items(p.files@, fis.last());
        Seq::filter_distributes_over_add(a, b, pred);
        assert forall|i: int| 0 <= i < b.len() implies pred(#[trigger] b[i]) == m.contains(fis.last()) by {
            if i > 0 {
                assert(b[i] == ListItem::Entry(fis.last(), (i - 1) as usize));
            } else {
                assert(b[i] == ListItem::FileHeader(fis.last()));
            }
        }
        lemma_filter_uniform(b, pred, m.contains(fis.last()));
    }
}

/// A group none of whose files are kept has no items.
proof fn lemma_group_none(files: Seq<ProfileFile>, fis: Seq<usize>, keep: spec_fn(usize) -> bool)
    requires
        forall|k: int| 0 <= k < fis.len() ==> !keep(#[trigger] fis[k]),
    ensures
        group_items(files, fis, keep) == Seq::<ListItem>::empty(),
    decreases fis.len(),
{
    if fis.len() > 0 {
        assert forall|k: int| 0 <= k < fis.drop_last().len() implies !keep(#[trigger] fis.drop_last()[k]) by {
            assert(fis.drop_last()[k] == fis[k]);
        }
        lemma_group_none(files, fis.drop_last(), keep);
        assert(!keep(fis[fis.len() - 1]));
    }
}

/// The visible items of the first `k` nodes, filtered to the files `m`.
proof fn lemma_visible_filter(p: ShellProfile, m: Set<usize>, k: int)
    requires
        0 <= k <= p.tree@.len(),
        p.tree@.len() <= usize::MAX,
    ensures
        visible_items(p, k, |fi: usize| true, false).filter(|it: ListItem| shown_in(p, m, it)) == visible_items(
            p,
            k,
            |fi: usize| m.contains(fi),
            true,
        ),
    decreases k,
{
    let pred = |it: ListItem| shown_in(p, m, it);
    let all = |fi: usize| true;
    let keep = |fi: usize| m.contains(fi);
    if k <= 0 {
        reveal(Seq::filter);
    } else {
        let t = k - 1;
        lemma_visible_filter(p, m, t);
        let a = visible_items(p, t, all, false);
        let b = node_items(p, t, all, false);
        Seq::filter_distributes_over_add(a, b, pred);
        match p.tree@[t] {
            TreeNode::Dir(g) => {
                let head = seq![ListItem::DirHeader(t as usize)];
                let rest = if g.expanded {
                    group_items(p.files@, g.file_indices@, all)
                } else {
                    Seq::empty()
                };
                assert(b == head + rest);
                Seq::filter_distributes_over_add(head, rest, pred);
                let shown = exists|j: int| 0 <= j < g.file_indices@.len() && m.contains(g.file_indices@[j]);
                assert(pred(ListItem::DirHeader(t as usize)) == shown);
                lemma_filter_uniform(head, pred, shown);
                if g.expanded {
                    lemma_group_filter(p, m, g.file_indices@);
                    if !shown {
                        lemma_group_none(p.files@, g.file_indices@, keep);
                    }
                } else {
                    reveal(Seq::filter);
                }
            },
            TreeNode::File(fi) => {
                assert forall|i: int| 0 <= i < b.len() implies pred(#[trigger] b[i]) == m.contains(fi) by {
                    if i > 0 {
                        assert(b[i] == ListItem::Entry(fi, (i - 1) as usize));
                    }
                }
                lemma_filter_uniform(b, pred, m.contains(fi));
            },
        }
    }
}

/// The visible list filtered to a set of files is the full visible list
/// with every item left out that `shown_in` refuses: the headers and
/// entries of the other files, and the headers of groups none of whose
/// files is in the set. (The tree, a `Vec`, holds at most `usize::MAX`
/// nodes.)
pub proof fn law_filtered_list_is_a_filter(p: ShellProfile, m: Set<usize>)
    requires
        p.tree@.len() <= usize::MAX,
    ensures
        visible_items(p, p.tree@.len() as int, |fi: usize| m.contains(fi), true) == visible_items(
            p,
            p.tree@.len() as int,
            |fi: usize| true,
            false,
        ).filter(|it: ListItem| shown_in(p, m, it)),
{
    lemma_visible_filter(p, m, p.tree@.len() as int);
}

/// Every file index in the tree names a file.
pub open spec fn tree_ok(p: ShellProfile) -> bool {
    forall|ti: int|
        0 <= ti < p.tree@.len() ==> match #[trigger] p.tree@[ti] {
            TreeNode::Dir(g) => forall|k: int|
                0 <= k < g.file_indices@.len() ==> #[trigger] g.file_indices@[k] < p.files@.len(),
            TreeNode::File(fi) => fi < p.files@.len(),
        }
}

/// Total number of entries of the files.
pub open spec fn entries_total(files: Seq<ProfileFile>) -> nat
    decreases files.len(),
{
    if files.len() == 0 {
        0
    } else {
        entries_total(files.drop_last()) + files.last().entries@.len()
    }
}

/// Appends a file's items.
fn push_file_items(items: &mut Vec<ListItem>, files: &Vec<ProfileFile>, fi: usize)
    requires
        fi < files@.len(),
    ensures
        final(items)@ == old(items)@ + file_items(files@, fi),
{
    items.push(ListItem::FileHeader(fi));
    let ghost mid = items@;
    if files[fi].expanded {
        let n = files[fi].entries.len();
        let mut ei: usize = 0;
        while ei < n
            invariant
                ei <= n,
                n == files@[fi as int].entries@.len(),
                items@ == mid + Seq::new(ei as nat, |k: int| ListItem::Entry(fi, k as usize)),
            decreases n - ei,
        {
            items.push(ListItem::Entry(fi, ei));
            assert(items@ =~= mid + Seq::new((ei + 1) as nat, |k: int| ListItem::Entry(fi, k as usize)));
            ei = ei + 1;
        }
    }
    assert(items@ =~= old(items)@ + file_items(files@, fi));
}

impl ShellProfile {
    /// The flat list of visible items: group headers, file headers, and the
    /// entries of expanded files, following the tree.
    pub fn build_visible_list(&self) -> (r: Vec<ListItem>)
        requires
            tree_ok(*self),
        ensures
            r@ == visible_items(*self, self.tree@.len() as int, |fi: usize| true, false),
    {
        let ghost keep = |fi: usize| true;
        let mut items: Vec<ListItem> = Vec::new();
        let mut ti: usize = 0;
        while ti < self.tree.len()
            invariant
                ti <= self.tree@.len(),
                tree_ok(*self),
                keep == (|fi: usize| true),
                items@ == visible_items(*self, ti as int, keep, false),
            decreases self.tree@.len() - ti,
        {
            let ghost before = items@;
            match &self.tree[ti] {
                TreeNode::Dir(g) => {
                    items.push(ListItem::DirHeader(ti));
                    if g.expanded {
                        let mut k: usize = 0;
                        while k < g.file_indices.len()
                            invariant
                                k <= g.file_indices@.len(),
                                forall|j: int| 0 <= j < g.file_indices@.len() ==> #[trigger] g.file_indices@[j] < self.files@.len(),
                                keep == (|fi: usize| true),
                                items@ == before + seq![ListItem::DirHeader(ti)] + group_items(self.files@, g.file_indices@.take(k as int), keep),
                            decreases g.file_indices@.len() - k,
                        {
                            assert(g.file_indices@.take(k + 1).drop_last() =~= g.file_indices@.take(k as int));
                            let fi = g.file_indices[k];
                            push_file_items(&mut items, &self.files, fi);
                            k = k + 1;
                        }
                        assert(g.file_indices@.take(k as int) =~= g.file_indices@);
                    }
                },
                TreeNode::File(fi) => {
                    push_file_items(&mut items, &self.files, *fi);
                },
            }
            assert(items@ =~= visible_items(*self, ti + 1, keep, false));
            ti = ti + 1;
        }
        items
    }

    /// The visible list restricted to the files in `matched_files`; a group
    /// shows only when one of its files matches.
    pub fn build_visible_list_filtered(&self, matched_files: &HashSet<usize>) -> (r: Vec<ListItem>)
        requires
            tree_ok(*self),
        ensures
            r@ == visible_items(
                *self,
                self.tree@.len() as int,
                |fi: usize| matched_files@.contains(fi),
                true,
            ),
    {
        let ghost keep = |fi: usize| matched_files@.contains(fi);
        let mut items: Vec<ListItem> = Vec::new();
        let mut ti: usize = 0;
        while ti < self.tree.len()
            invariant
                ti <= self.tree@.len(),
                tree_ok(*self),
                keep == (|fi: usize| matched_files@.contains(fi)),
                items@ == visible_items(*self, ti as int, keep, true),
            decreases self.tree@.len() - ti,
        {
            let ghost before = items@;
            match &self.tree[ti] {
                TreeNode::Dir(g) => {
                    let mut any_match = false;
                    let mut k: usize = 0;
                    while k < g.file_indices.len()
                        invariant
                            k <= g.file_indices@.len(),
                            keep == (|fi: usize| matched_files@.contains(fi)),
                            any_match == exists|j: int| 0 <= j < k && keep(g.file_indices@[j]),
                        decreases g.file_indices@.len() - k,
                    {
                        if matched_files.contains(&g.file_indices[k]) {
                            any_match = true;
                        }
                        k = k + 1;
                    }
                    if any_match {
                        items.push(ListItem::DirHeader(ti));
                        if g.expanded {
                            let mut k: usize = 0;
                            while k < g.file_indices.len()
                                invariant
                                    k <= g.file_indices@.len(),
                                    forall|j: int| 0 <= j < g.file_indices@.len() ==> #[trigger] g.file_indices@[j] < self.files@.len(),
                                    keep == (|fi: usize| matched_files@.contains(fi)),
                                    items@ == before + seq![ListItem::DirHeader(ti)] + group_items(self.files@, g.file_indices@.take(k as int), keep),
                                decreases g.file_indices@.len() - k,
                            {
                                assert(g.file_indices@.take(k + 1).drop_last() =~= g.file_indices@.take(k as int));
                                let fi = g.file_indices[k];
                                if matched_files.contains(&fi) {
                                    push_file_items(&mut items, &self.files, fi);
                                }
                                k = k + 1;
                            }
                            assert(g.file_indices@.take(k as int) =~= g.file_indices@);
                        }
                    }
                },
                TreeNode::File(fi) => {
                    if matched_files.contains(fi) {
                        push_file_items(&mut items, &self.files, *fi);
                    }
                },
            }
            assert(items@ =~= visible_items(*self, ti + 1, keep, true));
            ti = ti + 1;
        }
        items
    }

    /// Total number of entries over all files.
    pub fn total_entries(&self) -> (r: usize)
        requires
            entries_total(self.files@) <= usize::MAX,
        ensures
            r == entries_total(self.files@),
    {
        let mut total: usize = 0;
        let mut i: usize = 0;
        while i < self.files.len()
            invariant
                i <= self.files@.len(),
                total == entries_total(self.files@.take(i as int)),
                entries_total(self.files@) <= usize::MAX,
            decreases self.files@.len() - i,
        {
            assert(self.files@.take(i + 1).drop_last() =~= self.files@.take(i as int));
            proof {
                lemma_entries_total_prefix(self.files@, i + 1);
            }
            total = total + self.files[i].entries.len();
            i = i + 1;
        }
        assert(self.files@.take(i as int) =~= self.files@);
        total
    }

    /// Whether some file has unsaved changes.
    pub fn any_dirty(&self) -> (r: bool)
        ensures
            r == exists|i: int| 0 <= i < self.files@.len() && #[trigger] self.files@[i].dirty,
    {
        let mut i: usize = 0;
        while i < self.files.len()
            invariant
                i <= self.files@.len(),
                forall|k: int| 0 <= k < i ==> !(#[trigger] self.files@[k]).dirty,
            decreases self.files@.len() - i,
        {
            if self.files[i].dirty {
                return true;
            }
            i = i + 1;
        }
        false
    }

    /// The files with unsaved changes, in order.
    pub fn dirty_files(&self) -> (r: Vec<&ProfileFile>)
        ensures
            r@.len() == self.files@.filter(|f: ProfileFile| f.dirty).len(),
            forall|k: int|
                0 <= k < r@.len() ==> *(#[trigger] r@[k]) == self.files@.filter(
                    |f: ProfileFile| f.dirty,
                )[k],
    {
        let mut out: Vec<&ProfileFile> = Vec::new();
        let mut i: usize = 0;
        while i < self.files.len()
            invariant
                i <= self.files@.len(),
                out@.len() == self.files@.take(i as int).filter(|f: ProfileFile| f.dirty).len(),
                forall|k: int|
                    0 <= k < out@.len() ==> *(#[trigger] out@[k]) == self.files@.take(
                        i as int,
                    ).filter(|f: ProfileFile| f.dirty)[k],
            decreases self.files@.len() - i,
        {
            proof {
                reveal(Seq::filter);
                assert(self.files@.take(i + 1).drop_last() =~= self.files@.take(i as int));
            }
            if self.files[i].dirty {
                out.push(&self.files[i]);
            }
            i = i + 1;
        }
        assert(self.files@.take(i as int) =~= self.files@);
        proof {
            reveal(Seq::filter);
        }
        out
    }

    /// Expand or collapse every file and group.
    pub fn toggle_all(&mut self, expanded: bool)
        ensures
            final(self).shell_type == old(self).shell_type,
            final(self).files@.len() == old(self).files@.len(),
            forall|i: int|
                0 <= i < final(self).files@.len() ==> {
                    let f = #[trigger] final(self).files@[i];
                    let o = old(self).files@[i];
                    f == (ProfileFile { expanded, ..o })
                },
            final(self).tree@.len() == old(self).tree@.len(),
            forall|i: int|
                0 <= i < final(self).tree@.len() ==> #[trigger] final(self).tree@[i] == match old(
                    self,
                ).tree@[i] {
                    TreeNode::Dir(g) => TreeNode::Dir((DirGroup { expanded, ..g })),
                    TreeNode::File(fi) => TreeNode::File(fi),
                },
    {
        let ghost of = self.files@;
        let ghost ot = self.tree@;
        let n = self.files.len();
        let mut i: usize = 0;
        while i < n
            invariant
                n == of.len(),
                self.files@.len() == n,
                i <= n,
                self.tree@ == ot,
                self.shell_type == old(self).shell_type,
                of == old(self).files@,
                forall|k: int| 0 <= k < i ==> #[trigger] self.files@[k] == (ProfileFile { expanded, ..of[k] }),
                forall|k: int| i <= k < n ==> #[trigger] self.files@[k] == of[k],
            decreases n - i,
        {
            let mut f = self.files.remove(i);
            f.expanded = expanded;
            self.files.insert(i, f);
            i = i + 1;
        }
        let m = self.tree.len();
        let mut j: usize = 0;
        while j < m
            invariant
                m == ot.len(),
                self.tree@.len() == m,
                j <= m,
                ot == old(self).tree@,
                self.shell_type == old(self).shell_type,
                self.files@.len() == n,
                n == old(self).files@.len(),
                forall|k: int| 0 <= k < n ==> #[trigger] self.files@[k] == (ProfileFile { expanded, ..old(self).files@[k] }),
                forall|k: int| 0 <= k < j ==> #[trigger] self.tree@[k] == match ot[k] {
                    TreeNode::Dir(g) => TreeNode::Dir((DirGroup { expanded, ..g })),
                    TreeNode::File(fi) => TreeNode::File(fi),
                },
                forall|k: int| j <= k < m ==> #[trigger] self.tree@[k] == ot[k],
            decreases m - j,
        {
            let node = self.tree.remove(j);
            let node2 = match node {
                TreeNode::Dir(g) => {
                    let mut g2 = g;
                    g2.expanded = expanded;
                    TreeNode::Dir(g2)
                },
                TreeNode::File(fi) => TreeNode::File(fi),
            };
            self.tree.insert(j, node2);
            j = j + 1;
        }
    }

    /// A profile where every file is a top-level node of its own.
    pub fn from_files(shell_type: ShellType, files: Vec<ProfileFile>) -> (r: Self)
        ensures
            r.shell_type == shell_type,
            r.files == files,
            r.tree@.len() == files@.len(),
            forall|i: int| 0 <= i < r.tree@.len() ==> #[trigger] r.tree@[i] == TreeNode::File(i as usize),
            tree_ok(r),
    {
        let n = files.len();
        let mut tree: Vec<TreeNode> = Vec::new();
        let mut i: usize = 0;
        while i < n
            invariant
                i <= n,
                tree@.len() == i,
                forall|k: int| 0 <= k < i ==> #[trigger] tree@[k] == TreeNode::File(k as usize),
            decreases n - i,
        {
            tree.push(TreeNode::File(i));
            i = i + 1;
        }
        ShellProfile { shell_type, files, tree }
    }
}

// ---------------------------------------------------------------------------
// Assembling a profile from resolved patterns
// ---------------------------------------------------------------------------

/// A file just made for `path`: nothing read yet, folded, unchanged.
pub open spec fn fresh_file(f: ProfileFile, path: PathBuf, exists: bool) -> bool {
    &&& f.path == path
    &&& f.exists == exists
    &&& f.entries@.len() == 0
    &&& f.content@.len() == 0
    &&& !f.expanded
    &&& !f.dirty
    &&& f.writable
}

/// The file's label is that of a file found through the pattern `original`
/// (for some path text, home directory and file name).
#[verifier::opaque]
pub open spec fn group_labelled(f: ProfileFile, original: Seq<char>) -> bool {
    exists|t: Seq<char>, h: Option<Seq<char>>, n: Seq<char>|
        f.display_label@ == group_file_label(t, original, h, n)
}

/// The node, with the files from index `base` on, stands for the pattern `p`:
/// a file pattern is a top-level file under the pattern's label; a group
/// pattern is a folded group, labelled and sourced by the pattern, holding
/// its files in order.
pub open spec fn node_for(node: TreeNode, p: ResolvedPattern, files: Seq<ProfileFile>, base: int) -> bool {
    match p {
        ResolvedPattern::File { display, .. } => {
            &&& node == TreeNode::File(base as usize)
            &&& files[base].display_label == display
        },
        ResolvedPattern::Dir { original, display, files: fs } => match node {
            TreeNode::Dir(g) => {
                &&& g.source_pattern == original
                &&& g.display_label == display
                &&& !g.expanded
                &&& g.file_indices@.len() == fs@.len()
                &&& forall|j: int|
                    0 <= j < fs@.len() ==> #[trigger] g.file_indices@[j] == base + j
                        && group_labelled(files[base + j], original@)
            },
            TreeNode::File(_) => false,
        },
    }
}

/// The indices the nodes name are below `n`.
pub open spec fn indices_below(tree: Seq<TreeNode>, n: nat) -> bool {
    forall|ti: int|
        0 <= ti < tree.len() ==> match #[trigger] tree[ti] {
            TreeNode::Dir(g) => forall|k: int|
                0 <= k < g.file_indices@.len() ==> #[trigger] g.file_indices@[k] < n,
            TreeNode::File(fi) => fi < n,
        }
}

/// The profile that resolved patterns make before any file is read: one
/// fresh file for each resolved file, in order, and one node for each
/// pattern.
pub open spec fn assembled_from(p: ShellProfile, shell_type: ShellType, r: Seq<ResolvedPattern>) -> bool {
    let all = resolved_files(r);
    &&& p.shell_type == shell_type
    &&& p.files@.len() == all.len()
    &&& p.tree@.len() == r.len()
    &&& forall|k: int| 0 <= k < all.len() ==> fresh_file(#[trigger] p.files@[k], all[k].0, all[k].1)
    &&& forall|i: int|
        0 <= i < r.len() ==> node_for(
            #[trigger] p.tree@[i],
            r[i],
            p.files@,
            resolved_files(r.take(i)).len() as int,
        )
}

/// The elements of `v`, last first, and `v` emptied.
fn reversed<T>(v: Vec<T>) -> (r: Vec<T>)
    ensures
        r@ == v@.reverse(),
{
    let ghost all = v@;
    let mut rest = v;
    let mut rev: Vec<T> = Vec::new();
    while rest.len() > 0
        invariant
            all == rest@ + rev@.reverse(),
        decreases rest@.len(),
    {
        let ghost rest_before = rest@;
        let x = rest.pop().unwrap();
        let ghost before = rev@;
        rev.push(x);
        assert(rev@.reverse() =~= seq![x] + before.reverse());
        assert(rest_before =~= rest@.push(x));
        assert(all =~= rest@ + rev@.reverse());
    }
    assert(all =~= rev@.reverse());
    assert(rev@ =~= all.reverse());
    rev
}

/// Appends the files of a group, each labelled through the group's pattern,
/// and gives their indices.
fn push_group_files(
    files: &mut Vec<ProfileFile>,
    dir_files: Vec<(PathBuf, bool)>,
    original: &str,
) -> (ix: Vec<usize>)
    ensures
        final(files)@.len() == old(files)@.len() + dir_files@.len(),
        forall|k: int| 0 <= k < old(files)@.len() ==> #[trigger] final(files)@[k] == old(files)@[k],
        ix@.len() == dir_files@.len(),
        forall|j: int| 0 <= j < dir_files@.len() ==> #[trigger] ix@[j] == old(files)@.len() + j,
        forall|j: int|
            #![trigger dir_files@[j]]
            0 <= j < dir_files@.len() ==> fresh_file(
                final(files)@[old(files)@.len() + j],
                dir_files@[j].0,
                dir_files@[j].1,
            ),
        forall|k: int|
            old(files)@.len() <= k < final(files)@.len() ==> group_labelled(#[trigger] final(files)@[k], original@),
{
    let ghost start = files@;
    let ghost all = dir_files@;
    let mut rev = reversed(dir_files);
    assert(all =~= rev@.reverse()) by {
        assert(rev@.reverse() =~= all.reverse().reverse());
    }
    let mut ix: Vec<usize> = Vec::new();
    let ghost mut done: Seq<(PathBuf, bool)> = Seq::empty();
    while rev.len() > 0
        invariant
            all == done + rev@.reverse(),
            files@.len() == start.len() + done.len(),
            forall|k: int| 0 <= k < start.len() ==> #[trigger] files@[k] == start[k],
            ix@.len() == done.len(),
            forall|j: int|
                0 <= j < done.len() ==> {
                    &&& #[trigger] ix@[j] == start.len() + j
                    &&& fresh_file(files@[start.len() + j], done[j].0, done[j].1)
                    &&& group_labelled(files@[start.len() + j], original@)
                },
        decreases rev@.len(),
    {
        let ghost rev_before = rev@;
        let (path, exists) = rev.pop().unwrap();
        let ghost item = (path, exists);
        assert(rev_before =~= rev@.push(item));
        assert(rev_before.reverse() =~= seq![item] + rev@.reverse());
        let label = derive_file_display_in_group(&path, original);
        let fi = files.len();
        let f = ProfileFile::new(path, exists, label);
        assert(group_labelled(f, original@)) by {
            reveal(group_labelled);
        }
        let ghost old_files = files@;
        let ghost old_ix = ix@;
        files.push(f);
        ix.push(fi);
        let ghost next = done.push(item);
        assert forall|j: int| 0 <= j < next.len() implies {
            &&& #[trigger] ix@[j] == start.len() + j
            &&& fresh_file(files@[start.len() + j], next[j].0, next[j].1)
            &&& group_labelled(files@[start.len() + j], original@)
        } by {
            if j < done.len() {
                assert(ix@[j] == old_ix[j]);
                assert(files@[start.len() + j] == old_files[start.len() + j]);
                assert(next[j] == done[j]);
            } else {
                assert(files@[start.len() + j] == f);
            }
        }
        proof {
            done = next;
        }
        assert(all =~= done + rev@.reverse());
    }
    assert(done =~= all);
    assert forall|j: int|
        #![trigger all[j]]
        0 <= j < all.len() implies fresh_file(files@[start.len() + j], all[j].0, all[j].1) by {
        assert(ix@[j] == start.len() + j);
        assert(done[j] == all[j]);
    }
    assert forall|k: int| start.len() <= k < files@.len() implies group_labelled(#[trigger] files@[k], original@) by {
        let j = k - start.len();
        assert(ix@[j] == start.len() + j);
    }
    ix
}

impl ProfileFile {
    /// Takes the file's content and the entries `parser` reads in it.
    pub fn load_content(&mut self, parser: &ShellParser, content: String)
        requires
            parser.accepts(content@),
        ensures
            exists|r: ParseResult|
                shell_parse_ok(*parser, content@, r) && final(self).entries == r.entries,
            final(self).content == content,
            final(self).path == old(self).path,
            final(self).expanded == old(self).expanded,
            final(self).dirty == old(self).dirty,
            final(self).exists == old(self).exists,
            final(self).writable == old(self).writable,
            final(self).display_label == old(self).display_label,
    {
        let r = parser.parse(content.as_str());
        let ghost gr = r;
        self.entries = r.entries;
        self.content = content;
        assert(shell_parse_ok(*parser, content@, gr) && self.entries == gr.entries);
    }
}

impl ShellProfile {
    /// The profile that resolved patterns make, before any file is read (see
    /// `assembled_from`).
    pub fn from_resolved(shell_type: ShellType, resolved: Vec<ResolvedPattern>) -> (r: Self)
        ensures
            assembled_from(r, shell_type, resolved@),
            tree_ok(r),
    {
        let ghost all = resolved@;
        let mut rev = reversed(resolved);
        assert(all =~= rev@.reverse()) by {
            assert(rev@.reverse() =~= all.reverse().reverse());
        }
        let mut files: Vec<ProfileFile> = Vec::new();
        let mut tree: Vec<TreeNode> = Vec::new();
        let ghost mut done: Seq<ResolvedPattern> = Seq::empty();
        while rev.len() > 0
            invariant
                all == done + rev@.reverse(),
                files@.len() == resolved_files(done).len(),
                tree@.len() == done.len(),
                forall|k: int|
                    0 <= k < files@.len() ==> fresh_file(
                        #[trigger] files@[k],
                        resolved_files(done)[k].0,
                        resolved_files(done)[k].1,
                    ),
                forall|i: int|
                    0 <= i < done.len() ==> node_for(
                        #[trigger] tree@[i],
                        done[i],
                        files@,
                        resolved_files(done.take(i)).len() as int,
                    ),
                indices_below(tree@, files@.len()),
            decreases rev@.len(),
        {
            let ghost rev_before = rev@;
            let ghost old_files = files@;
            let ghost old_tree = tree@;
            let p = rev.pop().unwrap();
            let ghost gp = p;
            assert(rev_before =~= rev@.push(gp));
            assert(rev_before.reverse() =~= seq![gp] + rev@.reverse());
            let ghost next = done.push(gp);
            assert(next.drop_last() =~= done);
            assert forall|i: int| 0 <= i < done.len() implies #[trigger] next.take(i) == done.take(i) by {
                assert(next.take(i) =~= done.take(i));
            }
            assert(next.take(done.len() as int) =~= done);
            let ghost base = old_files.len() as int;
            proof {
                assert forall|i: int| 0 <= i < done.len() implies node_for(
                    #[trigger] old_tree[i],
                    next[i],
                    old_files,
                    resolved_files(next.take(i)).len() as int,
                ) && #[trigger] resolved_files(next.take(i)).len() + node_size(next[i]) <= base by {
                    assert(next[i] == done[i]);
                    assert(next.take(i) == done.take(i));
                    lemma_resolved_prefix_len(done, i);
                }
            }
            match p {
                ResolvedPattern::File { original: _, display, path, exists } => {
                    let ghost gpath = path;
                    let fi = files.len();
                    let f = ProfileFile::new(path, exists, display);
                    let ghost gf = f;
                    files.push(f);
                    tree.push(TreeNode::File(fi));
                    assert(resolved_files(next) =~= resolved_files(done).push((gpath, exists)));
                    assert(files@[base] == gf);
                },
                ResolvedPattern::Dir { original, display, files: dir_files } => {
                    let ghost gdir = dir_files@;
                    let ix = push_group_files(&mut files, dir_files, original.as_str());
                    let ghost gix = ix@;
                    tree.push(
                        TreeNode::Dir(
                            DirGroup {
                                source_pattern: original,
                                display_label: display,
                                file_indices: ix,
                                expanded: false,
                            },
                        ),
                    );
                    assert(resolved_files(next) =~= resolved_files(done) + gdir);
                    assert forall|k: int| base <= k < files@.len() implies fresh_file(
                        #[trigger] files@[k],
                        resolved_files(next)[k].0,
                        resolved_files(next)[k].1,
                    ) by {
                        let j = k - base;
                        assert(gix[j] == base + j);
                        assert(resolved_files(next)[k] == gdir[j]);
                    }
                },
            }
            assert forall|k: int| 0 <= k < base implies #[trigger] files@[k] == old_files[k] by {}
            assert forall|i: int| 0 <= i < next.len() implies node_for(
                #[trigger] tree@[i],
                next[i],
                files@,
                resolved_files(next.take(i)).len() as int,
            ) by {
                if i < done.len() {
                    assert(tree@[i] == old_tree[i]);
                    lemma_node_for_extend(old_tree[i], next[i], old_files, files@, resolved_files(next.take(i)).len() as int);
                } else {
                    assert(next.take(i) =~= done);
                }
            }
            assert forall|k: int| 0 <= k < files@.len() implies fresh_file(
                #[trigger] files@[k],
                resolved_files(next)[k].0,
                resolved_files(next)[k].1,
            ) by {
                if k < base {
                    assert(files@[k] == old_files[k]);
                }
            }
            assert(indices_below(tree@, files@.len())) by {
                assert forall|ti: int| 0 <= ti < tree@.len() implies match #[trigger] tree@[ti] {
                    TreeNode::Dir(g) => forall|k: int|
                        0 <= k < g.file_indices@.len() ==> #[trigger] g.file_indices@[k] < files@.len(),
                    TreeNode::File(fi) => fi < files@.len(),
                } by {
                    if ti < old_tree.len() {
                        assert(tree@[ti] == old_tree[ti]);
                    }
                }
            }
            proof {
                done = next;
            }
            assert(all =~= done + rev@.reverse());
        }
        assert(done =~= all);
        ShellProfile { shell_type, files, tree }
    }
}

/// How many files a pattern contributes.
pub open spec fn node_size(p: ResolvedPattern) -> int {
    match p {
        ResolvedPattern::File { .. } => 1,
        ResolvedPattern::Dir { files, .. } => files@.len() as int,
    }
}

/// A node stays true to its pattern as files are appended after its own.
proof fn lemma_node_for_extend(
    node: TreeNode,
    p: ResolvedPattern,
    old_files: Seq<ProfileFile>,
    files: Seq<ProfileFile>,
    base: int,
)
    requires
        node_for(node, p, old_files, base),
        0 <= base,
        base + node_size(p) <= old_files.len(),
        old_files.len() <= files.len(),
        forall|k: int| 0 <= k < old_files.len() ==> #[trigger] files[k] == old_files[k],
    ensures
        node_for(node, p, files, base),
{
    match p {
        ResolvedPattern::File { .. } => {
            assert(files[base] == old_files[base]);
        },
        ResolvedPattern::Dir { original, files: fs, .. } => {
            match node {
                TreeNode::Dir(g) => {
                    assert forall|j: int| 0 <= j < fs@.len() implies #[trigger] g.file_indices@[j] == base + j
                        && group_labelled(files[base + j], original@) by {
                        assert(files[base + j] == old_files[base + j]);
                    }
                },
                TreeNode::File(_) => {},
            }
        },
    }
}

/// The files of the first `i` patterns come before the next pattern's.
pub proof fn lemma_resolved_prefix_len(r: Seq<ResolvedPattern>, i: int)
    requires
        0 <= i < r.len(),
    ensures
        resolved_files(r.take(i)).len() + node_size(r[i]) <= resolved_files(r).len(),
    decreases r.len(),
{
    let d = r.drop_last();
    if i < r.len() - 1 {
        assert(r.take(i) =~= d.take(i));
        assert(r[i] == d[i]);
        lemma_resolved_prefix_len(d, i);
    } else {
        assert(r.take(i) =~= d);
    }
}

pub proof fn lemma_entries_total_prefix(files: Seq<ProfileFile>, i: int)
    requires
        0 <= i <= files.len(),
    ensures
        entries_total(files.take(i)) <= entries_total(files),
    decreases files.len() - i,
{
    if i < files.len() {
        lemma_entries_total_prefix(files, i + 1);
        assert(files.take(i + 1).drop_last() =~= files.take(i));
    } else {
        assert(files.take(i) =~= files);
    }
}

} // verus!
