//! The lockfile of yarn v1: a line-oriented text where each block names one
//! or more package descriptors and lists the resolved version, the download
//! location and the dependencies.
use vstd::prelude::*;
use crate::kv::{first_at, pairs_map, pairs_view, split_bounds, split_char, KeyValueMap};
use crate::text::{
    chars_eq, chars_of, find_char, first_pos, indent, leading_spaces, push_char, str_opt,
    string_from, sub_chars, trim_bounds, trimmed, unquote, unquote_bounds,
};

verus! {

/// Why a lockfile could not be read.
#[derive(Debug, Clone, PartialEq, Eq)]
pub enum Error {
    /// A line that fits no rule of the format; it is carried along.
    SymlParse(String),
    /// A block without a `version` field.
    SymlStructure(String),
    /// The bytes are not UTF-8.
    NonUTF8,
}

/// One resolved package.
#[derive(Debug, Clone, PartialEq, Eq)]
pub struct Entry {
    pub name: Option<String>,
    pub version: String,
    pub uid: Option<String>,
    pub resolved: Option<String>,
    pub integrity: Option<String>,
    pub registry: Option<String>,
    pub dependencies: Option<Vec<(String, String)>>,
    pub optional_dependencies: Option<Vec<(String, String)>>,
}

pub struct EntryView {
    pub name: Option<Seq<char>>,
    pub version: Seq<char>,
    pub uid: Option<Seq<char>>,
    pub resolved: Option<Seq<char>>,
    pub integrity: Option<Seq<char>>,
    pub registry: Option<Seq<char>>,
    pub dependencies: Option<Seq<(Seq<char>, Seq<char>)>>,
    pub optional_dependencies: Option<Seq<(Seq<char>, Seq<char>)>>,
}

pub open spec fn pairs_opt(o: Option<Vec<(String, String)>>) -> Option<Seq<(Seq<char>, Seq<char>)>> {
    match o {
        Some(v) => Some(pairs_view(v@)),
        None => None,
    }
}

impl View for Entry {
    type V = EntryView;

    open spec fn view(&self) -> EntryView {
        EntryView {
            name: str_opt(self.name),
            version: self.version@,
            uid: str_opt(self.uid),
            resolved: str_opt(self.resolved),
            integrity: str_opt(self.integrity),
            registry: str_opt(self.registry),
            dependencies: pairs_opt(self.dependencies),
            optional_dependencies: pairs_opt(self.optional_dependencies),
        }
    }
}

/// A package found in the lockfile: its key and resolved version.
#[derive(Debug, Clone, PartialEq, Eq)]
pub struct Package {
    pub key: String,
    pub version: String,
}

/// The entries of a lockfile, each under its key, sorted by key.
pub struct Yarn1Lockfile {
    inner: Vec<(String, Entry)>,
}

pub open spec fn entries_view(s: Seq<(String, Entry)>) -> Seq<(Seq<char>, EntryView)> {
    s.map_values(|p: (String, Entry)| (p.0@, p.1@))
}

impl View for Yarn1Lockfile {
    type V = Seq<(Seq<char>, EntryView)>;

    closed spec fn view(&self) -> Seq<(Seq<char>, EntryView)> {
        entries_view(self.inner@)
    }
}

/// Whether `i` is the first position of key `k` in `s`.
pub open spec fn first_key_at(s: Seq<(Seq<char>, EntryView)>, k: Seq<char>, i: int) -> bool {
    0 <= i < s.len() && s[i].0 == k && forall|j: int| 0 <= j < i ==> s[j].0 != k
}

/// The entry under `k`.
pub open spec fn lookup(s: Seq<(Seq<char>, EntryView)>, k: Seq<char>) -> Option<EntryView> {
    if exists|i: int| first_key_at(s, k, i) {
        Some(s[choose|i: int| first_key_at(s, k, i)].1)
    } else {
        None
    }
}

/// The order of `String`: lexicographic by character, which is the order
/// of their UTF-8 bytes.
pub open spec fn key_lt(a: Seq<char>, b: Seq<char>) -> bool
    decreases a.len(),
{
    if a.len() == 0 {
        b.len() > 0
    } else if b.len() == 0 {
        false
    } else if a[0] != b[0] {
        a[0] < b[0]
    } else {
        key_lt(a.drop_first(), b.drop_first())
    }
}

pub proof fn lemma_key_lt_irrefl(a: Seq<char>)
    ensures
        !key_lt(a, a),
    decreases a.len(),
{
    if a.len() > 0 {
        lemma_key_lt_irrefl(a.drop_first());
    }
}

pub proof fn lemma_key_lt_trans(a: Seq<char>, b: Seq<char>, c: Seq<char>)
    requires
        key_lt(a, b),
        key_lt(b, c),
    ensures
        key_lt(a, c),
    decreases a.len(),
{
    if a.len() > 0 && b.len() > 0 && c.len() > 0 && a[0] == b[0] && b[0] == c[0] {
        lemma_key_lt_trans(a.drop_first(), b.drop_first(), c.drop_first());
    }
}

pub proof fn lemma_key_lt_total(a: Seq<char>, b: Seq<char>)
    requires
        a != b,
    ensures
        key_lt(a, b) || key_lt(b, a),
    decreases a.len(),
{
    if a.len() > 0 && b.len() > 0 && a[0] == b[0] {
        if a.drop_first() == b.drop_first() {
            assert(a =~= seq![a[0]] + a.drop_first());
            assert(b =~= seq![b[0]] + b.drop_first());
        } else {
            lemma_key_lt_total(a.drop_first(), b.drop_first());
        }
    } else if a.len() == 0 && b.len() == 0 {
        assert(a =~= b);
    }
}

/// Whether the keys of `s` increase strictly.
pub open spec fn sorted_keys(s: Seq<(Seq<char>, EntryView)>) -> bool {
    forall|i: int, j: int| 0 <= i < j < s.len() ==> key_lt(#[trigger] s[i].0, #[trigger] s[j].0)
}

/// Number of leading entries whose keys come before `k`.
pub open spec fn lower_bound(s: Seq<(Seq<char>, EntryView)>, k: Seq<char>) -> nat
    decreases s.len(),
{
    if s.len() == 0 {
        0
    } else if key_lt(s[0].0, k) {
        1 + lower_bound(s.drop_first(), k)
    } else {
        0
    }
}

proof fn lemma_lower_bound_at(s: Seq<(Seq<char>, EntryView)>, k: Seq<char>, i: int)
    requires
        0 <= i <= s.len(),
        forall|j: int| 0 <= j < i ==> key_lt(#[trigger] s[j].0, k),
        i == s.len() || !key_lt(s[i].0, k),
    ensures
        lower_bound(s, k) == i,
    decreases i,
{
    if i > 0 {
        let t = s.drop_first();
        assert forall|j: int| 0 <= j < i - 1 implies key_lt(#[trigger] t[j].0, k) by {
            assert(t[j] == s[j + 1]);
        }
        lemma_lower_bound_at(t, k, i - 1);
    }
}

/// `s`, kept sorted, with `e` stored under `k`: in place where `k` is
/// present, at its place in the order where it is not.
pub open spec fn insert_entry(s: Seq<(Seq<char>, EntryView)>, k: Seq<char>, e: EntryView) -> Seq<
    (Seq<char>, EntryView),
> {
    let i = lower_bound(s, k) as int;
    if i < s.len() && s[i].0 == k {
        s.update(i, (k, e))
    } else {
        s.insert(i, (k, e))
    }
}

proof fn lemma_lower_bound_facts(s: Seq<(Seq<char>, EntryView)>, k: Seq<char>)
    ensures
        lower_bound(s, k) <= s.len(),
        forall|j: int| 0 <= j < lower_bound(s, k) ==> key_lt(#[trigger] s[j].0, k),
        lower_bound(s, k) < s.len() ==> !key_lt(s[lower_bound(s, k) as int].0, k),
    decreases s.len(),
{
    if s.len() > 0 && key_lt(s[0].0, k) {
        let t = s.drop_first();
        lemma_lower_bound_facts(t, k);
        assert forall|j: int| 0 <= j < lower_bound(s, k) implies key_lt(#[trigger] s[j].0, k) by {
            if j > 0 {
                assert(s[j] == t[j - 1]);
            }
        }
    }
}

proof fn lemma_insert_sorted(s: Seq<(Seq<char>, EntryView)>, k: Seq<char>, e: EntryView)
    requires
        sorted_keys(s),
    ensures
        sorted_keys(insert_entry(s, k, e)),
{
    lemma_lower_bound_facts(s, k);
    let i = lower_bound(s, k) as int;
    if i < s.len() && s[i].0 == k {
        let n = s.update(i, (k, e));
        assert forall|a: int, b: int| 0 <= a < b < n.len() implies key_lt(#[trigger] n[a].0, #[trigger] n[b].0) by {
            assert(n[a].0 == s[a].0);
            assert(n[b].0 == s[b].0);
        }
    } else {
        if i < s.len() {
            lemma_key_lt_total(s[i].0, k);
        }
        let n = s.insert(i, (k, e));
        assert forall|a: int, b: int| 0 <= a < b < n.len() implies key_lt(#[trigger] n[a].0, #[trigger] n[b].0) by {
            if b < i {
                assert(n[a] == s[a] && n[b] == s[b]);
            } else if b == i {
                assert(n[a] == s[a]);
            } else if a == i {
                assert(n[b] == s[b - 1]);
                if b - 1 > i {
                    assert(key_lt(s[i].0, s[b - 1].0));
                    lemma_key_lt_trans(k, s[i].0, s[b - 1].0);
                }
            } else if a < i {
                assert(n[a] == s[a] && n[b] == s[b - 1]);
                if b - 1 > a {
                    assert(key_lt(s[a].0, s[b - 1].0));
                } else {
                    assert(false);
                }
            } else {
                assert(n[a] == s[a - 1] && n[b] == s[b - 1]);
            }
        }
    }
}

proof fn lemma_insert_all_sorted(s: Seq<(Seq<char>, EntryView)>, keys: Seq<Seq<char>>, e: EntryView)
    requires
        sorted_keys(s),
    ensures
        sorted_keys(insert_all(s, keys, e)),
    decreases keys.len(),
{
    if keys.len() > 0 {
        lemma_insert_all_sorted(s, keys.drop_last(), e);
        lemma_insert_sorted(insert_all(s, keys.drop_last(), e), keys.last(), e);
    }
}

proof fn lemma_line_step_sorted(st: StateView, line: Seq<char>)
    requires
        sorted_keys(st.entries),
    ensures
        line_step(st, line) matches Ok(s2) ==> sorted_keys(s2.entries),
{
    if let Some(d) = st.draft {
        if let Some(v) = d.version {
            lemma_insert_all_sorted(st.entries, d.keys, entry_of(d, v));
        }
    }
}

proof fn lemma_parse_fold_sorted(lines: Seq<Seq<char>>)
    ensures
        parse_fold(lines) matches Ok(st) ==> sorted_keys(st.entries),
    decreases lines.len(),
{
    if lines.len() > 0 {
        lemma_parse_fold_sorted(lines.drop_last());
        if let Ok(st) = parse_fold(lines.drop_last()) {
            lemma_line_step_sorted(st, lines.last());
        }
    }
}

/// What a lockfile text holds is sorted by key.
pub proof fn lemma_parse_text_sorted(text: Seq<char>)
    ensures
        parse_text(text) matches Ok(es) ==> sorted_keys(es),
{
    lemma_parse_fold_sorted(split_char(text, '\n'));
    if let Ok(st) = parse_fold(split_char(text, '\n')) {
        if let Some(d) = st.draft {
            if let Some(v) = d.version {
                lemma_insert_all_sorted(st.entries, d.keys, entry_of(d, v));
            }
        }
    }
}

/// Pruning keeps entries of the lockfile, in their order.
pub proof fn lemma_subgraph_sorted(
    s: Seq<(Seq<char>, EntryView)>,
    ws: Seq<Seq<char>>,
    packages: Seq<Seq<char>>,
)
    requires
        sorted_keys(s),
    ensures
        sorted_keys(subgraph_spec(s, ws, packages)),
        forall|a: int|
            0 <= a < subgraph_spec(s, ws, packages).len() ==> exists|j: int|
                0 <= j < s.len() && #[trigger] subgraph_spec(s, ws, packages)[a] == s[j],
    decreases s.len(),
{
    if s.len() > 0 {
        let t = s.drop_last();
        assert(sorted_keys(t)) by {
            assert forall|i: int, j: int| 0 <= i < j < t.len() implies key_lt(#[trigger] t[i].0, #[trigger] t[j].0) by {
                assert(t[i] == s[i] && t[j] == s[j]);
            }
        }
        lemma_subgraph_sorted(t, ws, packages);
        let r = subgraph_spec(t, ws, packages);
        assert forall|a: int| 0 <= a < r.len() implies exists|j: int| 0 <= j < s.len() && #[trigger] r[a] == s[j] by {
            let j = choose|j: int| 0 <= j < t.len() && r[a] == t[j];
            assert(r[a] == s[j]);
        }
        if keeps(s.last().0, ws, packages) {
            let n = r.push(s.last());
            assert forall|a: int, b: int| 0 <= a < b < n.len() implies key_lt(#[trigger] n[a].0, #[trigger] n[b].0) by {
                if b < r.len() {
                    assert(n[a] == r[a] && n[b] == r[b]);
                } else {
                    let j = choose|j: int| 0 <= j < t.len() && r[a] == t[j];
                    assert(n[a] == s[j]);
                    assert(n[b] == s[s.len() - 1]);
                }
            }
            assert forall|a: int| 0 <= a < n.len() implies exists|j: int| 0 <= j < s.len() && #[trigger] n[a] == s[j] by {
                if a < r.len() {
                    let j = choose|j: int| 0 <= j < s.len() && r[a] == s[j];
                    assert(n[a] == s[j]);
                } else {
                    assert(n[a] == s[s.len() - 1]);
                }
            }
        }
    }
}

/// `e` stored under each of `keys` in turn.
pub open spec fn insert_all(s: Seq<(Seq<char>, EntryView)>, keys: Seq<Seq<char>>, e: EntryView) -> Seq<
    (Seq<char>, EntryView),
>
    decreases keys.len(),
{
    if keys.len() == 0 {
        s
    } else {
        insert_entry(insert_all(s, keys.drop_last(), e), keys.last(), e)
    }
}

// ---------------------------------------------------------------------------
// The text format.
// ---------------------------------------------------------------------------

/// Where in a block the reader stands.
#[derive(Debug, Clone, Copy, PartialEq, Eq, Structural)]
pub enum Section {
    Fields,
    Deps,
    OptDeps,
    Other,
}

/// A block being read.
pub struct DraftView {
    pub keys: Seq<Seq<char>>,
    pub name: Option<Seq<char>>,
    pub version: Option<Seq<char>>,
    pub uid: Option<Seq<char>>,
    pub resolved: Option<Seq<char>>,
    pub integrity: Option<Seq<char>>,
    pub registry: Option<Seq<char>>,
    pub deps: Option<Seq<(Seq<char>, Seq<char>)>>,
    pub opt: Option<Seq<(Seq<char>, Seq<char>)>>,
}

pub struct StateView {
    pub entries: Seq<(Seq<char>, EntryView)>,
    pub draft: Option<DraftView>,
    pub section: Section,
}

pub enum ParseFailure {
    Syntax(Seq<char>),
    MissingVersion,
}

pub open spec fn new_draft(keys: Seq<Seq<char>>) -> DraftView {
    DraftView {
        keys,
        name: None,
        version: None,
        uid: None,
        resolved: None,
        integrity: None,
        registry: None,
        deps: None,
        opt: None,
    }
}

/// A field of the block set; unknown fields are ignored.
pub open spec fn set_field(d: DraftView, k: Seq<char>, v: Seq<char>) -> DraftView {
    if k == "name"@ {
        DraftView { name: Some(v), ..d }
    } else if k == "version"@ {
        DraftView { version: Some(v), ..d }
    } else if k == "uid"@ {
        DraftView { uid: Some(v), ..d }
    } else if k == "resolved"@ {
        DraftView { resolved: Some(v), ..d }
    } else if k == "integrity"@ {
        DraftView { integrity: Some(v), ..d }
    } else if k == "registry"@ {
        DraftView { registry: Some(v), ..d }
    } else {
        d
    }
}

/// A nested list opened by `name:`.
pub open spec fn open_section(d: DraftView, name: Seq<char>) -> (DraftView, Section) {
    if name == "dependencies"@ {
        (DraftView { deps: Some(Seq::empty()), ..d }, Section::Deps)
    } else if name == "optionalDependencies"@ {
        (DraftView { opt: Some(Seq::empty()), ..d }, Section::OptDeps)
    } else {
        (d, Section::Other)
    }
}

pub open spec fn push_pair(o: Option<Seq<(Seq<char>, Seq<char>)>>, p: (Seq<char>, Seq<char>)) -> Option<
    Seq<(Seq<char>, Seq<char>)>,
> {
    match o {
        Some(s) => Some(s.push(p)),
        None => Some(seq![p]),
    }
}

pub open spec fn add_dep(d: DraftView, sec: Section, n: Seq<char>, v: Seq<char>) -> DraftView {
    if sec == Section::Deps {
        DraftView { deps: push_pair(d.deps, (n, v)), ..d }
    } else {
        DraftView { opt: push_pair(d.opt, (n, v)), ..d }
    }
}

pub open spec fn entry_of(d: DraftView, version: Seq<char>) -> EntryView {
    EntryView {
        name: d.name,
        version,
        uid: d.uid,
        resolved: d.resolved,
        integrity: d.integrity,
        registry: d.registry,
        dependencies: d.deps,
        optional_dependencies: d.opt,
    }
}

/// The entries once the block being read is closed.
pub open spec fn close_draft(st: StateView) -> Result<Seq<(Seq<char>, EntryView)>, ParseFailure> {
    match st.draft {
        None => Ok(st.entries),
        Some(d) => match d.version {
            None => Err(ParseFailure::MissingVersion),
            Some(v) => Ok(insert_all(st.entries, d.keys, entry_of(d, v))),
        },
    }
}

/// The descriptors of a block line without its `:`: comma-separated,
/// trimmed, each possibly quoted.
pub open spec fn key_list(part: Seq<char>) -> Seq<Seq<char>> {
    split_char(part, ',').map_values(|p: Seq<char>| unquote(trimmed(p)))
}

/// `name value`: the text before the first space, and the rest trimmed and
/// unquoted.
pub open spec fn has_space(t: Seq<char>) -> bool {
    exists|i: int| first_pos(t, ' ', i)
}

pub open spec fn space_at(t: Seq<char>) -> int {
    choose|i: int| first_pos(t, ' ', i)
}

pub open spec fn pair_value(t: Seq<char>) -> Seq<char> {
    unquote(trimmed(t.skip(space_at(t) + 1)))
}

/// What one line does to the reader. Blank lines and comments change
/// nothing; a line at column 0 ending in `:` opens a block; at column 2 a
/// field or a nested list; at column 4 a member of that list.
pub open spec fn line_step(st: StateView, line: Seq<char>) -> Result<StateView, ParseFailure> {
    let t = trimmed(line);
    let n = indent(line);
    if t.len() == 0 || line[0] == '#' {
        Ok(st)
    } else if n == 0 {
        if t.last() == ':' {
            match close_draft(st) {
                Err(e) => Err(e),
                Ok(es) => Ok(
                    StateView {
                        entries: es,
                        draft: Some(new_draft(key_list(t.drop_last()))),
                        section: Section::Fields,
                    },
                ),
            }
        } else {
            Err(ParseFailure::Syntax(line))
        }
    } else if n == 2 {
        match st.draft {
            None => Err(ParseFailure::Syntax(line)),
            Some(d) => if t.last() == ':' {
                let (d2, sec) = open_section(d, t.drop_last());
                Ok(StateView { draft: Some(d2), section: sec, ..st })
            } else if has_space(t) {
                Ok(
                    StateView {
                        draft: Some(set_field(d, t.take(space_at(t)), pair_value(t))),
                        section: Section::Fields,
                        ..st
                    },
                )
            } else {
                Err(ParseFailure::Syntax(line))
            },
        }
    } else if n == 4 {
        match st.draft {
            None => Err(ParseFailure::Syntax(line)),
            Some(d) => if st.section == Section::Fields {
                Err(ParseFailure::Syntax(line))
            } else if st.section == Section::Other {
                Ok(st)
            } else if has_space(t) {
                Ok(
                    StateView {
                        draft: Some(
                            add_dep(d, st.section, unquote(t.take(space_at(t))), pair_value(t)),
                        ),
                        ..st
                    },
                )
            } else {
                Err(ParseFailure::Syntax(line))
            },
        }
    } else {
        Err(ParseFailure::Syntax(line))
    }
}

pub open spec fn initial_state() -> StateView {
    StateView { entries: Seq::empty(), draft: None, section: Section::Fields }
}

pub open spec fn parse_fold(lines: Seq<Seq<char>>) -> Result<StateView, ParseFailure>
    decreases lines.len(),
{
    if lines.len() == 0 {
        Ok(initial_state())
    } else {
        match parse_fold(lines.drop_last()) {
            Err(e) => Err(e),
            Ok(st) => line_step(st, lines.last()),
        }
    }
}

/// The entries that a lockfile text holds, or why it cannot be read.
pub open spec fn parse_text(text: Seq<char>) -> Result<Seq<(Seq<char>, EntryView)>, ParseFailure> {
    match parse_fold(split_char(text, '\n')) {
        Err(e) => Err(e),
        Ok(st) => close_draft(st),
    }
}

pub open spec fn failure_is(e: Error, f: ParseFailure) -> bool {
    match e {
        Error::SymlParse(l) => f == ParseFailure::Syntax(l@),
        Error::SymlStructure(_) => f == ParseFailure::MissingVersion,
        Error::NonUTF8 => false,
    }
}

pub open spec fn keys_view(s: Seq<String>) -> Seq<Seq<char>> {
    s.map_values(|k: String| k@)
}

struct Draft {
    keys: Vec<String>,
    name: Option<String>,
    version: Option<String>,
    uid: Option<String>,
    resolved: Option<String>,
    integrity: Option<String>,
    registry: Option<String>,
    deps: Option<Vec<(String, String)>>,
    opt: Option<Vec<(String, String)>>,
}

impl View for Draft {
    type V = DraftView;

    closed spec fn view(&self) -> DraftView {
        DraftView {
            keys: keys_view(self.keys@),
            name: str_opt(self.name),
            version: str_opt(self.version),
            uid: str_opt(self.uid),
            resolved: str_opt(self.resolved),
            integrity: str_opt(self.integrity),
            registry: str_opt(self.registry),
            deps: pairs_opt(self.deps),
            opt: pairs_opt(self.opt),
        }
    }
}

struct ParseState {
    entries: Vec<(String, Entry)>,
    draft: Option<Draft>,
    section: Section,
}

impl View for ParseState {
    type V = StateView;

    closed spec fn view(&self) -> StateView {
        StateView {
            entries: entries_view(self.entries@),
            draft: match self.draft {
                Some(d) => Some(d@),
                None => None,
            },
            section: self.section,
        }
    }
}

fn copy_opt(o: &Option<String>) -> (r: Option<String>)
    ensures
        str_opt(r) == str_opt(*o),
{
    match o {
        Some(s) => Some(s.clone()),
        None => None,
    }
}

fn copy_pairs(v: &Vec<(String, String)>) -> (r: Vec<(String, String)>)
    ensures
        pairs_view(r@) == pairs_view(v@),
{
    let mut r: Vec<(String, String)> = Vec::new();
    let mut i: usize = 0;
    while i < v.len()
        invariant
            i <= v.len(),
            pairs_view(r@) == pairs_view(v@).take(i as int),
        decreases v.len() - i,
    {
        let p = (v[i].0.clone(), v[i].1.clone());
        let ghost r0 = r@;
        r.push(p);
        assert(pairs_view(r@) =~= pairs_view(r0).push((p.0@, p.1@)));
        assert(pairs_view(v@)[i as int] == (v@[i as int].0@, v@[i as int].1@));
        assert(pairs_view(r@) =~= pairs_view(v@).take(i + 1));
        i += 1;
    }
    assert(pairs_view(v@).take(v.len() as int) =~= pairs_view(v@));
    r
}

fn copy_pairs_opt(o: &Option<Vec<(String, String)>>) -> (r: Option<Vec<(String, String)>>)
    ensures
        pairs_opt(r) == pairs_opt(*o),
{
    match o {
        Some(v) => Some(copy_pairs(v)),
        None => None,
    }
}

fn copy_entry(e: &Entry) -> (r: Entry)
    ensures
        r@ == e@,
{
    Entry {
        name: copy_opt(&e.name),
        version: e.version.clone(),
        uid: copy_opt(&e.uid),
        resolved: copy_opt(&e.resolved),
        integrity: copy_opt(&e.integrity),
        registry: copy_opt(&e.registry),
        dependencies: copy_pairs_opt(&e.dependencies),
        optional_dependencies: copy_pairs_opt(&e.optional_dependencies),
    }
}

proof fn lemma_first_key_unique(s: Seq<(Seq<char>, EntryView)>, k: Seq<char>, i: int, j: int)
    requires
        first_key_at(s, k, i),
        first_key_at(s, k, j),
    ensures
        i == j,
{
    if i < j {
        assert(s[i].0 != k);
    } else if j < i {
        assert(s[j].0 != k);
    }
}

proof fn lemma_first_pos_unique(s: Seq<char>, c: char, i: int, j: int)
    requires
        first_pos(s, c, i),
        first_pos(s, c, j),
    ensures
        i == j,
{
    if i < j {
        assert(s[i] != c);
    } else if j < i {
        assert(s[j] != c);
    }
}

/// The position of key `k` among `es`.
fn find_key(es: &Vec<(String, Entry)>, k: &String) -> (r: Option<usize>)
    ensures
        match r {
            Some(i) => first_key_at(entries_view(es@), k@, i as int),
            None => !exists|i: int| first_key_at(entries_view(es@), k@, i),
        },
{
    let ghost s = entries_view(es@);
    let mut i: usize = 0;
    while i < es.len()
        invariant
            i <= es.len(),
            s == entries_view(es@),
            forall|j: int| 0 <= j < i ==> s[j].0 != k@,
        decreases es.len() - i,
    {
        if es[i].0 == *k {
            return Some(i);
        }
        i += 1;
    }
    None
}

/// Whether `a` comes before `b` in the order of `String`.
fn key_lt_exec(a: &String, b: &String) -> (r: bool)
    ensures
        r == key_lt(a@, b@),
{
    let x = chars_of(a.as_str());
    let y = chars_of(b.as_str());
    let mut i: usize = 0;
    assert(x@.skip(0) =~= x@);
    assert(y@.skip(0) =~= y@);
    while i < x.len() && i < y.len() && x[i] == y[i]
        invariant
            i <= x.len(),
            i <= y.len(),
            key_lt(a@, b@) == key_lt(x@.skip(i as int), y@.skip(i as int)),
            x@ == a@,
            y@ == b@,
        decreases x.len() - i,
    {
        assert(x@.skip(i as int).drop_first() =~= x@.skip(i + 1));
        assert(y@.skip(i as int).drop_first() =~= y@.skip(i + 1));
        i += 1;
    }
    if i == x.len() {
        i < y.len()
    } else if i == y.len() {
        false
    } else {
        x[i] < y[i]
    }
}

fn insert_entry_exec(es: &mut Vec<(String, Entry)>, k: String, e: Entry)
    ensures
        entries_view(final(es)@) == insert_entry(entries_view(old(es)@), k@, e@),
{
    let ghost s = entries_view(es@);
    let mut i: usize = 0;
    while i < es.len() && key_lt_exec(&es[i].0, &k)
        invariant
            i <= es.len(),
            s == entries_view(es@),
            forall|j: int| 0 <= j < i ==> key_lt(#[trigger] s[j].0, k@),
        decreases es.len() - i,
    {
        i += 1;
    }
    proof {
        lemma_lower_bound_at(s, k@, i as int);
    }
    if i < es.len() && es[i].0 == k {
        es[i] = (k, e);
        assert(entries_view(es@) =~= s.update(i as int, (k@, e@)));
    } else {
        es.insert(i, (k, e));
        assert(entries_view(es@) =~= s.insert(i as int, (k@, e@)));
    }
}

fn insert_all_exec(es: &mut Vec<(String, Entry)>, keys: &Vec<String>, e: &Entry)
    ensures
        entries_view(final(es)@) == insert_all(entries_view(old(es)@), keys_view(keys@), e@),
{
    let ghost s0 = entries_view(es@);
    let mut j: usize = 0;
    assert(keys_view(keys@).take(0) =~= Seq::<Seq<char>>::empty());
    while j < keys.len()
        invariant
            j <= keys.len(),
            entries_view(es@) == insert_all(s0, keys_view(keys@).take(j as int), e@),
        decreases keys.len() - j,
    {
        assert(keys_view(keys@).take(j + 1).drop_last() =~= keys_view(keys@).take(j as int));
        insert_entry_exec(es, keys[j].clone(), copy_entry(e));
        j += 1;
    }
    assert(keys_view(keys@).take(keys.len() as int) =~= keys_view(keys@));
}

fn close_draft_exec(entries: Vec<(String, Entry)>, draft: Option<Draft>) -> (r: Result<
    Vec<(String, Entry)>,
    Error,
>)
    ensures
        match r {
            Ok(es) => close_draft(
                StateView {
                    entries: entries_view(entries@),
                    draft: match draft {
                        Some(d) => Some(d@),
                        None => None,
                    },
                    section: Section::Fields,
                },
            ) == Ok::<Seq<(Seq<char>, EntryView)>, ParseFailure>(entries_view(es@)),
            Err(e) => close_draft(
                StateView {
                    entries: entries_view(entries@),
                    draft: match draft {
                        Some(d) => Some(d@),
                        None => None,
                    },
                    section: Section::Fields,
                },
            ) == Err::<Seq<(Seq<char>, EntryView)>, ParseFailure>(ParseFailure::MissingVersion)
                && e is SymlStructure,
        },
{
    match draft {
        None => Ok(entries),
        Some(d) => {
            let ghost dv = d@;
            let Draft { keys, name, version, uid, resolved, integrity, registry, deps, opt } = d;
            match version {
                None => Err(Error::SymlStructure("missing field `version`".to_owned())),
                Some(v) => {
                    let e = Entry {
                        name,
                        version: v,
                        uid,
                        resolved,
                        integrity,
                        registry,
                        dependencies: deps,
                        optional_dependencies: opt,
                    };
                    assert(e@ == entry_of(dv, dv.version->0));
                    let mut es = entries;
                    insert_all_exec(&mut es, &keys, &e);
                    Ok(es)
                },
            }
        },
    }
}

fn key_list_exec(cs: &Vec<char>, a: usize, b: usize) -> (r: Vec<String>)
    requires
        a <= b <= cs.len(),
    ensures
        keys_view(r@) == key_list(cs@.subrange(a as int, b as int)),
{
    let part = sub_chars(cs, a, b);
    let bounds = split_bounds(&part, ',');
    let ghost pieces = split_char(part@, ',');
    let mut keys: Vec<String> = Vec::new();
    let mut j: usize = 0;
    while j < bounds.len()
        invariant
            j <= bounds.len(),
            pieces == split_char(part@, ','),
            bounds.len() == pieces.len(),
            forall|q: int|
                #![trigger bounds[q]]
                0 <= q < bounds.len() ==> bounds[q].0 <= bounds[q].1 <= part.len() && part@.subrange(
                    bounds[q].0 as int,
                    bounds[q].1 as int,
                ) == pieces[q],
            keys_view(keys@) == pieces.take(j as int).map_values(
                |p: Seq<char>| unquote(trimmed(p)),
            ),
        decreases bounds.len() - j,
    {
        let (x, y) = bounds[j];
        let (p, q) = trim_bounds(&part, x, y);
        let (u, v) = unquote_bounds(&part, p, q);
        let k = string_from(&part, u, v);
        assert(k@ == unquote(trimmed(pieces[j as int])));
        let ghost k0 = keys@;
        keys.push(k);
        assert(keys_view(keys@) =~= keys_view(k0).push(unquote(trimmed(pieces[j as int]))));
        assert(keys_view(keys@) =~= pieces.take(j + 1).map_values(
            |p: Seq<char>| unquote(trimmed(p)),
        ));
        j += 1;
    }
    assert(pieces.take(bounds.len() as int) =~= pieces);
    keys
}

fn new_draft_exec(keys: Vec<String>) -> (r: Draft)
    ensures
        r@ == new_draft(keys_view(keys@)),
{
    Draft {
        keys,
        name: None,
        version: None,
        uid: None,
        resolved: None,
        integrity: None,
        registry: None,
        deps: None,
        opt: None,
    }
}

fn set_field_exec(d: Draft, cs: &Vec<char>, ka: usize, kb: usize, v: String) -> (r: Draft)
    requires
        ka <= kb <= cs.len(),
    ensures
        r@ == set_field(d@, cs@.subrange(ka as int, kb as int), v@),
{
    if chars_eq(cs, ka, kb, &chars_of("name")) {
        Draft { name: Some(v), ..d }
    } else if chars_eq(cs, ka, kb, &chars_of("version")) {
        Draft { version: Some(v), ..d }
    } else if chars_eq(cs, ka, kb, &chars_of("uid")) {
        Draft { uid: Some(v), ..d }
    } else if chars_eq(cs, ka, kb, &chars_of("resolved")) {
        Draft { resolved: Some(v), ..d }
    } else if chars_eq(cs, ka, kb, &chars_of("integrity")) {
        Draft { integrity: Some(v), ..d }
    } else if chars_eq(cs, ka, kb, &chars_of("registry")) {
        Draft { registry: Some(v), ..d }
    } else {
        d
    }
}

fn open_section_exec(d: Draft, cs: &Vec<char>, na: usize, nb: usize) -> (r: (Draft, Section))
    requires
        na <= nb <= cs.len(),
    ensures
        (r.0@, r.1) == open_section(d@, cs@.subrange(na as int, nb as int)),
{
    if chars_eq(cs, na, nb, &chars_of("dependencies")) {
        let r = Draft { deps: Some(Vec::new()), ..d };
        assert(pairs_opt(r.deps) == Some(Seq::<(Seq<char>, Seq<char>)>::empty()));
        (r, Section::Deps)
    } else if chars_eq(cs, na, nb, &chars_of("optionalDependencies")) {
        let r = Draft { opt: Some(Vec::new()), ..d };
        assert(pairs_opt(r.opt) == Some(Seq::<(Seq<char>, Seq<char>)>::empty()));
        (r, Section::OptDeps)
    } else {
        (d, Section::Other)
    }
}

fn push_pair_exec(o: Option<Vec<(String, String)>>, n: String, v: String) -> (r: Option<
    Vec<(String, String)>,
>)
    ensures
        pairs_opt(r) == push_pair(pairs_opt(o), (n@, v@)),
{
    let ghost nv = (n@, v@);
    match o {
        Some(mut s) => {
            let ghost s0 = pairs_view(s@);
            s.push((n, v));
            assert(pairs_view(s@) =~= s0.push(nv));
            Some(s)
        },
        None => {
            let mut s: Vec<(String, String)> = Vec::new();
            s.push((n, v));
            assert(pairs_view(s@) =~= seq![nv]);
            Some(s)
        },
    }
}

fn syntax_error(cs: &Vec<char>, a: usize, b: usize) -> (r: Error)
    requires
        a <= b <= cs.len(),
    ensures
        failure_is(r, ParseFailure::Syntax(cs@.subrange(a as int, b as int))),
{
    Error::SymlParse(string_from(cs, a, b))
}

fn line_step_exec(st: ParseState, cs: &Vec<char>, a: usize, b: usize) -> (r: Result<
    ParseState,
    Error,
>)
    requires
        a <= b <= cs.len(),
    ensures
        match r {
            Ok(s2) => line_step(st@, cs@.subrange(a as int, b as int)) == Ok::<
                StateView,
                ParseFailure,
            >(s2@),
            Err(e) => line_step(st@, cs@.subrange(a as int, b as int)) matches Err(f) && failure_is(
                e,
                f,
            ),
        },
{
    let ghost line = cs@.subrange(a as int, b as int);
    let (ta, tb) = trim_bounds(cs, a, b);
    let ghost t = cs@.subrange(ta as int, tb as int);
    if ta == tb || cs[a] == '#' {
        return Ok(st);
    }
    let n = leading_spaces(cs, a, b);
    assert(t.last() == cs@[tb - 1]);
    assert(t.drop_last() =~= cs@.subrange(ta as int, tb - 1));
    let ghost sv = st@;
    let ParseState { entries, draft, section } = st;
    if n == 0 {
        if cs[tb - 1] == ':' {
            match close_draft_exec(entries, draft) {
                Ok(es) => {
                    let keys = key_list_exec(cs, ta, tb - 1);
                    Ok(ParseState { entries: es, draft: Some(new_draft_exec(keys)), section: Section::Fields })
                },
                Err(e) => Err(e),
            }
        } else {
            Err(syntax_error(cs, a, b))
        }
    } else if n == 2 {
        match draft {
            None => Err(syntax_error(cs, a, b)),
            Some(d) => {
                if cs[tb - 1] == ':' {
                    let (d2, sec) = open_section_exec(d, cs, ta, tb - 1);
                    Ok(ParseState { entries, draft: Some(d2), section: sec })
                } else {
                    match find_char(cs, ta, tb, ' ') {
                        Some(i) => {
                            proof {
                                assert(has_space(t));
                                lemma_first_pos_unique(t, ' ', i as int, space_at(t));
                                assert(t.take(i as int) =~= cs@.subrange(ta as int, ta + i));
                                assert(t.skip(i + 1) =~= cs@.subrange(ta + i + 1, tb as int));
                            }
                            let (va, vb) = trim_bounds(cs, ta + i + 1, tb);
                            let (ua, ub) = unquote_bounds(cs, va, vb);
                            let v = string_from(cs, ua, ub);
                            let d2 = set_field_exec(d, cs, ta, ta + i, v);
                            Ok(ParseState { entries, draft: Some(d2), section: Section::Fields })
                        },
                        None => {
                            assert(!has_space(t));
                            Err(syntax_error(cs, a, b))
                        },
                    }
                }
            },
        }
    } else if n == 4 {
        match draft {
            None => Err(syntax_error(cs, a, b)),
            Some(d) => {
                if section == Section::Fields {
                    Err(syntax_error(cs, a, b))
                } else if section == Section::Other {
                    Ok(ParseState { entries, draft: Some(d), section })
                } else {
                    match find_char(cs, ta, tb, ' ') {
                        Some(i) => {
                            proof {
                                assert(has_space(t));
                                lemma_first_pos_unique(t, ' ', i as int, space_at(t));
                                assert(t.take(i as int) =~= cs@.subrange(ta as int, ta + i));
                                assert(t.skip(i + 1) =~= cs@.subrange(ta + i + 1, tb as int));
                            }
                            let (na, nb) = unquote_bounds(cs, ta, ta + i);
                            let name = string_from(cs, na, nb);
                            let (va, vb) = trim_bounds(cs, ta + i + 1, tb);
                            let (ua, ub) = unquote_bounds(cs, va, vb);
                            let v = string_from(cs, ua, ub);
                            let d2 = if section == Section::Deps {
                                let Draft { keys, name: nm, version, uid, resolved, integrity, registry, deps, opt } = d;
                                let deps2 = push_pair_exec(deps, name, v);
                                Draft { keys, name: nm, version, uid, resolved, integrity, registry, deps: deps2, opt }
                            } else {
                                let Draft { keys, name: nm, version, uid, resolved, integrity, registry, deps, opt } = d;
                                let opt2 = push_pair_exec(opt, name, v);
                                Draft { keys, name: nm, version, uid, resolved, integrity, registry, deps, opt: opt2 }
                            };
                            Ok(ParseState { entries, draft: Some(d2), section })
                        },
                        None => {
                            assert(!has_space(t));
                            Err(syntax_error(cs, a, b))
                        },
                    }
                }
            },
        }
    } else {
        Err(syntax_error(cs, a, b))
    }
}

proof fn lemma_parse_fold_err(lines: Seq<Seq<char>>, j: int)
    requires
        0 <= j <= lines.len(),
        parse_fold(lines.take(j)) is Err,
    ensures
        parse_fold(lines) == parse_fold(lines.take(j)),
    decreases lines.len() - j,
{
    if j < lines.len() {
        assert(lines.take(j + 1).drop_last() =~= lines.take(j));
        lemma_parse_fold_err(lines, j + 1);
    } else {
        assert(lines.take(j) =~= lines);
    }
}

impl Yarn1Lockfile {
    #[verifier::type_invariant]
    spec fn inv(self) -> bool {
        sorted_keys(entries_view(self.inner@))
    }

    /// Reads a lockfile from its text.
    pub fn from_str(s: &str) -> (r: Result<Self, Error>)
        ensures
            match r {
                Ok(l) => parse_text(s@) == Ok::<Seq<(Seq<char>, EntryView)>, ParseFailure>(l@)
                    && sorted_keys(l@),
                Err(e) => parse_text(s@) matches Err(f) && failure_is(e, f),
            },
    {
        let cs = chars_of(s);
        let lines = split_bounds(&cs, '\n');
        let ghost pieces = split_char(cs@, '\n');
        let mut st = ParseState { entries: Vec::new(), draft: None, section: Section::Fields };
        assert(entries_view(st.entries@) =~= Seq::<(Seq<char>, EntryView)>::empty());
        assert(pieces.take(0) =~= Seq::<Seq<char>>::empty());
        let mut j: usize = 0;
        while j < lines.len()
            invariant
                j <= lines.len(),
                cs@ == s@,
                pieces == split_char(cs@, '\n'),
                lines.len() == pieces.len(),
                forall|q: int|
                    #![trigger lines[q]]
                    0 <= q < lines.len() ==> lines[q].0 <= lines[q].1 <= cs.len() && cs@.subrange(
                        lines[q].0 as int,
                        lines[q].1 as int,
                    ) == pieces[q],
                parse_fold(pieces.take(j as int)) == Ok::<StateView, ParseFailure>(st@),
            decreases lines.len() - j,
        {
            let (a, b) = lines[j];
            assert(pieces.take(j + 1).drop_last() =~= pieces.take(j as int));
            match line_step_exec(st, &cs, a, b) {
                Ok(s2) => st = s2,
                Err(e) => {
                    proof {
                        lemma_parse_fold_err(pieces, j + 1);
                    }
                    return Err(e);
                },
            }
            j += 1;
        }
        assert(pieces.take(lines.len() as int) =~= pieces);
        let ghost last = st@;
        let ParseState { entries, draft, section: _ } = st;
        proof {
            lemma_parse_text_sorted(s@);
        }
        match close_draft_exec(entries, draft) {
            Ok(es) => Ok(Yarn1Lockfile { inner: es }),
            Err(e) => Err(e),
        }
    }
}

// ---------------------------------------------------------------------------
// Queries and rewriting.
// ---------------------------------------------------------------------------

/// Whether `semver::Version::parse` accepts `s`: the SemVer 2.0 grammar,
/// with each numeric part fitting in 64 bits.
pub uninterp spec fn semver_valid(s: Seq<char>) -> bool;

/// Relies on `semver::Version::parse`: whether it succeeds on `s`.
#[verifier::external_body]
fn parses_as_semver(s: &str) -> (r: bool)
    ensures
        r == semver_valid(s@),
{
    semver::Version::parse(s).is_ok()
}

/// Relies on `std::str::from_utf8`: it succeeds exactly on valid UTF-8 and
/// then yields the decoded text.
#[verifier::external_body]
fn utf8_text(b: &[u8]) -> (r: Option<&str>)
    ensures
        match r {
            Some(s) => vstd::utf8::valid_utf8(b@) && s@ == vstd::utf8::decode_utf8(b@),
            None => !vstd::utf8::valid_utf8(b@),
        },
{
    std::str::from_utf8(b).ok()
}

pub const AT: &'static str = "@";
pub const FILE_MARK: &'static str = "@file:";
pub const TURBO_PREFIX: &'static str = "turbo@";
pub const P_NONE: &'static str = "";
pub const P_NPM: &'static str = "npm:";
pub const P_FILE: &'static str = "file:";
pub const P_WORKSPACE: &'static str = "workspace:";
pub const P_YARN: &'static str = "yarn:";

/// The protocols that a descriptor may carry, in the order they are tried.
pub open spec fn protocols() -> Seq<Seq<char>> {
    seq![P_NONE@, P_NPM@, P_FILE@, P_WORKSPACE@, P_YARN@]
}

/// `name@<protocol><version>` for each protocol.
pub open spec fn possible_keys_spec(name: Seq<char>, version: Seq<char>) -> Seq<Seq<char>> {
    protocols().map_values(|p: Seq<char>| name + AT@ + p + version)
}

/// The first of `keys` that `s` holds, with its entry.
pub open spec fn first_present(s: Seq<(Seq<char>, EntryView)>, keys: Seq<Seq<char>>) -> Option<
    (Seq<char>, EntryView),
>
    decreases keys.len(),
{
    if keys.len() == 0 {
        None
    } else if lookup(s, keys[0]) is Some {
        Some((keys[0], lookup(s, keys[0])->0))
    } else {
        first_present(s, keys.drop_first())
    }
}

/// The dependencies of an entry followed by its optional ones.
pub open spec fn dependency_pairs(e: EntryView) -> Seq<(Seq<char>, Seq<char>)> {
    (match e.dependencies {
        Some(d) => d,
        None => Seq::empty(),
    }) + (match e.optional_dependencies {
        Some(o) => o,
        None => Seq::empty(),
    })
}

/// Whether `mark` occurs in `k` at `i`.
pub open spec fn occurs_at(k: Seq<char>, mark: Seq<char>, i: int) -> bool {
    0 <= i && i + mark.len() <= k.len() && k.subrange(i, i + mark.len()) == mark
}

/// The path of a `name@file:path` key: what follows the first `@file:`
/// after the first character.
pub open spec fn file_path_of(k: Seq<char>) -> Option<Seq<char>> {
    if exists|i: int| 1 <= i && occurs_at(k, FILE_MARK@, i) {
        let i = choose|i: int|
            1 <= i && occurs_at(k, FILE_MARK@, i) && forall|j: int|
                1 <= j < i ==> !occurs_at(k, FILE_MARK@, j);
        Some(k.skip(i + FILE_MARK@.len()))
    } else {
        None
    }
}

pub open spec fn strip_dot_slash(p: Seq<char>) -> Seq<char> {
    if p.len() >= 2 && p[0] == '.' && p[1] == '/' {
        p.skip(2)
    } else {
        p
    }
}

/// Whether path `n` is workspace path `w` or ends in `/w`.
pub open spec fn names_workspace(n: Seq<char>, w: Seq<char>) -> bool {
    n == w || (n.len() >= w.len() + 1 && n.skip(n.len() - w.len() - 1) == seq!['/'] + w)
}

/// Whether the pruned lockfile keeps key `k`: it is one of `packages`, or
/// it points with `file:` at one of the workspace paths.
pub open spec fn keeps(k: Seq<char>, ws: Seq<Seq<char>>, packages: Seq<Seq<char>>) -> bool {
    packages.contains(k) || match file_path_of(k) {
        Some(p) => exists|w: int| 0 <= w < ws.len() && names_workspace(strip_dot_slash(p), ws[w]),
        None => false,
    }
}

/// The entries that `keeps` retains, in their order.
pub open spec fn subgraph_spec(
    s: Seq<(Seq<char>, EntryView)>,
    ws: Seq<Seq<char>>,
    packages: Seq<Seq<char>>,
) -> Seq<(Seq<char>, EntryView)>
    decreases s.len(),
{
    if s.len() == 0 {
        s
    } else {
        let r = subgraph_spec(s.drop_last(), ws, packages);
        if keeps(s.last().0, ws, packages) {
            r.push(s.last())
        } else {
            r
        }
    }
}

pub open spec fn starts_with(s: Seq<char>, p: Seq<char>) -> bool {
    s.len() >= p.len() && s.take(p.len() as int) == p
}

/// Whether entry `i` is the first whose key starts with `turbo@`.
pub open spec fn first_turbo_at(s: Seq<(Seq<char>, EntryView)>, i: int) -> bool {
    0 <= i < s.len() && starts_with(s[i].0, TURBO_PREFIX@) && forall|j: int|
        0 <= j < i ==> !starts_with(#[trigger] s[j].0, TURBO_PREFIX@)
}

/// The version of the first `turbo@` entry, where it is a SemVer version.
pub open spec fn turbo_version_spec(s: Seq<(Seq<char>, EntryView)>) -> Option<Seq<char>> {
    if exists|i: int| first_turbo_at(s, i) {
        let v = s[choose|i: int| first_turbo_at(s, i)].1.version;
        if semver_valid(v) {
            Some(v)
        } else {
            None
        }
    } else {
        None
    }
}

fn string_is(s: &String, k: &Vec<char>) -> (r: bool)
    ensures
        r == (s@ == k@),
{
    let c = chars_of(s.as_str());
    assert(c@.subrange(0, c@.len() as int) =~= c@);
    chars_eq(&c, 0, c.len(), k)
}

fn lookup_exec<'a>(es: &'a Vec<(String, Entry)>, k: &String) -> (r: Option<&'a Entry>)
    ensures
        match r {
            Some(e) => lookup(entries_view(es@), k@) == Some(e@),
            None => lookup(entries_view(es@), k@) is None,
        },
{
    match find_key(es, k) {
        Some(i) => {
            proof {
                let c = choose|c: int| first_key_at(entries_view(es@), k@, c);
                lemma_first_key_unique(entries_view(es@), k@, i as int, c);
            }
            Some(&es[i].1)
        },
        None => None,
    }
}

/// `name@<protocol><version>` for each protocol, in the order tried.
pub fn possible_keys(name: &str, version: &str) -> (r: Vec<String>)
    ensures
        keys_view(r@) == possible_keys_spec(name@, version@),
{
    let ps: [&'static str; 5] = [P_NONE, P_NPM, P_FILE, P_WORKSPACE, P_YARN];
    let ghost pv = seq![P_NONE@, P_NPM@, P_FILE@, P_WORKSPACE@, P_YARN@];
    let mut r: Vec<String> = Vec::new();
    let mut i: usize = 0;
    while i < 5
        invariant
            i <= 5,
            ps@.len() == 5,
            forall|q: int| 0 <= q < 5 ==> ps@[q]@ == pv[q],
            pv == protocols(),
            keys_view(r@) == protocols().take(i as int).map_values(
                |p: Seq<char>| name@ + AT@ + p + version@,
            ),
        decreases 5 - i,
    {
        let mut k = name.to_owned();
        k.append(AT);
        k.append(ps[i]);
        k.append(version);
        let ghost r0 = r@;
        r.push(k);
        assert(keys_view(r@) =~= keys_view(r0).push(name@ + AT@ + pv[i as int] + version@));
        assert(protocols().take(i + 1).map_values(|p: Seq<char>| name@ + AT@ + p + version@)
            =~= protocols().take(i as int).map_values(|p: Seq<char>| name@ + AT@ + p + version@).push(
            name@ + AT@ + pv[i as int] + version@,
        ));
        i += 1;
    }
    assert(protocols().take(5) =~= protocols());
    r
}

/// The path after the first `@file:` that follows the first character.
pub fn extract_file_path(key: &str) -> (r: Option<String>)
    ensures
        match r {
            Some(p) => file_path_of(key@) == Some(p@),
            None => file_path_of(key@) is None,
        },
{
    let cs = chars_of(key);
    let mark = chars_of(FILE_MARK);
    let m = mark.len();
    assert(FILE_MARK@.len() == 6) by {
        reveal_strlit("@file:");
    }
    if cs.len() == 0 {
        return None;
    }
    let mut i: usize = 1;
    while m <= cs.len() - i
        invariant
            1 <= i <= cs.len(),
            m == 6,
            cs@ == key@,
            mark@ == FILE_MARK@,
            m == mark.len(),
            forall|j: int| 1 <= j < i ==> !occurs_at(key@, FILE_MARK@, j),
        decreases cs.len() - i,
    {
        if chars_eq(&cs, i, i + m, &mark) {
            assert(occurs_at(key@, FILE_MARK@, i as int));
            let ghost c = choose|c: int|
                1 <= c && occurs_at(key@, FILE_MARK@, c) && forall|j: int|
                    1 <= j < c ==> !occurs_at(key@, FILE_MARK@, j);
            assert(c == i) by {
                if c < i {
                    assert(!occurs_at(key@, FILE_MARK@, c));
                } else if c > i {
                    assert(!occurs_at(key@, FILE_MARK@, i as int));
                }
            }
            assert(cs@.subrange((i + m) as int, cs.len() as int) =~= key@.skip(i + m));
            return Some(string_from(&cs, i + m, cs.len()));
        }
        i += 1;
    }
    assert forall|j: int| 1 <= j implies !occurs_at(key@, FILE_MARK@, j) by {
        if j >= i {
            assert(!(j + FILE_MARK@.len() <= key@.len()));
        }
    }
    None
}

fn ends_with_workspace(n: &Vec<char>, w: &Vec<char>) -> (r: bool)
    ensures
        r == names_workspace(n@, w@),
{
    assert(n@.subrange(0, n@.len() as int) =~= n@);
    if chars_eq(n, 0, n.len(), w) {
        return true;
    }
    if n.len() <= w.len() {
        return false;
    }
    let st = n.len() - w.len() - 1;
    let tail = chars_eq(n, st + 1, n.len(), w);
    let r = n[st] == '/' && tail;
    proof {
        let sk = n@.skip(st as int);
        let sw = seq!['/'] + w@;
        assert(sk =~= seq![n@[st as int]] + n@.subrange(st + 1, n.len() as int));
        if sk == sw {
            assert(sk[0] == sw[0]);
            assert(n@.subrange(st + 1, n.len() as int) =~= sk.drop_first());
            assert(sw.drop_first() =~= w@);
        }
        if r {
            assert(sk =~= sw);
        }
    }
    r
}

fn keeps_exec(k: &String, ws: &Vec<String>, packages: &Vec<String>) -> (r: bool)
    ensures
        r == keeps(k@, keys_view(ws@), keys_view(packages@)),
{
    let kc = chars_of(k.as_str());
    let mut i: usize = 0;
    while i < packages.len()
        invariant
            i <= packages.len(),
            kc@ == k@,
            forall|j: int| 0 <= j < i ==> packages@[j]@ != k@,
        decreases packages.len() - i,
    {
        if string_is(&packages[i], &kc) {
            assert(keys_view(packages@)[i as int] == k@);
            return true;
        }
        i += 1;
    }
    assert(!keys_view(packages@).contains(k@));
    match extract_file_path(k.as_str()) {
        None => false,
        Some(p) => {
            let pc = chars_of(p.as_str());
            let n = if pc.len() >= 2 && pc[0] == '.' && pc[1] == '/' {
                sub_chars(&pc, 2, pc.len())
            } else {
                sub_chars(&pc, 0, pc.len())
            };
            assert(n@ =~= strip_dot_slash(p@));
            let mut w: usize = 0;
            while w < ws.len()
                invariant
                    w <= ws.len(),
                    n@ == strip_dot_slash(p@),
                    file_path_of(k@) == Some(p@),
                    !keys_view(packages@).contains(k@),
                    forall|j: int| 0 <= j < w ==> !names_workspace(n@, keys_view(ws@)[j]),
                decreases ws.len() - w,
            {
                let wc = chars_of(ws[w].as_str());
                assert(keys_view(ws@)[w as int] == ws@[w as int]@);
                if ends_with_workspace(&n, &wc) {
                    assert(names_workspace(strip_dot_slash(p@), keys_view(ws@)[w as int]));
                    assert(exists|x: int|
                        0 <= x < keys_view(ws@).len() && names_workspace(
                            strip_dot_slash(p@),
                            keys_view(ws@)[x],
                        ));
                    return true;
                }
                w += 1;
            }
            false
        },
    }
}

/// Whether `v` needs quotes to be read back: it is empty, starts with
/// something other than a letter or with `true` or `false`, or holds a
/// colon, whitespace, a backslash, a quote, a comma or a bracket.
pub open spec fn needs_quotes(v: Seq<char>) -> bool {
    ||| v.len() == 0
    ||| !(('a' <= v[0] && v[0] <= 'z') || ('A' <= v[0] && v[0] <= 'Z'))
    ||| starts_with(v, "true"@)
    ||| starts_with(v, "false"@)
    ||| exists|i: int| 0 <= i < v.len() && special_char(#[trigger] v[i])
}

pub open spec fn special_char(c: char) -> bool {
    c == ':' || crate::text::is_ws(c) || c == '\\' || c == '"' || c == ',' || c == '[' || c == ']'
}

pub open spec fn wrap(v: Seq<char>) -> Seq<char> {
    if needs_quotes(v) {
        seq!['"'] + v + seq!['"']
    } else {
        v
    }
}

pub open spec fn field_line(name: Seq<char>, v: Seq<char>) -> Seq<char> {
    seq![' ', ' '] + name + seq![' '] + wrap(v) + seq!['\n']
}

pub open spec fn opt_field(name: Seq<char>, o: Option<Seq<char>>) -> Seq<char> {
    match o {
        Some(v) => field_line(name, v),
        None => Seq::empty(),
    }
}

pub open spec fn dep_lines(ps: Seq<(Seq<char>, Seq<char>)>) -> Seq<char>
    decreases ps.len(),
{
    if ps.len() == 0 {
        Seq::empty()
    } else {
        dep_lines(ps.drop_last()) + seq![' ', ' ', ' ', ' '] + wrap(ps.last().0) + seq![' '] + wrap(
            ps.last().1,
        ) + seq!['\n']
    }
}

pub open spec fn dep_section(name: Seq<char>, o: Option<Seq<(Seq<char>, Seq<char>)>>) -> Seq<char> {
    match o {
        Some(ps) => seq![' ', ' '] + name + seq![':', '\n'] + dep_lines(ps),
        None => Seq::empty(),
    }
}

/// The block of one entry: a blank line, the key, then the fields in
/// yarn's order.
pub open spec fn block(k: Seq<char>, e: EntryView) -> Seq<char> {
    seq!['\n'] + wrap(k) + seq![':', '\n'] + opt_field("name"@, e.name) + field_line(
        "version"@,
        e.version,
    ) + opt_field("uid"@, e.uid) + opt_field("resolved"@, e.resolved) + opt_field(
        "integrity"@,
        e.integrity,
    ) + opt_field("registry"@, e.registry) + dep_section("dependencies"@, e.dependencies)
        + dep_section("optionalDependencies"@, e.optional_dependencies)
}

pub open spec fn encode_entries(s: Seq<(Seq<char>, EntryView)>) -> Seq<char>
    decreases s.len(),
{
    if s.len() == 0 {
        Seq::empty()
    } else {
        encode_entries(s.drop_last()) + block(s.last().0, s.last().1)
    }
}

pub const HEADER: &'static str =
    "# THIS IS AN AUTOGENERATED FILE. DO NOT EDIT THIS FILE DIRECTLY.\n# yarn lockfile v1\n";

/// The text of a lockfile holding `s`.
pub open spec fn encode_text(s: Seq<(Seq<char>, EntryView)>) -> Seq<char> {
    HEADER@ + encode_entries(s)
}

fn needs_quotes_exec(v: &str) -> (r: bool)
    ensures
        r == needs_quotes(v@),
{
    let cs = chars_of(v);
    if cs.len() == 0 {
        return true;
    }
    let c0 = cs[0];
    if !(('a' <= c0 && c0 <= 'z') || ('A' <= c0 && c0 <= 'Z')) {
        return true;
    }
    let t = chars_of("true");
    if cs.len() >= t.len() && chars_eq(&cs, 0, t.len(), &t) {
        return true;
    }
    let f = chars_of("false");
    if cs.len() >= f.len() && chars_eq(&cs, 0, f.len(), &f) {
        return true;
    }
    let mut i: usize = 0;
    while i < cs.len()
        invariant
            i <= cs.len(),
            cs@ == v@,
            forall|j: int| 0 <= j < i ==> !special_char(#[trigger] cs@[j]),
        decreases cs.len() - i,
    {
        let c = cs[i];
        if c == ':' || crate::text::char_is_ws(c) || c == '\\' || c == '"' || c == ',' || c == '['
            || c == ']' {
            assert(special_char(v@[i as int]));
            return true;
        }
        i += 1;
    }
    false
}

fn append_wrapped(out: &mut String, v: &str)
    ensures
        final(out)@ == old(out)@ + wrap(v@),
{
    if needs_quotes_exec(v) {
        push_char(out, '"');
        out.append(v);
        push_char(out, '"');
    } else {
        out.append(v);
    }
}

fn append_field(out: &mut String, name: &str, v: &str)
    ensures
        final(out)@ == old(out)@ + field_line(name@, v@),
{
    push_char(out, ' ');
    push_char(out, ' ');
    out.append(name);
    push_char(out, ' ');
    append_wrapped(out, v);
    push_char(out, '\n');
}

fn append_opt_field(out: &mut String, name: &str, o: &Option<String>)
    ensures
        final(out)@ == old(out)@ + opt_field(name@, str_opt(*o)),
{
    match o {
        Some(v) => append_field(out, name, v.as_str()),
        None => {},
    }
}

fn append_deps(out: &mut String, name: &str, o: &Option<Vec<(String, String)>>)
    ensures
        final(out)@ == old(out)@ + dep_section(name@, pairs_opt(*o)),
{
    match o {
        Some(ps) => {
            let ghost o0 = out@;
            push_char(out, ' ');
            push_char(out, ' ');
            out.append(name);
            push_char(out, ':');
            push_char(out, '\n');
            let ghost head = out@;
            let ghost pv = pairs_view(ps@);
            let mut i: usize = 0;
            while i < ps.len()
                invariant
                    i <= ps.len(),
                    pv == pairs_view(ps@),
                    out@ == head + dep_lines(pv.take(i as int)),
                decreases ps.len() - i,
            {
                push_char(out, ' ');
                push_char(out, ' ');
                push_char(out, ' ');
                push_char(out, ' ');
                append_wrapped(out, ps[i].0.as_str());
                push_char(out, ' ');
                append_wrapped(out, ps[i].1.as_str());
                push_char(out, '\n');
                assert(pv.take(i + 1).drop_last() =~= pv.take(i as int));
                i += 1;
            }
            assert(pv.take(ps.len() as int) =~= pv);
        },
        None => {},
    }
}

fn append_block(out: &mut String, k: &String, e: &Entry)
    ensures
        final(out)@ == old(out)@ + block(k@, e@),
{
    let mut b = String::new();
    push_char(&mut b, '\n');
    append_wrapped(&mut b, k.as_str());
    push_char(&mut b, ':');
    push_char(&mut b, '\n');
    append_opt_field(&mut b, "name", &e.name);
    append_field(&mut b, "version", e.version.as_str());
    append_opt_field(&mut b, "uid", &e.uid);
    append_opt_field(&mut b, "resolved", &e.resolved);
    append_opt_field(&mut b, "integrity", &e.integrity);
    append_opt_field(&mut b, "registry", &e.registry);
    append_deps(&mut b, "dependencies", &e.dependencies);
    append_deps(&mut b, "optionalDependencies", &e.optional_dependencies);
    assert(b@ =~= block(k@, e@));
    out.append(b.as_str());
}

impl Entry {
    /// The dependencies followed by the optional ones.
    pub fn dependency_entries(&self) -> (r: Vec<(String, String)>)
        ensures
            pairs_view(r@) == dependency_pairs(self@),
    {
        let mut r = match &self.dependencies {
            Some(d) => copy_pairs(d),
            None => Vec::new(),
        };
        assert(pairs_view(r@) =~= match self@.dependencies {
            Some(d) => d,
            None => Seq::empty(),
        });
        match &self.optional_dependencies {
            Some(o) => {
                let mut extra = copy_pairs(o);
                let ghost a = pairs_view(r@);
                let ghost b = pairs_view(extra@);
                r.append(&mut extra);
                assert(pairs_view(r@) =~= a + b);
            },
            None => {
                assert(dependency_pairs(self@) =~= pairs_view(r@));
            },
        }
        r
    }
}

impl Yarn1Lockfile {
    /// Reads a lockfile from bytes, which must be UTF-8.
    pub fn from_bytes(input: &[u8]) -> (r: Result<Self, Error>)
        ensures
            !vstd::utf8::valid_utf8(input@) ==> r == Err::<Self, Error>(Error::NonUTF8),
            vstd::utf8::valid_utf8(input@) ==> match r {
                Ok(l) => parse_text(vstd::utf8::decode_utf8(input@)) == Ok::<
                    Seq<(Seq<char>, EntryView)>,
                    ParseFailure,
                >(l@),
                Err(e) => parse_text(vstd::utf8::decode_utf8(input@)) matches Err(f) && failure_is(
                    e,
                    f,
                ),
            },
    {
        match utf8_text(input) {
            Some(s) => Self::from_str(s),
            None => Err(Error::NonUTF8),
        }
    }

    /// The entry stored under the first of `name@<protocol><version>` that
    /// the lockfile holds. The workspace path plays no part in yarn v1.
    pub fn resolve_package(&self, _workspace_path: &str, name: &str, version: &str) -> (r: Result<
        Option<Package>,
        Error,
    >)
        ensures
            match r {
                Ok(Some(p)) => first_present(self@, possible_keys_spec(name@, version@)) == Some(
                    (p.key@, lookup(self@, p.key@)->0),
                ) && p.version@ == lookup(self@, p.key@)->0.version,
                Ok(None) => first_present(self@, possible_keys_spec(name@, version@)) is None,
                Err(_) => false,
            },
    {
        let keys = possible_keys(name, version);
        let ghost kv = keys_view(keys@);
        let mut i: usize = 0;
        assert(kv.skip(0) =~= kv);
        while i < keys.len()
            invariant
                i <= keys.len(),
                kv == keys_view(keys@),
                kv == possible_keys_spec(name@, version@),
                first_present(self@, kv) == first_present(self@, kv.skip(i as int)),
            decreases keys.len() - i,
        {
            assert(kv.skip(i as int)[0] == kv[i as int]);
            assert(kv[i as int] == keys@[i as int]@);
            assert(kv.skip(i as int).drop_first() =~= kv.skip(i + 1));
            match lookup_exec(&self.inner, &keys[i]) {
                Some(e) => {
                    return Ok(Some(Package { key: keys[i].clone(), version: e.version.clone() }));
                },
                None => {},
            }
            i += 1;
        }
        assert(kv.skip(i as int).len() == 0);
        Ok(None)
    }

    /// The dependencies of the entry under `key`, optional ones included;
    /// `None` where there is no such entry or it has none.
    pub fn all_dependencies(&self, key: &str) -> (r: Result<Option<KeyValueMap>, Error>)
        ensures
            match r {
                Ok(Some(m)) => lookup(self@, key@) matches Some(e) && m@ == pairs_map(
                    dependency_pairs(e),
                ) && m@ != Map::<Seq<char>, Seq<char>>::empty(),
                Ok(None) => match lookup(self@, key@) {
                    Some(e) => pairs_map(dependency_pairs(e)) == Map::<
                        Seq<char>,
                        Seq<char>,
                    >::empty(),
                    None => true,
                },
                Err(_) => false,
            },
    {
        let k = key.to_owned();
        match lookup_exec(&self.inner, &k) {
            None => Ok(None),
            Some(e) => {
                let pairs = e.dependency_entries();
                let ghost pv = pairs_view(pairs@);
                let mut m = KeyValueMap::new();
                let mut i: usize = 0;
                while i < pairs.len()
                    invariant
                        i <= pairs.len(),
                        pv == pairs_view(pairs@),
                        m@ == pairs_map(pv.take(i as int)),
                    decreases pairs.len() - i,
                {
                    assert(pv.take(i + 1).drop_last() =~= pv.take(i as int));
                    m.insert(pairs[i].0.clone(), pairs[i].1.clone());
                    i += 1;
                }
                assert(pv.take(pairs.len() as int) =~= pv);
                if m.is_empty() {
                    Ok(None)
                } else {
                    Ok(Some(m))
                }
            },
        }
    }

    /// The lockfile pruned to the entries of `packages`, plus the `file:`
    /// entries that point at one of `workspace_packages`, which
    /// `yarn install --frozen-lockfile` needs after pruning.
    pub fn subgraph(&self, workspace_packages: &Vec<String>, packages: &Vec<String>) -> (r: Result<
        Self,
        Error,
    >)
        ensures
            match r {
                Ok(l) => l@ == subgraph_spec(
                    self@,
                    keys_view(workspace_packages@),
                    keys_view(packages@),
                ) && sorted_keys(l@),
                Err(_) => false,
            },
    {
        let ghost ws = keys_view(workspace_packages@);
        let ghost pk = keys_view(packages@);
        let ghost s = entries_view(self.inner@);
        let mut inner: Vec<(String, Entry)> = Vec::new();
        let mut i: usize = 0;
        assert(s.take(0) =~= Seq::<(Seq<char>, EntryView)>::empty());
        while i < self.inner.len()
            invariant
                i <= self.inner.len(),
                s == entries_view(self.inner@),
                ws == keys_view(workspace_packages@),
                pk == keys_view(packages@),
                entries_view(inner@) == subgraph_spec(s.take(i as int), ws, pk),
            decreases self.inner.len() - i,
        {
            assert(s.take(i + 1).drop_last() =~= s.take(i as int));
            assert(s.take(i + 1).last() == s[i as int]);
            assert(s[i as int] == (self.inner@[i as int].0@, self.inner@[i as int].1@));
            if keeps_exec(&self.inner[i].0, workspace_packages, packages) {
                let ghost i0 = inner@;
                inner.push((self.inner[i].0.clone(), copy_entry(&self.inner[i].1)));
                assert(entries_view(inner@) =~= entries_view(i0).push(s[i as int]));
            }
            i += 1;
        }
        assert(s.take(self.inner.len() as int) =~= s);
        proof {
            use_type_invariant(self);
            lemma_subgraph_sorted(s, ws, pk);
        }
        Ok(Yarn1Lockfile { inner })
    }

    /// The lockfile as text.
    pub fn encode_string(&self) -> (r: String)
        ensures
            r@ == encode_text(self@),
    {
        let ghost s = entries_view(self.inner@);
        let mut out = HEADER.to_owned();
        let mut i: usize = 0;
        assert(s.take(0) =~= Seq::<(Seq<char>, EntryView)>::empty());
        while i < self.inner.len()
            invariant
                i <= self.inner.len(),
                s == entries_view(self.inner@),
                out@ == HEADER@ + encode_entries(s.take(i as int)),
            decreases self.inner.len() - i,
        {
            assert(s.take(i + 1).drop_last() =~= s.take(i as int));
            append_block(&mut out, &self.inner[i].0, &self.inner[i].1);
            i += 1;
        }
        assert(s.take(self.inner.len() as int) =~= s);
        out
    }

    /// The lockfile as UTF-8 bytes.
    pub fn encode(&self) -> (r: Result<Vec<u8>, Error>)
        ensures
            match r {
                Ok(b) => b@ == vstd::utf8::encode_utf8(encode_text(self@)),
                Err(_) => false,
            },
    {
        let text = self.encode_string();
        Ok(vstd::slice::slice_to_vec(text.as_str().as_bytes()))
    }

    /// The version of `turbo` that the lockfile pins: that of the first
    /// entry whose key starts with `turbo@`, where it is a SemVer version.
    /// Anything else, a path or a URL among them, gives `None`.
    pub fn turbo_version(&self) -> (r: Option<String>)
        ensures
            str_opt(r) == turbo_version_spec(self@),
    {
        let ghost s = entries_view(self.inner@);
        let prefix = chars_of(TURBO_PREFIX);
        let mut i: usize = 0;
        while i < self.inner.len()
            invariant
                i <= self.inner.len(),
                s == entries_view(self.inner@),
                prefix@ == TURBO_PREFIX@,
                forall|j: int| 0 <= j < i ==> !starts_with(#[trigger] s[j].0, TURBO_PREFIX@),
            decreases self.inner.len() - i,
        {
            let kc = chars_of(self.inner[i].0.as_str());
            if kc.len() >= prefix.len() && chars_eq(&kc, 0, prefix.len(), &prefix) {
                assert(kc@.subrange(0, prefix.len() as int) =~= kc@.take(prefix.len() as int));
                assert(first_turbo_at(s, i as int));
                proof {
                    let c = choose|c: int| first_turbo_at(s, c);
                    if c < i {
                        assert(!starts_with(s[c].0, TURBO_PREFIX@));
                    } else if c > i {
                        assert(!starts_with(s[i as int].0, TURBO_PREFIX@));
                    }
                }
                let v = &self.inner[i].1.version;
                if parses_as_semver(v.as_str()) {
                    return Some(v.clone());
                } else {
                    return None;
                }
            }
            proof {
                if starts_with(s[i as int].0, TURBO_PREFIX@) {
                    assert(kc@.subrange(0, prefix.len() as int) =~= kc@.take(prefix.len() as int));
                }
            }
            i += 1;
        }
        None
    }

    /// `name@version` of the entry for `package`, where that entry names
    /// its package.
    pub fn human_name(&self, package: &Package) -> (r: Option<String>)
        ensures
            match r {
                Some(h) => lookup(self@, package.key@) matches Some(e) && e.name matches Some(n)
                    && h@ == n + AT@ + e.version,
                None => !(lookup(self@, package.key@) matches Some(e) && e.name is Some),
            },
    {
        match lookup_exec(&self.inner, &package.key) {
            Some(e) => match &e.name {
                Some(n) => {
                    let mut h = n.clone();
                    h.append(AT);
                    h.append(e.version.as_str());
                    Some(h)
                },
                None => None,
            },
            None => None,
        }
    }
}

/// Prunes a yarn v1 lockfile to `packages` and writes it back.
pub fn yarn_subgraph(contents: &[u8], packages: &Vec<String>) -> (r: Result<Vec<u8>, Error>)
    ensures
        !vstd::utf8::valid_utf8(contents@) ==> r == Err::<Vec<u8>, Error>(Error::NonUTF8),
        vstd::utf8::valid_utf8(contents@) ==> match parse_text(vstd::utf8::decode_utf8(contents@)) {
            Ok(s) => r matches Ok(b) && b@ == vstd::utf8::encode_utf8(
                encode_text(subgraph_spec(s, Seq::empty(), keys_view(packages@))),
            ),
            Err(f) => r matches Err(e) && failure_is(e, f),
        },
{
    let lockfile = match Yarn1Lockfile::from_bytes(contents) {
        Ok(l) => l,
        Err(e) => return Err(e),
    };
    let none: Vec<String> = Vec::new();
    assert(keys_view(none@) =~= Seq::<Seq<char>>::empty());
    let pruned = match lockfile.subgraph(&none, packages) {
        Ok(p) => p,
        Err(e) => return Err(e),
    };
    pruned.encode()
}

} // verus!
