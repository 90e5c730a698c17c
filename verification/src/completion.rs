//! What a document offers to complete, and where each kind of item applies.

use vstd::prelude::*;

use crate::parser::ast::{stmts_view, BranchView, ChoiceView, NodeDecl, Stmt, StmtKind, StmtKindView, StmtView};
use crate::parser::tree::{node_names, nodes_view, NodeView};
use crate::text;

verus! {

/// What the text before the cursor asks for.
#[derive(Debug, Clone, Copy, PartialEq, Eq, Structural)]
pub enum Context {
    /// After `$`
    Variable,
    /// After `>>`
    Command { needs_space: bool },
    /// After `=>`.
    Node { needs_space: bool },
    /// On the first word of a line: a speaker, or a command to prefix with `>>`.
    LineStart,
}

/// Index of the last `c` among the first `n` characters of `p`.
pub open spec fn last_index(p: Seq<char>, c: char, n: int) -> Option<int>
    decreases n,
{
    if n <= 0 {
        None
    } else if p[n - 1] == c {
        Some(n - 1)
    } else {
        last_index(p, c, n - 1)
    }
}

/// Whether `c` may stand in the name of a variable being typed.
pub open spec fn var_char(c: char) -> bool {
    text::unicode_alphanumeric(c) || c == '_'
}

/// Whether `s` holds `c`.
pub open spec fn holds(s: Seq<char>, c: char) -> bool {
    exists|i: int| 0 <= i < s.len() && s[i] == c
}

/// Whether `s` holds a blank.
pub open spec fn holds_blank(s: Seq<char>) -> bool {
    exists|i: int| 0 <= i < s.len() && text::is_ws(s[i])
}

/// Whether `s` starts with a blank.
pub open spec fn starts_blank(s: Seq<char>) -> bool {
    s.len() > 0 && text::is_ws(s[0])
}

/// Whether `line` starts with the two characters `a` and `b`.
pub open spec fn starts2(line: Seq<char>, a: char, b: char) -> bool {
    line.len() >= 2 && line[0] == a && line[1] == b
}

/// Whether `c` starts a marker that owns its line: `-`, `=`, `:`, `>`, `[`
/// or `/`.
pub open spec fn marker_start(c: char) -> bool {
    c == '-' || c == '=' || c == ':' || c == '>' || c == '[' || c == '/'
}

/// What the line `line`, without its indentation, asks for once no
/// variable is being typed.
pub open spec fn line_context(line: Seq<char>) -> Option<Context> {
    if starts2(line, '>', '>') {
        let rest = line.skip(2);
        if holds(rest, '(') {
            None
        } else {
            Some(Context::Command { needs_space: !starts_blank(rest) })
        }
    } else if starts2(line, '=', '>') {
        let rest = line.skip(2);
        if holds_blank(text::trim_start(rest)) {
            None
        } else {
            Some(Context::Node { needs_space: !starts_blank(rest) })
        }
    } else if line.len() > 0 && marker_start(line[0]) {
        None
    } else if holds_blank(line) || holds(line, ':') {
        None
    } else {
        Some(Context::LineStart)
    }
}

/// What to complete, given the text of the line before the cursor: a
/// variable right after a `$` and its name so far, wherever it stands;
/// else what the marker the line starts with names.
pub open spec fn context_spec(prefix: Seq<char>) -> Option<Context> {
    let sigil = last_index(prefix, '$', prefix.len() as int);
    if sigil is Some && (forall|i: int| sigil->0 < i < prefix.len() ==> var_char(#[trigger] prefix[i])) {
        Some(Context::Variable)
    } else {
        line_context(text::trim_start(prefix))
    }
}

/// Whether every character of `cs[from..to]` may stand in a variable name.
fn all_var_chars(cs: &Vec<char>, from: usize, to: usize) -> (r: bool)
    requires
        from <= to <= cs@.len(),
    ensures
        r == forall|i: int| from <= i < to ==> var_char(#[trigger] cs@[i]),
{
    let mut i = from;
    while i < to
        invariant
            from <= i <= to <= cs@.len(),
            forall|j: int| from <= j < i ==> var_char(#[trigger] cs@[j]),
        decreases to - i,
    {
        if !(text::is_alphanumeric(cs[i]) || cs[i] == '_') {
            return false;
        }
        i = i + 1;
    }
    true
}

/// Whether `cs[from..to]` holds a blank.
fn any_blank(cs: &Vec<char>, from: usize, to: usize) -> (r: bool)
    requires
        from <= to <= cs@.len(),
    ensures
        r == holds_blank(cs@.subrange(from as int, to as int)),
{
    let ghost sub = cs@.subrange(from as int, to as int);
    let mut i = from;
    while i < to
        invariant
            from <= i <= to <= cs@.len(),
            sub == cs@.subrange(from as int, to as int),
            forall|j: int| from <= j < i ==> !text::is_ws(#[trigger] cs@[j]),
        decreases to - i,
    {
        if text::is_whitespace(cs[i]) {
            proof {
                assert(sub[i - from] == cs@[i as int]);
            }
            return true;
        }
        i = i + 1;
    }
    proof {
        assert forall|j: int| 0 <= j < sub.len() implies !text::is_ws(sub[j]) by {
            assert(sub[j] == cs@[from + j]);
        }
    }
    false
}

/// Whether `cs[from..to]` holds `c`.
fn any_char(cs: &Vec<char>, from: usize, to: usize, c: char) -> (r: bool)
    requires
        from <= to <= cs@.len(),
    ensures
        r == holds(cs@.subrange(from as int, to as int), c),
{
    let ghost sub = cs@.subrange(from as int, to as int);
    match text::find_char(cs, from, to, c) {
        Some(i) => {
            proof {
                assert(sub[i - from] == c);
            }
            true
        },
        None => {
            proof {
                assert forall|j: int| 0 <= j < sub.len() implies sub[j] != c by {
                    assert(sub[j] == cs@[from + j]);
                }
            }
            false
        },
    }
}

/// What to complete, given the text of the line before the cursor.
pub fn context(prefix: &str) -> (r: Option<Context>)
    ensures
        r == context_spec(prefix@),
{
    let cs = text::to_chars(prefix);
    let n = cs.len();
    let ghost p = prefix@;
    let mut k = n;
    while k > 0 && cs[k - 1] != '$'
        invariant
            k <= n,
            n == cs@.len(),
            cs@ == p,
            last_index(p, '$', k as int) == last_index(p, '$', n as int),
        decreases k,
    {
        k = k - 1;
    }
    if k > 0 && all_var_chars(&cs, k, n) {
        return Some(Context::Variable);
    }
    let lead = text::lead_count(&cs, 0, n);
    let ghost line = text::trim_start(p);
    proof {
        assert(cs@.subrange(0, n as int) =~= p);
        assert(line =~= cs@.subrange(lead as int, n as int));
    }
    let len = n - lead;
    if len >= 2 && cs[lead] == '>' && cs[lead + 1] == '>' {
        proof {
            assert(line.skip(2) =~= cs@.subrange(lead + 2, n as int));
        }
        if any_char(&cs, lead + 2, n, '(') {
            return None;
        }
        let blank = lead + 2 < n && text::is_whitespace(cs[lead + 2]);
        return Some(Context::Command { needs_space: !blank });
    }
    if len >= 2 && cs[lead] == '=' && cs[lead + 1] == '>' {
        let inner = text::lead_count(&cs, lead + 2, n);
        proof {
            let rest = cs@.subrange(lead + 2, n as int);
            assert(line.skip(2) =~= rest);
            assert(text::trim_start(rest) =~= cs@.subrange(lead + 2 + inner, n as int));
        }
        if any_blank(&cs, lead + 2 + inner, n) {
            return None;
        }
        let blank = lead + 2 < n && text::is_whitespace(cs[lead + 2]);
        return Some(Context::Node { needs_space: !blank });
    }
    if len > 0 {
        let c = cs[lead];
        if c == '-' || c == '=' || c == ':' || c == '>' || c == '[' || c == '/' {
            return None;
        }
    }
    if any_blank(&cs, lead, n) || any_char(&cs, lead, n, ':') {
        return None;
    }
    Some(Context::LineStart)
}

/// `name`, after the blank a marker is missing when the cursor sits right
/// after it.
pub open spec fn pad_spec(needs_space: bool, name: Seq<char>) -> Seq<char> {
    if needs_space {
        seq![' '] + name
    } else {
        name
    }
}

/// The blank a marker is missing, when the cursor sits right after it.
pub fn pad(needs_space: bool, name: &str) -> (r: String)
    ensures
        r@ == pad_spec(needs_space, name@),
{
    if needs_space {
        let mut out = String::new();
        text::push_char(&mut out, ' ');
        text::push_str(&mut out, name);
        proof {
            assert(seq![' '] == Seq::<char>::empty().push(' '));
        }
        out
    } else {
        text::owned(name)
    }
}

/// The kinds of names a document gathers from its statements.
#[derive(Clone, Copy, PartialEq, Eq, Structural)]
pub enum NameKind {
    /// Who says a line.
    Speaker,
    /// What a `>>` calls.
    Command,
    /// What a `[let]` assigns.
    Var,
}

/// The names of kind `k` that `stmts` hold, looking into the bodies of
/// their choices and of their conditions, though not into those of their
/// loops.
pub open spec fn names_in(stmts: Seq<StmtView>, k: NameKind) -> Set<Seq<char>>
    decreases stmts,
{
    if stmts.len() == 0 {
        Set::empty()
    } else {
        names_in(stmts.subrange(0, stmts.len() - 1), k).union(names_of(stmts[stmts.len() - 1], k))
    }
}

/// The names of kind `k` that `s` holds.
pub open spec fn names_of(s: StmtView, k: NameKind) -> Set<Seq<char>>
    decreases s,
{
    match s.kind {
        StmtKindView::Say(Some(speaker), _) => if k == NameKind::Speaker {
            set![speaker.0]
        } else {
            Set::empty()
        },
        StmtKindView::Command(name, _) => if k == NameKind::Command {
            set![name.0]
        } else {
            Set::empty()
        },
        StmtKindView::Let(name, _, _) => if k == NameKind::Var {
            set![name.0]
        } else {
            Set::empty()
        },
        StmtKindView::If(branches, otherwise) => match otherwise {
            Some(body) => names_in(body, k),
            None => Set::empty(),
        }.union(names_in_branches(branches, k)),
        StmtKindView::Choice(choices) => names_in_choices(choices, k),
        _ => Set::empty(),
    }
}

/// The names of kind `k` that the bodies of `bs` hold.
pub open spec fn names_in_branches(bs: Seq<BranchView>, k: NameKind) -> Set<Seq<char>>
    decreases bs,
{
    if bs.len() == 0 {
        Set::empty()
    } else {
        names_in_branches(bs.subrange(0, bs.len() - 1), k).union(names_in(bs[bs.len() - 1].body, k))
    }
}

/// The names of kind `k` that the bodies of `cs` hold.
pub open spec fn names_in_choices(cs: Seq<ChoiceView>, k: NameKind) -> Set<Seq<char>>
    decreases cs,
{
    if cs.len() == 0 {
        Set::empty()
    } else {
        names_in_choices(cs.subrange(0, cs.len() - 1), k).union(names_in(cs[cs.len() - 1].body, k))
    }
}

/// What each statement of `stmts` names is among the names gathered from
/// `stmts`.
pub proof fn lemma_statement_names_gathered(stmts: Seq<StmtView>, i: int, k: NameKind)
    requires
        0 <= i < stmts.len(),
    ensures
        names_of(stmts[i], k).subset_of(names_in(stmts, k)),
    decreases stmts.len(),
{
    let front = stmts.subrange(0, stmts.len() - 1);
    if i < stmts.len() - 1 {
        lemma_statement_names_gathered(front, i, k);
        assert(front[i] == stmts[i]);
    }
}

/// What the body of each option names is among the names of the choice.
pub proof fn lemma_option_names_gathered(cs: Seq<ChoiceView>, m: int, k: NameKind)
    requires
        0 <= m < cs.len(),
    ensures
        names_in(cs[m].body, k).subset_of(names_in_choices(cs, k)),
    decreases cs.len(),
{
    let front = cs.subrange(0, cs.len() - 1);
    if m < cs.len() - 1 {
        lemma_option_names_gathered(front, m, k);
        assert(front[m] == cs[m]);
    }
}

/// What the body of each branch names is among the names of the branches.
pub proof fn lemma_branch_names_gathered(bs: Seq<BranchView>, m: int, k: NameKind)
    requires
        0 <= m < bs.len(),
    ensures
        names_in(bs[m].body, k).subset_of(names_in_branches(bs, k)),
    decreases bs.len(),
{
    let front = bs.subrange(0, bs.len() - 1);
    if m < bs.len() - 1 {
        lemma_branch_names_gathered(front, m, k);
        assert(front[m] == bs[m]);
    }
}

/// Every name said, called or assigned in the body of any option of a
/// choice, of any branch of an `[if]`, or of its `[else]`, is among the names
/// gathered from the statements around them.
pub proof fn lemma_nested_names_gathered(stmts: Seq<StmtView>, i: int, m: int, k: NameKind)
    requires
        0 <= i < stmts.len(),
    ensures
        stmts[i].kind matches StmtKindView::Choice(cs) ==> (0 <= m < cs.len() ==> names_in(
            cs[m].body,
            k,
        ).subset_of(names_in(stmts, k))),
        stmts[i].kind matches StmtKindView::If(bs, _) ==> (0 <= m < bs.len() ==> names_in(
            bs[m].body,
            k,
        ).subset_of(names_in(stmts, k))),
        stmts[i].kind matches StmtKindView::If(_, Some(body)) ==> names_in(body, k).subset_of(
            names_in(stmts, k),
        ),
{
    lemma_statement_names_gathered(stmts, i, k);
    match stmts[i].kind {
        StmtKindView::Choice(cs) => {
            if 0 <= m < cs.len() {
                lemma_option_names_gathered(cs, m, k);
            }
        },
        StmtKindView::If(bs, _) => {
            if 0 <= m < bs.len() {
                lemma_branch_names_gathered(bs, m, k);
            }
        },
        _ => {},
    }
}

/// The names of kind `k` that the first `n` nodes hold.
pub open spec fn names_in_nodes(nodes: Seq<NodeView>, k: NameKind, n: int) -> Set<Seq<char>>
    decreases n,
{
    if n <= 0 {
        Set::empty()
    } else {
        names_in_nodes(nodes, k, n - 1).union(names_in(nodes[n - 1].body, k))
    }
}

/// The texts of `v`.
pub open spec fn texts(v: Seq<String>) -> Seq<Seq<char>> {
    v.map_values(|s: String| s@)
}

/// Every name a document knows, sorted by what it names, each once.
pub struct Completion {
    pub nodes: Vec<String>,
    pub characters: Vec<String>,
    pub commands: Vec<String>,
    pub vars: Vec<String>,
}

impl Completion {
    /// No list names anything twice.
    pub open spec fn wf(self) -> bool {
        &&& texts(self.nodes@).no_duplicates()
        &&& texts(self.characters@).no_duplicates()
        &&& texts(self.commands@).no_duplicates()
        &&& texts(self.vars@).no_duplicates()
    }

    /// Gathers the names of `nodes`, and the speakers, commands and
    /// variables of their statements.
    pub fn new(nodes: &[NodeDecl]) -> (r: Self)
        ensures
            r.wf(),
            texts(r.nodes@).to_set() == node_names(nodes_view(nodes@)).to_set(),
            texts(r.characters@).to_set() == names_in_nodes(nodes_view(nodes@), NameKind::Speaker, nodes@.len() as int),
            texts(r.commands@).to_set() == names_in_nodes(nodes_view(nodes@), NameKind::Command, nodes@.len() as int),
            texts(r.vars@).to_set() == names_in_nodes(nodes_view(nodes@), NameKind::Var, nodes@.len() as int),
    {
        let ghost nv = nodes_view(nodes@);
        let mut names: Vec<String> = Vec::new();
        let mut characters: Vec<String> = Vec::new();
        let mut commands: Vec<String> = Vec::new();
        let mut vars: Vec<String> = Vec::new();
        proof {
            assert(texts(names@).to_set() =~= Set::empty());
            assert(texts(characters@).to_set() =~= Set::empty());
            assert(texts(commands@).to_set() =~= Set::empty());
            assert(texts(vars@).to_set() =~= Set::empty());
            assert(node_names(nv).take(0).to_set() =~= Set::empty());
        }
        let mut i: usize = 0;
        while i < nodes.len()
            invariant
                i <= nodes@.len(),
                nv == nodes_view(nodes@),
                texts(names@).no_duplicates(),
                texts(characters@).no_duplicates(),
                texts(commands@).no_duplicates(),
                texts(vars@).no_duplicates(),
                texts(names@).to_set() == node_names(nv).take(i as int).to_set(),
                texts(characters@).to_set() == names_in_nodes(nv, NameKind::Speaker, i as int),
                texts(commands@).to_set() == names_in_nodes(nv, NameKind::Command, i as int),
                texts(vars@).to_set() == names_in_nodes(nv, NameKind::Var, i as int),
            decreases nodes@.len() - i,
        {
            let ghost before = node_names(nv).take(i as int);
            add_name(&mut names, nodes[i].name.value.as_str());
            proof {
                assert(node_names(nv).take(i + 1) =~= before.push(nodes@[i as int].name.value@));
                before.lemma_push_to_set_commute(nodes@[i as int].name.value@);
            }
            collect(&nodes[i].body, NameKind::Speaker, &mut characters);
            collect(&nodes[i].body, NameKind::Command, &mut commands);
            collect(&nodes[i].body, NameKind::Var, &mut vars);
            i = i + 1;
        }
        proof {
            assert(node_names(nv).take(i as int) =~= node_names(nv));
        }
        Completion { nodes: names, characters, commands, vars }
    }
}

/// The views of branches are one per branch, in order.
proof fn lemma_branches_len(v: Seq<crate::parser::ast::Branch>)
    ensures
        crate::parser::ast::branches_view(v).len() == v.len(),
        forall|i: int| 0 <= i < v.len() ==> (#[trigger] crate::parser::ast::branches_view(v)[i]).body == stmts_view(v[i].body@),
    decreases v.len(),
{
    if v.len() > 0 {
        lemma_branches_len(v.subrange(0, v.len() - 1));
    }
}

/// Adds `name` to `v`, unless `v` already holds it.
fn add_name(v: &mut Vec<String>, name: &str)
    requires
        texts(old(v)@).no_duplicates(),
    ensures
        texts(final(v)@).no_duplicates(),
        texts(final(v)@).to_set() == texts(old(v)@).to_set().insert(name@),
{
    let ghost t = texts(v@);
    let mut i: usize = 0;
    while i < v.len()
        invariant
            i <= v@.len(),
            t == texts(v@),
            t.no_duplicates(),
            t.len() == v@.len(),
            forall|j: int| 0 <= j < i ==> t[j] != name@,
        decreases v@.len() - i,
    {
        if text::chars_eq(v[i].as_str(), name) {
            proof {
                assert(t[i as int] == name@);
                assert(t.to_set().insert(name@) =~= t.to_set());
            }
            return;
        }
        i = i + 1;
    }
    v.push(text::owned(name));
    proof {
        assert(texts(v@) =~= t.push(name@));
        t.lemma_push_to_set_commute(name@);
        assert(!t.contains(name@));
        assert(texts(v@).no_duplicates()) by {
            assert forall|a: int, b: int| 0 <= a < b < texts(v@).len() implies texts(v@)[a] != texts(v@)[b] by {
                if b == t.len() {
                    assert(t[a] != name@);
                }
            }
        }
    }
}

/// Adds to `into` the names of kind `k` that `stmts` hold, as
/// [`names_in`] gathers them.
fn collect(stmts: &Vec<Stmt>, k: NameKind, into: &mut Vec<String>)
    requires
        texts(old(into)@).no_duplicates(),
    ensures
        texts(final(into)@).no_duplicates(),
        texts(final(into)@).to_set() == texts(old(into)@).to_set().union(names_in(stmts_view(stmts@), k)),
    decreases stmts@,
{
    let ghost sv = stmts_view(stmts@);
    let ghost s0 = texts(into@).to_set();
    proof {
        crate::parser::tree::lemma_stmts_len(stmts@);
        assert(sv.take(0) =~= Seq::<StmtView>::empty());
        assert(s0.union(names_in(sv.take(0), k)) =~= s0);
    }
    let mut i: usize = 0;
    while i < stmts.len()
        invariant
            i <= stmts@.len(),
            sv == stmts_view(stmts@),
            sv.len() == stmts@.len(),
            forall|j: int| 0 <= j < stmts@.len() ==> #[trigger] sv[j] == crate::parser::ast::stmt_view(stmts@[j]),
            texts(into@).no_duplicates(),
            texts(into@).to_set() == s0.union(names_in(sv.take(i as int), k)),
        decreases stmts@.len() - i,
    {
        let ghost before = texts(into@).to_set();
        proof {
            assert(sv.take(i + 1).subrange(0, i as int) =~= sv.take(i as int));
        }
        match &stmts[i].kind {
            StmtKind::Say { speaker: Some(speaker), .. } => {
                if k == NameKind::Speaker {
                    add_name(into, speaker.value.as_str());
                }
            },
            StmtKind::Command { name, .. } => {
                if k == NameKind::Command {
                    add_name(into, name.value.as_str());
                }
            },
            StmtKind::Let { name, .. } => {
                if k == NameKind::Var {
                    add_name(into, name.value.as_str());
                }
            },
            StmtKind::If { branches, otherwise } => {
                proof {
                    let st = stmts@[i as int];
                    assert(decreases_to!(stmts@ => st));
                    assert(decreases_to!(st => st.kind));
                }
                match otherwise {
                    Some(body) => {
                        proof {
                            let st = stmts@[i as int];
                            assert(decreases_to!(st.kind => st.kind->otherwise));
                            assert(decreases_to!(st.kind->otherwise => body));
                            assert(decreases_to!(body => body@));
                        }
                        collect(body, k, into);
                    },
                    None => {},
                }
                let ghost bv = crate::parser::ast::branches_view(branches@);
                let ghost mid = texts(into@).to_set();
                proof {
                    lemma_branches_len(branches@);
                    assert(bv.take(0) =~= Seq::<BranchView>::empty());
                    assert(mid.union(names_in_branches(bv.take(0), k)) =~= mid);
                }
                let mut j: usize = 0;
                while j < branches.len()
                    invariant
                        i < stmts@.len(),
                        stmts@[i as int].kind is If,
                        stmts@[i as int].kind->branches == *branches,
                        j <= branches@.len(),
                        bv == crate::parser::ast::branches_view(branches@),
                        bv.len() == branches@.len(),
                        forall|m: int| 0 <= m < branches@.len() ==> (#[trigger] bv[m]).body == stmts_view(branches@[m].body@),
                        texts(into@).no_duplicates(),
                        texts(into@).to_set() == mid.union(names_in_branches(bv.take(j as int), k)),
                    decreases branches@.len() - j,
                {
                    proof {
                        let st = stmts@[i as int];
                        let bs = st.kind->branches;
                        assert(decreases_to!(stmts@ => st));
                        assert(decreases_to!(st => st.kind));
                        assert(decreases_to!(st.kind => bs));
                        assert(decreases_to!(bs => bs@));
                        assert(decreases_to!(bs@ => bs@[j as int]));
                        assert(decreases_to!(bs@[j as int] => bs@[j as int].body));
                        assert(decreases_to!(bs@[j as int].body => bs@[j as int].body@));
                        assert(bv.take(j + 1).subrange(0, j as int) =~= bv.take(j as int));
                    }
                    let ghost at = texts(into@).to_set();
                    collect(&branches[j].body, k, into);
                    proof {
                        assert(mid.union(names_in_branches(bv.take(j as int), k)).union(names_in(bv[j as int].body, k))
                            =~= mid.union(names_in_branches(bv.take(j + 1), k)));
                    }
                    j = j + 1;
                }
                proof {
                    assert(bv.take(j as int) =~= bv);
                }
            },
            StmtKind::Choice { choices } => {
                let ghost cv = crate::parser::ast::choices_view(choices@);
                let ghost mid = texts(into@).to_set();
                proof {
                    crate::parser::tree::lemma_choices_len(choices@);
                    assert(cv.take(0) =~= Seq::<ChoiceView>::empty());
                    assert(mid.union(names_in_choices(cv.take(0), k)) =~= mid);
                }
                let mut j: usize = 0;
                while j < choices.len()
                    invariant
                        i < stmts@.len(),
                        stmts@[i as int].kind == (StmtKind::Choice { choices: *choices }),
                        j <= choices@.len(),
                        cv == crate::parser::ast::choices_view(choices@),
                        cv.len() == choices@.len(),
                        forall|m: int| 0 <= m < choices@.len() ==> (#[trigger] cv[m]).body == stmts_view(choices@[m].body@),
                        texts(into@).no_duplicates(),
                        texts(into@).to_set() == mid.union(names_in_choices(cv.take(j as int), k)),
                    decreases choices@.len() - j,
                {
                    proof {
                        let st = stmts@[i as int];
                        let cs = st.kind->choices;
                        assert(decreases_to!(stmts@ => st));
                        assert(decreases_to!(st => st.kind));
                        assert(decreases_to!(st.kind => cs));
                        assert(decreases_to!(cs => cs@));
                        assert(decreases_to!(cs@ => cs@[j as int]));
                        assert(decreases_to!(cs@[j as int] => cs@[j as int].body));
                        assert(decreases_to!(cs@[j as int].body => cs@[j as int].body@));
                        assert(cv.take(j + 1).subrange(0, j as int) =~= cv.take(j as int));
                    }
                    collect(&choices[j].body, k, into);
                    proof {
                        assert(mid.union(names_in_choices(cv.take(j as int), k)).union(names_in(cv[j as int].body, k))
                            =~= mid.union(names_in_choices(cv.take(j + 1), k)));
                    }
                    j = j + 1;
                }
                proof {
                    assert(cv.take(j as int) =~= cv);
                }
            },
            _ => {},
        }
        proof {
            assert(texts(into@).to_set() =~= before.union(names_of(sv[i as int], k)));
            assert(s0.union(names_in(sv.take(i as int), k)).union(names_of(sv[i as int], k))
                =~= s0.union(names_in(sv.take(i + 1), k)));
        }
        i = i + 1;
    }
    proof {
        assert(sv.take(i as int) =~= sv);
    }
}

/// Whether `a` comes before `b` in the order of their characters, which is
/// the order of their UTF-8 bytes, the one `String` sorts by.
pub open spec fn lex_lt(a: Seq<char>, b: Seq<char>) -> bool
    decreases a.len(),
{
    if a.len() == 0 {
        b.len() > 0
    } else if b.len() == 0 {
        false
    } else if a[0] < b[0] {
        true
    } else if a[0] == b[0] {
        lex_lt(a.drop_first(), b.drop_first())
    } else {
        false
    }
}

/// Whether each of `s` comes before the next.
pub open spec fn strictly_sorted(s: Seq<Seq<char>>) -> bool {
    forall|i: int, j: int| 0 <= i < j < s.len() ==> lex_lt(#[trigger] s[i], #[trigger] s[j])
}

/// No text comes before itself.
proof fn lemma_lex_irreflexive(a: Seq<char>)
    ensures
        !lex_lt(a, a),
    decreases a.len(),
{
    if a.len() > 0 {
        lemma_lex_irreflexive(a.drop_first());
    }
}

/// Of two texts, one comes before the other, or they are the same.
proof fn lemma_lex_total(a: Seq<char>, b: Seq<char>)
    ensures
        a == b || lex_lt(a, b) || lex_lt(b, a),
        !(lex_lt(a, b) && lex_lt(b, a)),
    decreases a.len(),
{
    if a.len() > 0 && b.len() > 0 && a[0] == b[0] {
        lemma_lex_total(a.drop_first(), b.drop_first());
        if a.drop_first() == b.drop_first() {
            assert(a =~= seq![a[0]] + a.drop_first());
            assert(b =~= seq![b[0]] + b.drop_first());
        }
    } else if a.len() == 0 && b.len() == 0 {
        assert(a =~= b);
    }
}

/// The order is transitive.
proof fn lemma_lex_transitive(a: Seq<char>, b: Seq<char>, c: Seq<char>)
    requires
        lex_lt(a, b),
        lex_lt(b, c),
    ensures
        lex_lt(a, c),
    decreases a.len(),
{
    if a.len() > 0 && b.len() > 0 && c.len() > 0 && a[0] == b[0] && b[0] == c[0] {
        lemma_lex_transitive(a.drop_first(), b.drop_first(), c.drop_first());
    }
}

/// Whether `a` comes before `b`, as [`lex_lt`] says.
fn lex_less(a: &str, b: &str) -> (r: bool)
    ensures
        r == lex_lt(a@, b@),
{
    let ca = text::to_chars(a);
    let cb = text::to_chars(b);
    let mut i: usize = 0;
    proof {
        assert(a@.skip(0) =~= a@);
        assert(b@.skip(0) =~= b@);
    }
    while i < ca.len() && i < cb.len() && ca[i] == cb[i]
        invariant
            i <= ca@.len(),
            i <= cb@.len(),
            ca@ == a@,
            cb@ == b@,
            lex_lt(a@, b@) == lex_lt(a@.skip(i as int), b@.skip(i as int)),
        decreases ca@.len() - i,
    {
        proof {
            assert(a@.skip(i as int).drop_first() =~= a@.skip(i + 1));
            assert(b@.skip(i as int).drop_first() =~= b@.skip(i + 1));
        }
        i = i + 1;
    }
    if i == ca.len() {
        i < cb.len()
    } else if i == cb.len() {
        false
    } else {
        ca[i] < cb[i]
    }
}

/// The texts of `v`, once inserting `x` at `p`.
proof fn lemma_texts_insert(v: Seq<String>, p: int, x: String)
    requires
        0 <= p <= v.len(),
    ensures
        texts(v.insert(p, x)) == texts(v).insert(p, x@),
{
    v.insert_ensures(p, x);
    texts(v).insert_ensures(p, x@);
    assert(texts(v.insert(p, x)) =~= texts(v).insert(p, x@));
}

/// Inserting `x` where it belongs keeps a sorted sequence sorted.
proof fn lemma_insert_sorted(o: Seq<Seq<char>>, p: int, x: Seq<char>)
    requires
        0 <= p <= o.len(),
        strictly_sorted(o),
        forall|q: int| 0 <= q < p ==> lex_lt(#[trigger] o[q], x),
        p < o.len() ==> lex_lt(x, o[p]),
    ensures
        strictly_sorted(o.insert(p, x)),
{
    let n2 = o.insert(p, x);
    o.insert_ensures(p, x);
    assert forall|a: int, b: int| 0 <= a < b < n2.len() implies lex_lt(#[trigger] n2[a], #[trigger] n2[b]) by {
        if b < p {
        } else if a < p && b == p {
        } else if a < p && b > p {
            assert(n2[b] == o[b - 1]);
            if b - 1 > p {
                lemma_lex_transitive(x, o[p], o[b - 1]);
            }
            lemma_lex_transitive(o[a], x, o[b - 1]);
        } else if a == p {
            assert(n2[b] == o[b - 1]);
            if b - 1 > p {
                lemma_lex_transitive(x, o[p], o[b - 1]);
            }
        } else {
            assert(n2[a] == o[a - 1]);
            assert(n2[b] == o[b - 1]);
        }
    }
}

/// Inserting `x` adds it to the elements.
proof fn lemma_insert_set(o: Seq<Seq<char>>, p: int, x: Seq<char>)
    requires
        0 <= p <= o.len(),
    ensures
        o.insert(p, x).to_set() == o.to_set().insert(x),
{
    let n2 = o.insert(p, x);
    o.insert_ensures(p, x);
    assert forall|y: Seq<char>| n2.to_set().contains(y) <==> o.to_set().insert(x).contains(y) by {
        if n2.to_set().contains(y) {
            let w = choose|w: int| 0 <= w < n2.len() && n2[w] == y;
            if w < p {
                assert(o[w] == y);
            } else if w > p {
                assert(o[w - 1] == y);
            }
        }
        if o.to_set().contains(y) {
            let w = choose|w: int| 0 <= w < o.len() && o[w] == y;
            if w < p {
                assert(n2[w] == y);
            } else {
                assert(n2[w + 1] == y);
            }
        }
        if y == x {
            assert(n2[p] == y);
        }
    }
    assert(n2.to_set() =~= o.to_set().insert(x));
}

/// The names of `names`, each once, in the order of [`lex_lt`].
fn sorted_names(names: &Vec<String>) -> (r: Vec<String>)
    requires
        texts(names@).no_duplicates(),
    ensures
        strictly_sorted(texts(r@)),
        texts(r@).to_set() == texts(names@).to_set(),
        r@.len() == names@.len(),
{
    let ghost t = texts(names@);
    let mut out: Vec<String> = Vec::new();
    proof {
        assert(texts(out@) =~= Seq::<Seq<char>>::empty());
        assert(t.take(0).to_set() =~= Set::<Seq<char>>::empty());
        assert(texts(out@).to_set() =~= Set::<Seq<char>>::empty());
    }
    let mut i: usize = 0;
    while i < names.len()
        invariant
            i <= names@.len(),
            t == texts(names@),
            t.no_duplicates(),
            strictly_sorted(texts(out@)),
            texts(out@).to_set() == t.take(i as int).to_set(),
            out@.len() == i,
        decreases names@.len() - i,
    {
        let name = names[i].as_str();
        let ghost o = texts(out@);
        let mut p: usize = 0;
        while p < out.len() && !lex_less(name, out[p].as_str())
            invariant
                p <= out@.len(),
                o == texts(out@),
                o.len() == out@.len(),
                name@ == t[i as int],
                forall|q: int| 0 <= q < p ==> !lex_lt(name@, #[trigger] o[q]),
            decreases out@.len() - p,
        {
            p = p + 1;
        }
        proof {
            // `name` is none of those already sorted, which come from before it.
            assert forall|q: int| 0 <= q < o.len() implies o[q] != name@ by {
                assert(o.to_set().contains(o[q]));
                assert(t.take(i as int).to_set().contains(o[q]));
                let w = choose|w: int| 0 <= w < t.take(i as int).len() && t.take(i as int)[w] == o[q];
                assert(t[w] == o[q]);
            }
            assert forall|q: int| 0 <= q < p implies lex_lt(#[trigger] o[q], name@) by {
                lemma_lex_total(o[q], name@);
            }
            if p < o.len() {
                assert(lex_lt(name@, o[p as int]));
            }
        }
        let ghost before = out@;
        out.insert(p, text::owned(name));
        proof {
            let x = out@[p as int];
            lemma_texts_insert(before, p as int, x);
            lemma_insert_sorted(o, p as int, name@);
            lemma_insert_set(o, p as int, name@);
            assert(t.take(i + 1) =~= t.take(i as int).push(name@));
            t.take(i as int).lemma_push_to_set_commute(name@);
        }
        i = i + 1;
    }
    proof {
        assert(t.take(i as int) =~= t);
    }
    out
}

/// What an entry offered for completion names.
#[derive(Debug, Clone, Copy, PartialEq, Eq, Structural)]
pub enum ItemKind {
    Variable,
    Function,
    Module,
    Value,
}

/// How the text an entry inserts is to be read.
#[derive(Debug, Clone, Copy, PartialEq, Eq, Structural)]
pub enum InsertTextFormat {
    /// `$0` marks where the cursor goes.
    Snippet,
}

/// One entry offered for completion.
#[derive(Debug)]
pub struct Item {
    pub label: String,
    pub kind: Option<ItemKind>,
    pub detail: Option<String>,
    pub insert_text: Option<String>,
    pub sort_text: Option<String>,
    pub insert_text_format: Option<InsertTextFormat>,
}

/// What an entry holds.
pub struct ItemView {
    pub label: Seq<char>,
    pub kind: Option<ItemKind>,
    pub detail: Option<Seq<char>>,
    pub insert_text: Option<Seq<char>>,
    pub sort_text: Option<Seq<char>>,
    pub insert_text_format: Option<InsertTextFormat>,
}

/// What an optional text holds.
pub open spec fn opt_text(o: Option<String>) -> Option<Seq<char>> {
    match o {
        Some(t) => Some(t@),
        None => None,
    }
}

/// What an entry holds.
pub open spec fn item_view(i: Item) -> ItemView {
    ItemView {
        label: i.label@,
        kind: i.kind,
        detail: opt_text(i.detail),
        insert_text: opt_text(i.insert_text),
        sort_text: opt_text(i.sort_text),
        insert_text_format: i.insert_text_format,
    }
}

/// What the entries hold.
pub open spec fn item_views(v: Seq<Item>) -> Seq<ItemView> {
    v.map_values(|i: Item| item_view(i))
}

/// How an entry writes the name it inserts.
#[derive(Clone, Copy, PartialEq, Eq, Structural)]
pub enum Style {
    /// The name as it is: a variable.
    Bare,
    /// The name, after the blank a marker is missing: a node.
    Padded(bool),
    /// A speaker, with the `: ` that follows it.
    Speaker,
    /// A call of the command, after the blank a marker is missing.
    Call(bool),
    /// A call of the command, after its `>> `.
    Line,
}

/// The call of the command `name`: the cursor between its parentheses when
/// the editor takes snippets.
pub open spec fn call_text(name: Seq<char>, snippets: bool) -> Seq<char> {
    if snippets {
        name + "($0)"@
    } else {
        name + "()"@
    }
}

/// What an entry for `name` inserts in the style `style`.
pub open spec fn insert_spec(style: Style, name: Seq<char>, snippets: bool) -> Seq<char> {
    match style {
        Style::Bare => name,
        Style::Padded(needs_space) => pad_spec(needs_space, name),
        Style::Speaker => name + ": "@,
        Style::Call(needs_space) => pad_spec(needs_space, call_text(name, snippets)),
        Style::Line => ">> "@ + call_text(name, snippets),
    }
}

/// Whether the style writes a call, which a snippet may hold.
pub open spec fn calls(style: Style) -> bool {
    style is Call || style is Line
}

/// The entry for `name`: its kind, its detail, what it inserts, and the
/// rank it is sorted under.
pub open spec fn entry(name: Seq<char>, kind: ItemKind, detail: Seq<char>, style: Style, snippets: bool, rank: char) -> ItemView {
    ItemView {
        label: name,
        kind: Some(kind),
        detail: Some(detail),
        insert_text: Some(insert_spec(style, name, snippets)),
        sort_text: Some(seq![rank] + name),
        insert_text_format: if calls(style) && snippets {
            Some(InsertTextFormat::Snippet)
        } else {
            None
        },
    }
}

/// Whether `r` holds one entry per name of `names`, in the order of
/// [`lex_lt`], each the [`entry`] for its name.
pub open spec fn listed(
    r: Seq<ItemView>,
    names: Set<Seq<char>>,
    kind: ItemKind,
    detail: Seq<char>,
    style: Style,
    snippets: bool,
    rank: char,
) -> bool {
    let labels = r.map_values(|i: ItemView| i.label);
    &&& strictly_sorted(labels)
    &&& labels.to_set() == names
    &&& forall|i: int| 0 <= i < r.len() ==> #[trigger] r[i] == entry(r[i].label, kind, detail, style, snippets, rank)
}

/// The entry for `name`.
fn make_entry(name: &str, kind: ItemKind, detail: &str, style: Style, snippets: bool, rank: char) -> (r: Item)
    ensures
        item_view(r) == entry(name@, kind, detail@, style, snippets, rank),
{
    let call = if snippets {
        let mut c = text::owned(name);
        text::push_str(&mut c, "($0)");
        c
    } else {
        let mut c = text::owned(name);
        text::push_str(&mut c, "()");
        c
    };
    let insert = match style {
        Style::Bare => text::owned(name),
        Style::Padded(needs_space) => pad(needs_space, name),
        Style::Speaker => {
            let mut t = text::owned(name);
            text::push_str(&mut t, ": ");
            t
        },
        Style::Call(needs_space) => pad(needs_space, call.as_str()),
        Style::Line => {
            let mut t = text::owned(">> ");
            text::push_str(&mut t, call.as_str());
            t
        },
    };
    let mut sort = String::new();
    text::push_char(&mut sort, rank);
    text::push_str(&mut sort, name);
    proof {
        assert(Seq::<char>::empty().push(rank) + name@ =~= seq![rank] + name@);
    }
    let format = match style {
        Style::Call(_) | Style::Line => if snippets {
            Some(InsertTextFormat::Snippet)
        } else {
            None
        },
        _ => None,
    };
    Item {
        label: text::owned(name),
        kind: Some(kind),
        detail: Some(text::owned(detail)),
        insert_text: Some(insert),
        sort_text: Some(sort),
        insert_text_format: format,
    }
}

/// One entry per name of `names`, in the order of [`lex_lt`], pushed after
/// those of `out`.
fn push_entries(
    out: &mut Vec<Item>,
    names: &Vec<String>,
    kind: ItemKind,
    detail: &str,
    style: Style,
    snippets: bool,
    rank: char,
)
    requires
        texts(names@).no_duplicates(),
    ensures
        item_views(final(out)@).take(old(out)@.len() as int) == item_views(old(out)@),
        final(out)@.len() == old(out)@.len() + names@.len(),
        listed(
            item_views(final(out)@).skip(old(out)@.len() as int),
            texts(names@).to_set(),
            kind,
            detail@,
            style,
            snippets,
            rank,
        ),
{
    let sorted = sorted_names(names);
    let ghost st = texts(sorted@);
    let ghost n0 = old(out)@.len();
    let ghost v0 = item_views(out@);
    let mut i: usize = 0;
    while i < sorted.len()
        invariant
            i <= sorted@.len(),
            st == texts(sorted@),
            out@.len() == n0 + i,
            item_views(out@).take(n0 as int) == v0,
            v0.len() == n0,
            forall|k: int| 0 <= k < i ==> #[trigger] item_views(out@)[n0 + k] == entry(st[k], kind, detail@, style, snippets, rank),
        decreases sorted@.len() - i,
    {
        let e = make_entry(sorted[i].as_str(), kind, detail, style, snippets, rank);
        let ghost before = out@;
        out.push(e);
        proof {
            assert(item_views(out@) =~= item_views(before).push(item_view(e)));
            assert(item_views(out@).take(n0 as int) =~= item_views(before).take(n0 as int));
        }
        i = i + 1;
    }
    proof {
        let rest = item_views(out@).skip(n0 as int);
        let labels = rest.map_values(|it: ItemView| it.label);
        assert(rest.len() == st.len());
        assert forall|k: int| 0 <= k < rest.len() implies #[trigger] rest[k] == entry(st[k], kind, detail@, style, snippets, rank) by {
            assert(rest[k] == item_views(out@)[n0 + k]);
        }
        assert(labels =~= st);
    }
}

impl Completion {
    /// Entries to offer for `context`, each list in the order of
    /// [`lex_lt`]. At the start of a line, speakers come first, since they
    /// are what a line usually starts with, then the commands.
    /// Whether `r` are the entries to offer for `context`, each list in the
    /// order of [`lex_lt`]: at the start of a line, the speakers, then the
    /// commands.
    pub open spec fn offers(&self, context: Context, snippets: bool, r: Seq<ItemView>) -> bool {
        match context {
            Context::Variable => listed(
                r,
                texts(self.vars@).to_set(),
                ItemKind::Variable,
                "variable"@,
                Style::Bare,
                snippets,
                '0',
            ),
            Context::Command { needs_space } => listed(
                r,
                texts(self.commands@).to_set(),
                ItemKind::Function,
                "command"@,
                Style::Call(needs_space),
                snippets,
                '0',
            ),
            Context::Node { needs_space } => listed(
                r,
                texts(self.nodes@).to_set(),
                ItemKind::Module,
                "node"@,
                Style::Padded(needs_space),
                snippets,
                '0',
            ),
            Context::LineStart => {
                &&& listed(
                    r.take(self.characters@.len() as int),
                    texts(self.characters@).to_set(),
                    ItemKind::Value,
                    "character"@,
                    Style::Speaker,
                    snippets,
                    '0',
                )
                &&& listed(
                    r.skip(self.characters@.len() as int),
                    texts(self.commands@).to_set(),
                    ItemKind::Function,
                    "command"@,
                    Style::Line,
                    snippets,
                    '1',
                )
            },
        }
    }

    pub fn items(&self, context: Context, snippets: bool) -> (r: Vec<Item>)
        requires
            self.wf(),
        ensures
            self.offers(context, snippets, item_views(r@)),
    {
        let mut out: Vec<Item> = Vec::new();
        proof {
            assert(item_views(out@) =~= Seq::<ItemView>::empty());
        }
        match context {
            Context::Variable => {
                push_entries(&mut out, &self.vars, ItemKind::Variable, "variable", Style::Bare, snippets, '0');
                proof {
                    assert(item_views(out@).skip(0) =~= item_views(out@));
                }
            },
            Context::Command { needs_space } => {
                push_entries(&mut out, &self.commands, ItemKind::Function, "command", Style::Call(needs_space), snippets, '0');
                proof {
                    assert(item_views(out@).skip(0) =~= item_views(out@));
                }
            },
            Context::Node { needs_space } => {
                push_entries(&mut out, &self.nodes, ItemKind::Module, "node", Style::Padded(needs_space), snippets, '0');
                proof {
                    assert(item_views(out@).skip(0) =~= item_views(out@));
                }
            },
            Context::LineStart => {
                push_entries(&mut out, &self.characters, ItemKind::Value, "character", Style::Speaker, snippets, '0');
                let ghost first = item_views(out@);
                proof {
                    assert(first.skip(0) =~= first);
                }
                push_entries(&mut out, &self.commands, ItemKind::Function, "command", Style::Line, snippets, '1');
                proof {
                    assert(item_views(out@).take(self.characters@.len() as int) == first);
                }
            },
        }
        out
    }
}

/// A variable being typed wins wherever its `$` stands: when what follows
/// the last `$` of the line could still be a name, the line asks for a
/// variable, whatever marker it starts with.
pub proof fn lemma_variables_win(prefix: Seq<char>, sigil: int)
    requires
        0 <= sigil < prefix.len(),
        prefix[sigil] == '$',
        forall|i: int| sigil < i < prefix.len() ==> prefix[i] != '$' && var_char(#[trigger] prefix[i]),
    ensures
        context_spec(prefix) == Some(Context::Variable),
{
    lemma_last_index(prefix, sigil, prefix.len() as int);
}

/// The last `$` is the one no other follows.
proof fn lemma_last_index(p: Seq<char>, k: int, n: int)
    requires
        0 <= k < n <= p.len(),
        p[k] == '$',
        forall|i: int| k < i < n ==> p[i] != '$',
    ensures
        last_index(p, '$', n) == Some(k),
    decreases n,
{
    if n - 1 > k {
        lemma_last_index(p, k, n - 1);
    }
}

} // verus!
