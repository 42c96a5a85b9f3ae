//! The book pages: dump and content in, markdown out. With empty content
//! the class, datatype, service, enums, globals and index pages come out
//! exactly as the engine emits them; content only ever adds sections.
use vstd::prelude::*;
use crate::content::{Content, Example, MemberContent, member_of};
use crate::dump::{Class, Dump, Member, Owner, Param, ancestors_of, chain_terminates};
use crate::keyed::{find_key, lookup, names_of, sort_by_name, sorted_names};
use crate::text::{
    chars_of, copy_str, join, join_of, push_str,
    repeat, repeat_of, replace_char, replace_of, str_eq, string_of, strip_suffix_of,
    strip_suffix_or_self, trim, trim_end, trim_end_of, trim_of, whole_lines, lines_within,
    lemma_whole_lines_append, lemma_lines_within_concat, lemma_lines_within_refl,
    lemma_lines_within_empty,
};

verus! {

/// The upper-case mapping of `c`, one or more characters, as Unicode's
/// case tables give it.
pub uninterp spec fn uppercase_of(c: char) -> Seq<char>;

/// `char::to_uppercase`, collected into a string. Its result is named
/// `uppercase_of(c)`; of ASCII characters the contract also states that
/// a lower-case letter maps to its upper-case letter and every other
/// ASCII character to itself (they have no other upper-case mapping).
#[verifier::external_body]
fn to_uppercase(c: char) -> (r: String)
    ensures
        r@ == uppercase_of(c),
        'a' <= c <= 'z' ==> r@ == seq![((c as u32) - 32) as char],
        (c as u32) < 128 && !('a' <= c <= 'z') ==> r@ == seq![c],
{
    c.to_uppercase().collect::<String>()
}

/// The file stem of a guide: its name without `.md`.
pub open spec fn guide_stem(file_name: Seq<char>) -> Seq<char> {
    match strip_suffix_of(file_name, ".md"@) {
        Some(s) => s,
        None => file_name,
    }
}

/// A title from its opened stem and the upper-case spelling of the
/// stem's first character.
pub open spec fn title_of(upper_first: Seq<char>, opened: Seq<char>) -> Seq<char> {
    upper_first + opened.drop_first()
}

/// A guide's title: the file stem with dashes opened into spaces and
/// the first letter raised (`editor-setup.md` gives "Editor setup").
pub open spec fn guide_title_of(file_name: Seq<char>) -> Seq<char> {
    let opened = replace_of(guide_stem(file_name), '-', ' ');
    if opened.len() == 0 {
        opened
    } else {
        title_of(uppercase_of(opened[0]), opened)
    }
}

/// The title from the opened stem `opened` and `upper_first`, the
/// upper-case spelling of its first character.
pub fn title_from(upper_first: &str, opened: &str) -> (r: String)
    requires
        opened@.len() > 0,
    ensures
        r@ == title_of(upper_first@, opened@),
{
    let v = chars_of(opened);
    let mut out = copy_str(upper_first);
    let rest = string_of(&v, 1, v.len());
    push_str(&mut out, rest.as_str());
    assert(v@.subrange(1, v@.len() as int) =~= opened@.drop_first());
    out
}

/// The upper-case spelling of an ASCII character: a lower-case letter
/// raised, any other character kept.
pub open spec fn ascii_upper(c: char) -> char {
    if 'a' <= c <= 'z' {
        ((c as u32) - 32) as char
    } else {
        c
    }
}

/// A guide's file stem with its dashes opened into spaces.
pub open spec fn opened_stem(file_name: Seq<char>) -> Seq<char> {
    replace_of(guide_stem(file_name), '-', ' ')
}

/// A guide's title in the summary and the index. Where the stem starts
/// with an ASCII character, the title is the opened stem with that
/// character raised.
pub fn guide_title(file_name: &str) -> (r: String)
    ensures
        r@ == guide_title_of(file_name@),
        opened_stem(file_name@).len() > 0 && (opened_stem(file_name@)[0] as u32) < 128 ==> r@
            == seq![ascii_upper(opened_stem(file_name@)[0])] + opened_stem(file_name@).drop_first(),
{
    let stem = strip_suffix_or_self(file_name, ".md");
    let opened = replace_char(stem.as_str(), '-', ' ');
    let v = chars_of(opened.as_str());
    if v.len() == 0 {
        opened
    } else {
        let upper = to_uppercase(v[0]);
        title_from(upper.as_str(), opened.as_str())
    }
}

/// One link line per guide.
pub open spec fn guide_links(guides: Seq<String>) -> Seq<char>
    decreases guides.len(),
{
    if guides.len() == 0 {
        Seq::empty()
    } else {
        let g = guides.last()@;
        guide_links(guides.drop_last()) + "- ["@ + guide_title_of(g) + "]("@ + g + ")\n"@
    }
}

fn push_guide_links(out: &mut String, guides: &Vec<String>)
    ensures
        final(out)@ == old(out)@ + guide_links(guides@),
{
    let ghost start = out@;
    let mut i: usize = 0;
    while i < guides.len()
        invariant
            i <= guides.len(),
            out@ == start + guide_links(guides@.take(i as int)),
        decreases guides.len() - i,
    {
        let g = &guides[i];
        assert(guides@.take(i + 1).drop_last() =~= guides@.take(i as int));
        let title = guide_title(g.as_str());
        push_str(out, "- [");
        push_str(out, title.as_str());
        push_str(out, "](");
        push_str(out, g.as_str());
        push_str(out, ")\n");
        i = i + 1;
    }
    assert(guides@.take(i as int) =~= guides@);
}

/// One link line per owner, to its page under `dir`.
pub open spec fn owner_links(owners: Seq<Owner>, dir: Seq<char>) -> Seq<char>
    decreases owners.len(),
{
    if owners.len() == 0 {
        Seq::empty()
    } else {
        let n = owners.last().name@;
        owner_links(owners.drop_last(), dir) + "- ["@ + n + "]("@ + dir + "/"@ + n + ".md)\n"@
    }
}

fn push_owner_links(out: &mut String, owners: &Vec<Owner>, dir: &str)
    ensures
        final(out)@ == old(out)@ + owner_links(owners@, dir@),
{
    let ghost start = out@;
    let mut i: usize = 0;
    while i < owners.len()
        invariant
            i <= owners.len(),
            out@ == start + owner_links(owners@.take(i as int), dir@),
        decreases owners.len() - i,
    {
        let n = &owners[i].name;
        assert(owners@.take(i + 1).drop_last() =~= owners@.take(i as int));
        push_str(out, "- [");
        push_str(out, n.as_str());
        push_str(out, "](");
        push_str(out, dir);
        push_str(out, "/");
        push_str(out, n.as_str());
        push_str(out, ".md)\n");
        i = i + 1;
    }
    assert(owners@.take(i as int) =~= owners@);
}

/// An optional name as its characters.
pub open spec fn opt_view(o: Option<String>) -> Option<Seq<char>> {
    match o {
        Some(s) => Some(s@),
        None => None,
    }
}

/// The classes whose parent is `parent`, in dump order.
pub open spec fn children_of(classes: Seq<Class>, parent: Option<Seq<char>>) -> Seq<Class>
    decreases classes.len(),
{
    if classes.len() == 0 {
        Seq::empty()
    } else {
        children_of(classes.drop_last(), parent) + if opt_view(classes.last().parent) == parent {
            seq![classes.last()]
        } else {
            Seq::empty()
        }
    }
}

/// Whether walking the class tree down from `parent` ends within `fuel`
/// levels.
#[verifier::opaque]
pub open spec fn tree_ok(classes: Seq<Class>, parent: Option<Seq<char>>, fuel: nat) -> bool
    decreases fuel,
{
    fuel > 0 && forall|i: int|
        0 <= i < classes.len() && opt_view(classes[i].parent) == parent ==> tree_ok(
            classes,
            Some(#[trigger] classes[i].name@),
            (fuel - 1) as nat,
        )
}

/// Whether walking the class tree down from the roots ends.
pub open spec fn tree_terminates(classes: Seq<Class>) -> bool {
    exists|f: nat| tree_ok(classes, None, f)
}

/// The number of levels the class tree is walked with: one more than
/// there are classes, which is enough wherever the walk ends.
pub open spec fn tree_fuel(classes: Seq<Class>) -> nat {
    classes.len() + 1
}

/// One class's line in a tree listing at `depth`; `marks` adds the
/// not-creatable mark.
pub open spec fn tree_line(c: Class, depth: nat, marks: bool) -> Seq<char> {
    repeat_of("  "@, depth) + "- ["@ + c.name@ + "](classes/"@ + c.name@ + ".md)"@ + if marks
        && !c.creatable {
        " *(not creatable)*"@
    } else {
        Seq::empty()
    } + "\n"@
}

/// The listing of the classes under `parent`, each followed by its own
/// subtree one level deeper.
pub open spec fn tree_text(classes: Seq<Class>, parent: Option<Seq<char>>, depth: nat, marks: bool, fuel: nat) -> Seq<
    char,
>
    decreases fuel, 0nat, 0nat,
{
    if fuel == 0 {
        Seq::empty()
    } else {
        rows_text(classes, classes, parent, depth, marks, (fuel - 1) as nat)
    }
}

/// The listing of the classes of `rows` under `parent`.
pub open spec fn rows_text(
    classes: Seq<Class>,
    rows: Seq<Class>,
    parent: Option<Seq<char>>,
    depth: nat,
    marks: bool,
    fuel: nat,
) -> Seq<char>
    decreases fuel, 1nat, rows.len(),
{
    if rows.len() == 0 {
        Seq::empty()
    } else {
        let c = rows.last();
        rows_text(classes, rows.drop_last(), parent, depth, marks, fuel) + if opt_view(c.parent)
            == parent {
            tree_line(c, depth, marks) + tree_text(classes, Some(c.name@), depth + 1, marks, fuel)
        } else {
            Seq::empty()
        }
    }
}

/// The whole class tree listing from the roots.
pub open spec fn class_tree(classes: Seq<Class>, marks: bool) -> Seq<char> {
    tree_text(classes, None, 0, marks, tree_fuel(classes))
}

/// The classes under `parent`, each with the depth it is listed at,
/// in the order the tree listing gives them.
pub open spec fn tree_entries(classes: Seq<Class>, parent: Option<Seq<char>>, depth: nat, fuel: nat) -> Seq<
    (Class, nat),
>
    decreases fuel, 0nat, 0nat,
{
    if fuel == 0 {
        Seq::empty()
    } else {
        rows_entries(classes, classes, parent, depth, (fuel - 1) as nat)
    }
}

/// The classes of `rows` under `parent`, each followed by its own
/// subtree one level deeper, with their depths.
pub open spec fn rows_entries(
    classes: Seq<Class>,
    rows: Seq<Class>,
    parent: Option<Seq<char>>,
    depth: nat,
    fuel: nat,
) -> Seq<(Class, nat)>
    decreases fuel, 1nat, rows.len(),
{
    if rows.len() == 0 {
        Seq::empty()
    } else {
        let c = rows.last();
        rows_entries(classes, rows.drop_last(), parent, depth, fuel) + if opt_view(c.parent) == parent {
            seq![(c, depth)] + tree_entries(classes, Some(c.name@), depth + 1, fuel)
        } else {
            Seq::empty()
        }
    }
}

/// One tree line per entry.
pub open spec fn entries_text(es: Seq<(Class, nat)>, marks: bool) -> Seq<char>
    decreases es.len(),
{
    if es.len() == 0 {
        Seq::empty()
    } else {
        entries_text(es.drop_last(), marks) + tree_line(es.last().0, es.last().1, marks)
    }
}

proof fn lemma_entries_text_append(a: Seq<(Class, nat)>, b: Seq<(Class, nat)>, marks: bool)
    ensures
        entries_text(a + b, marks) == entries_text(a, marks) + entries_text(b, marks),
    decreases b.len(),
{
    if b.len() == 0 {
        assert(a + b =~= a);
        assert(entries_text(a, marks) + entries_text(b, marks) =~= entries_text(a, marks));
    } else {
        assert((a + b).drop_last() =~= a + b.drop_last());
        assert((a + b).last() == b.last());
        lemma_entries_text_append(a, b.drop_last(), marks);
        assert(entries_text(a + b, marks) =~= entries_text(a, marks) + entries_text(b, marks));
    }
}

proof fn lemma_tree_entries(classes: Seq<Class>, parent: Option<Seq<char>>, depth: nat, marks: bool, fuel: nat)
    ensures
        tree_text(classes, parent, depth, marks, fuel) == entries_text(tree_entries(classes, parent, depth, fuel), marks),
    decreases fuel, 0nat, 0nat,
{
    if fuel > 0 {
        lemma_rows_entries(classes, classes, parent, depth, marks, (fuel - 1) as nat);
    }
}

proof fn lemma_rows_entries(
    classes: Seq<Class>,
    rows: Seq<Class>,
    parent: Option<Seq<char>>,
    depth: nat,
    marks: bool,
    fuel: nat,
)
    ensures
        rows_text(classes, rows, parent, depth, marks, fuel) == entries_text(
            rows_entries(classes, rows, parent, depth, fuel),
            marks,
        ),
    decreases fuel, 1nat, rows.len(),
{
    if rows.len() > 0 {
        let c = rows.last();
        lemma_rows_entries(classes, rows.drop_last(), parent, depth, marks, fuel);
        let before = rows_entries(classes, rows.drop_last(), parent, depth, fuel);
        if opt_view(c.parent) == parent {
            let sub = tree_entries(classes, Some(c.name@), depth + 1, fuel);
            lemma_tree_entries(classes, Some(c.name@), depth + 1, marks, fuel);
            lemma_entries_text_append(seq![(c, depth)], sub, marks);
            assert(entries_text(seq![(c, depth)], marks) =~= tree_line(c, depth, marks)) by {
                assert(seq![(c, depth)].drop_last() =~= Seq::<(Class, nat)>::empty());
                assert(seq![(c, depth)].last() == (c, depth));
                assert(entries_text(Seq::<(Class, nat)>::empty(), marks) == Seq::<char>::empty());
                assert(Seq::<char>::empty() + tree_line(c, depth, marks) =~= tree_line(c, depth, marks));
            }
            lemma_entries_text_append(before, seq![(c, depth)] + sub, marks);
        } else {
            assert(before + Seq::<(Class, nat)>::empty() =~= before);
            assert(rows_text(classes, rows, parent, depth, marks, fuel) =~= rows_text(
                classes,
                rows.drop_last(),
                parent,
                depth,
                marks,
                fuel,
            ));
        }
    }
}

/// The class trees of the summary and of the index list the same
/// classes at the same depths in the same order, line for line: each
/// line is `tree_line` of one entry, the index's line carrying the
/// "not creatable" mark where the class is not creatable and the
/// summary's carrying none.
pub proof fn lemma_index_and_summary_trees(classes: Seq<Class>)
    ensures
        class_tree(classes, false) == entries_text(tree_entries(classes, None, 0, tree_fuel(classes)), false),
        class_tree(classes, true) == entries_text(tree_entries(classes, None, 0, tree_fuel(classes)), true),
{
    lemma_tree_entries(classes, None, 0, false, tree_fuel(classes));
    lemma_tree_entries(classes, None, 0, true, tree_fuel(classes));
}

/// An optional borrowed name as its characters.
pub open spec fn opt_str(o: Option<&str>) -> Option<Seq<char>> {
    match o {
        Some(s) => Some(s@),
        None => None,
    }
}

/// Whether the optional names hold the same characters.
fn opt_eq(a: &Option<String>, b: Option<&str>) -> (r: bool)
    ensures
        r == (opt_view(*a) == opt_str(b)),
{
    match (a, b) {
        (None, None) => true,
        (Some(x), Some(y)) => str_eq(x.as_str(), y),
        _ => false,
    }
}

/// More levels never end a walk that fewer levels end.
pub proof fn lemma_tree_mono(classes: Seq<Class>, parent: Option<Seq<char>>, f: nat, g: nat)
    requires
        tree_ok(classes, parent, f),
        f <= g,
    ensures
        tree_ok(classes, parent, g),
    decreases f,
{
    reveal(tree_ok);
    assert forall|i: int|
        0 <= i < classes.len() && opt_view(classes[i].parent) == parent implies tree_ok(
        classes,
        Some(#[trigger] classes[i].name@),
        (g - 1) as nat,
    ) by {
        lemma_tree_mono(classes, Some(classes[i].name@), (f - 1) as nat, (g - 1) as nat);
    }
}

/// Whether `path` is a descent through the class tree from `parent`:
/// each class has the one before it (the first, `parent`) for parent.
pub open spec fn is_descent(classes: Seq<Class>, parent: Option<Seq<char>>, path: Seq<int>) -> bool {
    &&& forall|j: int| 0 <= j < path.len() ==> 0 <= #[trigger] path[j] < classes.len()
    &&& path.len() > 0 ==> opt_view(classes[path[0]].parent) == parent
    &&& forall|j: int|
        0 < j < path.len() ==> opt_view(classes[#[trigger] path[j]].parent) == Some(
            classes[path[j - 1]].name@,
        )
}

/// A walk from `parent` that does not end within `f` levels goes down a
/// descent of `f` classes.
proof fn lemma_open_descent(classes: Seq<Class>, parent: Option<Seq<char>>, f: nat) -> (path: Seq<int>)
    requires
        !tree_ok(classes, parent, f),
    ensures
        path.len() == f,
        is_descent(classes, parent, path),
    decreases f,
{
    reveal(tree_ok);
    if f == 0 {
        Seq::empty()
    } else {
        let i = choose|i: int|
            0 <= i < classes.len() && opt_view(classes[i].parent) == parent && !tree_ok(
                classes,
                Some(#[trigger] classes[i].name@),
                (f - 1) as nat,
            );
        let rest = lemma_open_descent(classes, Some(classes[i].name@), (f - 1) as nat);
        let path = seq![i] + rest;
        assert forall|j: int| 0 < j < path.len() implies opt_view(
            classes[#[trigger] path[j]].parent,
        ) == Some(classes[path[j - 1]].name@) by {
            if j > 1 {
                assert(path[j] == rest[j - 1] && path[j - 1] == rest[j - 2]);
            }
        }
        path
    }
}

/// A walk that ends after `g` levels from the `a`-th class of a descent
/// ends after `g - (b - a)` levels from its `b`-th class.
proof fn lemma_descent_steps(
    classes: Seq<Class>,
    parent: Option<Seq<char>>,
    path: Seq<int>,
    a: int,
    b: int,
    g: nat,
)
    requires
        is_descent(classes, parent, path),
        0 <= a <= b < path.len(),
        tree_ok(classes, Some(classes[path[a]].name@), g),
    ensures
        g >= b - a,
        tree_ok(classes, Some(classes[path[b]].name@), (g - (b - a)) as nat),
    decreases b - a,
{
    if b > a {
        lemma_descent_steps(classes, parent, path, a, b - 1, g);
        let h = (g - (b - 1 - a)) as nat;
        reveal(tree_ok);
        assert(opt_view(classes[path[b]].parent) == Some(classes[path[b - 1]].name@));
        assert(tree_ok(classes, Some(classes[path[b]].name@), (h - 1) as nat));
    }
}

proof fn lemma_descent_loops(
    classes: Seq<Class>,
    parent: Option<Seq<char>>,
    path: Seq<int>,
    a: int,
    b: int,
    g: nat,
)
    requires
        is_descent(classes, parent, path),
        0 <= a < b < path.len(),
        path[a] == path[b],
    ensures
        !tree_ok(classes, Some(classes[path[a]].name@), g),
    decreases g,
{
    if tree_ok(classes, Some(classes[path[a]].name@), g) {
        lemma_descent_steps(classes, parent, path, a, b, g);
        lemma_descent_loops(classes, parent, path, a, b, (g - (b - a)) as nat);
    }
}

/// A class tree whose walk does not end within one more level than
/// there are classes goes down a cycle: its walk never ends.
pub proof fn lemma_tree_cycle(classes: Seq<Class>)
    requires
        !tree_ok(classes, None, tree_fuel(classes)),
    ensures
        !tree_terminates(classes),
{
    let n = classes.len();
    let path = lemma_open_descent(classes, None, tree_fuel(classes));
    crate::dump::lemma_pigeonhole(path, n as int);
    let (a, b) = choose|a: int, b: int| 0 <= a < b < path.len() && path[a] == path[b];
    assert forall|f: nat| !tree_ok(classes, None, f) by {
        if tree_ok(classes, None, f) {
            reveal(tree_ok);
            assert(tree_ok(classes, Some(classes[path[0]].name@), (f - 1) as nat));
            lemma_descent_steps(classes, None, path, 0, a, (f - 1) as nat);
            lemma_descent_loops(classes, None, path, a, b, (f - 1 - a) as nat);
        }
    }
}

/// Wherever the walk of the class tree ends, it ends within one more
/// level than there are classes.
pub proof fn lemma_tree_fuel_enough(classes: Seq<Class>)
    requires
        tree_terminates(classes),
    ensures
        tree_ok(classes, None, tree_fuel(classes)),
{
    if !tree_ok(classes, None, tree_fuel(classes)) {
        lemma_tree_cycle(classes);
    }
}

proof fn lemma_rows_step(
    classes: Seq<Class>,
    i: int,
    parent: Option<Seq<char>>,
    depth: nat,
    marks: bool,
    fuel: nat,
)
    requires
        0 <= i < classes.len(),
    ensures
        rows_text(classes, classes.take(i + 1), parent, depth, marks, fuel) == rows_text(
            classes,
            classes.take(i),
            parent,
            depth,
            marks,
            fuel,
        ) + if opt_view(classes[i].parent) == parent {
            tree_line(classes[i], depth, marks) + tree_text(
                classes,
                Some(classes[i].name@),
                depth + 1,
                marks,
                fuel,
            )
        } else {
            Seq::empty()
        },
{
    assert(classes.take(i + 1).drop_last() =~= classes.take(i));
    assert(classes.take(i + 1).last() == classes[i]);
}

#[verifier::spinoff_prover]
#[verifier::rlimit(40)]
fn push_tree(
    out: &mut String,
    classes: &Vec<Class>,
    parent: Option<&str>,
    depth: usize,
    marks: bool,
    Ghost(fuel): Ghost<nat>,
)
    requires
        tree_ok(classes@, opt_str(parent), fuel),
        depth + fuel <= usize::MAX,
    ensures
        final(out)@ == old(out)@ + tree_text(classes@, opt_str(parent), depth as nat, marks, fuel),
    decreases fuel,
{
    let ghost pv = opt_str(parent);
    let ghost start = out@;
    assert(fuel > 0) by {
        reveal(tree_ok);
    }
    let mut i: usize = 0;
    while i < classes.len()
        invariant
            i <= classes.len(),
            fuel > 0,
            tree_ok(classes@, pv, fuel),
            depth + fuel <= usize::MAX,
            pv == opt_str(parent),
            out@ == start + rows_text(
                classes@,
                classes@.take(i as int),
                pv,
                depth as nat,
                marks,
                (fuel - 1) as nat,
            ),
        decreases classes.len() - i,
    {
        let c = &classes[i];
        proof {
            lemma_rows_step(classes@, i as int, pv, depth as nat, marks, (fuel - 1) as nat);
        }
        let ghost before = out@;
        if opt_eq(&c.parent, parent) {
            let indent = repeat("  ", depth);
            push_str(out, indent.as_str());
            push_str(out, "- [");
            push_str(out, c.name.as_str());
            push_str(out, "](classes/");
            push_str(out, c.name.as_str());
            push_str(out, ".md)");
            if marks && !c.creatable {
                push_str(out, " *(not creatable)*");
            }
            push_str(out, "\n");
            let ghost mid = out@;
            assert(mid =~= before + tree_line(*c, depth as nat, marks));
            assert(tree_ok(classes@, Some(classes@[i as int].name@), (fuel - 1) as nat)) by {
                reveal(tree_ok);
            }
            push_tree(out, classes, Some(c.name.as_str()), depth + 1, marks, Ghost((fuel - 1) as nat));
            assert(out@ =~= before + (tree_line(*c, depth as nat, marks) + tree_text(
                classes@,
                Some(c.name@),
                (depth + 1) as nat,
                marks,
                (fuel - 1) as nat,
            )));
        } else {
            assert(out@ =~= before + Seq::<char>::empty());
        }
        i = i + 1;
    }
    assert(classes@.take(i as int) =~= classes@);
}

/// The summary page: the book's table of contents.
pub open spec fn summary_of(d: Dump, c: Content) -> Seq<char> {
    "# Summary\n\n[BetterVoxel scripting API](README.md)\n\n"@ + if c.guides@.len() > 0 {
        "# Guides\n\n"@ + guide_links(c.guides@) + "\n"@
    } else {
        Seq::empty()
    } + "# Classes\n\n"@ + class_tree(d.classes@, false) + "\n# Services\n\n"@ + owner_links(
        d.services@,
        "services"@,
    ) + "\n# Datatypes\n\n"@ + owner_links(d.datatypes@, "datatypes"@)
        + "\n# Reference\n\n- [Enums](enums.md)\n- [Globals](globals.md)\n"@
}

/// Builds the summary page.
#[verifier::spinoff_prover]
pub fn emit_summary(dump: &Dump, content: &Content) -> (r: String)
    requires
        tree_terminates(dump.classes@),
        dump.classes@.len() < usize::MAX,
    ensures
        r@ == summary_of(*dump, *content),
{
    let mut out = String::new();
    push_str(&mut out, "# Summary\n\n[BetterVoxel scripting API](README.md)\n\n");
    if content.guides.len() > 0 {
        push_str(&mut out, "# Guides\n\n");
        push_guide_links(&mut out, &content.guides);
        push_str(&mut out, "\n");
    }
    push_str(&mut out, "# Classes\n\n");
    let ghost fuel = tree_fuel(dump.classes@);
    proof {
        lemma_tree_fuel_enough(dump.classes@);
    }
    push_tree(&mut out, &dump.classes, None, 0, false, Ghost(fuel));
    push_str(&mut out, "\n# Services\n\n");
    push_owner_links(&mut out, &dump.services, "services");
    push_str(&mut out, "\n# Datatypes\n\n");
    push_owner_links(&mut out, &dump.datatypes, "datatypes");
    push_str(&mut out, "\n# Reference\n\n- [Enums](enums.md)\n- [Globals](globals.md)\n");
    out
}

/// The index page of the book.
pub open spec fn index_of(d: Dump, c: Content) -> Seq<char> {
    "# BetterVoxel scripting API\n\nGenerated from the engine's pinned API model — regenerate with\n`cargo test -p bv_engine_core --features docgen --test api_surface`.\nThe Luau declaration file for IDEs is\n[`bettervoxel.d.luau`](bettervoxel.d.luau).\n\n"@
        + if c.guides@.len() > 0 {
        "## Guides\n\n"@ + guide_links(c.guides@) + "\n"@
    } else {
        Seq::empty()
    } + "## Classes\n\n"@ + class_tree(d.classes@, true)
        + "\n## Services\n\nStandalone objects `game:GetService` hands out (the DataModel is `game` itself);\nthe container services — ReplicatedStorage and friends — are ordinary\ninstances and need no pages of their own.\n\n"@
        + owner_links(d.services@, "services"@) + "\n## Datatypes\n\n"@ + owner_links(
        d.datatypes@,
        "datatypes"@,
    ) + "\n## Reference\n\n- [Enums](enums.md)\n- [Globals](globals.md)\n"@
}

/// Builds the index page.
#[verifier::spinoff_prover]
pub fn emit_index(dump: &Dump, content: &Content) -> (r: String)
    requires
        tree_terminates(dump.classes@),
        dump.classes@.len() < usize::MAX,
    ensures
        r@ == index_of(*dump, *content),
{
    let mut out = String::new();
    push_str(
        &mut out,
        "# BetterVoxel scripting API\n\nGenerated from the engine's pinned API model — regenerate with\n`cargo test -p bv_engine_core --features docgen --test api_surface`.\nThe Luau declaration file for IDEs is\n[`bettervoxel.d.luau`](bettervoxel.d.luau).\n\n",
    );
    if content.guides.len() > 0 {
        push_str(&mut out, "## Guides\n\n");
        push_guide_links(&mut out, &content.guides);
        push_str(&mut out, "\n");
    }
    push_str(&mut out, "## Classes\n\n");
    let ghost fuel = tree_fuel(dump.classes@);
    proof {
        lemma_tree_fuel_enough(dump.classes@);
    }
    push_tree(&mut out, &dump.classes, None, 0, true, Ghost(fuel));
    push_str(
        &mut out,
        "\n## Services\n\nStandalone objects `game:GetService` hands out (the DataModel is `game` itself);\nthe container services — ReplicatedStorage and friends — are ordinary\ninstances and need no pages of their own.\n\n",
    );
    push_owner_links(&mut out, &dump.services, "services");
    push_str(&mut out, "\n## Datatypes\n\n");
    push_owner_links(&mut out, &dump.datatypes, "datatypes");
    push_str(&mut out, "\n## Reference\n\n- [Enums](enums.md)\n- [Globals](globals.md)\n");
    out
}

/// The names a signal fires with.
pub open spec fn payload_names(m: Member) -> Seq<Seq<char>> {
    match m.payloads {
        Some(p) => p@.map_values(|x: String| x@),
        None => Seq::empty(),
    }
}

/// A member's heading and declaration line, by its kind.
pub open spec fn heading_of(m: Member) -> Seq<char> {
    if m.kind@ == "ReadWrite"@ {
        "### "@ + m.name@ + "\n\n`"@ + m.decl@ + "` — read/write\n\n"@
    } else if m.kind@ == "ReadOnly"@ {
        "### "@ + m.name@ + "\n\n`"@ + m.decl@ + "` — read-only\n\n"@
    } else if m.kind@ == "Signal"@ {
        "### "@ + m.name@ + "\n\nFires with `("@ + join_of(payload_names(m), ", "@) + ")`\n\n"@
    } else {
        "### "@ + m.name@ + "\n\n`"@ + m.decl@ + "`\n\n"@
    }
}

/// The prose for the parameter `name`, or a dash.
pub open spec fn prose_of(mc: MemberContent, name: Seq<char>) -> Seq<char> {
    match lookup(mc.params@, name) {
        Some(s) => s@,
        None => "—"@,
    }
}

/// The rows of the parameter table.
pub open spec fn param_rows(mc: MemberContent, params: Seq<Param>) -> Seq<char>
    decreases params.len(),
{
    if params.len() == 0 {
        Seq::empty()
    } else {
        let p = params.last();
        param_rows(mc, params.drop_last()) + "| `"@ + p.name@ + ": "@ + p.ty@ + "` | "@ + trim_of(
            replace_of(prose_of(mc, p.name@), '\n', ' '),
        ) + " |\n"@
    }
}

/// The examples, each under its title.
pub open spec fn examples_text(examples: Seq<Example>) -> Seq<char>
    decreases examples.len(),
{
    if examples.len() == 0 {
        Seq::empty()
    } else {
        let ex = examples.last();
        examples_text(examples.drop_last()) + "#### "@ + ex.title@ + "\n\n"@ + "```lua\n"@
            + trim_end_of(ex.code@) + "\n```\n\n"@
    }
}

/// What a member's content adds to its section: the parameter table,
/// the returns line, the remarks and the examples.
pub open spec fn content_part(m: Member, mc: MemberContent) -> Seq<char> {
    (if mc.params@.len() > 0 && m.params is Some {
        "| Parameter | Description |\n|---|---|\n"@ + param_rows(mc, m.params.unwrap()@) + "\n"@
    } else {
        Seq::empty()
    }) + (match mc.returns {
        Some(r) => "**Returns:** "@ + trim_of(r@) + "\n\n"@,
        None => Seq::empty(),
    }) + (match mc.remarks {
        Some(r) => trim_end_of(r@) + "\n\n"@,
        None => Seq::empty(),
    }) + examples_text(mc.examples@)
}

/// One member's book section.
pub open spec fn member_section_of(m: Member, c: Option<MemberContent>) -> Seq<char> {
    heading_of(m) + m.summary@ + "\n\n"@ + match c {
        None => Seq::empty(),
        Some(mc) => content_part(m, mc),
    }
}

/// An optional borrowed member content as a value.
pub open spec fn deref_content(c: Option<&MemberContent>) -> Option<MemberContent> {
    match c {
        Some(mc) => Some(*mc),
        None => None,
    }
}

/// Appends the examples, each under its title with its code fenced as
/// Luau.
pub fn push_examples(out: &mut String, examples: &Vec<Example>)
    ensures
        final(out)@ == old(out)@ + examples_text(examples@),
{
    let ghost start = out@;
    let mut i: usize = 0;
    while i < examples.len()
        invariant
            i <= examples.len(),
            out@ == start + examples_text(examples@.take(i as int)),
        decreases examples.len() - i,
    {
        let ex = &examples[i];
        assert(examples@.take(i + 1).drop_last() =~= examples@.take(i as int));
        push_str(out, "#### ");
        push_str(out, ex.title.as_str());
        push_str(out, "\n\n");
        push_str(out, "```lua\n");
        let code = trim_end(ex.code.as_str());
        push_str(out, code.as_str());
        push_str(out, "\n```\n\n");
        i = i + 1;
    }
    assert(examples@.take(i as int) =~= examples@);
}

fn push_heading(out: &mut String, member: &Member)
    ensures
        final(out)@ == old(out)@ + heading_of(*member),
{
    if str_eq(member.kind.as_str(), "ReadWrite") {
        push_str(out, "### ");
        push_str(out, member.name.as_str());
        push_str(out, "\n\n`");
        push_str(out, member.decl.as_str());
        push_str(out, "` — read/write\n\n");
    } else if str_eq(member.kind.as_str(), "ReadOnly") {
        push_str(out, "### ");
        push_str(out, member.name.as_str());
        push_str(out, "\n\n`");
        push_str(out, member.decl.as_str());
        push_str(out, "` — read-only\n\n");
    } else if str_eq(member.kind.as_str(), "Signal") {
        let fires = match &member.payloads {
            Some(p) => join(p, ", "),
            None => {
                let empty: Vec<String> = Vec::new();
                assert(empty@.map_values(|x: String| x@) =~= Seq::<Seq<char>>::empty());
                join(&empty, ", ")
            },
        };
        push_str(out, "### ");
        push_str(out, member.name.as_str());
        push_str(out, "\n\nFires with `(");
        push_str(out, fires.as_str());
        push_str(out, ")`\n\n");
    } else {
        push_str(out, "### ");
        push_str(out, member.name.as_str());
        push_str(out, "\n\n`");
        push_str(out, member.decl.as_str());
        push_str(out, "`\n\n");
    }
}

#[verifier::spinoff_prover]
fn push_param_table(out: &mut String, mc: &MemberContent, params: &Vec<Param>)
    ensures
        final(out)@ == old(out)@ + "| Parameter | Description |\n|---|---|\n"@ + param_rows(
            *mc,
            params@,
        ) + "\n"@,
{
    push_str(out, "| Parameter | Description |\n|---|---|\n");
    let ghost head = out@;
    let mut i: usize = 0;
    while i < params.len()
        invariant
            i <= params.len(),
            out@ == head + param_rows(*mc, params@.take(i as int)),
        decreases params.len() - i,
    {
        let p = &params[i];
        assert(params@.take(i + 1).drop_last() =~= params@.take(i as int));
        let prose = match find_key(&mc.params, p.name.as_str()) {
            Some(x) => copy_str(mc.params[x].1.as_str()),
            None => copy_str("—"),
        };
        assert(prose@ == prose_of(*mc, p.name@));
        let opened = replace_char(prose.as_str(), '\n', ' ');
        let cell = trim(opened.as_str());
        push_str(out, "| `");
        push_str(out, p.name.as_str());
        push_str(out, ": ");
        push_str(out, p.ty.as_str());
        push_str(out, "` | ");
        push_str(out, cell.as_str());
        push_str(out, " |\n");
        i = i + 1;
    }
    assert(params@.take(i as int) =~= params@);
    push_str(out, "\n");
}

#[verifier::spinoff_prover]
fn push_content_part(out: &mut String, member: &Member, mc: &MemberContent)
    ensures
        final(out)@ == old(out)@ + content_part(*member, *mc),
{
    let ghost start = out@;
    if mc.params.len() > 0 {
        match &member.params {
            Some(params) => push_param_table(out, mc, params),
            None => {},
        }
    }
    let ghost a = out@;
    assert(a == start + (if mc.params@.len() > 0 && member.params is Some {
        "| Parameter | Description |\n|---|---|\n"@ + param_rows(*mc, member.params.unwrap()@)
            + "\n"@
    } else {
        Seq::empty()
    }));
    match &mc.returns {
        Some(r) => {
            let t = trim(r.as_str());
            push_str(out, "**Returns:** ");
            push_str(out, t.as_str());
            push_str(out, "\n\n");
        },
        None => {},
    }
    let ghost b = out@;
    assert(b == a + match mc.returns {
        Some(r) => "**Returns:** "@ + trim_of(r@) + "\n\n"@,
        None => Seq::empty(),
    });
    match &mc.remarks {
        Some(r) => {
            let t = trim_end(r.as_str());
            push_str(out, t.as_str());
            push_str(out, "\n\n");
        },
        None => {},
    }
    let ghost c = out@;
    assert(c == b + match mc.remarks {
        Some(r) => trim_end_of(r@) + "\n\n"@,
        None => Seq::empty(),
    });
    push_examples(out, &mc.examples);
    assert(out@ =~= start + content_part(*member, *mc));
}

/// Appends one member's book section: the heading and declaration by
/// kind, the summary, and what the member's content adds.
#[verifier::spinoff_prover]
pub fn push_member_section(out: &mut String, member: &Member, content: Option<&MemberContent>)
    ensures
        final(out)@ == old(out)@ + member_section_of(*member, deref_content(content)),
{
    let ghost start = out@;
    push_heading(out, member);
    push_str(out, member.summary.as_str());
    push_str(out, "\n\n");
    let ghost head = out@;
    assert(head == start + heading_of(*member) + member.summary@ + "\n\n"@);
    match content {
        None => {},
        Some(mc) => {
            push_content_part(out, member, mc);
        },
    }
}

/// Whether a member of kind `kind` is listed in group `g`: constructors,
/// properties, methods, events.
pub open spec fn in_group(g: int, kind: Seq<char>) -> bool {
    if g == 0 {
        kind == "Static"@
    } else if g == 1 {
        kind == "ReadWrite"@ || kind == "ReadOnly"@
    } else if g == 2 {
        kind == "Method"@
    } else {
        kind == "Signal"@
    }
}

/// The title of group `g`.
pub open spec fn group_title(g: int) -> Seq<char> {
    if g == 0 {
        "Constructors"@
    } else if g == 1 {
        "Properties"@
    } else if g == 2 {
        "Methods"@
    } else {
        "Events"@
    }
}

/// The members of group `g`, in dump order.
pub open spec fn selected(members: Seq<Member>, g: int) -> Seq<Member>
    decreases members.len(),
{
    if members.len() == 0 {
        Seq::empty()
    } else {
        selected(members.drop_last(), g) + if in_group(g, members.last().kind@) {
            seq![members.last()]
        } else {
            Seq::empty()
        }
    }
}

/// The sections of the members `ms` of `owner` in `section`.
pub open spec fn sections_text(section: Seq<char>, owner: Seq<char>, ms: Seq<Member>, c: Content) -> Seq<
    char,
>
    decreases ms.len(),
{
    if ms.len() == 0 {
        Seq::empty()
    } else {
        sections_text(section, owner, ms.drop_last(), c) + member_section_of(
            ms.last(),
            member_of(c, section, owner, ms.last().name@),
        )
    }
}

/// Group `g` of an owner's members: its heading and the sections of its
/// members, or nothing where it has none.
pub open spec fn group_text(section: Seq<char>, owner: Seq<char>, members: Seq<Member>, c: Content, g: int) -> Seq<
    char,
> {
    let sel = selected(members, g);
    if sel.len() == 0 {
        Seq::empty()
    } else {
        "## "@ + group_title(g) + "\n\n"@ + sections_text(section, owner, sel, c)
    }
}

/// The Constructors, Properties, Methods and Events sections of an
/// owner.
pub open spec fn groups_text(section: Seq<char>, owner: Seq<char>, members: Seq<Member>, c: Content) -> Seq<
    char,
> {
    group_text(section, owner, members, c, 0) + group_text(section, owner, members, c, 1)
        + group_text(section, owner, members, c, 2) + group_text(section, owner, members, c, 3)
}

fn in_group_exec(g: usize, kind: &str) -> (r: bool)
    requires
        g < 4,
    ensures
        r == in_group(g as int, kind@),
{
    if g == 0 {
        str_eq(kind, "Static")
    } else if g == 1 {
        str_eq(kind, "ReadWrite") || str_eq(kind, "ReadOnly")
    } else if g == 2 {
        str_eq(kind, "Method")
    } else {
        str_eq(kind, "Signal")
    }
}

#[verifier::spinoff_prover]
fn push_group(
    out: &mut String,
    section: &str,
    owner: &str,
    members: &[Member],
    content: &Content,
    g: usize,
)
    requires
        g < 4,
    ensures
        final(out)@ == old(out)@ + group_text(section@, owner@, members@, *content, g as int),
{
    let ghost start = out@;
    let mut sel: Vec<&Member> = Vec::new();
    let mut i: usize = 0;
    while i < members.len()
        invariant
            i <= members@.len(),
            g < 4,
            sel@.map_values(|m: &Member| *m) == selected(members@.take(i as int), g as int),
        decreases members.len() - i,
    {
        let m = &members[i];
        assert(members@.take(i + 1).drop_last() =~= members@.take(i as int));
        let ghost before = sel@;
        if in_group_exec(g, m.kind.as_str()) {
            sel.push(m);
            proof {
                before.lemma_push_map_commute(|m: &Member| *m, m);
            }
        }
        assert(sel@.map_values(|m: &Member| *m) =~= selected(members@.take(i + 1), g as int));
        i = i + 1;
    }
    assert(members@.take(i as int) =~= members@);
    let ghost sv = selected(members@, g as int);
    if sel.len() == 0 {
        assert(sv.len() == 0);
        return;
    }
    push_str(out, "## ");
    if g == 0 {
        push_str(out, "Constructors");
    } else if g == 1 {
        push_str(out, "Properties");
    } else if g == 2 {
        push_str(out, "Methods");
    } else {
        push_str(out, "Events");
    }
    push_str(out, "\n\n");
    let ghost head = out@;
    assert(head == start + "## "@ + group_title(g as int) + "\n\n"@);
    let mut j: usize = 0;
    while j < sel.len()
        invariant
            j <= sel.len(),
            sel@.map_values(|m: &Member| *m) == sv,
            out@ == head + sections_text(section@, owner@, sv.take(j as int), *content),
        decreases sel.len() - j,
    {
        let m = sel[j];
        assert(sv[j as int] == *m);
        assert(sv.take(j + 1).drop_last() =~= sv.take(j as int));
        let mc = content.member(section, owner, m.name.as_str());
        push_member_section(out, m, mc);
        j = j + 1;
    }
    assert(sv.take(j as int) =~= sv);
}

/// Appends the Constructors, Properties, Methods and Events sections of
/// one owner.
pub fn push_member_groups_for(
    out: &mut String,
    section: &str,
    owner: &str,
    members: &[Member],
    content: &Content,
)
    ensures
        final(out)@ == old(out)@ + groups_text(section@, owner@, members@, *content),
{
    let ghost start = out@;
    push_group(out, section, owner, members, content, 0);
    push_group(out, section, owner, members, content, 1);
    push_group(out, section, owner, members, content, 2);
    push_group(out, section, owner, members, content, 3);
    assert(out@ =~= start + groups_text(section@, owner@, members@, *content));
}

/// The page-level content additions of `owner` in `section`: remarks,
/// then examples.
pub open spec fn extras_of(c: Content, section: Seq<char>, owner: Seq<char>) -> Seq<char> {
    match lookup(c.owners@, section) {
        None => Seq::empty(),
        Some(owners) => match lookup(owners@, owner) {
            None => Seq::empty(),
            Some(oc) => match oc.class {
                None => Seq::empty(),
                Some(x) => (match x.remarks {
                    Some(r) => trim_end_of(r@) + "\n\n"@,
                    None => Seq::empty(),
                }) + examples_text(x.examples@),
            },
        },
    }
}

/// Appends the page-level content additions, after the summary
/// paragraph.
pub fn push_owner_extras(out: &mut String, section: &str, owner: &str, content: &Content)
    ensures
        final(out)@ == old(out)@ + extras_of(*content, section@, owner@),
{
    let i = match find_key(&content.owners, section) {
        None => {
            return ;
        },
        Some(i) => i,
    };
    let owners = &content.owners[i].1;
    let j = match find_key(owners, owner) {
        None => {
            return ;
        },
        Some(j) => j,
    };
    match &owners[j].1.class {
        None => {},
        Some(extras) => {
            let ghost start = out@;
            match &extras.remarks {
                Some(r) => {
                    let t = trim_end(r.as_str());
                    push_str(out, t.as_str());
                    push_str(out, "\n\n");
                },
                None => {},
            }
            push_examples(out, &extras.examples);
            assert(out@ =~= start + extras_of(*content, section@, owner@));
        },
    }
}

/// A datatype or service page.
pub open spec fn standalone_page_of(
    section: Seq<char>,
    name: Seq<char>,
    summary: Seq<char>,
    members: Seq<Member>,
    c: Content,
) -> Seq<char> {
    "# "@ + name + "\n\n"@ + summary + "\n\n"@ + extras_of(c, section, name) + groups_text(
        section,
        name,
        members,
        c,
    )
}

/// Builds a datatype or service page.
pub fn emit_standalone_page(
    section: &str,
    name: &str,
    summary: &str,
    members: &[Member],
    content: &Content,
) -> (r: String)
    ensures
        r@ == standalone_page_of(section@, name@, summary@, members@, *content),
{
    let mut out = String::new();
    push_str(&mut out, "# ");
    push_str(&mut out, name);
    push_str(&mut out, "\n\n");
    push_str(&mut out, summary);
    push_str(&mut out, "\n\n");
    push_owner_extras(&mut out, section, name, content);
    push_member_groups_for(&mut out, section, name, members, content);
    out
}

/// Whether some class has `name` for its parent.
pub open spec fn has_child(classes: Seq<Class>, name: Seq<char>) -> bool {
    exists|i: int| 0 <= i < classes.len() && opt_view(#[trigger] classes[i].parent) == Some(name)
}

/// The creation line of a class page.
pub open spec fn creation_of(classes: Seq<Class>, cl: Class) -> Seq<char> {
    if cl.creatable {
        "Creatable with `Instance.new(\""@ + cl.name@ + "\")`."@
    } else if has_child(classes, cl.name@) {
        "Not creatable: a base class other classes inherit from."@
    } else {
        "Not creatable: the engine spawns it."@
    }
}

/// A link to the page of the class `a`, from a class page.
pub open spec fn class_link(a: Seq<char>) -> Seq<char> {
    "["@ + a + "]("@ + a + ".md)"@
}

/// The inheritance line of a class page.
pub open spec fn inherits_of(ancestors: Seq<Seq<char>>) -> Seq<char> {
    if ancestors.len() > 0 {
        "*Inherits "@ + join_of(ancestors.map_values(|a: Seq<char>| class_link(a)), " < "@)
            + "*\n\n"@
    } else {
        Seq::empty()
    }
}

/// The members of the first class named `name`.
pub open spec fn first_class_members(classes: Seq<Class>, name: Seq<char>) -> Option<Seq<Member>> {
    if exists|i: int| crate::dump::is_first_class(classes, name, i) {
        Some(classes[choose|i: int| crate::dump::is_first_class(classes, name, i)].members@)
    } else {
        None
    }
}

/// The names of the members that are not constructors.
pub open spec fn instance_names(ms: Seq<Member>) -> Seq<Seq<char>>
    decreases ms.len(),
{
    if ms.len() == 0 {
        Seq::empty()
    } else {
        instance_names(ms.drop_last()) + if ms.last().kind@ != "Static"@ {
            seq![ms.last().name@]
        } else {
            Seq::empty()
        }
    }
}

/// The inherited-member lines of a class page, one per ancestor that
/// is a class of the dump with members that are not constructors.
pub open spec fn inherited_lines(classes: Seq<Class>, ancestors: Seq<Seq<char>>) -> Seq<Seq<char>>
    decreases ancestors.len(),
{
    if ancestors.len() == 0 {
        Seq::empty()
    } else {
        let a = ancestors.last();
        inherited_lines(classes, ancestors.drop_last()) + match first_class_members(classes, a) {
            None => Seq::empty(),
            Some(ms) => if instance_names(ms).len() > 0 {
                seq!["- from "@ + class_link(a) + ": "@ + join_of(instance_names(ms), ", "@)]
            } else {
                Seq::empty()
            },
        }
    }
}

/// Each line followed by a line break.
pub open spec fn lines_text(lines: Seq<Seq<char>>) -> Seq<char>
    decreases lines.len(),
{
    if lines.len() == 0 {
        Seq::empty()
    } else {
        lines_text(lines.drop_last()) + lines.last() + "\n"@
    }
}

/// The inherited-members section of a class page.
pub open spec fn inherited_of(classes: Seq<Class>, ancestors: Seq<Seq<char>>) -> Seq<char> {
    let lines = inherited_lines(classes, ancestors);
    if lines.len() > 0 {
        "## Inherited members\n\n"@ + lines_text(lines)
    } else {
        Seq::empty()
    }
}

/// A class page.
pub open spec fn class_page_of(d: Dump, cl: Class, c: Content) -> Seq<char> {
    let ancestors = ancestors_of(d.classes@, cl.name@);
    "# "@ + cl.name@ + "\n\n"@ + inherits_of(ancestors) + creation_of(d.classes@, cl) + "\n\n"@
        + cl.summary@ + "\n\n"@ + extras_of(c, "classes"@, cl.name@) + groups_text(
        "classes"@,
        cl.name@,
        cl.members@,
        c,
    ) + inherited_of(d.classes@, ancestors)
}

fn has_child_exec(classes: &Vec<Class>, name: &str) -> (r: bool)
    ensures
        r == has_child(classes@, name@),
{
    let mut i: usize = 0;
    while i < classes.len()
        invariant
            i <= classes.len(),
            forall|j: int| 0 <= j < i ==> opt_view(#[trigger] classes@[j].parent) != Some(name@),
        decreases classes.len() - i,
    {
        if opt_eq(&classes[i].parent, Some(name)) {
            return true;
        }
        i = i + 1;
    }
    false
}

/// The first position of `classes` named `name`, if any.
fn find_class(classes: &Vec<Class>, name: &str) -> (r: Option<usize>)
    ensures
        match r {
            Some(i) => i < classes.len() && first_class_members(classes@, name@) == Some(
                classes@[i as int].members@,
            ),
            None => first_class_members(classes@, name@) is None,
        },
{
    let mut i: usize = 0;
    while i < classes.len()
        invariant
            i <= classes.len(),
            forall|j: int| 0 <= j < i ==> #[trigger] classes@[j].name@ != name@,
        decreases classes.len() - i,
    {
        if str_eq(classes[i].name.as_str(), name) {
            proof {
                let cs = classes@;
                assert(crate::dump::is_first_class(cs, name@, i as int));
                let w = choose|w: int| crate::dump::is_first_class(cs, name@, w);
                if w < i {
                    assert(cs[w].name@ != name@);
                } else if w > i {
                    assert(cs[i as int].name@ != name@);
                }
            }
            return Some(i);
        }
        i = i + 1;
    }
    assert(!exists|w: int| crate::dump::is_first_class(classes@, name@, w)) by {
        if exists|w: int| crate::dump::is_first_class(classes@, name@, w) {
            let w = choose|w: int| crate::dump::is_first_class(classes@, name@, w);
            assert(classes@[w].name@ != name@);
        }
    }
    None
}

fn instance_member_names(members: &Vec<Member>) -> (r: Vec<String>)
    ensures
        r@.map_values(|x: String| x@) == instance_names(members@),
{
    let mut names: Vec<String> = Vec::new();
    let mut i: usize = 0;
    while i < members.len()
        invariant
            i <= members.len(),
            names@.map_values(|x: String| x@) == instance_names(members@.take(i as int)),
        decreases members.len() - i,
    {
        let m = &members[i];
        assert(members@.take(i + 1).drop_last() =~= members@.take(i as int));
        let ghost before = names@;
        if !str_eq(m.kind.as_str(), "Static") {
            let n = m.name.clone();
            names.push(n);
            proof {
                before.lemma_push_map_commute(|x: String| x@, n);
            }
        }
        assert(names@.map_values(|x: String| x@) =~= instance_names(members@.take(i + 1)));
        i = i + 1;
    }
    assert(members@.take(i as int) =~= members@);
    names
}

fn class_link_exec(a: &str) -> (r: String)
    ensures
        r@ == class_link(a@),
{
    let mut s = String::new();
    push_str(&mut s, "[");
    push_str(&mut s, a);
    push_str(&mut s, "](");
    push_str(&mut s, a);
    push_str(&mut s, ".md)");
    s
}

/// Builds a class page: the inheritance line, the creation line, the
/// summary, the content additions, the member groups and the members
/// inherited from each ancestor.
#[verifier::spinoff_prover]
pub fn emit_class_page(dump: &Dump, class: &Class, content: &Content) -> (r: String)
    requires
        chain_terminates(dump.classes@, class.name@),
    ensures
        r@ == class_page_of(*dump, *class, *content),
{
    let ghost cs = dump.classes@;
    let ghost av = ancestors_of(cs, class.name@);
    let mut out = String::new();
    push_str(&mut out, "# ");
    push_str(&mut out, class.name.as_str());
    push_str(&mut out, "\n\n");
    let ancestors = dump.ancestors(class.name.as_str());
    let ghost p1 = out@;
    if ancestors.len() > 0 {
        let mut links: Vec<String> = Vec::new();
        let mut i: usize = 0;
        while i < ancestors.len()
            invariant
                i <= ancestors.len(),
                ancestors@.map_values(|s: &str| s@) == av,
                links@.map_values(|x: String| x@) == av.take(i as int).map_values(
                    |a: Seq<char>| class_link(a),
                ),
            decreases ancestors.len() - i,
        {
            let link = class_link_exec(ancestors[i]);
            let ghost before = links@;
            links.push(link);
            proof {
                before.lemma_push_map_commute(|x: String| x@, link);
                av.lemma_map_take_succ(|a: Seq<char>| class_link(a), i as int);
            }
            i = i + 1;
        }
        assert(av.take(i as int) =~= av);
        let chain = join(&links, " < ");
        push_str(&mut out, "*Inherits ");
        push_str(&mut out, chain.as_str());
        push_str(&mut out, "*\n\n");
    }
    assert(out@ =~= p1 + inherits_of(av));
    let ghost p2 = out@;
    if class.creatable {
        push_str(&mut out, "Creatable with `Instance.new(\"");
        push_str(&mut out, class.name.as_str());
        push_str(&mut out, "\")`.");
    } else if has_child_exec(&dump.classes, class.name.as_str()) {
        push_str(&mut out, "Not creatable: a base class other classes inherit from.");
    } else {
        push_str(&mut out, "Not creatable: the engine spawns it.");
    }
    assert(out@ =~= p2 + creation_of(cs, *class));
    push_str(&mut out, "\n\n");
    push_str(&mut out, class.summary.as_str());
    push_str(&mut out, "\n\n");
    push_owner_extras(&mut out, "classes", class.name.as_str(), content);
    push_member_groups_for(&mut out, "classes", class.name.as_str(), class.members.as_slice(), content);
    let ghost p3 = out@;
    // Members inherited from each ancestor.
    let mut inherited: Vec<String> = Vec::new();
    let mut i: usize = 0;
    while i < ancestors.len()
        invariant
            i <= ancestors.len(),
            ancestors@.map_values(|s: &str| s@) == av,
            cs == dump.classes@,
            inherited@.map_values(|x: String| x@) == inherited_lines(cs, av.take(i as int)),
        decreases ancestors.len() - i,
    {
        let a = ancestors[i];
        assert(av[i as int] == a@);
        assert(av.take(i + 1).drop_last() =~= av.take(i as int));
        let ghost before = inherited@;
        match find_class(&dump.classes, a) {
            None => {},
            Some(x) => {
                let names = instance_member_names(&dump.classes[x].members);
                if names.len() > 0 {
                    let listed = join(&names, ", ");
                    let mut line = String::new();
                    push_str(&mut line, "- from ");
                    let link = class_link_exec(a);
                    push_str(&mut line, link.as_str());
                    push_str(&mut line, ": ");
                    push_str(&mut line, listed.as_str());
                    inherited.push(line);
                    proof {
                        before.lemma_push_map_commute(|x: String| x@, line);
                    }
                }
            },
        }
        assert(inherited@.map_values(|x: String| x@) =~= inherited_lines(cs, av.take(i + 1)));
        i = i + 1;
    }
    assert(av.take(i as int) =~= av);
    if inherited.len() > 0 {
        push_str(&mut out, "## Inherited members\n\n");
        let ghost lv = inherited@.map_values(|x: String| x@);
        let ghost head = out@;
        let mut j: usize = 0;
        while j < inherited.len()
            invariant
                j <= inherited.len(),
                lv == inherited@.map_values(|x: String| x@),
                out@ == head + lines_text(lv.take(j as int)),
            decreases inherited.len() - j,
        {
            assert(lv.take(j + 1).drop_last() =~= lv.take(j as int));
            assert(lv[j as int] == inherited[j as int]@);
            push_str(&mut out, inherited[j].as_str());
            push_str(&mut out, "\n");
            j = j + 1;
        }
        assert(lv.take(j as int) =~= lv);
    }
    assert(out@ =~= p3 + inherited_of(cs, av));
    out
}

/// The enums page.
pub open spec fn enums_of(d: Dump) -> Seq<char> {
    "# Enums\n\nItems in name order; `EnumItem.Value` is an engine-internal index.\n\n"@
        + enum_blocks(d.enums@)
}

/// One item line per enum item name.
pub open spec fn item_lines(items: Seq<Seq<char>>) -> Seq<char>
    decreases items.len(),
{
    if items.len() == 0 {
        Seq::empty()
    } else {
        item_lines(items.drop_last()) + "- `"@ + items.last() + "`\n"@
    }
}

/// One block per enum family, its items in name order.
pub open spec fn enum_blocks(enums: Seq<(String, Vec<String>)>) -> Seq<char>
    decreases enums.len(),
{
    if enums.len() == 0 {
        Seq::empty()
    } else {
        enum_blocks(enums.drop_last()) + "## Enum."@ + enums.last().0@ + "\n\n"@ + item_lines(
            sorted_names(names_of(enums.last().1@)),
        ) + "\n"@
    }
}

fn push_items(out: &mut String, items: &Vec<String>)
    ensures
        final(out)@ == old(out)@ + item_lines(names_of(items@)),
{
    let ghost start = out@;
    let mut i: usize = 0;
    while i < items.len()
        invariant
            i <= items.len(),
            out@ == start + item_lines(names_of(items@.take(i as int))),
        decreases items.len() - i,
    {
        assert(names_of(items@.take(i + 1)).drop_last() =~= names_of(items@.take(i as int)));
        push_str(out, "- `");
        push_str(out, items[i].as_str());
        push_str(out, "`\n");
        i = i + 1;
    }
    assert(names_of(items@.take(i as int)) =~= names_of(items@));
}

/// Builds the enums page: every family in the dump's order, with its
/// items in name order.
pub fn emit_enums(dump: &Dump) -> (r: String)
    ensures
        r@ == enums_of(*dump),
{
    let mut out = String::new();
    push_str(&mut out, "# Enums\n\nItems in name order; `EnumItem.Value` is an engine-internal index.\n\n");
    let ghost head = out@;
    let mut i: usize = 0;
    while i < dump.enums.len()
        invariant
            i <= dump.enums.len(),
            out@ == head + enum_blocks(dump.enums@.take(i as int)),
        decreases dump.enums.len() - i,
    {
        assert(dump.enums@.take(i + 1).drop_last() =~= dump.enums@.take(i as int));
        push_str(&mut out, "## Enum.");
        push_str(&mut out, dump.enums[i].0.as_str());
        push_str(&mut out, "\n\n");
        let items = sort_by_name(&dump.enums[i].1);
        push_items(&mut out, &items);
        push_str(&mut out, "\n");
        i = i + 1;
    }
    assert(dump.enums@.take(i as int) =~= dump.enums@);
    out
}

/// The note beside an engine global on the globals page, for the
/// globals that have one.
pub open spec fn note_of(g: Seq<char>) -> Option<Seq<char>> {
    if g == "workspace"@ {
        Some("the Workspace root — an [Instance](classes/Instance.md)"@)
    } else
    if g == "game"@ {
        Some("the [DataModel](services/DataModel.md): `game:GetService(name)` hands out the engine services"@)
    } else
    if g == "Instance"@ {
        Some("[Instance](classes/Instance.md) construction: `Instance.new`"@)
    } else
    if g == "CFrame"@ {
        Some("the [CFrame](datatypes/CFrame.md) constructors"@)
    } else
    if g == "Color3"@ {
        Some("the [Color3](datatypes/Color3.md) constructors"@)
    } else
    if g == "UDim2"@ {
        Some("the [UDim2](datatypes/UDim2.md) constructors"@)
    } else
    if g == "Vector3"@ {
        Some("the [Vector3](datatypes/Vector3.md) constructors and constants"@)
    } else
    if g == "TweenInfo"@ {
        Some("the [TweenInfo](datatypes/TweenInfo.md) constructor"@)
    } else
    if g == "Enum"@ {
        Some("the [enum](enums.md) tables"@)
    } else
    if g == "task"@ {
        Some("the scheduler library (`spawn`/`defer`/`wait` on the engine clock) — not yet in the API model"@)
    } else
    if g == "Signals"@ {
        Some("the cross-script signal service table — not yet in the API model"@)
    } else
    if g == "Keybinds"@ {
        Some("the keybind action service table — not yet in the API model"@)
    } else
    if g == "vector"@ {
        Some("Luau's native vector library — [Vector3](datatypes/Vector3.md) is the same type"@)
    } else
    if g == "require"@ {
        Some("loads a [ModuleScript](classes/ModuleScript.md) and caches its result"@)
    } else {
        None
    }
}

/// Whether `g` is a name of Luau's standard library.
pub open spec fn is_luau_stdlib(g: Seq<char>) -> bool {
    ||| g == "_G"@
    ||| g == "_VERSION"@
    ||| g == "assert"@
    ||| g == "bit32"@
    ||| g == "collectgarbage"@
    ||| g == "coroutine"@
    ||| g == "error"@
    ||| g == "gcinfo"@
    ||| g == "getfenv"@
    ||| g == "getmetatable"@
    ||| g == "ipairs"@
    ||| g == "loadstring"@
    ||| g == "math"@
    ||| g == "newproxy"@
    ||| g == "next"@
    ||| g == "os"@
    ||| g == "pairs"@
    ||| g == "pcall"@
    ||| g == "print"@
    ||| g == "rawequal"@
    ||| g == "rawget"@
    ||| g == "rawlen"@
    ||| g == "rawset"@
    ||| g == "select"@
    ||| g == "setfenv"@
    ||| g == "setmetatable"@
    ||| g == "string"@
    ||| g == "table"@
    ||| g == "tonumber"@
    ||| g == "tostring"@
    ||| g == "type"@
    ||| g == "typeof"@
    ||| g == "unpack"@
    ||| g == "utf8"@
    ||| g == "warn"@
    ||| g == "xpcall"@
}

/// The note beside the engine global `g`, if it has one.
fn note_for(g: &str) -> (r: Option<&'static str>)
    ensures
        match r {
            Some(n) => note_of(g@) == Some(n@),
            None => note_of(g@) is None,
        },
{
    if str_eq(g, "workspace") {
        Some("the Workspace root — an [Instance](classes/Instance.md)")
    } else
    if str_eq(g, "game") {
        Some("the [DataModel](services/DataModel.md): `game:GetService(name)` hands out the engine services")
    } else
    if str_eq(g, "Instance") {
        Some("[Instance](classes/Instance.md) construction: `Instance.new`")
    } else
    if str_eq(g, "CFrame") {
        Some("the [CFrame](datatypes/CFrame.md) constructors")
    } else
    if str_eq(g, "Color3") {
        Some("the [Color3](datatypes/Color3.md) constructors")
    } else
    if str_eq(g, "UDim2") {
        Some("the [UDim2](datatypes/UDim2.md) constructors")
    } else
    if str_eq(g, "Vector3") {
        Some("the [Vector3](datatypes/Vector3.md) constructors and constants")
    } else
    if str_eq(g, "TweenInfo") {
        Some("the [TweenInfo](datatypes/TweenInfo.md) constructor")
    } else
    if str_eq(g, "Enum") {
        Some("the [enum](enums.md) tables")
    } else
    if str_eq(g, "task") {
        Some("the scheduler library (`spawn`/`defer`/`wait` on the engine clock) — not yet in the API model")
    } else
    if str_eq(g, "Signals") {
        Some("the cross-script signal service table — not yet in the API model")
    } else
    if str_eq(g, "Keybinds") {
        Some("the keybind action service table — not yet in the API model")
    } else
    if str_eq(g, "vector") {
        Some("Luau's native vector library — [Vector3](datatypes/Vector3.md) is the same type")
    } else
    if str_eq(g, "require") {
        Some("loads a [ModuleScript](classes/ModuleScript.md) and caches its result")
    } else {
        None
    }
}

/// Whether `g` is a name of Luau's standard library.
fn luau_stdlib(g: &str) -> (r: bool)
    ensures
        r == is_luau_stdlib(g@),
{
    str_eq(g, "_G")
        || str_eq(g, "_VERSION")
        || str_eq(g, "assert")
        || str_eq(g, "bit32")
        || str_eq(g, "collectgarbage")
        || str_eq(g, "coroutine")
        || str_eq(g, "error")
        || str_eq(g, "gcinfo")
        || str_eq(g, "getfenv")
        || str_eq(g, "getmetatable")
        || str_eq(g, "ipairs")
        || str_eq(g, "loadstring")
        || str_eq(g, "math")
        || str_eq(g, "newproxy")
        || str_eq(g, "next")
        || str_eq(g, "os")
        || str_eq(g, "pairs")
        || str_eq(g, "pcall")
        || str_eq(g, "print")
        || str_eq(g, "rawequal")
        || str_eq(g, "rawget")
        || str_eq(g, "rawlen")
        || str_eq(g, "rawset")
        || str_eq(g, "select")
        || str_eq(g, "setfenv")
        || str_eq(g, "setmetatable")
        || str_eq(g, "string")
        || str_eq(g, "table")
        || str_eq(g, "tonumber")
        || str_eq(g, "tostring")
        || str_eq(g, "type")
        || str_eq(g, "typeof")
        || str_eq(g, "unpack")
        || str_eq(g, "utf8")
        || str_eq(g, "warn")
        || str_eq(g, "xpcall")
}

/// The lines of the engine globals that carry a note.
pub open spec fn engine_lines(gs: Seq<String>) -> Seq<char>
    decreases gs.len(),
{
    if gs.len() == 0 {
        Seq::empty()
    } else {
        let g = gs.last()@;
        engine_lines(gs.drop_last()) + match note_of(g) {
            Some(n) => "- `"@ + g + "` — "@ + n + "\n"@,
            None => Seq::empty(),
        }
    }
}

/// The globals with no note that are not Luau's.
pub open spec fn plain_globals(gs: Seq<String>) -> Seq<Seq<char>>
    decreases gs.len(),
{
    if gs.len() == 0 {
        Seq::empty()
    } else {
        let g = gs.last()@;
        plain_globals(gs.drop_last()) + if note_of(g) is None && !is_luau_stdlib(g) {
            seq![g]
        } else {
            Seq::empty()
        }
    }
}

/// The globals with no note that are Luau's, each in backquotes.
pub open spec fn stdlib_globals(gs: Seq<String>) -> Seq<Seq<char>>
    decreases gs.len(),
{
    if gs.len() == 0 {
        Seq::empty()
    } else {
        let g = gs.last()@;
        stdlib_globals(gs.drop_last()) + if note_of(g) is None && is_luau_stdlib(g) {
            seq!["`"@ + g + "`"@]
        } else {
            Seq::empty()
        }
    }
}

/// One line per plain global.
pub open spec fn plain_lines(ps: Seq<Seq<char>>) -> Seq<char>
    decreases ps.len(),
{
    if ps.len() == 0 {
        Seq::empty()
    } else {
        plain_lines(ps.drop_last()) + "- `"@ + ps.last() + "`\n"@
    }
}

/// The globals page.
pub open spec fn globals_of(d: Dump) -> Seq<char> {
    let plain = plain_globals(d.globals@);
    "# Globals\n\nEverything a script's environment starts with.\n\n## Engine globals\n\n"@
        + engine_lines(d.globals@) + (if plain.len() > 0 {
        "\n## Other globals\n\n"@ + plain_lines(plain)
    } else {
        Seq::empty()
    }) + "\n## Luau standard library\n\n"@ + join_of(stdlib_globals(d.globals@), ", "@)
        + "\n\n"@
}

/// Builds the globals page: the engine globals with their notes, the
/// other globals, and the names of Luau's standard library.
#[verifier::spinoff_prover]
pub fn emit_globals(dump: &Dump) -> (r: String)
    ensures
        r@ == globals_of(*dump),
{
    let gs = &dump.globals;
    let mut out = String::new();
    push_str(
        &mut out,
        "# Globals\n\nEverything a script's environment starts with.\n\n## Engine globals\n\n",
    );
    let ghost head = out@;
    let mut stdlib: Vec<String> = Vec::new();
    let mut plain: Vec<String> = Vec::new();
    let mut i: usize = 0;
    while i < gs.len()
        invariant
            i <= gs.len(),
            out@ == head + engine_lines(gs@.take(i as int)),
            stdlib@.map_values(|x: String| x@) == stdlib_globals(gs@.take(i as int)),
            plain@.map_values(|x: String| x@) == plain_globals(gs@.take(i as int)),
        decreases gs.len() - i,
    {
        let g = gs[i].as_str();
        assert(gs@.take(i + 1).drop_last() =~= gs@.take(i as int));
        assert(gs@.take(i + 1).last()@ == g@);
        let ghost sb = stdlib@;
        let ghost pb = plain@;
        match note_for(g) {
            Some(note) => {
                push_str(&mut out, "- `");
                push_str(&mut out, g);
                push_str(&mut out, "` — ");
                push_str(&mut out, note);
                push_str(&mut out, "\n");
            },
            None => {
                if luau_stdlib(g) {
                    let mut quoted = String::new();
                    push_str(&mut quoted, "`");
                    push_str(&mut quoted, g);
                    push_str(&mut quoted, "`");
                    stdlib.push(quoted);
                    proof {
                        sb.lemma_push_map_commute(|x: String| x@, quoted);
                    }
                } else {
                    let name = copy_str(g);
                    plain.push(name);
                    proof {
                        pb.lemma_push_map_commute(|x: String| x@, name);
                    }
                }
            },
        }
        assert(stdlib@.map_values(|x: String| x@) =~= stdlib_globals(gs@.take(i + 1)));
        assert(plain@.map_values(|x: String| x@) =~= plain_globals(gs@.take(i + 1)));
        i = i + 1;
    }
    assert(gs@.take(i as int) =~= gs@);
    let ghost pv = plain@.map_values(|x: String| x@);
    if plain.len() > 0 {
        push_str(&mut out, "\n## Other globals\n\n");
        let ghost h2 = out@;
        let mut j: usize = 0;
        while j < plain.len()
            invariant
                j <= plain.len(),
                pv == plain@.map_values(|x: String| x@),
                out@ == h2 + plain_lines(pv.take(j as int)),
            decreases plain.len() - j,
        {
            assert(pv.take(j + 1).drop_last() =~= pv.take(j as int));
            assert(pv[j as int] == plain[j as int]@);
            push_str(&mut out, "- `");
            push_str(&mut out, plain[j].as_str());
            push_str(&mut out, "`\n");
            j = j + 1;
        }
        assert(pv.take(j as int) =~= pv);
    }
    let listed = join(&stdlib, ", ");
    push_str(&mut out, "\n## Luau standard library\n\n");
    push_str(&mut out, listed.as_str());
    push_str(&mut out, "\n\n");
    assert(out@ =~= globals_of(*dump));
    out
}

/// The mdBook configuration of the generated tree: the book source is
/// `book/`, regenerated whole, and the output goes under `target/`.
pub const BOOK_TOML: &'static str = "[book]\ntitle = \"BetterVoxel scripting API\"\nlanguage = \"en\"\nsrc = \".\"\n\n[build]\nbuild-dir = \"../target/book\"\ncreate-missing = false\n";

/// A generated page: its path under the book root and its text.
pub open spec fn page_view(p: (String, String)) -> (Seq<char>, Seq<char>) {
    (p.0@, p.1@)
}

/// The class pages of `cls`, each of a class of `d`.
pub open spec fn class_pages(d: Dump, cls: Seq<Class>, c: Content) -> Seq<(Seq<char>, Seq<char>)>
    decreases cls.len(),
{
    if cls.len() == 0 {
        Seq::empty()
    } else {
        class_pages(d, cls.drop_last(), c) + seq![
            ("classes/"@ + cls.last().name@ + ".md"@, class_page_of(d, cls.last(), c)),
        ]
    }
}

/// The datatype or service pages of `os` in `section`.
pub open spec fn owner_pages(section: Seq<char>, os: Seq<Owner>, c: Content) -> Seq<(Seq<char>, Seq<char>)>
    decreases os.len(),
{
    if os.len() == 0 {
        Seq::empty()
    } else {
        let o = os.last();
        owner_pages(section, os.drop_last(), c) + seq![
            (
                section + "/"@ + o.name@ + ".md"@,
                standalone_page_of(section, o.name@, o.summary@, o.members@, c),
            ),
        ]
    }
}

/// Every page the generator writes under the book root, in the order
/// it writes them.
pub open spec fn book_pages_of(d: Dump, c: Content) -> Seq<(Seq<char>, Seq<char>)> {
    seq![
        ("book.toml"@, BOOK_TOML@),
        ("SUMMARY.md"@, summary_of(d, c)),
        ("README.md"@, index_of(d, c)),
    ] + class_pages(d, d.classes@, c) + owner_pages("datatypes"@, d.datatypes@, c) + owner_pages(
        "services"@,
        d.services@,
        c,
    ) + seq![("enums.md"@, enums_of(d)), ("globals.md"@, globals_of(d))]
}

fn push_page(pages: &mut Vec<(String, String)>, path: String, text: String)
    ensures
        final(pages)@.map_values(|p: (String, String)| page_view(p)) == old(pages)@.map_values(
            |p: (String, String)| page_view(p),
        ).push((path@, text@)),
{
    let ghost before = pages@;
    let page = (path, text);
    pages.push(page);
    proof {
        before.lemma_push_map_commute(|p: (String, String)| page_view(p), page);
    }
}

fn push_owner_pages(pages: &mut Vec<(String, String)>, section: &str, owners: &Vec<Owner>, content: &Content)
    ensures
        final(pages)@.map_values(|p: (String, String)| page_view(p)) == old(pages)@.map_values(
            |p: (String, String)| page_view(p),
        ) + owner_pages(section@, owners@, *content),
{
    let ghost start = pages@.map_values(|p: (String, String)| page_view(p));
    let mut i: usize = 0;
    while i < owners.len()
        invariant
            i <= owners.len(),
            pages@.map_values(|p: (String, String)| page_view(p)) == start + owner_pages(
                section@,
                owners@.take(i as int),
                *content,
            ),
        decreases owners.len() - i,
    {
        let o = &owners[i];
        assert(owners@.take(i + 1).drop_last() =~= owners@.take(i as int));
        assert(owners@.take(i + 1).last() == *o);
        let mut path = copy_str(section);
        push_str(&mut path, "/");
        push_str(&mut path, o.name.as_str());
        push_str(&mut path, ".md");
        let text = emit_standalone_page(
            section,
            o.name.as_str(),
            o.summary.as_str(),
            o.members.as_slice(),
            content,
        );
        push_page(pages, path, text);
        i = i + 1;
    }
    assert(owners@.take(i as int) =~= owners@);
}

/// Every page of the book, with its path under the book root: the
/// mdBook configuration, the summary, the index, a page per class,
/// datatype and service, and the enums and globals pages.
#[verifier::spinoff_prover]
#[verifier::rlimit(60)]
pub fn book_pages(dump: &Dump, content: &Content) -> (r: Vec<(String, String)>)
    requires
        tree_terminates(dump.classes@),
        dump.classes@.len() < usize::MAX,
        crate::dump::all_chains_terminate(dump.classes@),
    ensures
        r@.map_values(|p: (String, String)| page_view(p)) == book_pages_of(*dump, *content),
{
    let mut pages: Vec<(String, String)> = Vec::new();
    assert(pages@.map_values(|p: (String, String)| page_view(p)) =~= Seq::<
        (Seq<char>, Seq<char>),
    >::empty());
    push_page(&mut pages, copy_str("book.toml"), copy_str(BOOK_TOML));
    push_page(&mut pages, copy_str("SUMMARY.md"), emit_summary(dump, content));
    push_page(&mut pages, copy_str("README.md"), emit_index(dump, content));
    let ghost head = pages@.map_values(|p: (String, String)| page_view(p));
    let ghost first = seq![
        ("book.toml"@, BOOK_TOML@),
        ("SUMMARY.md"@, summary_of(*dump, *content)),
        ("README.md"@, index_of(*dump, *content)),
    ];
    assert(head =~= first);
    let mut i: usize = 0;
    while i < dump.classes.len()
        invariant
            i <= dump.classes.len(),
            crate::dump::all_chains_terminate(dump.classes@),
            pages@.map_values(|p: (String, String)| page_view(p)) == head + class_pages(
                *dump,
                dump.classes@.take(i as int),
                *content,
            ),
        decreases dump.classes.len() - i,
    {
        let cl = &dump.classes[i];
        assert(dump.classes@.take(i + 1).drop_last() =~= dump.classes@.take(i as int));
        assert(dump.classes@.take(i + 1).last() == *cl);
        assert(chain_terminates(dump.classes@, dump.classes@[i as int].name@));
        let mut path = copy_str("classes/");
        push_str(&mut path, cl.name.as_str());
        push_str(&mut path, ".md");
        let text = emit_class_page(dump, cl, content);
        push_page(&mut pages, path, text);
        i = i + 1;
    }
    assert(dump.classes@.take(i as int) =~= dump.classes@);
    let ghost p1 = pages@.map_values(|p: (String, String)| page_view(p));
    assert(p1 == first + class_pages(*dump, dump.classes@, *content));
    push_owner_pages(&mut pages, "datatypes", &dump.datatypes, content);
    push_owner_pages(&mut pages, "services", &dump.services, content);
    let ghost p2 = pages@.map_values(|p: (String, String)| page_view(p));
    assert(p2 == p1 + owner_pages("datatypes"@, dump.datatypes@, *content) + owner_pages(
        "services"@,
        dump.services@,
        *content,
    ));
    push_page(&mut pages, copy_str("enums.md"), emit_enums(dump));
    push_page(&mut pages, copy_str("globals.md"), emit_globals(dump));
    let ghost last = seq![("enums.md"@, enums_of(*dump)), ("globals.md"@, globals_of(*dump))];
    assert(pages@.map_values(|p: (String, String)| page_view(p)) =~= p2 + last);
    assert(p2 + last =~= book_pages_of(*dump, *content));
    pages
}

#[verifier::spinoff_prover]
fn tree_ok_from(classes: &Vec<Class>, parent: Option<&str>, fuel: usize) -> (r: bool)
    ensures
        r == tree_ok(classes@, opt_str(parent), fuel as nat),
    decreases fuel,
{
    reveal(tree_ok);
    if fuel == 0 {
        return false;
    }
    let ghost pv = opt_str(parent);
    let mut i: usize = 0;
    while i < classes.len()
        invariant
            i <= classes.len(),
            fuel > 0,
            pv == opt_str(parent),
            forall|j: int|
                0 <= j < i && opt_view(classes@[j].parent) == pv ==> tree_ok(
                    classes@,
                    Some(#[trigger] classes@[j].name@),
                    (fuel - 1) as nat,
                ),
        decreases classes.len() - i,
    {
        let c = &classes[i];
        if opt_eq(&c.parent, parent) {
            if !tree_ok_from(classes, Some(c.name.as_str()), fuel - 1) {
                assert(!tree_ok(classes@, Some(classes@[i as int].name@), (fuel - 1) as nat));
                assert(opt_view(classes@[i as int].parent) == pv);
                assert(!tree_ok(classes@, pv, fuel as nat)) by {
                    reveal(tree_ok);
                }
                return false;
            }
        }
        i = i + 1;
    }
    true
}

/// Whether walking the class tree down from the roots ends within
/// `limit` levels; a dump of `n` classes whose walk does not end within
/// `n + 1` levels walks a cycle and never ends.
pub fn class_tree_within(dump: &Dump, limit: usize) -> (r: bool)
    ensures
        r == tree_ok(dump.classes@, None, limit as nat),
        r ==> tree_terminates(dump.classes@),
        limit > dump.classes@.len() ==> (r == tree_terminates(dump.classes@)),
{
    let r = tree_ok_from(&dump.classes, None, limit);
    proof {
        if !r && limit > dump.classes@.len() {
            if tree_ok(dump.classes@, None, tree_fuel(dump.classes@)) {
                lemma_tree_mono(dump.classes@, None, tree_fuel(dump.classes@), limit as nat);
            }
            lemma_tree_cycle(dump.classes@);
        }
    }
    r
}

/// Content only ever adds to a member's section: the section a member
/// has without content is a prefix of the one it has with any content.
pub proof fn lemma_content_only_adds(m: Member, mc: MemberContent)
    ensures
        member_section_of(m, None).is_prefix_of(member_section_of(m, Some(mc))),
{
    let base = member_section_of(m, None);
    let full = member_section_of(m, Some(mc));
    assert(full =~= base + content_part(m, mc));
    assert(full.subrange(0, base.len() as int) =~= base);
}

/// Without content, no page carries content additions: no owner has
/// extras and no member has content.
pub proof fn lemma_empty_content_adds_nothing(c: Content, section: Seq<char>, owner: Seq<char>, member: Seq<char>)
    requires
        c.owners@.len() == 0,
    ensures
        extras_of(c, section, owner) == Seq::<char>::empty(),
        member_of(c, section, owner, member) is None,
{
    assert(!crate::keyed::has_key(c.owners@, section));
}


proof fn lemma_ends_with_newline(x: Seq<char>, t: Seq<char>)
    requires
        t.len() > 0,
        t.last() == '\n',
    ensures
        whole_lines(x + t),
{
    assert((x + t).last() == t.last());
}

proof fn lemma_examples_whole(examples: Seq<Example>)
    ensures
        whole_lines(examples_text(examples)),
    decreases examples.len(),
{
    if examples.len() > 0 {
        let ex = examples.last();
        reveal_strlit("\n```\n\n");
        lemma_ends_with_newline(
            examples_text(examples.drop_last()) + "#### "@ + ex.title@ + "\n\n"@ + "```lua\n"@
                + trim_end_of(ex.code@),
            "\n```\n\n"@,
        );
    }
}

proof fn lemma_content_part_whole(m: Member, mc: MemberContent)
    ensures
        whole_lines(content_part(m, mc)),
{
    reveal_strlit("\n");
    reveal_strlit("\n\n");
    let p1 = if mc.params@.len() > 0 && m.params is Some {
        "| Parameter | Description |\n|---|---|\n"@ + param_rows(mc, m.params.unwrap()@) + "\n"@
    } else {
        Seq::empty()
    };
    let p2 = match mc.returns {
        Some(r) => "**Returns:** "@ + trim_of(r@) + "\n\n"@,
        None => Seq::empty(),
    };
    let p3 = match mc.remarks {
        Some(r) => trim_end_of(r@) + "\n\n"@,
        None => Seq::empty(),
    };
    if mc.params@.len() > 0 && m.params is Some {
        lemma_ends_with_newline(
            "| Parameter | Description |\n|---|---|\n"@ + param_rows(mc, m.params.unwrap()@),
            "\n"@,
        );
    }
    match mc.returns {
        Some(r) => lemma_ends_with_newline("**Returns:** "@ + trim_of(r@), "\n\n"@),
        None => {},
    }
    match mc.remarks {
        Some(r) => lemma_ends_with_newline(trim_end_of(r@), "\n\n"@),
        None => {},
    }
    lemma_examples_whole(mc.examples@);
    lemma_whole_lines_append(p1, p2);
    lemma_whole_lines_append(p1 + p2, p3);
    lemma_whole_lines_append(p1 + p2 + p3, examples_text(mc.examples@));
}

/// A member's section without content has its lines among those of the
/// section with any content, and both are whole lines.
proof fn lemma_member_section_adds(m: Member, c: Option<MemberContent>)
    ensures
        whole_lines(member_section_of(m, c)),
        whole_lines(member_section_of(m, None)),
        lines_within(member_section_of(m, None), member_section_of(m, c)),
{
    reveal_strlit("\n\n");
    let base = heading_of(m) + m.summary@ + "\n\n"@;
    lemma_ends_with_newline(heading_of(m) + m.summary@, "\n\n"@);
    assert(member_section_of(m, None) =~= base + Seq::<char>::empty());
    assert(base + Seq::<char>::empty() =~= base);
    lemma_lines_within_refl(base);
    match c {
        None => {
            lemma_lines_within_refl(member_section_of(m, None));
        },
        Some(mc) => {
            lemma_content_part_whole(m, mc);
            lemma_whole_lines_append(base, content_part(m, mc));
            lemma_lines_within_empty(content_part(m, mc));
            lemma_lines_within_concat(base, base, Seq::empty(), content_part(m, mc));
        },
    }
}

proof fn lemma_sections_adds(section: Seq<char>, owner: Seq<char>, ms: Seq<Member>, c: Content, e: Content)
    requires
        e.owners@.len() == 0,
    ensures
        whole_lines(sections_text(section, owner, ms, c)),
        whole_lines(sections_text(section, owner, ms, e)),
        lines_within(sections_text(section, owner, ms, e), sections_text(section, owner, ms, c)),
    decreases ms.len(),
{
    if ms.len() == 0 {
        lemma_lines_within_refl(Seq::<char>::empty());
    } else {
        let m = ms.last();
        lemma_sections_adds(section, owner, ms.drop_last(), c, e);
        lemma_empty_content_adds_nothing(e, section, owner, m.name@);
        lemma_member_section_adds(m, member_of(c, section, owner, m.name@));
        let a1 = sections_text(section, owner, ms.drop_last(), e);
        let b1 = sections_text(section, owner, ms.drop_last(), c);
        lemma_lines_within_concat(a1, b1, member_section_of(m, None), member_section_of(m, member_of(c, section, owner, m.name@)));
        lemma_whole_lines_append(a1, member_section_of(m, None));
        lemma_whole_lines_append(b1, member_section_of(m, member_of(c, section, owner, m.name@)));
    }
}

proof fn lemma_group_adds(section: Seq<char>, owner: Seq<char>, members: Seq<Member>, c: Content, e: Content, g: int)
    requires
        e.owners@.len() == 0,
    ensures
        whole_lines(group_text(section, owner, members, c, g)),
        whole_lines(group_text(section, owner, members, e, g)),
        lines_within(group_text(section, owner, members, e, g), group_text(section, owner, members, c, g)),
{
    let sel = selected(members, g);
    if sel.len() == 0 {
        lemma_lines_within_refl(Seq::<char>::empty());
    } else {
        reveal_strlit("\n\n");
        let h = "## "@ + group_title(g) + "\n\n"@;
        lemma_ends_with_newline("## "@ + group_title(g), "\n\n"@);
        lemma_sections_adds(section, owner, sel, c, e);
        lemma_lines_within_refl(h);
        lemma_lines_within_concat(h, h, sections_text(section, owner, sel, e), sections_text(section, owner, sel, c));
        lemma_whole_lines_append(h, sections_text(section, owner, sel, e));
        lemma_whole_lines_append(h, sections_text(section, owner, sel, c));
    }
}

proof fn lemma_groups_adds(section: Seq<char>, owner: Seq<char>, members: Seq<Member>, c: Content, e: Content)
    requires
        e.owners@.len() == 0,
    ensures
        whole_lines(groups_text(section, owner, members, c)),
        lines_within(groups_text(section, owner, members, e), groups_text(section, owner, members, c)),
{
    let ge = |g: int| group_text(section, owner, members, e, g);
    let gc = |g: int| group_text(section, owner, members, c, g);
    lemma_group_adds(section, owner, members, c, e, 0);
    lemma_group_adds(section, owner, members, c, e, 1);
    lemma_group_adds(section, owner, members, c, e, 2);
    lemma_group_adds(section, owner, members, c, e, 3);
    lemma_lines_within_concat(ge(0), gc(0), ge(1), gc(1));
    lemma_whole_lines_append(ge(0), ge(1));
    lemma_whole_lines_append(gc(0), gc(1));
    lemma_lines_within_concat(ge(0) + ge(1), gc(0) + gc(1), ge(2), gc(2));
    lemma_whole_lines_append(ge(0) + ge(1), ge(2));
    lemma_whole_lines_append(gc(0) + gc(1), gc(2));
    lemma_lines_within_concat(ge(0) + ge(1) + ge(2), gc(0) + gc(1) + gc(2), ge(3), gc(3));
    lemma_whole_lines_append(gc(0) + gc(1) + gc(2), gc(3));
}

proof fn lemma_extras_whole(c: Content, section: Seq<char>, owner: Seq<char>)
    ensures
        whole_lines(extras_of(c, section, owner)),
{
    reveal_strlit("\n\n");
    match lookup(c.owners@, section) {
        None => {},
        Some(owners) => match lookup(owners@, owner) {
            None => {},
            Some(oc) => match oc.class {
                None => {},
                Some(x) => {
                    let r1 = match x.remarks {
                        Some(r) => trim_end_of(r@) + "\n\n"@,
                        None => Seq::empty(),
                    };
                    match x.remarks {
                        Some(r) => lemma_ends_with_newline(trim_end_of(r@), "\n\n"@),
                        None => {},
                    }
                    lemma_examples_whole(x.examples@);
                    lemma_whole_lines_append(r1, examples_text(x.examples@));
                },
            },
        },
    }
}

/// What a page holds after its head, up to the member groups: content
/// only adds lines there.
proof fn lemma_page_body_adds(
    head: Seq<char>,
    section: Seq<char>,
    owner: Seq<char>,
    members: Seq<Member>,
    c: Content,
    e: Content,
)
    requires
        e.owners@.len() == 0,
        whole_lines(head),
    ensures
        whole_lines(head + extras_of(c, section, owner) + groups_text(section, owner, members, c)),
        lines_within(
            head + extras_of(e, section, owner) + groups_text(section, owner, members, e),
            head + extras_of(c, section, owner) + groups_text(section, owner, members, c),
        ),
{
    let xe = extras_of(e, section, owner);
    let xc = extras_of(c, section, owner);
    lemma_empty_content_adds_nothing(e, section, owner, Seq::empty());
    assert(head + xe =~= head);
    lemma_extras_whole(c, section, owner);
    lemma_lines_within_refl(head);
    lemma_lines_within_empty(xc);
    lemma_lines_within_concat(head, head, xe, xc);
    lemma_whole_lines_append(head, xc);
    lemma_groups_adds(section, owner, members, c, e);
    lemma_lines_within_concat(
        head + xe,
        head + xc,
        groups_text(section, owner, members, e),
        groups_text(section, owner, members, c),
    );
    lemma_whole_lines_append(head + xc, groups_text(section, owner, members, c));
}

/// Content only ever adds to a datatype or service page: every line of
/// the page built without content (no owner content at all) stands, in
/// order, among the lines of the page built with any content.
pub proof fn lemma_standalone_page_content_only_adds(
    section: Seq<char>,
    name: Seq<char>,
    summary: Seq<char>,
    members: Seq<Member>,
    c: Content,
    e: Content,
)
    requires
        e.owners@.len() == 0,
    ensures
        lines_within(
            standalone_page_of(section, name, summary, members, e),
            standalone_page_of(section, name, summary, members, c),
        ),
{
    reveal_strlit("\n\n");
    let head = "# "@ + name + "\n\n"@ + summary + "\n\n"@;
    lemma_ends_with_newline("# "@ + name + "\n\n"@ + summary, "\n\n"@);
    lemma_page_body_adds(head, section, name, members, c, e);
}

/// Content only ever adds to a class page: every line of the page built
/// without content (no owner content at all) stands, in order, among the
/// lines of the page built with any content.
pub proof fn lemma_class_page_content_only_adds(d: Dump, cl: Class, c: Content, e: Content)
    requires
        e.owners@.len() == 0,
    ensures
        lines_within(class_page_of(d, cl, e), class_page_of(d, cl, c)),
{
    reveal_strlit("\n\n");
    let ancestors = ancestors_of(d.classes@, cl.name@);
    let head = "# "@ + cl.name@ + "\n\n"@ + inherits_of(ancestors) + creation_of(d.classes@, cl)
        + "\n\n"@ + cl.summary@ + "\n\n"@;
    lemma_ends_with_newline(
        "# "@ + cl.name@ + "\n\n"@ + inherits_of(ancestors) + creation_of(d.classes@, cl) + "\n\n"@
            + cl.summary@,
        "\n\n"@,
    );
    lemma_page_body_adds(head, "classes"@, cl.name@, cl.members@, c, e);
    let tail = inherited_of(d.classes@, ancestors);
    lemma_lines_within_refl(tail);
    lemma_lines_within_concat(
        head + extras_of(e, "classes"@, cl.name@) + groups_text("classes"@, cl.name@, cl.members@, e),
        head + extras_of(c, "classes"@, cl.name@) + groups_text("classes"@, cl.name@, cl.members@, c),
        tail,
        tail,
    );
}


/// The names a class page lists as inherited from an ancestor are
/// exactly the names of the ancestor's members whose kind is not
/// `Static`, in dump order: methods, properties and signals are all
/// inherited, constructors are not.
pub proof fn lemma_inherited_names_are_instance_members(ms: Seq<Member>)
    ensures
        instance_names(ms) == ms.filter(|m: Member| m.kind@ != "Static"@).map_values(|m: Member| m.name@),
    decreases ms.len(),
{
    reveal_with_fuel(Seq::filter, 1);
    if ms.len() > 0 {
        lemma_inherited_names_are_instance_members(ms.drop_last());
        let f = ms.drop_last().filter(|m: Member| m.kind@ != "Static"@);
        if ms.last().kind@ != "Static"@ {
            assert(f.push(ms.last()).map_values(|m: Member| m.name@) =~= f.map_values(|m: Member| m.name@)
                + seq![ms.last().name@]);
        } else {
            assert(f.map_values(|m: Member| m.name@) + Seq::<Seq<char>>::empty() =~= f.map_values(
                |m: Member| m.name@,
            ));
        }
    }
}


/// The names of an ancestor's members that a class inherits: those
/// whose kind is not `Static`, in dump order.
pub open spec fn inherited_member_names(ms: Seq<Member>) -> Seq<Seq<char>> {
    ms.filter(|m: Member| m.kind@ != "Static"@).map_values(|m: Member| m.name@)
}

/// Whether the first class named `a` exists and has a member a class
/// inherits.
pub open spec fn passes_on_members(cs: Seq<Class>, a: Seq<char>) -> bool {
    first_class_members(cs, a) is Some && inherited_member_names(first_class_members(cs, a).unwrap()).len() > 0
}

/// The inherited-members lines of a class page: one per ancestor, in
/// the order of `ancestors`, whose class passes members on, linking the
/// ancestor and listing every one of its members that is not a
/// constructor.
pub proof fn lemma_inherited_lines_list_ancestor_members(cs: Seq<Class>, ancestors: Seq<Seq<char>>)
    ensures
        inherited_lines(cs, ancestors) == ancestors.filter(|a: Seq<char>| passes_on_members(cs, a)).map_values(
            |a: Seq<char>|
                "- from "@ + class_link(a) + ": "@ + join_of(
                    inherited_member_names(first_class_members(cs, a).unwrap()),
                    ", "@,
                ),
        ),
    decreases ancestors.len(),
{
    reveal_with_fuel(Seq::filter, 1);
    let line = |a: Seq<char>|
        "- from "@ + class_link(a) + ": "@ + join_of(
            inherited_member_names(first_class_members(cs, a).unwrap()),
            ", "@,
        );
    if ancestors.len() > 0 {
        lemma_inherited_lines_list_ancestor_members(cs, ancestors.drop_last());
        let a = ancestors.last();
        let f = ancestors.drop_last().filter(|a: Seq<char>| passes_on_members(cs, a));
        match first_class_members(cs, a) {
            Some(ms) => {
                lemma_inherited_names_are_instance_members(ms);
                assert(instance_names(ms).len() == inherited_member_names(ms).len());
            },
            None => {},
        }
        if passes_on_members(cs, a) {
            assert(f.push(a).map_values(line) =~= f.map_values(line) + seq![line(a)]);
        } else {
            assert(f.map_values(line) + Seq::<Seq<char>>::empty() =~= f.map_values(line));
        }
    }
}

} // verus!
