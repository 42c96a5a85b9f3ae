//! The example snippets of the content: every example in the owner
//! files and every `lua`/`luau` fence of a guide, each under a label
//! that says where it comes from. Snippets are self-contained scripts;
//! the type checker that runs over them lives outside the library.
use vstd::prelude::*;
use crate::content::{Content, Example, MemberContent, OwnerContent};
use crate::generate::guide_stem;
use crate::text::{
    copy_str, decimal, decimal_of, lines, lines_of, push_char, push_str, str_eq,
    strip_suffix_or_self, trim_end, trim_end_of, trim_start, trim_start_of,
};

verus! {

/// The labelled examples of `exs` under `prefix` (the label ends in the
/// example's position); with `only_runnable`, the runnable ones only.
pub open spec fn examples_entries(prefix: Seq<char>, exs: Seq<Example>, only_runnable: bool) -> Seq<
    (Seq<char>, Seq<char>),
>
    decreases exs.len(),
{
    if exs.len() == 0 {
        Seq::empty()
    } else {
        examples_entries(prefix, exs.drop_last(), only_runnable) + if !only_runnable
            || exs.last().runnable {
            seq![(prefix + decimal_of((exs.len() - 1) as nat), exs.last().code@)]
        } else {
            Seq::empty()
        }
    }
}

/// The labelled examples of the members `ms` of `owner` in `section`.
pub open spec fn members_entries(
    section: Seq<char>,
    owner: Seq<char>,
    ms: Seq<(String, MemberContent)>,
    only_runnable: bool,
) -> Seq<(Seq<char>, Seq<char>)>
    decreases ms.len(),
{
    if ms.len() == 0 {
        Seq::empty()
    } else {
        members_entries(section, owner, ms.drop_last(), only_runnable) + examples_entries(
            section + "."@ + owner + "."@ + ms.last().0@ + "."@,
            ms.last().1.examples@,
            only_runnable,
        )
    }
}

/// The labelled examples of one owner: its members', then its page's.
pub open spec fn owner_entries(section: Seq<char>, owner: Seq<char>, oc: OwnerContent, only_runnable: bool) -> Seq<
    (Seq<char>, Seq<char>),
> {
    members_entries(section, owner, oc.members@, only_runnable) + match oc.class {
        Some(x) => examples_entries(section + "."@ + owner + "."@, x.examples@, only_runnable),
        None => Seq::empty(),
    }
}

/// The labelled examples of the owners `os` of `section`.
pub open spec fn owners_entries(section: Seq<char>, os: Seq<(String, OwnerContent)>, only_runnable: bool) -> Seq<
    (Seq<char>, Seq<char>),
>
    decreases os.len(),
{
    if os.len() == 0 {
        Seq::empty()
    } else {
        owners_entries(section, os.drop_last(), only_runnable) + owner_entries(
            section,
            os.last().0@,
            os.last().1,
            only_runnable,
        )
    }
}

/// The labelled examples of every section.
pub open spec fn content_entries(sections: Seq<(String, Vec<(String, OwnerContent)>)>, only_runnable: bool) -> Seq<
    (Seq<char>, Seq<char>),
>
    decreases sections.len(),
{
    if sections.len() == 0 {
        Seq::empty()
    } else {
        content_entries(sections.drop_last(), only_runnable) + owners_entries(
            sections.last().0@,
            sections.last().1@,
            only_runnable,
        )
    }
}

/// Label-code pairs as plain values.
pub open spec fn pairs_view(s: Seq<(String, String)>) -> Seq<(Seq<char>, Seq<char>)> {
    s.map_values(|p: (String, String)| (p.0@, p.1@))
}

fn push_pair(out: &mut Vec<(String, String)>, label: String, code: String)
    ensures
        pairs_view(final(out)@) == pairs_view(old(out)@).push((label@, code@)),
{
    let ghost before = out@;
    let pair = (label, code);
    out.push(pair);
    proof {
        before.lemma_push_map_commute(|p: (String, String)| (p.0@, p.1@), pair);
    }
}

fn push_examples_entries(
    out: &mut Vec<(String, String)>,
    prefix: &str,
    exs: &Vec<Example>,
    only_runnable: bool,
)
    ensures
        pairs_view(final(out)@) == pairs_view(old(out)@) + examples_entries(
            prefix@,
            exs@,
            only_runnable,
        ),
{
    let ghost start = pairs_view(out@);
    let mut i: usize = 0;
    while i < exs.len()
        invariant
            i <= exs.len(),
            pairs_view(out@) == start + examples_entries(prefix@, exs@.take(i as int), only_runnable),
        decreases exs.len() - i,
    {
        let ex = &exs[i];
        assert(exs@.take(i + 1).drop_last() =~= exs@.take(i as int));
        assert(exs@.take(i + 1).last() == *ex);
        if !only_runnable || ex.runnable {
            let mut label = copy_str(prefix);
            let d = decimal(i);
            push_str(&mut label, d.as_str());
            push_pair(out, label, ex.code.clone());
        }
        assert(pairs_view(out@) =~= start + examples_entries(
            prefix@,
            exs@.take(i + 1),
            only_runnable,
        ));
        i = i + 1;
    }
    assert(exs@.take(i as int) =~= exs@);
}

/// `a.b.` from `a` and `b`.
fn dotted(a: &str, b: &str) -> (r: String)
    ensures
        r@ == a@ + "."@ + b@ + "."@,
{
    let mut s = copy_str(a);
    push_str(&mut s, ".");
    push_str(&mut s, b);
    push_str(&mut s, ".");
    s
}

fn push_owner_entries(
    out: &mut Vec<(String, String)>,
    section: &str,
    owner: &str,
    oc: &OwnerContent,
    only_runnable: bool,
)
    ensures
        pairs_view(final(out)@) == pairs_view(old(out)@) + owner_entries(
            section@,
            owner@,
            *oc,
            only_runnable,
        ),
{
    let ghost start = pairs_view(out@);
    let base = dotted(section, owner);
    let mut i: usize = 0;
    while i < oc.members.len()
        invariant
            i <= oc.members.len(),
            base@ == section@ + "."@ + owner@ + "."@,
            pairs_view(out@) == start + members_entries(
                section@,
                owner@,
                oc.members@.take(i as int),
                only_runnable,
            ),
        decreases oc.members.len() - i,
    {
        let m = &oc.members[i];
        assert(oc.members@.take(i + 1).drop_last() =~= oc.members@.take(i as int));
        assert(oc.members@.take(i + 1).last() == *m);
        let mut prefix = copy_str(base.as_str());
        push_str(&mut prefix, m.0.as_str());
        push_str(&mut prefix, ".");
        assert(prefix@ =~= section@ + "."@ + owner@ + "."@ + m.0@ + "."@);
        push_examples_entries(out, prefix.as_str(), &m.1.examples, only_runnable);
        assert(pairs_view(out@) =~= start + members_entries(
            section@,
            owner@,
            oc.members@.take(i + 1),
            only_runnable,
        ));
        i = i + 1;
    }
    assert(oc.members@.take(i as int) =~= oc.members@);
    match &oc.class {
        Some(x) => {
            push_examples_entries(out, base.as_str(), &x.examples, only_runnable);
        },
        None => {},
    }
    assert(pairs_view(out@) =~= start + owner_entries(section@, owner@, *oc, only_runnable));
}

/// The labelled examples of the content, `section.owner.member.index`
/// for a member's and `section.owner.index` for a page's; with
/// `only_runnable`, the runnable ones only.
#[verifier::spinoff_prover]
pub fn content_examples(content: &Content, only_runnable: bool) -> (r: Vec<(String, String)>)
    ensures
        pairs_view(r@) == content_entries(content.owners@, only_runnable),
{
    let mut out: Vec<(String, String)> = Vec::new();
    assert(pairs_view(out@) =~= Seq::<(Seq<char>, Seq<char>)>::empty());
    let sections = &content.owners;
    let mut k: usize = 0;
    while k < sections.len()
        invariant
            k <= sections.len(),
            pairs_view(out@) == content_entries(sections@.take(k as int), only_runnable),
        decreases sections.len() - k,
    {
        let section = &sections[k];
        assert(sections@.take(k + 1).drop_last() =~= sections@.take(k as int));
        assert(sections@.take(k + 1).last() == *section);
        let ghost head = pairs_view(out@);
        let owners = &section.1;
        let mut i: usize = 0;
        while i < owners.len()
            invariant
                i <= owners.len(),
                pairs_view(out@) == head + owners_entries(
                    section.0@,
                    owners@.take(i as int),
                    only_runnable,
                ),
            decreases owners.len() - i,
        {
            assert(owners@.take(i + 1).drop_last() =~= owners@.take(i as int));
            assert(owners@.take(i + 1).last() == owners@[i as int]);
            push_owner_entries(
                &mut out,
                section.0.as_str(),
                owners[i].0.as_str(),
                &owners[i].1,
                only_runnable,
            );
            assert(pairs_view(out@) =~= head + owners_entries(
                section.0@,
                owners@.take(i + 1),
                only_runnable,
            ));
            i = i + 1;
        }
        assert(owners@.take(i as int) =~= owners@);
        k = k + 1;
    }
    assert(sections@.take(k as int) =~= sections@);
    out
}

/// The runnable examples the engine's example harness executes, each
/// under its label.
pub fn runnable_examples(content: &Content) -> (r: Vec<(String, String)>)
    ensures
        pairs_view(r@) == content_entries(content.owners@, true),
{
    content_examples(content, true)
}

/// The state of the fence scan after one more line: the closed blocks,
/// and the block being collected, if one is open.
pub open spec fn fence_step(state: (Seq<Seq<char>>, Option<Seq<char>>), line: Seq<char>) -> (
    Seq<Seq<char>>,
    Option<Seq<char>>,
) {
    match state.1 {
        Some(b) => if trim_end_of(line) == "```"@ {
            (state.0.push(b), None)
        } else {
            (state.0, Some(b + line + seq!['\n']))
        },
        None => {
            let fence = trim_start_of(line);
            if fence == "```lua"@ || fence == "```luau"@ {
                (state.0, Some(Seq::empty()))
            } else {
                state
            }
        },
    }
}

/// The state of the fence scan after the lines `ls`.
pub open spec fn fences_fold(ls: Seq<Seq<char>>) -> (Seq<Seq<char>>, Option<Seq<char>>)
    decreases ls.len(),
{
    if ls.len() == 0 {
        (Seq::empty(), None)
    } else {
        fence_step(fences_fold(ls.drop_last()), ls.last())
    }
}

/// The closed ```` ```lua ```` and ```` ```luau ```` fenced blocks of a
/// markdown text, each line of a block ended by a line break.
pub open spec fn lua_fences_of(text: Seq<char>) -> Seq<Seq<char>> {
    fences_fold(lines_of(text)).0
}

/// The ```` ```lua ```` / ```` ```luau ```` fenced blocks of a markdown
/// text (other fence languages are not Luau and stay unchecked).
#[verifier::spinoff_prover]
pub fn lua_fences(text: &str) -> (r: Vec<String>)
    ensures
        r@.map_values(|b: String| b@) == lua_fences_of(text@),
{
    let ls = lines(text);
    let ghost lv = ls@.map_values(|l: String| l@);
    let mut blocks: Vec<String> = Vec::new();
    let mut current: Option<String> = None;
    let mut i: usize = 0;
    while i < ls.len()
        invariant
            i <= ls.len(),
            lv == ls@.map_values(|l: String| l@),
            (blocks@.map_values(|b: String| b@), match current {
                Some(c) => Some(c@),
                None => None::<Seq<char>>,
            }) == fences_fold(lv.take(i as int)),
        decreases ls.len() - i,
    {
        let line = ls[i].as_str();
        assert(lv.take(i + 1).drop_last() =~= lv.take(i as int));
        assert(lv.take(i + 1).last() == line@);
        let ghost before = blocks@;
        match current {
            Some(mut block) => {
                let trimmed = trim_end(line);
                if str_eq(trimmed.as_str(), "```") {
                    blocks.push(block);
                    proof {
                        before.lemma_push_map_commute(|b: String| b@, block);
                    }
                    current = None;
                } else {
                    push_str(&mut block, line);
                    push_char(&mut block, '\n');
                    current = Some(block);
                }
            },
            None => {
                let fence = trim_start(line);
                if str_eq(fence.as_str(), "```lua") || str_eq(fence.as_str(), "```luau") {
                    current = Some(String::new());
                } else {
                    current = None;
                }
            },
        }
        i = i + 1;
    }
    assert(lv.take(i as int) =~= lv);
    blocks
}

/// The labelled fenced blocks of one guide, `guides.<stem>.<index>`.
pub open spec fn guide_entries(name: Seq<char>, text: Seq<char>) -> Seq<(Seq<char>, Seq<char>)> {
    let blocks = lua_fences_of(text);
    Seq::new(
        blocks.len(),
        |i: int| ("guides."@ + guide_stem(name) + "."@ + decimal_of(i as nat), blocks[i]),
    )
}

/// The labelled fenced blocks of the guides `gs` (name and text).
pub open spec fn guides_entries(gs: Seq<(String, String)>) -> Seq<(Seq<char>, Seq<char>)>
    decreases gs.len(),
{
    if gs.len() == 0 {
        Seq::empty()
    } else {
        guides_entries(gs.drop_last()) + guide_entries(gs.last().0@, gs.last().1@)
    }
}

/// Every snippet to type-check: the examples of the content, then the
/// fenced blocks of each guide, given as its file name and its text.
#[verifier::spinoff_prover]
pub fn snippets(content: &Content, guide_texts: &Vec<(String, String)>) -> (r: Vec<(String, String)>)
    ensures
        pairs_view(r@) == content_entries(content.owners@, false) + guides_entries(guide_texts@),
{
    let mut out = content_examples(content, false);
    let ghost head = pairs_view(out@);
    let mut g: usize = 0;
    while g < guide_texts.len()
        invariant
            g <= guide_texts.len(),
            pairs_view(out@) == head + guides_entries(guide_texts@.take(g as int)),
        decreases guide_texts.len() - g,
    {
        let name = guide_texts[g].0.as_str();
        let text = guide_texts[g].1.as_str();
        assert(guide_texts@.take(g + 1).drop_last() =~= guide_texts@.take(g as int));
        assert(guide_texts@.take(g + 1).last() == guide_texts@[g as int]);
        let stem = strip_suffix_or_self(name, ".md");
        let blocks = lua_fences(text);
        let ghost bv = blocks@.map_values(|b: String| b@);
        let ghost mid = pairs_view(out@);
        let mut j: usize = 0;
        while j < blocks.len()
            invariant
                j <= blocks.len(),
                bv == blocks@.map_values(|b: String| b@),
                bv == lua_fences_of(text@),
                stem@ == guide_stem(name@),
                pairs_view(out@) == mid + guide_entries(name@, text@).take(j as int),
            decreases blocks.len() - j,
        {
            let mut label = String::new();
            push_str(&mut label, "guides.");
            push_str(&mut label, stem.as_str());
            push_str(&mut label, ".");
            let d = decimal(j);
            push_str(&mut label, d.as_str());
            assert(bv[j as int] == blocks@[j as int]@);
            push_pair(&mut out, label, blocks[j].clone());
            assert(guide_entries(name@, text@).take(j + 1) =~= guide_entries(name@, text@).take(
                j as int,
            ).push(guide_entries(name@, text@)[j as int]));
            assert(pairs_view(out@) =~= mid + guide_entries(name@, text@).take(j + 1));
            j = j + 1;
        }
        assert(guide_entries(name@, text@).take(j as int) =~= guide_entries(name@, text@));
        assert(pairs_view(out@) =~= head + guides_entries(guide_texts@.take(g + 1)));
        g = g + 1;
    }
    assert(guide_texts@.take(g as int) =~= guide_texts@);
    out
}

/// Whether every element of `a` is an element of `b`.
pub open spec fn all_in(a: Seq<(Seq<char>, Seq<char>)>, b: Seq<(Seq<char>, Seq<char>)>) -> bool {
    forall|i: int| 0 <= i < a.len() ==> b.contains(#[trigger] a[i])
}

proof fn lemma_all_in_concat(
    a: Seq<(Seq<char>, Seq<char>)>,
    b: Seq<(Seq<char>, Seq<char>)>,
    x: Seq<(Seq<char>, Seq<char>)>,
    y: Seq<(Seq<char>, Seq<char>)>,
)
    requires
        all_in(a, x),
        all_in(b, y),
    ensures
        all_in(a + b, x + y),
{
    assert forall|i: int| 0 <= i < (a + b).len() implies (x + y).contains(#[trigger] (a + b)[i]) by {
        if i < a.len() {
            let j = choose|j: int| 0 <= j < x.len() && x[j] == a[i];
            assert((x + y)[j] == a[i]);
        } else {
            let j = choose|j: int| 0 <= j < y.len() && y[j] == b[i - a.len()];
            assert((x + y)[x.len() + j] == b[i - a.len()]);
        }
    }
}

proof fn lemma_examples_runnable_in(prefix: Seq<char>, exs: Seq<Example>)
    ensures
        all_in(examples_entries(prefix, exs, true), examples_entries(prefix, exs, false)),
    decreases exs.len(),
{
    if exs.len() > 0 {
        lemma_examples_runnable_in(prefix, exs.drop_last());
        let last = seq![(prefix + decimal_of((exs.len() - 1) as nat), exs.last().code@)];
        let tail: Seq<(Seq<char>, Seq<char>)> = if exs.last().runnable {
            last
        } else {
            Seq::empty()
        };
        assert(all_in(tail, last)) by {
            if exs.last().runnable {
                assert(last.contains(last[0]));
            }
        }
        lemma_all_in_concat(
            examples_entries(prefix, exs.drop_last(), true),
            tail,
            examples_entries(prefix, exs.drop_last(), false),
            last,
        );
    }
}

proof fn lemma_members_runnable_in(section: Seq<char>, owner: Seq<char>, ms: Seq<(String, MemberContent)>)
    ensures
        all_in(members_entries(section, owner, ms, true), members_entries(section, owner, ms, false)),
    decreases ms.len(),
{
    if ms.len() > 0 {
        lemma_members_runnable_in(section, owner, ms.drop_last());
        let prefix = section + "."@ + owner + "."@ + ms.last().0@ + "."@;
        lemma_examples_runnable_in(prefix, ms.last().1.examples@);
        lemma_all_in_concat(
            members_entries(section, owner, ms.drop_last(), true),
            examples_entries(prefix, ms.last().1.examples@, true),
            members_entries(section, owner, ms.drop_last(), false),
            examples_entries(prefix, ms.last().1.examples@, false),
        );
    }
}

proof fn lemma_owner_runnable_in(section: Seq<char>, owner: Seq<char>, oc: OwnerContent)
    ensures
        all_in(owner_entries(section, owner, oc, true), owner_entries(section, owner, oc, false)),
{
    lemma_members_runnable_in(section, owner, oc.members@);
    match oc.class {
        Some(x) => {
            lemma_examples_runnable_in(section + "."@ + owner + "."@, x.examples@);
            lemma_all_in_concat(
                members_entries(section, owner, oc.members@, true),
                examples_entries(section + "."@ + owner + "."@, x.examples@, true),
                members_entries(section, owner, oc.members@, false),
                examples_entries(section + "."@ + owner + "."@, x.examples@, false),
            );
        },
        None => {
            assert(owner_entries(section, owner, oc, true) =~= members_entries(
                section,
                owner,
                oc.members@,
                true,
            ));
            assert(owner_entries(section, owner, oc, false) =~= members_entries(
                section,
                owner,
                oc.members@,
                false,
            ));
        },
    }
}

proof fn lemma_owners_runnable_in(section: Seq<char>, os: Seq<(String, OwnerContent)>)
    ensures
        all_in(owners_entries(section, os, true), owners_entries(section, os, false)),
    decreases os.len(),
{
    if os.len() > 0 {
        lemma_owners_runnable_in(section, os.drop_last());
        lemma_owner_runnable_in(section, os.last().0@, os.last().1);
        lemma_all_in_concat(
            owners_entries(section, os.drop_last(), true),
            owner_entries(section, os.last().0@, os.last().1, true),
            owners_entries(section, os.drop_last(), false),
            owner_entries(section, os.last().0@, os.last().1, false),
        );
    }
}

/// Every runnable example is also among the examples that are
/// type-checked, under the same label and with the same code.
pub proof fn lemma_runnable_are_checked(sections: Seq<(String, Vec<(String, OwnerContent)>)>)
    ensures
        all_in(content_entries(sections, true), content_entries(sections, false)),
    decreases sections.len(),
{
    if sections.len() > 0 {
        lemma_runnable_are_checked(sections.drop_last());
        lemma_owners_runnable_in(sections.last().0@, sections.last().1@);
        lemma_all_in_concat(
            content_entries(sections.drop_last(), true),
            owners_entries(sections.last().0@, sections.last().1@, true),
            content_entries(sections.drop_last(), false),
            owners_entries(sections.last().0@, sections.last().1@, false),
        );
    }
}


/// Whether some example of `exs` is runnable and has the code `code`.
pub open spec fn runnable_in(exs: Seq<Example>, code: Seq<char>) -> bool {
    exists|x: int| 0 <= x < exs.len() && (#[trigger] exs[x]).runnable && exs[x].code@ == code
}

/// Whether the owner content `oc` has a runnable example with the code
/// `code`, on one of its members or on its page.
pub open spec fn runnable_in_owner(oc: OwnerContent, code: Seq<char>) -> bool {
    ||| exists|j: int|
        0 <= j < oc.members@.len() && runnable_in((#[trigger] oc.members@[j]).1.examples@, code)
    ||| (oc.class matches Some(x) && runnable_in(x.examples@, code))
}

/// Whether some owner of some section has a runnable example with the
/// code `code`.
pub open spec fn runnable_in_content(sections: Seq<(String, Vec<(String, OwnerContent)>)>, code: Seq<char>) -> bool {
    exists|k: int, o: int|
        0 <= k < sections.len() && 0 <= o < sections[k].1@.len() && runnable_in_owner(
            #[trigger] sections[k].1@[o].1,
            code,
        )
}

proof fn lemma_examples_from_runnable(prefix: Seq<char>, exs: Seq<Example>)
    ensures
        forall|i: int|
            0 <= i < examples_entries(prefix, exs, true).len() ==> runnable_in(
                exs,
                (#[trigger] examples_entries(prefix, exs, true)[i]).1,
            ),
    decreases exs.len(),
{
    if exs.len() > 0 {
        let prev = exs.drop_last();
        lemma_examples_from_runnable(prefix, prev);
        let e = examples_entries(prefix, exs, true);
        let ep = examples_entries(prefix, prev, true);
        assert forall|i: int| 0 <= i < e.len() implies runnable_in(exs, (#[trigger] e[i]).1) by {
            if i < ep.len() {
                assert(e[i] == ep[i]);
                let x = choose|x: int| 0 <= x < prev.len() && (#[trigger] prev[x]).runnable && prev[x].code@ == ep[i].1;
                assert(prev[x] == exs[x]);
            } else {
                assert(e[i].1 == exs[exs.len() - 1].code@);
                assert(exs[exs.len() - 1].runnable);
            }
        }
    }
}

proof fn lemma_members_from_runnable(section: Seq<char>, owner: Seq<char>, ms: Seq<(String, MemberContent)>)
    ensures
        forall|i: int|
            0 <= i < members_entries(section, owner, ms, true).len() ==> exists|j: int|
                0 <= j < ms.len() && runnable_in(
                    (#[trigger] ms[j]).1.examples@,
                    (#[trigger] members_entries(section, owner, ms, true)[i]).1,
                ),
    decreases ms.len(),
{
    if ms.len() > 0 {
        let prev = ms.drop_last();
        lemma_members_from_runnable(section, owner, prev);
        let last = ms[ms.len() - 1];
        let pre = section + "."@ + owner + "."@ + last.0@ + "."@;
        lemma_examples_from_runnable(pre, last.1.examples@);
        let e = members_entries(section, owner, ms, true);
        let ep = members_entries(section, owner, prev, true);
        let ex = examples_entries(pre, last.1.examples@, true);
        assert(e == ep + ex);
        assert forall|i: int| 0 <= i < e.len() implies exists|j: int|
            0 <= j < ms.len() && runnable_in((#[trigger] ms[j]).1.examples@, (#[trigger] e[i]).1) by {
            if i < ep.len() {
                assert(e[i] == ep[i]);
                let j = choose|j: int| 0 <= j < prev.len() && runnable_in((#[trigger] prev[j]).1.examples@, ep[i].1);
                assert(prev[j] == ms[j]);
            } else {
                assert(e[i] == ex[i - ep.len()]);
                assert(runnable_in(ms[ms.len() - 1].1.examples@, e[i].1));
            }
        }
    }
}

proof fn lemma_owner_from_runnable(section: Seq<char>, owner: Seq<char>, oc: OwnerContent)
    ensures
        forall|i: int|
            0 <= i < owner_entries(section, owner, oc, true).len() ==> runnable_in_owner(
                oc,
                (#[trigger] owner_entries(section, owner, oc, true)[i]).1,
            ),
{
    lemma_members_from_runnable(section, owner, oc.members@);
    let e = owner_entries(section, owner, oc, true);
    let em = members_entries(section, owner, oc.members@, true);
    match oc.class {
        Some(x) => lemma_examples_from_runnable(section + "."@ + owner + "."@, x.examples@),
        None => {},
    }
    assert forall|i: int| 0 <= i < e.len() implies runnable_in_owner(oc, (#[trigger] e[i]).1) by {
        if i < em.len() {
            assert(e[i] == em[i]);
            let j = choose|j: int|
                0 <= j < oc.members@.len() && runnable_in((#[trigger] oc.members@[j]).1.examples@, em[i].1);
            assert(runnable_in(oc.members@[j].1.examples@, e[i].1));
        } else {
            match oc.class {
                Some(x) => {
                    let ex = examples_entries(section + "."@ + owner + "."@, x.examples@, true);
                    assert(e[i] == ex[i - em.len()]);
                },
                None => {},
            }
        }
    }
}

proof fn lemma_owners_from_runnable(section: Seq<char>, os: Seq<(String, OwnerContent)>)
    ensures
        forall|i: int|
            0 <= i < owners_entries(section, os, true).len() ==> exists|o: int|
                0 <= o < os.len() && runnable_in_owner(
                    (#[trigger] os[o]).1,
                    (#[trigger] owners_entries(section, os, true)[i]).1,
                ),
    decreases os.len(),
{
    if os.len() > 0 {
        let prev = os.drop_last();
        lemma_owners_from_runnable(section, prev);
        let last = os[os.len() - 1];
        lemma_owner_from_runnable(section, last.0@, last.1);
        let e = owners_entries(section, os, true);
        let ep = owners_entries(section, prev, true);
        let eo = owner_entries(section, last.0@, last.1, true);
        assert(e == ep + eo);
        assert forall|i: int| 0 <= i < e.len() implies exists|o: int|
            0 <= o < os.len() && runnable_in_owner((#[trigger] os[o]).1, (#[trigger] e[i]).1) by {
            if i < ep.len() {
                assert(e[i] == ep[i]);
                let o = choose|o: int| 0 <= o < prev.len() && runnable_in_owner((#[trigger] prev[o]).1, ep[i].1);
                assert(prev[o] == os[o]);
            } else {
                assert(e[i] == eo[i - ep.len()]);
                assert(runnable_in_owner(os[os.len() - 1].1, e[i].1));
            }
        }
    }
}

/// Every entry of the runnable list carries the code of an example of
/// the content whose runnable flag is set, on a member or on a page:
/// no example left unmarked is ever handed out to be run.
pub proof fn lemma_runnable_entries_are_runnable(sections: Seq<(String, Vec<(String, OwnerContent)>)>)
    ensures
        forall|i: int|
            0 <= i < content_entries(sections, true).len() ==> runnable_in_content(
                sections,
                (#[trigger] content_entries(sections, true)[i]).1,
            ),
    decreases sections.len(),
{
    if sections.len() > 0 {
        let prev = sections.drop_last();
        lemma_runnable_entries_are_runnable(prev);
        let last = sections[sections.len() - 1];
        lemma_owners_from_runnable(last.0@, last.1@);
        let e = content_entries(sections, true);
        let ep = content_entries(prev, true);
        let eo = owners_entries(last.0@, last.1@, true);
        assert(e == ep + eo);
        assert forall|i: int| 0 <= i < e.len() implies runnable_in_content(sections, (#[trigger] e[i]).1) by {
            if i < ep.len() {
                assert(e[i] == ep[i]);
                let (k, o) = choose|k: int, o: int|
                    0 <= k < prev.len() && 0 <= o < prev[k].1@.len() && runnable_in_owner(
                        #[trigger] prev[k].1@[o].1,
                        ep[i].1,
                    );
                assert(prev[k] == sections[k]);
                assert(runnable_in_owner(sections[k].1@[o].1, e[i].1));
            } else {
                assert(e[i] == eo[i - ep.len()]);
                let o = choose|o: int|
                    0 <= o < last.1@.len() && runnable_in_owner((#[trigger] last.1@[o]).1, eo[i - ep.len()].1);
                assert(runnable_in_owner(sections[sections.len() - 1].1@[o].1, e[i].1));
            }
        }
    }
}


/// Whether some entry of `entries` carries the code `code`.
pub open spec fn has_code(entries: Seq<(Seq<char>, Seq<char>)>, code: Seq<char>) -> bool {
    exists|i: int| 0 <= i < entries.len() && (#[trigger] entries[i]).1 == code
}

proof fn lemma_has_code_concat(a: Seq<(Seq<char>, Seq<char>)>, b: Seq<(Seq<char>, Seq<char>)>, code: Seq<char>)
    requires
        has_code(a, code) || has_code(b, code),
    ensures
        has_code(a + b, code),
{
    if has_code(a, code) {
        let i = choose|i: int| 0 <= i < a.len() && (#[trigger] a[i]).1 == code;
        assert((a + b)[i] == a[i]);
    } else {
        let i = choose|i: int| 0 <= i < b.len() && (#[trigger] b[i]).1 == code;
        assert((a + b)[a.len() + i] == b[i]);
    }
}

proof fn lemma_examples_runnable_listed(prefix: Seq<char>, exs: Seq<Example>, x: int)
    requires
        0 <= x < exs.len(),
        exs[x].runnable,
    ensures
        has_code(examples_entries(prefix, exs, true), exs[x].code@),
    decreases exs.len(),
{
    let prev = exs.drop_last();
    let tail = if exs.last().runnable {
        seq![(prefix + decimal_of((exs.len() - 1) as nat), exs.last().code@)]
    } else {
        Seq::empty()
    };
    assert(examples_entries(prefix, exs, true) == examples_entries(prefix, prev, true) + tail);
    if x == exs.len() - 1 {
        assert(tail[0].1 == exs[x].code@);
        lemma_has_code_concat(examples_entries(prefix, prev, true), tail, exs[x].code@);
    } else {
        assert(prev[x] == exs[x]);
        lemma_examples_runnable_listed(prefix, prev, x);
        lemma_has_code_concat(examples_entries(prefix, prev, true), tail, exs[x].code@);
    }
}

proof fn lemma_members_runnable_listed(
    section: Seq<char>,
    owner: Seq<char>,
    ms: Seq<(String, MemberContent)>,
    j: int,
    x: int,
)
    requires
        0 <= j < ms.len(),
        0 <= x < ms[j].1.examples@.len(),
        ms[j].1.examples@[x].runnable,
    ensures
        has_code(members_entries(section, owner, ms, true), ms[j].1.examples@[x].code@),
    decreases ms.len(),
{
    let prev = ms.drop_last();
    let last = ms.last();
    let pre = section + "."@ + owner + "."@ + last.0@ + "."@;
    let ex = examples_entries(pre, last.1.examples@, true);
    let code = ms[j].1.examples@[x].code@;
    assert(members_entries(section, owner, ms, true) == members_entries(section, owner, prev, true) + ex);
    if j == ms.len() - 1 {
        lemma_examples_runnable_listed(pre, last.1.examples@, x);
    } else {
        assert(prev[j] == ms[j]);
        lemma_members_runnable_listed(section, owner, prev, j, x);
    }
    lemma_has_code_concat(members_entries(section, owner, prev, true), ex, code);
}

proof fn lemma_owner_runnable_listed(section: Seq<char>, owner: Seq<char>, oc: OwnerContent, code: Seq<char>)
    requires
        runnable_in_owner(oc, code),
    ensures
        has_code(owner_entries(section, owner, oc, true), code),
{
    let em = members_entries(section, owner, oc.members@, true);
    let ec = match oc.class {
        Some(x) => examples_entries(section + "."@ + owner + "."@, x.examples@, true),
        None => Seq::empty(),
    };
    assert(owner_entries(section, owner, oc, true) == em + ec);
    if exists|j: int| 0 <= j < oc.members@.len() && runnable_in((#[trigger] oc.members@[j]).1.examples@, code) {
        let j = choose|j: int| 0 <= j < oc.members@.len() && runnable_in((#[trigger] oc.members@[j]).1.examples@, code);
        let x = choose|x: int|
            0 <= x < oc.members@[j].1.examples@.len() && (#[trigger] oc.members@[j].1.examples@[x]).runnable
                && oc.members@[j].1.examples@[x].code@ == code;
        lemma_members_runnable_listed(section, owner, oc.members@, j, x);
    } else {
        let cls = oc.class.unwrap();
        let x = choose|x: int| 0 <= x < cls.examples@.len() && (#[trigger] cls.examples@[x]).runnable && cls.examples@[x].code@ == code;
        lemma_examples_runnable_listed(section + "."@ + owner + "."@, cls.examples@, x);
    }
    lemma_has_code_concat(em, ec, code);
}

proof fn lemma_owners_runnable_listed(section: Seq<char>, os: Seq<(String, OwnerContent)>, o: int, code: Seq<char>)
    requires
        0 <= o < os.len(),
        runnable_in_owner(os[o].1, code),
    ensures
        has_code(owners_entries(section, os, true), code),
    decreases os.len(),
{
    let prev = os.drop_last();
    let last = os.last();
    let eo = owner_entries(section, last.0@, last.1, true);
    assert(owners_entries(section, os, true) == owners_entries(section, prev, true) + eo);
    if o == os.len() - 1 {
        lemma_owner_runnable_listed(section, last.0@, last.1, code);
    } else {
        assert(prev[o] == os[o]);
        lemma_owners_runnable_listed(section, prev, o, code);
    }
    lemma_has_code_concat(owners_entries(section, prev, true), eo, code);
}

/// Every runnable example of the content, on a member or on a page, is
/// handed out to be run: its code is the code of some entry of the
/// runnable list.
pub proof fn lemma_runnable_examples_are_listed(
    sections: Seq<(String, Vec<(String, OwnerContent)>)>,
    code: Seq<char>,
)
    requires
        runnable_in_content(sections, code),
    ensures
        has_code(content_entries(sections, true), code),
    decreases sections.len(),
{
    let (k, o) = choose|k: int, o: int|
        0 <= k < sections.len() && 0 <= o < sections[k].1@.len() && runnable_in_owner(
            #[trigger] sections[k].1@[o].1,
            code,
        );
    let prev = sections.drop_last();
    let last = sections.last();
    let eo = owners_entries(last.0@, last.1@, true);
    assert(content_entries(sections, true) == content_entries(prev, true) + eo);
    if k == sections.len() - 1 {
        lemma_owners_runnable_listed(last.0@, last.1@, o, code);
    } else {
        assert(prev[k] == sections[k]);
        assert(runnable_in_owner(prev[k].1@[o].1, code));
        lemma_runnable_examples_are_listed(prev, code);
    }
    lemma_has_code_concat(content_entries(prev, true), eo, code);
}

} // verus!
