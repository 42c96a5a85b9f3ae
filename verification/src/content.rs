//! The hand-authored content layer: one owner file per documented owner
//! under `content/{classes,datatypes,services}/<Owner>.yaml`, plus
//! markdown guides. Content never restates types (the dump owns them):
//! parameters are keyed by name with prose values, and everything is
//! additive over the model summaries.
use vstd::prelude::*;
use crate::dump::{Dump, Member, Param, section_name, section_owners, row_view};
use crate::keyed::{find_key, insert_sorted, lookup, sorted_keys, names_of, strictly_ascending, seq_lt};
use crate::text::{
    decimal, decimal_of, ends_with, ends_with_of, join, join_of, push_str, str_eq, strip_suffix,
    strip_suffix_of, trim, trim_of,
};

verus! {

/// The content of one owner page.
pub struct OwnerContent {
    /// Per-member rich content, keyed by the member name.
    pub members: Vec<(String, MemberContent)>,
    /// Page-level extras (rendered after the summary paragraph).
    pub class: Option<SectionContent>,
}

/// The content of one member.
pub struct MemberContent {
    /// Parameter prose by parameter name; legal only on members whose
    /// dump entry carries a parsed signature.
    pub params: Vec<(String, String)>,
    /// Return-value prose (one blob: positions stay in the model).
    pub returns: Option<String>,
    /// Markdown rendered after the summary.
    pub remarks: Option<String>,
    pub examples: Vec<Example>,
}

/// Page-level content of an owner.
pub struct SectionContent {
    pub remarks: Option<String>,
    pub examples: Vec<Example>,
}

/// One example: a self-contained Luau script with a title.
pub struct Example {
    pub title: String,
    pub code: String,
    /// Whether the engine's example harness executes it.
    pub runnable: bool,
}

/// Everything loaded from `content/`: section, then owner name, then
/// content, each level keyed in ascending order.
pub struct Content {
    pub owners: Vec<(String, Vec<(String, OwnerContent)>)>,
    /// Guide file names (`*.md` under `content/guides`), sorted.
    pub guides: Vec<String>,
}

/// One entry of a section directory: its file name, and the owner
/// content read and parsed from it, or the message of the failure to
/// read or parse it.
pub struct ContentFile {
    pub file_name: String,
    pub parsed: Result<OwnerContent, String>,
}

impl OwnerContent {
    /// Whether the members are held in ascending name order, each with
    /// its parameters in ascending name order, as maps keyed by name
    /// hold them.
    pub open spec fn wf(self) -> bool {
        &&& sorted_keys(self.members@)
        &&& forall|j: int|
            0 <= j < self.members@.len() ==> sorted_keys((#[trigger] self.members@[j]).1.params@)
    }
}

/// Whether every parsed entry of `files` is well-formed.
pub open spec fn files_wf(files: Seq<ContentFile>) -> bool {
    forall|i: int|
        0 <= i < files.len() ==> match (#[trigger] files[i]).parsed {
            Ok(oc) => oc.wf(),
            Err(_) => true,
        }
}

impl Content {
    /// Whether the owners of each section are held in ascending name
    /// order, each owner's content well-formed, and the guides in
    /// strictly ascending name order, as the loader keeps them.
    pub open spec fn wf(self) -> bool {
        &&& forall|k: int| 0 <= k < self.owners@.len() ==> sorted_keys((#[trigger] self.owners@[k]).1@)
        &&& forall|k: int, j: int|
            0 <= k < self.owners@.len() && 0 <= j < self.owners@[k].1@.len() ==> (
            #[trigger] self.owners@[k].1@[j]).1.wf()
        &&& strictly_ascending(names_of(self.guides@))
    }
}

/// The content of `member` of `owner` in `section`.
pub open spec fn member_of(c: Content, section: Seq<char>, owner: Seq<char>, member: Seq<char>) -> Option<
    MemberContent,
> {
    match lookup(c.owners@, section) {
        None => None,
        Some(owners) => match lookup(owners@, owner) {
            None => None,
            Some(oc) => lookup(oc.members@, member),
        },
    }
}

/// Whether `i` is the first position of `members` named `name`.
pub open spec fn is_first_member(members: Seq<Member>, name: Seq<char>, i: int) -> bool {
    &&& 0 <= i < members.len()
    &&& members[i].name@ == name
    &&& forall|j: int| 0 <= j < i ==> #[trigger] members[j].name@ != name
}

/// The first member of `members` named `name`.
pub open spec fn first_member(members: Seq<Member>, name: Seq<char>) -> Option<Member> {
    if exists|i: int| is_first_member(members, name, i) {
        Some(members[choose|i: int| is_first_member(members, name, i)])
    } else {
        None
    }
}

/// Whether `i` is the first position of `rows` whose owner is `name`.
pub open spec fn is_first_row(rows: Seq<(Seq<char>, Seq<char>, Seq<Member>)>, name: Seq<char>, i: int) -> bool {
    &&& 0 <= i < rows.len()
    &&& rows[i].0 == name
    &&& forall|j: int| 0 <= j < i ==> #[trigger] rows[j].0 != name
}

/// The members of the first owner of `rows` named `name`.
pub open spec fn first_row_members(rows: Seq<(Seq<char>, Seq<char>, Seq<Member>)>, name: Seq<char>) -> Option<
    Seq<Member>,
> {
    if exists|i: int| is_first_row(rows, name, i) {
        Some(rows[choose|i: int| is_first_row(rows, name, i)].2)
    } else {
        None
    }
}

/// The names of the parameters of a signature.
pub open spec fn param_names(params: Seq<Param>) -> Seq<Seq<char>> {
    params.map_values(|p: Param| p.name@)
}

/// The prefix of every message about a member of an owner file.
pub open spec fn place_of(section: Seq<char>, owner: Seq<char>, member: Seq<char>) -> Seq<char> {
    "content/"@ + section + "/"@ + owner + ".yaml: "@ + member
}

/// The messages about prose for parameters that the signature `names`
/// lacks.
pub open spec fn unknown_param_errors(place: Seq<char>, keys: Seq<(String, String)>, names: Seq<Seq<char>>) -> Seq<
    Seq<char>,
>
    decreases keys.len(),
{
    if keys.len() == 0 {
        Seq::empty()
    } else {
        let key = keys.last().0@;
        unknown_param_errors(place, keys.drop_last(), names) + if names.contains(key) {
            Seq::empty()
        } else {
            seq![
                place + ": no parameter named "@ + key + " (the dump has: "@ + join_of(
                    names,
                    ", "@,
                ) + ")"@,
            ]
        }
    }
}

/// The messages about parameter prose of a member.
pub open spec fn param_errors(place: Seq<char>, mc: MemberContent, m: Member) -> Seq<Seq<char>> {
    if mc.params@.len() == 0 {
        Seq::empty()
    } else {
        match m.params {
            None => seq![place + ": params prose on a member without a parsed signature"@],
            Some(ps) => unknown_param_errors(place, mc.params@, param_names(ps@)),
        }
    }
}

/// The message about return prose on a member without return
/// positions, if that is the case.
pub open spec fn returns_errors(place: Seq<char>, mc: MemberContent, m: Member) -> Seq<Seq<char>> {
    let positions = match m.returns {
        None => 0,
        Some(rs) => rs@.len(),
    };
    if mc.returns is Some && positions == 0 {
        seq![place + ": returns prose on a member with no return positions"@]
    } else {
        Seq::empty()
    }
}

/// The messages about examples whose code is blank.
pub open spec fn example_errors(place: Seq<char>, examples: Seq<Example>) -> Seq<Seq<char>>
    decreases examples.len(),
{
    if examples.len() == 0 {
        Seq::empty()
    } else {
        let ex = examples.last();
        example_errors(place, examples.drop_last()) + if trim_of(ex.code@).len() == 0 {
            seq![place + ": example \""@ + ex.title@ + "\" has empty code"@]
        } else {
            Seq::empty()
        }
    }
}

/// The messages about the content of one member.
pub open spec fn member_errors(
    section: Seq<char>,
    owner: Seq<char>,
    name: Seq<char>,
    mc: MemberContent,
    members: Seq<Member>,
) -> Seq<Seq<char>> {
    let place = place_of(section, owner, name);
    match first_member(members, name) {
        None => seq![place + ": no such member on "@ + owner + " in the dump"@],
        Some(m) => param_errors(place, mc, m) + returns_errors(place, mc, m) + example_errors(
            place,
            mc.examples@,
        ),
    }
}

/// The messages about the member contents `entries` of an owner file.
pub open spec fn owner_errors(
    section: Seq<char>,
    owner: Seq<char>,
    entries: Seq<(String, MemberContent)>,
    members: Seq<Member>,
) -> Seq<Seq<char>>
    decreases entries.len(),
{
    if entries.len() == 0 {
        Seq::empty()
    } else {
        owner_errors(section, owner, entries.drop_last(), members) + member_errors(
            section,
            owner,
            entries.last().0@,
            entries.last().1,
            members,
        )
    }
}

/// The first position of `members` named `name`, if any.
pub fn find_member(members: &[Member], name: &str) -> (r: Option<usize>)
    ensures
        match r {
            Some(i) => is_first_member(members@, name@, i as int) && first_member(members@, name@)
                == Some(members@[i as int]),
            None => first_member(members@, name@) is None,
        },
{
    let mut i: usize = 0;
    while i < members.len()
        invariant
            i <= members@.len(),
            forall|j: int| 0 <= j < i ==> #[trigger] members@[j].name@ != name@,
        decreases members.len() - i,
    {
        if str_eq(members[i].name.as_str(), name) {
            proof {
                assert(is_first_member(members@, name@, i as int));
                let w = choose|w: int| is_first_member(members@, name@, w);
                if w < i {
                    assert(members@[w].name@ != name@);
                } else if w > i {
                    assert(members@[i as int].name@ != name@);
                }
            }
            return Some(i);
        }
        i = i + 1;
    }
    None
}

/// The names of the parameters of a signature.
fn signature_names(params: &Vec<Param>) -> (r: Vec<String>)
    ensures
        r@.map_values(|s: String| s@) == param_names(params@),
{
    let mut names: Vec<String> = Vec::new();
    let mut i: usize = 0;
    while i < params.len()
        invariant
            i <= params.len(),
            names@.map_values(|s: String| s@) == param_names(params@.take(i as int)),
        decreases params.len() - i,
    {
        let ghost before = names@;
        names.push(params[i].name.clone());
        proof {
            before.lemma_push_map_commute(|s: String| s@, params[i as int].name);
            params@.lemma_map_take_succ(|p: Param| p.name@, i as int);
        }
        i = i + 1;
    }
    assert(params@.take(i as int) =~= params@);
    names
}

/// Whether `names` holds `s`.
fn names_contain(names: &Vec<String>, s: &str) -> (r: bool)
    ensures
        r == names@.map_values(|n: String| n@).contains(s@),
{
    let mut i: usize = 0;
    while i < names.len()
        invariant
            i <= names.len(),
            forall|j: int| 0 <= j < i ==> #[trigger] names@[j]@ != s@,
        decreases names.len() - i,
    {
        if str_eq(names[i].as_str(), s) {
            assert(names@.map_values(|n: String| n@)[i as int] == s@);
            return true;
        }
        i = i + 1;
    }
    let ghost nv = names@.map_values(|n: String| n@);
    assert(!nv.contains(s@)) by {
        if nv.contains(s@) {
            let j = choose|j: int| 0 <= j < nv.len() && nv[j] == s@;
            assert(names@[j]@ == s@);
        }
    }
    false
}

/// Pushes `place` followed by `tail` onto `errors`.
fn push_message(errors: &mut Vec<String>, place: &str, tail: &str)
    ensures
        final(errors)@.map_values(|e: String| e@) == old(errors)@.map_values(|e: String| e@).push(
            place@ + tail@,
        ),
{
    let mut message = String::new();
    push_str(&mut message, place);
    push_str(&mut message, tail);
    let ghost before = errors@;
    errors.push(message);
    proof {
        before.lemma_push_map_commute(|e: String| e@, message);
    }
}

/// Checks the content of one owner file against the owner's members in
/// the dump, and appends a message for each problem to `errors`.
#[verifier::spinoff_prover]
pub fn validate_owner(
    section: &str,
    owner: &str,
    content: &OwnerContent,
    members: &[Member],
    errors: &mut Vec<String>,
)
    ensures
        final(errors)@.map_values(|e: String| e@) == old(errors)@.map_values(|e: String| e@)
            + owner_errors(section@, owner@, content.members@, members@),
{
    let ghost start = old(errors)@.map_values(|e: String| e@);
    let mut k: usize = 0;
    while k < content.members.len()
        invariant
            k <= content.members.len(),
            errors@.map_values(|e: String| e@) == start + owner_errors(
                section@,
                owner@,
                content.members@.take(k as int),
                members@,
            ),
        decreases content.members.len() - k,
    {
        let ghost before = errors@.map_values(|e: String| e@);
        let member_name = &content.members[k].0;
        let member_content = &content.members[k].1;
        validate_member(section, owner, member_name.as_str(), member_content, members, errors);
        assert(content.members@.take(k + 1).drop_last() =~= content.members@.take(k as int));
        assert(before + member_errors(section@, owner@, member_name@, *member_content, members@)
            == start + owner_errors(section@, owner@, content.members@.take(k + 1), members@)) by {
            assert(start + owner_errors(section@, owner@, content.members@.take(k as int), members@)
                + member_errors(section@, owner@, member_name@, *member_content, members@) =~= start
                + (owner_errors(section@, owner@, content.members@.take(k as int), members@)
                + member_errors(section@, owner@, member_name@, *member_content, members@)));
        }
        k = k + 1;
    }
    assert(content.members@.take(k as int) =~= content.members@);
}

/// Checks the content of one member and appends a message for each
/// problem to `errors`.
#[verifier::spinoff_prover]
fn validate_member(
    section: &str,
    owner: &str,
    member_name: &str,
    member_content: &MemberContent,
    members: &[Member],
    errors: &mut Vec<String>,
)
    ensures
        final(errors)@.map_values(|e: String| e@) == old(errors)@.map_values(|e: String| e@)
            + member_errors(section@, owner@, member_name@, *member_content, members@),
{
    let ghost start = old(errors)@.map_values(|e: String| e@);
    let mut place = String::new();
    push_str(&mut place, "content/");
    push_str(&mut place, section);
    push_str(&mut place, "/");
    push_str(&mut place, owner);
    push_str(&mut place, ".yaml: ");
    push_str(&mut place, member_name);
    let ghost pl = place_of(section@, owner@, member_name@);
    assert(place@ == pl);
    let found = find_member(members, member_name);
    if found.is_none() {
        let mut tail = String::new();
        push_str(&mut tail, ": no such member on ");
        push_str(&mut tail, owner);
        push_str(&mut tail, " in the dump");
        push_message(errors, place.as_str(), tail.as_str());
        assert(place@ + tail@ =~= pl + ": no such member on "@ + owner@ + " in the dump"@);
        return;
    }
    let member = &members[found.unwrap()];
    // Parameter prose.
    let ghost after_params = start + param_errors(pl, *member_content, *member);
    if member_content.params.len() > 0 {
        match &member.params {
            None => {
                push_message(
                    errors,
                    place.as_str(),
                    ": params prose on a member without a parsed signature",
                );
            },
            Some(params) => {
                let names = signature_names(params);
                let listed = join(&names, ", ");
                let ghost nv = param_names(params@);
                let mut j: usize = 0;
                while j < member_content.params.len()
                    invariant
                        j <= member_content.params.len(),
                        names@.map_values(|s: String| s@) == nv,
                        listed@ == join_of(nv, ", "@),
                        place@ == pl,
                        errors@.map_values(|e: String| e@) == start + unknown_param_errors(
                            pl,
                            member_content.params@.take(j as int),
                            nv,
                        ),
                    decreases member_content.params.len() - j,
                {
                    let key = &member_content.params[j].0;
                    assert(member_content.params@.take(j + 1).drop_last() =~= member_content.params@.take(
                        j as int,
                    ));
                    if !names_contain(&names, key.as_str()) {
                        let mut tail = String::new();
                        push_str(&mut tail, ": no parameter named ");
                        push_str(&mut tail, key.as_str());
                        push_str(&mut tail, " (the dump has: ");
                        push_str(&mut tail, listed.as_str());
                        push_str(&mut tail, ")");
                        push_message(errors, place.as_str(), tail.as_str());
                        assert(place@ + tail@ =~= pl + ": no parameter named "@ + key@
                            + " (the dump has: "@ + join_of(nv, ", "@) + ")"@);
                    }
                    j = j + 1;
                }
                assert(member_content.params@.take(j as int) =~= member_content.params@);
            },
        }
    }
    assert(errors@.map_values(|e: String| e@) =~= after_params);
    // Return prose.
    let positions = match &member.returns {
        None => 0,
        Some(rs) => rs.len(),
    };
    if member_content.returns.is_some() && positions == 0 {
        push_message(errors, place.as_str(), ": returns prose on a member with no return positions");
    }
    let ghost after_returns = after_params + returns_errors(pl, *member_content, *member);
    assert(errors@.map_values(|e: String| e@) =~= after_returns);
    // Examples.
    let mut x: usize = 0;
    while x < member_content.examples.len()
        invariant
            x <= member_content.examples.len(),
            place@ == pl,
            errors@.map_values(|e: String| e@) == after_returns + example_errors(
                pl,
                member_content.examples@.take(x as int),
            ),
        decreases member_content.examples.len() - x,
    {
        let example = &member_content.examples[x];
        assert(member_content.examples@.take(x + 1).drop_last() =~= member_content.examples@.take(
            x as int,
        ));
        let code = trim(example.code.as_str());
        if code.unicode_len() == 0 {
            let mut tail = String::new();
            push_str(&mut tail, ": example \"");
            push_str(&mut tail, example.title.as_str());
            push_str(&mut tail, "\" has empty code");
            push_message(errors, place.as_str(), tail.as_str());
            assert(place@ + tail@ =~= pl + ": example \""@ + example.title@
                + "\" has empty code"@);
        }
        x = x + 1;
    }
    assert(member_content.examples@.take(x as int) =~= member_content.examples@);
}

/// Members in the dump of the owners `rows`.
pub open spec fn owners_total(rows: Seq<(Seq<char>, Seq<char>, Seq<Member>)>) -> nat
    decreases rows.len(),
{
    if rows.len() == 0 {
        0
    } else {
        owners_total(rows.drop_last()) + rows.last().2.len()
    }
}

/// Members of `members` of `owner` in `section` that carry content.
pub open spec fn members_covered(c: Content, section: Seq<char>, owner: Seq<char>, members: Seq<Member>) -> nat
    decreases members.len(),
{
    if members.len() == 0 {
        0
    } else {
        members_covered(c, section, owner, members.drop_last()) + if member_of(
            c,
            section,
            owner,
            members.last().name@,
        ) is Some {
            1nat
        } else {
            0nat
        }
    }
}

/// Members of the owners `rows` of `section` that carry content.
pub open spec fn owners_covered(c: Content, section: Seq<char>, rows: Seq<(Seq<char>, Seq<char>, Seq<Member>)>) -> nat
    decreases rows.len(),
{
    if rows.len() == 0 {
        0
    } else {
        owners_covered(c, section, rows.drop_last()) + members_covered(
            c,
            section,
            rows.last().0,
            rows.last().2,
        )
    }
}

/// All members of the dump's three sections.
pub open spec fn dump_total(d: Dump) -> nat {
    owners_total(section_owners(d, 0)) + owners_total(section_owners(d, 1)) + owners_total(
        section_owners(d, 2),
    )
}

/// The members of the dump that carry content.
pub open spec fn dump_covered(c: Content, d: Dump) -> nat {
    owners_covered(c, section_name(0), section_owners(d, 0)) + owners_covered(
        c,
        section_name(1),
        section_owners(d, 1),
    ) + owners_covered(c, section_name(2), section_owners(d, 2))
}

proof fn lemma_owners_total_prefix(rows: Seq<(Seq<char>, Seq<char>, Seq<Member>)>, i: int)
    requires
        0 <= i <= rows.len(),
    ensures
        owners_total(rows.take(i)) <= owners_total(rows),
    decreases rows.len(),
{
    if i < rows.len() {
        assert(rows.take(i) =~= rows.drop_last().take(i));
        lemma_owners_total_prefix(rows.drop_last(), i);
    } else {
        assert(rows.take(i) =~= rows);
    }
}

proof fn lemma_covered_bounded(c: Content, section: Seq<char>, owner: Seq<char>, members: Seq<Member>)
    ensures
        members_covered(c, section, owner, members) <= members.len(),
    decreases members.len(),
{
    if members.len() > 0 {
        lemma_covered_bounded(c, section, owner, members.drop_last());
    }
}

impl Content {
    /// The content of `member` of `owner` in `section`, if any.
    pub fn member(&self, section: &str, owner: &str, member: &str) -> (r: Option<&MemberContent>)
        ensures
            match r {
                Some(m) => member_of(*self, section@, owner@, member@) == Some(*m),
                None => member_of(*self, section@, owner@, member@) is None,
            },
    {
        match find_key(&self.owners, section) {
            None => None,
            Some(i) => {
                let owners = &self.owners[i].1;
                match find_key(owners, owner) {
                    None => None,
                    Some(j) => {
                        let members = &owners[j].1.members;
                        match find_key(members, member) {
                            None => None,
                            Some(x) => Some(&members[x].1),
                        }
                    },
                }
            },
        }
    }

    /// The coverage line: the number of dump members that carry content,
    /// and the number of dump members.
    #[verifier::spinoff_prover]
    pub fn coverage(&self, dump: &Dump) -> (r: (usize, usize))
        requires
            dump_total(*dump) <= usize::MAX,
        ensures
            r.0 == dump_covered(*self, *dump),
            r.1 == dump_total(*dump),
    {
        let sections = dump.sections();
        let mut total: usize = 0;
        let mut covered: usize = 0;
        let mut k: usize = 0;
        let ghost mut done_total: nat = 0;
        let ghost mut done_covered: nat = 0;
        while k < 3
            invariant
                k <= 3,
                forall|q: int|
                    0 <= q < 3 ==> {
                        &&& (#[trigger] sections@[q]).0@ == section_name(q)
                        &&& sections@[q].1@.map_values(
                            |row: (&str, &str, &[Member])| row_view(row),
                        ) == section_owners(*dump, q)
                    },
                dump_total(*dump) <= usize::MAX,
                total == done_total,
                covered == done_covered,
                done_covered <= done_total,
                done_total == if k == 0 {
                    0
                } else if k == 1 {
                    owners_total(section_owners(*dump, 0))
                } else if k == 2 {
                    owners_total(section_owners(*dump, 0)) + owners_total(section_owners(*dump, 1))
                } else {
                    dump_total(*dump)
                },
                done_covered == if k == 0 {
                    0
                } else if k == 1 {
                    owners_covered(*self, section_name(0), section_owners(*dump, 0))
                } else if k == 2 {
                    owners_covered(*self, section_name(0), section_owners(*dump, 0))
                        + owners_covered(*self, section_name(1), section_owners(*dump, 1))
                } else {
                    dump_covered(*self, *dump)
                },
            decreases 3 - k,
        {
            let section = sections[k].0;
            let rows = &sections[k].1;
            let ghost rv = section_owners(*dump, k as int);
            assert(sections@[k as int].0@ == section_name(k as int));
            let ghost base_total = done_total;
            let ghost base_covered = done_covered;
            assert(base_total + owners_total(rv) <= dump_total(*dump));
            let mut i: usize = 0;
            while i < rows.len()
                invariant
                    i <= rows.len(),
                    rows@.map_values(|row: (&str, &str, &[Member])| row_view(row)) == rv,
                    section@ == section_name(k as int),
                    base_total + owners_total(rv) <= usize::MAX,
                    total == base_total + owners_total(rv.take(i as int)),
                    covered == base_covered + owners_covered(*self, section@, rv.take(i as int)),
                    covered <= total,
                    base_covered <= base_total,
                decreases rows.len() - i,
            {
                let owner = rows[i].0;
                let members = rows[i].2;
                assert(row_view(rows@[i as int]) == rv[i as int]);
                assert(rv.take(i + 1).drop_last() =~= rv.take(i as int));
                proof {
                    lemma_owners_total_prefix(rv, i + 1);
                }
                let ghost row_total = total;
                let ghost row_covered = covered;
                let mut j: usize = 0;
                while j < members.len()
                    invariant
                        j <= members@.len(),
                        members@ == rv[i as int].2,
                        owner@ == rv[i as int].0,
                        section@ == section_name(k as int),
                        row_total + members@.len() <= usize::MAX,
                        total == row_total + j,
                        covered == row_covered + members_covered(
                            *self,
                            section@,
                            owner@,
                            members@.take(j as int),
                        ),
                        row_covered <= row_total,
                    decreases members.len() - j,
                {
                    assert(members@.take(j + 1).drop_last() =~= members@.take(j as int));
                    proof {
                        lemma_covered_bounded(*self, section@, owner@, members@.take(j as int));
                    }
                    total = total + 1;
                    if self.member(section, owner, members[j].name.as_str()).is_some() {
                        covered = covered + 1;
                    }
                    j = j + 1;
                }
                assert(members@.take(j as int) =~= members@);
                proof {
                    lemma_covered_bounded(*self, section@, owner@, members@);
                }
                i = i + 1;
            }
            assert(rv.take(i as int) =~= rv);
            proof {
                done_total = total as nat;
                done_covered = covered as nat;
            }
            k = k + 1;
        }
        (covered, total)
    }
}

/// The entries of section directory `k`; a missing listing is empty.
pub open spec fn files_of(listings: Seq<Vec<ContentFile>>, k: int) -> Seq<ContentFile> {
    if 0 <= k < listings.len() {
        listings[k]@
    } else {
        Seq::empty()
    }
}

/// The prefix of every message about the entry `f` of section `k`.
pub open spec fn file_place(k: int, f: ContentFile) -> Seq<char> {
    "content/"@ + section_name(k) + "/"@ + f.file_name@
}

/// The messages about the entry `f` of section directory `k`.
pub open spec fn file_errors(d: Dump, k: int, f: ContentFile) -> Seq<Seq<char>> {
    let section = section_name(k);
    let place = file_place(k, f);
    match strip_suffix_of(f.file_name@, ".yaml"@) {
        None => seq![place + ": only .yaml files live here"@],
        Some(stem) => match first_row_members(section_owners(d, k), stem) {
            None => seq![place + ": no "@ + section + " owner named "@ + stem + " in the dump"@],
            Some(members) => match f.parsed {
                Err(e) => seq![place + ": "@ + e@],
                Ok(oc) => owner_errors(section, stem, oc.members@, members),
            },
        },
    }
}

/// The owner name and content that the entry `f` of section `k` loads:
/// a `.yaml` file named after an owner of the section, read and parsed.
pub open spec fn file_loaded(d: Dump, k: int, f: ContentFile) -> Option<(Seq<char>, OwnerContent)> {
    match strip_suffix_of(f.file_name@, ".yaml"@) {
        None => None,
        Some(stem) => match first_row_members(section_owners(d, k), stem) {
            None => None,
            Some(_) => match f.parsed {
                Err(_) => None,
                Ok(oc) => Some((stem, oc)),
            },
        },
    }
}

/// The messages about the entries `files` of section `k`.
pub open spec fn section_errors(d: Dump, k: int, files: Seq<ContentFile>) -> Seq<Seq<char>>
    decreases files.len(),
{
    if files.len() == 0 {
        Seq::empty()
    } else {
        section_errors(d, k, files.drop_last()) + file_errors(d, k, files.last())
    }
}

/// The content loaded for owner `key` from the entries `files` of
/// section `k`: that of the last entry that loads it.
pub open spec fn loaded_lookup(d: Dump, k: int, files: Seq<ContentFile>, key: Seq<char>) -> Option<
    OwnerContent,
>
    decreases files.len(),
{
    if files.len() == 0 {
        None
    } else {
        match file_loaded(d, k, files.last()) {
            Some((stem, oc)) => if stem == key {
                Some(oc)
            } else {
                loaded_lookup(d, k, files.drop_last(), key)
            },
            None => loaded_lookup(d, k, files.drop_last(), key),
        }
    }
}

/// Book-root names the generator owns: a guide may not shadow them.
pub open spec fn is_reserved_page(name: Seq<char>) -> bool {
    ||| name == "README.md"@
    ||| name == "SUMMARY.md"@
    ||| name == "book.toml"@
    ||| name == "enums.md"@
    ||| name == "globals.md"@
    ||| name == "api-dump.json"@
    ||| name == "bettervoxel.d.luau"@
    ||| name == "bettervoxel-docs.json"@
}

/// The messages about the guide file `g`.
pub open spec fn guide_errors(g: Seq<char>) -> Seq<Seq<char>> {
    if !ends_with_of(g, ".md"@) {
        seq!["content/guides/"@ + g + ": only .md files live here"@]
    } else if is_reserved_page(g) {
        seq!["content/guides/"@ + g + ": shadows a generated page — rename it"@]
    } else {
        Seq::empty()
    }
}

/// The messages about the guide files `gs`.
pub open spec fn guides_errors(gs: Seq<String>) -> Seq<Seq<char>>
    decreases gs.len(),
{
    if gs.len() == 0 {
        Seq::empty()
    } else {
        guides_errors(gs.drop_last()) + guide_errors(gs.last()@)
    }
}

/// The guide files of `gs` that are accepted.
pub open spec fn accepted_guides(gs: Seq<String>) -> Seq<Seq<char>>
    decreases gs.len(),
{
    if gs.len() == 0 {
        Seq::empty()
    } else {
        accepted_guides(gs.drop_last()) + if guide_errors(gs.last()@).len() == 0 {
            seq![gs.last()@]
        } else {
            Seq::empty()
        }
    }
}

/// Every message about the content tree, in the order the tree is
/// walked.
pub open spec fn load_errors(d: Dump, listings: Seq<Vec<ContentFile>>, guides: Seq<String>) -> Seq<
    Seq<char>,
> {
    section_errors(d, 0, files_of(listings, 0)) + section_errors(d, 1, files_of(listings, 1))
        + section_errors(d, 2, files_of(listings, 2)) + guides_errors(guides)
}

/// Whether `name` is a page the generator owns.
pub fn is_reserved(name: &str) -> (r: bool)
    ensures
        r == is_reserved_page(name@),
{
    str_eq(name, "README.md") || str_eq(name, "SUMMARY.md") || str_eq(name, "book.toml") || str_eq(
        name,
        "enums.md",
    ) || str_eq(name, "globals.md") || str_eq(name, "api-dump.json") || str_eq(
        name,
        "bettervoxel.d.luau",
    ) || str_eq(name, "bettervoxel-docs.json")
}

/// The first position of `rows` whose owner is `name`, if any.
fn find_row(rows: &Vec<(&str, &str, &[Member])>, name: &str) -> (r: Option<usize>)
    ensures
        match r {
            Some(i) => i < rows.len() && first_row_members(
                rows@.map_values(|row: (&str, &str, &[Member])| row_view(row)),
                name@,
            ) == Some(rows@[i as int].2@),
            None => first_row_members(
                rows@.map_values(|row: (&str, &str, &[Member])| row_view(row)),
                name@,
            ) is None,
        },
{
    let ghost rv = rows@.map_values(|row: (&str, &str, &[Member])| row_view(row));
    let mut i: usize = 0;
    while i < rows.len()
        invariant
            i <= rows.len(),
            rv == rows@.map_values(|row: (&str, &str, &[Member])| row_view(row)),
            forall|j: int| 0 <= j < i ==> #[trigger] rv[j].0 != name@,
        decreases rows.len() - i,
    {
        if str_eq(rows[i].0, name) {
            proof {
                assert(is_first_row(rv, name@, i as int));
                let w = choose|w: int| is_first_row(rv, name@, w);
                if w < i {
                    assert(rv[w].0 != name@);
                } else if w > i {
                    assert(rv[i as int].0 != name@);
                }
            }
            return Some(i);
        }
        i = i + 1;
    }
    assert(!exists|w: int| is_first_row(rv, name@, w)) by {
        if exists|w: int| is_first_row(rv, name@, w) {
            let w = choose|w: int| is_first_row(rv, name@, w);
            assert(rv[w].0 != name@);
        }
    }
    None
}

/// Loads the entries of one section directory, appending a message for
/// each problem to `errors`.
#[verifier::spinoff_prover]
fn load_section(
    dump: &Dump,
    k: usize,
    section: &str,
    rows: &Vec<(&str, &str, &[Member])>,
    files: Vec<ContentFile>,
    errors: &mut Vec<String>,
) -> (r: Vec<(String, OwnerContent)>)
    requires
        k < 3,
        section@ == section_name(k as int),
        rows@.map_values(|row: (&str, &str, &[Member])| row_view(row)) == section_owners(
            *dump,
            k as int,
        ),
    ensures
        final(errors)@.map_values(|e: String| e@) == old(errors)@.map_values(|e: String| e@)
            + section_errors(*dump, k as int, files@),
        sorted_keys(r@),
        forall|key: Seq<char>| #[trigger]
            lookup(r@, key) == loaded_lookup(*dump, k as int, files@, key),
{
    let ghost fs = files@;
    assert(fs.len() == files.len());
    let ghost start = old(errors)@.map_values(|e: String| e@);
    let ghost rv = section_owners(*dump, k as int);
    let mut loaded: Vec<(String, OwnerContent)> = Vec::new();
    let mut rest = files;
    let mut i: usize = 0;
    assert(fs.skip(0) =~= fs);
    while rest.len() > 0
        invariant
            section@ == section_name(k as int),
            rows@.map_values(|row: (&str, &str, &[Member])| row_view(row)) == rv,
            rv == section_owners(*dump, k as int),
            i <= fs.len(),
            fs.len() <= usize::MAX,
            rest@ == fs.skip(i as int),
            errors@.map_values(|e: String| e@) == start + section_errors(
                *dump,
                k as int,
                fs.take(i as int),
            ),
            sorted_keys(loaded@),
            forall|key: Seq<char>| #[trigger]
                lookup(loaded@, key) == loaded_lookup(*dump, k as int, fs.take(i as int), key),
        decreases rest.len(),
    {
        let f = rest.remove(0);
        assert(f == fs[i as int]);
        assert(fs.skip(i as int).remove(0) =~= fs.skip(i + 1));
        assert(fs.take(i + 1).drop_last() =~= fs.take(i as int));
        assert(fs.take(i + 1).last() == f);
        let ghost before_loaded = loaded@;
        let ContentFile { file_name, parsed } = f;
        let mut place = String::new();
        push_str(&mut place, "content/");
        push_str(&mut place, section);
        push_str(&mut place, "/");
        push_str(&mut place, file_name.as_str());
        assert(place@ == file_place(k as int, f));
        match strip_suffix(file_name.as_str(), ".yaml") {
            None => {
                push_message(errors, place.as_str(), ": only .yaml files live here");
            },
            Some(owner_name) => {
                match find_row(rows, owner_name.as_str()) {
                    None => {
                        let mut tail = String::new();
                        push_str(&mut tail, ": no ");
                        push_str(&mut tail, section);
                        push_str(&mut tail, " owner named ");
                        push_str(&mut tail, owner_name.as_str());
                        push_str(&mut tail, " in the dump");
                        push_message(errors, place.as_str(), tail.as_str());
                        assert(place@ + tail@ =~= file_place(k as int, f) + ": no "@ + section@
                            + " owner named "@ + owner_name@ + " in the dump"@);
                    },
                    Some(idx) => {
                        match parsed {
                            Err(e) => {
                                let mut tail = String::new();
                                push_str(&mut tail, ": ");
                                push_str(&mut tail, e.as_str());
                                push_message(errors, place.as_str(), tail.as_str());
                                assert(place@ + tail@ =~= file_place(k as int, f) + ": "@ + e@);
                            },
                            Ok(oc) => {
                                validate_owner(section, owner_name.as_str(), &oc, rows[idx].2, errors);
                                let ghost on = owner_name@;
                                insert_sorted(&mut loaded, owner_name, oc);
                                assert forall|key: Seq<char>| #[trigger]
                                    lookup(loaded@, key) == loaded_lookup(
                                        *dump,
                                        k as int,
                                        fs.take(i + 1),
                                        key,
                                    ) by {
                                    assert(lookup(loaded@, key) == if key == on {
                                        Some(oc)
                                    } else {
                                        lookup(before_loaded, key)
                                    });
                                }
                            },
                        }
                    },
                }
            },
        }
        assert(errors@.map_values(|e: String| e@) =~= start + section_errors(
            *dump,
            k as int,
            fs.take(i + 1),
        ));
        i = i + 1;
    }
    assert(fs.take(i as int) =~= fs);
    loaded
}

impl Content {
    /// Loads and validates the content tree against the dump. `listings`
    /// holds, for each page section in turn, the entries of its
    /// directory in name order; `guide_files` the file names under the
    /// guides directory in name order. Every problem is collected, not
    /// only the first, and returned as one failure.
    #[verifier::spinoff_prover]
    pub fn load(dump: &Dump, listings: Vec<Vec<ContentFile>>, guide_files: Vec<String>) -> (r: Result<
        Content,
        Vec<String>,
    >)
        requires
            forall|q: int| 0 <= q < listings@.len() ==> files_wf(#[trigger] listings@[q]@),
            strictly_ascending(names_of(guide_files@)),
        ensures
            match r {
                Ok(c) => {
                    &&& load_errors(*dump, listings@, guide_files@).len() == 0
                    &&& c.wf()
                    &&& c.owners@.len() == 3
                    &&& forall|k: int|
                        0 <= k < 3 ==> {
                            &&& (#[trigger] c.owners@[k]).0@ == section_name(k)
                            &&& sorted_keys(c.owners@[k].1@)
                            &&& forall|key: Seq<char>| #[trigger]
                                lookup(c.owners@[k].1@, key) == loaded_lookup(
                                    *dump,
                                    k,
                                    files_of(listings@, k),
                                    key,
                                )
                        }
                    &&& c.guides@.map_values(|g: String| g@) == accepted_guides(guide_files@)
                },
                Err(es) => {
                    &&& load_errors(*dump, listings@, guide_files@).len() > 0
                    &&& es@.map_values(|e: String| e@) == load_errors(
                        *dump,
                        listings@,
                        guide_files@,
                    )
                },
            },
    {
        let ghost ls = listings@;
        let sections = dump.sections();
        let mut errors: Vec<String> = Vec::new();
        let mut owners: Vec<(String, Vec<(String, OwnerContent)>)> = Vec::new();
        let mut remaining = listings;
        let mut k: usize = 0;
        while k < 3
            invariant
                k <= 3,
                forall|q: int|
                    0 <= q < 3 ==> {
                        &&& (#[trigger] sections@[q]).0@ == section_name(q)
                        &&& sections@[q].1@.map_values(
                            |row: (&str, &str, &[Member])| row_view(row),
                        ) == section_owners(*dump, q)
                    },
                remaining@ == if k <= ls.len() {
                    ls.skip(k as int)
                } else {
                    Seq::empty()
                },
                owners@.len() == k,
                forall|q: int|
                    0 <= q < k ==> {
                        &&& (#[trigger] owners@[q]).0@ == section_name(q)
                        &&& sorted_keys(owners@[q].1@)
                        &&& forall|key: Seq<char>| #[trigger]
                            lookup(owners@[q].1@, key) == loaded_lookup(
                                *dump,
                                q,
                                files_of(ls, q),
                                key,
                            )
                    },
                errors@.map_values(|e: String| e@) == if k == 0 {
                    Seq::empty()
                } else if k == 1 {
                    section_errors(*dump, 0, files_of(ls, 0))
                } else if k == 2 {
                    section_errors(*dump, 0, files_of(ls, 0)) + section_errors(
                        *dump,
                        1,
                        files_of(ls, 1),
                    )
                } else {
                    section_errors(*dump, 0, files_of(ls, 0)) + section_errors(
                        *dump,
                        1,
                        files_of(ls, 1),
                    ) + section_errors(*dump, 2, files_of(ls, 2))
                },
            decreases 3 - k,
        {
            let files = if remaining.len() > 0 {
                let first = remaining.remove(0);
                assert(first@ == ls[k as int]@);
                assert(ls.skip(k as int).remove(0) =~= ls.skip(k + 1));
                first
            } else {
                Vec::new()
            };
            assert(files@ == files_of(ls, k as int));
            let section = sections[k].0;
            let ghost before_errors = errors@.map_values(|e: String| e@);
            let loaded = load_section(dump, k, section, &sections[k].1, files, &mut errors);
            assert(errors@.map_values(|e: String| e@) =~= before_errors + section_errors(
                *dump,
                k as int,
                files_of(ls, k as int),
            ));
            let name = crate::text::copy_str(section);
            owners.push((name, loaded));
            k = k + 1;
        }
        let ghost section_part = errors@.map_values(|e: String| e@);
        let mut guides: Vec<String> = Vec::new();
        let mut g: usize = 0;
        while g < guide_files.len()
            invariant
                g <= guide_files.len(),
                errors@.map_values(|e: String| e@) == section_part + guides_errors(
                    guide_files@.take(g as int),
                ),
                guides@.map_values(|x: String| x@) == accepted_guides(guide_files@.take(g as int)),
            decreases guide_files.len() - g,
        {
            let file_name = &guide_files[g];
            assert(guide_files@.take(g + 1).drop_last() =~= guide_files@.take(g as int));
            let ghost before_guides = guides@;
            if !ends_with(file_name.as_str(), ".md") {
                let mut tail = String::new();
                push_str(&mut tail, file_name.as_str());
                push_str(&mut tail, ": only .md files live here");
                push_message(&mut errors, "content/guides/", tail.as_str());
                assert("content/guides/"@ + tail@ =~= "content/guides/"@ + file_name@
                    + ": only .md files live here"@);
                assert(guides@.map_values(|x: String| x@) =~= accepted_guides(
                    guide_files@.take(g + 1),
                ));
            } else if is_reserved(file_name.as_str()) {
                let mut tail = String::new();
                push_str(&mut tail, file_name.as_str());
                push_str(&mut tail, ": shadows a generated page — rename it");
                push_message(&mut errors, "content/guides/", tail.as_str());
                assert("content/guides/"@ + tail@ =~= "content/guides/"@ + file_name@
                    + ": shadows a generated page — rename it"@);
                assert(guides@.map_values(|x: String| x@) =~= accepted_guides(
                    guide_files@.take(g + 1),
                ));
            } else {
                let accepted = file_name.clone();
                guides.push(accepted);
                proof {
                    before_guides.lemma_push_map_commute(|x: String| x@, accepted);
                }
                assert(guides@.map_values(|x: String| x@) =~= accepted_guides(
                    guide_files@.take(g + 1),
                ));
            }
            assert(errors@.map_values(|e: String| e@) =~= section_part + guides_errors(
                guide_files@.take(g + 1),
            ));
            g = g + 1;
        }
        assert(guide_files@.take(g as int) =~= guide_files@);
        proof {
            lemma_accepted_ascending(guide_files@);
            assert(names_of(guides@) == guides@.map_values(|x: String| x@));
            assert forall|q: int, j: int|
                0 <= q < owners@.len() && 0 <= j < owners@[q].1@.len() implies (
                #[trigger] owners@[q].1@[j]).1.wf() by {
                let e = owners@[q].1@[j];
                crate::keyed::lemma_sorted_lookup(owners@[q].1@, j);
                assert(files_wf(files_of(ls, q)));
                lemma_loaded_wf(*dump, q, files_of(ls, q), e.0@);
            }
        }
        if errors.len() == 0 {
            Ok(Content { owners, guides })
        } else {
            Err(errors)
        }
    }
}

/// Whether the content of a member agrees with the member in the dump:
/// parameter prose only on a signature and only for its parameters,
/// return prose only with return positions, and no blank example.
pub open spec fn member_conforms(m: Member, mc: MemberContent) -> bool {
    &&& (mc.params@.len() > 0 ==> m.params is Some)
    &&& forall|j: int|
        0 <= j < mc.params@.len() ==> m.params is Some && param_names(m.params.unwrap()@).contains(
            (#[trigger] mc.params@[j]).0@,
        )
    &&& (mc.returns is Some ==> m.returns is Some && m.returns.unwrap()@.len() > 0)
    &&& forall|x: int| 0 <= x < mc.examples@.len() ==> trim_of((#[trigger] mc.examples@[x]).code@).len() > 0
}

/// Whether every member content of an owner file names a member of the
/// owner in the dump and agrees with it.
pub open spec fn owner_conforms(members: Seq<Member>, oc: OwnerContent) -> bool {
    forall|i: int|
        0 <= i < oc.members@.len() ==> match first_member(members, (#[trigger] oc.members@[i]).0@) {
            Some(m) => member_conforms(m, oc.members@[i].1),
            None => false,
        }
}

proof fn lemma_unknown_params_empty(place: Seq<char>, keys: Seq<(String, String)>, names: Seq<Seq<char>>)
    requires
        unknown_param_errors(place, keys, names).len() == 0,
    ensures
        forall|j: int| 0 <= j < keys.len() ==> names.contains((#[trigger] keys[j]).0@),
    decreases keys.len(),
{
    if keys.len() > 0 {
        lemma_unknown_params_empty(place, keys.drop_last(), names);
        assert forall|j: int| 0 <= j < keys.len() implies names.contains((#[trigger] keys[j]).0@) by {
            if j < keys.len() - 1 {
                assert(keys.drop_last()[j] == keys[j]);
            }
        }
    }
}

proof fn lemma_example_errors_empty(place: Seq<char>, examples: Seq<Example>)
    requires
        example_errors(place, examples).len() == 0,
    ensures
        forall|x: int| 0 <= x < examples.len() ==> trim_of((#[trigger] examples[x]).code@).len() > 0,
    decreases examples.len(),
{
    if examples.len() > 0 {
        lemma_example_errors_empty(place, examples.drop_last());
        assert forall|x: int| 0 <= x < examples.len() implies trim_of(
            (#[trigger] examples[x]).code@,
        ).len() > 0 by {
            if x < examples.len() - 1 {
                assert(examples.drop_last()[x] == examples[x]);
            }
        }
    }
}

proof fn lemma_member_errors_empty(
    section: Seq<char>,
    owner: Seq<char>,
    name: Seq<char>,
    mc: MemberContent,
    members: Seq<Member>,
)
    requires
        member_errors(section, owner, name, mc, members).len() == 0,
    ensures
        match first_member(members, name) {
            Some(m) => member_conforms(m, mc),
            None => false,
        },
{
    let place = place_of(section, owner, name);
    match first_member(members, name) {
        None => {},
        Some(m) => {
            assert(param_errors(place, mc, m).len() == 0);
            assert(returns_errors(place, mc, m).len() == 0);
            assert(example_errors(place, mc.examples@).len() == 0);
            lemma_example_errors_empty(place, mc.examples@);
            if mc.params@.len() > 0 {
                match m.params {
                    None => {},
                    Some(ps) => {
                        lemma_unknown_params_empty(place, mc.params@, param_names(ps@));
                    },
                }
            }
        },
    }
}

proof fn lemma_owner_errors_empty(
    section: Seq<char>,
    owner: Seq<char>,
    entries: Seq<(String, MemberContent)>,
    members: Seq<Member>,
)
    requires
        owner_errors(section, owner, entries, members).len() == 0,
    ensures
        forall|i: int|
            0 <= i < entries.len() ==> match first_member(members, (#[trigger] entries[i]).0@) {
                Some(m) => member_conforms(m, entries[i].1),
                None => false,
            },
    decreases entries.len(),
{
    if entries.len() > 0 {
        lemma_owner_errors_empty(section, owner, entries.drop_last(), members);
        lemma_member_errors_empty(section, owner, entries.last().0@, entries.last().1, members);
        assert forall|i: int| 0 <= i < entries.len() implies match first_member(
            members,
            (#[trigger] entries[i]).0@,
        ) {
            Some(m) => member_conforms(m, entries[i].1),
            None => false,
        } by {
            if i < entries.len() - 1 {
                assert(entries.drop_last()[i] == entries[i]);
            }
        }
    }
}

proof fn lemma_section_loaded_conforms(d: Dump, k: int, files: Seq<ContentFile>, key: Seq<char>)
    requires
        section_errors(d, k, files).len() == 0,
        loaded_lookup(d, k, files, key) is Some,
    ensures
        first_row_members(section_owners(d, k), key) is Some,
        owner_conforms(
            first_row_members(section_owners(d, k), key).unwrap(),
            loaded_lookup(d, k, files, key).unwrap(),
        ),
    decreases files.len(),
{
    let f = files.last();
    assert(section_errors(d, k, files.drop_last()).len() == 0);
    assert(file_errors(d, k, f).len() == 0);
    match file_loaded(d, k, f) {
        Some((stem, oc)) => {
            if stem == key {
                let members = first_row_members(section_owners(d, k), stem).unwrap();
                lemma_owner_errors_empty(section_name(k), stem, oc.members@, members);
            } else {
                lemma_section_loaded_conforms(d, k, files.drop_last(), key);
            }
        },
        None => {
            lemma_section_loaded_conforms(d, k, files.drop_last(), key);
        },
    }
}

/// Content that loads without a message agrees with the dump: every
/// owner it loads is an owner of its section in the dump, every member
/// content names a member of that owner, parameter prose names only
/// parameters of the member's signature, return prose stands only on a
/// member with return positions, and no example is blank.
#[verifier::spinoff_prover]
pub proof fn lemma_valid_content_conforms(
    d: Dump,
    listings: Seq<Vec<ContentFile>>,
    guides: Seq<String>,
    k: int,
    owner: Seq<char>,
)
    requires
        load_errors(d, listings, guides).len() == 0,
        0 <= k < 3,
        loaded_lookup(d, k, files_of(listings, k), owner) is Some,
    ensures
        first_row_members(section_owners(d, k), owner) is Some,
        owner_conforms(
            first_row_members(section_owners(d, k), owner).unwrap(),
            loaded_lookup(d, k, files_of(listings, k), owner).unwrap(),
        ),
{
    let a = section_errors(d, 0, files_of(listings, 0));
    let b = section_errors(d, 1, files_of(listings, 1));
    let c = section_errors(d, 2, files_of(listings, 2));
    let g = guides_errors(guides);
    assert(load_errors(d, listings, guides) == a + b + c + g);
    assert((a + b + c + g).len() == a.len() + b.len() + c.len() + g.len());
    assert(section_errors(d, k, files_of(listings, k)).len() == 0);
    lemma_section_loaded_conforms(d, k, files_of(listings, k), owner);
}

proof fn lemma_loaded_wf(d: Dump, k: int, files: Seq<ContentFile>, key: Seq<char>)
    requires
        files_wf(files),
    ensures
        match loaded_lookup(d, k, files, key) {
            Some(oc) => oc.wf(),
            None => true,
        },
    decreases files.len(),
{
    if files.len() > 0 {
        assert(files_wf(files.drop_last())) by {
            assert forall|i: int| 0 <= i < files.drop_last().len() implies match (
            #[trigger] files.drop_last()[i]).parsed {
                Ok(oc) => oc.wf(),
                Err(_) => true,
            } by {
                assert(files.drop_last()[i] == files[i]);
            }
        }
        assert(match files[files.len() - 1].parsed {
            Ok(oc) => oc.wf(),
            Err(_) => true,
        });
        lemma_loaded_wf(d, k, files.drop_last(), key);
    }
}

proof fn lemma_accepted_below(gs: Seq<String>, x: Seq<char>)
    requires
        forall|j: int| 0 <= j < gs.len() ==> seq_lt(#[trigger] gs[j]@, x),
    ensures
        forall|i: int| 0 <= i < accepted_guides(gs).len() ==> seq_lt(#[trigger] accepted_guides(gs)[i], x),
    decreases gs.len(),
{
    if gs.len() > 0 {
        let prev = gs.drop_last();
        assert forall|j: int| 0 <= j < prev.len() implies seq_lt(#[trigger] prev[j]@, x) by {
            assert(prev[j] == gs[j]);
        }
        lemma_accepted_below(prev, x);
        assert forall|i: int| 0 <= i < accepted_guides(gs).len() implies seq_lt(#[trigger] accepted_guides(gs)[i], x) by {
            if i < accepted_guides(prev).len() {
                assert(accepted_guides(gs)[i] == accepted_guides(prev)[i]);
            } else {
                assert(accepted_guides(gs)[i] == gs.last()@);
            }
        }
    }
}

/// Guides listed in strictly ascending name order are accepted in
/// strictly ascending name order.
proof fn lemma_accepted_ascending(gs: Seq<String>)
    requires
        strictly_ascending(names_of(gs)),
    ensures
        strictly_ascending(accepted_guides(gs)),
    decreases gs.len(),
{
    if gs.len() > 0 {
        let prev = gs.drop_last();
        let x = gs.last()@;
        assert(strictly_ascending(names_of(prev))) by {
            assert forall|i: int, j: int| 0 <= i < j < names_of(prev).len() implies seq_lt(
                #[trigger] names_of(prev)[i],
                #[trigger] names_of(prev)[j],
            ) by {
                assert(names_of(prev)[i] == names_of(gs)[i]);
                assert(names_of(prev)[j] == names_of(gs)[j]);
            }
        }
        lemma_accepted_ascending(prev);
        assert forall|j: int| 0 <= j < prev.len() implies seq_lt(#[trigger] prev[j]@, x) by {
            assert(names_of(gs)[j] == prev[j]@);
            assert(names_of(gs)[gs.len() - 1] == x);
        }
        lemma_accepted_below(prev, x);
        let a = accepted_guides(gs);
        let ap = accepted_guides(prev);
        assert forall|i: int, j: int| 0 <= i < j < a.len() implies seq_lt(#[trigger] a[i], #[trigger] a[j]) by {
            if j < ap.len() {
                assert(a[i] == ap[i] && a[j] == ap[j]);
            } else {
                assert(a[i] == ap[i] && a[j] == x);
            }
        }
    }
}

/// Every accepted guide is a markdown file that shadows no generated
/// page.
pub proof fn lemma_accepted_guides(gs: Seq<String>)
    ensures
        forall|i: int|
            0 <= i < accepted_guides(gs).len() ==> ends_with_of(#[trigger] accepted_guides(gs)[i], ".md"@)
                && !is_reserved_page(accepted_guides(gs)[i]),
    decreases gs.len(),
{
    if gs.len() > 0 {
        lemma_accepted_guides(gs.drop_last());
        let prev = accepted_guides(gs.drop_last());
        assert forall|i: int| 0 <= i < accepted_guides(gs).len() implies ends_with_of(
            #[trigger] accepted_guides(gs)[i],
            ".md"@,
        ) && !is_reserved_page(accepted_guides(gs)[i]) by {
            if i < prev.len() {
                assert(accepted_guides(gs)[i] == prev[i]);
            }
        }
    }
}

proof fn lemma_owners_covered_bounded(c: Content, section: Seq<char>, rows: Seq<(Seq<char>, Seq<char>, Seq<Member>)>)
    ensures
        owners_covered(c, section, rows) <= owners_total(rows),
    decreases rows.len(),
{
    if rows.len() > 0 {
        lemma_owners_covered_bounded(c, section, rows.drop_last());
        lemma_covered_bounded(c, section, rows.last().0, rows.last().2);
    }
}

/// The coverage count never exceeds the member count.
pub proof fn lemma_coverage_bounded(c: Content, d: Dump)
    ensures
        dump_covered(c, d) <= dump_total(d),
{
    lemma_owners_covered_bounded(c, section_name(0), section_owners(d, 0));
    lemma_owners_covered_bounded(c, section_name(1), section_owners(d, 1));
    lemma_owners_covered_bounded(c, section_name(2), section_owners(d, 2));
}

/// The line that reports valid content.
pub open spec fn report_of(covered: nat, total: nat, guides: nat, core_version: Seq<char>) -> Seq<char> {
    "content valid — "@ + decimal_of(covered) + "/"@ + decimal_of(total)
        + " members carry rich content, "@ + decimal_of(guides) + " guide(s), engine core "@
        + core_version
}

/// The line that reports valid content: the coverage, the number of
/// guides and the engine version of the dump.
pub fn validation_report(covered: usize, total: usize, guides: usize, core_version: &str) -> (r: String)
    ensures
        r@ == report_of(covered as nat, total as nat, guides as nat, core_version@),
{
    let mut out = String::new();
    push_str(&mut out, "content valid — ");
    let c = decimal(covered);
    push_str(&mut out, c.as_str());
    push_str(&mut out, "/");
    let t = decimal(total);
    push_str(&mut out, t.as_str());
    push_str(&mut out, " members carry rich content, ");
    let g = decimal(guides);
    push_str(&mut out, g.as_str());
    push_str(&mut out, " guide(s), engine core ");
    push_str(&mut out, core_version);
    out
}


/// Whether `c1` and `c2` give content to the same members of the dump:
/// for every member of every owner of the three sections, both have
/// content for it or neither has.
pub open spec fn same_dump_coverage(c1: Content, c2: Content, d: Dump) -> bool {
    forall|k: int, i: int, j: int|
        0 <= k < 3 && 0 <= i < section_owners(d, k).len() && 0 <= j
            < section_owners(d, k)[i].2.len() ==> (member_of(
            c1,
            section_name(k),
            section_owners(d, k)[i].0,
            (#[trigger] section_owners(d, k)[i].2[j]).name@,
        ) is Some <==> member_of(c2, section_name(k), section_owners(d, k)[i].0, section_owners(d, k)[i].2[j].name@) is Some)
}

proof fn lemma_members_covered_same(c1: Content, c2: Content, section: Seq<char>, owner: Seq<char>, members: Seq<Member>)
    requires
        forall|j: int| 0 <= j < members.len() ==> (member_of(c1, section, owner, (#[trigger] members[j]).name@) is Some
            <==> member_of(c2, section, owner, members[j].name@) is Some),
    ensures
        members_covered(c1, section, owner, members) == members_covered(c2, section, owner, members),
    decreases members.len(),
{
    if members.len() > 0 {
        let prev = members.drop_last();
        assert forall|j: int| 0 <= j < prev.len() implies (member_of(c1, section, owner, (#[trigger] prev[j]).name@) is Some
            <==> member_of(c2, section, owner, prev[j].name@) is Some) by {
            assert(prev[j] == members[j]);
        }
        lemma_members_covered_same(c1, c2, section, owner, prev);
        assert(members.last() == members[members.len() - 1]);
    }
}

proof fn lemma_owners_covered_same(c1: Content, c2: Content, d: Dump, k: int, n: int)
    requires
        0 <= k < 3,
        0 <= n <= section_owners(d, k).len(),
        same_dump_coverage(c1, c2, d),
    ensures
        owners_covered(c1, section_name(k), section_owners(d, k).take(n))
            == owners_covered(c2, section_name(k), section_owners(d, k).take(n)),
    decreases n,
{
    let rows = section_owners(d, k);
    if n > 0 {
        let t = rows.take(n);
        assert(t.drop_last() =~= rows.take(n - 1));
        lemma_owners_covered_same(c1, c2, d, k, n - 1);
        let row = rows[n - 1];
        assert(t.last() == row);
        assert forall|j: int| 0 <= j < row.2.len() implies (member_of(c1, section_name(k), row.0, (#[trigger] row.2[j]).name@) is Some
            <==> member_of(c2, section_name(k), row.0, row.2[j].name@) is Some) by {
            assert(section_owners(d, k)[n - 1].2[j] == row.2[j]);
        }
        lemma_members_covered_same(c1, c2, section_name(k), row.0, row.2);
    }
}

/// Coverage counts only the members of the dump: two contents that give
/// content to the same dump members have the same coverage, whatever
/// else they hold (content for members the dump lacks counts for
/// nothing).
pub proof fn lemma_coverage_counts_dump_members(c1: Content, c2: Content, d: Dump)
    requires
        same_dump_coverage(c1, c2, d),
    ensures
        dump_covered(c1, d) == dump_covered(c2, d),
{
    lemma_owners_covered_same(c1, c2, d, 0, section_owners(d, 0).len() as int);
    lemma_owners_covered_same(c1, c2, d, 1, section_owners(d, 1).len() as int);
    lemma_owners_covered_same(c1, c2, d, 2, section_owners(d, 2).len() as int);
    assert(section_owners(d, 0).take(section_owners(d, 0).len() as int) =~= section_owners(d, 0));
    assert(section_owners(d, 1).take(section_owners(d, 1).len() as int) =~= section_owners(d, 1));
    assert(section_owners(d, 2).take(section_owners(d, 2).len() as int) =~= section_owners(d, 2));
}


proof fn lemma_unknown_params_none(place: Seq<char>, keys: Seq<(String, String)>, names: Seq<Seq<char>>)
    requires
        forall|j: int| 0 <= j < keys.len() ==> names.contains((#[trigger] keys[j]).0@),
    ensures
        unknown_param_errors(place, keys, names).len() == 0,
    decreases keys.len(),
{
    if keys.len() > 0 {
        assert forall|j: int| 0 <= j < keys.drop_last().len() implies names.contains(
            (#[trigger] keys.drop_last()[j]).0@,
        ) by {
            assert(keys.drop_last()[j] == keys[j]);
        }
        lemma_unknown_params_none(place, keys.drop_last(), names);
        assert(names.contains(keys[keys.len() - 1].0@));
    }
}

proof fn lemma_example_errors_none(place: Seq<char>, examples: Seq<Example>)
    requires
        forall|x: int| 0 <= x < examples.len() ==> trim_of((#[trigger] examples[x]).code@).len() > 0,
    ensures
        example_errors(place, examples).len() == 0,
    decreases examples.len(),
{
    if examples.len() > 0 {
        assert forall|x: int| 0 <= x < examples.drop_last().len() implies trim_of(
            (#[trigger] examples.drop_last()[x]).code@,
        ).len() > 0 by {
            assert(examples.drop_last()[x] == examples[x]);
        }
        lemma_example_errors_none(place, examples.drop_last());
        assert(trim_of(examples[examples.len() - 1].code@).len() > 0);
    }
}

/// The content of a member draws no message exactly when the dump has a
/// member of that name on the owner and the content agrees with it:
/// parameter prose only on a signature and only for its parameters,
/// return prose only on a member with at least one return position,
/// and no blank example. In particular return prose is refused exactly
/// on a member whose return positions are absent or empty.
pub proof fn lemma_member_errors_exact(
    section: Seq<char>,
    owner: Seq<char>,
    name: Seq<char>,
    mc: MemberContent,
    members: Seq<Member>,
)
    ensures
        member_errors(section, owner, name, mc, members).len() == 0 <==> (match first_member(
            members,
            name,
        ) {
            Some(m) => member_conforms(m, mc),
            None => false,
        }),
{
    let place = place_of(section, owner, name);
    match first_member(members, name) {
        None => {},
        Some(m) => {
            let pe = param_errors(place, mc, m);
            let re = returns_errors(place, mc, m);
            let ee = example_errors(place, mc.examples@);
            assert(member_errors(section, owner, name, mc, members) == pe + re + ee);
            assert((pe + re + ee).len() == pe.len() + re.len() + ee.len());
            if pe.len() + re.len() + ee.len() == 0 {
                if mc.params@.len() > 0 {
                    lemma_unknown_params_empty(place, mc.params@, param_names(m.params.unwrap()@));
                }
                lemma_example_errors_empty(place, mc.examples@);
            }
            if member_conforms(m, mc) {
                if mc.params@.len() > 0 {
                    lemma_unknown_params_none(place, mc.params@, param_names(m.params.unwrap()@));
                }
                lemma_example_errors_none(place, mc.examples@);
            }
        },
    }
}


/// The members of an owner that carry content are counted whatever
/// their kind: the count is the number of members for which the
/// content holds an entry.
pub proof fn lemma_members_covered_counts_entries(c: Content, section: Seq<char>, owner: Seq<char>, ms: Seq<Member>)
    ensures
        members_covered(c, section, owner, ms) == ms.filter(
            |m: Member| member_of(c, section, owner, m.name@) is Some,
        ).len(),
    decreases ms.len(),
{
    reveal_with_fuel(Seq::filter, 1);
    if ms.len() > 0 {
        lemma_members_covered_counts_entries(c, section, owner, ms.drop_last());
    }
}

proof fn lemma_owners_all_covered(c: Content, d: Dump, k: int, n: int)
    requires
        0 <= k < 3,
        0 <= n <= section_owners(d, k).len(),
        forall|i: int, j: int|
            0 <= i < section_owners(d, k).len() && 0 <= j < section_owners(d, k)[i].2.len() ==> member_of(
                c,
                section_name(k),
                section_owners(d, k)[i].0,
                (#[trigger] section_owners(d, k)[i].2[j]).name@,
            ) is Some,
    ensures
        owners_covered(c, section_name(k), section_owners(d, k).take(n)) == owners_total(
            section_owners(d, k).take(n),
        ),
    decreases n,
{
    let rows = section_owners(d, k);
    if n > 0 {
        let t = rows.take(n);
        assert(t.drop_last() =~= rows.take(n - 1));
        lemma_owners_all_covered(c, d, k, n - 1);
        let row = rows[n - 1];
        assert(t.last() == row);
        lemma_members_covered_counts_entries(c, section_name(k), row.0, row.2);
        let p = |m: Member| member_of(c, section_name(k), row.0, m.name@) is Some;
        assert forall|j: int| 0 <= j < row.2.len() implies p(#[trigger] row.2[j]) by {
            assert(rows[n - 1].2[j] == row.2[j]);
        }
        lemma_filter_all(row.2, p);
    }
}

proof fn lemma_filter_all(s: Seq<Member>, p: spec_fn(Member) -> bool)
    requires
        forall|j: int| 0 <= j < s.len() ==> p(#[trigger] s[j]),
    ensures
        s.filter(p).len() == s.len(),
    decreases s.len(),
{
    reveal_with_fuel(Seq::filter, 1);
    if s.len() > 0 {
        assert forall|j: int| 0 <= j < s.drop_last().len() implies p(#[trigger] s.drop_last()[j]) by {
            assert(s.drop_last()[j] == s[j]);
        }
        lemma_filter_all(s.drop_last(), p);
        assert(p(s[s.len() - 1]));
    }
}

/// Where every member of the dump carries content, of whatever kind
/// (constructors, properties, methods, signals), the coverage counts
/// every member of the dump.
pub proof fn lemma_full_coverage(c: Content, d: Dump)
    requires
        forall|k: int, i: int, j: int|
            0 <= k < 3 && 0 <= i < section_owners(d, k).len() && 0 <= j < section_owners(d, k)[i].2.len()
                ==> member_of(
                c,
                section_name(k),
                section_owners(d, k)[i].0,
                (#[trigger] section_owners(d, k)[i].2[j]).name@,
            ) is Some,
    ensures
        dump_covered(c, d) == dump_total(d),
{
    lemma_owners_all_covered(c, d, 0, section_owners(d, 0).len() as int);
    lemma_owners_all_covered(c, d, 1, section_owners(d, 1).len() as int);
    lemma_owners_all_covered(c, d, 2, section_owners(d, 2).len() as int);
    assert(section_owners(d, 0).take(section_owners(d, 0).len() as int) =~= section_owners(d, 0));
    assert(section_owners(d, 1).take(section_owners(d, 1).len() as int) =~= section_owners(d, 1));
    assert(section_owners(d, 2).take(section_owners(d, 2).len() as int) =~= section_owners(d, 2));
}

} // verus!
