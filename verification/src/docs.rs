//! The content-merged documentation database for luau-lsp: one entry per
//! symbol, with authored prose in place of the typed spellings where it
//! exists. Every entry that lists returns also lists params, and every
//! symbol an entry refers to has an entry of its own.
use vstd::prelude::*;
use crate::content::{Content, MemberContent, member_of};
use crate::dump::{Dump, Member, Param, Return, section_name, section_owners, row_view};
use crate::generate::deref_content;
use crate::keyed::{find_key, has_key, insert_sorted, lookup, sorted_keys, lemma_sorted_lookup};
use crate::text::{
    ascii_lower, ascii_lower_of, copy_str, decimal, decimal_of, push_str, str_eq, trim, trim_end,
    trim_end_of, trim_of,
};

verus! {

/// The definitions-file package name; it matches the engine's emitter
/// and the editor-setup guide.
pub const PACKAGE: &'static str = "@bettervoxel";

/// The published site that `learn_more_link`s point into.
pub const SITE: &'static str = "https://better-voxel.github.io/bettervoxel_scripting_doc/";

/// A parameter reference of an entry: the parameter's name and the
/// symbol of the entry that documents it.
pub struct ParamDoc {
    pub name: String,
    pub documentation: String,
}

/// One entry of the database.
pub struct DocEntry {
    pub documentation: String,
    pub learn_more_link: Option<String>,
    pub code_sample: Option<String>,
    /// Member name to symbol, in ascending name order.
    pub keys: Option<Vec<(String, String)>>,
    pub params: Option<Vec<ParamDoc>>,
    pub returns: Option<Vec<String>>,
}

/// An entry as plain values.
pub struct EntryView {
    pub documentation: Seq<char>,
    pub learn_more_link: Option<Seq<char>>,
    pub code_sample: Option<Seq<char>>,
    pub keys: Option<Map<Seq<char>, Seq<char>>>,
    pub params: Option<Seq<(Seq<char>, Seq<char>)>>,
    pub returns: Option<Seq<Seq<char>>>,
}

/// Whether a map has some key.
pub open spec fn map_nonempty(m: Map<Seq<char>, Seq<char>>) -> bool {
    exists|k: Seq<char>| m.dom().contains(k)
}

/// A map held as key-value pairs, the first pair of a key giving its
/// value.
pub open spec fn pairs_map(s: Seq<(String, String)>) -> Map<Seq<char>, Seq<char>> {
    Map::new(|k: Seq<char>| has_key(s, k), |k: Seq<char>| lookup(s, k).unwrap()@)
}

/// A parameter reference as plain values.
pub open spec fn param_doc_view(p: ParamDoc) -> (Seq<char>, Seq<char>) {
    (p.name@, p.documentation@)
}

/// An optional text as plain values.
pub open spec fn opt_text(o: Option<String>) -> Option<Seq<char>> {
    match o {
        Some(s) => Some(s@),
        None => None,
    }
}

/// An entry as plain values.
pub open spec fn entry_view(e: DocEntry) -> EntryView {
    EntryView {
        documentation: e.documentation@,
        learn_more_link: opt_text(e.learn_more_link),
        code_sample: opt_text(e.code_sample),
        keys: match e.keys {
            Some(ks) => Some(pairs_map(ks@)),
            None => None,
        },
        params: match e.params {
            Some(ps) => Some(ps@.map_values(|p: ParamDoc| param_doc_view(p))),
            None => None,
        },
        returns: match e.returns {
            Some(rs) => Some(rs@.map_values(|r: String| r@)),
            None => None,
        },
    }
}

/// The database held as symbol-entry pairs, as a map.
pub open spec fn db_view(s: Seq<(String, DocEntry)>) -> Map<Seq<char>, EntryView> {
    Map::new(|k: Seq<char>| has_key(s, k), |k: Seq<char>| entry_view(lookup(s, k).unwrap()))
}

/// An entry that carries documentation only.
pub open spec fn doc_only(text: Seq<char>) -> EntryView {
    EntryView {
        documentation: text,
        learn_more_link: None,
        code_sample: None,
        keys: None,
        params: None,
        returns: None,
    }
}

/// Whether the entry `e` lists returns only beside params, and refers
/// only to symbols of `dom`.
pub open spec fn refs_ok(e: EntryView, dom: Set<Seq<char>>) -> bool {
    &&& (e.returns is Some ==> e.params is Some)
    &&& match e.keys {
        Some(ks) => forall|k: Seq<char>| #[trigger] ks.dom().contains(k) ==> dom.contains(ks[k]),
        None => true,
    }
    &&& match e.returns {
        Some(rs) => forall|i: int| 0 <= i < rs.len() ==> dom.contains(#[trigger] rs[i]),
        None => true,
    }
    &&& match e.params {
        Some(ps) => forall|i: int| 0 <= i < ps.len() ==> dom.contains(#[trigger] ps[i].1),
        None => true,
    }
}

/// Whether every entry of the database lists returns only beside
/// params and refers only to symbols that have entries.
pub open spec fn docs_closed(db: Map<Seq<char>, EntryView>) -> bool {
    forall|k: Seq<char>| #[trigger] db.dom().contains(k) ==> refs_ok(db[k], db.dom())
}

/// The prose for a parameter: the authored prose, trimmed, or the
/// typed spelling.
pub open spec fn param_prose(mc: Option<MemberContent>, p: Param) -> Seq<char> {
    match mc {
        Some(c) => match lookup(c.params@, p.name@) {
            Some(s) => trim_of(s@),
            None => "`"@ + p.name@ + ": "@ + p.ty@ + "`"@,
        },
        None => "`"@ + p.name@ + ": "@ + p.ty@ + "`"@,
    }
}

/// The prose for return position `i`: the authored return prose,
/// trimmed, for the first position, else the typed spelling.
pub open spec fn return_prose(mc: Option<MemberContent>, i: int, r: Return) -> Seq<char> {
    match mc {
        Some(c) => match c.returns {
            Some(s) => if i == 0 {
                trim_of(s@)
            } else {
                "`"@ + r.ty@ + "`"@
            },
            None => "`"@ + r.ty@ + "`"@,
        },
        None => "`"@ + r.ty@ + "`"@,
    }
}

/// The symbol of parameter `i` of the member `symbol`.
pub open spec fn param_symbol(symbol: Seq<char>, i: int) -> Seq<char> {
    symbol + "/param/"@ + decimal_of(i as nat)
}

/// The symbol of return position `i` of the member `symbol`.
pub open spec fn return_symbol(symbol: Seq<char>, i: int) -> Seq<char> {
    symbol + "/return/"@ + decimal_of(i as nat)
}

/// `db` with an entry for each parameter of `params`.
pub open spec fn with_param_entries(
    db: Map<Seq<char>, EntryView>,
    symbol: Seq<char>,
    params: Seq<Param>,
    mc: Option<MemberContent>,
) -> Map<Seq<char>, EntryView>
    decreases params.len(),
{
    if params.len() == 0 {
        db
    } else {
        let i = params.len() - 1;
        with_param_entries(db, symbol, params.drop_last(), mc).insert(
            param_symbol(symbol, i),
            doc_only(param_prose(mc, params.last())),
        )
    }
}

/// `db` with an entry for each return position of `rets`.
pub open spec fn with_return_entries(
    db: Map<Seq<char>, EntryView>,
    symbol: Seq<char>,
    rets: Seq<Return>,
    mc: Option<MemberContent>,
) -> Map<Seq<char>, EntryView>
    decreases rets.len(),
{
    if rets.len() == 0 {
        db
    } else {
        let i = rets.len() - 1;
        with_return_entries(db, symbol, rets.drop_last(), mc).insert(
            return_symbol(symbol, i),
            doc_only(return_prose(mc, i, rets.last())),
        )
    }
}

/// The return positions of a member.
pub open spec fn returns_of(m: Member) -> Seq<Return> {
    match m.returns {
        Some(rs) => rs@,
        None => Seq::empty(),
    }
}

/// The documentation text of a member: its summary, and its remarks
/// after a blank line where it has some.
pub open spec fn member_documentation(m: Member, mc: Option<MemberContent>) -> Seq<char> {
    match mc {
        Some(c) => match c.remarks {
            Some(r) => m.summary@ + "\n\n"@ + trim_of(r@),
            None => m.summary@,
        },
        None => m.summary@,
    }
}

/// The code sample of a member: its first example's code, without
/// trailing whitespace.
pub open spec fn member_sample(mc: Option<MemberContent>) -> Option<Seq<char>> {
    match mc {
        Some(c) => if c.examples@.len() > 0 {
            Some(trim_end_of(c.examples@[0].code@))
        } else {
            None
        },
        None => None,
    }
}

/// The entry of a member under `symbol` on the page `page`.
pub open spec fn member_entry(symbol: Seq<char>, m: Member, mc: Option<MemberContent>, page: Seq<char>) -> EntryView {
    EntryView {
        documentation: member_documentation(m, mc),
        learn_more_link: Some(page + "#"@ + ascii_lower_of(m.name@)),
        code_sample: member_sample(mc),
        keys: None,
        params: match m.params {
            Some(ps) => Some(
                Seq::new(ps@.len(), |i: int| (ps@[i].name@, param_symbol(symbol, i))),
            ),
            None => None,
        },
        returns: match m.params {
            Some(_) => Some(Seq::new(returns_of(m).len(), |i: int| return_symbol(symbol, i))),
            None => None,
        },
    }
}

/// `db` with the entries of a member: one per parameter and return
/// position where it has a signature, then its own.
pub open spec fn with_member_docs(
    db: Map<Seq<char>, EntryView>,
    symbol: Seq<char>,
    m: Member,
    mc: Option<MemberContent>,
    page: Seq<char>,
) -> Map<Seq<char>, EntryView> {
    let subs = match m.params {
        Some(ps) => with_return_entries(
            with_param_entries(db, symbol, ps@, mc),
            symbol,
            returns_of(m),
            mc,
        ),
        None => db,
    };
    subs.insert(symbol, member_entry(symbol, m, mc, page))
}

/// The database, the members-to-symbols keys and the constructors-to-
/// symbols statics of an owner after its members `ms`.
pub open spec fn owner_members_docs(
    db: Map<Seq<char>, EntryView>,
    section: Seq<char>,
    name: Seq<char>,
    page: Seq<char>,
    ms: Seq<Member>,
    c: Content,
) -> (Map<Seq<char>, EntryView>, Map<Seq<char>, Seq<char>>, Map<Seq<char>, Seq<char>>)
    decreases ms.len(),
{
    if ms.len() == 0 {
        (db, Map::empty(), Map::empty())
    } else {
        let prev = owner_members_docs(db, section, name, page, ms.drop_last(), c);
        let m = ms.last();
        let mc = member_of(c, section, name, m.name@);
        if m.kind@ == "Static"@ {
            let symbol = PACKAGE@ + "/global/"@ + name + "."@ + m.name@;
            (
                with_member_docs(prev.0, symbol, m, mc, page),
                prev.1,
                prev.2.insert(m.name@, symbol),
            )
        } else {
            let symbol = PACKAGE@ + "/globaltype/"@ + name + "."@ + m.name@;
            (
                with_member_docs(prev.0, symbol, m, mc, page),
                prev.1.insert(m.name@, symbol),
                prev.2,
            )
        }
    }
}

/// The page of owner `name` in `section` on the published site.
pub open spec fn page_of(section: Seq<char>, name: Seq<char>) -> Seq<char> {
    SITE@ + section + "/"@ + name + ".html"@
}

/// The database and the constructor tables after one owner.
pub open spec fn owner_docs(
    state: (Map<Seq<char>, EntryView>, Map<Seq<char>, EntryView>),
    section: Seq<char>,
    row: (Seq<char>, Seq<char>, Seq<Member>),
    c: Content,
) -> (Map<Seq<char>, EntryView>, Map<Seq<char>, EntryView>) {
    let name = row.0;
    let page = page_of(section, name);
    let after = owner_members_docs(state.0, section, name, page, row.2, c);
    let type_entry = EntryView {
        documentation: row.1,
        learn_more_link: Some(page),
        code_sample: None,
        keys: if map_nonempty(after.1) {
            Some(after.1)
        } else {
            None
        },
        params: None,
        returns: None,
    };
    let db = after.0.insert(PACKAGE@ + "/globaltype/"@ + name, type_entry);
    let tables = if map_nonempty(after.2) {
        state.1.insert(
            PACKAGE@ + "/global/"@ + name,
            EntryView {
                documentation: "The "@ + name + " constructors — see the "@ + name + " page."@,
                learn_more_link: Some(page),
                code_sample: None,
                keys: Some(after.2),
                params: None,
                returns: None,
            },
        )
    } else {
        state.1
    };
    (db, tables)
}

/// The database and the constructor tables after the owners `rows` of
/// `section`.
pub open spec fn rows_docs(
    state: (Map<Seq<char>, EntryView>, Map<Seq<char>, EntryView>),
    section: Seq<char>,
    rows: Seq<(Seq<char>, Seq<char>, Seq<Member>)>,
    c: Content,
) -> (Map<Seq<char>, EntryView>, Map<Seq<char>, EntryView>)
    decreases rows.len(),
{
    if rows.len() == 0 {
        state
    } else {
        owner_docs(rows_docs(state, section, rows.drop_last(), c), section, rows.last(), c)
    }
}

/// The database and the constructor tables after every owner of the
/// first `k` sections.
pub open spec fn sections_upto(d: Dump, c: Content, k: nat) -> (Map<Seq<char>, EntryView>, Map<Seq<char>, EntryView>)
    decreases k,
{
    if k == 0 {
        (Map::empty(), Map::empty())
    } else {
        rows_docs(
            sections_upto(d, c, (k - 1) as nat),
            section_name(k - 1),
            section_owners(d, k - 1),
            c,
        )
    }
}

/// The entry of one of the fixed globals.
pub open spec fn global_entry(text: Seq<char>, page: Seq<char>) -> EntryView {
    EntryView {
        documentation: text,
        learn_more_link: Some(SITE@ + page),
        code_sample: None,
        keys: None,
        params: None,
        returns: None,
    }
}

/// The whole database: the owners' entries, the constructor tables over
/// them, and the fixed globals.
pub open spec fn docs_db(d: Dump, c: Content) -> Map<Seq<char>, EntryView> {
    let s = sections_upto(d, c, 3);
    s.0.union_prefer_right(s.1).insert(
        PACKAGE@ + "/global/"@ + "workspace"@,
        global_entry(
            "The Workspace root — the container every world object lives under."@,
            "classes/Workspace.html"@,
        ),
    ).insert(
        PACKAGE@ + "/global/"@ + "game"@,
        global_entry(
            "The DataModel: `game:GetService(name)` hands out the engine services."@,
            "services/DataModel.html"@,
        ),
    ).insert(
        PACKAGE@ + "/global/"@ + "script"@,
        global_entry(
            "The running script's own Instance — `script.Parent` navigates from it."@,
            "classes/Instance.html"@,
        ),
    ).insert(
        PACKAGE@ + "/global/"@ + "Enum"@,
        global_entry("The enum families; every item is an EnumItem."@, "enums.html"@),
    ).insert(
        PACKAGE@ + "/global/"@ + "warn"@,
        global_entry(
            "Prints its arguments to the output as a warning (an engine global — plain Luau has no `warn`)."@,
            "globals.html"@,
        ),
    )
}

/// Whether the database is held with its symbols, and each entry's
/// keys, in ascending order.
pub open spec fn db_wf(s: Seq<(String, DocEntry)>) -> bool {
    &&& sorted_keys(s)
    &&& forall|i: int|
        0 <= i < s.len() ==> match (#[trigger] s[i]).1.keys {
            Some(ks) => sorted_keys(ks@),
            None => true,
        }
}

/// Whether every entry of `tables` refers only to symbols of `dom`.
pub open spec fn tables_ok(tables: Map<Seq<char>, EntryView>, dom: Set<Seq<char>>) -> bool {
    forall|k: Seq<char>| #[trigger] tables.dom().contains(k) ==> refs_ok(tables[k], dom)
}

/// Whether the keys of an entry are held in ascending order.
pub open spec fn entry_wf(e: DocEntry) -> bool {
    match e.keys {
        Some(ks) => sorted_keys(ks@),
        None => true,
    }
}

proof fn lemma_refs_mono(e: EntryView, d1: Set<Seq<char>>, d2: Set<Seq<char>>)
    requires
        refs_ok(e, d1),
        d1.subset_of(d2),
    ensures
        refs_ok(e, d2),
{
}

proof fn lemma_closed_insert(db: Map<Seq<char>, EntryView>, k: Seq<char>, e: EntryView)
    requires
        refs_ok(e, db.dom().insert(k)),
    ensures
        docs_closed(db) ==> docs_closed(db.insert(k, e)),
        db.dom().subset_of(db.insert(k, e).dom()),
{
    let n = db.insert(k, e);
    if docs_closed(db) {
    assert forall|x: Seq<char>| #[trigger] n.dom().contains(x) implies refs_ok(n[x], n.dom()) by {
        if x != k {
            lemma_refs_mono(db[x], db.dom(), n.dom());
        }
    }
    }
}

proof fn lemma_tables_mono(t: Map<Seq<char>, EntryView>, d1: Set<Seq<char>>, d2: Set<Seq<char>>)
    requires
        d1.subset_of(d2),
    ensures
        tables_ok(t, d1) ==> tables_ok(t, d2),
{
    if tables_ok(t, d1) {
    assert forall|k: Seq<char>| #[trigger] t.dom().contains(k) implies refs_ok(t[k], d2) by {
        lemma_refs_mono(t[k], d1, d2);
    }
    }
}

/// The view of a sorted database after one more pair.
proof fn lemma_db_view_take(s: Seq<(String, DocEntry)>, i: int)
    requires
        sorted_keys(s),
        0 <= i < s.len(),
    ensures
        db_view(s.take(i + 1)) == db_view(s.take(i)).insert(s[i].0@, entry_view(s[i].1)),
{
    let a = s.take(i);
    let b = s.take(i + 1);
    assert(sorted_keys(a));
    assert(sorted_keys(b));
    lemma_sorted_lookup(b, i);
    assert forall|x: Seq<char>| x != s[i].0@ implies has_key(b, x) == has_key(a, x) && (has_key(
        a,
        x,
    ) ==> lookup(b, x) == lookup(a, x)) by {
        if has_key(b, x) {
            let w = choose|w: int| 0 <= w < b.len() && #[trigger] b[w].0@ == x;
            assert(w != i);
            assert(a[w] == b[w]);
            lemma_sorted_lookup(a, w);
            lemma_sorted_lookup(b, w);
        }
        if has_key(a, x) {
            let w = choose|w: int| 0 <= w < a.len() && #[trigger] a[w].0@ == x;
            assert(a[w] == b[w]);
        }
    }
    assert(db_view(b) =~= db_view(a).insert(s[i].0@, entry_view(s[i].1)));
}

/// Puts `e` under `key` into the database.
#[verifier::spinoff_prover]
fn insert_entry(db: &mut Vec<(String, DocEntry)>, key: String, e: DocEntry)
    requires
        db_wf(old(db)@),
        entry_wf(e),
    ensures
        db_wf(final(db)@),
        db_view(final(db)@) == db_view(old(db)@).insert(key@, entry_view(e)),
{
    let ghost k = key@;
    let ghost ev = entry_view(e);
    let ghost ee = e;
    let ghost old_s = db@;
    insert_sorted(db, key, e);
    assert forall|x: Seq<char>| has_key(db@, x) == (x == k || has_key(old_s, x)) by {
        assert(lookup(db@, x) == if x == k {
            Some(ee)
        } else {
            lookup(old_s, x)
        });
    }
    assert forall|x: Seq<char>| has_key(db@, x) implies entry_view(lookup(db@, x).unwrap()) == (
    if x == k {
        ev
    } else {
        entry_view(lookup(old_s, x).unwrap())
    }) by {
        assert(lookup(db@, x) == if x == k {
            Some(ee)
        } else {
            lookup(old_s, x)
        });
    }
    assert(db_view(db@) =~= db_view(old_s).insert(k, ev));
    assert forall|i: int| 0 <= i < db@.len() implies match (#[trigger] db@[i]).1.keys {
        Some(ks) => sorted_keys(ks@),
        None => true,
    } by {
        crate::keyed::lemma_sorted_lookup(db@, i);
        let x = db@[i].0@;
        assert(lookup(db@, x) == if x == k {
            Some(ee)
        } else {
            lookup(old_s, x)
        });
        if x != k {
            crate::keyed::lemma_has_key_first(old_s, x);
            let w = crate::keyed::first_index(old_s, x);
            assert(old_s[w].1 == db@[i].1);
        }
    }
}

/// Puts `value` under `key` into a keys map.
fn insert_key(ks: &mut Vec<(String, String)>, key: String, value: String)
    requires
        sorted_keys(old(ks)@),
    ensures
        sorted_keys(final(ks)@),
        pairs_map(final(ks)@) == pairs_map(old(ks)@).insert(key@, value@),
        final(ks)@.len() > 0,
{
    let ghost k = key@;
    let ghost v = value;
    let ghost old_s = ks@;
    insert_sorted(ks, key, value);
    assert forall|x: Seq<char>| has_key(ks@, x) == (x == k || has_key(old_s, x)) by {
        assert(lookup(ks@, x) == if x == k {
            Some(v)
        } else {
            lookup(old_s, x)
        });
    }
    assert forall|x: Seq<char>| has_key(ks@, x) implies lookup(ks@, x).unwrap()@ == (if x == k {
        v@
    } else {
        lookup(old_s, x).unwrap()@
    }) by {
        assert(lookup(ks@, x) == if x == k {
            Some(v)
        } else {
            lookup(old_s, x)
        });
    }
    assert(pairs_map(ks@) =~= pairs_map(old_s).insert(k, v@));
    assert(has_key(ks@, k));
}

/// The symbol of entry `i` of kind `kind` (`/param/` or `/return/`) of
/// the member `symbol`.
fn sub_symbol(symbol: &str, kind: &str, i: usize) -> (r: String)
    ensures
        r@ == symbol@ + kind@ + decimal_of(i as nat),
{
    let mut s = copy_str(symbol);
    push_str(&mut s, kind);
    let d = decimal(i);
    push_str(&mut s, d.as_str());
    s
}

/// An entry that carries documentation only.
fn doc_entry(text: String) -> (r: DocEntry)
    ensures
        entry_view(r) == doc_only(text@),
        entry_wf(r),
{
    DocEntry {
        documentation: text,
        learn_more_link: None,
        code_sample: None,
        keys: None,
        params: None,
        returns: None,
    }
}

/// The typed spelling of a parameter.
fn typed_param(p: &Param) -> (r: String)
    ensures
        r@ == "`"@ + p.name@ + ": "@ + p.ty@ + "`"@,
{
    let mut s = String::new();
    push_str(&mut s, "`");
    push_str(&mut s, p.name.as_str());
    push_str(&mut s, ": ");
    push_str(&mut s, p.ty.as_str());
    push_str(&mut s, "`");
    s
}

/// The typed spelling of a return position.
fn typed_return(r: &Return) -> (t: String)
    ensures
        t@ == "`"@ + r.ty@ + "`"@,
{
    let mut s = String::new();
    push_str(&mut s, "`");
    push_str(&mut s, r.ty.as_str());
    push_str(&mut s, "`");
    s
}

fn param_prose_exec(content: Option<&MemberContent>, p: &Param) -> (r: String)
    ensures
        r@ == param_prose(deref_content(content), *p),
{
    match content {
        Some(c) => match find_key(&c.params, p.name.as_str()) {
            Some(x) => trim(c.params[x].1.as_str()),
            None => typed_param(p),
        },
        None => typed_param(p),
    }
}

fn return_prose_exec(content: Option<&MemberContent>, i: usize, r: &Return) -> (t: String)
    ensures
        t@ == return_prose(deref_content(content), i as int, *r),
{
    match content {
        Some(c) => match &c.returns {
            Some(s) => if i == 0 {
                trim(s.as_str())
            } else {
                typed_return(r)
            },
            None => typed_return(r),
        },
        None => typed_return(r),
    }
}

/// Adds the entries of one member to the database: one per parameter
/// and return position where the member has a signature, then its own
/// under `symbol`.
#[verifier::spinoff_prover]
pub fn push_member_docs(
    db: &mut Vec<(String, DocEntry)>,
    symbol: &str,
    member: &Member,
    content: Option<&MemberContent>,
    page: &str,
)
    requires
        db_wf(old(db)@),
    ensures
        db_wf(final(db)@),
        docs_closed(db_view(old(db)@)) ==> docs_closed(db_view(final(db)@)),
        db_view(final(db)@) == with_member_docs(
            db_view(old(db)@),
            symbol@,
            *member,
            deref_content(content),
            page@,
        ),
        db_view(old(db)@).dom().subset_of(db_view(final(db)@).dom()),
{
    let ghost mc = deref_content(content);
    let ghost start = db_view(db@);
    let documentation = match content {
        Some(c) => match &c.remarks {
            Some(r) => {
                let mut d = copy_str(member.summary.as_str());
                push_str(&mut d, "\n\n");
                let t = trim(r.as_str());
                push_str(&mut d, t.as_str());
                d
            },
            None => copy_str(member.summary.as_str()),
        },
        None => copy_str(member.summary.as_str()),
    };
    let mut link = copy_str(page);
    push_str(&mut link, "#");
    let lower = ascii_lower(member.name.as_str());
    push_str(&mut link, lower.as_str());
    let sample = match content {
        Some(c) => if c.examples.len() > 0 {
            Some(trim_end(c.examples[0].code.as_str()))
        } else {
            None
        },
        None => None,
    };
    let mut params_field: Option<Vec<ParamDoc>> = None;
    let mut returns_field: Option<Vec<String>> = None;
    match &member.params {
        None => {},
        Some(ps) => {
            let mut refs: Vec<ParamDoc> = Vec::new();
            let mut i: usize = 0;
            while i < ps.len()
                invariant
                    i <= ps.len(),
                    db_wf(db@),
                    docs_closed(start) ==> docs_closed(db_view(db@)),
                    start.dom().subset_of(db_view(db@).dom()),
                    db_view(db@) == with_param_entries(start, symbol@, ps@.take(i as int), mc),
                    refs@.map_values(|p: ParamDoc| param_doc_view(p)) == Seq::new(
                        i as nat,
                        |j: int| (ps@[j].name@, param_symbol(symbol@, j)),
                    ),
                    forall|j: int|
                        0 <= j < i ==> db_view(db@).dom().contains(
                            #[trigger] param_symbol(symbol@, j),
                        ),
                    mc == deref_content(content),
                decreases ps.len() - i,
            {
                let p = &ps[i];
                let sub = sub_symbol(symbol, "/param/", i);
                let prose = param_prose_exec(content, p);
                let doc = copy_str(sub.as_str());
                let pd = ParamDoc { name: p.name.clone(), documentation: doc };
                let ghost before_refs = refs@;
                refs.push(pd);
                proof {
                    before_refs.lemma_push_map_commute(|p: ParamDoc| param_doc_view(p), pd);
                }
                assert(refs@.map_values(|p: ParamDoc| param_doc_view(p)) =~= Seq::new(
                    (i + 1) as nat,
                    |j: int| (ps@[j].name@, param_symbol(symbol@, j)),
                ));
                let ghost before = db_view(db@);
                let entry = doc_entry(prose);
                proof {
                    lemma_closed_insert(before, sub@, doc_only(prose@));
                }
                insert_entry(db, sub, entry);
                assert(ps@.take(i + 1).drop_last() =~= ps@.take(i as int));
                assert(ps@.take(i + 1).last() == *p);
                i = i + 1;
            }
            assert(ps@.take(i as int) =~= ps@);
            let ghost after_params = db_view(db@);
            let empty: Vec<Return> = Vec::new();
            let rs = match &member.returns {
                Some(rs) => rs,
                None => &empty,
            };
            assert(rs@ == returns_of(*member));
            let mut rets: Vec<String> = Vec::new();
            let mut j: usize = 0;
            while j < rs.len()
                invariant
                    j <= rs.len(),
                    db_wf(db@),
                    docs_closed(start) ==> docs_closed(db_view(db@)),
                    after_params.dom().subset_of(db_view(db@).dom()),
                    start.dom().subset_of(after_params.dom()),
                    db_view(db@) == with_return_entries(after_params, symbol@, rs@.take(j as int), mc),
                    rets@.map_values(|r: String| r@) == Seq::new(
                        j as nat,
                        |q: int| return_symbol(symbol@, q),
                    ),
                    forall|q: int|
                        0 <= q < j ==> db_view(db@).dom().contains(
                            #[trigger] return_symbol(symbol@, q),
                        ),
                    forall|q: int|
                        0 <= q < ps.len() ==> after_params.dom().contains(
                            #[trigger] param_symbol(symbol@, q),
                        ),
                    mc == deref_content(content),
                decreases rs.len() - j,
            {
                let r = &rs[j];
                let sub = sub_symbol(symbol, "/return/", j);
                let prose = return_prose_exec(content, j, r);
                let name = copy_str(sub.as_str());
                let ghost before_rets = rets@;
                rets.push(name);
                proof {
                    before_rets.lemma_push_map_commute(|r: String| r@, name);
                }
                assert(rets@.map_values(|r: String| r@) =~= Seq::new(
                    (j + 1) as nat,
                    |q: int| return_symbol(symbol@, q),
                ));
                let ghost before = db_view(db@);
                let entry = doc_entry(prose);
                proof {
                    lemma_closed_insert(before, sub@, doc_only(prose@));
                }
                insert_entry(db, sub, entry);
                assert(rs@.take(j + 1).drop_last() =~= rs@.take(j as int));
                assert(rs@.take(j + 1).last() == *r);
                j = j + 1;
            }
            assert(rs@.take(j as int) =~= rs@);
            params_field = Some(refs);
            returns_field = Some(rets);
        },
    }
    let entry = DocEntry {
        documentation,
        learn_more_link: Some(link),
        code_sample: sample,
        keys: None,
        params: params_field,
        returns: returns_field,
    };
    let ghost before = db_view(db@);
    assert(entry_view(entry) == member_entry(symbol@, *member, mc, page@)) by {
        assert(entry_view(entry).params =~= member_entry(symbol@, *member, mc, page@).params);
        assert(entry_view(entry).returns =~= member_entry(symbol@, *member, mc, page@).returns);
    }
    proof {
        lemma_closed_insert(before, symbol@, entry_view(entry));
    }
    let key = copy_str(symbol);
    insert_entry(db, key, entry);
}

/// A member's symbol: the package, `/global/` for constructors or
/// `/globaltype/` for the rest, the owner and the member.
fn member_symbol(kind: &str, owner: &str, member: &str) -> (r: String)
    ensures
        r@ == PACKAGE@ + kind@ + owner@ + "."@ + member@,
{
    let mut s = copy_str(PACKAGE);
    push_str(&mut s, kind);
    push_str(&mut s, owner);
    push_str(&mut s, ".");
    push_str(&mut s, member);
    s
}

/// Whether every value of a keys map is a symbol of `dom`.
pub open spec fn values_in(m: Map<Seq<char>, Seq<char>>, dom: Set<Seq<char>>) -> bool {
    forall|k: Seq<char>| #[trigger] m.dom().contains(k) ==> dom.contains(m[k])
}

/// Adds the entries of one owner to the database, and its constructor
/// table, if it has constructors, to `tables`.
#[verifier::spinoff_prover]
pub fn push_owner_docs(
    db: &mut Vec<(String, DocEntry)>,
    tables: &mut Vec<(String, DocEntry)>,
    section: &str,
    name: &str,
    summary: &str,
    members: &[Member],
    content: &Content,
)
    requires
        db_wf(old(db)@),
        db_wf(old(tables)@),
    ensures
        db_wf(final(db)@),
        docs_closed(db_view(old(db)@)) ==> docs_closed(db_view(final(db)@)),
        db_wf(final(tables)@),
        tables_ok(db_view(old(tables)@), db_view(old(db)@).dom()) ==> tables_ok(
            db_view(final(tables)@),
            db_view(final(db)@).dom(),
        ),
        db_view(old(db)@).dom().subset_of(db_view(final(db)@).dom()),
        (db_view(final(db)@), db_view(final(tables)@)) == owner_docs(
            (db_view(old(db)@), db_view(old(tables)@)),
            section@,
            (name@, summary@, members@),
            *content,
        ),
{
    let ghost start = db_view(db@);
    let ghost t0 = db_view(tables@);
    let mut page = copy_str(SITE);
    push_str(&mut page, section);
    push_str(&mut page, "/");
    push_str(&mut page, name);
    push_str(&mut page, ".html");
    assert(page@ == page_of(section@, name@));
    let mut keys: Vec<(String, String)> = Vec::new();
    let mut statics: Vec<(String, String)> = Vec::new();
    let mut i: usize = 0;
    while i < members.len()
        invariant
            i <= members@.len(),
            db_wf(db@),
            docs_closed(start) ==> docs_closed(db_view(db@)),
            start.dom().subset_of(db_view(db@).dom()),
            sorted_keys(keys@),
            sorted_keys(statics@),
            values_in(pairs_map(keys@), db_view(db@).dom()),
            values_in(pairs_map(statics@), db_view(db@).dom()),
            tables@ == old(tables)@,
            (db_view(db@), pairs_map(keys@), pairs_map(statics@)) == owner_members_docs(
                start,
                section@,
                name@,
                page@,
                members@.take(i as int),
                *content,
            ),
        decreases members.len() - i,
    {
        let m = &members[i];
        assert(members@.take(i + 1).drop_last() =~= members@.take(i as int));
        assert(members@.take(i + 1).last() == *m);
        let mc = content.member(section, name, m.name.as_str());
        if str_eq(m.kind.as_str(), "Static") {
            let symbol = member_symbol("/global/", name, m.name.as_str());
            push_member_docs(db, symbol.as_str(), m, mc, page.as_str());
            let ghost pk = pairs_map(keys@);
            assert(values_in(pk, db_view(db@).dom()));
            insert_key(&mut statics, m.name.clone(), symbol);
        } else {
            let symbol = member_symbol("/globaltype/", name, m.name.as_str());
            push_member_docs(db, symbol.as_str(), m, mc, page.as_str());
            let ghost ps = pairs_map(statics@);
            assert(values_in(ps, db_view(db@).dom()));
            insert_key(&mut keys, m.name.clone(), symbol);
        }
        i = i + 1;
    }
    assert(members@.take(i as int) =~= members@);
    let ghost after = owner_members_docs(start, section@, name@, page@, members@, *content);
    let has_keys = keys.len() > 0;
    let has_statics = statics.len() > 0;
    assert(has_keys == map_nonempty(after.1)) by {
        if keys@.len() > 0 {
            assert(pairs_map(keys@).dom().contains(keys@[0].0@));
        } else {
            assert forall|k: Seq<char>| !pairs_map(keys@).dom().contains(k) by {}
        }
    }
    assert(has_statics == map_nonempty(after.2)) by {
        if statics@.len() > 0 {
            assert(pairs_map(statics@).dom().contains(statics@[0].0@));
        } else {
            assert forall|k: Seq<char>| !pairs_map(statics@).dom().contains(k) by {}
        }
    }
    let type_entry = DocEntry {
        documentation: copy_str(summary),
        learn_more_link: Some(copy_str(page.as_str())),
        code_sample: None,
        keys: if has_keys {
            Some(keys)
        } else {
            None
        },
        params: None,
        returns: None,
    };
    let type_symbol = member_symbol_plain("/globaltype/", name);
    let ghost before_type = db_view(db@);
    proof {
        lemma_closed_insert(before_type, type_symbol@, entry_view(type_entry));
    }
    insert_entry(db, type_symbol, type_entry);
    proof {
        lemma_tables_mono(t0, start.dom(), db_view(db@).dom());
    }
    if has_statics {
        let mut text = String::new();
        push_str(&mut text, "The ");
        push_str(&mut text, name);
        push_str(&mut text, " constructors — see the ");
        push_str(&mut text, name);
        push_str(&mut text, " page.");
        let table = DocEntry {
            documentation: text,
            learn_more_link: Some(page),
            code_sample: None,
            keys: Some(statics),
            params: None,
            returns: None,
        };
        let table_symbol = member_symbol_plain("/global/", name);
        let ghost tb = db_view(tables@);
        insert_entry(tables, table_symbol, table);
        assert(tables_ok(t0, start.dom()) ==> tables_ok(db_view(tables@), db_view(db@).dom())) by {
            if tables_ok(t0, start.dom()) {
            assert forall|k: Seq<char>| #[trigger] db_view(tables@).dom().contains(k) implies refs_ok(
                db_view(tables@)[k],
                db_view(db@).dom(),
            ) by {
                if k != table_symbol@ {
                    assert(tb.dom().contains(k));
                }
            }
            }
        }
    }
}

/// The symbol of an owner: the package, the kind and the owner's name.
fn member_symbol_plain(kind: &str, owner: &str) -> (r: String)
    ensures
        r@ == PACKAGE@ + kind@ + owner@,
{
    let mut s = copy_str(PACKAGE);
    push_str(&mut s, kind);
    push_str(&mut s, owner);
    s
}

/// Adds one of the fixed globals to the database.
fn push_global(db: &mut Vec<(String, DocEntry)>, symbol: &str, text: &str, page: &str)
    requires
        db_wf(old(db)@),
        docs_closed(db_view(old(db)@)),
    ensures
        db_wf(final(db)@),
        docs_closed(db_view(final(db)@)),
        db_view(final(db)@) == db_view(old(db)@).insert(
            PACKAGE@ + "/global/"@ + symbol@,
            global_entry(text@, page@),
        ),
{
    let key = member_symbol_plain("/global/", symbol);
    let mut link = copy_str(SITE);
    push_str(&mut link, page);
    let entry = DocEntry {
        documentation: copy_str(text),
        learn_more_link: Some(link),
        code_sample: None,
        keys: None,
        params: None,
        returns: None,
    };
    proof {
        lemma_closed_insert(db_view(db@), key@, entry_view(entry));
    }
    insert_entry(db, key, entry);
}

/// Builds the documentation database: every owner's member, parameter,
/// return and type entries, the constructor tables over them, and the
/// fixed globals. Every entry that lists returns also lists params, and
/// every symbol an entry refers to has an entry.
#[verifier::spinoff_prover]
pub fn emit_docs_json(dump: &Dump, content: &Content) -> (r: Vec<(String, DocEntry)>)
    ensures
        db_wf(r@),
        db_view(r@) == docs_db(*dump, *content),
        docs_closed(db_view(r@)),
{
    let sections = dump.sections();
    let mut db: Vec<(String, DocEntry)> = Vec::new();
    let mut tables: Vec<(String, DocEntry)> = Vec::new();
    assert(db_view(db@) =~= Map::<Seq<char>, EntryView>::empty());
    assert(db_view(tables@) =~= Map::<Seq<char>, EntryView>::empty());
    let mut k: usize = 0;
    while k < 3
        invariant
            k <= 3,
            forall|q: int|
                0 <= q < 3 ==> {
                    &&& (#[trigger] sections@[q]).0@ == section_name(q)
                    &&& sections@[q].1@.map_values(|row: (&str, &str, &[Member])| row_view(row))
                        == section_owners(*dump, q)
                },
            db_wf(db@),
            docs_closed(db_view(db@)),
            db_wf(tables@),
            tables_ok(db_view(tables@), db_view(db@).dom()),
            (db_view(db@), db_view(tables@)) == sections_upto(*dump, *content, k as nat),
        decreases 3 - k,
    {
        let section = sections[k].0;
        let rows = &sections[k].1;
        let ghost rv = section_owners(*dump, k as int);
        let ghost base = sections_upto(*dump, *content, k as nat);
        let mut i: usize = 0;
        while i < rows.len()
            invariant
                i <= rows.len(),
                rows@.map_values(|row: (&str, &str, &[Member])| row_view(row)) == rv,
                section@ == section_name(k as int),
                db_wf(db@),
                docs_closed(db_view(db@)),
                db_wf(tables@),
                tables_ok(db_view(tables@), db_view(db@).dom()),
                (db_view(db@), db_view(tables@)) == rows_docs(
                    base,
                    section@,
                    rv.take(i as int),
                    *content,
                ),
            decreases rows.len() - i,
        {
            let row = rows[i];
            assert(row_view(rows@[i as int]) == rv[i as int]);
            assert(rv.take(i + 1).drop_last() =~= rv.take(i as int));
            push_owner_docs(&mut db, &mut tables, section, row.0, row.1, row.2, content);
            i = i + 1;
        }
        assert(rv.take(i as int) =~= rv);
        k = k + 1;
    }
    // The constructor tables join the database, each replacing an entry
    // of the same symbol.
    let ghost base = db_view(db@);
    let ghost ts = tables@;
    assert(ts.len() == tables.len());
    assert(sorted_keys(ts));
    let mut rest = tables;
    let mut j: usize = 0;
    assert(ts.skip(0) =~= ts);
    assert(ts.take(0) =~= Seq::<(String, DocEntry)>::empty());
    assert(base.union_prefer_right(db_view(ts.take(0))) =~= base);
    while rest.len() > 0
        invariant
            j <= ts.len(),
            ts.len() <= usize::MAX,
            rest@ == ts.skip(j as int),
            sorted_keys(ts),
            db_wf(ts),
            db_wf(db@),
            docs_closed(db_view(db@)),
            base.dom().subset_of(db_view(db@).dom()),
            tables_ok(db_view(ts), base.dom()),
            db_view(db@) == base.union_prefer_right(db_view(ts.take(j as int))),
        decreases rest.len(),
    {
        let pair = rest.remove(0);
        assert(pair == ts[j as int]);
        assert(ts.skip(j as int).remove(0) =~= ts.skip(j + 1));
        proof {
            lemma_db_view_take(ts, j as int);
            lemma_sorted_lookup(ts, j as int);
            assert(db_view(ts).dom().contains(ts[j as int].0@));
            lemma_refs_mono(entry_view(ts[j as int].1), base.dom(), db_view(db@).dom().insert(
                ts[j as int].0@,
            ));
            lemma_closed_insert(db_view(db@), ts[j as int].0@, entry_view(ts[j as int].1));
        }
        let (key, entry) = pair;
        assert(entry_wf(entry)) by {
            assert(match ts[j as int].1.keys {
                Some(ks) => sorted_keys(ks@),
                None => true,
            });
        }
        insert_entry(&mut db, key, entry);
        assert(db_view(db@) =~= base.union_prefer_right(db_view(ts.take(j + 1))));
        j = j + 1;
    }
    assert(ts.take(j as int) =~= ts);
    push_global(
        &mut db,
        "workspace",
        "The Workspace root — the container every world object lives under.",
        "classes/Workspace.html",
    );
    push_global(
        &mut db,
        "game",
        "The DataModel: `game:GetService(name)` hands out the engine services.",
        "services/DataModel.html",
    );
    push_global(
        &mut db,
        "script",
        "The running script's own Instance — `script.Parent` navigates from it.",
        "classes/Instance.html",
    );
    push_global(&mut db, "Enum", "The enum families; every item is an EnumItem.", "enums.html");
    push_global(
        &mut db,
        "warn",
        "Prints its arguments to the output as a warning (an engine global — plain Luau has no `warn`).",
        "globals.html",
    );
    db
}

/// A member's documentation always starts with its summary from the
/// dump: content only adds remarks after it.
pub proof fn lemma_documentation_keeps_summary(m: Member, mc: Option<MemberContent>)
    ensures
        m.summary@.is_prefix_of(member_documentation(m, mc)),
{
    let doc = member_documentation(m, mc);
    assert(doc.subrange(0, m.summary@.len() as int) =~= m.summary@);
}


/// After a member's entries are added, the member's own entry carries as
/// its code sample the code of the first example of its content, without
/// trailing whitespace, and no code sample where the content has no
/// example or there is no content.
pub proof fn lemma_member_sample_is_first_example(
    db: Map<Seq<char>, EntryView>,
    symbol: Seq<char>,
    m: Member,
    mc: Option<MemberContent>,
    page: Seq<char>,
)
    ensures
        with_member_docs(db, symbol, m, mc, page).dom().contains(symbol),
        with_member_docs(db, symbol, m, mc, page)[symbol].code_sample == match mc {
            Some(c) => if c.examples@.len() > 0 {
                Some(trim_end_of(c.examples@.first().code@))
            } else {
                None::<Seq<char>>
            },
            None => None,
        },
        with_member_docs(db, symbol, m, mc, page)[symbol].documentation == match mc {
            Some(c) => match c.remarks {
                Some(r) => m.summary@ + "\n\n"@ + trim_of(r@),
                None => m.summary@,
            },
            None => m.summary@,
        },
{
}

} // verus!
