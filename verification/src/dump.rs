//! The engine's API dump, typed. The dump is the only interface to the
//! engine: everything the generator and the validator know comes from
//! here. Unknown fields are tolerated by the reader, but an unknown
//! `dump_format` is refused.
use vstd::prelude::*;
use crate::text::{decimal, decimal_of, push_str, str_eq};

verus! {

/// The format this tool understands; the engine bumps its side on any
/// breaking shape change.
pub const SUPPORTED_DUMP_FORMAT: u32 = 1;

/// The whole dump.
pub struct Dump {
    pub dump_format: u32,
    pub core_version: String,
    pub classes: Vec<Class>,
    pub datatypes: Vec<Owner>,
    pub services: Vec<Owner>,
    /// Enum families by name, in ascending name order, each with its items.
    pub enums: Vec<(String, Vec<String>)>,
    pub globals: Vec<String>,
}

/// One class of the tree section: `parent` and `creatable` drive the
/// ancestry chain and the creation line.
pub struct Class {
    pub name: String,
    pub parent: Option<String>,
    pub creatable: bool,
    pub summary: String,
    pub members: Vec<Member>,
}

/// A datatype or service page owner (no tree ancestry).
pub struct Owner {
    pub name: String,
    pub summary: String,
    pub members: Vec<Member>,
}

/// One member. `params` and `returns` are present exactly when the
/// declaration is one signature; `overloads` when it is an intersection;
/// `payloads` on signals.
pub struct Member {
    pub name: String,
    pub kind: String,
    pub decl: String,
    pub summary: String,
    pub params: Option<Vec<Param>>,
    pub returns: Option<Vec<Return>>,
    pub payloads: Option<Vec<String>>,
    pub overloads: Option<Vec<Overload>>,
}

pub struct Param {
    pub name: String,
    pub ty: String,
    pub optional: bool,
}

pub struct Return {
    pub ty: String,
}

pub struct Overload {
    pub params: Vec<Param>,
    pub returns: Vec<Return>,
}

/// The error text for a dump of format `format`.
pub open spec fn format_error_of(format: nat) -> Seq<char> {
    "dump_format "@ + decimal_of(format) + " is not the supported "@ + decimal_of(
        SUPPORTED_DUMP_FORMAT as nat,
    ) + " — update the tool (or the model sync delivered a newer engine's dump)"@
}

/// Whether `i` is the first position of `classes` named `name`.
pub open spec fn is_first_class(classes: Seq<Class>, name: Seq<char>, i: int) -> bool {
    &&& 0 <= i < classes.len()
    &&& classes[i].name@ == name
    &&& forall|j: int| 0 <= j < i ==> #[trigger] classes[j].name@ != name
}

/// The parent of the first class named `name`; none where no class has
/// that name or it has no parent.
pub open spec fn parent_of(classes: Seq<Class>, name: Seq<char>) -> Option<Seq<char>> {
    if exists|i: int| is_first_class(classes, name, i) {
        let i = choose|i: int| is_first_class(classes, name, i);
        match classes[i].parent {
            Some(p) => Some(p@),
            None => None,
        }
    } else {
        None
    }
}

/// Whether following parents up from `name` reaches a class without a
/// parent within `n` steps.
pub open spec fn chain_ends(classes: Seq<Class>, name: Seq<char>, n: nat) -> bool
    decreases n,
{
    match parent_of(classes, name) {
        None => true,
        Some(p) => n > 0 && chain_ends(classes, p, (n - 1) as nat),
    }
}

/// Whether the chain of parents up from `name` ends.
pub open spec fn chain_terminates(classes: Seq<Class>, name: Seq<char>) -> bool {
    exists|n: nat| chain_ends(classes, name, n)
}

/// The ancestors of `name` within `n` steps, root first, the class
/// itself excluded.
pub open spec fn ancestry(classes: Seq<Class>, name: Seq<char>, n: nat) -> Seq<Seq<char>>
    decreases n,
{
    match parent_of(classes, name) {
        None => Seq::empty(),
        Some(p) => if n == 0 {
            Seq::empty()
        } else {
            ancestry(classes, p, (n - 1) as nat).push(p)
        },
    }
}

/// The ancestors of `name`, root first, the class itself excluded.
pub open spec fn ancestors_of(classes: Seq<Class>, name: Seq<char>) -> Seq<Seq<char>> {
    ancestry(classes, name, choose|n: nat| chain_ends(classes, name, n))
}

/// Whether the chain of parents of every class ends (no class is its own
/// ancestor along the chain that lookups by name follow).
pub open spec fn all_chains_terminate(classes: Seq<Class>) -> bool {
    forall|i: int| 0 <= i < classes.len() ==> chain_terminates(classes, #[trigger] classes[i].name@)
}

/// The name of page section `k`.
pub open spec fn section_name(k: int) -> Seq<char> {
    if k == 0 {
        "classes"@
    } else if k == 1 {
        "datatypes"@
    } else {
        "services"@
    }
}

/// An owner as a section lists it: name, summary and members.
pub open spec fn owner_row(o: Owner) -> (Seq<char>, Seq<char>, Seq<Member>) {
    (o.name@, o.summary@, o.members@)
}

/// A class as the classes section lists it.
pub open spec fn class_row(c: Class) -> (Seq<char>, Seq<char>, Seq<Member>) {
    (c.name@, c.summary@, c.members@)
}

/// The owners of page section `k`.
pub open spec fn section_owners(d: Dump, k: int) -> Seq<(Seq<char>, Seq<char>, Seq<Member>)> {
    if k == 0 {
        d.classes@.map_values(|c: Class| class_row(c))
    } else if k == 1 {
        d.datatypes@.map_values(|o: Owner| owner_row(o))
    } else {
        d.services@.map_values(|o: Owner| owner_row(o))
    }
}

/// A section row as its plain values.
pub open spec fn row_view(r: (&str, &str, &[Member])) -> (Seq<char>, Seq<char>, Seq<Member>) {
    (r.0@, r.1@, r.2@)
}

/// Two fuels that both end the chain give the same ancestry.
pub proof fn lemma_ancestry_fuel(classes: Seq<Class>, name: Seq<char>, n: nat, m: nat)
    requires
        chain_ends(classes, name, n),
        chain_ends(classes, name, m),
    ensures
        ancestry(classes, name, n) == ancestry(classes, name, m),
    decreases n,
{
    match parent_of(classes, name) {
        None => {},
        Some(p) => {
            lemma_ancestry_fuel(classes, p, (n - 1) as nat, (m - 1) as nat);
        },
    }
}

/// The chain of a class with a parent ends exactly when the chain of its
/// parent does, one step shorter.
pub proof fn lemma_chain_step(classes: Seq<Class>, name: Seq<char>, p: Seq<char>)
    requires
        parent_of(classes, name) == Some(p),
        chain_terminates(classes, name),
    ensures
        chain_terminates(classes, p),
        ancestors_of(classes, name) == ancestors_of(classes, p).push(p),
{
    let n = choose|n: nat| chain_ends(classes, name, n);
    assert(chain_ends(classes, p, (n - 1) as nat));
    let m = choose|m: nat| chain_ends(classes, p, m);
    lemma_ancestry_fuel(classes, p, (n - 1) as nat, m);
}

/// Of more than `n` integers in `[0, n)`, two are equal.
pub proof fn lemma_pigeonhole(s: Seq<int>, n: int)
    requires
        0 <= n < s.len(),
        forall|i: int| 0 <= i < s.len() ==> 0 <= #[trigger] s[i] < n,
    ensures
        exists|a: int, b: int| 0 <= a < b < s.len() && s[a] == s[b],
{
    if !exists|a: int, b: int| 0 <= a < b < s.len() && s[a] == s[b] {
        assert(s.no_duplicates()) by {
            assert forall|i: int, j: int| 0 <= i < s.len() && 0 <= j < s.len() && i != j implies s[i]
                != s[j] by {
                if i < j {
                    assert(!(s[i] == s[j]));
                } else {
                    assert(!(s[j] == s[i]));
                }
            }
        }
        s.unique_seq_to_set();
        vstd::set_lib::lemma_int_range(0, n);
        assert(s.to_set().subset_of(vstd::set_lib::set_int_range(0, n))) by {
            assert forall|x: int| s.to_set().contains(x) implies vstd::set_lib::set_int_range(
                0,
                n,
            ).contains(x) by {
                let i = choose|i: int| 0 <= i < s.len() && s[i] == x;
                assert(0 <= s[i] < n);
            }
        }
        vstd::set_lib::lemma_len_subset(s.to_set(), vstd::set_lib::set_int_range(0, n));
    }
}

/// The position of the first class named `name`.
pub open spec fn first_class_index(classes: Seq<Class>, name: Seq<char>) -> int {
    choose|i: int| #[trigger] is_first_class(classes, name, i)
}

/// The name `j` steps up the chain of parents from `name`.
pub open spec fn walk(classes: Seq<Class>, name: Seq<char>, j: nat) -> Seq<char>
    decreases j,
{
    if j == 0 {
        name
    } else {
        let below = walk(classes, name, (j - 1) as nat);
        match parent_of(classes, below) {
            Some(p) => p,
            None => below,
        }
    }
}

proof fn lemma_chain_steps(classes: Seq<Class>, name: Seq<char>, x: nat, k: nat, m: nat)
    requires
        chain_ends(classes, walk(classes, name, x), m),
        forall|j: nat| x <= j < x + k ==> parent_of(classes, #[trigger] walk(classes, name, j)) is Some,
    ensures
        m >= k,
        chain_ends(classes, walk(classes, name, x + k), (m - k) as nat),
    decreases k,
{
    if k > 0 {
        lemma_chain_steps(classes, name, x, (k - 1) as nat, m);
        let j = (x + k - 1) as nat;
        assert(parent_of(classes, walk(classes, name, j)) is Some);
        assert(walk(classes, name, x + k) == parent_of(classes, walk(classes, name, j)).unwrap());
    }
}

proof fn lemma_chain_open(classes: Seq<Class>, name: Seq<char>, x: nat, m: nat)
    requires
        !chain_ends(classes, walk(classes, name, x), m),
    ensures
        forall|j: nat| x <= j <= x + m ==> parent_of(classes, #[trigger] walk(classes, name, j)) is Some,
    decreases m,
{
    assert(parent_of(classes, walk(classes, name, x)) is Some);
    if m > 0 {
        assert(walk(classes, name, x + 1) == parent_of(classes, walk(classes, name, x)).unwrap());
        lemma_chain_open(classes, name, x + 1, (m - 1) as nat);
    }
}

proof fn lemma_chain_loops(classes: Seq<Class>, name: Seq<char>, a: nat, b: nat, m: nat)
    requires
        a < b,
        walk(classes, name, a) == walk(classes, name, b),
        forall|j: nat| a <= j < b ==> parent_of(classes, #[trigger] walk(classes, name, j)) is Some,
    ensures
        !chain_ends(classes, walk(classes, name, a), m),
    decreases m,
{
    if chain_ends(classes, walk(classes, name, a), m) {
        lemma_chain_steps(classes, name, a, (b - a) as nat, m);
        assert(a + (b - a) as nat == b);
        lemma_chain_loops(classes, name, a, b, (m - (b - a)) as nat);
    }
}

proof fn lemma_chain_mono(classes: Seq<Class>, name: Seq<char>, m: nat, m2: nat)
    requires
        chain_ends(classes, name, m),
        m <= m2,
    ensures
        chain_ends(classes, name, m2),
    decreases m,
{
    match parent_of(classes, name) {
        None => {},
        Some(p) => {
            lemma_chain_mono(classes, p, (m - 1) as nat, (m2 - 1) as nat);
        },
    }
}

/// A chain of parents that does not end within as many steps as there
/// are classes walks a cycle and never ends.
pub proof fn lemma_chain_cycle(classes: Seq<Class>, name: Seq<char>, m: nat)
    requires
        m >= classes.len(),
        !chain_ends(classes, name, m),
    ensures
        !chain_terminates(classes, name),
{
    let n = classes.len() as nat;
    if chain_ends(classes, name, n) {
        lemma_chain_mono(classes, name, n, m);
    }
    assert(walk(classes, name, 0) == name);
    lemma_chain_open(classes, name, 0, n);
    let idx = Seq::new(
        n + 1,
        |j: int| first_class_index(classes, walk(classes, name, j as nat)),
    );
    assert forall|j: int| 0 <= j < idx.len() implies 0 <= #[trigger] idx[j] < n
        && classes[idx[j]].name@ == walk(classes, name, j as nat) by {
        assert(parent_of(classes, walk(classes, name, j as nat)) is Some);
    }
    lemma_pigeonhole(idx, n as int);
    let (a, b) = choose|a: int, b: int| 0 <= a < b < idx.len() && idx[a] == idx[b];
    assert(walk(classes, name, a as nat) == walk(classes, name, b as nat));
    assert forall|k: nat| chain_ends(classes, name, k) implies false by {
        assert forall|j: nat| a as nat <= j < b as nat implies parent_of(
            classes,
            #[trigger] walk(classes, name, j),
        ) is Some by {}
        lemma_chain_steps(classes, name, 0, a as nat, k);
        lemma_chain_loops(classes, name, a as nat, b as nat, (k - a) as nat);
    }
}

impl Dump {
    /// Whether the enum families are held in strictly ascending name
    /// order, as a map keyed by family name holds them.
    pub open spec fn wf(self) -> bool {
        crate::keyed::sorted_keys(self.enums@)
    }

    /// Accepts a dump that was read and parsed: a read or parse failure
    /// passes through as it is, and a dump of another format than the
    /// supported one is refused with an error that names both formats.
    pub fn load(parsed: Result<Dump, String>) -> (r: Result<Dump, String>)
        requires
            parsed matches Ok(d) ==> d.wf(),
        ensures
            r matches Ok(d) ==> d.wf(),
            match parsed {
                Err(e) => r == Err::<Dump, String>(e),
                Ok(d) => if d.dump_format == SUPPORTED_DUMP_FORMAT {
                    r == Ok::<Dump, String>(d)
                } else {
                    r matches Err(e) && e@ == format_error_of(d.dump_format as nat)
                },
            },
    {
        match parsed {
            Err(e) => Err(e),
            Ok(d) => {
                if d.dump_format != SUPPORTED_DUMP_FORMAT {
                    let mut message = String::new();
                    push_str(&mut message, "dump_format ");
                    let found = decimal(d.dump_format as usize);
                    push_str(&mut message, found.as_str());
                    push_str(&mut message, " is not the supported ");
                    let supported = decimal(SUPPORTED_DUMP_FORMAT as usize);
                    push_str(&mut message, supported.as_str());
                    push_str(
                        &mut message,
                        " — update the tool (or the model sync delivered a newer engine's dump)",
                    );
                    return Err(message);
                }
                Ok(d)
            },
        }
    }

    /// The parent of the first class named `name`.
    pub fn parent_of(&self, name: &str) -> (r: Option<&str>)
        ensures
            match r {
                Some(p) => parent_of(self.classes@, name@) == Some(p@),
                None => parent_of(self.classes@, name@) is None,
            },
    {
        let mut i: usize = 0;
        while i < self.classes.len()
            invariant
                i <= self.classes.len(),
                forall|j: int| 0 <= j < i ==> #[trigger] self.classes@[j].name@ != name@,
            decreases self.classes.len() - i,
        {
            if str_eq(self.classes[i].name.as_str(), name) {
                let ghost cs = self.classes@;
                proof {
                    assert(is_first_class(cs, name@, i as int));
                    let w = choose|w: int| is_first_class(cs, name@, w);
                    if w < i {
                        assert(cs[w].name@ != name@);
                    } else if w > i {
                        assert(cs[i as int].name@ != name@);
                    }
                }
                return match &self.classes[i].parent {
                    Some(p) => Some(p.as_str()),
                    None => None,
                };
            }
            i = i + 1;
        }
        None
    }

    /// Root-first ancestry chain of `class`, excluding the class itself.
    #[verifier::spinoff_prover]
    pub fn ancestors(&self, class: &str) -> (r: Vec<&str>)
        requires
            chain_terminates(self.classes@, class@),
        ensures
            r@.map_values(|s: &str| s@) == ancestors_of(self.classes@, class@),
    {
        let ghost cs = self.classes@;
        let ghost n0 = choose|n: nat| chain_ends(cs, class@, n);
        let mut chain: Vec<&str> = Vec::new();
        let mut cursor = self.parent_of(class);
        let ghost mut current = class@;
        let ghost mut fuel = n0;
        while cursor.is_some()
            invariant
                cs == self.classes@,
                chain_ends(cs, current, fuel),
                match cursor {
                    Some(p) => parent_of(cs, current) == Some(p@),
                    None => parent_of(cs, current) is None,
                },
                ancestry(cs, class@, n0) == ancestry(cs, current, fuel) + chain@.map_values(
                    |s: &str| s@,
                ),
            decreases fuel,
        {
            let parent = cursor.unwrap();
            let ghost before = chain@.map_values(|s: &str| s@);
            chain.insert(0, parent);
            assert(chain@.map_values(|s: &str| s@) =~= seq![parent@] + before);
            assert(ancestry(cs, current, fuel) == ancestry(cs, parent@, (fuel - 1) as nat).push(
                parent@,
            ));
            assert(ancestry(cs, parent@, (fuel - 1) as nat).push(parent@) + before
                =~= ancestry(cs, parent@, (fuel - 1) as nat) + (seq![parent@] + before));
            proof {
                current = parent@;
                fuel = (fuel - 1) as nat;
            }
            cursor = self.parent_of(parent);
        }
        assert(ancestry(cs, current, fuel) == Seq::<Seq<char>>::empty());
        assert(chain@.map_values(|s: &str| s@) =~= ancestry(cs, class@, n0));
        chain
    }

    /// Whether the chain of parents up from `class` ends within `limit`
    /// steps.
    pub fn chain_ends_within(&self, class: &str, limit: usize) -> (r: bool)
        ensures
            r == chain_ends(self.classes@, class@, limit as nat),
    {
        let ghost cs = self.classes@;
        let mut cursor = self.parent_of(class);
        let ghost mut current = class@;
        let mut left = limit;
        while cursor.is_some()
            invariant
                cs == self.classes@,
                chain_ends(cs, class@, limit as nat) == chain_ends(cs, current, left as nat),
                match cursor {
                    Some(p) => parent_of(cs, current) == Some(p@),
                    None => parent_of(cs, current) is None,
                },
            decreases left,
        {
            if left == 0 {
                return false;
            }
            let parent = cursor.unwrap();
            proof {
                current = parent@;
            }
            left = left - 1;
            cursor = self.parent_of(parent);
        }
        true
    }

    /// Whether the chain of parents of every class ends within `limit`
    /// steps.
    pub fn chains_end_within(&self, limit: usize) -> (r: bool)
        ensures
            r == forall|i: int|
                0 <= i < self.classes@.len() ==> chain_ends(
                    self.classes@,
                    #[trigger] self.classes@[i].name@,
                    limit as nat,
                ),
            r ==> all_chains_terminate(self.classes@),
            limit >= self.classes@.len() ==> (r == all_chains_terminate(self.classes@)),
    {
        let mut i: usize = 0;
        while i < self.classes.len()
            invariant
                i <= self.classes.len(),
                forall|j: int|
                    0 <= j < i ==> chain_ends(
                        self.classes@,
                        #[trigger] self.classes@[j].name@,
                        limit as nat,
                    ),
            decreases self.classes.len() - i,
        {
            if !self.chain_ends_within(self.classes[i].name.as_str(), limit) {
                proof {
                    if limit >= self.classes@.len() {
                        lemma_chain_cycle(self.classes@, self.classes@[i as int].name@, limit as nat);
                    }
                }
                return false;
            }
            i = i + 1;
        }
        assert forall|j: int| 0 <= j < self.classes@.len() implies chain_terminates(
            self.classes@,
            #[trigger] self.classes@[j].name@,
        ) by {
            assert(chain_ends(self.classes@, self.classes@[j].name@, limit as nat));
        }
        true
    }

    /// The three page sections as (section directory, owners), the shape
    /// both the validator and the generator walk.
    #[verifier::spinoff_prover]
    pub fn sections(&self) -> (r: [(&'static str, Vec<(&str, &str, &[Member])>); 3])
        ensures
            forall|k: int|
                0 <= k < 3 ==> {
                    &&& (#[trigger] r@[k]).0@ == section_name(k)
                    &&& r@[k].1@.map_values(|row: (&str, &str, &[Member])| row_view(row))
                        == section_owners(*self, k)
                },
    {
        let mut class_owners: Vec<(&str, &str, &[Member])> = Vec::new();
        let mut i: usize = 0;
        while i < self.classes.len()
            invariant
                i <= self.classes.len(),
                class_owners@.map_values(|row: (&str, &str, &[Member])| row_view(row))
                    == self.classes@.take(i as int).map_values(|c: Class| class_row(c)),
            decreases self.classes.len() - i,
        {
            let c = &self.classes[i];
            let row = (c.name.as_str(), c.summary.as_str(), c.members.as_slice());
            assert(row_view(row) == class_row(*c));
            let ghost before = class_owners@;
            class_owners.push(row);
            assert(class_owners@ == before.push(row));
            proof {
                before.lemma_push_map_commute(|row: (&str, &str, &[Member])| row_view(row), row);
                self.classes@.lemma_map_take_succ(|c: Class| class_row(c), i as int);
            }
            assert(self.classes@.take(i + 1) =~= self.classes@.take(i as int).push(*c));
            assert(class_owners@.map_values(|row: (&str, &str, &[Member])| row_view(row))
                =~= self.classes@.take(i + 1).map_values(|c: Class| class_row(c)));
            i = i + 1;
        }
        assert(self.classes@.take(i as int) =~= self.classes@);
        let datatype_owners = owner_rows(&self.datatypes);
        let service_owners = owner_rows(&self.services);
        let r = [("classes", class_owners), ("datatypes", datatype_owners), ("services", service_owners)];
        assert(r@[0].0@ == section_name(0));
        assert(r@[1].0@ == section_name(1));
        assert(r@[2].0@ == section_name(2));
        r
    }
}

/// The section rows of a list of owners.
fn owner_rows(owners: &Vec<Owner>) -> (r: Vec<(&str, &str, &[Member])>)
    ensures
        r@.map_values(|row: (&str, &str, &[Member])| row_view(row)) == owners@.map_values(
            |o: Owner| owner_row(o),
        ),
{
    let mut rows: Vec<(&str, &str, &[Member])> = Vec::new();
    let mut i: usize = 0;
    while i < owners.len()
        invariant
            i <= owners.len(),
            rows@.map_values(|row: (&str, &str, &[Member])| row_view(row)) == owners@.take(
                i as int,
            ).map_values(|o: Owner| owner_row(o)),
        decreases owners.len() - i,
    {
        let o = &owners[i];
        let row = (o.name.as_str(), o.summary.as_str(), o.members.as_slice());
        assert(row_view(row) == owner_row(*o));
        let ghost before = rows@;
        rows.push(row);
        assert(rows@ == before.push(row));
        proof {
            before.lemma_push_map_commute(|row: (&str, &str, &[Member])| row_view(row), row);
            owners@.lemma_map_take_succ(|o: Owner| owner_row(o), i as int);
        }
        assert(owners@.take(i + 1) =~= owners@.take(i as int).push(*o));
        assert(rows@.map_values(|row: (&str, &str, &[Member])| row_view(row)) =~= owners@.take(
            i + 1,
        ).map_values(|o: Owner| owner_row(o)));
        i = i + 1;
    }
    assert(owners@.take(i as int) =~= owners@);
    rows
}

} // verus!
