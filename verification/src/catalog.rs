//! The skills found, by name.

use vstd::prelude::*;
use vstd::string::StringExecFns;
use crate::outside;
use crate::path::SkillPath;
use crate::skill;
use crate::skill::{DiscoveredSkill, SkillView};

verus! {

/// A skill that was passed over because another of the same name was found before it.
#[derive(Debug)]
pub struct Duplicate {
    /// The name of both skills.
    pub name: String,
    /// The source of the skill that was passed over.
    pub found: SkillPath,
    /// The source of the skill that was kept.
    pub kept: SkillPath,
}

/// What a duplicate holds.
#[verifier::ext_equal]
pub struct DuplicateView {
    pub name: Seq<char>,
    pub found: Seq<u8>,
    pub kept: Seq<u8>,
}

impl View for Duplicate {
    type V = DuplicateView;

    open spec fn view(&self) -> DuplicateView {
        DuplicateView { name: self.name@, found: self.found@, kept: self.kept@ }
    }
}

impl DuplicateView {
    /// The warning for the duplicate.
    pub open spec fn warning(self) -> Seq<char> {
        "Duplicate skill '"@ + self.name + "' found at "@ + outside::lossy_text(self.found)
            + " (keeping "@ + outside::lossy_text(self.kept) + ")"@
    }
}

impl Duplicate {
    /// The warning for the duplicate.
    pub fn warning(&self) -> (r: String)
        ensures
            r@ == self@.warning(),
    {
        let mut r: String = "Duplicate skill '".to_string();
        r.append(self.name.as_str());
        r.append("' found at ");
        r.append(outside::utf8_lossy(self.found.as_bytes()).as_str());
        r.append(" (keeping ");
        r.append(outside::utf8_lossy(self.kept.as_bytes()).as_str());
        r.append(")");
        r
    }
}

/// The first skill named `name`.
pub open spec fn first_named(skills: Seq<SkillView>, name: Seq<char>) -> Option<SkillView>
    decreases skills.len(),
{
    if skills.len() == 0 {
        None
    } else if skills[0].name == name {
        Some(skills[0])
    } else {
        first_named(skills.drop_first(), name)
    }
}

/// The skills that are known and those that were passed over.
#[verifier::ext_equal]
pub struct CatalogView {
    /// The skills known, in the order in which they were found.
    pub skills: Seq<SkillView>,
    /// The skills passed over, in the order in which they were found.
    pub duplicates: Seq<DuplicateView>,
}

/// The catalog that holds nothing.
pub open spec fn empty_catalog() -> CatalogView {
    CatalogView { skills: Seq::empty(), duplicates: Seq::empty() }
}

impl CatalogView {
    /// Whether no two skills have the same name.
    pub open spec fn wf(self) -> bool {
        forall|i: int, j: int|
            0 <= i < j < self.skills.len() ==> (#[trigger] self.skills[i]).name != (
            #[trigger] self.skills[j]).name
    }

    /// The skill known by `name`.
    pub open spec fn get(self, name: Seq<char>) -> Option<SkillView> {
        first_named(self.skills, name)
    }

    /// The catalog with one more skill found: kept where its name is new, else passed over.
    pub open spec fn with(self, s: SkillView) -> CatalogView {
        match self.get(s.name) {
            Some(known) => CatalogView {
                duplicates: self.duplicates.push(
                    DuplicateView { name: s.name, found: s.source_path, kept: known.source_path },
                ),
                ..self
            },
            None => CatalogView { skills: self.skills.push(s), ..self },
        }
    }

    /// The catalog with a batch of skills found, one by one.
    pub open spec fn with_all(self, batch: Seq<SkillView>) -> CatalogView
        decreases batch.len(),
    {
        if batch.len() == 0 {
            self
        } else {
            self.with_all(batch.drop_last()).with(batch.last())
        }
    }
}

/// Skills by name, of which the first found wins.
#[derive(Debug)]
pub struct Catalog {
    skills: Vec<DiscoveredSkill>,
    duplicates: Vec<Duplicate>,
}

impl View for Catalog {
    type V = CatalogView;

    closed spec fn view(&self) -> CatalogView {
        CatalogView {
            skills: skill::skill_views(self.skills@),
            duplicates: self.duplicates@.map_values(|d: Duplicate| d@),
        }
    }
}

impl Catalog {
    /// A catalog that holds nothing.
    pub fn new() -> (r: Catalog)
        ensures
            r@ == empty_catalog(),
            r@.wf(),
    {
        let r = Catalog { skills: Vec::new(), duplicates: Vec::new() };
        assert(r@ =~= empty_catalog());
        r
    }

    fn position(&self, name: &String) -> (r: Option<usize>)
        ensures
            match r {
                Some(i) => i < self.skills.len() && self@.get(name@) == Some(self@.skills[i as int]),
                None => self@.get(name@) is None,
            },
    {
        let mut i: usize = 0;
        assert(self@.skills.skip(0) == self@.skills);
        while i < self.skills.len()
            invariant
                i <= self.skills.len(),
                first_named(self@.skills.skip(i as int), name@) == self@.get(name@),
            decreases self.skills.len() - i,
        {
            assert(self@.skills.skip(i as int)[0] == self.skills[i as int]@);
            if self.skills[i].name == *name {
                return Some(i);
            }
            assert(self@.skills.skip(i as int).drop_first() == self@.skills.skip(i + 1));
            i += 1;
        }
        None
    }

    /// The skill known by `name`.
    pub fn get(&self, name: &str) -> (r: Option<&DiscoveredSkill>)
        ensures
            match r {
                Some(s) => self@.get(name@) == Some(s@),
                None => self@.get(name@) is None,
            },
    {
        match self.position(&name.to_string()) {
            Some(i) => Some(&self.skills[i]),
            None => None,
        }
    }

    /// Whether a skill is known by `name`.
    pub fn contains_key(&self, name: &str) -> (r: bool)
        ensures
            r == (self@.get(name@) is Some),
    {
        self.position(&name.to_string()).is_some()
    }

    /// The skills known, in the order in which they were found.
    pub fn skills(&self) -> (r: &Vec<DiscoveredSkill>)
        ensures
            skill::skill_views(r@) == self@.skills,
    {
        &self.skills
    }

    /// The skills passed over, in the order in which they were found.
    pub fn duplicates(&self) -> (r: &Vec<Duplicate>)
        ensures
            r@.map_values(|d: Duplicate| d@) == self@.duplicates,
    {
        &self.duplicates
    }

    /// Adds a batch of skills; those whose name is known already are passed over.
    pub fn add(&mut self, batch: Vec<DiscoveredSkill>)
        requires
            old(self)@.wf(),
        ensures
            final(self)@ == old(self)@.with_all(skill::skill_views(batch@)),
            final(self)@.wf(),
    {
        let ghost items = batch@;
        let ghost all = skill::skill_views(batch@);
        let ghost start = self@;
        assert(all.take(0).len() == 0);
        for s in it: batch
            invariant
                it.seq() == items,
                all == skill::skill_views(items),
                self@ == start.with_all(all.take(it.index() as int)),
                self@.wf(),
        {
            let ghost before = self@;
            let ghost i = it.index() as int;
            proof {
                assert(all[i] == s@);
                assert(all.take(i + 1).drop_last() == all.take(i));
                with_keeps_wf(before, s@);
            }
            match self.position(&s.name) {
                Some(k) => {
                    let d = Duplicate {
                        name: s.name,
                        found: s.source_path,
                        kept: self.skills[k].source_path.clone(),
                    };
                    self.duplicates.push(d);
                    assert(self@.duplicates =~= before.duplicates.push(d@));
                },
                None => {
                    self.skills.push(s);
                    assert(self@.skills =~= before.skills.push(s@));
                },
            }
        }
        assert(all.take(all.len() as int) == all);
    }
}

/// What `first_named` gives: it has the name, it is one of the skills, and there is none where it
/// gives none.
proof fn first_named_is_named(skills: Seq<SkillView>, name: Seq<char>)
    ensures
        first_named(skills, name) matches Some(s) ==> s.name == name && skills.contains(s),
        first_named(skills, name) is None ==> forall|i: int|
            0 <= i < skills.len() ==> (#[trigger] skills[i]).name != name,
    decreases skills.len(),
{
    if skills.len() > 0 && skills[0].name != name {
        let rest = skills.drop_first();
        first_named_is_named(rest, name);
        match first_named(rest, name) {
            Some(s) => {
                let i = choose|i: int| 0 <= i < rest.len() && rest[i] == s;
                assert(skills[i + 1] == s);
            },
            None => {
                assert forall|i: int| 0 <= i < skills.len() implies (#[trigger] skills[i]).name
                    != name by {
                    if i > 0 {
                        assert(skills[i] == rest[i - 1]);
                    }
                }
            },
        }
    }
}

/// A catalog in which no two skills have the same name stays one when a skill is added.
pub proof fn with_keeps_wf(c: CatalogView, s: SkillView)
    requires
        c.wf(),
    ensures
        c.with(s).wf(),
{
    first_named_is_named(c.skills, s.name);
}

proof fn first_named_of_push(skills: Seq<SkillView>, s: SkillView, name: Seq<char>)
    ensures
        first_named(skills.push(s), name) == match first_named(skills, name) {
            Some(k) => Some(k),
            None => if s.name == name {
                Some(s)
            } else {
                None
            },
        },
    decreases skills.len(),
{
    let more = skills.push(s);
    if skills.len() == 0 {
        assert(more[0] == s);
        assert(first_named(more.drop_first(), name) is None);
    } else {
        assert(more[0] == skills[0]);
        assert(more.drop_first() == skills.drop_first().push(s));
        first_named_of_push(skills.drop_first(), s, name);
    }
}

/// Among the skills known and a batch that is added, the first of a name wins: a skill known
/// before the batch stays, and of the batch the first of a new name becomes known.
pub proof fn first_found_wins(c: CatalogView, batch: Seq<SkillView>, name: Seq<char>)
    ensures
        c.with_all(batch).get(name) == match c.get(name) {
            Some(known) => Some(known),
            None => first_named(batch, name),
        },
    decreases batch.len(),
{
    if batch.len() > 0 {
        let before = batch.drop_last();
        let s = batch.last();
        first_found_wins(c, before, name);
        assert(before.push(s) == batch);
        first_named_of_push(before, s, name);
        let d = c.with_all(before);
        first_named_of_push(d.skills, s, name);
    }
}

/// Adding two batches one behind the other is adding them as one.
pub proof fn batches_add_up(c: CatalogView, a: Seq<SkillView>, b: Seq<SkillView>)
    ensures
        c.with_all(a + b) == c.with_all(a).with_all(b),
    decreases b.len(),
{
    if b.len() == 0 {
        assert(a + b == a);
    } else {
        assert((a + b).drop_last() == a + b.drop_last());
        batches_add_up(c, a, b.drop_last());
    }
}

/// Every skill that is added is either known behind it or passed over, and names stay apart.
pub proof fn no_skill_is_lost(c: CatalogView, batch: Seq<SkillView>)
    requires
        c.wf(),
    ensures
        c.with_all(batch).wf(),
        c.with_all(batch).skills.len() + c.with_all(batch).duplicates.len() == c.skills.len()
            + c.duplicates.len() + batch.len(),
    decreases batch.len(),
{
    if batch.len() > 0 {
        no_skill_is_lost(c, batch.drop_last());
        with_keeps_wf(c.with_all(batch.drop_last()), batch.last());
    }
}

/// Every skill that is known behind a batch was known before it or is one of the batch.
pub proof fn known_skills_were_found(c: CatalogView, batch: Seq<SkillView>, i: int)
    requires
        0 <= i < c.with_all(batch).skills.len(),
    ensures
        c.skills.contains(c.with_all(batch).skills[i]) || batch.contains(
            c.with_all(batch).skills[i],
        ),
    decreases batch.len(),
{
    if batch.len() > 0 {
        let before = c.with_all(batch.drop_last());
        let s = c.with_all(batch).skills[i];
        if i < before.skills.len() {
            known_skills_were_found(c, batch.drop_last(), i);
            if !c.skills.contains(s) {
                let k = choose|k: int| 0 <= k < batch.drop_last().len() && batch.drop_last()[k] == s;
                assert(batch[k] == s);
            }
        } else {
            assert(batch[batch.len() - 1] == s);
        }
    } else {
        assert(c.skills.contains(c.skills[i]));
    }
}

/// Whether `d` tells of a skill that has the name of another, known one.
pub open spec fn is_true_duplicate(c: CatalogView, d: DuplicateView) -> bool {
    c.get(d.name) matches Some(known) && known.source_path == d.kept
}

/// Every skill that was passed over is told with the source of the one that is known by its
/// name.
pub proof fn duplicates_name_the_known(c: CatalogView, batch: Seq<SkillView>, i: int)
    requires
        forall|k: int| 0 <= k < c.duplicates.len() ==> is_true_duplicate(c, #[trigger] c.duplicates[k]),
        0 <= i < c.with_all(batch).duplicates.len(),
    ensures
        is_true_duplicate(c.with_all(batch), c.with_all(batch).duplicates[i]),
    decreases batch.len(),
{
    if batch.len() > 0 {
        let before = c.with_all(batch.drop_last());
        let s = batch.last();
        let d = before.with(s).duplicates[i];
        if i < before.duplicates.len() {
            duplicates_name_the_known(c, batch.drop_last(), i);
        }
        first_named_of_push(before.skills, s, d.name);
    }
}

/// The view of a duplicate holds what its fields hold.
pub proof fn duplicate_view_shows_the_fields(d: Duplicate)
    ensures
        d@.name == d.name@,
        d@.found == d.found.bytes@,
        d@.kept == d.kept.bytes@,
{
}

/// The warning for a duplicate gives its name whole, then where it was found, then what was kept.
pub proof fn warning_tells_all(d: DuplicateView)
    ensures
        ("Duplicate skill '"@ + d.name + "' found at "@ + outside::lossy_text(
            d.found,
        )).is_prefix_of(d.warning()),
        (" (keeping "@ + outside::lossy_text(d.kept) + ")"@).is_suffix_of(d.warning()),
        d.warning().len() == 39 + d.name.len() + outside::lossy_text(d.found).len()
            + outside::lossy_text(d.kept).len(),
{
    reveal_strlit("Duplicate skill '");
    reveal_strlit("' found at ");
    reveal_strlit(" (keeping ");
    reveal_strlit(")");
    let w = d.warning();
    let a = "Duplicate skill '"@ + d.name + "' found at "@ + outside::lossy_text(d.found);
    let b = " (keeping "@ + outside::lossy_text(d.kept) + ")"@;
    assert(w =~= a + b);
    assert(w.subrange(0, a.len() as int) =~= a);
    assert(w.subrange(w.len() - b.len(), w.len() as int) =~= b);
}

/// What a catalog knows by a name is a skill of that name that it holds, the first of them; it knows
/// none only where it holds none of that name.
pub proof fn known_by_its_name(c: CatalogView, name: Seq<char>, i: int)
    requires
        0 <= i < c.skills.len(),
        c.skills[i].name == name,
        forall|j: int| 0 <= j < i ==> (#[trigger] c.skills[j]).name != name,
    ensures
        c.get(name) == Some(c.skills[i]),
{
    first_named_is_at(c.skills, name, i);
}

proof fn first_named_is_at(skills: Seq<SkillView>, name: Seq<char>, i: int)
    requires
        0 <= i < skills.len(),
        skills[i].name == name,
        forall|j: int| 0 <= j < i ==> (#[trigger] skills[j]).name != name,
    ensures
        first_named(skills, name) == Some(skills[i]),
    decreases i,
{
    if i > 0 {
        let rest = skills.drop_first();
        assert(skills[0].name != name);
        assert forall|j: int| 0 <= j < i - 1 implies (#[trigger] rest[j]).name != name by {
            assert(rest[j] == skills[j + 1]);
        }
        first_named_is_at(rest, name, i - 1);
    }
}

/// A name that no skill of a catalog has is not known.
pub proof fn unknown_by_other_names(c: CatalogView, name: Seq<char>)
    requires
        forall|j: int| 0 <= j < c.skills.len() ==> (#[trigger] c.skills[j]).name != name,
    ensures
        c.get(name) is None,
{
    first_named_is_named(c.skills, name);
    if c.get(name) is Some {
        let s = c.get(name)->Some_0;
        let i = choose|i: int| 0 <= i < c.skills.len() && c.skills[i] == s;
        assert(c.skills[i].name != name);
    }
}

/// A skill of a new name is put behind those that are known, as it is. One of a name that is known
/// changes none of them: it is told as a duplicate behind the others, with where it was found and
/// where the known one is from. Adding a batch is adding its skills one by one.
pub proof fn skills_are_added_as_they_are(
    c: CatalogView,
    batch: Seq<SkillView>,
    s: SkillView,
    i: int,
)
    ensures
        (forall|j: int| 0 <= j < c.skills.len() ==> (#[trigger] c.skills[j]).name != s.name) ==> c.with(
            s,
        ).skills == c.skills + seq![s] && c.with(s).duplicates == c.duplicates,
        0 <= i < c.skills.len() && c.skills[i].name == s.name && (forall|j: int|
            0 <= j < i ==> (#[trigger] c.skills[j]).name != s.name) ==> c.with(s).skills == c.skills
            && c.with(s).duplicates == c.duplicates + seq![
            DuplicateView {
                name: s.name,
                found: s.source_path,
                kept: c.skills[i].source_path,
            },
        ],
        c.with_all(Seq::empty()) == c,
        c.with_all(batch.push(s)) == c.with_all(batch).with(s),
{
    if forall|j: int| 0 <= j < c.skills.len() ==> (#[trigger] c.skills[j]).name != s.name {
        unknown_by_other_names(c, s.name);
        assert(c.with(s).skills =~= c.skills + seq![s]);
    }
    if 0 <= i < c.skills.len() && c.skills[i].name == s.name && (forall|j: int|
        0 <= j < i ==> (#[trigger] c.skills[j]).name != s.name) {
        known_by_its_name(c, s.name, i);
    }
    assert(batch.push(s).drop_last() =~= batch);
}

/// Among skills of which one has a name, one of that name is found, and where that is the first of
/// them, it is the one.
pub(crate) proof fn named_skill_is_found(skills: Seq<SkillView>, name: Seq<char>, k: int)
    requires
        0 <= k < skills.len(),
        skills[k].name == name,
    ensures
        first_named(skills, name) is Some,
        (forall|j: int| 0 <= j < k ==> (#[trigger] skills[j]).name != name) ==> first_named(
            skills,
            name,
        ) == Some(skills[k]),
{
    first_named_is_named(skills, name);
    if forall|j: int| 0 <= j < k ==> (#[trigger] skills[j]).name != name {
        first_named_is_at(skills, name, k);
    }
}

/// What is found by a name has that name, and nothing is found where none has it.
pub(crate) proof fn found_skill_is_named(skills: Seq<SkillView>, name: Seq<char>)
    ensures
        first_named(skills, name) matches Some(s) ==> s.name == name,
        (forall|j: int| 0 <= j < skills.len() ==> (#[trigger] skills[j]).name != name)
            ==> first_named(skills, name) is None,
{
    first_named_is_named(skills, name);
    if first_named(skills, name) is Some {
        let s = first_named(skills, name)->Some_0;
        let i = choose|i: int| 0 <= i < skills.len() && skills[i] == s;
        assert(skills[i].name == name);
    }
}

} // verus!
