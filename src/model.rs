//! The person record and the indexed set of people still waiting for a match.
use std::collections::VecDeque;
use crate::input::{InputError, InputErrorView};
use crate::input::validator::{people_fault, validate};
use vstd::prelude::*;

verus! {

/// What a person record holds: a name and the names it prefers, best first.
pub struct PersonView {
    pub name: Seq<char>,
    pub prefs: Seq<Seq<char>>,
}

/// The text of each string, in order.
pub open spec fn texts(v: Seq<String>) -> Seq<Seq<char>> {
    v.map_values(|s: String| s@)
}

/// The names of a sequence of records, in order.
pub open spec fn names_of(ps: Seq<PersonView>) -> Seq<Seq<char>> {
    ps.map_values(|p: PersonView| p.name)
}

/// No person lists themself among their preferences.
pub open spec fn no_self_choice(m: Map<Seq<char>, Seq<Seq<char>>>) -> bool {
    forall|k: Seq<char>, j: int|
        #![trigger m[k][j]]
        m.contains_key(k) && 0 <= j < m[k].len() ==> m[k][j] != k
}

/// Relies on `<str as PartialEq>::eq`: two string slices are equal exactly
/// when they hold the same characters.
pub assume_specification[ <str as PartialEq>::eq ](a: &str, b: &str) -> (r: bool)
    ensures
        r == (a@ == b@),
;

/// The input data of one person.
#[derive(Debug, Clone, PartialEq, Eq)]
pub struct PersonData {
    person_name: String,
    preferences: Option<Vec<String>>,
}

impl View for PersonData {
    type V = PersonView;

    closed spec fn view(&self) -> PersonView {
        PersonView {
            name: self.person_name@,
            prefs: match self.preferences {
                None => Seq::empty(),
                Some(p) => texts(p@),
            },
        }
    }
}

/// A copy of `v` with the same texts.
fn copy_strings(v: &Vec<String>) -> (r: Vec<String>)
    ensures
        texts(r@) == texts(v@),
{
    let mut r: Vec<String> = Vec::with_capacity(v.len());
    let mut i: usize = 0;
    while i < v.len()
        invariant
            i <= v.len(),
            r@.len() == i,
            forall|j: int| 0 <= j < i ==> #[trigger] r@[j]@ == v@[j]@,
        decreases v.len() - i,
    {
        let s = v[i].clone();
        assert(s@ == v@[i as int]@);
        r.push(s);
        i += 1;
    }
    assert(texts(r@) =~= texts(v@));
    r
}

impl PersonData {
    /// A person who ranks nobody.
    pub fn with_no_preferences(person_name: String) -> (r: Self)
        ensures
            r@ == (PersonView { name: person_name@, prefs: Seq::empty() }),
    {
        PersonData { person_name, preferences: None }
    }

    /// A person with the given ranking, kept as given even when empty.
    pub fn with_preferences(person_name: String, preferences: Vec<String>) -> (r: Self)
        ensures
            r@ == (PersonView { name: person_name@, prefs: texts(preferences@) }),
    {
        PersonData { person_name, preferences: Some(preferences) }
    }

    /// A person with the given ranking; an empty ranking is stored as none.
    pub fn new(person_name: String, preferences: Vec<String>) -> (r: Self)
        ensures
            r@ == (PersonView { name: person_name@, prefs: texts(preferences@) }),
    {
        if preferences.len() == 0 {
            assert(texts(preferences@) =~= Seq::empty());
            PersonData { person_name, preferences: None }
        } else {
            PersonData { person_name, preferences: Some(preferences) }
        }
    }

    pub fn person_name(&self) -> (r: &str)
        ensures
            r@ == self@.name,
    {
        self.person_name.as_str()
    }

    /// The preference at rank `index` (0 is the first choice), if there is one.
    pub fn get_choice(&self, index: usize) -> (r: Option<&String>)
        ensures
            match r {
                None => index >= self@.prefs.len(),
                Some(s) => index < self@.prefs.len() && s@ == self@.prefs[index as int],
            },
            self@.prefs.len() <= usize::MAX,
    {
        match &self.preferences {
            None => None,
            Some(pref) => {
                let n = pref.len();
                if index < n {
                    Some(&pref[index])
                } else {
                    None
                }
            },
        }
    }

    /// A copy of this record.
    pub fn duplicate(&self) -> (r: Self)
        ensures
            r@ == self@,
    {
        let preferences = match &self.preferences {
            None => None,
            Some(p) => Some(copy_strings(p)),
        };
        PersonData { person_name: self.person_name.clone(), preferences }
    }
}

/// The records, as their views.
pub open spec fn views(v: Seq<PersonData>) -> Seq<PersonView> {
    v.map_values(|p: PersonData| p@)
}

/// The map from each name of `ps` to that record's preferences.
pub open spec fn people_map(ps: Seq<PersonView>) -> Map<Seq<char>, Seq<Seq<char>>> {
    Map::new(
        |k: Seq<char>| names_of(ps).contains(k),
        |k: Seq<char>| ps[names_of(ps).index_of(k)].prefs,
    )
}

/// The people not yet matched, indexed by name.
///
/// Its model is a map from each name to that person's preferences; the
/// records are also kept in a fixed order, which is the order in which a
/// traversal visits them.
pub struct UnmatchedPeople {
    people: Vec<PersonData>,
    model: Ghost<Map<Seq<char>, Seq<Seq<char>>>>,
}

impl View for UnmatchedPeople {
    type V = Map<Seq<char>, Seq<Seq<char>>>;

    closed spec fn view(&self) -> Map<Seq<char>, Seq<Seq<char>>> {
        self.model@
    }
}

impl UnmatchedPeople {
    /// The records in traversal order.
    pub closed spec fn order(&self) -> Seq<PersonView> {
        views(self.people@)
    }

    /// Names are unique, and the map holds exactly the records in order.
    pub open spec fn indexed(&self) -> bool {
        let ps = self.order();
        &&& names_of(ps).no_duplicates()
        &&& forall|k: Seq<char>|
            #![trigger self@.contains_key(k)]
            #![trigger names_of(ps).contains(k)]
            self@.contains_key(k) <==> names_of(ps).contains(k)
        &&& forall|i: int| #![trigger ps[i]] 0 <= i < ps.len() ==> self@[ps[i].name] == ps[i].prefs
    }

    /// Indexed, and nobody chose themself.
    pub open spec fn wf(&self) -> bool {
        self.indexed() && no_self_choice(self@)
    }

    /// The number of people equals the number of records in order.
    pub proof fn lemma_len(&self)
        requires
            self.indexed(),
        ensures
            self@.len() == self.order().len(),
            self@.dom() == names_of(self.order()).to_set(),
    {
        let ns = names_of(self.order());
        assert(self@.dom() =~= ns.to_set());
        ns.unique_seq_to_set();
    }

    /// The map is the one that the records in order describe.
    pub proof fn lemma_view_is_people_map(&self)
        requires
            self.indexed(),
        ensures
            self@ == people_map(self.order()),
    {
        let ps = self.order();
        let ns = names_of(ps);
        assert forall|k: Seq<char>| #[trigger] self@.contains_key(k) implies self@[k]
            == people_map(ps)[k] by {
            let i = ns.index_of(k);
            assert(ns[i] == k);
            assert(ps[i].name == k);
        }
        assert(self@ =~= people_map(ps));
    }

    fn new() -> (r: Self)
        ensures
            r.indexed(),
            r@ == Map::<Seq<char>, Seq<Seq<char>>>::empty(),
            r.order() == Seq::<PersonView>::empty(),
    {
        let r = UnmatchedPeople { people: Vec::new(), model: Ghost(Map::empty()) };
        assert(r.order() =~= Seq::<PersonView>::empty());
        r
    }

    /// The position in order of the record named `person_name`.
    fn find(&self, person_name: &str) -> (r: Option<usize>)
        requires
            self.indexed(),
        ensures
            match r {
                None => !self@.contains_key(person_name@),
                Some(i) => i < self.order().len() && self.order()[i as int].name == person_name@,
            },
    {
        let mut i: usize = 0;
        while i < self.people.len()
            invariant
                self.indexed(),
                i <= self.people@.len(),
                forall|j: int| 0 <= j < i ==> #[trigger] self.order()[j].name != person_name@,
            decreases self.people.len() - i,
        {
            if self.people[i].person_name().eq(person_name) {
                return Some(i);
            }
            i += 1;
        }
        proof {
            let ns = names_of(self.order());
            if self@.contains_key(person_name@) {
                let j = choose|j: int| 0 <= j < ns.len() && ns[j] == person_name@;
                assert(self.order()[j].name == ns[j]);
            }
        }
        None
    }

    /// Adds a record whose name is not yet present.
    fn add(&mut self, p: PersonData)
        requires
            old(self).indexed(),
            !old(self)@.contains_key(p@.name),
        ensures
            final(self).indexed(),
            final(self)@ == old(self)@.insert(p@.name, p@.prefs),
            final(self).order() == old(self).order().push(p@),
    {
        let ghost pv = p@;
        let ghost old_ns = names_of(self.order());
        self.people.push(p);
        self.model = Ghost(self.model@.insert(pv.name, pv.prefs));
        proof {
            assert(self.order() =~= old(self).order().push(pv));
            assert(names_of(self.order()) =~= old_ns.push(pv.name));
            assert forall|k: Seq<char>| self@.contains_key(k) <==> names_of(self.order()).contains(k) by {
                let ns = names_of(self.order());
                if k == pv.name {
                    assert(ns[ns.len() - 1] == k);
                } else if ns.contains(k) {
                    let j = choose|j: int| 0 <= j < ns.len() && ns[j] == k;
                    assert(old_ns[j] == k);
                } else if old(self)@.contains_key(k) {
                    let j = choose|j: int| 0 <= j < old_ns.len() && old_ns[j] == k;
                    assert(ns[j] == k);
                }
            }
            let ns = names_of(self.order());
            assert(!old_ns.contains(pv.name));
            assert forall|a: int, b: int| 0 <= a < b < ns.len() implies ns[a] != ns[b] by {
                if b == ns.len() - 1 {
                    assert(old_ns[a] == ns[a]);
                }
            }
            let ps = self.order();
            assert forall|i: int| #![trigger ps[i]] 0 <= i < ps.len() implies self@[ps[i].name] == ps[i].prefs by {
                if i < ps.len() - 1 {
                    assert(old_ns[i] == ps[i].name);
                    assert(old(self).order()[i] == ps[i]);
                }
            }
        }
    }

    pub fn count(&self) -> (r: usize)
        requires
            self.indexed(),
        ensures
            r == self@.len(),
    {
        proof { self.lemma_len(); }
        self.people.len()
    }

    /// The record of `person_name`, if that person is present.
    pub fn get(&self, person_name: &str) -> (r: Option<&PersonData>)
        requires
            self.indexed(),
        ensures
            r is Some <==> self@.contains_key(person_name@),
            r matches Some(p) ==> p@.name == person_name@ && p@.prefs == self@[person_name@],
    {
        match self.find(person_name) {
            None => None,
            Some(i) => {
                proof {
                    assert(names_of(self.order())[i as int] == person_name@);
                }
                Some(&self.people[i])
            },
        }
    }

    /// Removes `person_name`; nothing changes where the name is absent.
    pub fn remove(&mut self, person_name: &str)
        requires
            old(self).indexed(),
        ensures
            final(self).indexed(),
            final(self)@ == old(self)@.remove(person_name@),
            old(self).wf() ==> final(self).wf(),
            !old(self)@.contains_key(person_name@) ==> final(self).order() == old(self).order(),
    {
        match self.find(person_name) {
            None => {
                assert(self@ =~= self@.remove(person_name@));
            },
            Some(i) => {
                let ghost old_ps = self.order();
                let ghost key = person_name@;
                proof {
                    assert(names_of(old_ps)[i as int] == key);
                    assert(names_of(old_ps).contains(key));
                }
                self.people.remove(i);
                self.model = Ghost(self.model@.remove(key));
                proof {
                    let ps = self.order();
                    assert(ps =~= old_ps.remove(i as int));
                    let ons = names_of(old_ps);
                    assert(names_of(ps) =~= ons.remove(i as int));
                    assert forall|a: int, b: int|
                        0 <= a < b < names_of(ps).len() implies names_of(ps)[a] != names_of(ps)[b] by {
                        let a2 = if a < i { a } else { a + 1 };
                        let b2 = if b < i { b } else { b + 1 };
                        assert(names_of(ps)[a] == ons[a2]);
                        assert(names_of(ps)[b] == ons[b2]);
                    }
                    assert forall|k: Seq<char>| self@.contains_key(k) <==> names_of(ps).contains(k) by {
                        let nps = names_of(ps);
                        assert(ons[i as int] == key);
                        if nps.contains(k) {
                            let j = choose|j: int| 0 <= j < nps.len() && nps[j] == k;
                            let j2 = if j < i { j } else { j + 1 };
                            assert(ons[j2] == k);
                        }
                        if self@.contains_key(k) {
                            let j = choose|j: int| 0 <= j < ons.len() && ons[j] == k;
                            assert(j != i);
                            let j2 = if j < i { j } else { j - 1 };
                            assert(names_of(ps)[j2] == k);
                        }
                    }
                    assert forall|j: int| #![trigger ps[j]] 0 <= j < ps.len() implies self@[ps[j].name] == ps[j].prefs by {
                        let j2 = if j < i { j } else { j + 1 };
                        assert(ps[j] == old_ps[j2]);
                        assert(ons[i as int] == key);
                        assert(ons[j2] == old_ps[j2].name);
                        assert(ons[j2] != key);
                    }
                }
            },
        }
    }

    /// A traversal over a snapshot of the records, taken now: removals made
    /// during the traversal do not change what it yields.
    pub fn iterator(&self) -> (r: UnmatchedPeopleIterator)
        ensures
            r@ == self.order(),
    {
        let mut delegate: VecDeque<PersonData> = VecDeque::new();
        let mut i: usize = 0;
        while i < self.people.len()
            invariant
                i <= self.people@.len(),
                delegate@.len() == i,
                forall|j: int| 0 <= j < i ==> #[trigger] delegate@[j]@ == self.people@[j]@,
            decreases self.people.len() - i,
        {
            delegate.push_back(self.people[i].duplicate());
            i += 1;
        }
        let r = UnmatchedPeopleIterator { delegate };
        assert(r@ =~= self.order());
        r
    }

    /// Empties the set and returns the names it held.
    pub fn drain_all_names(&mut self) -> (r: Vec<String>)
        requires
            old(self).indexed(),
        ensures
            texts(r@) == names_of(old(self).order()),
            final(self).indexed(),
            final(self)@ == Map::<Seq<char>, Seq<Seq<char>>>::empty(),
            final(self).order() == Seq::<PersonView>::empty(),
    {
        let mut names: Vec<String> = Vec::with_capacity(self.people.len());
        let mut i: usize = 0;
        while i < self.people.len()
            invariant
                i <= self.people@.len(),
                names@.len() == i,
                forall|j: int| 0 <= j < i ==> #[trigger] names@[j]@ == self.people@[j]@.name,
            decreases self.people.len() - i,
        {
            let n = String::from_str(self.people[i].person_name());
            names.push(n);
            i += 1;
        }
        assert(texts(names@) =~= names_of(self.order()));
        *self = UnmatchedPeople::new();
        names
    }
}

/// The first name, in order, that already occurred before it.
pub open spec fn first_duplicate(ns: Seq<Seq<char>>) -> Option<Seq<char>>
    decreases ns.len(),
{
    if ns.len() == 0 {
        None
    } else {
        match first_duplicate(ns.drop_last()) {
            Some(d) => Some(d),
            None => if ns.drop_last().contains(ns.last()) {
                Some(ns.last())
            } else {
                None
            },
        }
    }
}

/// The first rule that a batch of records breaks, checked in this order: it is
/// empty; a name occurs twice; someone ranks themself or an unknown name.
pub open spec fn batch_fault(ps: Seq<PersonView>) -> Option<InputErrorView> {
    if ps.len() == 0 {
        Some(InputErrorView::NoData)
    } else {
        match first_duplicate(names_of(ps)) {
            Some(d) => Some(InputErrorView::DuplicatePerson(d)),
            None => people_fault(ps, names_of(ps).to_set()),
        }
    }
}

/// A duplicate found in a prefix is the first duplicate of the whole sequence.
pub proof fn lemma_duplicate_prefix(ns: Seq<Seq<char>>, k: int)
    requires
        0 <= k <= ns.len(),
        first_duplicate(ns.take(k)) is Some,
    ensures
        first_duplicate(ns) == first_duplicate(ns.take(k)),
    decreases ns.len(),
{
    if k == ns.len() {
        assert(ns.take(k) =~= ns);
    } else {
        assert(ns.drop_last().take(k) =~= ns.take(k));
        lemma_duplicate_prefix(ns.drop_last(), k);
    }
}

/// Without a first duplicate, no name occurs twice.
pub proof fn lemma_no_duplicate(ns: Seq<Seq<char>>)
    requires
        first_duplicate(ns) is None,
    ensures
        ns.no_duplicates(),
    decreases ns.len(),
{
    if ns.len() > 0 {
        let d = ns.drop_last();
        lemma_no_duplicate(d);
        assert forall|a: int, b: int| 0 <= a < b < ns.len() implies ns[a] != ns[b] by {
            assert(d[a] == ns[a]);
            if b == ns.len() - 1 {
                assert(!d.contains(ns.last()));
            } else {
                assert(d[b] == ns[b]);
            }
        }
    }
}

/// Removing a name that is absent changes nothing, and so neither does
/// removing it a second time; the number of people stays the same.
pub proof fn lemma_remove_absent_twice(m: Map<Seq<char>, Seq<Seq<char>>>, name: Seq<char>)
    requires
        !m.contains_key(name),
    ensures
        m.remove(name) == m,
        m.remove(name).remove(name) == m,
        m.remove(name).remove(name).len() == m.len(),
{
    assert(m.remove(name) =~= m);
}

/// Indexes the records by name, or returns the first name that occurs twice.
fn map_with_unique_index(values: Vec<PersonData>) -> (r: Result<UnmatchedPeople, String>)
    ensures
        match r {
            Ok(u) => first_duplicate(names_of(views(values@))) is None && u.indexed() && u.order()
                == views(values@),
            Err(d) => first_duplicate(names_of(views(values@))) == Some(d@),
        },
{
    let ghost vs = views(values@);
    let ghost ns = names_of(vs);
    let mut map = UnmatchedPeople::new();
    let mut i: usize = 0;
    while i < values.len()
        invariant
            vs == views(values@),
            ns == names_of(vs),
            i <= values@.len(),
            map.indexed(),
            map.order() == vs.take(i as int),
            first_duplicate(ns.take(i as int)) is None,
        decreases values.len() - i,
    {
        let v = values[i].duplicate();
        proof {
            assert(names_of(vs.take(i as int)) =~= ns.take(i as int));
            assert(ns.take(i as int + 1).drop_last() =~= ns.take(i as int));
            assert(ns.take(i as int + 1).last() == v@.name);
        }
        if map.get(v.person_name()).is_some() {
            proof {
                lemma_duplicate_prefix(ns, i as int + 1);
            }
            return Err(String::from_str(v.person_name()));
        }
        map.add(v);
        i += 1;
        proof {
            assert(map.order() =~= vs.take(i as int));
        }
    }
    proof {
        assert(vs.take(values@.len() as int) =~= vs);
        assert(ns.take(values@.len() as int) =~= ns);
    }
    Ok(map)
}

impl UnmatchedPeople {
    /// Builds the set from a batch of records, or reports the first rule the
    /// batch breaks (see `batch_fault`). Nothing is built on failure.
    pub fn try_create(people: Vec<PersonData>) -> (r: Result<Self, InputError>)
        ensures
            match r {
                Ok(u) => {
                    &&& batch_fault(views(people@)) is None
                    &&& u.wf()
                    &&& u.order() == views(people@)
                    &&& u@.dom() == names_of(views(people@)).to_set()
                    &&& u@.len() == people@.len()
                },
                Err(e) => batch_fault(views(people@)) == Some(e@),
            },
    {
        let ghost ps = views(people@);
        let map = match map_with_unique_index(people) {
            Ok(map) => map,
            Err(duplicate_name) => {
                return Err(InputError::DuplicatePerson(duplicate_name));
            },
        };
        proof {
            map.lemma_len();
        }
        match validate(&map) {
            Ok(()) => Ok(map),
            Err(e) => Err(e),
        }
    }
}

/// A traversal over a snapshot of people, first to last.
pub struct UnmatchedPeopleIterator {
    delegate: VecDeque<PersonData>,
}

impl View for UnmatchedPeopleIterator {
    type V = Seq<PersonView>;

    /// What is still to come.
    closed spec fn view(&self) -> Seq<PersonView> {
        self.delegate@.map_values(|p: PersonData| p@)
    }
}

impl UnmatchedPeopleIterator {
    pub fn next(&mut self) -> (r: Option<PersonData>)
        ensures
            match r {
                None => old(self)@.len() == 0 && final(self)@ == old(self)@,
                Some(p) => old(self)@.len() > 0 && p@ == old(self)@[0]
                    && final(self)@ == old(self)@.drop_first(),
            },
    {
        let r = self.delegate.pop_front();
        proof {
            if r is Some {
                assert(self@ =~= old(self)@.drop_first());
            }
        }
        r
    }
}

} // verus!
