//! The whole-batch rules on preferences.
use crate::input::{InputError, InputErrorView};
use crate::model::{PersonData, PersonView, UnmatchedPeople, no_self_choice, names_of};
use vstd::prelude::*;

verus! {

/// What is wrong with `owner` ranking `choice`, among the `known` names.
pub open spec fn choice_fault(owner: Seq<char>, choice: Seq<char>, known: Set<Seq<char>>) -> Option<
    InputErrorView,
> {
    if choice == owner {
        Some(InputErrorView::SelfChoice(owner))
    } else if !known.contains(choice) {
        Some(InputErrorView::ChoseMissingPerson { person_name: owner, invalid_choice: choice })
    } else {
        None
    }
}

/// The first fault among the preferences of `owner`, in rank order.
pub open spec fn prefs_fault(owner: Seq<char>, prefs: Seq<Seq<char>>, known: Set<Seq<char>>) -> Option<
    InputErrorView,
>
    decreases prefs.len(),
{
    if prefs.len() == 0 {
        None
    } else {
        match prefs_fault(owner, prefs.drop_last(), known) {
            Some(e) => Some(e),
            None => choice_fault(owner, prefs.last(), known),
        }
    }
}

/// The first fault among the records, record by record.
pub open spec fn people_fault(ps: Seq<PersonView>, known: Set<Seq<char>>) -> Option<InputErrorView>
    decreases ps.len(),
{
    if ps.len() == 0 {
        None
    } else {
        match people_fault(ps.drop_last(), known) {
            Some(e) => Some(e),
            None => prefs_fault(ps.last().name, ps.last().prefs, known),
        }
    }
}

/// The first rule that an indexed batch breaks: it is empty, or someone ranks
/// themself or somebody without a record.
pub open spec fn validation_fault(ps: Seq<PersonView>, known: Set<Seq<char>>) -> Option<
    InputErrorView,
> {
    if ps.len() == 0 {
        Some(InputErrorView::NoData)
    } else {
        people_fault(ps, known)
    }
}

/// Without a fault, every preference is known and none is the owner's own name.
pub proof fn lemma_prefs_sound(owner: Seq<char>, prefs: Seq<Seq<char>>, known: Set<Seq<char>>)
    requires
        prefs_fault(owner, prefs, known) is None,
    ensures
        forall|j: int|
            0 <= j < prefs.len() ==> #[trigger] prefs[j] != owner && known.contains(prefs[j]),
    decreases prefs.len(),
{
    if prefs.len() > 0 {
        lemma_prefs_sound(owner, prefs.drop_last(), known);
        assert forall|j: int| 0 <= j < prefs.len() implies #[trigger] prefs[j] != owner
            && known.contains(prefs[j]) by {
            if j < prefs.len() - 1 {
                assert(prefs.drop_last()[j] == prefs[j]);
            }
        }
    }
}

/// Without a fault, every record's preferences are known and exclude its name.
pub proof fn lemma_people_sound(ps: Seq<PersonView>, known: Set<Seq<char>>)
    requires
        people_fault(ps, known) is None,
    ensures
        forall|i: int, j: int|
            0 <= i < ps.len() && 0 <= j < ps[i].prefs.len() ==> #[trigger] ps[i].prefs[j]
                != ps[i].name && known.contains(ps[i].prefs[j]),
    decreases ps.len(),
{
    if ps.len() > 0 {
        lemma_people_sound(ps.drop_last(), known);
        lemma_prefs_sound(ps.last().name, ps.last().prefs, known);
        assert forall|i: int, j: int|
            0 <= i < ps.len() && 0 <= j < ps[i].prefs.len() implies #[trigger] ps[i].prefs[j]
                != ps[i].name && known.contains(ps[i].prefs[j]) by {
            if i < ps.len() - 1 {
                assert(ps.drop_last()[i] == ps[i]);
            }
        }
    }
}

/// A fault found in a prefix of the preferences is the first fault of all of them.
pub proof fn lemma_prefs_prefix(owner: Seq<char>, prefs: Seq<Seq<char>>, known: Set<Seq<char>>, k: int)
    requires
        0 <= k <= prefs.len(),
        prefs_fault(owner, prefs.take(k), known) is Some,
    ensures
        prefs_fault(owner, prefs, known) == prefs_fault(owner, prefs.take(k), known),
    decreases prefs.len(),
{
    if k == prefs.len() {
        assert(prefs.take(k) =~= prefs);
    } else {
        assert(prefs.drop_last().take(k) =~= prefs.take(k));
        lemma_prefs_prefix(owner, prefs.drop_last(), known, k);
    }
}

/// A fault found in a prefix of the records is the first fault of all of them.
pub proof fn lemma_people_prefix(ps: Seq<PersonView>, known: Set<Seq<char>>, k: int)
    requires
        0 <= k <= ps.len(),
        people_fault(ps.take(k), known) is Some,
    ensures
        people_fault(ps, known) == people_fault(ps.take(k), known),
    decreases ps.len(),
{
    if k == ps.len() {
        assert(ps.take(k) =~= ps);
    } else {
        assert(ps.drop_last().take(k) =~= ps.take(k));
        lemma_people_prefix(ps.drop_last(), known, k);
    }
}

/// Checks that nobody ranks themself and that every ranked name has a record,
/// going through the records in order and each ranking from the top.
pub fn validate_preferences_exist_and_dont_refer_to_self(people: &UnmatchedPeople) -> (r: Result<
    (),
    InputError,
>)
    requires
        people.indexed(),
    ensures
        r is Ok <==> people_fault(people.order(), people@.dom()) is None,
        r matches Err(e) ==> people_fault(people.order(), people@.dom()) == Some(e@),
{
    let ghost ps = people.order();
    let ghost known = people@.dom();
    let mut it = people.iterator();
    let ghost mut done: int = 0;
    loop
        invariant
            people.indexed(),
            ps == people.order(),
            known == people@.dom(),
            0 <= done <= ps.len(),
            it@ == ps.skip(done),
            people_fault(ps.take(done), known) is None,
        ensures
            people_fault(ps, known) is None,
        decreases it@.len(),
    {
        let ghost before = it@;
        match it.next() {
            None => {
                assert(ps.take(done) =~= ps);
                break ;
            },
            Some(person) => {
                assert(person@ == ps[done]);
                let name = person.person_name();
                let mut j: usize = 0;
                loop
                    invariant
                        people.indexed(),
                        ps == people.order(),
                        known == people@.dom(),
                        0 <= done < ps.len(),
                        person@ == ps[done],
                        people_fault(ps.take(done), known) is None,
                        name@ == person@.name,
                        j <= person@.prefs.len(),
                        prefs_fault(person@.name, person@.prefs.take(j as int), known) is None,
                    ensures
                        j == person@.prefs.len(),
                        prefs_fault(person@.name, person@.prefs.take(j as int), known) is None,
                    decreases person@.prefs.len() - j,
                {
                    let ghost pre = person@.prefs.take(j as int);
                    match person.get_choice(j) {
                        None => {
                            break ;
                        },
                        Some(choice) => {
                            let ghost owner = person@.name;
                            let ghost step = person@.prefs.take(j as int + 1);
                            proof {
                                assert(step.drop_last() =~= pre);
                                assert(step.last() == choice@);
                                assert(ps.take(done + 1).drop_last() =~= ps.take(done));
                                assert(ps.take(done + 1).last() == person@);
                            }
                            if choice.as_str().eq(name) {
                                proof {
                                    lemma_prefs_prefix(owner, person@.prefs, known, j + 1);
                                    lemma_people_prefix(ps, known, done + 1);
                                }
                                return Err(InputError::SelfChoice(String::from_str(name)));
                            }
                            if people.get(choice.as_str()).is_none() {
                                proof {
                                    lemma_prefs_prefix(owner, person@.prefs, known, j + 1);
                                    lemma_people_prefix(ps, known, done + 1);
                                }
                                return Err(
                                    InputError::ChoseMissingPerson {
                                        person_name: String::from_str(name),
                                        invalid_choice: choice.clone(),
                                    },
                                );
                            }
                            j += 1;
                        },
                    }
                }
                proof {
                    assert(person@.prefs.take(j as int) =~= person@.prefs);
                    assert(ps.take(done + 1).drop_last() =~= ps.take(done));
                    assert(ps.take(done + 1).last() == person@);
                    done = done + 1;
                    assert(it@ =~= ps.skip(done));
                }
            },
        }
    }
    Ok(())
}

/// Checks the rules that need the whole batch: it is not empty, and nobody
/// ranks themself or somebody without a record.
pub fn validate(people: &UnmatchedPeople) -> (r: Result<(), InputError>)
    requires
        people.indexed(),
    ensures
        r is Ok <==> validation_fault(people.order(), people@.dom()) is None,
        r matches Err(e) ==> validation_fault(people.order(), people@.dom()) == Some(e@),
        r is Ok ==> people.wf(),
{
    if people.count() == 0 {
        proof { people.lemma_len(); }
        return Err(InputError::NoData);
    }
    proof { people.lemma_len(); }
    let r = validate_preferences_exist_and_dont_refer_to_self(people);
    proof {
        if r is Ok {
            let ps = people.order();
            lemma_people_sound(ps, people@.dom());
            let m = people@;
            assert forall|k: Seq<char>, j: int|
                #![trigger m[k][j]]
                m.contains_key(k) && 0 <= j < m[k].len() implies m[k][j] != k by {
                let ns = names_of(ps);
                let i = choose|i: int| 0 <= i < ns.len() && ns[i] == k;
                assert(ps[i].name == k);
                assert(ps[i].prefs[j] != ps[i].name);
            }
        }
    }
    r
}

} // verus!
