//! Pairing people whose first choices are mutual.
use crate::model::{UnmatchedPeople, names_of, no_self_choice, texts};
use vstd::prelude::*;

verus! {

/// Two matched people; the first is the one whose turn produced the match.
#[derive(Debug, PartialEq, Eq)]
pub struct Assignment(pub String, pub String);

impl View for Assignment {
    type V = (Seq<char>, Seq<char>);

    open spec fn view(&self) -> (Seq<char>, Seq<char>) {
        (self.0@, self.1@)
    }
}

/// The pairs found, in the order found, and everyone left unmatched.
#[derive(Debug, PartialEq, Eq)]
pub struct MatchOutcome {
    pub matches: Vec<Assignment>,
    pub unmatched: Vec<String>,
}

/// `ls` joined with a line break between each two.
pub open spec fn join_lines(ls: Seq<Seq<char>>) -> Seq<char>
    decreases ls.len(),
{
    if ls.len() == 0 {
        Seq::empty()
    } else if ls.len() == 1 {
        ls[0]
    } else {
        join_lines(ls.drop_last()) + "\n"@ + ls.last()
    }
}

/// The line that shows one pair.
pub open spec fn pair_line(pr: (Seq<char>, Seq<char>)) -> Seq<char> {
    pr.0 + " & "@ + pr.1
}

/// The lines of the report: a heading, one line per pair, a blank line, a
/// second heading, and one line per unmatched name.
pub open spec fn report_lines(ms: Seq<(Seq<char>, Seq<char>)>, unmatched: Seq<Seq<char>>) -> Seq<
    Seq<char>,
> {
    seq!["-- Matches --"@] + ms.map_values(|pr: (Seq<char>, Seq<char>)| pair_line(pr)) + seq![
        ""@,
        "-- Unmatched --"@,
    ] + unmatched
}

impl MatchOutcome {
    /// The report of this outcome, as text.
    pub fn render(&self) -> (r: String)
        ensures
            r@ == join_lines(report_lines(pairs(self.matches@), texts(self.unmatched@))),
    {
        let ghost want = report_lines(pairs(self.matches@), texts(self.unmatched@));
        let mut lines: Vec<String> = Vec::new();
        lines.push(String::from_str("-- Matches --"));
        let mut i: usize = 0;
        while i < self.matches.len()
            invariant
                i <= self.matches@.len(),
                texts(lines@) == seq!["-- Matches --"@] + pairs(self.matches@).take(i as int).map_values(
                    |pr: (Seq<char>, Seq<char>)| pair_line(pr),
                ),
            decreases self.matches.len() - i,
        {
            let assignment = &self.matches[i];
            let mut line = String::from_str(assignment.0.as_str());
            line.append(" & ");
            line.append(assignment.1.as_str());
            proof {
                assert(texts(lines@.push(line)) =~= texts(lines@).push(line@));
                assert(pairs(self.matches@).take(i as int + 1).map_values(
                    |pr: (Seq<char>, Seq<char>)| pair_line(pr),
                ) =~= pairs(self.matches@).take(i as int).map_values(
                    |pr: (Seq<char>, Seq<char>)| pair_line(pr),
                ).push(line@));
            }
            lines.push(line);
            i += 1;
        }
        let blank = String::from_str("");
        let heading = String::from_str("-- Unmatched --");
        let ghost before = texts(lines@);
        lines.push(blank);
        lines.push(heading);
        let ghost m = self.matches@.len() as int;
        proof {
            assert(pairs(self.matches@).take(m) =~= pairs(self.matches@));
            assert(texts(lines@) =~= before.push(blank@).push(heading@));
            assert(texts(lines@) =~= want.take(m + 3));
        }
        let mut k: usize = 0;
        while k < self.unmatched.len()
            invariant
                k <= self.unmatched@.len(),
                want == report_lines(pairs(self.matches@), texts(self.unmatched@)),
                m == self.matches@.len(),
                texts(lines@) == want.take(m + 3 + k),
            decreases self.unmatched.len() - k,
        {
            let name = self.unmatched[k].clone();
            proof {
                assert(texts(lines@.push(name)) =~= texts(lines@).push(name@));
                assert(want[m + 3 + k] == texts(self.unmatched@)[k as int]);
                assert(want.take(m + 3 + k + 1) =~= want.take(m + 3 + k).push(name@));
            }
            lines.push(name);
            k += 1;
        }
        proof {
            assert(want.take(m + 3 + self.unmatched@.len()) =~= want);
        }
        join(&lines)
    }
}

/// `ls` joined with a line break between each two.
fn join(ls: &Vec<String>) -> (r: String)
    ensures
        r@ == join_lines(texts(ls@)),
{
    let mut r = String::new();
    let mut i: usize = 0;
    while i < ls.len()
        invariant
            i <= ls@.len(),
            r@ == join_lines(texts(ls@).take(i as int)),
        decreases ls.len() - i,
    {
        let ghost pre = r@;
        let ghost t = texts(ls@).take(i as int + 1);
        proof {
            assert(t.drop_last() =~= texts(ls@).take(i as int));
            assert(t.last() == ls@[i as int]@);
        }
        if i > 0 {
            r.append("\n");
        }
        r.append(ls[i].as_str());
        proof {
            if i == 0 {
                assert(r@ =~= t[0]);
            }
        }
        i += 1;
    }
    proof {
        assert(texts(ls@).take(ls@.len() as int) =~= texts(ls@));
    }
    r
}

/// A failure of a matching rule. No current rule fails.
#[derive(Debug, PartialEq, Eq)]
pub enum MatchError {
    Todo,
}

/// The pairs, as pairs of names.
pub open spec fn pairs(v: Seq<Assignment>) -> Seq<(Seq<char>, Seq<char>)> {
    v.map_values(|a: Assignment| a@)
}

/// Every name of the pairs, pair by pair.
pub open spec fn flat(ms: Seq<(Seq<char>, Seq<char>)>) -> Seq<Seq<char>>
    decreases ms.len(),
{
    if ms.len() == 0 {
        Seq::empty()
    } else {
        flat(ms.drop_last()).push(ms.last().0).push(ms.last().1)
    }
}

/// The first choice of `p`, if `p` is known and ranks anybody.
pub open spec fn first_choice(m: Map<Seq<char>, Seq<Seq<char>>>, p: Seq<char>) -> Option<
    Seq<char>,
> {
    if m.contains_key(p) && m[p].len() > 0 {
        Some(m[p][0])
    } else {
        None
    }
}

/// Where a pass of the mutual-first-choice rule stands.
pub struct PassState {
    pub matches: Seq<(Seq<char>, Seq<char>)>,
    pub left: Set<Seq<char>>,
}

/// The rule's turn of `p`: while `p` and its first choice are both left and
/// that choice's first choice is `p`, the two are paired and leave.
pub open spec fn mutual_step(m: Map<Seq<char>, Seq<Seq<char>>>, st: PassState, p: Seq<char>) -> PassState {
    match first_choice(m, p) {
        Some(c) => if st.left.contains(p) && st.left.contains(c) && first_choice(m, c) == Some(p) {
            PassState { matches: st.matches.push((p, c)), left: st.left.remove(p).remove(c) }
        } else {
            st
        },
        None => st,
    }
}

/// One pass of the rule over `order`, starting with everyone of `m` left.
pub open spec fn mutual_pass(m: Map<Seq<char>, Seq<Seq<char>>>, order: Seq<Seq<char>>) -> PassState
    decreases order.len(),
{
    if order.len() == 0 {
        PassState { matches: Seq::empty(), left: m.dom() }
    } else {
        mutual_step(m, mutual_pass(m, order.drop_last()), order.last())
    }
}

/// The pairs and the unmatched names split `names` exactly: no name twice,
/// none in both, and none missing or foreign.
pub open spec fn partitions(
    names: Set<Seq<char>>,
    ms: Seq<(Seq<char>, Seq<char>)>,
    left: Set<Seq<char>>,
) -> bool {
    &&& flat(ms).no_duplicates()
    &&& forall|x: Seq<char>| #[trigger] flat(ms).contains(x) ==> !left.contains(x)
    &&& forall|x: Seq<char>|
        #[trigger] names.contains(x) <==> (flat(ms).contains(x) || left.contains(x))
}

proof fn lemma_flat_push(ms: Seq<(Seq<char>, Seq<char>)>, p: (Seq<char>, Seq<char>))
    ensures
        flat(ms.push(p)) == flat(ms).push(p.0).push(p.1),
{
    assert(ms.push(p).drop_last() =~= ms);
}

/// After any pass, the pairs and the people left partition everyone.
pub proof fn lemma_partition(m: Map<Seq<char>, Seq<Seq<char>>>, order: Seq<Seq<char>>)
    requires
        no_self_choice(m),
    ensures
        partitions(m.dom(), mutual_pass(m, order).matches, mutual_pass(m, order).left),
    decreases order.len(),
{
    if order.len() > 0 {
        let prev = mutual_pass(m, order.drop_last());
        lemma_partition(m, order.drop_last());
        let p = order.last();
        let st = mutual_pass(m, order);
        if st != prev {
            let c = m[p][0];
            assert(m[p][0] != p);
            lemma_flat_push(prev.matches, (p, c));
            let f = flat(prev.matches);
            let g = flat(st.matches);
            assert(g == f.push(p).push(c));
            assert(!f.contains(p) && !f.contains(c));
            assert forall|a: int, b: int| 0 <= a < b < g.len() implies g[a] != g[b] by {
                if b == g.len() - 1 {
                    if a < f.len() {
                        assert(f[a] == g[a]);
                    }
                } else if b == g.len() - 2 {
                    assert(f[a] == g[a]);
                } else {
                    assert(f[a] == g[a] && f[b] == g[b]);
                }
            }
            assert forall|x: Seq<char>| #[trigger] g.contains(x) implies !st.left.contains(x) by {
                if x != p && x != c {
                    let i = choose|i: int| 0 <= i < g.len() && g[i] == x;
                    assert(f[i] == x);
                    assert(f.contains(x));
                }
            }
            assert forall|x: Seq<char>| #[trigger]
                m.dom().contains(x) <==> (g.contains(x) || st.left.contains(x)) by {
                if f.contains(x) {
                    let i = choose|i: int| 0 <= i < f.len() && f[i] == x;
                    assert(g[i] == x);
                }
                if g.contains(x) && x != p && x != c {
                    let i = choose|i: int| 0 <= i < g.len() && g[i] == x;
                    assert(f[i] == x);
                }
                if x == p {
                    assert(g[g.len() - 2] == x);
                }
                if x == c {
                    assert(g[g.len() - 1] == x);
                }
            }
        }
    }
}

/// The pair has `x` as one of its two names.
pub open spec fn involves(pr: (Seq<char>, Seq<char>), x: Seq<char>) -> bool {
    pr.0 == x || pr.1 == x
}

/// `a` and `b` are both still left and no pair names either.
pub open spec fn untouched(st: PassState, a: Seq<char>, b: Seq<char>) -> bool {
    &&& st.left.contains(a)
    &&& st.left.contains(b)
    &&& forall|j: int|
        0 <= j < st.matches.len() ==> !involves(#[trigger] st.matches[j], a) && !involves(
            st.matches[j],
            b,
        )
}

/// `a` and `b` have left, paired with each other by exactly one pair, and no
/// other pair names either.
pub open spec fn paired_once(st: PassState, a: Seq<char>, b: Seq<char>) -> bool {
    &&& !st.left.contains(a)
    &&& !st.left.contains(b)
    &&& exists|i: int|
        #![trigger st.matches[i]]
        0 <= i < st.matches.len() && (st.matches[i] == (a, b) || st.matches[i] == (b, a)) && forall|
            j: int,
        |
            0 <= j < st.matches.len() && j != i ==> !involves(#[trigger] st.matches[j], a)
                && !involves(st.matches[j], b)
}

proof fn lemma_mutual_progress(
    m: Map<Seq<char>, Seq<Seq<char>>>,
    order: Seq<Seq<char>>,
    a: Seq<char>,
    b: Seq<char>,
)
    requires
        no_self_choice(m),
        first_choice(m, a) == Some(b),
        first_choice(m, b) == Some(a),
    ensures
        (order.contains(a) || order.contains(b)) ==> paired_once(mutual_pass(m, order), a, b),
        !(order.contains(a) || order.contains(b)) ==> untouched(mutual_pass(m, order), a, b),
    decreases order.len(),
{
    assert(m[a][0] != a);
    if order.len() > 0 {
        let d = order.drop_last();
        let x = order.last();
        lemma_mutual_progress(m, d, a, b);
        let prev = mutual_pass(m, d);
        let st = mutual_pass(m, order);
        assert(order == d.push(x));
        assert(order.contains(a) <==> (d.contains(a) || x == a)) by {
            if order.contains(a) && x != a {
                let i = choose|i: int| 0 <= i < order.len() && order[i] == a;
                assert(d[i] == a);
            }
            if d.contains(a) {
                let i = choose|i: int| 0 <= i < d.len() && d[i] == a;
                assert(order[i] == a);
            }
        }
        assert(order.contains(b) <==> (d.contains(b) || x == b)) by {
            if order.contains(b) && x != b {
                let i = choose|i: int| 0 <= i < order.len() && order[i] == b;
                assert(d[i] == b);
            }
            if d.contains(b) {
                let i = choose|i: int| 0 <= i < d.len() && d[i] == b;
                assert(order[i] == b);
            }
        }
        if st != prev {
            let c = m[x][0];
            assert(st.matches == prev.matches.push((x, c)));
            assert(st.matches[prev.matches.len() as int] == (x, c));
            if d.contains(a) || d.contains(b) {
                let i = choose|i: int|
                    #![trigger prev.matches[i]]
                    0 <= i < prev.matches.len() && (prev.matches[i] == (a, b) || prev.matches[i] == (
                        b,
                        a,
                    )) && forall|j: int|
                        0 <= j < prev.matches.len() && j != i ==> !involves(
                            #[trigger] prev.matches[j],
                            a,
                        ) && !involves(prev.matches[j], b);
                assert(st.matches[i] == prev.matches[i]);
            } else if x == a || x == b {
                let i = prev.matches.len() as int;
                assert forall|j: int| 0 <= j < st.matches.len() && j != i implies !involves(
                    #[trigger] st.matches[j],
                    a,
                ) && !involves(st.matches[j], b) by {
                    assert(st.matches[j] == prev.matches[j]);
                }
            } else {
                assert forall|j: int| 0 <= j < st.matches.len() implies !involves(
                    #[trigger] st.matches[j],
                    a,
                ) && !involves(st.matches[j], b) by {
                    if j < prev.matches.len() {
                        assert(st.matches[j] == prev.matches[j]);
                    }
                }
            }
        }
    }
}

/// Two people who are each other's first choice are paired with each other
/// by exactly one pair, no other pair names either, and neither is left
/// unmatched, as soon as the pass visits one of them.
pub proof fn lemma_mutual_pair(
    m: Map<Seq<char>, Seq<Seq<char>>>,
    order: Seq<Seq<char>>,
    a: Seq<char>,
    b: Seq<char>,
)
    requires
        no_self_choice(m),
        first_choice(m, a) == Some(b),
        first_choice(m, b) == Some(a),
        order.contains(a),
    ensures
        paired_once(mutual_pass(m, order), a, b),
{
    lemma_mutual_progress(m, order, a, b);
}

/// Pairs everyone whose first choice is mutual, visiting people in the set's
/// order, and reports the rest as unmatched. The set is used up.
pub fn match_roommates(unmatched_people: UnmatchedPeople) -> (r: Result<MatchOutcome, MatchError>)
    requires
        unmatched_people.wf(),
    ensures
        r matches Ok(outcome) && {
            let st = mutual_pass(unmatched_people@, names_of(unmatched_people.order()));
            &&& pairs(outcome.matches@) == st.matches
            &&& texts(outcome.unmatched@).no_duplicates()
            &&& texts(outcome.unmatched@).to_set() == st.left
            &&& partitions(
                unmatched_people@.dom(),
                pairs(outcome.matches@),
                texts(outcome.unmatched@).to_set(),
            )
        },
{
    let mut unmatched_people = unmatched_people;
    let ghost m = unmatched_people@;
    let ghost ps = unmatched_people.order();
    let ghost order = names_of(ps);
    let mut matches: Vec<Assignment> = Vec::new();
    let mut it = unmatched_people.iterator();
    let ghost mut done: int = 0;
    proof {
        assert forall|i: int| #![trigger ps[i]] 0 <= i < ps.len() implies m.contains_key(ps[i].name) by {
            assert(order[i] == ps[i].name);
            assert(order.contains(ps[i].name));
        }
        assert(order.take(0) =~= Seq::<Seq<char>>::empty());
        assert(ps.skip(0) =~= ps);
        assert(m.restrict(m.dom()) =~= m);
        assert(pairs(matches@) =~= Seq::<(Seq<char>, Seq<char>)>::empty());
    }
    loop
        invariant
            no_self_choice(m),
            order == names_of(ps),
            forall|i: int| #![trigger ps[i]] 0 <= i < ps.len() ==> m[ps[i].name] == ps[i].prefs,
            forall|i: int| #![trigger ps[i]] 0 <= i < ps.len() ==> m.contains_key(ps[i].name),
            unmatched_people.wf(),
            0 <= done <= order.len(),
            it@ == ps.skip(done),
            unmatched_people@ == m.restrict(mutual_pass(m, order.take(done)).left),
            mutual_pass(m, order.take(done)).left.subset_of(m.dom()),
            pairs(matches@) == mutual_pass(m, order.take(done)).matches,
        ensures
            done == order.len(),
            unmatched_people.wf(),
            unmatched_people@ == m.restrict(mutual_pass(m, order.take(done)).left),
            pairs(matches@) == mutual_pass(m, order.take(done)).matches,
        decreases it@.len(),
    {
        let ghost prev = mutual_pass(m, order.take(done));
        let current_person = match it.next() {
            None => {
                break ;
            },
            Some(p) => p,
        };
        proof {
            assert(it@ =~= ps.skip(done + 1));
            assert(current_person@ == ps[done]);
            assert(order[done] == ps[done].name);
            assert(order.take(done + 1).drop_last() =~= order.take(done));
            assert(order.take(done + 1).last() == current_person@.name);
        }
        let ghost p = current_person@.name;
        let name = current_person.person_name();
        if let Some(first_choice_name) = current_person.get_choice(0) {
            if unmatched_people.get(name).is_some() {
                if let Some(first_choice_person) = unmatched_people.get(first_choice_name.as_str()) {
                    if let Some(first_choices_first_choice_name) = first_choice_person.get_choice(0) {
                        if first_choices_first_choice_name.as_str().eq(name) {
                            matches.push(
                                Assignment(String::from_str(name), first_choice_name.clone()),
                            );
                            unmatched_people.remove(name);
                            unmatched_people.remove(first_choice_name.as_str());
                            proof {
                                let c = first_choice_name@;
                                assert(first_choice(m, p) == Some(c));
                                assert(first_choice(m, c) == Some(p));
                                assert(unmatched_people@ =~= m.restrict(prev.left.remove(p).remove(c)));
                                assert(pairs(matches@) =~= prev.matches.push((p, c)));
                            }
                        }
                    }
                }
            }
        }
        proof {
            done = done + 1;
            assert(mutual_pass(m, order.take(done)).left.subset_of(m.dom()));
        }
    }
    proof {
        assert(order.take(done) =~= order);
    }
    let ghost rest = unmatched_people.order();
    proof {
        unmatched_people.lemma_len();
        lemma_partition(m, order);
    }
    let unmatched = unmatched_people.drain_all_names();
    proof {
        let st = mutual_pass(m, order);
        assert(texts(unmatched@) == names_of(rest));
        assert(st.left =~= m.restrict(st.left).dom());
    }
    Ok(MatchOutcome { matches, unmatched })
}

} // verus!
