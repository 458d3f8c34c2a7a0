//! Turning text lines into person records.
//!
//! A line reads `name,first choice,second choice,...`. Every field is trimmed
//! of surrounding white space; the first field is the name and must not be
//! empty, and empty preference fields are dropped.
use crate::input::{InputError, InputErrorView};
use crate::model::{
    PersonData, PersonView, UnmatchedPeople, batch_fault, first_duplicate, lemma_no_duplicate,
    names_of, people_map, texts, views,
};
use vstd::prelude::*;

verus! {

/// Whether a character has the Unicode `White_Space` property.
pub uninterp spec fn white_space(c: char) -> bool;

/// Relies on `char::is_whitespace`, which tells whether `c` has the Unicode
/// `White_Space` property.
#[verifier::external_body]
fn is_white_space(c: char) -> (r: bool)
    ensures
        r == white_space(c),
{
    c.is_whitespace()
}

/// The comma-separated fields of `s`, in order; there is always at least one.
pub open spec fn fields(s: Seq<char>) -> Seq<Seq<char>>
    decreases s.len(),
{
    if s.len() == 0 {
        seq![Seq::<char>::empty()]
    } else {
        let f = fields(s.drop_last());
        if s.last() == ',' {
            f.push(Seq::<char>::empty())
        } else {
            f.update(f.len() - 1, f.last().push(s.last()))
        }
    }
}

/// `s` without its leading white space.
pub open spec fn trim_start(s: Seq<char>) -> Seq<char>
    decreases s.len(),
{
    if s.len() > 0 && white_space(s[0]) {
        trim_start(s.drop_first())
    } else {
        s
    }
}

/// `s` without its trailing white space.
pub open spec fn trim_end(s: Seq<char>) -> Seq<char>
    decreases s.len(),
{
    if s.len() > 0 && white_space(s.last()) {
        trim_end(s.drop_last())
    } else {
        s
    }
}

/// `s` without leading or trailing white space.
pub open spec fn trim(s: Seq<char>) -> Seq<char> {
    trim_end(trim_start(s))
}

/// The trimmed fields that are not empty, in order.
pub open spec fn kept_fields(fs: Seq<Seq<char>>) -> Seq<Seq<char>>
    decreases fs.len(),
{
    if fs.len() == 0 {
        Seq::empty()
    } else {
        let k = kept_fields(fs.drop_last());
        if trim(fs.last()).len() > 0 {
            k.push(trim(fs.last()))
        } else {
            k
        }
    }
}

/// The record that one line describes, or why it describes none.
pub open spec fn line_record(line: Seq<char>) -> Result<PersonView, InputErrorView> {
    let fs = fields(line);
    if trim(fs[0]).len() == 0 {
        Err(InputErrorView::BadLine { details: "empty line"@, line })
    } else {
        Ok(PersonView { name: trim(fs[0]), prefs: kept_fields(fs.drop_first()) })
    }
}

/// The records of all lines, or the error of the first line that has none.
pub open spec fn line_records(ls: Seq<Seq<char>>) -> Result<Seq<PersonView>, InputErrorView>
    decreases ls.len(),
{
    if ls.len() == 0 {
        Ok(Seq::empty())
    } else {
        match line_records(ls.drop_last()) {
            Err(e) => Err(e),
            Ok(ps) => match line_record(ls.last()) {
                Err(e) => Err(e),
                Ok(p) => Ok(ps.push(p)),
            },
        }
    }
}

/// What a batch of lines builds: its records, or the first error, checked in
/// this order: no lines; a line without a name; a rule of `batch_fault`.
pub open spec fn parse_outcome(ls: Seq<Seq<char>>) -> Result<Seq<PersonView>, InputErrorView> {
    if ls.len() == 0 {
        Err(InputErrorView::NoData)
    } else {
        match line_records(ls) {
            Err(e) => Err(e),
            Ok(ps) => match batch_fault(ps) {
                Some(e) => Err(e),
                None => Ok(ps),
            },
        }
    }
}

pub proof fn lemma_fields_nonempty(s: Seq<char>)
    ensures
        fields(s).len() >= 1,
    decreases s.len(),
{
    if s.len() > 0 {
        lemma_fields_nonempty(s.drop_last());
    }
}

/// Splits `line` at every comma.
fn split_fields(line: &str) -> (r: Vec<String>)
    ensures
        texts(r@) == fields(line@),
{
    let n = line.unicode_len();
    let mut r: Vec<String> = Vec::new();
    let mut start: usize = 0;
    let mut i: usize = 0;
    proof {
        assert(line@.take(0) =~= Seq::<char>::empty());
        assert(texts(r@).push(line@.subrange(0, 0)) =~= seq![Seq::<char>::empty()]);
    }
    while i < n
        invariant
            n == line@.len(),
            start <= i <= n,
            fields(line@.take(i as int)) == texts(r@).push(line@.subrange(start as int, i as int)),
        decreases n - i,
    {
        let c = line.get_char(i);
        proof {
            let t = line@.take(i as int + 1);
            assert(t.drop_last() =~= line@.take(i as int));
            assert(t.last() == c);
            lemma_fields_nonempty(line@.take(i as int));
        }
        if c == ',' {
            let field = String::from_str(line.substring_char(start, i));
            proof {
                assert(texts(r@.push(field)) =~= texts(r@).push(field@));
                assert(line@.subrange(i as int + 1, i as int + 1) =~= Seq::<char>::empty());
            }
            r.push(field);
            start = i + 1;
        } else {
            proof {
                assert(line@.subrange(start as int, i as int + 1) =~= line@.subrange(
                    start as int,
                    i as int,
                ).push(c));
                assert(texts(r@).push(line@.subrange(start as int, i as int)).update(
                    r@.len() as int,
                    line@.subrange(start as int, i as int + 1),
                ) =~= texts(r@).push(line@.subrange(start as int, i as int + 1)));
            }
        }
        i += 1;
    }
    let last = String::from_str(line.substring_char(start, n));
    proof {
        assert(line@.take(n as int) =~= line@);
        assert(texts(r@.push(last)) =~= texts(r@).push(last@));
    }
    r.push(last);
    r
}

/// `trim_start` of a suffix that starts with no white space is the suffix.
proof fn lemma_trim_start_step(s: Seq<char>, a: int)
    requires
        0 <= a < s.len(),
        white_space(s[a]),
    ensures
        trim_start(s.subrange(a, s.len() as int)) == trim_start(s.subrange(a + 1, s.len() as int)),
{
    assert(s.subrange(a, s.len() as int).drop_first() =~= s.subrange(a + 1, s.len() as int));
}

/// `s` without leading or trailing white space.
fn trim_text(s: &str) -> (r: String)
    ensures
        r@ == trim(s@),
{
    let n = s.unicode_len();
    let mut a: usize = 0;
    assert(s@.subrange(0, n as int) =~= s@);
    while a < n && is_white_space(s.get_char(a))
        invariant
            n == s@.len(),
            a <= n,
            trim_start(s@) == trim_start(s@.subrange(a as int, n as int)),
        decreases n - a,
    {
        proof {
            lemma_trim_start_step(s@, a as int);
        }
        a += 1;
    }
    let ghost front = s@.subrange(a as int, n as int);
    proof {
        assert(s@.subrange(0, n as int) =~= s@);
        if a < n {
            assert(front[0] == s@[a as int]);
        }
        assert(trim_start(front) == front);
    }
    let mut b: usize = n;
    while b > a && is_white_space(s.get_char(b - 1))
        invariant
            n == s@.len(),
            a <= b <= n,
            front == s@.subrange(a as int, n as int),
            trim_end(front) == trim_end(s@.subrange(a as int, b as int)),
        decreases b,
    {
        proof {
            let t = s@.subrange(a as int, b as int);
            assert(t.drop_last() =~= s@.subrange(a as int, b as int - 1));
        }
        b -= 1;
    }
    proof {
        let t = s@.subrange(a as int, b as int);
        if b > a {
            assert(t.last() == s@[b as int - 1]);
        }
        assert(trim_end(t) == t);
    }
    String::from_str(s.substring_char(a, b))
}

/// Reads one line as a person record: the first field is the name, the
/// others the preferences in rank order.
pub fn try_parse_line(line: String) -> (r: Result<PersonData, InputError>)
    ensures
        match r {
            Ok(p) => line_record(line@) == Ok::<PersonView, InputErrorView>(p@),
            Err(e) => line_record(line@) == Err::<PersonView, InputErrorView>(e@),
        },
{
    let fs = split_fields(line.as_str());
    let ghost fv = fields(line@);
    proof {
        lemma_fields_nonempty(line@);
    }
    let name = trim_text(fs[0].as_str());
    if name.unicode_len() == 0 {
        return Err(InputError::BadLine { details: String::from_str("empty line"), line });
    }
    let mut preferences: Vec<String> = Vec::new();
    let mut i: usize = 1;
    while i < fs.len()
        invariant
            fv == fields(line@),
            texts(fs@) == fv,
            1 <= i <= fs@.len(),
            texts(preferences@) == kept_fields(fv.drop_first().take(i - 1)),
        decreases fs.len() - i,
    {
        let t = trim_text(fs[i].as_str());
        proof {
            let pre = fv.drop_first().take(i as int);
            assert(pre.drop_last() =~= fv.drop_first().take(i - 1));
            assert(pre.last() == fs@[i as int]@);
        }
        if t.unicode_len() > 0 {
            proof {
                assert(texts(preferences@.push(t)) =~= texts(preferences@).push(t@));
            }
            preferences.push(t);
        }
        i += 1;
    }
    proof {
        assert(fv.drop_first().take(fs@.len() - 1) =~= fv.drop_first());
    }
    Ok(PersonData::new(name, preferences))
}

/// Reads every line, stopping at the first line without a name.
pub fn parse_lines(lines: Vec<String>) -> (r: Result<Vec<PersonData>, InputError>)
    ensures
        match r {
            Ok(ps) => line_records(texts(lines@)) == Ok::<Seq<PersonView>, InputErrorView>(
                views(ps@),
            ),
            Err(e) => line_records(texts(lines@)) == Err::<Seq<PersonView>, InputErrorView>(e@),
        },
{
    let ghost ls = texts(lines@);
    let mut people_data: Vec<PersonData> = Vec::with_capacity(lines.len());
    let mut i: usize = 0;
    proof {
        assert(ls.take(0) =~= Seq::<Seq<char>>::empty());
        assert(views(people_data@) =~= Seq::<PersonView>::empty());
    }
    while i < lines.len()
        invariant
            ls == texts(lines@),
            i <= lines@.len(),
            line_records(ls.take(i as int)) == Ok::<Seq<PersonView>, InputErrorView>(
                views(people_data@),
            ),
        decreases lines.len() - i,
    {
        proof {
            assert(ls.take(i as int + 1).drop_last() =~= ls.take(i as int));
            assert(ls.take(i as int + 1).last() == lines@[i as int]@);
        }
        match try_parse_line(lines[i].clone()) {
            Ok(p) => {
                proof {
                    assert(views(people_data@.push(p)) =~= views(people_data@).push(p@));
                }
                people_data.push(p);
            },
            Err(e) => {
                proof {
                    lemma_records_prefix_err(ls, i as int + 1);
                }
                return Err(e);
            },
        }
        i += 1;
    }
    proof {
        assert(ls.take(lines@.len() as int) =~= ls);
    }
    Ok(people_data)
}

/// An error in a prefix of the lines is the error of all of them.
proof fn lemma_records_prefix_err(ls: Seq<Seq<char>>, k: int)
    requires
        0 <= k <= ls.len(),
        line_records(ls.take(k)) is Err,
    ensures
        line_records(ls) == line_records(ls.take(k)),
    decreases ls.len(),
{
    if k == ls.len() {
        assert(ls.take(k) =~= ls);
    } else {
        assert(ls.drop_last().take(k) =~= ls.take(k));
        lemma_records_prefix_err(ls.drop_last(), k);
    }
}

/// Builds the set of people from lines of the form
/// `name,first choice,second choice,...`, where every choice is optional.
pub fn parse(lines: Vec<String>) -> (r: Result<UnmatchedPeople, InputError>)
    ensures
        match r {
            Ok(u) => {
                &&& parse_outcome(texts(lines@)) == Ok::<Seq<PersonView>, InputErrorView>(
                    u.order(),
                )
                &&& u.wf()
                &&& u@ == people_map(u.order())
            },
            Err(e) => parse_outcome(texts(lines@)) == Err::<Seq<PersonView>, InputErrorView>(e@),
        },
{
    if lines.len() == 0 {
        return Err(InputError::NoData);
    }
    let people_data = match parse_lines(lines) {
        Ok(p) => p,
        Err(e) => {
            return Err(e);
        },
    };
    let r = UnmatchedPeople::try_create(people_data);
    proof {
        if r is Ok {
            r->Ok_0.lemma_view_is_people_map();
        }
    }
    r
}

/// Each record that the lines give is the record of the line at its place.
pub proof fn lemma_line_records(ls: Seq<Seq<char>>)
    requires
        line_records(ls) is Ok,
    ensures
        line_records(ls)->Ok_0.len() == ls.len(),
        forall|i: int|
            0 <= i < ls.len() ==> #[trigger] line_record(ls[i]) == Ok::<
                PersonView,
                InputErrorView,
            >(line_records(ls)->Ok_0[i]),
    decreases ls.len(),
{
    if ls.len() > 0 {
        let d = ls.drop_last();
        lemma_line_records(d);
        assert forall|i: int| 0 <= i < ls.len() implies #[trigger] line_record(ls[i]) == Ok::<
            PersonView,
            InputErrorView,
        >(line_records(ls)->Ok_0[i]) by {
            if i < ls.len() - 1 {
                assert(d[i] == ls[i]);
            }
        }
    }
}

/// Reading the built set back gives each line's own data: every line names a
/// person present in the set, with exactly the preferences that line lists,
/// and the set holds nobody else.
pub proof fn lemma_round_trip(ls: Seq<Seq<char>>)
    requires
        parse_outcome(ls) is Ok,
    ensures
        forall|i: int|
            #![trigger ls[i]]
            0 <= i < ls.len() ==> {
                &&& line_record(ls[i]) is Ok
                &&& people_map(parse_outcome(ls)->Ok_0).contains_key(line_record(ls[i])->Ok_0.name)
                &&& people_map(parse_outcome(ls)->Ok_0)[line_record(ls[i])->Ok_0.name]
                    == line_record(ls[i])->Ok_0.prefs
            },
        forall|k: Seq<char>|
            #[trigger] people_map(parse_outcome(ls)->Ok_0).contains_key(k) ==> exists|i: int|
                0 <= i < ls.len() && line_record(ls[i]) is Ok && line_record(ls[i])->Ok_0.name == k,
{
    lemma_line_records(ls);
    let ps = parse_outcome(ls)->Ok_0;
    let ns = names_of(ps);
    lemma_no_duplicate(ns);
    assert forall|i: int|
        #![trigger ls[i]]
        0 <= i < ls.len() implies {
            &&& line_record(ls[i]) is Ok
            &&& people_map(ps).contains_key(line_record(ls[i])->Ok_0.name)
            &&& people_map(ps)[line_record(ls[i])->Ok_0.name] == line_record(ls[i])->Ok_0.prefs
        } by {
        assert(line_record(ls[i]) == Ok::<PersonView, InputErrorView>(ps[i]));
        assert(ns[i] == ps[i].name);
        assert(ns.contains(ps[i].name));
        let j = ns.index_of(ps[i].name);
        assert(ns[j] == ns[i]);
    }
    assert forall|k: Seq<char>| #[trigger] people_map(ps).contains_key(k) implies exists|i: int|
        0 <= i < ls.len() && line_record(ls[i]) is Ok && line_record(ls[i])->Ok_0.name == k by {
        let i = ns.index_of(k);
        assert(line_record(ls[i]) == Ok::<PersonView, InputErrorView>(ps[i]));
    }
}

} // verus!
