//! The keywords of emails.

use crate::models::Keyword;
use crate::text;
use vstd::prelude::*;

verus! {

/// Whether a keyword is set, and whether it is there at all: the first entry of
/// that name decides.
pub open spec fn keyword_state(keywords: Seq<Keyword>, name: Seq<char>) -> Option<bool>
    decreases keywords.len(),
{
    if keywords.len() == 0 {
        None
    } else if keywords[0].name@ == name {
        Some(keywords[0].set)
    } else {
        keyword_state(keywords.drop_first(), name)
    }
}

/// The keywords as a map from names.
pub open spec fn keyword_map(keywords: Seq<Keyword>) -> Map<Seq<char>, bool> {
    Map::new(
        |name: Seq<char>| keyword_state(keywords, name) is Some,
        |name: Seq<char>| keyword_state(keywords, name)->0,
    )
}

/// Whether no name occurs twice.
pub open spec fn distinct_names(keywords: Seq<Keyword>) -> bool {
    forall|i: int, j: int|
        0 <= i < j < keywords.len() ==> (#[trigger] keywords[i]).name@ != (
        #[trigger] keywords[j]).name@
}

/// The map with the names set or, if `remove`, taken out. All other names keep
/// what they had.
pub open spec fn updated(
    map: Map<Seq<char>, bool>,
    names: Seq<Seq<char>>,
    remove: bool,
) -> Map<Seq<char>, bool> {
    Map::new(
        |name: Seq<char>|
            if names.contains(name) {
                !remove
            } else {
                map.contains_key(name)
            },
        |name: Seq<char>|
            if names.contains(name) {
                true
            } else {
                map[name]
            },
    )
}

proof fn lemma_state_of_found(keywords: Seq<Keyword>, i: int)
    requires
        0 <= i < keywords.len(),
        forall|j: int| 0 <= j < i ==> (#[trigger] keywords[j]).name@ != keywords[i].name@,
    ensures
        keyword_state(keywords, keywords[i].name@) == Some(keywords[i].set),
    decreases i,
{
    if i > 0 {
        assert(keywords[0].name@ != keywords[i].name@);
        let rest = keywords.drop_first();
        assert(rest[i - 1] == keywords[i]);
        assert forall|j: int| 0 <= j < i - 1 implies (#[trigger] rest[j]).name@ != rest[i
            - 1].name@ by {
            assert(rest[j] == keywords[j + 1]);
        }
        lemma_state_of_found(rest, i - 1);
    }
}

proof fn lemma_state_of_absent(keywords: Seq<Keyword>, name: Seq<char>)
    ensures
        keyword_state(keywords, name) is None <==> forall|j: int|
            0 <= j < keywords.len() ==> (#[trigger] keywords[j]).name@ != name,
    decreases keywords.len(),
{
    if keywords.len() > 0 {
        let rest = keywords.drop_first();
        lemma_state_of_absent(rest, name);
        if keywords[0].name@ != name {
            if keyword_state(keywords, name) is None {
                assert forall|j: int| 0 <= j < keywords.len() implies (
                #[trigger] keywords[j]).name@ != name by {
                    if j > 0 {
                        assert(keywords[j] == rest[j - 1]);
                    }
                }
            }
            if forall|j: int| 0 <= j < keywords.len() ==> (#[trigger] keywords[j]).name@ != name {
                assert forall|j: int| 0 <= j < rest.len() implies (#[trigger] rest[j]).name@
                    != name by {
                    assert(rest[j] == keywords[j + 1]);
                }
            }
        }
    }
}

proof fn lemma_state_push(keywords: Seq<Keyword>, keyword: Keyword, name: Seq<char>)
    ensures
        keyword_state(keywords.push(keyword), name) == match keyword_state(keywords, name) {
            Some(set) => Some(set),
            None => if keyword.name@ == name {
                Some(keyword.set)
            } else {
                None
            },
        },
    decreases keywords.len(),
{
    if keywords.len() == 0 {
        assert(keywords.push(keyword).drop_first() =~= Seq::<Keyword>::empty());
        assert(keyword_state(Seq::<Keyword>::empty(), name) is None);
    } else {
        lemma_state_push(keywords.drop_first(), keyword, name);
        assert(keywords.push(keyword).drop_first() =~= keywords.drop_first().push(keyword));
    }
}

/// Whether a keyword is set, and whether it is there at all.
pub fn find_keyword(keywords: &Vec<Keyword>, name: &str) -> (r: Option<bool>)
    ensures
        r == keyword_state(keywords@, name@),
{
    let mut i: usize = 0;
    while i < keywords.len()
        invariant
            i <= keywords@.len(),
            forall|j: int| 0 <= j < i ==> (#[trigger] keywords@[j]).name@ != name@,
        decreases keywords@.len() - i,
    {
        if text::same_str(keywords[i].name.as_str(), name) {
            proof {
                lemma_state_of_found(keywords@, i as int);
            }
            return Some(keywords[i].set);
        }
        i = i + 1;
    }
    proof {
        lemma_state_of_absent(keywords@, name@);
    }
    None
}

/// What a keyword is once the listed names are taken out.
spec fn state_without(keywords: Seq<Keyword>, names: Seq<Seq<char>>, name: Seq<char>) -> Option<
    bool,
> {
    if names.contains(name) {
        None
    } else {
        keyword_state(keywords, name)
    }
}

/// The keywords with the names set or, if `remove`, taken out. All other
/// keywords keep what they had. No name occurs twice in the result.
pub fn compute_keyword_update(current: &Vec<Keyword>, names: &[String], remove: bool) -> (r: Vec<
    Keyword,
>)
    ensures
        keyword_map(r@) == updated(keyword_map(current@), text::texts(names@), remove),
        distinct_names(r@),
{
    let ghost listed = text::texts(names@);
    let mut out: Vec<Keyword> = Vec::new();
    let mut i: usize = 0;
    proof {
        assert(current@.take(0) =~= Seq::<Keyword>::empty());
    }
    while i < current.len()
        invariant
            i <= current@.len(),
            listed == text::texts(names@),
            distinct_names(out@),
            forall|name: Seq<char>| #[trigger]
                keyword_state(out@, name) == state_without(
                    current@.take(i as int),
                    listed,
                    name,
                ),
        decreases current@.len() - i,
    {
        let ghost before = out@;
        let ghost entry = current@[i as int];
        let name = current[i].name.as_str();
        let taken = text::has_text(names, name) || find_keyword(&out, name).is_some();
        if !taken {
            out.push(Keyword { name: current[i].name.clone(), set: current[i].set });
        }
        proof {
            lemma_state_of_absent(before, entry.name@);
            assert(current@.take(i + 1) =~= current@.take(i as int).push(entry));
            assert forall|name: Seq<char>| #[trigger]
                keyword_state(out@, name) == state_without(
                    current@.take(i + 1),
                    listed,
                    name,
                ) by {
                lemma_state_push(current@.take(i as int), entry, name);
                assert(keyword_state(before, name) == state_without(
                    current@.take(i as int),
                    listed,
                    name,
                ));
                if !taken {
                    lemma_state_push(before, out@.last(), name);
                    assert(out@ =~= before.push(out@.last()));
                }
            }
        }
        i = i + 1;
    }
    assert(current@.take(current@.len() as int) =~= current@);
    if !remove {
        let mut k: usize = 0;
        proof {
            assert(listed.take(0) =~= Seq::<Seq<char>>::empty());
        }
        while k < names.len()
            invariant
                k <= names@.len(),
                listed == text::texts(names@),
                distinct_names(out@),
                forall|name: Seq<char>| #[trigger]
                    keyword_state(out@, name) == if listed.take(k as int).contains(name) {
                        Some(true)
                    } else {
                        state_without(current@, listed, name)
                    },
            decreases names@.len() - k,
        {
            let ghost before = out@;
            let there = find_keyword(&out, names[k].as_str()).is_some();
            if !there {
                out.push(Keyword { name: names[k].clone(), set: true });
            }
            proof {
                let added = names@[k as int]@;
                lemma_state_of_absent(before, added);
                let had = listed.take(k as int);
                let has = listed.take(k + 1);
                assert(has =~= had.push(added));
                assert(listed[k as int] == added);
                assert(listed.contains(added));
                assert forall|name: Seq<char>| #[trigger]
                    keyword_state(out@, name) == if has.contains(name) {
                        Some(true)
                    } else {
                        state_without(current@, listed, name)
                    } by {
                    if !there {
                        lemma_state_push(before, out@.last(), name);
                        assert(out@ =~= before.push(out@.last()));
                    }
                    assert(keyword_state(before, added) == if had.contains(added) {
                        Some(true)
                    } else {
                        state_without(current@, listed, added)
                    });
                    assert(keyword_state(before, name) == if had.contains(name) {
                        Some(true)
                    } else {
                        state_without(current@, listed, name)
                    });
                    if had.contains(name) {
                        let j = choose|j: int| 0 <= j < had.len() && had[j] == name;
                        assert(has[j] == name);
                    }
                    if name == added {
                        assert(has[k as int] == name);
                    }
                    if has.contains(name) && name != added {
                        let j = choose|j: int| 0 <= j < has.len() && has[j] == name;
                        assert(had[j] == name);
                    }
                }
            }
            k = k + 1;
        }
        assert(listed.take(listed.len() as int) =~= listed);
    }
    proof {
        let target = updated(keyword_map(current@), listed, remove);
        assert forall|name: Seq<char>| #[trigger]
            keyword_map(out@).contains_key(name) <==> target.contains_key(name) by {
            assert(keyword_state(out@, name) == keyword_state(out@, name));
        }
        assert(keyword_map(out@) =~= target);
    }
    out
}

proof fn lemma_same_state(a: Seq<Keyword>, b: Seq<Keyword>, name: Seq<char>)
    requires
        keyword_map(a) == keyword_map(b),
    ensures
        keyword_state(a, name) == keyword_state(b, name),
{
    assert(keyword_map(a).contains_key(name) == (keyword_state(a, name) is Some));
    assert(keyword_map(b).contains_key(name) == (keyword_state(b, name) is Some));
    if keyword_state(a, name) is Some {
        assert(keyword_map(a)[name] == keyword_state(a, name)->0);
        assert(keyword_map(b)[name] == keyword_state(b, name)->0);
    }
}

/// Whether `b` says the same as `a` of the names in `a`.
fn agrees(a: &Vec<Keyword>, b: &Vec<Keyword>) -> (r: bool)
    ensures
        r == forall|j: int|
            0 <= j < a@.len() ==> keyword_state(a@, (#[trigger] a@[j]).name@) == keyword_state(
                b@,
                a@[j].name@,
            ),
{
    let mut i: usize = 0;
    while i < a.len()
        invariant
            i <= a@.len(),
            forall|j: int|
                0 <= j < i ==> keyword_state(a@, (#[trigger] a@[j]).name@) == keyword_state(
                    b@,
                    a@[j].name@,
                ),
        decreases a@.len() - i,
    {
        let own = find_keyword(a, a[i].name.as_str());
        let other = find_keyword(b, a[i].name.as_str());
        let equal = match (own, other) {
            (Some(x), Some(y)) => x == y,
            (None, None) => true,
            _ => false,
        };
        if !equal {
            assert(keyword_state(a@, a@[i as int].name@) != keyword_state(b@, a@[i as int].name@));
            return false;
        }
        i = i + 1;
    }
    true
}

/// Whether two lists of keywords say the same of every name.
pub fn same_keywords(a: &Vec<Keyword>, b: &Vec<Keyword>) -> (r: bool)
    ensures
        r == (keyword_map(a@) == keyword_map(b@)),
{
    let r = agrees(a, b) && agrees(b, a);
    proof {
        if keyword_map(a@) == keyword_map(b@) {
            assert forall|j: int| 0 <= j < a@.len() implies keyword_state(
                a@,
                (#[trigger] a@[j]).name@,
            ) == keyword_state(b@, a@[j].name@) by {
                lemma_same_state(a@, b@, a@[j].name@);
            }
            assert forall|j: int| 0 <= j < b@.len() implies keyword_state(
                b@,
                (#[trigger] b@[j]).name@,
            ) == keyword_state(a@, b@[j].name@) by {
                lemma_same_state(a@, b@, b@[j].name@);
            }
        }
        if r {
            assert forall|name: Seq<char>| #[trigger]
                keyword_state(a@, name) == keyword_state(b@, name) by {
                lemma_state_of_absent(a@, name);
                lemma_state_of_absent(b@, name);
            }
            assert(keyword_map(a@) =~= keyword_map(b@));
        }
    }
    r
}

/// Law: updating keywords once more changes nothing.
pub proof fn law_update_idempotent(
    map: Map<Seq<char>, bool>,
    names: Seq<Seq<char>>,
    remove: bool,
)
    ensures
        updated(updated(map, names, remove), names, remove) == updated(map, names, remove),
{
    assert(updated(updated(map, names, remove), names, remove) =~= updated(map, names, remove));
}

/// Law: an update leaves every keyword alone that it does not name; those that it
/// names are set after adding and gone after removing.
pub proof fn law_update_exact(
    map: Map<Seq<char>, bool>,
    names: Seq<Seq<char>>,
    remove: bool,
    name: Seq<char>,
)
    ensures
        !names.contains(name) ==> updated(map, names, remove).contains_key(name)
            == map.contains_key(name),
        !names.contains(name) && map.contains_key(name) ==> updated(map, names, remove)[name]
            == map[name],
        names.contains(name) && remove ==> !updated(map, names, remove).contains_key(name),
        names.contains(name) && !remove ==> updated(map, names, remove).contains_key(name)
            && updated(map, names, remove)[name],
{
}

/// Law: removing keywords undoes adding them, where none of them was there.
pub proof fn law_remove_undoes_add(map: Map<Seq<char>, bool>, names: Seq<Seq<char>>)
    requires
        forall|i: int| 0 <= i < names.len() ==> !map.contains_key(#[trigger] names[i]),
    ensures
        updated(updated(map, names, false), names, true) == map,
{
    assert(updated(updated(map, names, false), names, true) =~= map);
}

/// Law: of several entries for a keyword the first counts.
pub proof fn law_first_entry_counts(keywords: Seq<Keyword>, k: int)
    requires
        0 <= k < keywords.len(),
        forall|j: int| 0 <= j < k ==> (#[trigger] keywords[j]).name@ != keywords[k].name@,
    ensures
        keyword_state(keywords, keywords[k].name@) == Some(keywords[k].set),
        keyword_map(keywords).contains_key(keywords[k].name@),
        keyword_map(keywords)[keywords[k].name@] == keywords[k].set,
{
    lemma_state_of_found(keywords, k);
}

/// Law: a keyword is there exactly if there is an entry for it.
pub proof fn law_keyword_there(keywords: Seq<Keyword>, name: Seq<char>)
    ensures
        keyword_map(keywords).contains_key(name) <==> exists|j: int|
            0 <= j < keywords.len() && (#[trigger] keywords[j]).name@ == name,
        keyword_state(keywords, name) is Some <==> keyword_map(keywords).contains_key(name),
{
    lemma_state_of_absent(keywords, name);
}

/// Law: names are distinct if no two entries share one.
pub proof fn law_distinct_names(keywords: Seq<Keyword>)
    ensures
        distinct_names(keywords) <==> Seq::new(
            keywords.len(),
            |i: int| keywords[i].name@,
        ).no_duplicates(),
{
    let names = Seq::new(keywords.len(), |i: int| keywords[i].name@);
    if distinct_names(keywords) {
        assert forall|i: int, j: int|
            0 <= i < names.len() && 0 <= j < names.len() && i != j implies names[i] != names[j] by {
            if i < j {
                assert(keywords[i].name@ != keywords[j].name@);
            } else {
                assert(keywords[j].name@ != keywords[i].name@);
            }
        }
    }
    if names.no_duplicates() {
        assert forall|i: int, j: int| 0 <= i < j < keywords.len() implies (
        #[trigger] keywords[i]).name@ != (#[trigger] keywords[j]).name@ by {
            assert(names[i] != names[j]);
        }
    }
}

} // verus!
