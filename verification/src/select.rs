//! Choosing the entries of an archive by name.

use crate::error::Error;
#[allow(unused_imports)]
use crate::text::{self, eq_ignore_ascii_case, quote, same_text};
use vstd::prelude::*;
use vstd::string::*;

verus! {

/// The entries selected for extraction, and any warnings raised while
/// resolving their names.
#[derive(Debug)]
pub struct Selection {
    /// Indices into the archive's file table, in request order.
    pub indices: Vec<usize>,
    /// Notes about names that matched only after ignoring case.
    pub warnings: Vec<String>,
}

/// Something that has a name to find it by.
pub trait Named {
    /// The name.
    spec fn text(&self) -> Seq<char>;

    /// The name.
    fn as_text(&self) -> (name: &str)
        ensures
            name@ == self.text(),
    ;
}

impl Named for &str {
    open spec fn text(&self) -> Seq<char> {
        (*self)@
    }

    fn as_text(&self) -> (name: &str) {
        self
    }
}

/// The names of a list of items.
pub open spec fn texts<T: Named>(items: Seq<T>) -> Seq<Seq<char>> {
    Seq::new(items.len(), |i: int| items[i].text())
}

/// The texts of a list of strings.
pub open spec fn strings(names: Seq<String>) -> Seq<Seq<char>> {
    Seq::new(names.len(), |i: int| names[i]@)
}

/// The entry that a request means: the first one whose name is the same but
/// for case.
pub open spec fn resolve(names: Seq<Seq<char>>, request: Seq<char>) -> Option<int> {
    names.map_values(|name: Seq<char>| text::same_but_case(name, request)).index_of_first(true)
}

/// Whether every request means some entry.
pub open spec fn all_resolve(names: Seq<Seq<char>>, requests: Seq<Seq<char>>) -> bool {
    forall|k: int| 0 <= k < requests.len() ==> resolve(names, #[trigger] requests[k]) is Some
}

/// The entries that the requests mean, each once, in the order of the first
/// request for it.
pub open spec fn picked(names: Seq<Seq<char>>, requests: Seq<Seq<char>>) -> Seq<int>
    decreases requests.len(),
{
    if requests.len() == 0 {
        Seq::empty()
    } else {
        let before = picked(names, requests.drop_last());
        let index = resolve(names, requests.last())->0;
        if before.contains(index) {
            before
        } else {
            before.push(index)
        }
    }
}

/// The entries to extract: all of them if nothing is requested.
pub open spec fn chosen(names: Seq<Seq<char>>, requests: Seq<Seq<char>>) -> Seq<int> {
    if requests.len() == 0 {
        Seq::new(names.len(), |i: int| i)
    } else {
        picked(names, requests)
    }
}

/// Whether `missing` is the first request that means no entry.
pub open spec fn first_missing(
    names: Seq<Seq<char>>,
    requests: Seq<Seq<char>>,
    missing: Seq<char>,
) -> bool {
    exists|k: int|
        {
            &&& 0 <= k < requests.len()
            &&& #[trigger] requests[k] == missing
            &&& resolve(names, missing) is None
            &&& all_resolve(names, requests.take(k))
        }
}

/// The note that a request is spelled differently in the archive.
pub open spec fn spelling_note(request: Seq<char>, stored: Seq<char>) -> Seq<char> {
    text::quoted(request) + " is stored in the archive as "@ + text::quoted(stored)
}

/// The notes on the requests whose spelling differs from the archive's, in
/// order.
pub open spec fn notes(names: Seq<Seq<char>>, requests: Seq<Seq<char>>) -> Seq<Seq<char>>
    decreases requests.len(),
{
    if requests.len() == 0 {
        Seq::empty()
    } else {
        let before = notes(names, requests.drop_last());
        let stored = names[resolve(names, requests.last())->0];
        if stored == requests.last() {
            before
        } else {
            before.push(spelling_note(requests.last(), stored))
        }
    }
}

/// Whether `stored` is the name that is looked for: `name`, in any case if
/// `any_case` is set.
pub open spec fn is_match(stored: Seq<char>, name: Seq<char>, any_case: bool) -> bool {
    if any_case {
        text::same_but_case(stored, name)
    } else {
        stored == name
    }
}

/// The first item that has the name `name`, in any case if `any_case` is set.
fn find_first<T: Named>(items: &[T], name: &str, any_case: bool) -> (found: Option<usize>)
    ensures
        match found {
            Some(index) => {
                &&& index < items@.len()
                &&& is_match(texts(items@)[index as int], name@, any_case)
                &&& forall|k: int|
                    0 <= k < index ==> !is_match(#[trigger] texts(items@)[k], name@, any_case)
            },
            None => forall|k: int|
                0 <= k < items@.len() ==> !is_match(#[trigger] texts(items@)[k], name@, any_case),
        },
{
    let mut index: usize = 0;
    while index < items.len()
        invariant
            index <= items@.len(),
            forall|k: int|
                0 <= k < index ==> !is_match(#[trigger] texts(items@)[k], name@, any_case),
        decreases items@.len() - index,
    {
        let stored = items[index].as_text();
        let hit = if any_case {
            eq_ignore_ascii_case(stored, name)
        } else {
            same_text(stored, name)
        };
        if hit {
            return Some(index);
        }
        index = index + 1;
    }
    None
}

/// The first item that has the given name.
pub fn find_exact<T: Named>(items: &[T], name: &str) -> (found: Option<usize>)
    ensures
        match found {
            Some(index) => {
                &&& index < items@.len()
                &&& texts(items@).index_of_first(name@) == Some(index as int)
            },
            None => {
                &&& texts(items@).index_of_first(name@) is None
                &&& !texts(items@).contains(name@)
            },
        },
{
    proof {
        texts(items@).index_of_first_ensures(name@);
    }
    let found = find_first(items, name, false);
    assert(found matches Some(index) ==> texts(items@)[index as int] == name@);
    found
}

/// The first item whose name is the same but for case.
pub fn find_name<T: Named>(items: &[T], request: &str) -> (found: Option<usize>)
    ensures
        match found {
            Some(index) => {
                &&& index < items@.len()
                &&& resolve(texts(items@), request@) == Some(index as int)
            },
            None => resolve(texts(items@), request@) is None,
        },
{
    let ghost same = texts(items@).map_values(
        |name: Seq<char>| text::same_but_case(name, request@),
    );
    proof {
        same.index_of_first_ensures(true);
    }
    let found = find_first(items, request, true);
    proof {
        assert forall|k: int| 0 <= k < same.len() implies same[k] == is_match(
            #[trigger] texts(items@)[k],
            request@,
            true,
        ) by {}
        if let Some(index) = found {
            assert(same[index as int]);
        }
    }
    found
}

/// Whether `index` is among `indices`.
fn contains_index(indices: &[usize], index: usize) -> (found: bool)
    ensures
        found == indices@.contains(index),
{
    let mut i: usize = 0;
    while i < indices.len()
        invariant
            i <= indices@.len(),
            forall|k: int| 0 <= k < i ==> indices@[k] != index,
        decreases indices@.len() - i,
    {
        if indices[i] == index {
            return true;
        }
        i = i + 1;
    }
    false
}

/// The entries to extract: all of them, or the ones named in `only`.
///
/// Names are matched case-insensitively: GRP is a DOS-era format, and FAT
/// looked up 8.3 names without regard to case. A name that differs in case
/// from the archive's spelling still resolves, but a warning naming both
/// spellings is returned with the selection. Repeated names in `only` are
/// de-duplicated while preserving first-seen order. The first name that does
/// not resolve is returned as [`Error::EntryNotFound`].
pub fn pick<T: Named>(names: &[T], only: &[String]) -> (result: Result<Selection, Error>)
    ensures
        ({
            let stored = texts(names@);
            let requests = strings(only@);
            match result {
                Ok(selection) => {
                    &&& all_resolve(stored, requests)
                    &&& selection.indices@.map_values(|index: usize| index as int) == chosen(
                        stored,
                        requests,
                    )
                    &&& strings(selection.warnings@) == notes(stored, requests)
                },
                Err(error) => {
                    &&& error matches Error::EntryNotFound { name }
                    &&& first_missing(stored, requests, name@)
                },
            }
        }),
{
    let ghost stored = texts(names@);
    let ghost requests = strings(only@);
    let mut indices: Vec<usize> = Vec::new();
    let mut warnings: Vec<String> = Vec::new();
    if only.len() == 0 {
        let mut index: usize = 0;
        while index < names.len()
            invariant
                index <= names@.len(),
                indices@.len() == index,
                forall|k: int| 0 <= k < index ==> indices@[k] == k,
            decreases names@.len() - index,
        {
            indices.push(index);
            index = index + 1;
        }
        proof {
            assert(indices@.map_values(|index: usize| index as int) =~= Seq::new(
                stored.len(),
                |i: int| i,
            ));
            assert(strings(warnings@) =~= notes(stored, requests));
        }
        return Ok(Selection { indices, warnings });
    }
    let mut k: usize = 0;
    proof {
        assert(indices@.map_values(|index: usize| index as int) =~= picked(
            stored,
            requests.take(0),
        ));
        assert(strings(warnings@) =~= notes(stored, requests.take(0)));
    }
    while k < only.len()
        invariant
            stored == texts(names@),
            requests == strings(only@),
            k <= only@.len(),
            all_resolve(stored, requests.take(k as int)),
            indices@.map_values(|index: usize| index as int) == picked(
                stored,
                requests.take(k as int),
            ),
            strings(warnings@) == notes(stored, requests.take(k as int)),
        decreases only@.len() - k,
    {
        let request = only[k].as_str();
        let ghost so_far = requests.take(k as int);
        let ghost now = requests.take(k + 1);
        proof {
            assert(requests[k as int] == request@);
            assert(now.drop_last() =~= so_far);
            assert(now.last() == request@);
        }
        let index: usize = match find_name(names, request) {
            Some(index) => index,
            None => {
                return Err(Error::EntryNotFound { name: request.to_owned() });
            },
        };
        proof {
            assert forall|j: int| 0 <= j < now.len() implies resolve(
                stored,
                #[trigger] now[j],
            ) is Some by {
                if j < k {
                    assert(now[j] == so_far[j]);
                }
            }
        }
        let ghost warned = warnings@;
        let stored_name = names[index].as_text();
        assert(stored_name@ == stored[index as int]);
        if !same_text(stored_name, request) {
            let mut warning = quote(request);
            warning.append(" is stored in the archive as ");
            warning.append(quote(stored_name).as_str());
            warnings.push(warning);
            assert(strings(warnings@) =~= strings(warned).push(
                spelling_note(request@, stored[index as int]),
            ));
        }
        let ghost chosen = indices@;
        let ghost chosen_ints = chosen.map_values(|index: usize| index as int);
        proof {
            if chosen.contains(index) {
                let j = choose|j: int| 0 <= j < chosen.len() && chosen[j] == index;
                assert(chosen_ints[j] == index as int);
            }
            if chosen_ints.contains(index as int) {
                let j = choose|j: int|
                    0 <= j < chosen_ints.len() && chosen_ints[j] == index as int;
                assert(chosen[j] == index);
            }
        }
        if !contains_index(indices.as_slice(), index) {
            indices.push(index);
            assert(indices@.map_values(|index: usize| index as int) =~= chosen_ints.push(
                index as int,
            ));
        }
        k = k + 1;
    }
    assert(requests.take(requests.len() as int) =~= requests);
    Ok(Selection { indices, warnings })
}

/// A selection names entries that exist, each of them once.
pub proof fn picked_entries_exist_once(names: Seq<Seq<char>>, requests: Seq<Seq<char>>)
    requires
        all_resolve(names, requests),
    ensures
        picked(names, requests).no_duplicates(),
        forall|i: int|
            0 <= i < picked(names, requests).len() ==> 0 <= #[trigger] picked(names, requests)[i]
                < names.len(),
    decreases requests.len(),
{
    if requests.len() > 0 {
        let before = requests.drop_last();
        assert forall|k: int| 0 <= k < before.len() implies resolve(
            names,
            #[trigger] before[k],
        ) is Some by {
            assert(before[k] == requests[k]);
        }
        picked_entries_exist_once(names, before);
        assert(resolve(names, requests[requests.len() - 1]) is Some);
        names.map_values(
            |name: Seq<char>| text::same_but_case(name, requests.last()),
        ).index_of_first_ensures(true);
    }
}

/// A selection holds what was asked for, and nothing else: an entry is
/// selected exactly if some request means it.
pub proof fn picked_entries_were_requested(
    names: Seq<Seq<char>>,
    requests: Seq<Seq<char>>,
    index: int,
)
    ensures
        picked(names, requests).contains(index) <==> exists|k: int|
            0 <= k < requests.len() && resolve(names, #[trigger] requests[k])->0 == index,
    decreases requests.len(),
{
    if requests.len() > 0 {
        let fewer = requests.drop_last();
        let before = picked(names, fewer);
        let last = resolve(names, requests.last())->0;
        picked_entries_were_requested(names, fewer, index);
        if before.contains(index) {
            let k = choose|k: int|
                0 <= k < fewer.len() && resolve(names, #[trigger] fewer[k])->0 == index;
            assert(requests[k] == fewer[k]);
            if !before.contains(last) {
                assert(before.push(last)[before.index_of(index)] == index);
            }
        }
        if index == last {
            assert(resolve(names, requests[requests.len() - 1])->0 == index);
            if !before.contains(last) {
                assert(before.push(last)[before.len() as int] == index);
            }
        }
        if exists|k: int|
            0 <= k < requests.len() && resolve(names, #[trigger] requests[k])->0 == index {
            let k = choose|k: int|
                0 <= k < requests.len() && resolve(names, #[trigger] requests[k])->0 == index;
            if k < fewer.len() {
                assert(fewer[k] == requests[k]);
            }
        }
        if picked(names, requests).contains(index) && !before.contains(index) {
            assert(index == last);
        }
    }
}

/// A request that is spelled as the archive spells an entry, where no earlier
/// entry is the same but for case, means that entry.
pub proof fn exact_requests_resolve(names: Seq<Seq<char>>, index: int)
    requires
        0 <= index < names.len(),
        forall|k: int|
            0 <= k < index ==> !text::same_but_case(#[trigger] names[k], names[index]),
    ensures
        resolve(names, names[index]) == Some(index),
{
    let same = names.map_values(|name: Seq<char>| text::same_but_case(name, names[index]));
    same.index_of_first_ensures(true);
    assert(same[index]);
    assert(same.contains(true));
    assert forall|k: int| 0 <= k < index implies !same[k] by {
        assert(!text::same_but_case(names[k], names[index]));
    }
}

/// There are no notes exactly if every request is spelled as the archive
/// spells it.
pub proof fn notes_are_about_spelling(names: Seq<Seq<char>>, requests: Seq<Seq<char>>)
    ensures
        notes(names, requests).len() == 0 <==> forall|k: int|
            0 <= k < requests.len() ==> names[resolve(names, #[trigger] requests[k])->0]
                == requests[k],
    decreases requests.len(),
{
    if requests.len() > 0 {
        let fewer = requests.drop_last();
        notes_are_about_spelling(names, fewer);
        assert(forall|k: int| 0 <= k < fewer.len() ==> fewer[k] == #[trigger] requests[k]);
        assert(requests[requests.len() - 1] == requests.last());
        if notes(names, fewer).len() == 0 && names[resolve(names, requests.last())->0]
            == requests.last() {
            assert forall|k: int| 0 <= k < requests.len() implies names[resolve(
                names,
                #[trigger] requests[k],
            )->0] == requests[k] by {
                if k < fewer.len() {
                    assert(fewer[k] == requests[k]);
                }
            }
        }
        if forall|k: int|
            0 <= k < requests.len() ==> names[resolve(names, #[trigger] requests[k])->0]
                == requests[k] {
            assert forall|k: int| 0 <= k < fewer.len() implies names[resolve(
                names,
                #[trigger] fewer[k],
            )->0] == fewer[k] by {
                assert(fewer[k] == requests[k]);
            }
        }
    }
}

/// A request means the first entry whose name is the same but for case, and
/// nothing if there is none.
pub proof fn a_request_means_the_first_match(
    names: Seq<Seq<char>>,
    request: Seq<char>,
    index: int,
)
    ensures
        resolve(names, request) == Some(index) <==> {
            &&& 0 <= index < names.len()
            &&& text::same_but_case(names[index], request)
            &&& forall|k: int| 0 <= k < index ==> !text::same_but_case(#[trigger] names[k], request)
        },
        resolve(names, request) is None <==> forall|k: int|
            0 <= k < names.len() ==> !text::same_but_case(#[trigger] names[k], request),
{
    let same = names.map_values(|name: Seq<char>| text::same_but_case(name, request));
    same.index_of_first_ensures(true);
    assert forall|k: int| 0 <= k < names.len() implies #[trigger] same[k] == text::same_but_case(
        names[k],
        request,
    ) by {}
    if let Some(first) = resolve(names, request) {
        assert forall|k: int| 0 <= k < first implies !text::same_but_case(
            #[trigger] names[k],
            request,
        ) by {
            assert(!same[k]);
        }
    } else {
        assert forall|k: int| 0 <= k < names.len() implies !text::same_but_case(
            #[trigger] names[k],
            request,
        ) by {
            if same[k] {
                assert(same.contains(true));
            }
        }
    }
}

/// With no requests every entry is chosen, once and in the archive's order, and
/// there is nothing to note.
pub proof fn without_requests_all_entries_are_chosen(names: Seq<Seq<char>>)
    ensures
        chosen(names, Seq::empty()).len() == names.len(),
        forall|i: int| 0 <= i < names.len() ==> #[trigger] chosen(names, Seq::empty())[i] == i,
        notes(names, Seq::empty()).len() == 0,
{
}

/// What one more request adds to a selection: the entry that it means, behind
/// the others, if that is not selected already; and a note of both spellings,
/// behind the others, if they differ.
pub proof fn one_more_request_selects_its_entry(
    names: Seq<Seq<char>>,
    requests: Seq<Seq<char>>,
    request: Seq<char>,
    index: int,
)
    requires
        0 <= index < names.len(),
        text::same_but_case(names[index], request),
        forall|k: int| 0 <= k < index ==> !text::same_but_case(#[trigger] names[k], request),
    ensures
        requests.len() == 0 ==> chosen(names, requests.push(request)) == seq![index],
        requests.len() > 0 ==> chosen(names, requests.push(request)) == if chosen(
            names,
            requests,
        ).contains(index) {
            chosen(names, requests)
        } else {
            chosen(names, requests).push(index)
        },
        notes(names, requests.push(request)) == if names[index] == request {
            notes(names, requests)
        } else {
            notes(names, requests).push(
                text::quoted(request) + " is stored in the archive as "@ + text::quoted(
                    names[index],
                ),
            )
        },
{
    let more = requests.push(request);
    a_request_means_the_first_match(names, request, index);
    assert(more.drop_last() =~= requests);
    assert(more.last() == request);
    if requests.len() == 0 {
        assert(picked(names, requests).push(index) =~= seq![index]);
    }
}

/// Selected entries stand in the order of the first request for each.
pub proof fn a_selection_keeps_the_order_of_the_requests(
    names: Seq<Seq<char>>,
    requests: Seq<Seq<char>>,
    i: int,
    j: int,
    b: int,
)
    requires
        requests.len() > 0,
        0 <= i < j < chosen(names, requests).len(),
        0 <= b < requests.len(),
        resolve(names, requests[b]) == Some(chosen(names, requests)[j]),
        all_resolve(names, requests),
    ensures
        exists|a: int|
            0 <= a < b && resolve(names, #[trigger] requests[a]) == Some(
                chosen(names, requests)[i],
            ),
    decreases requests.len(),
{
    let fewer = requests.drop_last();
    let before = picked(names, fewer);
    let last = resolve(names, requests.last())->0;
    let all = picked(names, requests);
    assert(forall|k: int| 0 <= k < fewer.len() ==> fewer[k] == #[trigger] requests[k]);
    assert forall|k: int| 0 <= k < fewer.len() implies resolve(names, #[trigger] fewer[k]) is Some by {
        assert(fewer[k] == requests[k]);
    }
    picked_entries_were_requested(names, fewer, all[i]);
    picked_entries_were_requested(names, fewer, all[j]);
    if j < before.len() {
        assert(all[j] == before[j]);
        assert(all[i] == before[i]);
        assert(before.contains(all[j]));
        if fewer.len() > 0 {
            if b < fewer.len() {
                a_selection_keeps_the_order_of_the_requests(names, fewer, i, j, b);
                let a = choose|a: int|
                    0 <= a < b && resolve(names, #[trigger] fewer[a]) == Some(
                        chosen(names, fewer)[i],
                    );
                assert(requests[a] == fewer[a]);
            } else {
                assert(before.contains(all[i]));
                let k = choose|k: int|
                    0 <= k < fewer.len() && resolve(names, #[trigger] fewer[k])->0 == all[i];
                assert(resolve(names, fewer[k]) is Some);
                assert(requests[k] == fewer[k]);
            }
        }
    } else {
        assert(all[i] == before[i]);
        assert(before.contains(all[i]));
        assert(all[j] == last);
        assert(!before.contains(last));
        if b < fewer.len() {
            assert(resolve(names, fewer[b])->0 == all[j]);
        }
        let k = choose|k: int|
            0 <= k < fewer.len() && resolve(names, #[trigger] fewer[k])->0 == all[i];
        assert(resolve(names, fewer[k]) is Some);
        assert(requests[k] == fewer[k]);
    }
}

/// Where every request means some entry, each has the name of one, in some
/// case; and where not, some request has a name that no entry has in any case.
pub proof fn requests_resolve_unless_one_matches_nothing(
    names: Seq<Seq<char>>,
    requests: Seq<Seq<char>>,
    request: Seq<char>,
)
    ensures
        all_resolve(names, requests) && requests.contains(request) ==> exists|i: int|
            0 <= i < names.len() && text::same_but_case(#[trigger] names[i], request),
        !all_resolve(names, requests) ==> exists|k: int|
            #![trigger requests[k]]
            0 <= k < requests.len() && forall|i: int|
                0 <= i < names.len() ==> !text::same_but_case(#[trigger] names[i], requests[k]),
{
    if all_resolve(names, requests) {
        if requests.contains(request) {
            let k = requests.index_of(request);
            assert(resolve(names, requests[k]) is Some);
            a_request_means_the_first_match(names, request, resolve(names, request)->0);
        }
    } else {
        let k = choose|k: int|
            0 <= k < requests.len() && resolve(names, #[trigger] requests[k]) is None;
        a_request_means_the_first_match(names, requests[k], 0);
    }
}

/// A request that is reported as missing is one of those made. No entry has
/// its name in any case, and every request before it means some entry.
pub proof fn a_missing_request_matches_nothing(
    names: Seq<Seq<char>>,
    requests: Seq<Seq<char>>,
    missing: Seq<char>,
)
    requires
        first_missing(names, requests, missing),
    ensures
        !all_resolve(names, requests),
        forall|i: int| 0 <= i < names.len() ==> !text::same_but_case(#[trigger] names[i], missing),
        requests.index_of_first(missing) matches Some(first) && forall|j: int|
            0 <= j < first ==> resolve(names, #[trigger] requests[j]) is Some,
{
    let k = choose|k: int|
        {
            &&& 0 <= k < requests.len()
            &&& #[trigger] requests[k] == missing
            &&& resolve(names, missing) is None
            &&& all_resolve(names, requests.take(k))
        };
    a_request_means_the_first_match(names, missing, 0);
    requests.index_of_first_ensures(missing);
    assert(requests.contains(missing));
    let first = requests.index_of_first(missing)->0;
    assert(first <= k) by {
        if k < first {
            assert(requests[k] != missing);
        }
    }
    assert forall|j: int| 0 <= j < first implies resolve(names, #[trigger] requests[j]) is Some by {
        assert(requests.take(k)[j] == requests[j]);
    }
}

/// The names of a list are the names of its items, in order.
pub proof fn names_are_those_of_the_items<T: Named>(items: Seq<T>, lines: Seq<String>)
    ensures
        texts(items).len() == items.len(),
        forall|i: int| 0 <= i < items.len() ==> #[trigger] texts(items)[i] == items[i].text(),
        strings(lines).len() == lines.len(),
        forall|i: int| 0 <= i < lines.len() ==> #[trigger] strings(lines)[i] == lines[i]@,
{
}

/// A text is found by itself.
pub proof fn a_text_is_its_own_name(text: &str)
    ensures
        Named::text(&text) == text@,
{
}

} // verus!
