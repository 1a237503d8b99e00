//! The outcome of a check, and the ways to build and combine outcomes.

use crate::text::{
    absent_message, absent_text, expected_message, expected_text, missing_message, missing_text,
    texts,
};
use vstd::prelude::*;

verus! {

/// Something that can be checked once, with an outcome.
pub trait Check: Sized {
    /// The messages that the check reports: none where it succeeds.
    spec fn report(self) -> Seq<Seq<char>>;

    fn check(self) -> (result: CheckResult)
        ensures
            result.wf(),
            result@ == self.report(),
    ;
}

/// Success, or the messages of everything that failed.
#[must_use]
#[derive(Debug)]
pub enum CheckResult {
    Success,
    Failure(Vec<String>),
}

impl View for CheckResult {
    type V = Seq<Seq<char>>;

    /// The messages of the outcome, in order: none for a success.
    open spec fn view(&self) -> Seq<Seq<char>> {
        match self {
            CheckResult::Success => Seq::empty(),
            CheckResult::Failure(failures) => texts(failures@),
        }
    }
}

/// The outcome of comparing two texts.
pub open spec fn compare_report(expected: Seq<char>, actual: Seq<char>) -> Seq<Seq<char>> {
    if expected == actual {
        Seq::empty()
    } else {
        seq![expected_text(expected, actual)]
    }
}

/// The expected elements that `actual` lacks, in the order of `expected` and
/// each as often as `expected` names it.
pub open spec fn lacking(actual: Set<Seq<char>>, expected: Seq<Seq<char>>) -> Seq<Seq<char>> {
    expected.filter(|e: Seq<char>| !actual.contains(e))
}

/// One message for each expected element that `actual` lacks.
pub open spec fn missing_report(actual: Set<Seq<char>>, expected: Seq<Seq<char>>) -> Seq<
    Seq<char>,
> {
    lacking(actual, expected).map_values(|e: Seq<char>| missing_text(e))
}

/// The outcome for a field that the target cannot have.
pub open spec fn absent_report(field: Seq<char>) -> Seq<Seq<char>> {
    seq![absent_text(field)]
}

/// The messages of each outcome of a sequence.
pub open spec fn reports(results: Seq<CheckResult>) -> Seq<Seq<Seq<char>>> {
    results.map_values(|r: CheckResult| r@)
}

/// Two outcomes taken together: the messages of the first, then those of the
/// second.
pub open spec fn combined(first: Seq<Seq<char>>, second: Seq<Seq<char>>) -> Seq<Seq<char>> {
    first + second
}

impl CheckResult {
    /// A failure carries at least one message.
    pub open spec fn wf(&self) -> bool {
        self matches CheckResult::Failure(failures) ==> failures@.len() > 0
    }

    /// Succeeds where the two texts are equal; else fails with one message
    /// that shows both.
    pub fn compare(expected: &str, actual: &str) -> (result: Self)
        ensures
            result.wf(),
            result@ == compare_report(expected@, actual@),
            result is Success <==> expected@ == actual@,
    {
        let same = String::from_str(expected) == String::from_str(actual);
        if same {
            CheckResult::Success
        } else {
            CheckResult::mismatch(expected, actual)
        }
    }

    /// The failure of a value that differs from the expected one, each given
    /// as the text to show.
    pub fn mismatch(expected: &str, actual: &str) -> (result: Self)
        ensures
            result.wf(),
            result@ == seq![expected_text(expected@, actual@)],
            result is Failure,
    {
        let mut failures: Vec<String> = Vec::new();
        failures.push(expected_message(expected, actual));
        CheckResult::Failure(failures)
    }

    /// Succeeds where `actual` holds every element of `expected`; else fails
    /// with one message for each element that it lacks.
    pub fn contains<C: Contains<String>>(actual: C, expected: &[String]) -> (result: Self)
        ensures
            result.wf(),
            result@ == missing_report(actual.members(), texts(expected@)),
            result is Success <==> forall|i: int|
                0 <= i < expected@.len() ==> actual.members().contains(#[trigger] expected@[i]@),
    {
        let ghost lacks = |e: Seq<char>| !actual.members().contains(e);
        let ghost message = |e: Seq<char>| missing_text(e);
        let mut failures: Vec<String> = Vec::new();
        let mut i: usize = 0;
        while i < expected.len()
            invariant
                i <= expected.len(),
                lacks == |e: Seq<char>| !actual.members().contains(e),
                message == |e: Seq<char>| missing_text(e),
                texts(failures@) =~= texts(expected@).take(i as int).filter(lacks).map_values(
                    message,
                ),
            decreases expected.len() - i,
        {
            let ghost seen = texts(expected@).take(i as int);
            let ghost element = expected@[i as int]@;
            proof {
                assert(texts(expected@).take(i + 1) =~= seen.push(element));
                seen.lemma_filter_push(element, lacks);
            }
            if !actual.contains(&expected[i]) {
                failures.push(missing_message(expected[i].as_str()));
                assert(seen.filter(lacks).push(element).map_values(message) =~= seen.filter(
                    lacks,
                ).map_values(message).push(missing_text(element)));
            }
            i = i + 1;
        }
        proof {
            assert(texts(expected@).take(expected.len() as int) =~= texts(expected@));
            lemma_missing_report(actual.members(), texts(expected@));
            assert forall|i: int| 0 <= i < expected@.len() implies texts(expected@)[i]
                == #[trigger] expected@[i]@ by {}
        }
        CheckResult::from(failures)
    }

    /// Gathers the messages of any outcome that failed, in order, into one
    /// outcome: a success where there is no message at all.
    pub fn any(results: Vec<CheckResult>) -> (result: Self)
        ensures
            result.wf(),
            result@ == reports(results@).flatten(),
            result is Success <==> forall|i: int|
                0 <= i < results@.len() ==> (#[trigger] results@[i]@).len() == 0,
    {
        let mut failures: Vec<String> = Vec::new();
        let mut i: usize = 0;
        while i < results.len()
            invariant
                i <= results.len(),
                texts(failures@) =~= reports(results@).take(i as int).flatten(),
            decreases results.len() - i,
        {
            let ghost done = reports(results@).take(i as int);
            let ghost current = results@[i as int]@;
            proof {
                assert(reports(results@).take(i + 1) =~= done.push(current));
                done.lemma_flatten_push(current);
            }
            match &results[i] {
                CheckResult::Success => {},
                CheckResult::Failure(list) => {
                    let mut j: usize = 0;
                    while j < list.len()
                        invariant
                            j <= list.len(),
                            current == texts(list@),
                            texts(failures@) =~= done.flatten() + current.take(j as int),
                        decreases list.len() - j,
                    {
                        let ghost before = failures@;
                        let message = list[j].clone();
                        failures.push(message);
                        assert(texts(failures@) =~= texts(before).push(message@));
                        j = j + 1;
                    }
                },
            }
            i = i + 1;
        }
        proof {
            assert(reports(results@).take(results.len() as int) =~= reports(results@));
            lemma_flatten_empty(reports(results@));
            assert forall|i: int| 0 <= i < results@.len() implies reports(results@)[i]
                == #[trigger] results@[i]@ by {}
        }
        CheckResult::from(failures)
    }

    /// The failure of a field that the target cannot have.
    pub fn missing(name: &str) -> (result: Self)
        ensures
            result.wf(),
            result@ == absent_report(name@),
            result is Failure,
    {
        let mut failures: Vec<String> = Vec::new();
        failures.push(absent_message(name));
        CheckResult::Failure(failures)
    }

    /// Both outcomes together: a success where both are, else the messages of
    /// the first followed by those of the second.
    pub fn and(self, other: Self) -> (result: Self)
        ensures
            result.wf(),
            result@ == combined(self@, other@),
            result is Success <==> self@.len() == 0 && other@.len() == 0,
    {
        let mut self_failures: Vec<String> = Vec::from(self);
        let mut other_failures: Vec<String> = Vec::from(other);
        let ghost first = self_failures@;
        let ghost second = other_failures@;
        self_failures.append(&mut other_failures);
        CheckResult::from(self_failures)
    }

    /// Whether the outcome is a success.
    pub fn as_bool(&self) -> (passed: bool)
        ensures
            passed == (self is Success),
            self.wf() ==> passed == (self@.len() == 0),
    {
        match *self {
            CheckResult::Success => true,
            CheckResult::Failure(_) => false,
        }
    }
}

impl core::ops::Add for CheckResult {
    type Output = Self;

    /// `a + b` is `a.and(b)`.
    fn add(self, other: Self) -> (result: Self)
        ensures
            result.wf(),
            result@ == combined(self@, other@),
            result is Success <==> self@.len() == 0 && other@.len() == 0,
    {
        self.and(other)
    }
}

impl vstd::std_specs::ops::AddSpecImpl for CheckResult {
    /// The vector that the sum carries is built anew, so no function of the
    /// two outcomes says which one it is: `add` states its result by its
    /// view.
    open spec fn obeys_add_spec() -> bool {
        false
    }

    open spec fn add_req(self, other: Self) -> bool {
        true
    }

    open spec fn add_spec(self, other: Self) -> Self {
        arbitrary()
    }
}

impl From<CheckResult> for Vec<String> {
    /// The messages of an outcome: none for a success.
    fn from(checkresult: CheckResult) -> (failures: Self)
        ensures
            texts(failures@) == checkresult@,
    {
        match checkresult {
            CheckResult::Success => Vec::new(),
            CheckResult::Failure(failures) => failures,
        }
    }
}

impl vstd::std_specs::convert::FromSpecImpl<CheckResult> for Vec<String> {
    /// The vector that a success gives is new, so no function of the
    /// outcome says which one it is: `from` states its result by its view.
    open spec fn obeys_from_spec() -> bool {
        false
    }

    open spec fn from_spec(checkresult: CheckResult) -> Self {
        match checkresult {
            CheckResult::Success => arbitrary(),
            CheckResult::Failure(failures) => failures,
        }
    }
}

impl From<Vec<String>> for CheckResult {
    /// A success where there is no message, else the failure that carries
    /// them.
    fn from(failures: Vec<String>) -> (result: Self)
        ensures
            result.wf(),
            result@ == texts(failures@),
            (result is Success) == (failures@.len() == 0),
    {
        if failures.is_empty() {
            CheckResult::Success
        } else {
            CheckResult::Failure(failures)
        }
    }
}

impl vstd::std_specs::convert::FromSpecImpl<Vec<String>> for CheckResult {
    open spec fn obeys_from_spec() -> bool {
        true
    }

    open spec fn from_spec(failures: Vec<String>) -> Self {
        if failures@.len() == 0 {
            CheckResult::Success
        } else {
            CheckResult::Failure(failures)
        }
    }
}

/// A container that can be asked whether it holds a value.
pub trait Contains<T: View> {
    /// The values that the container holds.
    spec fn members(&self) -> Set<T::V>;

    fn contains(&self, value: &T) -> (found: bool)
        ensures
            found == self.members().contains(value@),
    ;
}

/// Whether one of `items` has the text of `value`.
fn holds(items: &[String], value: &String) -> (found: bool)
    ensures
        found == texts(items@).contains(value@),
{
    let mut i: usize = 0;
    while i < items.len()
        invariant
            i <= items.len(),
            forall|k: int| 0 <= k < i ==> texts(items@)[k] != value@,
        decreases items.len() - i,
    {
        if items[i] == *value {
            assert(texts(items@)[i as int] == value@);
            return true;
        }
        i = i + 1;
    }
    false
}

/// A set of strings.
pub struct StringSet {
    items: Vec<String>,
}

impl View for StringSet {
    type V = Set<Seq<char>>;

    closed spec fn view(&self) -> Set<Seq<char>> {
        texts(self.items@).to_set()
    }
}

impl StringSet {
    /// No string is held twice.
    pub closed spec fn wf(&self) -> bool {
        texts(self.items@).no_duplicates()
    }

    /// The empty set.
    pub fn new() -> (set: Self)
        ensures
            set.wf(),
            set@ == Set::<Seq<char>>::empty(),
    {
        let set = StringSet { items: Vec::new() };
        set
    }

    /// Adds `value`, and says whether the set lacked it.
    pub fn insert(&mut self, value: String) -> (fresh: bool)
        requires
            old(self).wf(),
        ensures
            final(self).wf(),
            final(self)@ == old(self)@.insert(value@),
            fresh == !old(self)@.contains(value@),
    {
        let ghost before = texts(self.items@);
        if holds(self.items.as_slice(), &value) {
            false
        } else {
            self.items.push(value);
            assert(texts(self.items@) =~= before.push(value@));
            assert(before.push(value@).to_set() =~= before.to_set().insert(value@)) by {
                before.lemma_push_to_set_commute(value@);
            }
            true
        }
    }
}

impl Contains<String> for StringSet {
    open spec fn members(&self) -> Set<Seq<char>> {
        self@
    }

    fn contains(&self, value: &String) -> (found: bool) {
        holds(self.items.as_slice(), value)
    }
}

impl<'a> Contains<String> for &'a [String] {
    open spec fn members(&self) -> Set<Seq<char>> {
        texts(self@).to_set()
    }

    fn contains(&self, value: &String) -> (found: bool) {
        holds(*self, value)
    }
}

/// What a filter keeps of a sequence without duplicates has none either, and
/// holds exactly the elements that pass.
proof fn lemma_filter_distinct<A>(s: Seq<A>, pred: spec_fn(A) -> bool)
    requires
        s.no_duplicates(),
    ensures
        s.filter(pred).no_duplicates(),
        forall|a: A| #[trigger] s.filter(pred).contains(a) <==> s.contains(a) && pred(a),
    decreases s.len(),
{
    reveal(Seq::filter);
    if s.len() > 0 {
        let rest = s.drop_last();
        let last = s.last();
        let kept = rest.filter(pred);
        lemma_filter_distinct(rest, pred);
        assert forall|a: A| s.contains(a) <==> rest.contains(a) || a == last by {
            if s.contains(a) && a != last {
                let i = choose|i: int| 0 <= i < s.len() && s[i] == a;
                assert(rest[i] == a);
            }
        }
        if pred(last) {
            let all = kept.push(last);
            assert forall|i: int, j: int|
                0 <= i < all.len() && 0 <= j < all.len() && i != j implies all[i] != all[j] by {
                if i < kept.len() {
                    assert(kept.contains(kept[i]));
                }
                if j < kept.len() {
                    assert(kept.contains(kept[j]));
                }
            }
            assert forall|a: A| #[trigger] all.contains(a) <==> kept.contains(a) || a == last by {
                if kept.contains(a) {
                    let i = choose|i: int| 0 <= i < kept.len() && kept[i] == a;
                    assert(all[i] == a);
                }
                assert(all[kept.len() as int] == last);
            }
        }
    }
}

/// The messages of a list of outcomes taken together are none exactly where
/// no outcome of the list carries one.
pub proof fn lemma_flatten_empty(each: Seq<Seq<Seq<char>>>)
    ensures
        each.flatten().len() == 0 <==> forall|i: int|
            0 <= i < each.len() ==> (#[trigger] each[i]).len() == 0,
    decreases each.len(),
{
    if each.len() > 0 {
        let rest = each.drop_first();
        lemma_flatten_empty(rest);
        assert forall|i: int| 0 <= i < rest.len() implies rest[i] == each[i + 1] by {}
        if each.flatten().len() == 0 {
            assert forall|i: int| 0 <= i < each.len() implies (#[trigger] each[i]).len() == 0 by {
                if i > 0 {
                    assert(rest[i - 1].len() == 0);
                }
            }
        }
        if forall|i: int| 0 <= i < each.len() ==> (#[trigger] each[i]).len() == 0 {
            assert(each.first().len() == 0);
            assert forall|i: int| 0 <= i < rest.len() implies (#[trigger] rest[i]).len() == 0 by {
                assert(each[i + 1].len() == 0);
            }
        }
    }
}

/// The check of containment succeeds exactly where `actual` holds every
/// expected element. It reports one message for each expected element that
/// `actual` lacks: as many as the expected elements outside `actual`, where
/// `expected` names none twice.
pub proof fn lemma_missing_report(actual: Set<Seq<char>>, expected: Seq<Seq<char>>)
    ensures
        missing_report(actual, expected).len() == 0 <==> forall|i: int|
            0 <= i < expected.len() ==> actual.contains(#[trigger] expected[i]),
        missing_report(actual, expected).len() == lacking(actual, expected).len(),
        forall|k: int|
            0 <= k < lacking(actual, expected).len() ==> #[trigger] missing_report(
                actual,
                expected,
            )[k] == missing_text(lacking(actual, expected)[k]),
        expected.no_duplicates() ==> missing_report(actual, expected).len()
            == expected.to_set().difference(actual).len(),
{
    let lacks = |e: Seq<char>| !actual.contains(e);
    let lacked = lacking(actual, expected);
    if lacked.len() > 0 {
        expected.lemma_filter_pred(lacks, 0);
        expected.lemma_filter_contains_rev(lacks, lacked[0]);
    }
    assert forall|i: int| 0 <= i < expected.len() && lacked.len() == 0 implies actual.contains(
        #[trigger] expected[i],
    ) by {
        if !actual.contains(expected[i]) {
            expected.lemma_filter_contains(lacks, i);
        }
    }
    if expected.no_duplicates() {
        lemma_filter_distinct(expected, lacks);
        lacked.unique_seq_to_set();
        assert(lacked.to_set() =~= expected.to_set().difference(actual));
    }
}

/// Combination is associative: however three outcomes are grouped, the
/// combined outcome carries the same messages in the same order, and so has
/// the same verdict and the same multiset of messages.
pub proof fn lemma_combined_associative(
    a: Seq<Seq<char>>,
    b: Seq<Seq<char>>,
    c: Seq<Seq<char>>,
)
    ensures
        combined(combined(a, b), c) == combined(a, combined(b, c)),
        combined(combined(a, b), c).to_multiset() == combined(a, combined(b, c)).to_multiset(),
        (combined(combined(a, b), c).len() == 0) == (combined(a, combined(b, c)).len() == 0),
{
}

/// A success is neutral in a combination.
pub proof fn lemma_combined_with_success(a: Seq<Seq<char>>)
    ensures
        combined(Seq::empty(), a) == a,
        combined(a, Seq::empty()) == a,
{
}

/// The order of two outcomes in a combination changes neither the verdict
/// nor the multiset of messages.
pub proof fn lemma_combined_commutes_in_content(a: Seq<Seq<char>>, b: Seq<Seq<char>>)
    ensures
        combined(a, b).to_multiset() == combined(b, a).to_multiset(),
        (combined(a, b).len() == 0) == (combined(b, a).len() == 0),
{
    vstd::seq_lib::lemma_multiset_commutative(a, b);
    vstd::seq_lib::lemma_multiset_commutative(b, a);
}

} // verus!
