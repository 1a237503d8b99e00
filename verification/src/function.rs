//! Checks on function items, and the builder that gathers expectations.

use crate::syntax::{
    as_function, attribute_count, fn_attribute_paths, fn_body, fn_name, fn_visibility,
    item_function, read_body, read_name, read_segment, read_tokens, read_visibility,
    render_visibility, same_visibility, segment_count, token_text, visibility_eq,
    visibility_text,
};
use crate::text::{
    absent_text, expected_text, join_path, joined, lemma_expected_text_shows_both, occurs_in,
    path_separator, texts,
};
use crate::utils::{
    absent_report, combined, compare_report, missing_report, reports, Check, CheckResult,
    StringSet,
};
use proc_macro2::TokenStream;
use syn::{Item, ItemFn, Visibility};
use vstd::prelude::*;

verus! {

/// A node that can be asked whether it is a function with a given name,
/// visibility, set of attributes or body.
///
/// Each question is answered by an outcome. The `*_report` functions say
/// which messages the outcome carries; it is a success exactly where there is
/// none.
pub trait HasFn {
    /// The messages of `has_name`.
    spec fn name_report(&self, name: Seq<char>) -> Seq<Seq<char>>;

    /// The messages of `has_vis`.
    spec fn vis_report(&self, vis: Visibility) -> Seq<Seq<char>>;

    /// The messages of `has_attrs`.
    spec fn attrs_report(&self, attrs: Seq<Seq<char>>) -> Seq<Seq<char>>;

    /// The messages of `has_block`.
    spec fn block_report(&self, block: TokenStream) -> Seq<Seq<char>>;

    /// Starts an assertion on this node, with nothing expected yet.
    fn has_fn(&self) -> (builder: AssertFn<'_, Self>) where Self: Sized
        ensures
            builder@ == Expected::nothing(*self),
    {
        AssertFn::new(self)
    }

    fn has_name(&self, name: &str) -> (result: CheckResult)
        ensures
            result.wf(),
            result@ == self.name_report(name@),
    ;

    fn has_vis(&self, vis: &Visibility) -> (result: CheckResult)
        ensures
            result.wf(),
            result@ == self.vis_report(*vis),
    ;

    fn has_attrs(&self, attrs: &[String]) -> (result: CheckResult)
        ensures
            result.wf(),
            result@ == self.attrs_report(texts(attrs@)),
    ;

    fn has_block(&self, block: &TokenStream) -> (result: CheckResult)
        ensures
            result.wf(),
            result@ == self.block_report(*block),
    ;
}

/// The segments of each path of a list.
pub open spec fn path_texts(paths: Seq<Vec<String>>) -> Seq<Seq<Seq<char>>> {
    paths.map_values(|segments: Vec<String>| texts(segments@))
}

/// The paths of a list in order, each joined with `::`.
pub open spec fn joined_list(paths: Seq<Seq<Seq<char>>>) -> Seq<Seq<char>> {
    paths.map_values(|segments: Seq<Seq<char>>| joined(segments, path_separator()))
}

/// The set of the paths of a list, each joined with `::`.
pub open spec fn joined_paths(paths: Seq<Seq<Seq<char>>>) -> Set<Seq<char>> {
    joined_list(paths).to_set()
}

/// The set of the attributes of a function item, each by its path joined
/// with `::`.
pub open spec fn fn_attributes(item: ItemFn) -> Set<Seq<char>> {
    joined_paths(fn_attribute_paths(item))
}

/// Gathers attributes into a set: each is given by the segments of its path
/// and held by the path that they make when joined with `::`.
pub fn attribute_set(paths: &Vec<Vec<String>>) -> (set: StringSet)
    ensures
        set.wf(),
        set@ == joined_paths(path_texts(paths@)),
{
    let ghost all = joined_list(path_texts(paths@));
    let mut set = StringSet::new();
    let mut index: usize = 0;
    assert(all.take(0).to_set() =~= Set::<Seq<char>>::empty());
    while index < paths.len()
        invariant
            all == joined_list(path_texts(paths@)),
            index <= paths.len(),
            set.wf(),
            set@ == all.take(index as int).to_set(),
        decreases paths.len() - index,
    {
        let path = join_path(&paths[index]);
        proof {
            assert(all.take(index + 1) =~= all.take(index as int).push(path@));
            all.take(index as int).lemma_push_to_set_commute(path@);
        }
        set.insert(path);
        index = index + 1;
    }
    assert(all.take(paths.len() as int) =~= all);
    set
}

/// Reads the segments of the path of the attribute at `index`.
fn read_attribute_path(item: &ItemFn, index: usize) -> (segments: Vec<String>)
    requires
        index < fn_attribute_paths(*item).len(),
    ensures
        texts(segments@) == fn_attribute_paths(*item)[index as int],
{
    let ghost all = fn_attribute_paths(*item)[index as int];
    let count = segment_count(item, index);
    let mut segments: Vec<String> = Vec::new();
    let mut position: usize = 0;
    while position < count
        invariant
            index < fn_attribute_paths(*item).len(),
            all == fn_attribute_paths(*item)[index as int],
            count == all.len(),
            position <= count,
            segments@.len() == position,
            texts(segments@) =~= all.take(position as int),
        decreases count - position,
    {
        let segment = read_segment(item, index, position);
        segments.push(segment);
        position = position + 1;
    }
    assert(all.take(count as int) =~= all);
    segments
}

/// Reads the paths of the attributes of a function item.
fn read_attribute_paths(item: &ItemFn) -> (paths: Vec<Vec<String>>)
    ensures
        path_texts(paths@) == fn_attribute_paths(*item),
{
    let ghost all = fn_attribute_paths(*item);
    let count = attribute_count(item);
    let mut paths: Vec<Vec<String>> = Vec::new();
    let mut index: usize = 0;
    while index < count
        invariant
            all == fn_attribute_paths(*item),
            count == all.len(),
            index <= count,
            paths@.len() == index,
            path_texts(paths@) =~= all.take(index as int),
        decreases count - index,
    {
        let segments = read_attribute_path(item, index);
        paths.push(segments);
        index = index + 1;
    }
    assert(all.take(count as int) =~= all);
    paths
}

/// The messages of the check of a function item's name.
pub open spec fn fn_name_report(item: ItemFn, name: Seq<char>) -> Seq<Seq<char>> {
    compare_report(name, fn_name(item))
}

/// The messages of the check of a function item's visibility: the two are
/// compared with the `==` of `syn` and shown as `Debug` prints them.
pub open spec fn fn_vis_report(item: ItemFn, vis: Visibility) -> Seq<Seq<char>> {
    if same_visibility(vis, fn_visibility(item)) {
        Seq::empty()
    } else {
        seq![expected_text(visibility_text(vis), visibility_text(fn_visibility(item)))]
    }
}

/// The messages of the check of a function item's attributes.
pub open spec fn fn_attrs_report(item: ItemFn, attrs: Seq<Seq<char>>) -> Seq<Seq<char>> {
    missing_report(fn_attributes(item), attrs)
}

/// The messages of the check of a function item's body: the two are compared
/// as `TokenStream::to_string` prints them.
pub open spec fn fn_block_report(item: ItemFn, block: TokenStream) -> Seq<Seq<char>> {
    compare_report(token_text(block), token_text(fn_body(item)))
}

impl HasFn for ItemFn {
    open spec fn name_report(&self, name: Seq<char>) -> Seq<Seq<char>> {
        fn_name_report(*self, name)
    }

    open spec fn vis_report(&self, vis: Visibility) -> Seq<Seq<char>> {
        fn_vis_report(*self, vis)
    }

    open spec fn attrs_report(&self, attrs: Seq<Seq<char>>) -> Seq<Seq<char>> {
        fn_attrs_report(*self, attrs)
    }

    open spec fn block_report(&self, block: TokenStream) -> Seq<Seq<char>> {
        fn_block_report(*self, block)
    }

    fn has_name(&self, name: &str) -> (result: CheckResult) {
        let actual = read_name(self);
        CheckResult::compare(name, actual.as_str())
    }

    fn has_vis(&self, vis: &Visibility) -> (result: CheckResult) {
        let actual = read_visibility(self);
        if visibility_eq(vis, actual) {
            CheckResult::Success
        } else {
            let expected = render_visibility(vis);
            let found = render_visibility(actual);
            CheckResult::mismatch(expected.as_str(), found.as_str())
        }
    }

    fn has_attrs(&self, attrs: &[String]) -> (result: CheckResult) {
        let paths = read_attribute_paths(self);
        let self_attrs = attribute_set(&paths);
        CheckResult::contains(self_attrs, attrs)
    }

    fn has_block(&self, block: &TokenStream) -> (result: CheckResult) {
        let expected = read_tokens(block);
        let actual = read_tokens(&read_body(self));
        CheckResult::compare(expected.as_str(), actual.as_str())
    }
}

impl HasFn for Item {
    open spec fn name_report(&self, name: Seq<char>) -> Seq<Seq<char>> {
        match item_function(*self) {
            Some(function) => fn_name_report(function, name),
            None => absent_report("name"@),
        }
    }

    open spec fn vis_report(&self, vis: Visibility) -> Seq<Seq<char>> {
        match item_function(*self) {
            Some(function) => fn_vis_report(function, vis),
            None => absent_report("vis"@),
        }
    }

    open spec fn attrs_report(&self, attrs: Seq<Seq<char>>) -> Seq<Seq<char>> {
        match item_function(*self) {
            Some(function) => fn_attrs_report(function, attrs),
            None => absent_report("attrs"@),
        }
    }

    open spec fn block_report(&self, block: TokenStream) -> Seq<Seq<char>> {
        match item_function(*self) {
            Some(function) => fn_block_report(function, block),
            None => absent_report("block"@),
        }
    }

    fn has_name(&self, name: &str) -> (result: CheckResult) {
        match as_function(self) {
            Some(function) => function.has_name(name),
            None => CheckResult::missing("name"),
        }
    }

    fn has_vis(&self, vis: &Visibility) -> (result: CheckResult) {
        match as_function(self) {
            Some(function) => function.has_vis(vis),
            None => CheckResult::missing("vis"),
        }
    }

    fn has_attrs(&self, attrs: &[String]) -> (result: CheckResult) {
        match as_function(self) {
            Some(function) => function.has_attrs(attrs),
            None => CheckResult::missing("attrs"),
        }
    }

    fn has_block(&self, block: &TokenStream) -> (result: CheckResult) {
        match as_function(self) {
            Some(function) => function.has_block(block),
            None => CheckResult::missing("block"),
        }
    }
}

/// The outcome over the nodes of a sequence, from the outcome of each: a
/// success where one of them is a success, and where there is no node; else
/// the messages of all of them, in order.
pub open spec fn some_report(each: Seq<Seq<Seq<char>>>) -> Seq<Seq<char>> {
    if exists|i: int| 0 <= i < each.len() && (#[trigger] each[i]).len() == 0 {
        Seq::empty()
    } else {
        each.flatten()
    }
}

/// The messages of `has_name` for each node of a sequence.
pub open spec fn each_name_report<T: HasFn>(nodes: Seq<T>, name: Seq<char>) -> Seq<
    Seq<Seq<char>>,
> {
    Seq::new(nodes.len(), |i: int| nodes[i].name_report(name))
}

/// The messages of `has_vis` for each node of a sequence.
pub open spec fn each_vis_report<T: HasFn>(nodes: Seq<T>, vis: Visibility) -> Seq<
    Seq<Seq<char>>,
> {
    Seq::new(nodes.len(), |i: int| nodes[i].vis_report(vis))
}

/// The messages of `has_attrs` for each node of a sequence.
pub open spec fn each_attrs_report<T: HasFn>(nodes: Seq<T>, attrs: Seq<Seq<char>>) -> Seq<
    Seq<Seq<char>>,
> {
    Seq::new(nodes.len(), |i: int| nodes[i].attrs_report(attrs))
}

/// The messages of `has_block` for each node of a sequence.
pub open spec fn each_block_report<T: HasFn>(nodes: Seq<T>, block: TokenStream) -> Seq<
    Seq<Seq<char>>,
> {
    Seq::new(nodes.len(), |i: int| nodes[i].block_report(block))
}

/// Where every outcome of a list is a failure, what `CheckResult::any` makes
/// of the list is what `some_report` makes of it.
proof fn lemma_all_failed(results: Seq<CheckResult>)
    requires
        forall|k: int| 0 <= k < results.len() ==> (#[trigger] results[k]@).len() > 0,
    ensures
        some_report(reports(results)) == reports(results).flatten(),
{
    let each = reports(results);
    assert forall|i: int| 0 <= i < each.len() implies (#[trigger] each[i]).len() != 0 by {
        assert(each[i] == results[i]@);
    }
}

impl<T: HasFn> HasFn for Vec<T> {
    open spec fn name_report(&self, name: Seq<char>) -> Seq<Seq<char>> {
        some_report(each_name_report(self@, name))
    }

    open spec fn vis_report(&self, vis: Visibility) -> Seq<Seq<char>> {
        some_report(each_vis_report(self@, vis))
    }

    open spec fn attrs_report(&self, attrs: Seq<Seq<char>>) -> Seq<Seq<char>> {
        some_report(each_attrs_report(self@, attrs))
    }

    open spec fn block_report(&self, block: TokenStream) -> Seq<Seq<char>> {
        some_report(each_block_report(self@, block))
    }

    fn has_name(&self, name: &str) -> (result: CheckResult) {
        let ghost each = each_name_report(self@, name@);
        let mut results: Vec<CheckResult> = Vec::new();
        let mut i: usize = 0;
        while i < self.len()
            invariant
                i <= self.len(),
                each == each_name_report(self@, name@),
                results@.len() == i,
                reports(results@) =~= each.take(i as int),
                forall|k: int| 0 <= k < i ==> (#[trigger] results@[k]@).len() > 0,
            decreases self.len() - i,
        {
            let result = self[i].has_name(name);
            if result.as_bool() {
                assert(each[i as int].len() == 0);
                return CheckResult::Success;
            }
            results.push(result);
            i = i + 1;
        }
        proof {
            assert(each.take(self.len() as int) =~= each);
            lemma_all_failed(results@);
        }
        CheckResult::any(results)
    }

    fn has_vis(&self, vis: &Visibility) -> (result: CheckResult) {
        let ghost each = each_vis_report(self@, *vis);
        let mut results: Vec<CheckResult> = Vec::new();
        let mut i: usize = 0;
        while i < self.len()
            invariant
                i <= self.len(),
                each == each_vis_report(self@, *vis),
                results@.len() == i,
                reports(results@) =~= each.take(i as int),
                forall|k: int| 0 <= k < i ==> (#[trigger] results@[k]@).len() > 0,
            decreases self.len() - i,
        {
            let result = self[i].has_vis(vis);
            if result.as_bool() {
                assert(each[i as int].len() == 0);
                return CheckResult::Success;
            }
            results.push(result);
            i = i + 1;
        }
        proof {
            assert(each.take(self.len() as int) =~= each);
            lemma_all_failed(results@);
        }
        CheckResult::any(results)
    }

    fn has_attrs(&self, attrs: &[String]) -> (result: CheckResult) {
        let ghost each = each_attrs_report(self@, texts(attrs@));
        let mut results: Vec<CheckResult> = Vec::new();
        let mut i: usize = 0;
        while i < self.len()
            invariant
                i <= self.len(),
                each == each_attrs_report(self@, texts(attrs@)),
                results@.len() == i,
                reports(results@) =~= each.take(i as int),
                forall|k: int| 0 <= k < i ==> (#[trigger] results@[k]@).len() > 0,
            decreases self.len() - i,
        {
            let result = self[i].has_attrs(attrs);
            if result.as_bool() {
                assert(each[i as int].len() == 0);
                return CheckResult::Success;
            }
            results.push(result);
            i = i + 1;
        }
        proof {
            assert(each.take(self.len() as int) =~= each);
            lemma_all_failed(results@);
        }
        CheckResult::any(results)
    }

    fn has_block(&self, block: &TokenStream) -> (result: CheckResult) {
        let ghost each = each_block_report(self@, *block);
        let mut results: Vec<CheckResult> = Vec::new();
        let mut i: usize = 0;
        while i < self.len()
            invariant
                i <= self.len(),
                each == each_block_report(self@, *block),
                results@.len() == i,
                reports(results@) =~= each.take(i as int),
                forall|k: int| 0 <= k < i ==> (#[trigger] results@[k]@).len() > 0,
            decreases self.len() - i,
        {
            let result = self[i].has_block(block);
            if result.as_bool() {
                assert(each[i as int].len() == 0);
                return CheckResult::Success;
            }
            results.push(result);
            i = i + 1;
        }
        proof {
            assert(each.take(self.len() as int) =~= each);
            lemma_all_failed(results@);
        }
        CheckResult::any(results)
    }
}

/// What an assertion expects of its target: `None` where a field is not to
/// be checked. The attributes are always checked, against a list that is
/// empty until one is given.
pub struct Expected<T> {
    pub target: T,
    pub name: Option<Seq<char>>,
    pub vis: Option<Visibility>,
    pub attrs: Seq<Seq<char>>,
    pub block: Option<TokenStream>,
}

impl<T> Expected<T> {
    /// Nothing is expected of `target`.
    pub open spec fn nothing(target: T) -> Self {
        Expected { target, name: None, vis: None, attrs: Seq::empty(), block: None }
    }
}

/// The messages of an assertion: those of the name, of the visibility, of the
/// body and of the attributes, in that order.
pub open spec fn expected_report<T: HasFn>(expected: Expected<T>) -> Seq<Seq<char>> {
    let name = match expected.name {
        Some(name) => expected.target.name_report(name),
        None => Seq::empty(),
    };
    let vis = match expected.vis {
        Some(vis) => expected.target.vis_report(vis),
        None => Seq::empty(),
    };
    let block = match expected.block {
        Some(block) => expected.target.block_report(block),
        None => Seq::empty(),
    };
    let attrs = expected.target.attrs_report(expected.attrs);
    combined(combined(combined(name, vis), block), attrs)
}

/// An assertion on a node, built up one expectation at a time.
pub struct AssertFn<'s, T> {
    t: &'s T,
    name: Option<&'s str>,
    vis: Option<Visibility>,
    attrs: Vec<String>,
    block: Option<TokenStream>,
}

impl<'s, T> View for AssertFn<'s, T> {
    type V = Expected<T>;

    closed spec fn view(&self) -> Expected<T> {
        Expected {
            target: *self.t,
            name: match self.name {
                Some(name) => Some(name@),
                None => None,
            },
            vis: self.vis,
            attrs: texts(self.attrs@),
            block: self.block,
        }
    }
}

impl<'s, T> AssertFn<'s, T> {
    /// An assertion on `t` that expects nothing yet.
    pub fn new(t: &'s T) -> (builder: Self)
        ensures
            builder@ == Expected::nothing(*t),
    {
        let builder = AssertFn { t, name: None, vis: None, attrs: Vec::new(), block: None };
        assert(texts(builder.attrs@) =~= Seq::empty());
        builder
    }

    /// Expects the name `name`.
    pub fn with_name(self, name: &'s str) -> (builder: Self)
        ensures
            builder@ == (Expected { name: Some(name@), ..self@ }),
    {
        AssertFn { name: Some(name), ..self }
    }

    /// Expects the visibility `vis`.
    pub fn with_vis(self, vis: Visibility) -> (builder: Self)
        ensures
            builder@ == (Expected { vis: Some(vis), ..self@ }),
    {
        AssertFn { vis: Some(vis), ..self }
    }

    /// Expects the attributes `attrs`, in place of those expected before.
    pub fn with_attrs(self, attrs: Vec<String>) -> (builder: Self)
        ensures
            builder@ == (Expected { attrs: texts(attrs@), ..self@ }),
    {
        AssertFn { attrs, ..self }
    }

    /// Expects the body `block`.
    pub fn with_block(self, block: TokenStream) -> (builder: Self)
        ensures
            builder@ == (Expected { block: Some(block), ..self@ }),
    {
        AssertFn { block: Some(block), ..self }
    }
}

impl<'s, T: HasFn> Check for AssertFn<'s, T> {
    open spec fn report(self) -> Seq<Seq<char>> {
        expected_report(self@)
    }

    fn check(self) -> (result: CheckResult) {
        let name = match self.name {
            Some(name) => self.t.has_name(name),
            None => CheckResult::Success,
        };
        let vis = match &self.vis {
            Some(vis) => self.t.has_vis(vis),
            None => CheckResult::Success,
        };
        let block = match &self.block {
            Some(block) => self.t.has_block(block),
            None => CheckResult::Success,
        };
        let attrs = self.t.has_attrs(self.attrs.as_slice());
        name + vis + block + attrs
    }
}

/// The check of a function item's name succeeds, with no message, where the
/// item's identifier is the expected name. With any other name it fails with
/// exactly one message, in which the expected name and the identifier both
/// stand.
pub proof fn lemma_name_check(item: ItemFn, name: Seq<char>)
    ensures
        name == fn_name(item) ==> item.name_report(name).len() == 0,
        name != fn_name(item) ==> {
            &&& item.name_report(name).len() == 1
            &&& occurs_in(name, item.name_report(name)[0])
            &&& occurs_in(fn_name(item), item.name_report(name)[0])
        },
{
    lemma_expected_text_shows_both(name, fn_name(item));
}

/// The check of the name of an item that is a function succeeds, with no
/// message, where the function's identifier is the expected name. With any
/// other name it fails with exactly one message, in which the expected name
/// and the identifier both stand.
pub proof fn lemma_item_name_check(item: Item, name: Seq<char>)
    requires
        item_function(item) is Some,
    ensures
        name == fn_name(item_function(item).unwrap()) ==> item.name_report(name).len() == 0,
        name != fn_name(item_function(item).unwrap()) ==> {
            &&& item.name_report(name).len() == 1
            &&& occurs_in(name, item.name_report(name)[0])
            &&& occurs_in(fn_name(item_function(item).unwrap()), item.name_report(name)[0])
        },
{
    lemma_name_check(item_function(item).unwrap(), name);
}

/// The checks of an item that is a function are those of the function.
pub proof fn lemma_function_item(
    item: Item,
    name: Seq<char>,
    vis: Visibility,
    attrs: Seq<Seq<char>>,
    block: TokenStream,
)
    requires
        item_function(item) is Some,
    ensures
        item.name_report(name) == item_function(item).unwrap().name_report(name),
        item.vis_report(vis) == item_function(item).unwrap().vis_report(vis),
        item.attrs_report(attrs) == item_function(item).unwrap().attrs_report(attrs),
        item.block_report(block) == item_function(item).unwrap().block_report(block),
{
}

/// Every check of an item that is no function fails, whatever is expected,
/// with the one message that the field is missing.
pub proof fn lemma_not_a_function(
    item: Item,
    name: Seq<char>,
    vis: Visibility,
    attrs: Seq<Seq<char>>,
    block: TokenStream,
)
    requires
        item_function(item) is None,
    ensures
        item.name_report(name) == seq![absent_text("name"@)],
        item.vis_report(vis) == seq![absent_text("vis"@)],
        item.attrs_report(attrs) == seq![absent_text("attrs"@)],
        item.block_report(block) == seq![absent_text("block"@)],
{
}

/// Over a sequence that is not empty, the outcome is a success exactly where
/// the outcome of one node is; and where it is a failure, its messages are
/// those of every node, in order.
pub proof fn lemma_some_report(each: Seq<Seq<Seq<char>>>)
    requires
        each.len() > 0,
    ensures
        some_report(each).len() == 0 <==> exists|i: int|
            0 <= i < each.len() && (#[trigger] each[i]).len() == 0,
        some_report(each).len() > 0 ==> some_report(each) == each.flatten(),
{
    if !(exists|i: int| 0 <= i < each.len() && (#[trigger] each[i]).len() == 0) {
        assert(each[0].len() > 0);
        each.lemma_flatten_and_flatten_alt_are_equivalent();
        each.lemma_flatten_length_ge_single_element_length(0);
    }
}

/// Each check of a sequence of nodes that is not empty succeeds exactly where
/// the same check of one of its nodes succeeds; and where it fails, its
/// messages are those of that check of every node, in order.
pub proof fn lemma_sequence_checks<T: HasFn>(
    nodes: Vec<T>,
    name: Seq<char>,
    vis: Visibility,
    attrs: Seq<Seq<char>>,
    block: TokenStream,
)
    requires
        nodes@.len() > 0,
    ensures
        nodes.name_report(name).len() == 0 <==> exists|i: int|
            0 <= i < nodes@.len() && (#[trigger] nodes@[i]).name_report(name).len() == 0,
        nodes.name_report(name).len() > 0 ==> nodes.name_report(name) == each_name_report(
            nodes@,
            name,
        ).flatten(),
        nodes.vis_report(vis).len() == 0 <==> exists|i: int|
            0 <= i < nodes@.len() && (#[trigger] nodes@[i]).vis_report(vis).len() == 0,
        nodes.vis_report(vis).len() > 0 ==> nodes.vis_report(vis) == each_vis_report(
            nodes@,
            vis,
        ).flatten(),
        nodes.attrs_report(attrs).len() == 0 <==> exists|i: int|
            0 <= i < nodes@.len() && (#[trigger] nodes@[i]).attrs_report(attrs).len() == 0,
        nodes.attrs_report(attrs).len() > 0 ==> nodes.attrs_report(attrs) == each_attrs_report(
            nodes@,
            attrs,
        ).flatten(),
        nodes.block_report(block).len() == 0 <==> exists|i: int|
            0 <= i < nodes@.len() && (#[trigger] nodes@[i]).block_report(block).len() == 0,
        nodes.block_report(block).len() > 0 ==> nodes.block_report(block) == each_block_report(
            nodes@,
            block,
        ).flatten(),
{
    let names = each_name_report(nodes@, name);
    lemma_some_report(names);
    if exists|i: int| 0 <= i < names.len() && (#[trigger] names[i]).len() == 0 {
        let i = choose|i: int| 0 <= i < names.len() && (#[trigger] names[i]).len() == 0;
        assert(nodes@[i].name_report(name).len() == 0);
    }
    if exists|i: int|
        0 <= i < nodes@.len() && (#[trigger] nodes@[i]).name_report(name).len() == 0 {
        let i = choose|i: int|
            0 <= i < nodes@.len() && (#[trigger] nodes@[i]).name_report(name).len() == 0;
        assert(names[i].len() == 0);
    }
    let visibilities = each_vis_report(nodes@, vis);
    lemma_some_report(visibilities);
    if exists|i: int| 0 <= i < visibilities.len() && (#[trigger] visibilities[i]).len() == 0 {
        let i = choose|i: int|
            0 <= i < visibilities.len() && (#[trigger] visibilities[i]).len() == 0;
        assert(nodes@[i].vis_report(vis).len() == 0);
    }
    if exists|i: int| 0 <= i < nodes@.len() && (#[trigger] nodes@[i]).vis_report(vis).len() == 0 {
        let i = choose|i: int|
            0 <= i < nodes@.len() && (#[trigger] nodes@[i]).vis_report(vis).len() == 0;
        assert(visibilities[i].len() == 0);
    }
    let attributes = each_attrs_report(nodes@, attrs);
    lemma_some_report(attributes);
    if exists|i: int| 0 <= i < attributes.len() && (#[trigger] attributes[i]).len() == 0 {
        let i = choose|i: int| 0 <= i < attributes.len() && (#[trigger] attributes[i]).len() == 0;
        assert(nodes@[i].attrs_report(attrs).len() == 0);
    }
    if exists|i: int|
        0 <= i < nodes@.len() && (#[trigger] nodes@[i]).attrs_report(attrs).len() == 0 {
        let i = choose|i: int|
            0 <= i < nodes@.len() && (#[trigger] nodes@[i]).attrs_report(attrs).len() == 0;
        assert(attributes[i].len() == 0);
    }
    let blocks = each_block_report(nodes@, block);
    lemma_some_report(blocks);
    if exists|i: int| 0 <= i < blocks.len() && (#[trigger] blocks[i]).len() == 0 {
        let i = choose|i: int| 0 <= i < blocks.len() && (#[trigger] blocks[i]).len() == 0;
        assert(nodes@[i].block_report(block).len() == 0);
    }
    if exists|i: int|
        0 <= i < nodes@.len() && (#[trigger] nodes@[i]).block_report(block).len() == 0 {
        let i = choose|i: int|
            0 <= i < nodes@.len() && (#[trigger] nodes@[i]).block_report(block).len() == 0;
        assert(blocks[i].len() == 0);
    }
}

/// An assertion succeeds exactly where each check that it asks for succeeds:
/// that of the attributes, and that of each field that is expected.
pub proof fn lemma_expected_report<T: HasFn>(expected: Expected<T>)
    ensures
        expected_report(expected).len() == 0 <==> {
            &&& expected.name matches Some(name) ==> expected.target.name_report(name).len() == 0
            &&& expected.vis matches Some(vis) ==> expected.target.vis_report(vis).len() == 0
            &&& expected.block matches Some(block) ==> expected.target.block_report(block).len()
                == 0
            &&& expected.target.attrs_report(expected.attrs).len() == 0
        },
{
}

/// An assertion that expects nothing succeeds on every target whose check of
/// the attributes accepts the empty list.
pub proof fn lemma_nothing_expected<T: HasFn>(target: T)
    requires
        target.attrs_report(Seq::empty()).len() == 0,
    ensures
        expected_report(Expected::nothing(target)).len() == 0,
{
}

/// The check of the attributes of a function item accepts the empty list, so
/// an assertion that expects nothing of a function item succeeds.
pub proof fn lemma_nothing_expected_of_function(item: ItemFn)
    ensures
        item.attrs_report(Seq::empty()).len() == 0,
        expected_report(Expected::nothing(item)).len() == 0,
{
    crate::utils::lemma_missing_report(fn_attributes(item), Seq::empty());
}

/// An assertion that expects nothing of an item succeeds exactly where the
/// item is a function: of any other item the attributes are missing.
pub proof fn lemma_nothing_expected_of_item(item: Item)
    ensures
        expected_report(Expected::nothing(item)).len() == 0 <==> item_function(item) is Some,
        item_function(item) is None ==> expected_report(Expected::nothing(item)) == seq![
            absent_text("attrs"@),
        ],
{
    if item_function(item) is Some {
        lemma_nothing_expected_of_function(item_function(item).unwrap());
    }
}

} // verus!
