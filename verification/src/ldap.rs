//! The data model: messages, their parameters and search filters, each
//! with the mathematical view that the codec's contracts speak of.

use vstd::prelude::*;
use crate::error::Error;

verus! {

/// An equality assertion on an attribute: `name` must have `value`.
#[derive(Debug, Clone)]
pub struct FilterAttributeValueAssertion {
    pub name: String,
    pub value: String,
}

/// A presence test: the entry must have the attribute `name`.
#[derive(Debug, Clone)]
pub struct FilterPresent {
    pub name: String,
}

/// A conjunction of filters, in wire order.
#[derive(Debug)]
pub struct FilterAnd {
    pub items: Vec<Filter>,
}

/// A search filter.
#[derive(Debug)]
pub enum Filter {
    Empty(),
    EqualityMatch(FilterAttributeValueAssertion),
    Present(FilterPresent),
    And(FilterAnd),
}

/// What a `Filter` is, with strings as character sequences.
pub enum FilterView {
    Empty,
    EqualityMatch { name: Seq<char>, value: Seq<char> },
    Present { name: Seq<char> },
    And { items: Seq<FilterView> },
}

impl View for Filter {
    type V = FilterView;

    open spec fn view(&self) -> FilterView
        decreases self,
    {
        match self {
            Filter::Empty() => FilterView::Empty,
            Filter::EqualityMatch(a) => FilterView::EqualityMatch { name: a.name@, value: a.value@ },
            Filter::Present(p) => FilterView::Present { name: p.name@ },
            Filter::And(a) => FilterView::And {
                items: Seq::new(
                    a.items.len() as nat,
                    |i: int|
                        if 0 <= i < a.items.len() {
                            a.items[i].view()
                        } else {
                            FilterView::Empty
                        },
                ),
            },
        }
    }
}

/// The views of a sequence of filters, in order.
pub open spec fn filters_view(items: Seq<Filter>) -> Seq<FilterView> {
    Seq::new(items.len(), |i: int| items[i]@)
}

/// The view of a conjunction lists the views of its items.
pub proof fn lemma_and_view(a: FilterAnd)
    ensures
        Filter::And(a)@ == (FilterView::And { items: filters_view(a.items@) }),
{
    assert(Filter::And(a)@->items =~= filters_view(a.items@));
}

impl Clone for Filter {
    fn clone(&self) -> (copy: Self)
        ensures
            copy@ == self@,
        decreases self,
    {
        match self {
            Filter::Empty() => Filter::Empty(),
            Filter::EqualityMatch(a) => Filter::EqualityMatch(
                FilterAttributeValueAssertion { name: a.name.clone(), value: a.value.clone() },
            ),
            Filter::Present(p) => Filter::Present(FilterPresent { name: p.name.clone() }),
            Filter::And(a) => {
                let mut items: Vec<Filter> = Vec::new();
                let mut i: usize = 0;
                while i < a.items.len()
                    invariant
                        i <= a.items.len(),
                        items@.len() == i,
                        *self == Filter::And(*a),
                        forall|k: int| 0 <= k < i ==> items@[k]@ == a.items@[k]@,
                    decreases a.items.len() - i,
                {
                    proof {
                        vstd::std_specs::vec::axiom_vec_index_decreases(a.items, i as int);
                        assert(decreases_to!(*self => self->And_0));
                    }
                    let item = a.items[i].clone();
                    items.push(item);
                    i += 1;
                }
                let copy = FilterAnd { items };
                proof {
                    lemma_and_view(copy);
                    lemma_and_view(*a);
                    assert(filters_view(copy.items@) =~= filters_view(a.items@));
                }
                Filter::And(copy)
            },
        }
    }
}

impl Clone for FilterAnd {
    fn clone(&self) -> (copy: Self)
        ensures
            filters_view(copy.items@) == filters_view(self.items@),
    {
        let mut items: Vec<Filter> = Vec::new();
        let mut i: usize = 0;
        while i < self.items.len()
            invariant
                i <= self.items.len(),
                items@.len() == i,
                forall|k: int| 0 <= k < i ==> items@[k]@ == self.items@[k]@,
            decreases self.items.len() - i,
        {
            let item = self.items[i].clone();
            items.push(item);
            i += 1;
        }
        assert(filters_view(items@) =~= filters_view(self.items@));
        FilterAnd { items }
    }
}

/// A bind request.
#[derive(Debug, Clone)]
pub struct MsgBind {
    pub version: u32,
    pub name: String,
    pub password: String,
}

/// What a `MsgBind` is.
pub struct MsgBindView {
    pub version: u32,
    pub name: Seq<char>,
    pub password: Seq<char>,
}

impl View for MsgBind {
    type V = MsgBindView;

    open spec fn view(&self) -> MsgBindView {
        MsgBindView { version: self.version, name: self.name@, password: self.password@ }
    }
}

/// The answer to a bind request.
#[derive(Debug, Clone)]
pub struct MsgBindResponse {
    pub res: u32,
    pub matched_dn: String,
    pub diag: String,
}

/// What a `MsgBindResponse` is.
pub struct MsgBindResponseView {
    pub res: u32,
    pub matched_dn: Seq<char>,
    pub diag: Seq<char>,
}

impl View for MsgBindResponse {
    type V = MsgBindResponseView;

    open spec fn view(&self) -> MsgBindResponseView {
        MsgBindResponseView { res: self.res, matched_dn: self.matched_dn@, diag: self.diag@ }
    }
}

/// How far below the base object a search reaches.
#[derive(Debug, Clone, Copy, PartialEq, Eq, Structural)]
pub enum SearchScope {
    BaseObject,
    SingleLevel,
    WholeSubtree,
}

impl SearchScope {
    /// The number that stands for the scope on the wire.
    pub open spec fn spec_code(self) -> u8 {
        match self {
            SearchScope::BaseObject => 0,
            SearchScope::SingleLevel => 1,
            SearchScope::WholeSubtree => 2,
        }
    }

    /// The scope that `value` stands for, if it stands for one.
    pub open spec fn spec_try_from(value: u32) -> Option<SearchScope> {
        if value == 0 {
            Some(SearchScope::BaseObject)
        } else if value == 1 {
            Some(SearchScope::SingleLevel)
        } else if value == 2 {
            Some(SearchScope::WholeSubtree)
        } else {
            None
        }
    }

    /// The number that stands for the scope on the wire.
    pub fn code(self) -> (code: u8)
        ensures
            code == self.spec_code(),
    {
        match self {
            SearchScope::BaseObject => 0,
            SearchScope::SingleLevel => 1,
            SearchScope::WholeSubtree => 2,
        }
    }

}

impl TryFrom<u32> for SearchScope {
    type Error = Error;

    /// Reads a scope from its number: 0, 1 and 2 are scopes, every
    /// other number is invalid data.
    fn try_from(value: u32) -> (scope: Result<SearchScope, Error>) {
        match value {
            0 => Ok(SearchScope::BaseObject),
            1 => Ok(SearchScope::SingleLevel),
            2 => Ok(SearchScope::WholeSubtree),
            _ => Err(Error::InvalidData),
        }
    }
}

impl vstd::std_specs::convert::TryFromSpecImpl<u32> for SearchScope {
    open spec fn obeys_try_from_spec() -> bool {
        true
    }

    open spec fn try_from_spec(value: u32) -> Result<SearchScope, Error> {
        match Self::spec_try_from(value) {
            Some(s) => Ok(s),
            None => Err(Error::InvalidData),
        }
    }
}

/// When aliases are followed during a search.
#[derive(Debug, Clone, Copy, PartialEq, Eq, Structural)]
pub enum DerefAliases {
    NeverDerefAliases,
    DerefInSearching,
    DerefFindingBaseObj,
    DerefAlways,
}

impl DerefAliases {
    /// The number that stands for the policy on the wire.
    pub open spec fn spec_code(self) -> u8 {
        match self {
            DerefAliases::NeverDerefAliases => 0,
            DerefAliases::DerefInSearching => 1,
            DerefAliases::DerefFindingBaseObj => 2,
            DerefAliases::DerefAlways => 3,
        }
    }

    /// The policy that `value` stands for, if it stands for one.
    pub open spec fn spec_try_from(value: u32) -> Option<DerefAliases> {
        if value == 0 {
            Some(DerefAliases::NeverDerefAliases)
        } else if value == 1 {
            Some(DerefAliases::DerefInSearching)
        } else if value == 2 {
            Some(DerefAliases::DerefFindingBaseObj)
        } else if value == 3 {
            Some(DerefAliases::DerefAlways)
        } else {
            None
        }
    }

    /// The number that stands for the policy on the wire.
    pub fn code(self) -> (code: u8)
        ensures
            code == self.spec_code(),
    {
        match self {
            DerefAliases::NeverDerefAliases => 0,
            DerefAliases::DerefInSearching => 1,
            DerefAliases::DerefFindingBaseObj => 2,
            DerefAliases::DerefAlways => 3,
        }
    }

}

impl TryFrom<u32> for DerefAliases {
    type Error = Error;

    /// Reads a policy from its number: 0 to 3 are policies, every other
    /// number is invalid data.
    fn try_from(value: u32) -> (deref: Result<DerefAliases, Error>) {
        match value {
            0 => Ok(DerefAliases::NeverDerefAliases),
            1 => Ok(DerefAliases::DerefInSearching),
            2 => Ok(DerefAliases::DerefFindingBaseObj),
            3 => Ok(DerefAliases::DerefAlways),
            _ => Err(Error::InvalidData),
        }
    }
}

impl vstd::std_specs::convert::TryFromSpecImpl<u32> for DerefAliases {
    open spec fn obeys_try_from_spec() -> bool {
        true
    }

    open spec fn try_from_spec(value: u32) -> Result<DerefAliases, Error> {
        match Self::spec_try_from(value) {
            Some(d) => Ok(d),
            None => Err(Error::InvalidData),
        }
    }
}

/// A search request.
#[derive(Debug, Clone)]
pub struct MsgSearch {
    pub base_object: String,
    pub scope: SearchScope,
    pub deref: DerefAliases,
    pub filter: Filter,
    pub size_limit: u32,
    pub time_limit: u32,
}

/// What a `MsgSearch` is.
pub struct MsgSearchView {
    pub base_object: Seq<char>,
    pub scope: SearchScope,
    pub deref: DerefAliases,
    pub filter: FilterView,
    pub size_limit: u32,
    pub time_limit: u32,
}

impl View for MsgSearch {
    type V = MsgSearchView;

    open spec fn view(&self) -> MsgSearchView {
        MsgSearchView {
            base_object: self.base_object@,
            scope: self.scope,
            deref: self.deref,
            filter: self.filter@,
            size_limit: self.size_limit,
            time_limit: self.time_limit,
        }
    }
}

/// An attribute of an entry with its values, in wire order.
#[derive(Debug, Clone)]
pub struct PartialAttribute {
    pub name: String,
    pub values: Vec<String>,
}

/// What a `PartialAttribute` is.
pub struct PartialAttributeView {
    pub name: Seq<char>,
    pub values: Seq<Seq<char>>,
}

/// The character sequences of a sequence of strings, in order.
pub open spec fn strings_view(items: Seq<String>) -> Seq<Seq<char>> {
    Seq::new(items.len(), |i: int| items[i]@)
}

impl View for PartialAttribute {
    type V = PartialAttributeView;

    open spec fn view(&self) -> PartialAttributeView {
        PartialAttributeView { name: self.name@, values: strings_view(self.values@) }
    }
}

/// The views of a sequence of attributes, in order.
pub open spec fn attributes_view(items: Seq<PartialAttribute>) -> Seq<PartialAttributeView> {
    Seq::new(items.len(), |i: int| items[i]@)
}

/// One entry of a search result.
#[derive(Debug, Clone)]
pub struct MsgSearchResult {
    pub name: String,
    pub values: Vec<PartialAttribute>,
}

/// What a `MsgSearchResult` is.
pub struct MsgSearchResultView {
    pub name: Seq<char>,
    pub values: Seq<PartialAttributeView>,
}

impl View for MsgSearchResult {
    type V = MsgSearchResultView;

    open spec fn view(&self) -> MsgSearchResultView {
        MsgSearchResultView { name: self.name@, values: attributes_view(self.values@) }
    }
}

/// The end of a search result, with the result code.
#[derive(Debug, Clone)]
pub struct MsgSearchResultDone {
    pub res: u32,
}

/// An unbind request. It has no contents.
#[derive(Debug, Clone)]
pub struct MsgUnbind {
}

/// The kinds of message, each with its parameters.
#[derive(Debug, Clone)]
pub enum MessageParams {
    Bind(MsgBind),
    BindResponse(MsgBindResponse),
    Search(MsgSearch),
    SearchResult(MsgSearchResult),
    MsgSearchResultDone(MsgSearchResultDone),
    Unbind(MsgUnbind),
}

/// What a `MessageParams` is.
pub enum MessageParamsView {
    Bind(MsgBindView),
    BindResponse(MsgBindResponseView),
    Search(MsgSearchView),
    SearchResult(MsgSearchResultView),
    MsgSearchResultDone(MsgSearchResultDone),
    Unbind(MsgUnbind),
}

impl View for MessageParams {
    type V = MessageParamsView;

    open spec fn view(&self) -> MessageParamsView {
        match self {
            MessageParams::Bind(b) => MessageParamsView::Bind(b@),
            MessageParams::BindResponse(b) => MessageParamsView::BindResponse(b@),
            MessageParams::Search(s) => MessageParamsView::Search(s@),
            MessageParams::SearchResult(s) => MessageParamsView::SearchResult(s@),
            MessageParams::MsgSearchResultDone(d) => MessageParamsView::MsgSearchResultDone(*d),
            MessageParams::Unbind(u) => MessageParamsView::Unbind(*u),
        }
    }
}

/// A protocol message: the id that ties a response to its request, and
/// the parameters.
#[derive(Debug, Clone)]
pub struct Message {
    pub id: u32,
    pub params: MessageParams,
}

/// What a `Message` is.
pub struct MessageView {
    pub id: u32,
    pub params: MessageParamsView,
}

impl View for Message {
    type V = MessageView;

    open spec fn view(&self) -> MessageView {
        MessageView { id: self.id, params: self.params@ }
    }
}

/// The views of a sequence of messages, in order.
pub open spec fn messages_view(items: Seq<Message>) -> Seq<MessageView> {
    Seq::new(items.len(), |i: int| items[i]@)
}

} // verus!
