//! Headers: a name and a value, written `name: value` on the wire.

pub mod name;
pub mod value;


pub use name::EntityHeader;
pub use name::GeneralHeader;
pub use name::ReqOnlyHeader;
pub use name::ResOnlyHeader;
pub use value::HeaderValue;
pub use value::HeaderValueMemberName;
pub use value::HeaderValueMemberValue;
pub use value::HeaderValueMembers;
pub use value::Mime;
pub use value::ParsedHeaderValue;
pub use value::SimpleHeaderValue;

use crate::text::lemma_position;
use crate::text::lemma_position_is;
use crate::text::position;
use crate::text::str_eq;
use value::HeaderValueView;
use vstd::prelude::*;
use vstd::std_specs::cmp::PartialEqSpecImpl;
use vstd::string::StringExecFns;

verus! {

/// What a header name is, with the text of a name that is not enumerated as
/// characters.
pub enum HeaderNameView {
    General(GeneralHeader),
    ReqOnly(ReqOnlyHeader),
    ResOnly(ResOnlyHeader),
    Entity(EntityHeader),
    Other(Seq<char>),
}

impl HeaderNameView {
    /// The name as it is written on the wire. A name that is not enumerated is
    /// written as it was received.
    pub open spec fn wire(self) -> Seq<char> {
        match self {
            Self::General(h) => h.wire(),
            Self::ReqOnly(h) => h.wire(),
            Self::ResOnly(h) => h.wire(),
            Self::Entity(h) => h.wire(),
            Self::Other(name) => name,
        }
    }
}

/// The name of a header of a request.
#[derive(Debug, Clone, PartialEq, Eq, Hash)]
pub enum ReqHeader {
    General(GeneralHeader),
    ReqOnly(ReqOnlyHeader),
    Entity(EntityHeader),
    Other(String),
}

impl View for ReqHeader {
    type V = HeaderNameView;

    open spec fn view(&self) -> HeaderNameView {
        match self {
            Self::General(h) => HeaderNameView::General(*h),
            Self::ReqOnly(h) => HeaderNameView::ReqOnly(*h),
            Self::Entity(h) => HeaderNameView::Entity(*h),
            Self::Other(name) => HeaderNameView::Other(name@),
        }
    }
}

impl ReqHeader {
    /// The name as it is written on the wire.
    pub fn to_string(&self) -> (s: String)
        ensures
            s@ == self@.wire(),
    {
        match self {
            Self::General(h) => h.to_string(),
            Self::ReqOnly(h) => h.to_string(),
            Self::Entity(h) => h.to_string(),
            Self::Other(name) => name.clone(),
        }
    }

    /// Whether two names are the same name.
    pub fn same(&self, other: &Self) -> (r: bool)
        ensures
            r == (self@ == other@),
    {
        match (self, other) {
            (Self::General(a), Self::General(b)) => *a == *b,
            (Self::ReqOnly(a), Self::ReqOnly(b)) => *a == *b,
            (Self::Entity(a), Self::Entity(b)) => *a == *b,
            (Self::Other(a), Self::Other(b)) => str_eq(a.as_str(), b.as_str()),
            _ => false,
        }
    }

    /// A copy of the name.
    pub fn duplicate(&self) -> (r: Self)
        ensures
            r@ == self@,
    {
        match self {
            Self::General(h) => Self::General(*h),
            Self::ReqOnly(h) => Self::ReqOnly(*h),
            Self::Entity(h) => Self::Entity(*h),
            Self::Other(name) => Self::Other(name.clone()),
        }
    }
}

/// The name of a header of a response.
#[derive(Debug, Clone, PartialEq, Eq, Hash)]
pub enum ResHeader {
    General(GeneralHeader),
    ResOnly(ResOnlyHeader),
    Entity(EntityHeader),
    Other(String),
}

impl View for ResHeader {
    type V = HeaderNameView;

    open spec fn view(&self) -> HeaderNameView {
        match self {
            Self::General(h) => HeaderNameView::General(*h),
            Self::ResOnly(h) => HeaderNameView::ResOnly(*h),
            Self::Entity(h) => HeaderNameView::Entity(*h),
            Self::Other(name) => HeaderNameView::Other(name@),
        }
    }
}

impl ResHeader {
    /// The name as it is written on the wire.
    pub fn to_string(&self) -> (s: String)
        ensures
            s@ == self@.wire(),
    {
        match self {
            Self::General(h) => h.to_string(),
            Self::ResOnly(h) => h.to_string(),
            Self::Entity(h) => h.to_string(),
            Self::Other(name) => name.clone(),
        }
    }

    /// Whether two names are the same name.
    pub fn same(&self, other: &Self) -> (r: bool)
        ensures
            r == (self@ == other@),
    {
        match (self, other) {
            (Self::General(a), Self::General(b)) => *a == *b,
            (Self::ResOnly(a), Self::ResOnly(b)) => *a == *b,
            (Self::Entity(a), Self::Entity(b)) => *a == *b,
            (Self::Other(a), Self::Other(b)) => str_eq(a.as_str(), b.as_str()),
            _ => false,
        }
    }

    /// A copy of the name.
    pub fn duplicate(&self) -> (r: Self)
        ensures
            r@ == self@,
    {
        match self {
            Self::General(h) => Self::General(*h),
            Self::ResOnly(h) => Self::ResOnly(*h),
            Self::Entity(h) => Self::Entity(*h),
            Self::Other(name) => Self::Other(name.clone()),
        }
    }
}

/// What the map of headers asks of a header name: a view, a test for the same
/// name, the spelling on the wire and a copy.
pub trait HeaderName: View<V = HeaderNameView> + Sized {
    /// Whether two names are the same name.
    fn same_name(&self, other: &Self) -> (r: bool)
        ensures
            r == (self@ == other@),
    ;

    /// The name as it is written on the wire.
    fn wire_name(&self) -> (s: String)
        ensures
            s@ == self@.wire(),
    ;

    /// A copy of the name.
    fn copy_name(&self) -> (r: Self)
        ensures
            r@ == self@,
    ;
}

impl HeaderName for ReqHeader {
    fn same_name(&self, other: &Self) -> (r: bool) {
        self.same(other)
    }

    fn wire_name(&self) -> (s: String) {
        self.to_string()
    }

    fn copy_name(&self) -> (r: Self) {
        self.duplicate()
    }
}

impl HeaderName for ResHeader {
    fn same_name(&self, other: &Self) -> (r: bool) {
        self.same(other)
    }

    fn wire_name(&self) -> (s: String) {
        self.to_string()
    }

    fn copy_name(&self) -> (r: Self) {
        self.duplicate()
    }
}

/// Headers in order, as characters.
pub type HeadersView = Seq<(HeaderNameView, HeaderValueView)>;

/// The predicate "has the name `name`".
pub open spec fn is_named(name: HeaderNameView) -> spec_fn((HeaderNameView, HeaderValueView)) -> bool {
    |e: (HeaderNameView, HeaderValueView)| e.0 == name
}

/// Whether no name occurs twice.
pub open spec fn headers_distinct(s: HeadersView) -> bool {
    forall|i: int, j: int| 0 <= i < j < s.len() ==> (#[trigger] s[i]).0 != (#[trigger] s[j]).0
}

/// Whether a header of that name is there.
pub open spec fn headers_has(s: HeadersView, name: HeaderNameView) -> bool {
    position(s, is_named(name)) < s.len()
}

/// The value of the header of that name.
pub open spec fn headers_get(s: HeadersView, name: HeaderNameView) -> Option<HeaderValueView> {
    let i = position(s, is_named(name));
    if 0 <= i < s.len() {
        Some(s[i].1)
    } else {
        None
    }
}

/// The headers with `name` set to `value`: the value of a header of that name
/// is replaced where it stands, and a new header is put last.
pub open spec fn headers_with(
    s: HeadersView,
    name: HeaderNameView,
    value: HeaderValueView,
) -> HeadersView {
    let i = position(s, is_named(name));
    if 0 <= i < s.len() {
        s.update(i, (name, value))
    } else {
        s.push((name, value))
    }
}

/// One header on the wire: the name, a colon and a space, the value, and the
/// end of the line.
pub open spec fn header_line(name: HeaderNameView, value: HeaderValueView) -> Seq<char> {
    name.wire() + seq![':', ' '] + value.wire() + seq!['\r', '\n']
}

/// The headers on the wire, one line each, in order.
pub open spec fn headers_wire(s: HeadersView) -> Seq<char>
    decreases s.len(),
{
    if s.len() == 0 {
        Seq::<char>::empty()
    } else {
        headers_wire(s.drop_last()) + header_line(s.last().0, s.last().1)
    }
}

/// Setting a header keeps the names distinct.
pub proof fn lemma_headers_with_distinct(
    s: HeadersView,
    name: HeaderNameView,
    value: HeaderValueView,
)
    requires
        headers_distinct(s),
    ensures
        headers_distinct(headers_with(s, name, value)),
{
    let i = position(s, is_named(name));
    let r = headers_with(s, name, value);
    lemma_position(s, is_named(name));
    if 0 <= i < s.len() {
        assert forall|a: int, b: int| 0 <= a < b < r.len() implies (#[trigger] r[a]).0 != (
        #[trigger] r[b]).0 by {
            assert(r[a].0 == s[a].0 && r[b].0 == s[b].0);
        }
    } else {
        assert forall|a: int, b: int| 0 <= a < b < r.len() implies (#[trigger] r[a]).0 != (
        #[trigger] r[b]).0 by {
            if b < s.len() {
                assert(r[a] == s[a] && r[b] == s[b]);
            } else {
                assert(r[a] == s[a]);
                assert(!is_named(name)(s[a]));
            }
        }
    }
}

/// After a header is set, its name has the value that was set, every other
/// name has the value that it had, and no header is lost.
pub proof fn lemma_headers_with(s: HeadersView, name: HeaderNameView, value: HeaderValueView)
    ensures
        headers_get(headers_with(s, name, value), name) == Some(value),
        headers_has(headers_with(s, name, value), name),
        forall|other: HeaderNameView|
            other != name ==> #[trigger] headers_get(headers_with(s, name, value), other)
                == headers_get(s, other),
        forall|other: HeaderNameView|
            other != name ==> #[trigger] headers_has(headers_with(s, name, value), other)
                == headers_has(s, other),
{
    let i = position(s, is_named(name));
    let r = headers_with(s, name, value);
    lemma_position(s, is_named(name));
    assert forall|k: int| 0 <= k < i implies !is_named(name)(#[trigger] r[k]) by {
        assert(r[k] == s[k]);
    }
    lemma_position_is(r, is_named(name), i);
    assert forall|other: HeaderNameView| other != name implies (#[trigger] headers_get(
        r,
        other,
    ) == headers_get(s, other)) && (headers_has(r, other) == headers_has(s, other)) by {
        let j = position(s, is_named(other));
        lemma_position(s, is_named(other));
        assert forall|k: int| 0 <= k < j implies !is_named(other)(#[trigger] r[k]) by {
            if k < s.len() {
                assert(r[k].0 == s[k].0);
            }
        }
        if j < s.len() {
            assert(r[j].0 == s[j].0);
            assert(r[j].1 == s[j].1);
            lemma_position_is(r, is_named(other), j);
        } else {
            if r.len() > s.len() {
                assert(r[j] == (name, value));
                assert forall|k: int| 0 <= k < r.len() implies !is_named(other)(
                    #[trigger] r[k],
                ) by {
                    if k < s.len() {
                        assert(r[k].0 == s[k].0);
                    }
                }
                lemma_position_is(r, is_named(other), r.len() as int);
            } else {
                lemma_position_is(r, is_named(other), j);
            }
        }
    }
    assert forall|other: HeaderNameView| other != name implies #[trigger] headers_has(r, other)
        == headers_has(s, other) by {
        assert(headers_get(r, other) == headers_get(s, other));
        lemma_position(s, is_named(other));
        lemma_position(r, is_named(other));
    }
}

/// Whether two sequences of headers hold the same headers, whatever their
/// order: they are equally many, and each header of the one is in the other
/// with the same value.
pub open spec fn headers_same(a: HeadersView, b: HeadersView) -> bool {
    a.len() == b.len() && forall|i: int|
        0 <= i < a.len() ==> headers_get(b, (#[trigger] a[i]).0) == Some(a[i].1)
}

/// The names of headers, in order.
pub open spec fn header_names(s: HeadersView) -> Seq<HeaderNameView> {
    Seq::new(s.len(), |i: int| s[i].0)
}

/// Where no name occurs twice, a name has the value of the header that
/// carries it, and there are as many names as headers.
proof fn lemma_headers_names(s: HeadersView)
    requires
        headers_distinct(s),
    ensures
        header_names(s).no_duplicates(),
        header_names(s).to_set().finite(),
        header_names(s).to_set().len() == s.len(),
        forall|i: int| 0 <= i < s.len() ==> headers_get(s, (#[trigger] s[i]).0) == Some(s[i].1),
        forall|name: HeaderNameView|
            header_names(s).to_set().contains(name) <==> #[trigger] headers_get(s, name) is Some,
{
    let names = header_names(s);
    assert forall|i: int, j: int| 0 <= i < names.len() && 0 <= j < names.len() && i != j implies
        names[i] != names[j] by {
        if i < j {
            assert(s[i].0 != s[j].0);
        } else {
            assert(s[j].0 != s[i].0);
        }
    }
    names.unique_seq_to_set();
    vstd::seq_lib::seq_to_set_is_finite(names);
    assert forall|i: int| 0 <= i < s.len() implies headers_get(s, (#[trigger] s[i]).0) == Some(
        s[i].1,
    ) by {
        let at = position(s, is_named(s[i].0));
        lemma_position(s, is_named(s[i].0));
        if at < i {
            assert(s[at].0 != s[i].0);
        } else if at > i {
            assert(!is_named(s[i].0)(s[i]));
        }
    }
    assert forall|name: HeaderNameView|
        names.to_set().contains(name) <==> #[trigger] headers_get(s, name) is Some by {
        let at = position(s, is_named(name));
        lemma_position(s, is_named(name));
        if names.to_set().contains(name) {
            let i = choose|i: int| 0 <= i < names.len() && names[i] == name;
            assert(s[i].0 == name);
            if at >= s.len() {
                assert(!is_named(name)(s[i]));
            }
        }
        if headers_get(s, name) is Some {
            assert(names[at] == name);
            assert(names.contains(name));
        }
    }
}

/// Headers in which no name occurs twice are the same headers, whatever
/// their order, exactly where every name has the same value in both.
pub proof fn lemma_headers_same(a: HeadersView, b: HeadersView)
    requires
        headers_distinct(a),
        headers_distinct(b),
    ensures
        headers_same(a, b) <==> forall|name: HeaderNameView| #[trigger]
            headers_get(a, name) == headers_get(b, name),
{
    lemma_headers_names(a);
    lemma_headers_names(b);
    let left = header_names(a).to_set();
    let right = header_names(b).to_set();
    if headers_same(a, b) {
        assert forall|name: HeaderNameView| left.contains(name) implies right.contains(name) by {
            let i = choose|i: int| 0 <= i < header_names(a).len() && header_names(a)[i] == name;
            assert(headers_get(b, a[i].0) == Some(a[i].1));
        }
        vstd::set_lib::lemma_subset_equality(left, right);
        assert forall|name: HeaderNameView| #[trigger]
            headers_get(a, name) == headers_get(b, name) by {
            let at = position(a, is_named(name));
            lemma_position(a, is_named(name));
            if at < a.len() {
                assert(headers_get(b, a[at].0) == Some(a[at].1));
            } else {
                assert(!left.contains(name));
                assert(!right.contains(name));
            }
        }
    }
    if forall|name: HeaderNameView| #[trigger] headers_get(a, name) == headers_get(b, name) {
        assert forall|name: HeaderNameView| left.contains(name) <==> right.contains(name) by {
            assert(headers_get(a, name) == headers_get(b, name));
        }
        assert(left =~= right);
        assert forall|i: int| 0 <= i < a.len() implies headers_get(b, (#[trigger] a[i]).0)
            == Some(a[i].1) by {
            assert(headers_get(a, a[i].0) == headers_get(b, a[i].0));
        }
    }
}

/// The headers of a message: each name once, in the order in which the names
/// were first set. Two of them are equal where they hold the same headers,
/// whatever their order.
#[derive(Debug)]
pub struct HeaderMap<K: HeaderName> {
    entries: Vec<(K, HeaderValue)>,
}

impl<K: HeaderName> View for HeaderMap<K> {
    type V = HeadersView;

    closed spec fn view(&self) -> HeadersView {
        Seq::new(self.entries@.len(), |i: int| (self.entries@[i].0@, self.entries@[i].1@))
    }
}

impl<K: HeaderName> PartialEq for HeaderMap<K> {
    fn eq(&self, other: &Self) -> (r: bool) {
        if self.entries.len() != other.entries.len() {
            return false;
        }
        let mut i: usize = 0;
        while i < self.entries.len()
            invariant
                i <= self.entries@.len(),
                self.entries@.len() == other.entries@.len(),
                forall|k: int|
                    0 <= k < i ==> headers_get(other@, (#[trigger] self@[k]).0) == Some(
                        self@[k].1,
                    ),
            decreases self.entries@.len() - i,
        {
            let found = match other.get(&self.entries[i].0) {
                Some(value) => value.same(&self.entries[i].1),
                None => false,
            };
            if !found {
                proof {
                    assert(headers_get(other@, self@[i as int].0) != Some(self@[i as int].1));
                }
                return false;
            }
            i += 1;
        }
        true
    }
}

impl<K: HeaderName> PartialEqSpecImpl for HeaderMap<K> {
    open spec fn obeys_eq_spec() -> bool {
        true
    }

    open spec fn eq_spec(&self, other: &Self) -> bool {
        headers_same(self@, other@)
    }
}

impl<K: HeaderName> HeaderMap<K> {
    /// No name occurs twice.
    #[verifier::type_invariant]
    closed spec fn distinct(&self) -> bool {
        headers_distinct(self@)
    }

    /// No headers.
    pub fn new() -> (r: Self)
        ensures
            r@ == HeadersView::empty(),
    {
        let r = HeaderMap { entries: Vec::new() };
        proof {
            assert(r@ =~= HeadersView::empty());
        }
        r
    }

    /// The number of headers. No name occurs twice among them.
    pub fn len(&self) -> (n: usize)
        ensures
            n == self@.len(),
            headers_distinct(self@),
    {
        proof {
            use_type_invariant(self);
        }
        self.entries.len()
    }

    /// The index of the header of that name, or the number of headers.
    fn index_of(&self, name: &K) -> (i: usize)
        ensures
            i == position(self@, is_named(name@)),
            i <= self@.len(),
            i <= self.entries@.len(),
    {
        let mut i: usize = 0;
        while i < self.entries.len() && !self.entries[i].0.same_name(name)
            invariant
                i <= self.entries@.len(),
                forall|k: int| 0 <= k < i ==> (#[trigger] self@[k]).0 != name@,
            decreases self.entries@.len() - i,
        {
            i += 1;
        }
        proof {
            assert forall|k: int| 0 <= k < i implies !is_named(name@)(#[trigger] self@[k]) by {}
            lemma_position_is(self@, is_named(name@), i as int);
        }
        i
    }

    /// Whether a header of that name is there.
    pub fn contains_key(&self, name: &K) -> (r: bool)
        ensures
            r == headers_has(self@, name@),
    {
        self.index_of(name) < self.entries.len()
    }

    /// The value of the header of that name.
    pub fn get(&self, name: &K) -> (r: Option<&HeaderValue>)
        ensures
            match r {
                Some(v) => headers_get(self@, name@) == Some(v@),
                None => headers_get(self@, name@) is None,
            },
    {
        let i = self.index_of(name);
        if i < self.entries.len() {
            Some(&self.entries[i].1)
        } else {
            None
        }
    }

    /// The name and the value of the header at `i`.
    pub fn entry(&self, i: usize) -> (r: (&K, &HeaderValue))
        requires
            i < self@.len(),
        ensures
            (r.0@, r.1@) == self@[i as int],
    {
        (&self.entries[i].0, &self.entries[i].1)
    }

    /// Sets the header `name` to `value`.
    pub fn insert(&mut self, name: K, value: HeaderValue)
        ensures
            final(self)@ == headers_with(old(self)@, name@, value@),
    {
        let ghost s = self@;
        proof {
            use_type_invariant(&*self);
            lemma_headers_with_distinct(s, name@, value@);
        }
        let i = self.index_of(&name);
        let mut entries: Vec<(K, HeaderValue)> = Vec::new();
        core::mem::swap(&mut self.entries, &mut entries);
        if i < entries.len() {
            entries.set(i, (name, value));
        } else {
            entries.push((name, value));
        }
        proof {
            assert(Seq::new(entries@.len(), |k: int| (entries@[k].0@, entries@[k].1@))
                =~= headers_with(s, name@, value@));
        }
        self.entries = entries;
    }

    /// The headers that result from setting each of `entries` in turn.
    pub fn from_entries(entries: Vec<(K, HeaderValue)>) -> (r: Self)
        ensures
            r@ == headers_from(Seq::new(entries@.len(), |i: int| (entries@[i].0@, entries@[i].1@))),
    {
        let mut r = Self::new();
        let ghost all = Seq::new(entries@.len(), |i: int| (entries@[i].0@, entries@[i].1@));
        let mut i: usize = 0;
        while i < entries.len()
            invariant
                i <= entries@.len(),
                all == Seq::new(entries@.len(), |i: int| (entries@[i].0@, entries@[i].1@)),
                r@ == headers_from(all.take(i as int)),
            decreases entries@.len() - i,
        {
            let name = entries[i].0.copy_name();
            let value = entries[i].1.duplicate();
            r.insert(name, value);
            proof {
                let t = all.take(i + 1);
                assert(t.drop_last() == all.take(i as int));
                assert(t.last() == all[i as int]);
            }
            i += 1;
        }
        proof {
            assert(all.take(i as int) == all);
        }
        r
    }

    /// The headers on the wire, one line each, in order.
    pub fn to_string(&self) -> (s: String)
        ensures
            s@ == headers_wire(self@),
    {
        let mut s = String::new();
        let mut i: usize = 0;
        while i < self.entries.len()
            invariant
                i <= self.entries@.len(),
                s@ == headers_wire(self@.take(i as int)),
            decreases self.entries@.len() - i,
        {
            let name = self.entries[i].0.wire_name();
            let value = self.entries[i].1.to_string();
            s.append(name.as_str());
            s.push(':');
            s.push(' ');
            s.append(value.as_str());
            s.push('\r');
            s.push('\n');
            proof {
                let t = self@.take(i + 1);
                assert(t.drop_last() == self@.take(i as int));
                assert(t.last() == self@[i as int]);
                assert(s@ =~= headers_wire(t));
            }
            i += 1;
        }
        proof {
            assert(self@.take(i as int) == self@);
        }
        s
    }
}

/// The headers that result from setting each of `entries` in turn, starting
/// from none.
pub open spec fn headers_from(entries: HeadersView) -> HeadersView
    decreases entries.len(),
{
    if entries.len() == 0 {
        HeadersView::empty()
    } else {
        headers_with(headers_from(entries.drop_last()), entries.last().0, entries.last().1)
    }
}

} // verus!
