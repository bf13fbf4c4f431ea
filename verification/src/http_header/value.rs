//! Header values.
//!
//! A value is one atom (a number, a text or a media type), or a list of atoms
//! that each carry members written `name=value`, or a pair of credentials.

use crate::text::lemma_lex_irreflexive;
use crate::text::lemma_lex_total;
use crate::text::lemma_lex_transitive;
use crate::text::lex_lt;
use crate::paths::extension;
use crate::paths::extension_of;
use crate::text::bytes_lt;
use crate::text::decimal;
use crate::text::str_eq;
use crate::req_parser::utils::base64_encode;
use crate::req_parser::utils::base64_encoded;
use vstd::prelude::*;
use vstd::string::StrSliceExecFns;
use vstd::string::StringSliceAdditionalSpecFns;
use vstd::string::StringExecFns;
use vstd::utf8::encode_utf8;
use vstd::utf8::encode_utf8_decode_utf8;

verus! {

/// A media type as characters.
pub struct MimeView {
    pub kind: Seq<char>,
    pub subtype: Seq<char>,
    pub suffix: Option<Seq<char>>,
    pub params: Seq<(Seq<char>, Seq<char>)>,
}

/// Parameters as they are written behind a media type: before each a
/// semicolon and a space, then the name, `=` and the value.
pub open spec fn params_wire(params: Seq<(Seq<char>, Seq<char>)>) -> Seq<char>
    decreases params.len(),
{
    if params.len() == 0 {
        Seq::<char>::empty()
    } else {
        params_wire(params.drop_last()) + seq![';', ' '] + params.last().0 + seq!['=']
            + params.last().1
    }
}

/// The parameters of a vector of parameters, as characters.
pub open spec fn params_view(v: Seq<(String, String)>) -> Seq<(Seq<char>, Seq<char>)> {
    Seq::new(v.len(), |i: int| (v[i].0@, v[i].1@))
}

impl MimeView {
    /// The media type without parameters: `type/subtype`, then `+suffix` where
    /// there is one.
    pub open spec fn essence(self) -> Seq<char> {
        self.kind + seq!['/'] + self.subtype + match self.suffix {
            Some(s) => seq!['+'] + s,
            None => Seq::<char>::empty(),
        }
    }

    /// The media type as it is written on the wire: the media type without
    /// parameters, then the parameters.
    pub open spec fn wire(self) -> Seq<char> {
        self.essence() + params_wire(self.params)
    }
}

/// A media type: its top-level type, its subtype and the suffix of the
/// subtype, each in lower case, and its parameters, each a name and a value.
/// `*` stands for any type or any subtype.
#[derive(Debug, Clone, PartialEq, Eq, Hash)]
pub struct Mime {
    pub kind: String,
    pub subtype: String,
    pub suffix: Option<String>,
    pub params: Vec<(String, String)>,
}

impl View for Mime {
    type V = MimeView;

    open spec fn view(&self) -> MimeView {
        MimeView {
            kind: self.kind@,
            subtype: self.subtype@,
            suffix: match self.suffix {
                Some(s) => Some(s@),
                None => None,
            },
            params: params_view(self.params@),
        }
    }
}

/// What `mime::Mime::from_str`, reached through `str::parse`, makes of a
/// text: the type, the subtype, the suffix and the parameters of the media
/// type it reads, or nothing where it reads none.
pub uninterp spec fn mime_parsed(text: Seq<char>) -> Option<MimeView>;

/// What `mime_guess::MimeGuess::from_ext` followed by
/// `first_or_octet_stream` gives for an extension: the first media type that
/// the crate's table lists for it, or `application/octet-stream`.
pub uninterp spec fn mime_of_extension(extension: Seq<char>) -> MimeView;

/// The media type that a path stands for: that of the extension of its file.
pub open spec fn mime_guessed(path: Seq<char>) -> MimeView {
    mime_of_extension(extension(path))
}

/// Calls `mime::Mime::from_str` through `str::parse` and copies the type, the
/// subtype, the suffix and the parameters out of the result. The contract only
/// names the outcome.
#[verifier::external_body]
fn mime_from_str(text: &str) -> (r: Option<Mime>)
    ensures
        match r {
            Some(m) => mime_parsed(text@) == Some(m@),
            None => mime_parsed(text@) is None,
        },
{
    match text.parse::<mime_guess::Mime>() {
        Ok(m) => Some(
            Mime {
                kind: m.type_().as_str().to_string(),
                subtype: m.subtype().as_str().to_string(),
                suffix: match m.suffix() {
                    Some(s) => Some(s.as_str().to_string()),
                    None => None,
                },
                params: m.params().map(|p| (p.0.as_str().to_string(), p.1.as_str().to_string()))
                    .collect(),
            },
        ),
        Err(_) => None,
    }
}

/// Calls `mime_guess::MimeGuess::from_ext` and `first_or_octet_stream`, and
/// copies the type, the subtype, the suffix and the parameters out of the
/// result. The contract only names the outcome.
#[verifier::external_body]
fn mime_from_ext(extension: &str) -> (m: Mime)
    ensures
        m@ == mime_of_extension(extension@),
{
    let m = mime_guess::MimeGuess::from_ext(extension).first_or_octet_stream();
    Mime {
        kind: m.type_().as_str().to_string(),
        subtype: m.subtype().as_str().to_string(),
        suffix: match m.suffix() {
            Some(s) => Some(s.as_str().to_string()),
            None => None,
        },
        params: m.params().map(|p| (p.0.as_str().to_string(), p.1.as_str().to_string())).collect(),
    }
}

impl Mime {
    /// The media type `kind/subtype`, without suffix and without parameters.
    pub fn new(kind: &str, subtype: &str) -> (m: Mime)
        ensures
            m@ == (MimeView {
                kind: kind@,
                subtype: subtype@,
                suffix: None,
                params: Seq::<(Seq<char>, Seq<char>)>::empty(),
            }),
    {
        let m = Mime {
            kind: String::from_str(kind),
            subtype: String::from_str(subtype),
            suffix: None,
            params: Vec::new(),
        };
        proof {
            assert(m@.params =~= Seq::<(Seq<char>, Seq<char>)>::empty());
        }
        m
    }

    /// The media type with one more parameter behind those it has.
    pub fn with_param(self, name: &str, value: &str) -> (m: Mime)
        ensures
            m@ == (MimeView { params: self@.params.push((name@, value@)), ..self@ }),
    {
        let mut m = self;
        let ghost before = m@.params;
        m.params.push((String::from_str(name), String::from_str(value)));
        proof {
            assert(m@.params =~= before.push((name@, value@)));
        }
        m
    }

    /// The media type as it is written on the wire.
    pub fn to_string(&self) -> (s: String)
        ensures
            s@ == self@.wire(),
    {
        let mut s = self.essence_str();
        let ghost essence = s@;
        let ghost params = self@.params;
        let mut i: usize = 0;
        proof {
            assert(params.take(0) =~= Seq::<(Seq<char>, Seq<char>)>::empty());
            assert(essence + params_wire(params.take(0)) =~= essence);
        }
        while i < self.params.len()
            invariant
                i <= self.params@.len(),
                params == self@.params,
                params.len() == self.params@.len(),
                s@ == essence + params_wire(params.take(i as int)),
            decreases self.params@.len() - i,
        {
            s.push(';');
            s.push(' ');
            s.append(self.params[i].0.as_str());
            s.push('=');
            s.append(self.params[i].1.as_str());
            proof {
                let t = params.take(i + 1);
                assert(t.drop_last() =~= params.take(i as int));
                assert(t.last() == (self.params@[i as int].0@, self.params@[i as int].1@));
                assert(s@ =~= essence + params_wire(t));
            }
            i += 1;
        }
        proof {
            assert(params.take(i as int) =~= params);
        }
        s
    }

    /// Reads a media type from a text.
    pub fn parse(text: &str) -> (r: Option<Mime>)
        ensures
            match r {
                Some(m) => mime_parsed(text@) == Some(m@),
                None => mime_parsed(text@) is None,
            },
    {
        mime_from_str(text)
    }

    /// The media type that the extension of `path` stands for.
    pub fn guess(path: &str) -> (m: Mime)
        ensures
            m@ == mime_guessed(path@),
    {
        let extension = extension_of(path);
        mime_from_ext(extension.as_str())
    }

    /// The media type without parameters.
    pub fn essence_str(&self) -> (s: String)
        ensures
            s@ == self@.essence(),
    {
        let mut s = self.kind.clone();
        s.push('/');
        s.append(self.subtype.as_str());
        match &self.suffix {
            Some(x) => {
                s.push('+');
                s.append(x.as_str());
                proof {
                    assert(s@ =~= self@.essence());
                }
            },
            None => {
                proof {
                    assert(s@ =~= self@.essence());
                }
            },
        }
        s
    }

    /// Whether two media types are the same in every part.
    pub fn same(&self, other: &Self) -> (r: bool)
        ensures
            r == (self@ == other@),
    {
        if !str_eq(self.kind.as_str(), other.kind.as_str()) || !str_eq(
            self.subtype.as_str(),
            other.subtype.as_str(),
        ) {
            return false;
        }
        let suffix = match (&self.suffix, &other.suffix) {
            (Some(a), Some(b)) => str_eq(a.as_str(), b.as_str()),
            (None, None) => true,
            _ => false,
        };
        if !suffix || self.params.len() != other.params.len() {
            proof {
                if suffix {
                    assert(self@.params.len() != other@.params.len());
                }
            }
            return false;
        }
        let mut i: usize = 0;
        while i < self.params.len()
            invariant
                i <= self.params@.len(),
                self.params@.len() == other.params@.len(),
                forall|k: int| 0 <= k < i ==> self@.params[k] == other@.params[k],
            decreases self.params@.len() - i,
        {
            if !str_eq(self.params[i].0.as_str(), other.params[i].0.as_str()) || !str_eq(
                self.params[i].1.as_str(),
                other.params[i].1.as_str(),
            ) {
                proof {
                    assert(self@.params[i as int] != other@.params[i as int]);
                }
                return false;
            }
            i += 1;
        }
        proof {
            assert(self@.params =~= other@.params);
        }
        true
    }

    /// A copy of the media type.
    pub fn duplicate(&self) -> (m: Mime)
        ensures
            m@ == self@,
    {
        let mut params: Vec<(String, String)> = Vec::new();
        let mut i: usize = 0;
        while i < self.params.len()
            invariant
                i <= self.params@.len(),
                params@.len() == i,
                forall|k: int|
                    0 <= k < i ==> (#[trigger] params@[k]).0@ == self.params@[k].0@ && params@[k].1@
                        == self.params@[k].1@,
            decreases self.params@.len() - i,
        {
            params.push((self.params[i].0.clone(), self.params[i].1.clone()));
            i += 1;
        }
        let m = Mime {
            kind: self.kind.clone(),
            subtype: self.subtype.clone(),
            suffix: match &self.suffix {
                Some(s) => Some(s.clone()),
                None => None,
            },
            params,
        };
        proof {
            assert(m@.params =~= self@.params);
        }
        m
    }
}

/// The name of a member, as characters.
pub enum MemberNameView {
    Quality,
    Other(Seq<char>),
}

impl MemberNameView {
    /// The name as it is written on the wire.
    pub open spec fn wire(self) -> Seq<char> {
        match self {
            Self::Quality => seq!['q'],
            Self::Other(name) => name,
        }
    }

    /// The order of member names: the quality comes before every other name,
    /// and other names are ordered as their UTF-8 bytes are in a dictionary.
    pub open spec fn lt(self, other: Self) -> bool {
        match (self, other) {
            (Self::Quality, Self::Quality) => false,
            (Self::Quality, Self::Other(_)) => true,
            (Self::Other(_), Self::Quality) => false,
            (Self::Other(a), Self::Other(b)) => lex_lt(encode_utf8(a), encode_utf8(b)),
        }
    }
}

/// The name of a member of a header value.
#[derive(Debug, Clone, PartialEq, Eq, Hash, PartialOrd, Ord)]
pub enum HeaderValueMemberName {
    /// The quality, written `q`.
    Quality,
    /// Any other name.
    Other(String),
}

impl View for HeaderValueMemberName {
    type V = MemberNameView;

    open spec fn view(&self) -> MemberNameView {
        match self {
            Self::Quality => MemberNameView::Quality,
            Self::Other(name) => MemberNameView::Other(name@),
        }
    }
}

impl HeaderValueMemberName {
    /// A name other than the quality.
    pub fn new_other(name: &str) -> (r: Self)
        ensures
            r@ == MemberNameView::Other(name@),
    {
        Self::Other(String::from_str(name))
    }

    /// The name as it is written on the wire.
    pub fn to_string(&self) -> (s: String)
        ensures
            s@ == self@.wire(),
    {
        match self {
            Self::Quality => {
                let mut s = String::new();
                s.push('q');
                proof {
                    assert(s@ =~= seq!['q']);
                }
                s
            },
            Self::Other(name) => name.clone(),
        }
    }

    /// Whether two names are the same name.
    pub fn same(&self, other: &Self) -> (r: bool)
        ensures
            r == (self@ == other@),
    {
        match (self, other) {
            (Self::Quality, Self::Quality) => true,
            (Self::Other(a), Self::Other(b)) => str_eq(a.as_str(), b.as_str()),
            _ => false,
        }
    }

    /// A copy of the name.
    pub fn duplicate(&self) -> (r: Self)
        ensures
            r@ == self@,
    {
        match self {
            Self::Quality => Self::Quality,
            Self::Other(name) => Self::Other(name.clone()),
        }
    }

    /// Whether this name comes before the other.
    pub fn before(&self, other: &Self) -> (r: bool)
        ensures
            r == self@.lt(other@),
    {
        match (self, other) {
            (Self::Quality, Self::Quality) => false,
            (Self::Quality, Self::Other(_)) => true,
            (Self::Other(_), Self::Quality) => false,
            (Self::Other(a), Self::Other(b)) => bytes_lt(
                a.as_str().as_bytes(),
                b.as_str().as_bytes(),
            ),
        }
    }
}

/// Whether a bit pattern of the IEEE 754 single format stands for a finite
/// number: its exponent field is not all ones.
pub open spec fn is_finite_bits(bits: u32) -> bool {
    bits & 0x7f80_0000 != 0x7f80_0000
}

/// Tells whether a bit pattern stands for a finite number.
pub fn finite_bits(bits: u32) -> (r: bool)
    ensures
        r == is_finite_bits(bits),
{
    bits & 0x7f80_0000 != 0x7f80_0000
}

/// The value of a member, as characters.
pub enum MemberValueView {
    Float(Seq<char>, u32),
    Other(Seq<char>),
}

impl MemberValueView {
    /// The value as it is written on the wire. A number is written as it was
    /// spelled.
    pub open spec fn wire(self) -> Seq<char> {
        match self {
            Self::Float(text, _) => text,
            Self::Other(text) => text,
        }
    }
}

/// The value of a member of a header value.
#[derive(Debug, Clone, PartialEq, Eq, Hash)]
pub enum HeaderValueMemberValue {
    /// A finite number: its spelling, and the bit pattern of the IEEE 754
    /// single-format number that the spelling was read as.
    Float(String, u32),
    /// Any other value.
    Other(String),
}

impl View for HeaderValueMemberValue {
    type V = MemberValueView;

    open spec fn view(&self) -> MemberValueView {
        match self {
            Self::Float(text, bits) => MemberValueView::Float(text@, *bits),
            Self::Other(text) => MemberValueView::Other(text@),
        }
    }
}

impl HeaderValueMemberValue {
    /// Whether a number in it is finite.
    pub open spec fn wf(self) -> bool {
        match self {
            Self::Float(_, bits) => is_finite_bits(bits),
            Self::Other(_) => true,
        }
    }

    /// A number, from its spelling and the bit pattern it was read as.
    pub fn new_float(text: &str, bits: u32) -> (r: Self)
        requires
            is_finite_bits(bits),
        ensures
            r@ == MemberValueView::Float(text@, bits),
            r.wf(),
    {
        Self::Float(String::from_str(text), bits)
    }

    /// A value that is no number.
    pub fn new_other(name: &str) -> (r: Self)
        ensures
            r@ == MemberValueView::Other(name@),
            r.wf(),
    {
        Self::Other(String::from_str(name))
    }

    /// The value as it is written on the wire.
    pub fn to_string(&self) -> (s: String)
        ensures
            s@ == self@.wire(),
    {
        match self {
            Self::Float(text, _) => text.clone(),
            Self::Other(text) => text.clone(),
        }
    }

    /// Whether two values are the same.
    pub fn same(&self, other: &Self) -> (r: bool)
        ensures
            r == (self@ == other@),
    {
        match (self, other) {
            (Self::Float(a, x), Self::Float(b, y)) => *x == *y && str_eq(a.as_str(), b.as_str()),
            (Self::Other(a), Self::Other(b)) => str_eq(a.as_str(), b.as_str()),
            _ => false,
        }
    }

    /// A copy of the value.
    pub fn duplicate(&self) -> (r: Self)
        ensures
            r@ == self@,
            r.wf() == self.wf(),
    {
        match self {
            Self::Float(text, bits) => Self::Float(text.clone(), *bits),
            Self::Other(text) => Self::Other(text.clone()),
        }
    }
}

/// The members of one atom: pairs of a name and a value, as characters.
pub type MembersView = Seq<(MemberNameView, MemberValueView)>;

/// Whether the names stand in strictly ascending order, so that none occurs
/// twice.
pub open spec fn members_sorted(s: MembersView) -> bool {
    forall|i: int, j: int| 0 <= i < j < s.len() ==> (#[trigger] s[i]).0.lt((#[trigger] s[j]).0)
}

/// The number of leading members whose name comes before `name`.
pub open spec fn members_rank(s: MembersView, name: MemberNameView) -> int
    decreases s.len(),
{
    if s.len() == 0 || !s[0].0.lt(name) {
        0
    } else {
        1 + members_rank(s.drop_first(), name)
    }
}

/// The members with `name` set to `value`: the value of a member of that name
/// is replaced, and a new member is put where the order of names has it.
pub open spec fn members_with(
    s: MembersView,
    name: MemberNameView,
    value: MemberValueView,
) -> MembersView {
    let i = members_rank(s, name);
    if 0 <= i < s.len() && s[i].0 == name {
        s.update(i, (name, value))
    } else {
        s.insert(i, (name, value))
    }
}

/// The members, in order, as `name=value` with a semicolon between them.
pub open spec fn members_wire(s: MembersView) -> Seq<char>
    decreases s.len(),
{
    if s.len() == 0 {
        Seq::<char>::empty()
    } else if s.len() == 1 {
        s[0].0.wire() + seq!['='] + s[0].1.wire()
    } else {
        members_wire(s.drop_last()) + seq![';'] + s.last().0.wire() + seq!['='] + s.last().1.wire()
    }
}

/// The order of member names is a strict total order.
pub proof fn lemma_name_order(a: MemberNameView, b: MemberNameView, c: MemberNameView)
    ensures
        !a.lt(a),
        a.lt(b) && b.lt(c) ==> a.lt(c),
        !a.lt(b) && !b.lt(a) ==> a == b,
{
    match (a, b, c) {
        (MemberNameView::Other(x), MemberNameView::Other(y), MemberNameView::Other(z)) => {
            lemma_lex_irreflexive(encode_utf8(x));
            if a.lt(b) && b.lt(c) {
                lemma_lex_transitive(encode_utf8(x), encode_utf8(y), encode_utf8(z));
            }
            if !a.lt(b) && !b.lt(a) {
                lemma_lex_total(encode_utf8(x), encode_utf8(y));
                encode_utf8_decode_utf8(x);
                encode_utf8_decode_utf8(y);
            }
        },
        (MemberNameView::Other(x), MemberNameView::Other(y), _) => {
            lemma_lex_irreflexive(encode_utf8(x));
            if !a.lt(b) && !b.lt(a) {
                lemma_lex_total(encode_utf8(x), encode_utf8(y));
                encode_utf8_decode_utf8(x);
                encode_utf8_decode_utf8(y);
            }
        },
        (MemberNameView::Other(x), _, _) => {
            lemma_lex_irreflexive(encode_utf8(x));
        },
        _ => {},
    }
}

/// The rank is an index into the members or their length; the names before it
/// come before `name`, and the name at it does not.
proof fn lemma_members_rank(s: MembersView, name: MemberNameView)
    ensures
        0 <= members_rank(s, name) <= s.len(),
        forall|i: int| 0 <= i < members_rank(s, name) ==> (#[trigger] s[i]).0.lt(name),
        members_rank(s, name) < s.len() ==> !s[members_rank(s, name)].0.lt(name),
    decreases s.len(),
{
    if s.len() == 0 || !s[0].0.lt(name) {
    } else {
        let t = s.drop_first();
        lemma_members_rank(t, name);
        assert forall|i: int| 0 <= i < members_rank(s, name) implies (#[trigger] s[i]).0.lt(
            name,
        ) by {
            if i > 0 {
                assert(s[i] == t[i - 1]);
            }
        }
        if members_rank(s, name) < s.len() {
            assert(s[members_rank(s, name)] == t[members_rank(t, name)]);
        }
    }
}

/// An index at which the names stop coming before `name` is the rank.
proof fn lemma_members_rank_is(s: MembersView, name: MemberNameView, r: int)
    requires
        0 <= r <= s.len(),
        forall|i: int| 0 <= i < r ==> (#[trigger] s[i]).0.lt(name),
        r < s.len() ==> !s[r].0.lt(name),
    ensures
        members_rank(s, name) == r,
    decreases s.len(),
{
    if s.len() == 0 || !s[0].0.lt(name) {
        if r > 0 {
            assert(s[0].0.lt(name));
        }
    } else {
        let t = s.drop_first();
        assert forall|i: int| 0 <= i < r - 1 implies (#[trigger] t[i]).0.lt(name) by {
            assert(t[i] == s[i + 1]);
        }
        lemma_members_rank_is(t, name, r - 1);
    }
}

/// Setting a member keeps the names in strictly ascending order.
pub proof fn lemma_members_with_sorted(
    s: MembersView,
    name: MemberNameView,
    value: MemberValueView,
)
    requires
        members_sorted(s),
    ensures
        members_sorted(members_with(s, name, value)),
{
    let i = members_rank(s, name);
    let r = members_with(s, name, value);
    lemma_members_rank(s, name);
    if 0 <= i < s.len() && s[i].0 == name {
        assert forall|a: int, b: int| 0 <= a < b < r.len() implies (#[trigger] r[a]).0.lt(
            (#[trigger] r[b]).0,
        ) by {
            assert(r[a].0 == s[a].0);
            assert(r[b].0 == s[b].0);
        }
    } else {
        assert forall|a: int, b: int| 0 <= a < b < r.len() implies (#[trigger] r[a]).0.lt(
            (#[trigger] r[b]).0,
        ) by {
            if b < i {
                assert(r[a] == s[a] && r[b] == s[b]);
            } else if b == i {
                assert(r[a] == s[a]);
            } else if a == i {
                assert(r[b] == s[b - 1]);
                lemma_name_order(s[i].0, name, name);
                lemma_name_order(name, s[i].0, s[b - 1].0);
                if b - 1 > i {
                    assert(s[i].0.lt(s[b - 1].0));
                }
            } else if a < i {
                assert(r[a] == s[a] && r[b] == s[b - 1]);
                if b - 1 == i {
                    lemma_name_order(s[i].0, name, name);
                    lemma_name_order(s[a].0, name, s[i].0);
                } else {
                    assert(s[a].0.lt(s[b - 1].0));
                }
            } else {
                assert(r[a] == s[a - 1] && r[b] == s[b - 1]);
            }
        }
    }
}

/// Setting a member to a value that is no number or a finite number keeps
/// every number finite.
pub proof fn lemma_members_with_finite(
    s: MembersView,
    name: MemberNameView,
    value: MemberValueView,
)
    requires
        members_finite(s),
        match value {
            MemberValueView::Float(_, bits) => is_finite_bits(bits),
            MemberValueView::Other(_) => true,
        },
    ensures
        members_finite(members_with(s, name, value)),
{
    let k = members_rank(s, name);
    let after = members_with(s, name, value);
    lemma_members_rank(s, name);
    assert forall|i: int| 0 <= i < after.len() implies match (#[trigger] after[i]).1 {
        MemberValueView::Float(_, bits) => is_finite_bits(bits),
        MemberValueView::Other(_) => true,
    } by {
        if 0 <= k < s.len() && s[k].0 == name {
            if i != k {
                assert(after[i] == s[i]);
            }
        } else {
            if i < k {
                assert(after[i] == s[i]);
            } else if i > k {
                assert(after[i] == s[i - 1]);
            }
        }
    }
}

/// A member whose name comes behind every name comes last.
pub proof fn lemma_members_with_last(s: MembersView, name: MemberNameView, value: MemberValueView)
    requires
        forall|i: int| 0 <= i < s.len() ==> (#[trigger] s[i]).0.lt(name),
    ensures
        members_with(s, name, value) == s.push((name, value)),
{
    lemma_members_rank_is(s, name, s.len() as int);
    assert(s.insert(s.len() as int, (name, value)) =~= s.push((name, value)));
}

/// After a member is set, every member is the one that was set or one that
/// was there before.
pub proof fn lemma_members_with_elements(
    s: MembersView,
    name: MemberNameView,
    value: MemberValueView,
)
    ensures
        forall|j: int|
            0 <= j < members_with(s, name, value).len() ==> (#[trigger] members_with(
                s,
                name,
                value,
            )[j]) == (name, value) || s.contains(members_with(s, name, value)[j]),
{
    let k = members_rank(s, name);
    let after = members_with(s, name, value);
    lemma_members_rank(s, name);
    assert forall|j: int| 0 <= j < after.len() implies (#[trigger] after[j]) == (name, value)
        || s.contains(after[j]) by {
        if 0 <= k < s.len() && s[k].0 == name {
            if j != k {
                assert(after[j] == s[j]);
            }
        } else {
            if j < k {
                assert(after[j] == s[j]);
            } else if j > k {
                assert(after[j] == s[j - 1]);
            }
        }
    }
}

/// The members of one atom, held in the order of their names, each name once.
#[derive(Debug, PartialEq, Eq, Hash)]
pub struct HeaderValueMembers {
    entries: Vec<(HeaderValueMemberName, HeaderValueMemberValue)>,
}

impl View for HeaderValueMembers {
    type V = MembersView;

    closed spec fn view(&self) -> MembersView {
        Seq::new(self.entries@.len(), |i: int| (self.entries@[i].0@, self.entries@[i].1@))
    }
}

impl Clone for HeaderValueMembers {
    fn clone(&self) -> (r: Self)
        ensures
            r@ == self@,
    {
        proof {
            use_type_invariant(self);
        }
        let mut entries: Vec<(HeaderValueMemberName, HeaderValueMemberValue)> = Vec::new();
        let mut i: usize = 0;
        while i < self.entries.len()
            invariant
                i <= self.entries@.len(),
                entries@.len() == i,
                forall|k: int|
                    0 <= k < i ==> (#[trigger] entries@[k]).0@ == self.entries@[k].0@
                        && entries@[k].1@ == self.entries@[k].1@,
            decreases self.entries@.len() - i,
        {
            entries.push((self.entries[i].0.duplicate(), self.entries[i].1.duplicate()));
            i += 1;
        }
        proof {
            assert(Seq::new(entries@.len(), |k: int| (entries@[k].0@, entries@[k].1@)) =~= self@);
        }
        HeaderValueMembers { entries }
    }
}

impl HeaderValueMembers {
    /// The names stand in strictly ascending order.
    #[verifier::type_invariant]
    closed spec fn sorted(&self) -> bool {
        members_sorted(self@)
    }

    /// No members.
    pub fn new() -> (r: Self)
        ensures
            r@ == MembersView::empty(),
    {
        let r = HeaderValueMembers { entries: Vec::new() };
        proof {
            assert(r@ =~= MembersView::empty());
        }
        r
    }

    /// The number of members. Their names stand in strictly ascending order.
    pub fn len(&self) -> (n: usize)
        ensures
            n == self@.len(),
            members_sorted(self@),
    {
        proof {
            use_type_invariant(self);
        }
        self.entries.len()
    }

    /// Whether there is no member.
    pub fn is_empty(&self) -> (r: bool)
        ensures
            r == (self@.len() == 0),
    {
        self.entries.len() == 0
    }

    /// Sets the member `name` to `value`.
    pub fn insert(&mut self, name: HeaderValueMemberName, value: HeaderValueMemberValue)
        ensures
            final(self)@ == members_with(old(self)@, name@, value@),
    {
        let ghost s = self@;
        proof {
            use_type_invariant(&*self);
        }
        let mut entries: Vec<(HeaderValueMemberName, HeaderValueMemberValue)> = Vec::new();
        core::mem::swap(&mut self.entries, &mut entries);
        let mut i: usize = 0;
        while i < entries.len() && entries[i].0.before(&name)
            invariant
                i <= entries@.len(),
                s == Seq::new(entries@.len(), |k: int| (entries@[k].0@, entries@[k].1@)),
                forall|k: int| 0 <= k < i ==> (#[trigger] s[k]).0.lt(name@),
            decreases entries@.len() - i,
        {
            i += 1;
        }
        proof {
            lemma_members_rank_is(s, name@, i as int);
            lemma_members_with_sorted(s, name@, value@);
        }
        if i < entries.len() && entries[i].0.same(&name) {
            entries.set(i, (name, value));
        } else {
            entries.insert(i, (name, value));
        }
        proof {
            assert(Seq::new(entries@.len(), |k: int| (entries@[k].0@, entries@[k].1@))
                =~= members_with(s, name@, value@));
        }
        self.entries = entries;
    }

    /// Whether the same members are held.
    pub fn same(&self, other: &Self) -> (r: bool)
        ensures
            r == (self@ == other@),
    {
        if self.entries.len() != other.entries.len() {
            proof {
                assert(self@.len() != other@.len());
            }
            return false;
        }
        let mut i: usize = 0;
        while i < self.entries.len()
            invariant
                i <= self.entries@.len(),
                self.entries@.len() == other.entries@.len(),
                forall|k: int| 0 <= k < i ==> self@[k] == other@[k],
            decreases self.entries@.len() - i,
        {
            if !self.entries[i].0.same(&other.entries[i].0) || !self.entries[i].1.same(
                &other.entries[i].1,
            ) {
                proof {
                    assert(self@[i as int] != other@[i as int]);
                }
                return false;
            }
            i += 1;
        }
        proof {
            assert(self@ =~= other@);
        }
        true
    }

    /// The name and the value of the member at `i`.
    pub fn get(&self, i: usize) -> (r: (&HeaderValueMemberName, &HeaderValueMemberValue))
        requires
            i < self@.len(),
        ensures
            (r.0@, r.1@) == self@[i as int],
    {
        (&self.entries[i].0, &self.entries[i].1)
    }

    /// The members as `name=value` with a semicolon between them.
    pub fn to_string(&self) -> (s: String)
        ensures
            s@ == members_wire(self@),
    {
        let mut s = String::new();
        let mut i: usize = 0;
        while i < self.entries.len()
            invariant
                i <= self.entries@.len(),
                s@ == members_wire(self@.take(i as int)),
            decreases self.entries@.len() - i,
        {
            let ghost before = s@;
            if i > 0 {
                s.push(';');
            }
            let name = self.entries[i].0.to_string();
            let value = self.entries[i].1.to_string();
            s.append(name.as_str());
            s.push('=');
            s.append(value.as_str());
            proof {
                let t = self@.take(i + 1);
                assert(t.drop_last() == self@.take(i as int));
                assert(t.last() == self@[i as int]);
                assert(s@ =~= members_wire(t));
            }
            i += 1;
        }
        proof {
            assert(self@.take(i as int) == self@);
        }
        s
    }
}

/// One atom, as characters.
pub enum SimpleValueView {
    Number(u64),
    Text(Seq<char>),
    Mime(MimeView),
}

impl SimpleValueView {
    /// The atom as it is written on the wire: a number in decimal, a text as
    /// it is, a media type with its parameters.
    pub open spec fn wire(self) -> Seq<char> {
        match self {
            Self::Number(n) => decimal(n as nat),
            Self::Text(text) => text,
            Self::Mime(m) => m.wire(),
        }
    }
}

/// A value that is one atom.
#[derive(Debug, Clone, PartialEq, Eq, Hash)]
pub enum SimpleHeaderValue {
    /// A number.
    Number(u64),
    /// A text.
    String(String),
    /// A media type.
    Mime(Mime),
}

impl View for SimpleHeaderValue {
    type V = SimpleValueView;

    open spec fn view(&self) -> SimpleValueView {
        match self {
            Self::Number(n) => SimpleValueView::Number(*n),
            Self::String(text) => SimpleValueView::Text(text@),
            Self::Mime(m) => SimpleValueView::Mime(m@),
        }
    }
}

impl SimpleHeaderValue {
    /// The atom as it is written on the wire.
    pub fn to_string(&self) -> (s: String)
        ensures
            s@ == self@.wire(),
    {
        match self {
            Self::Number(n) => crate::text::decimal_string(*n),
            Self::String(text) => text.clone(),
            Self::Mime(m) => m.to_string(),
        }
    }

    /// Whether two atoms are the same.
    pub fn same(&self, other: &Self) -> (r: bool)
        ensures
            r == (self@ == other@),
    {
        match (self, other) {
            (Self::Number(a), Self::Number(b)) => *a == *b,
            (Self::String(a), Self::String(b)) => str_eq(a.as_str(), b.as_str()),
            (Self::Mime(a), Self::Mime(b)) => a.same(b),
            _ => false,
        }
    }

    /// A copy of the atom.
    pub fn duplicate(&self) -> (r: Self)
        ensures
            r@ == self@,
    {
        match self {
            Self::Number(n) => Self::Number(*n),
            Self::String(text) => Self::String(text.clone()),
            Self::Mime(m) => Self::Mime(m.duplicate()),
        }
    }
}

/// A list of atoms with their members, as characters.
pub type ParsedView = Seq<(SimpleValueView, MembersView)>;

/// One atom with its members on the wire: the atom, then `;` and the members
/// where there are any.
pub open spec fn entry_wire(atom: SimpleValueView, members: MembersView) -> Seq<char> {
    atom.wire() + if members.len() == 0 {
        Seq::<char>::empty()
    } else {
        seq![';'] + members_wire(members)
    }
}

/// The atoms with their members, in order, joined by commas.
pub open spec fn parsed_wire(s: ParsedView) -> Seq<char>
    decreases s.len(),
{
    if s.len() == 0 {
        Seq::<char>::empty()
    } else if s.len() == 1 {
        entry_wire(s[0].0, s[0].1)
    } else {
        parsed_wire(s.drop_last()) + seq![','] + entry_wire(s.last().0, s.last().1)
    }
}

/// Whether every number among the members is finite.
pub open spec fn members_finite(s: MembersView) -> bool {
    forall|i: int|
        0 <= i < s.len() ==> match (#[trigger] s[i]).1 {
            MemberValueView::Float(_, bits) => is_finite_bits(bits),
            MemberValueView::Other(_) => true,
        }
}

/// A value that is a list of atoms, each with its members, in the order of the
/// wire.
#[derive(Debug, Clone, PartialEq, Eq, Hash)]
pub struct ParsedHeaderValue(pub Vec<(SimpleHeaderValue, HeaderValueMembers)>);

impl View for ParsedHeaderValue {
    type V = ParsedView;

    open spec fn view(&self) -> ParsedView {
        Seq::new(self.0@.len(), |i: int| (self.0@[i].0@, self.0@[i].1@))
    }
}

impl ParsedHeaderValue {
    /// The value as it is written on the wire.
    pub fn to_string(&self) -> (s: String)
        ensures
            s@ == parsed_wire(self@),
    {
        let mut s = String::new();
        let mut i: usize = 0;
        while i < self.0.len()
            invariant
                i <= self.0@.len(),
                s@ == parsed_wire(self@.take(i as int)),
            decreases self.0@.len() - i,
        {
            if i > 0 {
                s.push(',');
            }
            let atom = self.0[i].0.to_string();
            s.append(atom.as_str());
            if !self.0[i].1.is_empty() {
                let members = self.0[i].1.to_string();
                s.push(';');
                s.append(members.as_str());
            }
            proof {
                let t = self@.take(i + 1);
                assert(t.drop_last() == self@.take(i as int));
                assert(t.last() == self@[i as int]);
                assert(s@ =~= parsed_wire(t));
            }
            i += 1;
        }
        proof {
            assert(self@.take(i as int) == self@);
        }
        s
    }

    /// Whether two lists hold the same atoms with the same members, in the
    /// same order.
    pub fn same(&self, other: &Self) -> (r: bool)
        ensures
            r == (self@ == other@),
    {
        if self.0.len() != other.0.len() {
            proof {
                assert(self@.len() != other@.len());
            }
            return false;
        }
        let mut i: usize = 0;
        while i < self.0.len()
            invariant
                i <= self.0@.len(),
                self.0@.len() == other.0@.len(),
                forall|k: int| 0 <= k < i ==> self@[k] == other@[k],
            decreases self.0@.len() - i,
        {
            if !self.0[i].0.same(&other.0[i].0) || !self.0[i].1.same(&other.0[i].1) {
                proof {
                    assert(self@[i as int] != other@[i as int]);
                }
                return false;
            }
            i += 1;
        }
        proof {
            assert(self@ =~= other@);
        }
        true
    }

    /// A copy of the value.
    pub fn duplicate(&self) -> (r: Self)
        ensures
            r@ == self@,
    {
        let mut entries: Vec<(SimpleHeaderValue, HeaderValueMembers)> = Vec::new();
        let mut i: usize = 0;
        while i < self.0.len()
            invariant
                i <= self.0@.len(),
                entries@.len() == i,
                forall|k: int|
                    0 <= k < i ==> (#[trigger] entries@[k]).0@ == self.0@[k].0@ && entries@[k].1@
                        == self.0@[k].1@,
            decreases self.0@.len() - i,
        {
            entries.push((self.0[i].0.duplicate(), self.0[i].1.clone()));
            i += 1;
        }
        let r = ParsedHeaderValue(entries);
        proof {
            assert(r@ =~= self@);
        }
        r
    }
}

/// Credentials as the bytes that are encoded for the wire: the user, a colon
/// and the password, in UTF-8.
pub open spec fn credentials_bytes(user: Seq<char>, password: Seq<char>) -> Seq<u8> {
    encode_utf8(user) + seq![58u8] + encode_utf8(password)
}

/// A header value, as characters.
pub enum HeaderValueView {
    Simple(SimpleValueView),
    Parsed(ParsedView),
    Credentials(Seq<char>, Seq<char>),
}

impl HeaderValueView {
    /// The value as it is written on the wire. Credentials are written as
    /// `Basic`, a space, and the Base64 of the user, a colon and the password
    /// in UTF-8.
    pub open spec fn wire(self) -> Seq<char> {
        match self {
            Self::Simple(v) => v.wire(),
            Self::Parsed(v) => parsed_wire(v),
            Self::Credentials(user, password) => "Basic "@ + base64_encoded(
                credentials_bytes(user, password),
            ),
        }
    }
}

/// A header value.
#[derive(Debug, Clone, PartialEq, Eq, Hash)]
pub enum HeaderValue {
    /// One atom.
    Simple(SimpleHeaderValue),
    /// A list of atoms with members.
    Parsed(ParsedHeaderValue),
    /// The user and the password of Basic credentials.
    Credentials(String, String),
}

impl View for HeaderValue {
    type V = HeaderValueView;

    open spec fn view(&self) -> HeaderValueView {
        match self {
            Self::Simple(v) => HeaderValueView::Simple(v@),
            Self::Parsed(v) => HeaderValueView::Parsed(v@),
            Self::Credentials(user, password) => HeaderValueView::Credentials(user@, password@),
        }
    }
}

impl HeaderValue {
    /// The value as it is written on the wire.
    pub fn to_string(&self) -> (s: String)
        ensures
            s@ == self@.wire(),
    {
        match self {
            Self::Simple(v) => v.to_string(),
            Self::Parsed(v) => v.to_string(),
            Self::Credentials(user, password) => {
                let mut bytes = user.as_str().as_bytes_vec();
                bytes.push(58);
                let tail = password.as_str().as_bytes_vec();
                let ghost head = bytes@;
                let mut i: usize = 0;
                while i < tail.len()
                    invariant
                        i <= tail@.len(),
                        bytes@ == head + tail@.take(i as int),
                    decreases tail@.len() - i,
                {
                    bytes.push(tail[i]);
                    proof {
                        assert(bytes@ =~= head + tail@.take(i + 1));
                    }
                    i += 1;
                }
                proof {
                    assert(tail@.take(i as int) =~= tail@);
                    assert(bytes@ =~= credentials_bytes(user@, password@));
                }
                let encoded = base64_encode(bytes.as_slice());
                let mut s = String::from_str("Basic ");
                s.append(encoded.as_str());
                s
            },
        }
    }

    /// A copy of the value.
    pub fn duplicate(&self) -> (r: Self)
        ensures
            r@ == self@,
    {
        match self {
            Self::Simple(v) => Self::Simple(v.duplicate()),
            Self::Parsed(v) => Self::Parsed(v.duplicate()),
            Self::Credentials(user, password) => Self::Credentials(user.clone(), password.clone()),
        }
    }

    /// Whether two values are the same.
    pub fn same(&self, other: &Self) -> (r: bool)
        ensures
            r == (self@ == other@),
    {
        match (self, other) {
            (Self::Simple(a), Self::Simple(b)) => a.same(b),
            (Self::Parsed(a), Self::Parsed(b)) => a.same(b),
            (Self::Credentials(a, b), Self::Credentials(c, d)) => str_eq(a.as_str(), c.as_str())
                && str_eq(b.as_str(), d.as_str()),
            _ => false,
        }
    }

    /// A value that is one text.
    pub fn text(text: &str) -> (r: Self)
        ensures
            r@ == HeaderValueView::Simple(SimpleValueView::Text(text@)),
    {
        Self::Simple(SimpleHeaderValue::String(String::from_str(text)))
    }
}

} // verus!
