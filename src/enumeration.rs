use crate::value::{is_text, kind_text, text_of, GuestValue};
use vstd::prelude::*;

verus! {

/// Why a call of `enum` or a lookup on its handle failed.
#[derive(Debug)]
pub enum EnumError {
    /// `enum` was not called with exactly one argument.
    ArgCount,
    /// The single argument of `enum` is not a table.
    NotASequence(GuestValue),
    /// An element of the sequence handed to `enum` is not a string.
    NotText(GuestValue),
    /// A lookup was not made with exactly one string.
    IndexArgs,
    /// A lookup named a token outside the enumeration.
    InvalidValue(String),
}

/// The text of an error as the guest sees it.
pub open spec fn error_text(e: EnumError) -> Seq<char> {
    match e {
        EnumError::ArgCount => "expected 1 argument, which should be a set"@,
        EnumError::NotASequence(v) => "argument must be a set; found: "@ + kind_text(v),
        EnumError::NotText(v) => "set elements must be strings; found: "@ + kind_text(v),
        EnumError::IndexArgs => "invalid args: must be exactly 1 string argument"@,
        EnumError::InvalidValue(n) => "invalid enum value: "@ + n@,
    }
}

impl EnumError {
    /// The text of this error as the guest sees it.
    pub fn message(&self) -> (r: String)
        ensures
            r@ == error_text(*self),
    {
        let mut r = String::new();
        match self {
            EnumError::ArgCount => r.append("expected 1 argument, which should be a set"),
            EnumError::NotASequence(v) => {
                r.append("argument must be a set; found: ");
                r.append(v.kind_name());
            },
            EnumError::NotText(v) => {
                r.append("set elements must be strings; found: ");
                r.append(v.kind_name());
            },
            EnumError::IndexArgs => r.append("invalid args: must be exactly 1 string argument"),
            EnumError::InvalidValue(n) => {
                r.append("invalid enum value: ");
                r.append(n.as_str());
            },
        }
        r
    }
}

/// The set of tokens named by the elements of a sequence.
pub open spec fn token_set(elems: Seq<GuestValue>) -> Set<Seq<char>> {
    Set::new(|t: Seq<char>| exists|i: int| 0 <= i < elems.len() && text_of(elems[i]) == t)
}

/// Whether every element of a sequence is textual.
pub open spec fn all_text(elems: Seq<GuestValue>) -> bool {
    forall|i: int| 0 <= i < elems.len() ==> is_text(#[trigger] elems[i])
}

/// The sequence part of the single argument of a call (empty when there is none).
pub open spec fn sole_sequence(args: Seq<GuestValue>) -> Seq<GuestValue> {
    match args[0] {
        GuestValue::Table(t) => t@,
        _ => Seq::empty(),
    }
}

/// Whether a call of `enum` has the shape it accepts: one table, all of whose
/// sequence values are strings.
pub open spec fn enum_args_ok(args: Seq<GuestValue>) -> bool {
    &&& args.len() == 1
    &&& args[0] is Table
    &&& all_text(sole_sequence(args))
}

/// `v` is the first non-textual element of `elems`.
pub open spec fn first_non_text(elems: Seq<GuestValue>, v: GuestValue) -> bool {
    exists|i: int|
        0 <= i < elems.len() && elems[i] == v && !is_text(v) && all_text(elems.take(i))
}

/// What a lookup on an enumeration handle gives, in the model.
pub enum LookupOutcome {
    /// The queried token, echoed back.
    Echo(Seq<char>),
    /// The queried token is not a member.
    Invalid(Seq<char>),
    /// The lookup was not made with exactly one string.
    BadArgs,
}

/// The queried text of a lookup: present when the lookup has exactly one
/// argument and it is a string.
pub open spec fn query_text(args: Seq<GuestValue>) -> Option<Seq<char>> {
    if args.len() == 1 && args[0] is Str {
        Some(text_of(args[0]))
    } else {
        None
    }
}

/// A membership lookup of `name` in `members`.
pub open spec fn lookup(members: Set<Seq<char>>, name: Seq<char>) -> LookupOutcome {
    if members.contains(name) {
        LookupOutcome::Echo(name)
    } else {
        LookupOutcome::Invalid(name)
    }
}

/// A lookup on `members` with the guest arguments `args`.
pub open spec fn index_spec(members: Set<Seq<char>>, args: Seq<GuestValue>) -> LookupOutcome {
    match query_text(args) {
        Some(name) => lookup(members, name),
        None => LookupOutcome::BadArgs,
    }
}

/// The outcome that a lookup's result stands for (`None` for an error that a
/// lookup never gives).
pub open spec fn outcome_of(r: Result<String, EnumError>) -> Option<LookupOutcome> {
    match r {
        Ok(s) => Some(LookupOutcome::Echo(s@)),
        Err(EnumError::InvalidValue(n)) => Some(LookupOutcome::Invalid(n@)),
        Err(EnumError::IndexArgs) => Some(LookupOutcome::BadArgs),
        Err(_) => None,
    }
}

/// Whether the strings of a sequence are pairwise distinct.
pub open spec fn distinct_texts(labels: Seq<String>) -> bool {
    forall|i: int, j: int| 0 <= i < j < labels.len() ==> labels[i]@ != labels[j]@
}

/// The set of the strings of a sequence.
pub open spec fn label_set(labels: Seq<String>) -> Set<Seq<char>> {
    Set::new(|t: Seq<char>| exists|i: int| 0 <= i < labels.len() && labels[i]@ == t)
}

/// The closed set of tokens behind a guest `enum` handle.
#[derive(Debug)]
pub struct LuaEnum {
    names: Vec<String>,
}

impl View for LuaEnum {
    type V = Set<Seq<char>>;

    closed spec fn view(&self) -> Set<Seq<char>> {
        Set::new(|t: Seq<char>| exists|i: int| 0 <= i < self.names@.len() && self.names@[i]@ == t)
    }
}

impl LuaEnum {
    /// The stored tokens are pairwise distinct.
    pub closed spec fn wf(&self) -> bool {
        forall|i: int, j: int|
            0 <= i < j < self.names@.len() ==> self.names@[i]@ != self.names@[j]@
    }

    /// Whether `name` is one of the tokens.
    pub fn contains(&self, name: &String) -> (r: bool)
        ensures
            r == self@.contains(name@),
    {
        let mut i: usize = 0;
        while i < self.names.len()
            invariant
                i <= self.names@.len(),
                forall|k: int| 0 <= k < i ==> self.names@[k]@ != name@,
            decreases self.names@.len() - i,
        {
            if self.names[i] == *name {
                return true;
            }
            i = i + 1;
        }
        assert(!self@.contains(name@));
        false
    }

    /// The tokens, each once, in the order in which they were first given.
    pub fn tokens(&self) -> (r: Vec<String>)
        requires
            self.wf(),
        ensures
            label_set(r@) == self@,
            distinct_texts(r@),
    {
        let r = self.names.clone();
        assert(label_set(r@) =~= self@);
        r
    }

    /// An enumeration with no tokens.
    fn empty() -> (r: LuaEnum)
        ensures
            r.wf(),
            r@ == Set::<Seq<char>>::empty(),
    {
        let r = LuaEnum { names: Vec::new() };
        assert(r@ =~= Set::<Seq<char>>::empty());
        r
    }

    /// Adds a token, keeping the stored tokens distinct.
    fn add(&mut self, name: String)
        requires
            old(self).wf(),
        ensures
            final(self).wf(),
            final(self)@ == old(self)@.insert(name@),
    {
        if !self.contains(&name) {
            let ghost before = self.names@;
            self.names.push(name);
            assert(self@ =~= old(self)@.insert(name@)) by {
                assert(self.names@[before.len() as int] == name);
                assert forall|t: Seq<char>| old(self)@.contains(t) implies self@.contains(t) by {
                    let i = choose|i: int| 0 <= i < before.len() && before[i]@ == t;
                    assert(self.names@[i] == before[i]);
                }
            }
        } else {
            assert(self@ =~= old(self)@.insert(name@));
        }
    }

    /// Builds the enumeration of a fixed list of labels, which must be
    /// pairwise distinct; `None` when two labels are equal.
    pub fn from_labels(labels: Vec<String>) -> (r: Option<LuaEnum>)
        ensures
            r is Some <==> distinct_texts(labels@),
            r matches Some(h) ==> h.wf() && h@ == label_set(labels@),
    {
        let mut h = LuaEnum::empty();
        let mut i: usize = 0;
        while i < labels.len()
            invariant
                i <= labels@.len(),
                h.wf(),
                h@ == label_set(labels@.take(i as int)),
                distinct_texts(labels@.take(i as int)),
            decreases labels@.len() - i,
        {
            let label = labels[i].clone();
            if h.contains(&label) {
                let ghost j = choose|j: int| 0 <= j < i && labels@.take(i as int)[j]@ == label@;
                assert(labels@[j]@ == labels@[i as int]@);
                return None;
            }
            h.add(label);
            assert(label_set(labels@.take(i + 1)) =~= label_set(labels@.take(i as int)).insert(label@)) by {
                assert(labels@.take(i + 1)[i as int] == labels@[i as int]);
                assert forall|t: Seq<char>| label_set(labels@.take(i as int)).contains(t) implies
                    label_set(labels@.take(i + 1)).contains(t) by {
                    let k = choose|k: int| 0 <= k < i && labels@.take(i as int)[k]@ == t;
                    assert(labels@.take(i + 1)[k] == labels@.take(i as int)[k]);
                }
            }
            assert(distinct_texts(labels@.take(i + 1))) by {
                assert forall|a: int, b: int| 0 <= a < b < i + 1 implies
                    #[trigger] labels@.take(i + 1)[a]@ != #[trigger] labels@.take(i + 1)[b]@ by {
                    if b == i {
                        assert(labels@.take(i as int)[a]@ == labels@.take(i + 1)[a]@);
                        assert(label_set(labels@.take(i as int)).contains(labels@.take(i as int)[a]@));
                    } else {
                        assert(labels@.take(i as int)[a] == labels@.take(i + 1)[a]);
                        assert(labels@.take(i as int)[b] == labels@.take(i + 1)[b]);
                    }
                }
            }
            i = i + 1;
        }
        assert(labels@.take(labels@.len() as int) =~= labels@);
        Some(h)
    }

    /// A lookup made by the guest on the handle (`handle[name]`): the name
    /// itself when it is a member.
    pub fn index(&self, args: Vec<GuestValue>) -> (r: Result<String, EnumError>)
        ensures
            outcome_of(r) == Some(index_spec(self@, args@)),
    {
        if args.len() != 1 {
            return Err(EnumError::IndexArgs);
        }
        match &args[0] {
            GuestValue::Str(name) => {
                if self.contains(name) {
                    Ok(name.clone())
                } else {
                    Err(EnumError::InvalidValue(name.clone()))
                }
            },
            _ => Err(EnumError::IndexArgs),
        }
    }
}

/// The guest constructor `enum(tokens)`: builds the closed set of the strings
/// in the sequence part of its single table argument.
pub fn lua_enum(args: Vec<GuestValue>) -> (r: Result<LuaEnum, EnumError>)
    ensures
        match r {
            Ok(h) => enum_args_ok(args@) && h.wf() && h@ == token_set(sole_sequence(args@)),
            Err(EnumError::ArgCount) => args@.len() != 1,
            Err(EnumError::NotASequence(v)) => args@.len() == 1 && !(args@[0] is Table) && v
                == args@[0],
            Err(EnumError::NotText(v)) => args@.len() == 1 && args@[0] is Table && first_non_text(
                sole_sequence(args@),
                v,
            ),
            Err(_) => false,
        },
{
    if args.len() != 1 {
        return Err(EnumError::ArgCount);
    }
    let ghost args0 = args@;
    let mut rest = args;
    let arg = rest.pop().unwrap();
    assert(arg == args0[0]);
    let mut elems = match arg {
        GuestValue::Table(t) => t,
        other => {
            return Err(EnumError::NotASequence(other));
        },
    };
    let ghost seq0 = elems@;
    assert(seq0 == sole_sequence(args0));
    let mut h = LuaEnum::empty();
    let mut i: usize = 0;
    while i < elems.len()
        invariant
            args@ == args0,
            args0.len() == 1,
            args0[0] is Table,
            sole_sequence(args0) == seq0,
            elems@ == seq0,
            i <= seq0.len(),
            h.wf(),
            h@ == token_set(seq0.take(i as int)),
            all_text(seq0.take(i as int)),
        decreases seq0.len() - i,
    {
        let is_str = match &elems[i] {
            GuestValue::Str(_) => true,
            _ => false,
        };
        if !is_str {
            let bad = elems.remove(i);
            assert(first_non_text(seq0, bad)) by {
                assert(seq0[i as int] == bad);
            }
            return Err(EnumError::NotText(bad));
        }
        let name = match &elems[i] {
            GuestValue::Str(s) => s.clone(),
            _ => String::new(),
        };
        assert(name@ == text_of(seq0[i as int]));
        h.add(name);
        assert(token_set(seq0.take(i + 1)) =~= token_set(seq0.take(i as int)).insert(name@)) by {
            assert(seq0.take(i + 1)[i as int] == seq0[i as int]);
            assert forall|t: Seq<char>| token_set(seq0.take(i as int)).contains(t) implies
                token_set(seq0.take(i + 1)).contains(t) by {
                let k = choose|k: int| 0 <= k < i && text_of(seq0.take(i as int)[k]) == t;
                assert(seq0.take(i + 1)[k] == seq0.take(i as int)[k]);
            }
        }
        assert(all_text(seq0.take(i + 1))) by {
            assert forall|k: int| 0 <= k < i + 1 implies is_text(#[trigger] seq0.take(i + 1)[k]) by {
                if k < i {
                    assert(seq0.take(i as int)[k] == seq0.take(i + 1)[k]);
                }
            }
        }
        i = i + 1;
    }
    assert(seq0.take(seq0.len() as int) =~= seq0);
    Ok(h)
}

/// For any sequence of strings handed to `enum`, the call succeeds, and a
/// lookup on the handle echoes each of those strings and refuses every other
/// string as an invalid enum value.
pub proof fn lemma_enum_echoes_exactly_its_tokens(args: Seq<GuestValue>, other: Seq<char>)
    requires
        args.len() == 1,
        args[0] is Table,
        all_text(sole_sequence(args)),
        forall|i: int|
            0 <= i < sole_sequence(args).len() ==> text_of(#[trigger] sole_sequence(args)[i])
                != other,
    ensures
        enum_args_ok(args),
        forall|i: int|
            0 <= i < sole_sequence(args).len() ==> lookup(
                token_set(sole_sequence(args)),
                text_of(#[trigger] sole_sequence(args)[i]),
            ) == LookupOutcome::Echo(text_of(sole_sequence(args)[i])),
        lookup(token_set(sole_sequence(args)), other) == LookupOutcome::Invalid(other),
{
    let elems = sole_sequence(args);
    assert forall|i: int| 0 <= i < elems.len() implies token_set(elems).contains(
        text_of(#[trigger] elems[i]),
    ) by {}
}

} // verus!
