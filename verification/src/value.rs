//! Value type.

use crate::errors::Error;
use crate::errors::Reason;
use crate::number::decimal;
use crate::number::double_literal;
use crate::number::is_digit;
use crate::number::is_double_literal;
use crate::number::is_integer_literal;
use crate::number::lemma_double_literal_chars;
use crate::number::lemma_integer_literal_is_double_literal;
use crate::number::parse_i128;
use crate::number::parse_integer;
use crate::number::render_i128;
use crate::number::unsigned_part;
use crate::text::free_of;
use crate::text::join;
use crate::text::lemma_split_join;
use crate::text::lemma_split_pieces;
use crate::text::spells;
use crate::text::split;
use crate::text::split_text;
use crate::text::texts;
use crate::text::to_chars;
use vstd::prelude::*;

verus! {

/// A binary floating-point number, held as the literal that denotes it.
///
/// The literal is kept as it was written; what number it stands for is for
/// the caller to compute. Two doubles are equal when their literals are the
/// same text.
#[derive(Debug, PartialEq)]
pub struct Double {
    text: String,
}

impl View for Double {
    type V = Seq<char>;

    closed spec fn view(&self) -> Seq<char> {
        self.text@
    }
}

impl Double {
    #[verifier::type_invariant]
    spec fn well_formed(&self) -> bool {
        is_double_literal(self.text@)
    }

    /// Makes a `Double` of `text` if `text` is the literal of a binary
    /// floating-point number.
    pub fn parse(text: &str) -> (r: Option<Double>)
        ensures
            r is Some <==> is_double_literal(text@),
            r is Some ==> r->0@ == text@,
    {
        let chars = to_chars(text);
        if double_literal(&chars) {
            Some(Double { text: String::from_str(text) })
        } else {
            None
        }
    }

    /// The literal.
    pub fn as_str(&self) -> (r: &str)
        ensures
            r@ == self@,
            is_double_literal(r@),
    {
        proof {
            use_type_invariant(self);
        }
        self.text.as_str()
    }
}

/// The four kinds of scalar.
#[derive(Debug, Clone, Copy, PartialEq, Eq, Structural)]
pub enum Kind {
    Bool,
    String,
    Integer,
    Double,
}

/// Value variants.
#[derive(Debug, PartialEq)]
pub enum Value {
    /// Boolean.
    Bool(bool),
    /// String.
    String(String),
    /// Integer.
    Integer(i128),
    /// Double.
    Double(Double),
    /// List of booleans.
    BoolList(Vec<bool>),
    /// List of strings.
    StringList(Vec<String>),
    /// List of integers.
    IntegerList(Vec<i128>),
    /// List of doubles.
    DoubleList(Vec<Double>),
}

/// What a `Value` holds: texts as sequences of characters, doubles as their
/// literals.
pub enum ValueView {
    Bool(bool),
    String(Seq<char>),
    Integer(i128),
    Double(Seq<char>),
    BoolList(Seq<bool>),
    StringList(Seq<Seq<char>>),
    IntegerList(Seq<i128>),
    DoubleList(Seq<Seq<char>>),
}

/// The literals of a sequence of doubles.
pub open spec fn literals(v: Seq<Double>) -> Seq<Seq<char>> {
    Seq::new(v.len(), |i: int| v[i]@)
}

impl View for Value {
    type V = ValueView;

    open spec fn view(&self) -> ValueView {
        match self {
            Value::Bool(b) => ValueView::Bool(*b),
            Value::String(s) => ValueView::String(s@),
            Value::Integer(n) => ValueView::Integer(*n),
            Value::Double(d) => ValueView::Double(d@),
            Value::BoolList(l) => ValueView::BoolList(l@),
            Value::StringList(l) => ValueView::StringList(texts(l@)),
            Value::IntegerList(l) => ValueView::IntegerList(l@),
            Value::DoubleList(l) => ValueView::DoubleList(literals(l@)),
        }
    }
}

impl ValueView {
    /// Whether the value is a scalar, not a list.
    pub open spec fn is_scalar(self) -> bool {
        self is Bool || self is String || self is Integer || self is Double
    }
}

/// The kind of scalar that `token` denotes. The literals `true` and `false`
/// come first, then the integers that fit 128 bits, then the literals of
/// doubles; everything else is a string.
pub open spec fn kind_of(token: Seq<char>) -> Kind {
    if token == "true"@ || token == "false"@ {
        Kind::Bool
    } else if parse_integer(token) is Some {
        Kind::Integer
    } else if is_double_literal(token) {
        Kind::Double
    } else {
        Kind::String
    }
}

/// The scalar that `token` denotes.
pub open spec fn scalar(token: Seq<char>) -> ValueView {
    match kind_of(token) {
        Kind::Bool => ValueView::Bool(token == "true"@),
        Kind::Integer => ValueView::Integer(parse_integer(token).unwrap()),
        Kind::Double => ValueView::Double(token),
        Kind::String => ValueView::String(token),
    }
}

/// The list of the given kind that holds what `tokens` denote, in their
/// order.
pub open spec fn list_of(kind: Kind, tokens: Seq<Seq<char>>) -> ValueView {
    match kind {
        Kind::Bool => ValueView::BoolList(Seq::new(tokens.len(), |i: int| tokens[i] == "true"@)),
        Kind::Integer => ValueView::IntegerList(
            Seq::new(tokens.len(), |i: int| parse_integer(tokens[i]).unwrap()),
        ),
        Kind::Double => ValueView::DoubleList(tokens),
        Kind::String => ValueView::StringList(tokens),
    }
}

/// Whether all of `tokens` denote scalars of one kind.
pub open spec fn same_kind(tokens: Seq<Seq<char>>) -> bool {
    forall|i: int| 0 <= i < tokens.len() ==> kind_of(#[trigger] tokens[i]) == kind_of(tokens[0])
}

/// `tokens` with its last element moved to the front.
pub open spec fn rotated(tokens: Seq<Seq<char>>) -> Seq<Seq<char>> {
    seq![tokens.last()] + tokens.drop_last()
}

/// The result of merging two values: two scalars of one kind give the list
/// of the left one and the right one; a list and a scalar of its kind, in
/// either order, give the list with the scalar at its end; nothing else can
/// be merged.
pub open spec fn merged(left: ValueView, right: ValueView) -> Option<ValueView> {
    match (left, right) {
        (ValueView::Bool(a), ValueView::Bool(b)) => Some(ValueView::BoolList(seq![a, b])),
        (ValueView::String(a), ValueView::String(b)) => Some(ValueView::StringList(seq![a, b])),
        (ValueView::Integer(a), ValueView::Integer(b)) => Some(
            ValueView::IntegerList(seq![a, b]),
        ),
        (ValueView::Double(a), ValueView::Double(b)) => Some(ValueView::DoubleList(seq![a, b])),
        (ValueView::StringList(l), ValueView::String(v)) => Some(ValueView::StringList(l.push(v))),
        (ValueView::String(v), ValueView::StringList(l)) => Some(ValueView::StringList(l.push(v))),
        (ValueView::BoolList(l), ValueView::Bool(v)) => Some(ValueView::BoolList(l.push(v))),
        (ValueView::Bool(v), ValueView::BoolList(l)) => Some(ValueView::BoolList(l.push(v))),
        (ValueView::IntegerList(l), ValueView::Integer(v)) => Some(
            ValueView::IntegerList(l.push(v)),
        ),
        (ValueView::Integer(v), ValueView::IntegerList(l)) => Some(
            ValueView::IntegerList(l.push(v)),
        ),
        (ValueView::DoubleList(l), ValueView::Double(v)) => Some(ValueView::DoubleList(l.push(v))),
        (ValueView::Double(v), ValueView::DoubleList(l)) => Some(ValueView::DoubleList(l.push(v))),
        _ => None,
    }
}

/// What merging gives when the scalars that `segments` denote are merged
/// into `start`, one after the other; nothing once a merge has failed.
pub open spec fn merged_all(start: ValueView, segments: Seq<Seq<char>>) -> Option<ValueView>
    decreases segments.len(),
{
    if segments.len() == 0 {
        Some(start)
    } else {
        match merged_all(start, segments.drop_last()) {
            Some(accumulated) => merged(accumulated, scalar(segments.last())),
            None => None,
        }
    }
}

/// The value that a sequence of segments denotes: none is an error, one is
/// the scalar it denotes, and more give a list if they are all of one kind.
/// The list starts with the last segment; the others follow in their order.
pub open spec fn collection(segments: Seq<Seq<char>>) -> Result<ValueView, Reason> {
    if segments.len() == 0 {
        Err(Reason::EmptyValue)
    } else if segments.len() == 1 {
        Ok(scalar(segments[0]))
    } else if same_kind(segments) {
        Ok(list_of(kind_of(segments[0]), rotated(segments)))
    } else {
        Err(Reason::MismatchedTypes)
    }
}

/// The value that `input` denotes: its segments are the pieces between
/// semicolons.
pub open spec fn parsed(input: Seq<char>) -> Result<ValueView, Reason> {
    collection(split(input, ';'))
}

/// The text that stands for a value in a document. A list has none: it is
/// written as the empty text.
pub open spec fn rendered(value: ValueView) -> Seq<char> {
    match value {
        ValueView::Bool(b) => if b {
            "true"@
        } else {
            "false"@
        },
        ValueView::String(s) => s,
        ValueView::Integer(n) => decimal(n as int),
        ValueView::Double(d) => d,
        _ => Seq::<char>::empty(),
    }
}

/// Merging the scalars of two tokens gives the list of both if they are of
/// one kind, and fails otherwise.
pub proof fn lemma_merged_scalars(a: Seq<char>, b: Seq<char>)
    ensures
        merged(scalar(a), scalar(b)) == if kind_of(a) == kind_of(b) {
            Some(list_of(kind_of(a), seq![a, b]))
        } else {
            None
        },
{
    if kind_of(a) == kind_of(b) {
        let tokens = seq![a, b];
        assert(tokens.len() == 2 && tokens[0] == a && tokens[1] == b);
        match kind_of(a) {
            Kind::Bool => {
                assert(seq![a == "true"@, b == "true"@] =~= Seq::new(
                    tokens.len(),
                    |i: int| tokens[i] == "true"@,
                ));
            },
            Kind::Integer => {
                assert(seq![parse_integer(a).unwrap(), parse_integer(b).unwrap()] =~= Seq::new(
                    tokens.len(),
                    |i: int| parse_integer(tokens[i]).unwrap(),
                ));
            },
            _ => {},
        }
    }
}

/// Merging a list with the scalar of a token puts the scalar at the end of
/// the list if it is of the list's kind, and fails otherwise.
pub proof fn lemma_merged_list(kind: Kind, tokens: Seq<Seq<char>>, token: Seq<char>)
    ensures
        merged(list_of(kind, tokens), scalar(token)) == if kind_of(token) == kind {
            Some(list_of(kind, tokens.push(token)))
        } else {
            None
        },
{
    if kind_of(token) == kind {
        let more = tokens.push(token);
        match kind {
            Kind::Bool => {
                assert(Seq::new(tokens.len(), |i: int| tokens[i] == "true"@).push(
                    token == "true"@,
                ) =~= Seq::new(more.len(), |i: int| more[i] == "true"@));
            },
            Kind::Integer => {
                assert(Seq::new(tokens.len(), |i: int| parse_integer(tokens[i]).unwrap()).push(
                    parse_integer(token).unwrap(),
                ) =~= Seq::new(more.len(), |i: int| parse_integer(more[i]).unwrap()));
            },
            _ => {},
        }
    }
}

/// Merging segments into the scalar of a first one gives the list of
/// all of them, the first one at the front, if they are all of its kind,
/// and fails otherwise.
pub proof fn lemma_merged_all(first: Seq<char>, segments: Seq<Seq<char>>)
    ensures
        merged_all(scalar(first), segments) == if segments.len() == 0 {
            Some(scalar(first))
        } else if forall|j: int|
            0 <= j < segments.len() ==> kind_of(#[trigger] segments[j]) == kind_of(first) {
            Some(list_of(kind_of(first), seq![first] + segments))
        } else {
            None
        },
    decreases segments.len(),
{
    if segments.len() > 0 {
        let init = segments.drop_last();
        let last = segments.last();
        let kind = kind_of(first);
        lemma_merged_all(first, init);
        let init_same = forall|j: int|
            0 <= j < init.len() ==> kind_of(#[trigger] init[j]) == kind;
        let all_same = forall|j: int|
            0 <= j < segments.len() ==> kind_of(#[trigger] segments[j]) == kind;
        if all_same {
            assert forall|j: int| 0 <= j < init.len() implies kind_of(#[trigger] init[j])
                == kind by {
                assert(init[j] == segments[j]);
            }
        }
        if init_same && kind_of(last) == kind {
            assert forall|j: int| 0 <= j < segments.len() implies kind_of(
                #[trigger] segments[j],
            ) == kind by {
                if j < init.len() {
                    assert(segments[j] == init[j]);
                }
            }
        }
        if init.len() == 0 {
            lemma_merged_scalars(first, last);
            assert(seq![first] + segments =~= seq![first, last]);
        } else if init_same {
            lemma_merged_list(kind, seq![first] + init, last);
            assert((seq![first] + init).push(last) =~= seq![first] + segments);
        }
    }
}

/// What segments denote is what merging gives: the scalar of the last
/// segment comes first, and the scalars of the others are merged into it
/// in their order.
pub proof fn collection_by_merging(segments: Seq<Seq<char>>)
    requires
        segments.len() >= 1,
    ensures
        collection(segments) == match merged_all(scalar(segments.last()), segments.drop_last()) {
            Some(v) => Ok::<ValueView, Reason>(v),
            None => Err::<ValueView, Reason>(Reason::MismatchedTypes),
        },
{
    let last = segments.last();
    let init = segments.drop_last();
    lemma_merged_all(last, init);
    if segments.len() > 1 {
        let others_same = forall|j: int|
            0 <= j < init.len() ==> kind_of(#[trigger] init[j]) == kind_of(last);
        if same_kind(segments) {
            assert(kind_of(segments[segments.len() - 1]) == kind_of(segments[0]));
            assert forall|j: int| 0 <= j < init.len() implies kind_of(#[trigger] init[j])
                == kind_of(last) by {
                assert(init[j] == segments[j]);
            }
        }
        if others_same {
            assert forall|j: int| 0 <= j < segments.len() implies kind_of(
                #[trigger] segments[j],
            ) == kind_of(segments[0]) by {
                assert(kind_of(init[0]) == kind_of(last));
                if j < init.len() {
                    assert(segments[j] == init[j]);
                }
            }
        }
    } else {
        assert(init.len() == 0);
    }
}

/// Once a merge has failed, merging more segments fails too.
pub proof fn lemma_merged_all_fails(start: ValueView, segments: Seq<Seq<char>>, n: int)
    requires
        0 <= n <= segments.len(),
        merged_all(start, segments.take(n)) is None,
    ensures
        merged_all(start, segments) is None,
    decreases segments.len(),
{
    if n < segments.len() {
        assert(segments.drop_last().take(n) =~= segments.take(n));
        lemma_merged_all_fails(start, segments.drop_last(), n);
    } else {
        assert(segments.take(n) =~= segments);
    }
}

/// The literals `true` and `false` are no numbers.
pub proof fn lemma_booleans_are_no_numbers()
    ensures
        "true"@ != "false"@,
        !is_integer_literal("true"@),
        !is_integer_literal("false"@),
        !is_double_literal("true"@),
        !is_double_literal("false"@),
{
    reveal_strlit("true");
    reveal_strlit("false");
    let t = "true"@;
    let f = "false"@;
    assert(t[0] == 't' && f[0] == 'f');
    assert(!is_digit(unsigned_part(t)[0]));
    assert(!is_digit(unsigned_part(f)[0]));
    if is_double_literal(t) {
        lemma_double_literal_chars(t, 1);
    }
    if is_double_literal(f) {
        lemma_double_literal_chars(f, 2);
    }
}

/// The literals `true` and `false` are always read as booleans.
pub proof fn booleans_come_first(token: Seq<char>)
    requires
        token == "true"@ || token == "false"@,
    ensures
        scalar(token) == ValueView::Bool(token == "true"@),
{
}

/// A token that is an integer fitting 128 bits is read as that integer,
/// though it is the literal of a double as well.
pub proof fn integers_come_before_doubles(token: Seq<char>)
    requires
        parse_integer(token) is Some,
    ensures
        is_double_literal(token),
        scalar(token) == ValueView::Integer(parse_integer(token).unwrap()),
{
    lemma_booleans_are_no_numbers();
    lemma_integer_literal_is_double_literal(token);
}

/// The literal of a double that is no integer fitting 128 bits is read as
/// a double, and a token that is no literal at all as a string.
pub proof fn doubles_come_before_strings(token: Seq<char>)
    requires
        parse_integer(token) is None,
        token != "true"@,
        token != "false"@,
    ensures
        is_double_literal(token) ==> scalar(token) == ValueView::Double(token),
        !is_double_literal(token) ==> scalar(token) == ValueView::String(token),
{
}

/// Segments put together with semicolons denote a list if they are all of
/// one kind, and nothing otherwise. The list is of that kind, and starts
/// with the last segment.
pub proof fn merge_type_safety(segments: Seq<Seq<char>>)
    requires
        segments.len() >= 2,
        forall|i: int| 0 <= i < segments.len() ==> free_of(#[trigger] segments[i], ';'),
    ensures
        parsed(join(segments, ';')) == if same_kind(segments) {
            Ok::<ValueView, Reason>(list_of(kind_of(segments[0]), rotated(segments)))
        } else {
            Err::<ValueView, Reason>(Reason::MismatchedTypes)
        },
        same_kind(segments) ==> match kind_of(segments[0]) {
            Kind::Bool => parsed(join(segments, ';')).unwrap() is BoolList,
            Kind::String => parsed(join(segments, ';')).unwrap() is StringList,
            Kind::Integer => parsed(join(segments, ';')).unwrap() is IntegerList,
            Kind::Double => parsed(join(segments, ';')).unwrap() is DoubleList,
        },
{
    lemma_split_join(segments, ';');
}

/// A text always has a segment, so what it denotes is never refused for
/// being empty: the empty text denotes the empty string.
pub proof fn parsed_is_never_empty(input: Seq<char>)
    ensures
        parsed(input) != Err::<ValueView, Reason>(Reason::EmptyValue),
{
    lemma_split_pieces(input, ';');
}

/// Two segments of different kinds, put together with a semicolon, denote
/// nothing.
pub proof fn differing_kinds_are_refused(left: Seq<char>, right: Seq<char>)
    requires
        free_of(left, ';'),
        free_of(right, ';'),
        kind_of(left) != kind_of(right),
    ensures
        parsed(left.push(';') + right) == Err::<ValueView, Reason>(Reason::MismatchedTypes),
{
    let segments = seq![left, right];
    let first = seq![left];
    assert(segments.len() == 2 && segments[0] == left && segments[1] == right);
    assert(first.len() == 1 && first[0] == left);
    assert(segments.drop_last() =~= first);
    assert(join(first, ';') == left);
    assert(join(segments, ';') =~= left.push(';') + right);
    merge_type_safety(segments);
    assert(segments[1] == right);
}

impl Value {
    /// Parse an input string: its segments are the pieces between
    /// semicolons. One segment gives a scalar. More give a list if they are
    /// all of one kind, and `InvalidValue` otherwise.
    pub fn parse(input: String) -> (r: Result<Value, Error>)
        ensures
            match parsed(input@) {
                Ok(v) => r is Ok && r->Ok_0@ == v,
                Err(reason) => r == Err::<Value, Error>(Error::invalid_value_for(reason)),
            },
    {
        let parts = split_text(input.as_str(), ';');
        Value::parse_collection(&parts)
    }

    /// Parses the segments of a value. None is `InvalidValue`; one gives the
    /// scalar it denotes; more give a list if they are all of one kind, and
    /// `InvalidValue` otherwise.
    pub fn parse_collection(parts: &Vec<String>) -> (r: Result<Value, Error>)
        ensures
            match collection(texts(parts@)) {
                Ok(v) => r is Ok && r->Ok_0@ == v,
                Err(reason) => r == Err::<Value, Error>(Error::invalid_value_for(reason)),
            },
    {
        let n = parts.len();
        if n == 0 {
            return Err(Error::invalid_value(Reason::EmptyValue));
        }
        let ghost tokens = texts(parts@);
        let ghost first = scalar(tokens.last());
        let ghost others = tokens.drop_last();
        proof {
            collection_by_merging(tokens);
        }
        let mut accumul = Value::parse_single(parts[n - 1].as_str());
        let mut i: usize = 0;
        while i < n - 1
            invariant
                n == parts.len(),
                n >= 1,
                i <= n - 1,
                tokens == texts(parts@),
                first == scalar(tokens.last()),
                others == tokens.drop_last(),
                merged_all(first, others.take(i as int)) == Some(accumul@),
            decreases n - 1 - i,
        {
            let parsed = Value::parse_single(parts[i].as_str());
            proof {
                assert(others.take(i + 1).drop_last() =~= others.take(i as int));
                assert(others.take(i + 1).last() == tokens[i as int]);
            }
            match Value::merge(accumul, parsed) {
                Ok(v) => {
                    accumul = v;
                },
                Err(e) => {
                    proof {
                        lemma_merged_all_fails(first, others, i + 1);
                    }
                    return Err(e);
                },
            }
            i += 1;
        }
        assert(others.take(i as int) =~= others);
        Ok(accumul)
    }

    /// Parses one segment. The literals `true` and `false` give a boolean;
    /// an integer in decimal notation that fits 128 bits gives an integer;
    /// the literal of a double gives a double; everything else is a string.
    pub fn parse_single(input: &str) -> (r: Value)
        ensures
            r@ == scalar(input@),
    {
        let chars = to_chars(input);
        if spells(&chars, "false") {
            proof {
                lemma_booleans_are_no_numbers();
            }
            return Value::Bool(false);
        }
        if spells(&chars, "true") {
            return Value::Bool(true);
        }
        if let Some(num) = parse_i128(&chars) {
            return Value::Integer(num);
        }
        if double_literal(&chars) {
            return Value::Double(Double { text: String::from_str(input) });
        }
        Value::String(String::from_str(input))
    }

    /// Merges two values into a list: two scalars of one kind, or a list
    /// and a scalar of its kind. Anything else is `InvalidValue`.
    pub fn merge(left: Value, right: Value) -> (r: Result<Value, Error>)
        ensures
            match merged(left@, right@) {
                Some(v) => r is Ok && r->Ok_0@ == v,
                None => r == Err::<Value, Error>(
                    Error::invalid_value_for(Reason::MismatchedTypes),
                ),
            },
    {
        let list = match (left, right) {
            (Value::Bool(b1), Value::Bool(b2)) => Value::BoolList(vec![b1, b2]),
            (Value::String(s1), Value::String(s2)) => {
                let list = vec![s1, s2];
                assert(texts(list@) =~= seq![s1@, s2@]);
                Value::StringList(list)
            },
            (Value::Integer(n1), Value::Integer(n2)) => Value::IntegerList(vec![n1, n2]),
            (Value::Double(f1), Value::Double(f2)) => {
                let list = vec![f1, f2];
                assert(literals(list@) =~= seq![f1@, f2@]);
                Value::DoubleList(list)
            },
            (Value::StringList(list), Value::String(v)) | (
                Value::String(v),
                Value::StringList(list),
            ) => {
                let mut list = list;
                let ghost before = texts(list@);
                list.push(v);
                assert(texts(list@) =~= before.push(v@));
                Value::StringList(list)
            },
            (Value::BoolList(list), Value::Bool(v)) | (Value::Bool(v), Value::BoolList(list)) => {
                let mut list = list;
                list.push(v);
                Value::BoolList(list)
            },
            (Value::IntegerList(list), Value::Integer(v)) | (
                Value::Integer(v),
                Value::IntegerList(list),
            ) => {
                let mut list = list;
                list.push(v);
                Value::IntegerList(list)
            },
            (Value::DoubleList(list), Value::Double(v)) | (
                Value::Double(v),
                Value::DoubleList(list),
            ) => {
                let mut list = list;
                let ghost before = literals(list@);
                list.push(v);
                assert(literals(list@) =~= before.push(v@));
                Value::DoubleList(list)
            },
            _ => {
                return Err(Error::invalid_value(Reason::MismatchedTypes));
            },
        };
        Ok(list)
    }

    /// The text that stands for the value in a document. A list has none:
    /// it gives the empty text.
    pub fn to_string(&self) -> (r: String)
        ensures
            r@ == rendered(self@),
    {
        match self {
            Value::String(s) => s.clone(),
            Value::Bool(b) => if *b {
                String::from_str("true")
            } else {
                String::from_str("false")
            },
            Value::Integer(n) => render_i128(*n),
            Value::Double(d) => String::from_str(d.as_str()),
            _ => String::new(),
        }
    }
}

impl From<String> for Value {
    fn from(v: String) -> (r: Value)
        ensures
            r@ == ValueView::String(v@),
    {
        Value::String(v)
    }
}

impl vstd::std_specs::convert::FromSpecImpl<String> for Value {
    open spec fn obeys_from_spec() -> bool {
        true
    }

    open spec fn from_spec(v: String) -> Value {
        Value::String(v)
    }
}

impl From<&str> for Value {
    fn from(v: &str) -> (r: Value)
        ensures
            r@ == ValueView::String(v@),
    {
        Value::String(String::from_str(v))
    }
}

impl vstd::std_specs::convert::FromSpecImpl<&str> for Value {
    /// The string that is made is not a function of `v` as a value; `from`
    /// itself says what it holds.
    open spec fn obeys_from_spec() -> bool {
        false
    }

    open spec fn from_spec(v: &str) -> Value {
        arbitrary()
    }
}

impl From<bool> for Value {
    fn from(v: bool) -> (r: Value)
        ensures
            r@ == ValueView::Bool(v),
    {
        Value::Bool(v)
    }
}

impl vstd::std_specs::convert::FromSpecImpl<bool> for Value {
    open spec fn obeys_from_spec() -> bool {
        true
    }

    open spec fn from_spec(v: bool) -> Value {
        Value::Bool(v)
    }
}

impl From<i128> for Value {
    fn from(v: i128) -> (r: Value)
        ensures
            r@ == ValueView::Integer(v),
    {
        Value::Integer(v)
    }
}

impl vstd::std_specs::convert::FromSpecImpl<i128> for Value {
    open spec fn obeys_from_spec() -> bool {
        true
    }

    open spec fn from_spec(v: i128) -> Value {
        Value::Integer(v)
    }
}

impl From<Double> for Value {
    fn from(v: Double) -> (r: Value)
        ensures
            r@ == ValueView::Double(v@),
    {
        Value::Double(v)
    }
}

impl vstd::std_specs::convert::FromSpecImpl<Double> for Value {
    open spec fn obeys_from_spec() -> bool {
        true
    }

    open spec fn from_spec(v: Double) -> Value {
        Value::Double(v)
    }
}

} // verus!
