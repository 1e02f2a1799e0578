//! What the `phf_map!`-style macros decide: which key expressions they
//! accept and what key each stands for, how `|` patterns expand, which
//! entries clash, and the source they emit.
//!
//! The macros read `syn` syntax trees; the parts of those trees that the
//! decisions read are handed over as plain values (`KeyExpr`, `KeyPattern`).
use vstd::prelude::*;
use vstd::string::StringExecFns;
use crate::generator::{generate_hash, is_perfect, unsolvable, HashState};
use crate::ordered_map::key_hashes;
use crate::shared::{decimal, push_decimal, spec_get_index, Hasher, PhfEq, PhfHash};

verus! {

/// The suffix of an integer literal.
#[derive(Clone, Copy, PartialEq, Eq, Structural)]
pub enum IntSuffix {
    I8,
    I16,
    I32,
    I64,
    I128,
    Isize,
    U8,
    U16,
    U32,
    U64,
    U128,
    Usize,
    /// No suffix.
    Unsuffixed,
    /// A suffix that names no integer type.
    Unknown,
}

/// A key expression as the macros read it: literals with their values,
/// and the shapes of expression around them.
pub enum KeyExpr {
    Str(String),
    ByteStr(Vec<u8>),
    Byte(u8),
    Char(char),
    /// An integer literal: the value of its digits, and its suffix.
    Int(u128, IntSuffix),
    Bool(bool),
    /// Any other literal.
    OtherLit,
    /// `[a, b, ...]`
    Array(Vec<KeyExpr>),
    /// `-e`
    Neg(Box<KeyExpr>),
    /// `*e`
    Deref(Box<KeyExpr>),
    /// `(a, b, ...)`
    Tuple(Vec<KeyExpr>),
    /// An invisible group around an expression.
    Group(Box<KeyExpr>),
    /// Any other expression.
    Other,
}

/// A parsed key: the value a key expression stands for.
pub enum ParsedKey {
    Str(String),
    Binary(Vec<u8>),
    Char(char),
    I8(i8),
    I16(i16),
    I32(i32),
    I64(i64),
    I128(i128),
    Isize(isize),
    U8(u8),
    U16(u16),
    U32(u32),
    U64(u64),
    U128(u128),
    Usize(usize),
    Bool(bool),
    Tuple(Vec<ParsedKey>),
}

/// The value of a parsed key.
pub enum KeyValue {
    Str(Seq<char>),
    Binary(Seq<u8>),
    Char(char),
    I8(i8),
    I16(i16),
    I32(i32),
    I64(i64),
    I128(i128),
    Isize(isize),
    U8(u8),
    U16(u16),
    U32(u32),
    U64(u64),
    U128(u128),
    Usize(usize),
    Bool(bool),
    Tuple(Seq<KeyValue>),
}

/// The values of some parsed keys.
pub open spec fn key_values(keys: Seq<ParsedKey>) -> Seq<KeyValue>
    decreases keys,
{
    if keys.len() == 0 {
        Seq::empty()
    } else {
        key_values(keys.drop_last()).push(key_value(keys.last()))
    }
}

/// The value of a parsed key.
pub open spec fn key_value(key: ParsedKey) -> KeyValue
    decreases key,
{
    match key {
        ParsedKey::Str(s) => KeyValue::Str(s@),
        ParsedKey::Binary(b) => KeyValue::Binary(b@),
        ParsedKey::Char(c) => KeyValue::Char(c),
        ParsedKey::I8(v) => KeyValue::I8(v),
        ParsedKey::I16(v) => KeyValue::I16(v),
        ParsedKey::I32(v) => KeyValue::I32(v),
        ParsedKey::I64(v) => KeyValue::I64(v),
        ParsedKey::I128(v) => KeyValue::I128(v),
        ParsedKey::Isize(v) => KeyValue::Isize(v),
        ParsedKey::U8(v) => KeyValue::U8(v),
        ParsedKey::U16(v) => KeyValue::U16(v),
        ParsedKey::U32(v) => KeyValue::U32(v),
        ParsedKey::U64(v) => KeyValue::U64(v),
        ParsedKey::U128(v) => KeyValue::U128(v),
        ParsedKey::Usize(v) => KeyValue::Usize(v),
        ParsedKey::Bool(v) => KeyValue::Bool(v),
        ParsedKey::Tuple(es) => KeyValue::Tuple(key_values(es@)),
    }
}

impl View for ParsedKey {
    type V = KeyValue;

    open spec fn view(&self) -> KeyValue {
        key_value(*self)
    }
}

/// The bytes that the elements of a tuple key feed, one after the other.
pub open spec fn values_bytes(vs: Seq<KeyValue>) -> Seq<u8>
    decreases vs,
{
    if vs.len() == 0 {
        Seq::empty()
    } else {
        values_bytes(vs.drop_last()) + value_bytes(vs.last())
    }
}

/// The bytes that a key feeds: those of the key's own type.
pub open spec fn value_bytes(v: KeyValue) -> Seq<u8>
    decreases v,
{
    match v {
        KeyValue::Str(s) => <str as PhfHash>::phf_bytes(s),
        KeyValue::Binary(b) => <Vec<u8> as PhfHash>::phf_bytes(b),
        KeyValue::Char(c) => <char as PhfHash>::phf_bytes(c),
        KeyValue::I8(x) => <i8 as PhfHash>::phf_bytes(x),
        KeyValue::I16(x) => <i16 as PhfHash>::phf_bytes(x),
        KeyValue::I32(x) => <i32 as PhfHash>::phf_bytes(x),
        KeyValue::I64(x) => <i64 as PhfHash>::phf_bytes(x),
        KeyValue::I128(x) => <i128 as PhfHash>::phf_bytes(x),
        KeyValue::Isize(x) => <isize as PhfHash>::phf_bytes(x),
        KeyValue::U8(x) => <u8 as PhfHash>::phf_bytes(x),
        KeyValue::U16(x) => <u16 as PhfHash>::phf_bytes(x),
        KeyValue::U32(x) => <u32 as PhfHash>::phf_bytes(x),
        KeyValue::U64(x) => <u64 as PhfHash>::phf_bytes(x),
        KeyValue::U128(x) => <u128 as PhfHash>::phf_bytes(x),
        KeyValue::Usize(x) => <usize as PhfHash>::phf_bytes(x),
        KeyValue::Bool(x) => <bool as PhfHash>::phf_bytes(x),
        KeyValue::Tuple(es) => values_bytes(es),
    }
}

proof fn lemma_key_values_index(keys: Seq<ParsedKey>, i: int)
    requires
        0 <= i < keys.len(),
    ensures
        key_values(keys).len() == keys.len(),
        key_values(keys)[i] == key_value(keys[i]),
    decreases keys.len(),
{
    lemma_key_values_len(keys);
    lemma_key_values_len(keys.drop_last());
    if i < keys.len() - 1 {
        lemma_key_values_index(keys.drop_last(), i);
    }
}

proof fn lemma_key_values_len(keys: Seq<ParsedKey>)
    ensures
        key_values(keys).len() == keys.len(),
    decreases keys.len(),
{
    if keys.len() > 0 {
        lemma_key_values_len(keys.drop_last());
    }
}

proof fn lemma_key_values_take(keys: Seq<ParsedKey>, i: int)
    requires
        0 <= i < keys.len(),
    ensures
        key_values(keys).take(i + 1) == key_values(keys).take(i).push(key_value(keys[i])),
{
    lemma_key_values_len(keys);
    lemma_key_values_index(keys, i);
    assert(key_values(keys).take(i + 1) =~= key_values(keys).take(i).push(key_value(keys[i])));
}

impl PhfHash for ParsedKey {
    open spec fn phf_bytes(v: KeyValue) -> Seq<u8> {
        value_bytes(v)
    }

    fn phf_hash<H: Hasher>(&self, state: &mut H)
        decreases self,
    {
        match self {
            ParsedKey::Str(s) => s.phf_hash(state),
            ParsedKey::Binary(s) => s.phf_hash(state),
            ParsedKey::Char(s) => s.phf_hash(state),
            ParsedKey::I8(s) => s.phf_hash(state),
            ParsedKey::I16(s) => s.phf_hash(state),
            ParsedKey::I32(s) => s.phf_hash(state),
            ParsedKey::I64(s) => s.phf_hash(state),
            ParsedKey::I128(s) => s.phf_hash(state),
            ParsedKey::Isize(s) => s.phf_hash(state),
            ParsedKey::U8(s) => s.phf_hash(state),
            ParsedKey::U16(s) => s.phf_hash(state),
            ParsedKey::U32(s) => s.phf_hash(state),
            ParsedKey::U64(s) => s.phf_hash(state),
            ParsedKey::U128(s) => s.phf_hash(state),
            ParsedKey::Usize(s) => s.phf_hash(state),
            ParsedKey::Bool(s) => s.phf_hash(state),
            ParsedKey::Tuple(elements) => {
                let ghost start = state.written();
                let ghost vs = key_values(elements@);
                proof {
                    lemma_key_values_len(elements@);
                    lemma_values_bytes_prefix(vs, 0);
                }
                let mut i: usize = 0;
                while i < elements.len()
                    invariant
                        i <= elements@.len(),
                        vs == key_values(elements@),
                        vs.len() == elements@.len(),
                        state.valid(),
                        state.keys() == old(state).keys(),
                        start == old(state).written(),
                        state.written() == start + values_bytes(vs.take(i as int)),
                        start.len() + values_bytes(vs).len() <= usize::MAX,
                        *self == ParsedKey::Tuple(*elements),
                    decreases elements@.len() - i,
                {
                    proof {
                        lemma_key_values_take(elements@, i as int);
                        lemma_values_bytes_prefix(vs, (i + 1) as nat);
                        assert(vs.take(i + 1).drop_last() =~= vs.take(i as int));
                        assert(elements@[i as int]@ == vs[i as int]);
                        let sv = *self;
                        assert(decreases_to!(sv => sv->Tuple_0));
                        assert(decreases_to!(sv->Tuple_0 => sv->Tuple_0@));
                        assert(decreases_to!(sv->Tuple_0@ => sv->Tuple_0@[i as int]));
                        assert(decreases_to!(*self => elements@[i as int]));
                    }
                    elements[i].phf_hash(state);
                    i = i + 1;
                }
                proof {
                    assert(vs.take(i as int) =~= vs);
                }
            },
        }
    }
}

proof fn lemma_values_bytes_prefix(vs: Seq<KeyValue>, n: nat)
    requires
        n <= vs.len(),
    ensures
        values_bytes(vs.take(n as int)).len() <= values_bytes(vs).len(),
    decreases vs.len(),
{
    if n < vs.len() {
        assert(vs.drop_last().take(n as int) =~= vs.take(n as int));
        lemma_values_bytes_prefix(vs.drop_last(), n);
    } else {
        assert(vs.take(n as int) =~= vs);
    }
}


/// The key an integer literal with the digits' value `v` and the suffix
/// `suffix` stands for. The digits are read as the unsigned type of the
/// suffix's width and cast, since the sign comes separately; unsuffixed
/// literals are `i32`s.
pub open spec fn parse_int(v: u128, suffix: IntSuffix) -> Option<KeyValue> {
    match suffix {
        IntSuffix::I8 => Some(KeyValue::I8(v as u8 as i8)),
        IntSuffix::I16 => Some(KeyValue::I16(v as u16 as i16)),
        IntSuffix::I32 => Some(KeyValue::I32(v as u32 as i32)),
        IntSuffix::I64 => Some(KeyValue::I64(v as u64 as i64)),
        IntSuffix::I128 => Some(KeyValue::I128(v as i128)),
        IntSuffix::Isize => Some(KeyValue::Isize(v as usize as isize)),
        IntSuffix::U8 => Some(KeyValue::U8(v as u8)),
        IntSuffix::U16 => Some(KeyValue::U16(v as u16)),
        IntSuffix::U32 => Some(KeyValue::U32(v as u32)),
        IntSuffix::U64 => Some(KeyValue::U64(v as u64)),
        IntSuffix::U128 => Some(KeyValue::U128(v)),
        IntSuffix::Usize => Some(KeyValue::Usize(v as usize)),
        IntSuffix::Unsuffixed => if v <= i32::MAX {
            Some(KeyValue::I32(v as i32))
        } else {
            None
        },
        IntSuffix::Unknown => None,
    }
}

/// The digits of a literal with this suffix fit the unsigned type they are
/// read as.
pub open spec fn int_fits(v: u128, suffix: IntSuffix) -> bool {
    match suffix {
        IntSuffix::I8 | IntSuffix::U8 => v <= u8::MAX,
        IntSuffix::I16 | IntSuffix::U16 => v <= u16::MAX,
        IntSuffix::I32 | IntSuffix::U32 => v <= u32::MAX,
        IntSuffix::I64 | IntSuffix::U64 => v <= u64::MAX,
        IntSuffix::Isize | IntSuffix::Usize => v <= usize::MAX,
        _ => true,
    }
}

/// An element that a byte array key accepts: an integer literal suffixed
/// `u8` or unsuffixed.
pub open spec fn is_byte_lit(e: KeyExpr) -> bool {
    e matches KeyExpr::Int(_, suffix) && (suffix == IntSuffix::U8 || suffix
        == IntSuffix::Unsuffixed)
}

/// The bytes of an array key, or `None` at the first element it does not
/// accept.
pub open spec fn parse_array(es: Seq<KeyExpr>) -> Option<Seq<u8>>
    decreases es.len(),
{
    if es.len() == 0 {
        Some(Seq::empty())
    } else if is_byte_lit(es[0]) {
        match parse_array(es.skip(1)) {
            Some(bs) => Some(seq![es[0]->Int_0 as u8] + bs),
            None => None,
        }
    } else {
        None
    }
}

/// The byte literals that an array key reads, up to the first element it
/// does not accept, fit in a byte.
pub open spec fn array_fits(es: Seq<KeyExpr>) -> bool
    decreases es.len(),
{
    es.len() == 0 || (is_byte_lit(es[0]) ==> es[0]->Int_0 <= u8::MAX && array_fits(es.skip(1)))
}

/// A negated key: signed integers are negated unless the literal already
/// read as negative (the minimum of the type); other keys cannot be.
pub open spec fn negate(k: KeyValue) -> Option<KeyValue> {
    match k {
        KeyValue::I8(v) => Some(KeyValue::I8(if v < 0 { v } else { (-v) as i8 })),
        KeyValue::I16(v) => Some(KeyValue::I16(if v < 0 { v } else { (-v) as i16 })),
        KeyValue::I32(v) => Some(KeyValue::I32(if v < 0 { v } else { (-v) as i32 })),
        KeyValue::I64(v) => Some(KeyValue::I64(if v < 0 { v } else { (-v) as i64 })),
        KeyValue::I128(v) => Some(KeyValue::I128(if v < 0 { v } else { (-v) as i128 })),
        KeyValue::Isize(v) => Some(KeyValue::Isize(if v < 0 { v } else { (-v) as isize })),
        _ => None,
    }
}

/// The key of `*e`: a byte string, possibly inside groups.
pub open spec fn deref_key(e: KeyExpr) -> Option<KeyValue>
    decreases e,
{
    match e {
        KeyExpr::Group(inner) => deref_key(*inner),
        KeyExpr::ByteStr(b) => Some(KeyValue::Binary(b@)),
        _ => None,
    }
}

/// The keys of a tuple's elements, or `None` at the first that is no key.
pub open spec fn parse_tuple(es: Seq<KeyExpr>) -> Option<Seq<KeyValue>>
    decreases es,
{
    if es.len() == 0 {
        Some(Seq::empty())
    } else {
        match parse_key(es[0]) {
            Some(v) => match parse_tuple(es.skip(1)) {
                Some(vs) => Some(seq![v] + vs),
                None => None,
            },
            None => None,
        }
    }
}

/// The key that an expression stands for, if the macros accept it.
pub open spec fn parse_key(e: KeyExpr) -> Option<KeyValue>
    decreases e,
{
    match e {
        KeyExpr::Str(s) => Some(KeyValue::Str(s@)),
        KeyExpr::ByteStr(b) => Some(KeyValue::Binary(b@)),
        KeyExpr::Byte(b) => Some(KeyValue::U8(b)),
        KeyExpr::Char(c) => Some(KeyValue::Char(c)),
        KeyExpr::Int(v, suffix) => parse_int(v, suffix),
        KeyExpr::Bool(b) => Some(KeyValue::Bool(b)),
        KeyExpr::OtherLit => None,
        KeyExpr::Array(es) => match parse_array(es@) {
            Some(bs) => Some(KeyValue::Binary(bs)),
            None => None,
        },
        KeyExpr::Neg(inner) => match parse_key(*inner) {
            Some(k) => negate(k),
            None => None,
        },
        KeyExpr::Deref(inner) => deref_key(*inner),
        KeyExpr::Tuple(es) => match parse_tuple(es@) {
            Some(vs) => Some(KeyValue::Tuple(vs)),
            None => None,
        },
        KeyExpr::Group(inner) => parse_key(*inner),
        KeyExpr::Other => None,
    }
}

/// The elements of a tuple fit, up to the first that is no key.
pub open spec fn tuple_fits(es: Seq<KeyExpr>) -> bool
    decreases es,
{
    es.len() == 0 || (fits(es[0]) && (parse_key(es[0]) is Some ==> tuple_fits(es.skip(1))))
}

/// The integer literals that parsing reads fit the types they are read as.
pub open spec fn fits(e: KeyExpr) -> bool
    decreases e,
{
    match e {
        KeyExpr::Int(v, suffix) => int_fits(v, suffix),
        KeyExpr::Array(es) => array_fits(es@),
        KeyExpr::Neg(inner) => fits(*inner),
        KeyExpr::Tuple(es) => tuple_fits(es@),
        KeyExpr::Group(inner) => fits(*inner),
        _ => true,
    }
}

/// A key expression's parse: `Some` of a key whose value is the parse.
pub open spec fn parsed_as(r: Option<ParsedKey>, p: Option<KeyValue>) -> bool {
    match r {
        Some(k) => p == Some(k@),
        None => p is None,
    }
}

impl ParsedKey {
    /// The key that `expr` stands for, or `None` if the macros do not accept
    /// it as a key.
    pub fn from_expr(expr: &KeyExpr) -> (r: Option<ParsedKey>)
        requires
            fits(*expr),
        ensures
            parsed_as(r, parse_key(*expr)),
        decreases expr,
    {
        match expr {
            KeyExpr::Str(s) => Some(ParsedKey::Str(s.clone())),
            KeyExpr::ByteStr(s) => Some(ParsedKey::Binary(s.clone())),
            KeyExpr::Byte(s) => Some(ParsedKey::U8(*s)),
            KeyExpr::Char(s) => Some(ParsedKey::Char(*s)),
            KeyExpr::Int(v, suffix) => parse_int_key(*v, *suffix),
            KeyExpr::Bool(s) => Some(ParsedKey::Bool(*s)),
            KeyExpr::OtherLit => None,
            KeyExpr::Array(elems) => {
                let mut buf: Vec<u8> = Vec::new();
                let mut i: usize = 0;
                proof {
                    assert(elems@.skip(0) =~= elems@);
                    if parse_array(elems@) is Some {
                        assert(Seq::<u8>::empty() + parse_array(elems@)->0 =~= parse_array(
                            elems@,
                        )->0);
                    }
                }
                while i < elems.len()
                    invariant
                        i <= elems@.len(),
                        *expr == KeyExpr::Array(*elems),
                        array_fits(elems@.skip(i as int)),
                        parse_array(elems@) == (match parse_array(elems@.skip(i as int)) {
                            Some(bs) => Some(buf@ + bs),
                            None => None,
                        }),
                    decreases elems@.len() - i,
                {
                    proof {
                        assert(elems@.skip(i as int).skip(1) =~= elems@.skip(i + 1));
                        assert(elems@.skip(i as int)[0] == elems@[i as int]);
                    }
                    match &elems[i] {
                        KeyExpr::Int(v, suffix) => {
                            if *suffix == IntSuffix::U8 || *suffix == IntSuffix::Unsuffixed {
                                buf.push(*v as u8);
                                proof {
                                    let rest = parse_array(elems@.skip(i + 1));
                                    if rest is Some {
                                        assert(buf@ + rest->0 =~= old_buf_concat(buf@, rest->0));
                                    }
                                }
                            } else {
                                proof {
                                    assert(!is_byte_lit(elems@.skip(i as int)[0]));
                                    assert(parse_array(elems@.skip(i as int)) is None);
                                }
                                return None;
                            }
                        },
                        _ => {
                            proof {
                                assert(!is_byte_lit(elems@.skip(i as int)[0]));
                                assert(parse_array(elems@.skip(i as int)) is None);
                            }
                            return None;
                        },
                    }
                    i = i + 1;
                }
                proof {
                    assert(elems@.skip(i as int) =~= Seq::<KeyExpr>::empty());
                    assert(buf@ + Seq::<u8>::empty() =~= buf@);
                }
                Some(ParsedKey::Binary(buf))
            },
            KeyExpr::Neg(inner) => {
                match ParsedKey::from_expr(inner) {
                    Some(ParsedKey::I8(v)) => Some(ParsedKey::I8(if v < 0 { v } else { -v })),
                    Some(ParsedKey::I16(v)) => Some(ParsedKey::I16(if v < 0 { v } else { -v })),
                    Some(ParsedKey::I32(v)) => Some(ParsedKey::I32(if v < 0 { v } else { -v })),
                    Some(ParsedKey::I64(v)) => Some(ParsedKey::I64(if v < 0 { v } else { -v })),
                    Some(ParsedKey::I128(v)) => Some(ParsedKey::I128(if v < 0 { v } else { -v })),
                    Some(ParsedKey::Isize(v)) => Some(
                        ParsedKey::Isize(if v < 0 { v } else { -v }),
                    ),
                    _ => None,
                }
            },
            KeyExpr::Deref(inner) => deref_key_exec(inner),
            KeyExpr::Tuple(elems) => {
                let mut elements: Vec<ParsedKey> = Vec::new();
                let mut i: usize = 0;
                proof {
                    assert(elems@.skip(0) =~= elems@);
                    assert(key_values(elements@) =~= Seq::<KeyValue>::empty());
                    if parse_tuple(elems@) is Some {
                        assert(Seq::<KeyValue>::empty() + parse_tuple(elems@)->0 =~= parse_tuple(
                            elems@,
                        )->0);
                    }
                }
                while i < elems.len()
                    invariant
                        i <= elems@.len(),
                        *expr == KeyExpr::Tuple(*elems),
                        tuple_fits(elems@.skip(i as int)),
                        parse_tuple(elems@) == (match parse_tuple(elems@.skip(i as int)) {
                            Some(vs) => Some(key_values(elements@) + vs),
                            None => None,
                        }),
                    decreases elems@.len() - i,
                {
                    proof {
                        assert(elems@.skip(i as int).skip(1) =~= elems@.skip(i + 1));
                        assert(elems@.skip(i as int)[0] == elems@[i as int]);
                        let sv = *expr;
                        assert(decreases_to!(sv => sv->Tuple_0));
                        assert(decreases_to!(sv->Tuple_0 => sv->Tuple_0@));
                        assert(decreases_to!(sv->Tuple_0@ => sv->Tuple_0@[i as int]));
                    }
                    match ParsedKey::from_expr(&elems[i]) {
                        Some(parsed_elem) => {
                            let ghost before = elements@;
                            elements.push(parsed_elem);
                            proof {
                                lemma_key_values_len(elements@);
                                assert(elements@.drop_last() =~= before);
                                let rest = parse_tuple(elems@.skip(i + 1));
                                if rest is Some {
                                    assert(key_values(elements@) + rest->0 =~= key_values(before)
                                        + (seq![key_value(parsed_elem)] + rest->0));
                                }
                            }
                        },
                        None => {
                            return None;
                        },
                    }
                    i = i + 1;
                }
                proof {
                    assert(elems@.skip(i as int) =~= Seq::<KeyExpr>::empty());
                    assert(key_values(elements@) + Seq::<KeyValue>::empty() =~= key_values(
                        elements@,
                    ));
                }
                Some(ParsedKey::Tuple(elements))
            },
            KeyExpr::Group(inner) => ParsedKey::from_expr(inner),
            KeyExpr::Other => None,
        }
    }
}

spec fn old_buf_concat(buf: Seq<u8>, rest: Seq<u8>) -> Seq<u8> {
    buf.drop_last() + (seq![buf.last()] + rest)
}

/// The key of `*e`, if `e` is a byte string inside groups.
fn deref_key_exec(e: &KeyExpr) -> (r: Option<ParsedKey>)
    ensures
        parsed_as(r, deref_key(*e)),
    decreases e,
{
    match e {
        KeyExpr::Group(inner) => deref_key_exec(inner),
        KeyExpr::ByteStr(s) => Some(ParsedKey::Binary(s.clone())),
        _ => None,
    }
}

fn parse_int_key(v: u128, suffix: IntSuffix) -> (r: Option<ParsedKey>)
    requires
        int_fits(v, suffix),
    ensures
        parsed_as(r, parse_int(v, suffix)),
{
    match suffix {
        // we've lost the sign at this point, so `-128i8` looks like `128i8`,
        // which doesn't fit in an `i8`; read it as a `u8` and cast (to `-128i8`),
        // which is handled by `Neg`
        IntSuffix::I8 => Some(ParsedKey::I8(v as u8 as i8)),
        IntSuffix::I16 => Some(ParsedKey::I16(v as u16 as i16)),
        IntSuffix::I32 => Some(ParsedKey::I32(v as u32 as i32)),
        IntSuffix::I64 => Some(ParsedKey::I64(v as u64 as i64)),
        IntSuffix::I128 => Some(ParsedKey::I128(v as i128)),
        IntSuffix::Isize => Some(ParsedKey::Isize(v as usize as isize)),
        IntSuffix::U8 => Some(ParsedKey::U8(v as u8)),
        IntSuffix::U16 => Some(ParsedKey::U16(v as u16)),
        IntSuffix::U32 => Some(ParsedKey::U32(v as u32)),
        IntSuffix::U64 => Some(ParsedKey::U64(v as u64)),
        IntSuffix::U128 => Some(ParsedKey::U128(v)),
        IntSuffix::Usize => Some(ParsedKey::Usize(v as usize)),
        // Handle unsuffixed integer literals, default to i32
        IntSuffix::Unsuffixed => {
            if v <= 0x7fff_ffff {
                Some(ParsedKey::I32(v as i32))
            } else {
                None
            }
        },
        IntSuffix::Unknown => None,
    }
}

/// Whether two sequences of keys hold equal keys, position by position.
fn keys_eq(a: &Vec<ParsedKey>, b: &Vec<ParsedKey>) -> (r: bool)
    ensures
        r == (key_values(a@) == key_values(b@)),
    decreases a@, 0nat,
{
    proof {
        lemma_key_values_len(a@);
        lemma_key_values_len(b@);
    }
    if a.len() != b.len() {
        return false;
    }
    let mut i: usize = 0;
    while i < a.len()
        invariant
            i <= a@.len(),
            a@.len() == b@.len(),
            key_values(a@).len() == a@.len(),
            key_values(b@).len() == b@.len(),
            forall|j: int| 0 <= j < i ==> key_values(a@)[j] == key_values(b@)[j],
        decreases a@.len() - i,
    {
        proof {
            lemma_key_values_index(a@, i as int);
            lemma_key_values_index(b@, i as int);
            assert(decreases_to!(a@ => a@[i as int]));
        }
        if !a[i].phf_eq(&b[i]) {
            return false;
        }
        i = i + 1;
    }
    proof {
        assert(key_values(a@) =~= key_values(b@));
    }
    true
}

impl PhfEq for ParsedKey {
    fn phf_eq(&self, other: &Self) -> (r: bool)
        decreases self, 1nat,
    {
        match (self, other) {
            (ParsedKey::Str(a), ParsedKey::Str(b)) => a.phf_eq(b),
            (ParsedKey::Binary(a), ParsedKey::Binary(b)) => a.phf_eq(b),
            (ParsedKey::Char(a), ParsedKey::Char(b)) => *a == *b,
            (ParsedKey::I8(a), ParsedKey::I8(b)) => *a == *b,
            (ParsedKey::I16(a), ParsedKey::I16(b)) => *a == *b,
            (ParsedKey::I32(a), ParsedKey::I32(b)) => *a == *b,
            (ParsedKey::I64(a), ParsedKey::I64(b)) => *a == *b,
            (ParsedKey::I128(a), ParsedKey::I128(b)) => *a == *b,
            (ParsedKey::Isize(a), ParsedKey::Isize(b)) => *a == *b,
            (ParsedKey::U8(a), ParsedKey::U8(b)) => *a == *b,
            (ParsedKey::U16(a), ParsedKey::U16(b)) => *a == *b,
            (ParsedKey::U32(a), ParsedKey::U32(b)) => *a == *b,
            (ParsedKey::U64(a), ParsedKey::U64(b)) => *a == *b,
            (ParsedKey::U128(a), ParsedKey::U128(b)) => *a == *b,
            (ParsedKey::Usize(a), ParsedKey::Usize(b)) => *a == *b,
            (ParsedKey::Bool(a), ParsedKey::Bool(b)) => *a == *b,
            (ParsedKey::Tuple(a), ParsedKey::Tuple(b)) => {
                proof {
                    let sv = *self;
                    assert(decreases_to!(sv => sv->Tuple_0));
                    assert(decreases_to!(sv->Tuple_0 => sv->Tuple_0@));
                }
                keys_eq(a, b)
            },
            _ => false,
        }
    }
}

/// A key pattern: one key, or `a | b`, which stands for the keys of `a`
/// and then those of `b`.
pub enum KeyPattern {
    /// A key expression and its source text.
    Key(KeyExpr, String),
    /// `a | b`
    Or(Box<KeyPattern>, Box<KeyPattern>),
}

/// The keys a pattern stands for, left to right, each as its expression,
/// its source text and the source text of the value it maps to.
pub open spec fn pattern_leaves(p: KeyPattern, value: Seq<char>) -> Seq<(KeyExpr, Seq<char>, Seq<char>)>
    decreases p,
{
    match p {
        KeyPattern::Key(e, text) => seq![(e, text@, value)],
        KeyPattern::Or(l, r) => pattern_leaves(*l, value) + pattern_leaves(*r, value),
    }
}

/// The keys of all the entries, in order.
pub open spec fn all_leaves(entries: Seq<(KeyPattern, String)>) -> Seq<(KeyExpr, Seq<char>, Seq<char>)>
    decreases entries.len(),
{
    if entries.len() == 0 {
        Seq::empty()
    } else {
        pattern_leaves(entries[0].0, entries[0].1@) + all_leaves(entries.skip(1))
    }
}

proof fn lemma_all_leaves_concat(a: Seq<(KeyPattern, String)>, b: Seq<(KeyPattern, String)>)
    ensures
        all_leaves(a + b) == all_leaves(a) + all_leaves(b),
    decreases a.len(),
{
    if a.len() == 0 {
        assert(a + b =~= b);
        assert(all_leaves(a) + all_leaves(b) =~= all_leaves(b));
    } else {
        assert((a + b).skip(1) =~= a.skip(1) + b);
        assert((a + b)[0] == a[0]);
        lemma_all_leaves_concat(a.skip(1), b);
        assert(all_leaves(a + b) =~= all_leaves(a) + all_leaves(b));
    }
}

/// The text of the first key that is no supported key expression.
pub open spec fn first_unsupported(leaves: Seq<(KeyExpr, Seq<char>, Seq<char>)>) -> Option<Seq<char>>
    decreases leaves.len(),
{
    if leaves.len() == 0 {
        None
    } else if parse_key(leaves[0].0) is None {
        Some(leaves[0].1)
    } else {
        first_unsupported(leaves.skip(1))
    }
}

/// The keys fit, up to the first unsupported one.
pub open spec fn leaves_fit(leaves: Seq<(KeyExpr, Seq<char>, Seq<char>)>) -> bool
    decreases leaves.len(),
{
    leaves.len() == 0 || (fits(leaves[0].0) && (parse_key(leaves[0].0) is Some ==> leaves_fit(
        leaves.skip(1),
    )))
}

proof fn lemma_leaves_concat(
    a: Seq<(KeyExpr, Seq<char>, Seq<char>)>,
    b: Seq<(KeyExpr, Seq<char>, Seq<char>)>,
)
    ensures
        first_unsupported(a + b) == (if first_unsupported(a) is Some {
            first_unsupported(a)
        } else {
            first_unsupported(b)
        }),
        leaves_fit(a + b) == (leaves_fit(a) && (first_unsupported(a) is None ==> leaves_fit(b))),
    decreases a.len(),
{
    if a.len() == 0 {
        assert(a + b =~= b);
    } else {
        assert((a + b).skip(1) =~= a.skip(1) + b);
        assert((a + b)[0] == a[0]);
        lemma_leaves_concat(a.skip(1), b);
    }
}

/// One key of a macro's input, parsed.
pub struct Entry {
    pub parsed_key: ParsedKey,
    pub key_expr: String,
    pub value_expr: String,
}

impl View for Entry {
    type V = KeyValue;

    open spec fn view(&self) -> KeyValue {
        self.parsed_key@
    }
}

impl PhfHash for Entry {
    open spec fn phf_bytes(v: KeyValue) -> Seq<u8> {
        value_bytes(v)
    }

    fn phf_hash<H: Hasher>(&self, state: &mut H) {
        self.parsed_key.phf_hash(state)
    }
}

/// The entries are the keys `leaves`, parsed.
pub open spec fn entries_match(entries: Seq<Entry>, leaves: Seq<(KeyExpr, Seq<char>, Seq<char>)>) -> bool {
    &&& entries.len() == leaves.len()
    &&& forall|i: int|
        0 <= i < entries.len() ==> Some((#[trigger] entries[i])@) == parse_key(leaves[i].0)
            && entries[i].key_expr@ == leaves[i].1 && entries[i].value_expr@ == leaves[i].2
}

/// Why a macro's input is refused.
pub enum MacroError {
    /// A key that is no supported key expression, by its text.
    UnsupportedKey(String),
    /// A key equal to an earlier one, by its text.
    DuplicateKey(String),
    /// The generator ran out of hash keys to try.
    Unsolvable,
}

/// No key among the first `n` equals an earlier one.
pub open spec fn no_duplicates_before(keys: Seq<KeyValue>, n: int) -> bool {
    forall|i: int, j: int| 0 <= j < i < n ==> keys[j] != keys[i]
}

/// The first key that equals an earlier one is the `i`th.
pub open spec fn first_duplicate_at(keys: Seq<KeyValue>, i: int) -> bool {
    &&& 0 <= i < keys.len()
    &&& no_duplicates_before(keys, i)
    &&& exists|j: int| 0 <= j < i && keys[j] == keys[i]
}

/// The keys of some entries.
pub open spec fn entry_values(entries: Seq<Entry>) -> Seq<KeyValue> {
    entries.map_values(|e: Entry| e@)
}

/// The parsed entries of a map macro.
pub struct ParsedMap {
    pub entries: Vec<Entry>,
}

impl ParsedMap {
    /// Parses the entries of a map macro: expands `|` patterns and refuses
    /// unsupported and duplicate keys.
    pub fn from_parsed(entries: Vec<(KeyPattern, String)>) -> (r: Result<Self, MacroError>)
        requires
            leaves_fit(all_leaves(entries@)),
        ensures
            ({
                let leaves = all_leaves(entries@);
                match r {
                    Ok(map) => {
                        &&& first_unsupported(leaves) is None
                        &&& entries_match(map.entries@, leaves)
                        &&& no_duplicates_before(
                            entry_values(map.entries@),
                            map.entries@.len() as int,
                        )
                    },
                    Err(MacroError::UnsupportedKey(t)) => first_unsupported(leaves) == Some(t@),
                    Err(MacroError::DuplicateKey(t)) => {
                        &&& first_unsupported(leaves) is None
                        &&& exists|m: ParsedMap, i: int|
                            #![trigger first_duplicate_at(entry_values(m.entries@), i)]
                            entries_match(m.entries@, leaves) && first_duplicate_at(
                                entry_values(m.entries@),
                                i,
                            ) && t@ == m.entries@[i].key_expr@
                    },
                    Err(MacroError::Unsolvable) => false,
                }
            }),
    {
        let mut map = Self { entries: Vec::new() };
        let ghost all = all_leaves(entries@);
        let mut i: usize = 0;
        proof {
            assert(entries@.skip(0) =~= entries@);
            assert(entries@.take(0) =~= Seq::<(KeyPattern, String)>::empty());
            assert(all_leaves(entries@.take(0)) + all =~= all);
        }
        while i < entries.len()
            invariant
                i <= entries@.len(),
                all == all_leaves(entries@),
                leaves_fit(all),
                all_leaves(entries@.take(i as int)) + all_leaves(entries@.skip(i as int)) == all,
                first_unsupported(all_leaves(entries@.take(i as int))) is None,
                entries_match(map.entries@, all_leaves(entries@.take(i as int))),
            decreases entries@.len() - i,
        {
            let ghost done = all_leaves(entries@.take(i as int));
            let ghost here = pattern_leaves(entries@[i as int].0, entries@[i as int].1@);
            let ghost rest = all_leaves(entries@.skip(i + 1));
            proof {
                assert(entries@.skip(i as int)[0] == entries@[i as int]);
                assert(entries@.skip(i as int).skip(1) =~= entries@.skip(i + 1));
                assert(entries@.take(i + 1) =~= entries@.take(i as int) + seq![entries@[i as int]]);
                lemma_all_leaves_concat(entries@.take(i as int), seq![entries@[i as int]]);
                assert(seq![entries@[i as int]].skip(1) =~= Seq::<(KeyPattern, String)>::empty());
                assert(all_leaves(seq![entries@[i as int]].skip(1)) =~= Seq::<
                    (KeyExpr, Seq<char>, Seq<char>),
                >::empty());
                assert(all_leaves(seq![entries@[i as int]]) =~= here);
                lemma_leaves_concat(done, here + rest);
                lemma_leaves_concat(here, rest);
                assert(done + (here + rest) =~= all);
            }
            let ghost before = map.entries@;
            match map.add_variants_from(&entries[i].0, &entries[i].1) {
                Ok(()) => {},
                Err(e) => {
                    proof {
                        lemma_leaves_concat(done, here);
                        assert(first_unsupported(all) == first_unsupported(here));
                    }
                    return Err(e);
                },
            }
            proof {
                lemma_leaves_concat(done, here);
                assert(entries@.take(i + 1).drop_last() =~= entries@.take(i as int));
                assert(map.entries@.take(before.len() as int) == before);
                assert forall|k: int| 0 <= k < map.entries@.len() implies Some(
                    (#[trigger] map.entries@[k])@,
                ) == parse_key((done + here)[k].0) && map.entries@[k].key_expr@ == (done
                    + here)[k].1 && map.entries@[k].value_expr@ == (done + here)[k].2 by {
                    if k < before.len() {
                        assert(map.entries@.take(before.len() as int)[k] == before[k]);
                    } else {
                        assert(map.entries@.skip(before.len() as int)[k - before.len()]
                            == map.entries@[k]);
                    }
                }
            }
            i = i + 1;
        }
        proof {
            assert(entries@.take(i as int) =~= entries@);
        }
        match map.check_duplicates() {
            Ok(()) => Ok(map),
            Err(e) => Err(e),
        }
    }

    /// Expands the `|` patterns of `key`: each alternative becomes an entry
    /// with the value `value`.
    fn add_variants_from(&mut self, key: &KeyPattern, value: &String) -> (r: Result<(), MacroError>)
        requires
            leaves_fit(pattern_leaves(*key, value@)),
        ensures
            ({
                let leaves = pattern_leaves(*key, value@);
                match r {
                    Ok(()) => {
                        &&& first_unsupported(leaves) is None
                        &&& final(self).entries@.len() == old(self).entries@.len() + leaves.len()
                        &&& final(self).entries@.take(old(self).entries@.len() as int) == old(
                            self,
                        ).entries@
                        &&& entries_match(
                            final(self).entries@.skip(old(self).entries@.len() as int),
                            leaves,
                        )
                    },
                    Err(MacroError::UnsupportedKey(t)) => first_unsupported(leaves) == Some(t@),
                    Err(_) => false,
                }
            }),
        decreases key,
    {
        match key {
            KeyPattern::Or(left, right) => {
                // Handle OR pattern: left | right
                proof {
                    lemma_leaves_concat(pattern_leaves(**left, value@), pattern_leaves(**right, value@));
                }
                let ghost e0 = self.entries@;
                match self.add_variants_from(left, value) {
                    Ok(()) => {},
                    Err(e) => {
                        return Err(e);
                    },
                }
                let ghost e1 = self.entries@;
                match self.add_variants_from(right, value) {
                    Ok(()) => {},
                    Err(e) => {
                        return Err(e);
                    },
                }
                proof {
                    let l = pattern_leaves(**left, value@);
                    let rr = pattern_leaves(**right, value@);
                    assert(pattern_leaves(*key, value@) == l + rr);
                    lemma_leaves_concat(l, rr);
                    assert(first_unsupported(l + rr) is None);
                    assert(self.entries@.take(e0.len() as int) =~= e0) by {
                        assert forall|k: int| 0 <= k < e0.len() implies self.entries@[k] == e0[k] by {
                            assert(self.entries@.take(e1.len() as int)[k] == e1[k]);
                            assert(e1.take(e0.len() as int)[k] == e0[k]);
                        }
                    }
                    let added = self.entries@.skip(e0.len() as int);
                    assert forall|k: int| 0 <= k < added.len() implies Some(
                        (#[trigger] added[k])@,
                    ) == parse_key((l + rr)[k].0) && added[k].key_expr@ == (l + rr)[k].1
                        && added[k].value_expr@ == (l + rr)[k].2 by {
                        if k < l.len() {
                            assert(added[k] == e1.skip(e0.len() as int)[k]);
                        } else {
                            assert(added[k] == self.entries@.skip(e1.len() as int)[k - l.len()]);
                        }
                    }
                }
                Ok(())
            },
            KeyPattern::Key(expr, text) => {
                // Single key
                match ParsedKey::from_expr(expr) {
                    Some(parsed_key) => {
                        self.entries.push(
                            Entry { parsed_key, key_expr: text.clone(), value_expr: value.clone() },
                        );
                        proof {
                            let leaves = pattern_leaves(*key, value@);
                            assert(leaves.skip(1) =~= Seq::<
                                (KeyExpr, Seq<char>, Seq<char>),
                            >::empty());
                            assert(first_unsupported(leaves.skip(1)) is None);
                            assert(parse_key(leaves[0].0) is Some);
                            assert(first_unsupported(leaves) is None);
                            assert(self.entries@.take(old(self).entries@.len() as int) =~= old(
                                self,
                            ).entries@);
                            assert(self.entries@.skip(old(self).entries@.len() as int)[0]
                                == self.entries@.last());
                        }
                        Ok(())
                    },
                    None => Err(MacroError::UnsupportedKey(text.clone())),
                }
            },
        }
    }

    /// Refuses a key equal to an earlier one, naming the first such key.
    fn check_duplicates(&self) -> (r: Result<(), MacroError>)
        ensures
            match r {
                Ok(()) => no_duplicates_before(
                    entry_values(self.entries@),
                    self.entries@.len() as int,
                ),
                Err(MacroError::DuplicateKey(t)) => exists|i: int|
                    #[trigger] first_duplicate_at(entry_values(self.entries@), i) && t@
                        == self.entries@[i].key_expr@,
                Err(_) => false,
            },
    {
        let ghost keys = entry_values(self.entries@);
        let mut i: usize = 0;
        while i < self.entries.len()
            invariant
                i <= self.entries@.len(),
                keys == entry_values(self.entries@),
                no_duplicates_before(keys, i as int),
            decreases self.entries@.len() - i,
        {
            let mut j: usize = 0;
            while j < i
                invariant
                    j <= i < self.entries@.len(),
                    keys == entry_values(self.entries@),
                    no_duplicates_before(keys, i as int),
                    forall|k: int| 0 <= k < j ==> keys[k] != keys[i as int],
                decreases i - j,
            {
                if self.entries[j].parsed_key.phf_eq(&self.entries[i].parsed_key) {
                    proof {
                        assert(keys[j as int] == self.entries@[j as int]@);
                        assert(keys[i as int] == self.entries@[i as int]@);
                        assert(first_duplicate_at(keys, i as int));
                    }
                    return Err(MacroError::DuplicateKey(self.entries[i].key_expr.clone()));
                }
                j = j + 1;
            }
            i = i + 1;
        }
        Ok(())
    }
}

/// Items separated by `, `.
pub open spec fn joined(items: Seq<Seq<char>>) -> Seq<char>
    decreases items.len(),
{
    if items.len() == 0 {
        Seq::empty()
    } else if items.len() == 1 {
        items[0]
    } else {
        joined(items.drop_last()) + ", "@ + items.last()
    }
}

/// `(d1, d2)` for each bucket.
pub open spec fn disp_items(disps: Seq<(u32, u32)>) -> Seq<Seq<char>> {
    disps.map_values(|d: (u32, u32)| "("@ + decimal(d.0 as nat) + "u32, "@ + decimal(d.1 as nat) + "u32)"@)
}

/// `(key, value)` for an entry.
pub open spec fn entry_item(e: Entry) -> Seq<char> {
    "("@ + e.key_expr@ + ", "@ + e.value_expr@ + ")"@
}

/// The entries in the order of the slots that hold them.
pub open spec fn slot_items(entries: Seq<Entry>, map: Seq<usize>) -> Seq<Seq<char>> {
    map.map_values(|i: usize| entry_item(entries[i as int]))
}

/// The slot list.
pub open spec fn idx_items(map: Seq<usize>) -> Seq<Seq<char>> {
    map.map_values(|i: usize| decimal(i as nat) + "usize"@)
}

/// The source of a `phf::Map` holding `entries` as `state` places them.
pub open spec fn map_source(entries: Seq<Entry>, state: HashState) -> Seq<char> {
    "phf::Map { key: "@ + decimal(state.key as nat) + "u64, disps: &["@ + joined(
        disp_items(state.disps@),
    ) + "], entries: &["@ + joined(slot_items(entries, state.map@)) + "], }"@
}

/// The source of a `phf::OrderedMap` holding `entries` in their order.
pub open spec fn ordered_map_source(entries: Seq<Entry>, state: HashState) -> Seq<char> {
    "phf::OrderedMap { key: "@ + decimal(state.key as nat) + "u64, disps: &["@ + joined(
        disp_items(state.disps@),
    ) + "], idxs: &["@ + joined(idx_items(state.map@)) + "], entries: &["@ + joined(
        entries.map_values(|e: Entry| entry_item(e)),
    ) + "], }"@
}

/// Appends `items[i]` for each `i`, separated by `, `, where `item` gives
/// the text of each.
fn push_joined_disps(out: &mut String, disps: &Vec<(u32, u32)>)
    ensures
        final(out)@ == old(out)@ + joined(disp_items(disps@)),
{
    let ghost start = out@;
    let ghost items = disp_items(disps@);
    let mut i: usize = 0;
    while i < disps.len()
        invariant
            i <= disps@.len(),
            items == disp_items(disps@),
            items.len() == disps@.len(),
            out@ == start + joined(items.take(i as int)),
        decreases disps@.len() - i,
    {
        if i > 0 {
            out.append(", ");
        }
        let (d1, d2) = disps[i];
        out.append("(");
        push_decimal(out, d1 as u128);
        out.append("u32, ");
        push_decimal(out, d2 as u128);
        out.append("u32)");
        proof {
            let t = items.take(i + 1);
            assert(t.drop_last() =~= items.take(i as int));
            assert(t.last() == items[i as int]);
            if i == 0 {
                assert(t.len() == 1);
            }
            assert(out@ =~= start + joined(t));
        }
        i = i + 1;
    }
    proof {
        assert(items.take(i as int) =~= items);
    }
}

fn push_entry_item(out: &mut String, e: &Entry)
    ensures
        final(out)@ == old(out)@ + entry_item(*e),
{
    out.append("(");
    out.append(e.key_expr.as_str());
    out.append(", ");
    out.append(e.value_expr.as_str());
    out.append(")");
    proof {
        assert(final(out)@ =~= old(out)@ + entry_item(*e));
    }
}

fn push_slot_items(out: &mut String, entries: &[Entry], map: &Vec<usize>)
    requires
        forall|s: int| 0 <= s < map@.len() ==> #[trigger] map@[s] < entries@.len(),
    ensures
        final(out)@ == old(out)@ + joined(slot_items(entries@, map@)),
{
    let ghost start = out@;
    let ghost items = slot_items(entries@, map@);
    let mut s: usize = 0;
    while s < map.len()
        invariant
            s <= map@.len(),
            items == slot_items(entries@, map@),
            items.len() == map@.len(),
            forall|t: int| 0 <= t < map@.len() ==> #[trigger] map@[t] < entries@.len(),
            out@ == start + joined(items.take(s as int)),
        decreases map@.len() - s,
    {
        if s > 0 {
            out.append(", ");
        }
        push_entry_item(out, &entries[map[s]]);
        proof {
            let t = items.take(s + 1);
            assert(t.drop_last() =~= items.take(s as int));
            assert(t.last() == items[s as int]);
            if s == 0 {
                assert(t.len() == 1);
            }
            assert(out@ =~= start + joined(t));
        }
        s = s + 1;
    }
    proof {
        assert(items.take(s as int) =~= items);
    }
}

fn push_ordered_items(out: &mut String, entries: &[Entry])
    ensures
        final(out)@ == old(out)@ + joined(entries@.map_values(|e: Entry| entry_item(e))),
{
    let ghost start = out@;
    let ghost items = entries@.map_values(|e: Entry| entry_item(e));
    let mut i: usize = 0;
    while i < entries.len()
        invariant
            i <= entries@.len(),
            items == entries@.map_values(|e: Entry| entry_item(e)),
            out@ == start + joined(items.take(i as int)),
        decreases entries@.len() - i,
    {
        if i > 0 {
            out.append(", ");
        }
        push_entry_item(out, &entries[i]);
        proof {
            let t = items.take(i + 1);
            assert(t.drop_last() =~= items.take(i as int));
            assert(t.last() == items[i as int]);
            if i == 0 {
                assert(t.len() == 1);
            }
            assert(out@ =~= start + joined(t));
        }
        i = i + 1;
    }
    proof {
        assert(items.take(i as int) =~= items);
    }
}

fn push_idx_items(out: &mut String, map: &Vec<usize>)
    ensures
        final(out)@ == old(out)@ + joined(idx_items(map@)),
{
    let ghost start = out@;
    let ghost items = idx_items(map@);
    let mut s: usize = 0;
    while s < map.len()
        invariant
            s <= map@.len(),
            items == idx_items(map@),
            out@ == start + joined(items.take(s as int)),
        decreases map@.len() - s,
    {
        if s > 0 {
            out.append(", ");
        }
        push_decimal(out, map[s] as u128);
        out.append("usize");
        proof {
            let t = items.take(s + 1);
            assert(t.drop_last() =~= items.take(s as int));
            assert(t.last() == items[s as int]);
            if s == 0 {
                assert(t.len() == 1);
            }
            assert(out@ =~= start + joined(t));
        }
        s = s + 1;
    }
    proof {
        assert(items.take(s as int) =~= items);
    }
}

/// The source of a `phf::Map`: the entries in the order of their slots.
pub fn build_map(entries: &[Entry], state: &HashState) -> (r: String)
    requires
        forall|s: int| 0 <= s < state.map@.len() ==> #[trigger] state.map@[s] < entries@.len(),
    ensures
        r@ == map_source(entries@, *state),
{
    let mut out = String::new();
    out.append("phf::Map { key: ");
    push_decimal(&mut out, state.key as u128);
    out.append("u64, disps: &[");
    push_joined_disps(&mut out, &state.disps);
    out.append("], entries: &[");
    push_slot_items(&mut out, entries, &state.map);
    out.append("], }");
    proof {
        assert(out@ =~= map_source(entries@, *state));
    }
    out
}

/// The source of a `phf::OrderedMap`: the slot list, and the entries in
/// their order.
pub fn build_ordered_map(entries: &[Entry], state: &HashState) -> (r: String)
    ensures
        r@ == ordered_map_source(entries@, *state),
{
    let mut out = String::new();
    out.append("phf::OrderedMap { key: ");
    push_decimal(&mut out, state.key as u128);
    out.append("u64, disps: &[");
    push_joined_disps(&mut out, &state.disps);
    out.append("], idxs: &[");
    push_idx_items(&mut out, &state.map);
    out.append("], entries: &[");
    push_ordered_items(&mut out, entries);
    out.append("], }");
    proof {
        assert(out@ =~= ordered_map_source(entries@, *state));
    }
    out
}

/// Which macro is expanding.
#[derive(Clone, Copy, PartialEq, Eq, Structural)]
pub enum MacroKind {
    PhfMap,
    PhfSet,
    PhfOrderedMap,
    PhfOrderedSet,
}

/// The macro's own name, which `resolve_cfg` hands on.
pub open spec fn macro_name(kind: MacroKind) -> Seq<char> {
    match kind {
        MacroKind::PhfMap => "phf_map"@,
        MacroKind::PhfSet => "phf_set"@,
        MacroKind::PhfOrderedMap => "phf_ordered_map"@,
        MacroKind::PhfOrderedSet => "phf_ordered_set"@,
    }
}

/// One entry of a macro's input.
pub struct MacroEntry {
    /// The key, or the `|` alternatives.
    pub key: KeyPattern,
    /// The source text of the value (the unit value for sets).
    pub value: String,
    /// The entry carries `#[cfg(..)]` attributes.
    pub has_cfg: bool,
    /// The source text of the whole entry, attributes and trailing comma
    /// included.
    pub tokens: String,
}

/// The entries' keys and values.
pub open spec fn entry_pairs(entries: Seq<MacroEntry>) -> Seq<(KeyPattern, String)> {
    entries.map_values(|e: MacroEntry| (e.key, e.value))
}

/// Some entry carries `#[cfg(..)]` attributes.
pub open spec fn any_cfg(entries: Seq<MacroEntry>) -> bool {
    exists|i: int| 0 <= i < entries.len() && (#[trigger] entries[i]).has_cfg
}

/// The groups that `resolve_cfg` hands on, after the entries `entries`:
/// the text of the groups closed so far, and the entries without
/// attributes not yet grouped.
pub open spec fn cfg_groups(entries: Seq<MacroEntry>) -> (Seq<char>, Seq<char>)
    decreases entries.len(),
{
    if entries.len() == 0 {
        (Seq::empty(), Seq::empty())
    } else {
        let (done, pending) = cfg_groups(entries.drop_last());
        let e = entries.last();
        if e.has_cfg {
            (done + "{ "@ + pending + "} "@ + "{ "@ + e.tokens@ + "} "@, Seq::empty())
        } else {
            (done, pending + e.tokens@)
        }
    }
}

/// The source that hands entries with `#[cfg(..)]` attributes to the
/// `__resolve_cfg` macro: each conditional entry in a group of its own, the
/// unconditional ones between them grouped, in their order.
pub open spec fn resolve_cfg_source(kind: MacroKind, entries: Seq<MacroEntry>) -> Seq<char> {
    let (done, pending) = cfg_groups(entries);
    "phf::__resolve_cfg! { "@ + macro_name(kind) + " [] "@ + done + "{ "@ + pending + "} "@
        + "}"@
}

fn push_macro_name(out: &mut String, kind: MacroKind)
    ensures
        final(out)@ == old(out)@ + macro_name(kind),
{
    match kind {
        MacroKind::PhfMap => out.append("phf_map"),
        MacroKind::PhfSet => out.append("phf_set"),
        MacroKind::PhfOrderedMap => out.append("phf_ordered_map"),
        MacroKind::PhfOrderedSet => out.append("phf_ordered_set"),
    }
}

/// Hands the entries to the `__resolve_cfg` macro, which drops those whose
/// `#[cfg(..)]` is off and calls the macro again on the rest.
pub fn resolve_cfg(kind: MacroKind, entries: &Vec<MacroEntry>) -> (r: String)
    ensures
        r@ == resolve_cfg_source(kind, entries@),
{
    let mut out = String::new();
    out.append("phf::__resolve_cfg! { ");
    push_macro_name(&mut out, kind);
    out.append(" [] ");

    // Wrap conditional entries and groups of unconditional entries in { ... }.
    // Grouping avoids unnecessarily hitting macro recursion limit. Entries are
    // not reordered to handle ordered maps correctly.
    let ghost head = out@;
    let mut unconditional = String::new();
    let mut i: usize = 0;
    while i < entries.len()
        invariant
            i <= entries@.len(),
            out@ == head + cfg_groups(entries@.take(i as int)).0,
            unconditional@ == cfg_groups(entries@.take(i as int)).1,
        decreases entries@.len() - i,
    {
        let entry = &entries[i];
        proof {
            assert(entries@.take(i + 1).drop_last() =~= entries@.take(i as int));
            assert(entries@.take(i + 1).last() == entries@[i as int]);
        }
        if !entry.has_cfg {
            unconditional.append(entry.tokens.as_str());
        } else {
            // Pushing groups unconditionally simplifies the decl macro side.
            out.append("{ ");
            out.append(unconditional.as_str());
            out.append("} ");
            unconditional = String::new();
            out.append("{ ");
            out.append(entry.tokens.as_str());
            out.append("} ");
        }
        proof {
            assert(out@ =~= head + cfg_groups(entries@.take(i + 1)).0);
            assert(unconditional@ =~= cfg_groups(entries@.take(i + 1)).1);
        }
        i = i + 1;
    }
    out.append("{ ");
    out.append(unconditional.as_str());
    out.append("} ");
    out.append("}");
    proof {
        assert(entries@.take(i as int) =~= entries@);
        assert(out@ =~= resolve_cfg_source(kind, entries@));
    }
    out
}

/// The source that a macro of kind `kind` emits for `entries` placed as
/// `state` places them.
pub open spec fn kind_source(kind: MacroKind, entries: Seq<Entry>, state: HashState) -> Seq<char> {
    match kind {
        MacroKind::PhfMap => map_source(entries, state),
        MacroKind::PhfSet => "phf::Set { map: "@ + map_source(entries, state) + " }"@,
        MacroKind::PhfOrderedMap => ordered_map_source(entries, state),
        MacroKind::PhfOrderedSet => "phf::OrderedSet { map: "@ + ordered_map_source(entries, state)
            + " }"@,
    }
}

/// The source that a macro emits for parsed entries and a solved table.
pub fn emit_entries(kind: MacroKind, entries: &[Entry], state: &HashState) -> (r: String)
    requires
        forall|s: int| 0 <= s < state.map@.len() ==> #[trigger] state.map@[s] < entries@.len(),
    ensures
        r@ == kind_source(kind, entries@, *state),
{
    match kind {
        MacroKind::PhfMap => build_map(entries, state),
        MacroKind::PhfSet => {
            let map = build_map(entries, state);
            let mut out = String::new();
            out.append("phf::Set { map: ");
            out.append(map.as_str());
            out.append(" }");
            out
        },
        MacroKind::PhfOrderedMap => build_ordered_map(entries, state),
        MacroKind::PhfOrderedSet => {
            let map = build_ordered_map(entries, state);
            let mut out = String::new();
            out.append("phf::OrderedSet { map: ");
            out.append(map.as_str());
            out.append(" }");
            out
        },
    }
}

/// The keys can be hashed and indexed: the parsed keys each feed at most
/// `usize::MAX` bytes and there are at most `u32::MAX` of them.
pub open spec fn leaves_hashable(leaves: Seq<(KeyExpr, Seq<char>, Seq<char>)>) -> bool {
    &&& leaves.len() <= u32::MAX
    &&& forall|i: int|
        0 <= i < leaves.len() && parse_key(#[trigger] leaves[i].0) is Some ==> value_bytes(
            parse_key(leaves[i].0)->0,
        ).len() <= usize::MAX
}

/// Two of the keys, parsed, are equal.
pub open spec fn repeated_key(leaves: Seq<(KeyExpr, Seq<char>, Seq<char>)>) -> bool {
    exists|i: int, j: int|
        0 <= j < i < leaves.len() && #[trigger] parse_key(leaves[j].0) == #[trigger] parse_key(leaves[i].0)
}

/// Expands a map or set macro: entries with `#[cfg(..)]` attributes go to
/// `__resolve_cfg`; otherwise the keys are parsed, checked, placed and the
/// structure's source is emitted.
pub fn emit_code(kind: MacroKind, entries: Vec<MacroEntry>) -> (r: Result<String, MacroError>)
    requires
        leaves_fit(all_leaves(entry_pairs(entries@))),
        leaves_hashable(all_leaves(entry_pairs(entries@))),
    ensures
        any_cfg(entries@) ==> (r matches Ok(t) && t@ == resolve_cfg_source(kind, entries@)),
        !any_cfg(entries@) ==> ({
            let leaves = all_leaves(entry_pairs(entries@));
            match r {
                Ok(t) => exists|m: ParsedMap, state: HashState|
                    #![trigger is_perfect(key_hashes::<Entry>(entry_values(m.entries@), state.key), state.disps@, state.map@), entries_match(m.entries@, leaves)]
                    entries_match(m.entries@, leaves) && no_duplicates_before(
                        entry_values(m.entries@),
                        m.entries@.len() as int,
                    ) && is_perfect(
                        key_hashes::<Entry>(entry_values(m.entries@), state.key),
                        state.disps@,
                        state.map@,
                    ) && t@ == kind_source(kind, m.entries@, state),
                Err(MacroError::UnsupportedKey(t)) => first_unsupported(leaves) == Some(t@),
                Err(MacroError::DuplicateKey(t)) => first_unsupported(leaves) is None && exists|
                    m: ParsedMap,
                    i: int,
                |
                    #![trigger first_duplicate_at(entry_values(m.entries@), i)]
                    entries_match(m.entries@, leaves) && first_duplicate_at(
                        entry_values(m.entries@),
                        i,
                    ) && t@ == m.entries@[i].key_expr@,
                Err(MacroError::Unsolvable) => first_unsupported(leaves) is None && exists|m: ParsedMap|
                    #![trigger entries_match(m.entries@, leaves)]
                    entries_match(m.entries@, leaves) && unsolvable(m.entries@),
            }
        }),
        !any_cfg(entries@) ==> ((r matches Err(MacroError::DuplicateKey(_))) <==> (first_unsupported(
            all_leaves(entry_pairs(entries@)),
        ) is None && repeated_key(all_leaves(entry_pairs(entries@))))),
        entries@.len() == 0 ==> r is Ok,
{
    // If any entries have cfg attributes, resolve them via decl macro
    let mut has_cfg_attrs = false;
    let mut i: usize = 0;
    while i < entries.len()
        invariant
            i <= entries@.len(),
            has_cfg_attrs == exists|j: int| 0 <= j < i && (#[trigger] entries@[j]).has_cfg,
        decreases entries@.len() - i,
    {
        if entries[i].has_cfg {
            has_cfg_attrs = true;
        }
        i = i + 1;
    }
    if has_cfg_attrs {
        return Ok(resolve_cfg(kind, &entries));
    }

    // No cfg attributes - generate code directly
    let ghost pairs_view = entry_pairs(entries@);
    let mut pairs: Vec<(KeyPattern, String)> = Vec::new();
    let mut entries = entries;
    let ghost all = entries@;
    while entries.len() > 0
        invariant
            entries@.len() <= all.len(),
            entries@ == all.take(entries@.len() as int),
            pairs@.len() == all.len() - entries@.len(),
            forall|k: int|
                0 <= k < pairs@.len() ==> #[trigger] pairs@[k] == pairs_view[all.len() - 1 - k],
            pairs_view == entry_pairs(all),
        decreases entries@.len(),
    {
        let ghost m = entries@.len();
        let e = entries.pop().unwrap();
        proof {
            assert(all.take(m as int).drop_last() =~= all.take(m - 1));
        }
        pairs.push((e.key, e.value));
    }
    // `pairs` holds the entries last first; restore their order.
    let mut ordered: Vec<(KeyPattern, String)> = Vec::new();
    while pairs.len() > 0
        invariant
            pairs@.len() <= pairs_view.len(),
            ordered@.len() == pairs_view.len() - pairs@.len(),
            forall|k: int|
                0 <= k < pairs@.len() ==> #[trigger] pairs@[k] == pairs_view[pairs_view.len() - 1 - k],
            forall|k: int| 0 <= k < ordered@.len() ==> #[trigger] ordered@[k] == pairs_view[k],
        decreases pairs@.len(),
    {
        let p = pairs.pop().unwrap();
        ordered.push(p);
    }
    proof {
        assert(ordered@ =~= pairs_view);
    }
    let ghost leaves = all_leaves(pairs_view);
    match ParsedMap::from_parsed(ordered) {
        Ok(map) => {
            proof {
                assert(!repeated_key(leaves)) by {
                    if repeated_key(leaves) {
                        let (i, j) = choose|i: int, j: int|
                            0 <= j < i < leaves.len() && #[trigger] parse_key(leaves[j].0) == #[trigger] parse_key(
                                leaves[i].0,
                            );
                        assert(Some(map.entries@[i]@) == parse_key(leaves[i].0));
                        assert(Some(map.entries@[j]@) == parse_key(leaves[j].0));
                        assert(entry_values(map.entries@)[j] == entry_values(map.entries@)[i]);
                    }
                }
                let keys = entry_values(map.entries@);
                assert forall|i: int| 0 <= i < keys.len() implies (#[trigger] Entry::phf_bytes(
                    map.entries@[i]@,
                )).len() <= usize::MAX by {
                    assert(Some(map.entries@[i]@) == parse_key(all_leaves(pairs_view)[i].0));
                }
            }
            match generate_hash(map.entries.as_slice()) {
                Some(state) => {
                    proof {
                        let hs = Seq::new(
                            map.entries@.len(),
                            |i: int| crate::shared::spec_hash(Entry::phf_bytes(map.entries@[i]@), state.key),
                        );
                        assert(key_hashes::<Entry>(entry_values(map.entries@), state.key) =~= hs);
                        assert(is_perfect(
                            key_hashes::<Entry>(entry_values(map.entries@), state.key),
                            state.disps@,
                            state.map@,
                        ));
                        assert(entries_match(map.entries@, all_leaves(pairs_view)));
                    }
                    Ok(emit_entries(kind, map.entries.as_slice(), &state))
                },
                None => Err(MacroError::Unsolvable),
            }
        },
        Err(err) => {
            proof {
                if err is DuplicateKey {
                    let (m, i) = choose|m: ParsedMap, i: int|
                        #![trigger first_duplicate_at(entry_values(m.entries@), i)]
                        entries_match(m.entries@, leaves) && first_duplicate_at(entry_values(m.entries@), i)
                            && err->DuplicateKey_0@ == m.entries@[i].key_expr@;
                    let j = choose|j: int| 0 <= j < i && entry_values(m.entries@)[j] == entry_values(m.entries@)[i];
                    assert(Some(m.entries@[i]@) == parse_key(leaves[i].0));
                    assert(Some(m.entries@[j]@) == parse_key(leaves[j].0));
                    assert(repeated_key(leaves));
                }
            }
            Err(err)
        },
    }
}


/// An integer literal is read as the key of its suffix's type holding the
/// literal's own value: with an unsigned suffix, any value the type holds;
/// with a signed suffix, any value up to the type's maximum, and under a
/// `-` its negation. An unsuffixed literal is an `i32` with its value up to
/// `i32::MAX`, and no key above it.
pub proof fn law_int_literal_keeps_value(v: u128)
    ensures
        v <= u8::MAX ==> (parse_key(KeyExpr::Int(v, IntSuffix::U8)) matches Some(KeyValue::U8(x)) && x == v),
        v <= u16::MAX ==> (parse_key(KeyExpr::Int(v, IntSuffix::U16)) matches Some(KeyValue::U16(x)) && x == v),
        v <= u32::MAX ==> (parse_key(KeyExpr::Int(v, IntSuffix::U32)) matches Some(KeyValue::U32(x)) && x == v),
        v <= u64::MAX ==> (parse_key(KeyExpr::Int(v, IntSuffix::U64)) matches Some(KeyValue::U64(x)) && x == v),
        parse_key(KeyExpr::Int(v, IntSuffix::U128)) matches Some(KeyValue::U128(x)) && x == v,
        v <= usize::MAX ==> (parse_key(KeyExpr::Int(v, IntSuffix::Usize)) matches Some(KeyValue::Usize(x)) && x == v),
        v <= i8::MAX ==> (parse_key(KeyExpr::Int(v, IntSuffix::I8)) matches Some(KeyValue::I8(x)) && x == v),
        v <= i16::MAX ==> (parse_key(KeyExpr::Int(v, IntSuffix::I16)) matches Some(KeyValue::I16(x)) && x == v),
        v <= i32::MAX ==> (parse_key(KeyExpr::Int(v, IntSuffix::I32)) matches Some(KeyValue::I32(x)) && x == v),
        v <= i64::MAX ==> (parse_key(KeyExpr::Int(v, IntSuffix::I64)) matches Some(KeyValue::I64(x)) && x == v),
        v <= i128::MAX ==> (parse_key(KeyExpr::Int(v, IntSuffix::I128)) matches Some(KeyValue::I128(x)) && x == v),
        v <= isize::MAX ==> (parse_key(KeyExpr::Int(v, IntSuffix::Isize)) matches Some(KeyValue::Isize(x)) && x == v),
        v <= i8::MAX ==> (parse_key(KeyExpr::Neg(Box::new(KeyExpr::Int(v, IntSuffix::I8)))) matches Some(KeyValue::I8(x)) && x == -v),
        v <= i16::MAX ==> (parse_key(KeyExpr::Neg(Box::new(KeyExpr::Int(v, IntSuffix::I16)))) matches Some(KeyValue::I16(x)) && x == -v),
        v <= i32::MAX ==> (parse_key(KeyExpr::Neg(Box::new(KeyExpr::Int(v, IntSuffix::I32)))) matches Some(KeyValue::I32(x)) && x == -v),
        v <= i64::MAX ==> (parse_key(KeyExpr::Neg(Box::new(KeyExpr::Int(v, IntSuffix::I64)))) matches Some(KeyValue::I64(x)) && x == -v),
        v <= i128::MAX ==> (parse_key(KeyExpr::Neg(Box::new(KeyExpr::Int(v, IntSuffix::I128)))) matches Some(KeyValue::I128(x)) && x == -v),
        v <= isize::MAX ==> (parse_key(KeyExpr::Neg(Box::new(KeyExpr::Int(v, IntSuffix::Isize)))) matches Some(KeyValue::Isize(x)) && x == -v),
        v <= i32::MAX ==> (parse_key(KeyExpr::Int(v, IntSuffix::Unsuffixed)) matches Some(KeyValue::I32(x)) && x == v),
        v > i32::MAX ==> parse_key(KeyExpr::Int(v, IntSuffix::Unsuffixed)) is None,
{
}

/// The emitted `phf::Map` lists, at each slot, the entry whose key the
/// table sends to that slot: given any list that holds each entry at its
/// key's slot, the source is the key, the displacements and that list.
pub proof fn law_map_source_places_entries(entries: Seq<Entry>, state: HashState, items: Seq<Seq<char>>)
    requires
        is_perfect(key_hashes::<Entry>(entry_values(entries), state.key), state.disps@, state.map@),
        items.len() == entries.len(),
        forall|i: int|
            0 <= i < entries.len() ==> items[spec_get_index(
                #[trigger] key_hashes::<Entry>(entry_values(entries), state.key)[i],
                state.disps@,
                entries.len(),
            ) as int] == entry_item(entries[i]),
    ensures
        map_source(entries, state) == "phf::Map { key: "@ + decimal(state.key as nat) + "u64, disps: &["@
            + joined(disp_items(state.disps@)) + "], entries: &["@ + joined(items) + "], }"@,
{
    let hs = key_hashes::<Entry>(entry_values(entries), state.key);
    let n = entries.len();
    assert forall|s: int| 0 <= s < n implies items[s] == #[trigger] slot_items(entries, state.map@)[s] by {
        let i = state.map@[s] as int;
        assert(spec_get_index(hs[i], state.disps@, n) == s);
    }
    assert(items =~= slot_items(entries, state.map@));
}

/// The emitted `phf::OrderedMap` lists the entries in their written order,
/// and, at each slot, the index of the entry whose key the table sends to
/// that slot: given any list that holds each index at its key's slot, the
/// source is the key, the displacements, that list and the entries.
pub proof fn law_ordered_map_source_places_indices(entries: Seq<Entry>, state: HashState, idxs: Seq<Seq<char>>)
    requires
        is_perfect(key_hashes::<Entry>(entry_values(entries), state.key), state.disps@, state.map@),
        idxs.len() == entries.len(),
        forall|i: int|
            0 <= i < entries.len() ==> idxs[spec_get_index(
                #[trigger] key_hashes::<Entry>(entry_values(entries), state.key)[i],
                state.disps@,
                entries.len(),
            ) as int] == decimal(i as nat) + "usize"@,
    ensures
        ordered_map_source(entries, state) == "phf::OrderedMap { key: "@ + decimal(state.key as nat)
            + "u64, disps: &["@ + joined(disp_items(state.disps@)) + "], idxs: &["@ + joined(idxs)
            + "], entries: &["@ + joined(Seq::new(entries.len(), |i: int| entry_item(entries[i])))
            + "], }"@,
{
    let hs = key_hashes::<Entry>(entry_values(entries), state.key);
    let n = entries.len();
    assert forall|s: int| 0 <= s < n implies idxs[s] == #[trigger] idx_items(state.map@)[s] by {
        let i = state.map@[s] as int;
        assert(spec_get_index(hs[i], state.disps@, n) == s);
    }
    assert(idxs =~= idx_items(state.map@));
    assert(Seq::new(entries.len(), |i: int| entry_item(entries[i])) =~= entries.map_values(|e: Entry| entry_item(e)));
}


/// An array of byte literals, each suffixed `u8` or unsuffixed and at most
/// 255, is read as the bytes with the literals' values, in their order.
pub proof fn law_byte_array_keeps_values(es: Seq<KeyExpr>)
    requires
        forall|i: int| 0 <= i < es.len() ==> is_byte_lit(#[trigger] es[i]) && es[i]->Int_0 <= u8::MAX,
    ensures
        parse_array(es) matches Some(bs) && bs.len() == es.len() && forall|i: int|
            0 <= i < es.len() ==> bs[i] == #[trigger] es[i]->Int_0,
    decreases es.len(),
{
    if es.len() > 0 {
        let rest = es.skip(1);
        assert forall|i: int| 0 <= i < rest.len() implies is_byte_lit(#[trigger] rest[i])
            && rest[i]->Int_0 <= u8::MAX by {
            assert(rest[i] == es[i + 1]);
        }
        law_byte_array_keeps_values(rest);
        assert(is_byte_lit(es[0]) && es[0]->Int_0 <= u8::MAX);
        let bs = parse_array(es)->Some_0;
        let tail = parse_array(rest)->Some_0;
        assert(bs == seq![es[0]->Int_0 as u8] + tail);
        assert forall|i: int| 0 <= i < es.len() implies bs[i] == #[trigger] es[i]->Int_0 by {
            if i > 0 {
                assert(rest[i - 1] == es[i]);
            }
        }
    }
}

} // verus!
