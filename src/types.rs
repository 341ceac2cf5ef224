//! Field and method type descriptors.
use vstd::prelude::*;
use vstd::slice::slice_subrange;
use vstd::utf8::{encode_utf8, valid_utf8};

use crate::class::ConstantInfo;
use crate::text::utf8_string;

verus! {

/// A type as a descriptor writes it.
#[derive(Debug, PartialEq, Eq)]
pub enum Type {
    Void,
    Boolean,
    Byte,
    Short,
    Char,
    Int,
    Float,
    Long,
    Double,
    Class { name: String },
    Array { component: Box<Type> },
}

/// A method descriptor: the parameter types and the return type.
pub struct MethodDescriptor {
    pub params: Vec<Type>,
    pub return_type: Type,
}

/// The letter of a primitive type; `V` counts only where `void_ok`.
pub open spec fn is_primitive_letter(c: u8, void_ok: bool) -> bool {
    c == 66 || c == 67 || c == 68 || c == 70 || c == 73 || c == 74 || c == 83 || c == 90 || (void_ok && c == 86)
}

/// The first `;` at or after `i`.
pub open spec fn find_semicolon(b: Seq<u8>, i: int) -> Option<int>
    decreases b.len() - i,
{
    if i < 0 || i >= b.len() {
        None
    } else if b[i] == 59 {
        Some(i)
    } else {
        find_semicolon(b, i + 1)
    }
}

/// Where the type that starts at `pos` ends, if a well-formed one starts
/// there: a primitive letter, `[` and a component type, or `L`, a non-empty
/// UTF-8 class name and `;`.
pub open spec fn type_end(b: Seq<u8>, pos: int, void_ok: bool) -> Option<int>
    decreases b.len() - pos,
{
    if pos < 0 || pos >= b.len() {
        None
    } else if is_primitive_letter(b[pos], void_ok) {
        Some(pos + 1)
    } else if b[pos] == 91 {
        type_end(b, pos + 1, false)
    } else if b[pos] == 76 {
        match find_semicolon(b, pos + 1) {
            Some(e) => if e > pos + 1 && valid_utf8(b.subrange(pos + 1, e)) { Some(e + 1) } else { None },
            None => None,
        }
    } else {
        None
    }
}

/// The bytes `b[pos..end]` write the type `t`.
pub open spec fn encodes(t: Type, b: Seq<u8>, pos: int, end: int) -> bool
    decreases t,
{
    &&& 0 <= pos < end <= b.len()
    &&& match t {
        Type::Void => b[pos] == 86 && end == pos + 1,
        Type::Boolean => b[pos] == 90 && end == pos + 1,
        Type::Byte => b[pos] == 66 && end == pos + 1,
        Type::Short => b[pos] == 83 && end == pos + 1,
        Type::Char => b[pos] == 67 && end == pos + 1,
        Type::Int => b[pos] == 73 && end == pos + 1,
        Type::Float => b[pos] == 70 && end == pos + 1,
        Type::Long => b[pos] == 74 && end == pos + 1,
        Type::Double => b[pos] == 68 && end == pos + 1,
        Type::Class { name } => b[pos] == 76 && b[end - 1] == 59 && encode_utf8(name@) == b.subrange(pos + 1, end - 1),
        Type::Array { component } => b[pos] == 91 && encodes(*component, b, pos + 1, end),
    }
}

fn find_semicolon_exec(b: &[u8], from: usize) -> (r: Option<usize>)
    ensures
        match r {
            Some(e) => find_semicolon(b@, from as int) == Some(e as int),
            None => find_semicolon(b@, from as int) is None,
        },
    decreases b.len() - from,
{
    if from >= b.len() {
        None
    } else if b[from] == 59 {
        Some(from)
    } else {
        find_semicolon_exec(b, from + 1)
    }
}

proof fn lemma_find_semicolon_range(b: Seq<u8>, i: int)
    requires
        find_semicolon(b, i) is Some,
    ensures
        i <= find_semicolon(b, i)->Some_0 < b.len(),
        b[find_semicolon(b, i)->Some_0] == 59,
    decreases b.len() - i,
{
    if b[i] != 59 {
        lemma_find_semicolon_range(b, i + 1);
    }
}

impl Type {
    /// Reads the type that starts at byte `pos` of a descriptor; returns it
    /// with the position after it. `void_ok` admits `V`.
    pub fn parse(b: &[u8], pos: usize, void_ok: bool) -> (r: Option<(Type, usize)>)
        ensures
            match r {
                Some((t, end)) => type_end(b@, pos as int, void_ok) == Some(end as int) && encodes(t, b@, pos as int, end as int),
                None => type_end(b@, pos as int, void_ok) is None,
            },
        decreases b.len() - pos,
    {
        if pos >= b.len() {
            return None;
        }
        let c = b[pos];
        let t = if c == 66 {
            Type::Byte
        } else if c == 67 {
            Type::Char
        } else if c == 68 {
            Type::Double
        } else if c == 70 {
            Type::Float
        } else if c == 73 {
            Type::Int
        } else if c == 74 {
            Type::Long
        } else if c == 83 {
            Type::Short
        } else if c == 90 {
            Type::Boolean
        } else if c == 86 && void_ok {
            Type::Void
        } else if c == 91 {
            let (component, end) = Type::parse(b, pos + 1, false)?;
            return Some((Type::Array { component: Box::new(component) }, end));
        } else if c == 76 {
            let e = find_semicolon_exec(b, pos + 1)?;
            proof {
                lemma_find_semicolon_range(b@, pos + 1);
            }
            if e == pos + 1 {
                return None;
            }
            let name = utf8_string(slice_subrange(b, pos + 1, e))?;
            return Some((Type::Class { name }, e + 1));
        } else {
            return None;
        };
        Some((t, pos + 1))
    }

    /// Reads a whole field descriptor.
    pub fn parse_str(text: &str) -> (r: Option<Type>)
        ensures
            r is Some <==> type_end(encode_utf8(text@), 0, false) == Some(encode_utf8(text@).len() as int),
            r matches Some(t) ==> encodes(t, encode_utf8(text@), 0, encode_utf8(text@).len() as int),
    {
        let b = text.as_bytes();
        match Type::parse(b, 0, false) {
            Some((t, end)) => if end == b.len() { Some(t) } else { None },
            None => None,
        }
    }
}

/// The parameter list that starts at `pos`: the start of each parameter
/// type, and the position just after the closing `)`.
pub open spec fn params_from(b: Seq<u8>, pos: int) -> Option<(Seq<int>, int)>
    decreases b.len() - pos,
{
    if pos < 0 || pos >= b.len() {
        None
    } else if b[pos] == 41 {
        Some((Seq::empty(), pos + 1))
    } else {
        match type_end(b, pos, false) {
            Some(e) => if e <= pos || e > b.len() {
                None
            } else {
                match params_from(b, e) {
                    Some((starts, f)) => Some((seq![pos] + starts, f)),
                    None => None,
                }
            },
            None => None,
        }
    }
}

/// A method descriptor: `(`, the parameter types, `)`, and a return type
/// that ends the text.
pub open spec fn method_shape(b: Seq<u8>) -> Option<(Seq<int>, int)> {
    if b.len() > 0 && b[0] == 40 {
        match params_from(b, 1) {
            Some((starts, f)) => if type_end(b, f, true) == Some(b.len() as int) { Some((starts, f)) } else { None },
            None => None,
        }
    } else {
        None
    }
}

/// The types `ts` are written one after another at `starts`, the last one
/// ending at `close`.
pub open spec fn encodes_all(ts: Seq<Type>, b: Seq<u8>, starts: Seq<int>, close: int) -> bool {
    &&& ts.len() == starts.len()
    &&& forall|i: int| 0 <= i < ts.len() ==> encodes(#[trigger] ts[i], b, starts[i], if i + 1 < ts.len() { starts[i + 1] } else { close })
}

/// A descriptor that `encodes` as `t` from `pos` is `V` exactly when `t` is void.
pub proof fn lemma_void_letter(t: Type, b: Seq<u8>, pos: int, end: int)
    requires
        encodes(t, b, pos, end),
    ensures
        t is Void <==> b[pos] == 86,
{
}

impl ConstantInfo {
/// Reads a method descriptor.
pub fn parse_method_descriptor(text: &str) -> (r: Option<MethodDescriptor>)
    ensures
        r is Some <==> method_shape(encode_utf8(text@)) is Some,
        r matches Some(md) ==> ({
            let (starts, f) = method_shape(encode_utf8(text@))->Some_0;
            &&& encodes_all(md.params@, encode_utf8(text@), starts, f - 1)
            &&& encodes(md.return_type, encode_utf8(text@), f, encode_utf8(text@).len() as int)
        }),
{
    let b = text.as_bytes();
    assert(b@ == encode_utf8(text@));
    if b.len() == 0 || b[0] != 40 {
        return None;
    }
    let mut pos: usize = 1;
    let mut params: Vec<Type> = Vec::new();
    let ghost mut seen: Seq<int> = Seq::empty();
    loop
        invariant
            1 <= pos <= b.len(),
            b@ == encode_utf8(text@),
            b@.len() > 0 && b@[0] == 40,
            seen.len() == params.len(),
            params_from(b@, 1) == match params_from(b@, pos as int) {
                Some((st, f)) => Some((seen + st, f)),
                None => None::<(Seq<int>, int)>,
            },
            forall|i: int| 0 <= i < params.len() ==> encodes(#[trigger] params@[i], b@, seen[i], if i + 1 < params.len() { seen[i + 1] } else { pos as int }),
        ensures
            pos < b.len() && b@[pos as int] == 41,
        decreases b.len() - pos,
    {
        if pos >= b.len() {
            assert(params_from(b@, pos as int) is None);
            assert(params_from(b@, 1) is None);
            assert(method_shape(b@) is None);
            return None;
        }
        if b[pos] == 41 {
            break;
        }
        let (t, e) = match Type::parse(b, pos, false) {
            Some(x) => x,
            None => {
                assert(params_from(b@, pos as int) is None);
                assert(params_from(b@, 1) is None);
                assert(method_shape(b@) is None);
                return None;
            },
        };
        proof {
            let rest = params_from(b@, e as int);
            if let Some((st, f)) = rest {
                assert(seen + (seq![pos as int] + st) =~= (seen + seq![pos as int]) + st);
            }
            seen = seen + seq![pos as int];
        }
        params.push(t);
        pos = e;
    }
    proof {
        assert(params_from(b@, pos as int) == Some((Seq::<int>::empty(), pos + 1)));
        assert(seen + Seq::<int>::empty() =~= seen);
    }
    let close = pos;
    pos = pos + 1;
    let (ret, end) = match Type::parse(b, pos, true) {
        Some(x) => x,
        None => return None,
    };
    if end != b.len() {
        return None;
    }
    Some(MethodDescriptor { params, return_type: ret })
}
}

} // verus!
